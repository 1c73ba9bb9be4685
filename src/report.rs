use vstd::prelude::*;

use crate::formatter::{decimal, fixed2, format_count, format_fixed2, format_time, hundredths, time_text};
use crate::metrics::{percall, sat_add, CallableMetrics};
use crate::profiler::{PrimaryCall, PrimaryView};
use crate::terminal::{colored, ANSICode, Terminal};

verus! {

/// Bytes that the UTF-8 encoding of `c` takes.
pub open spec fn utf8_width(c: char) -> nat {
    if (c as u32) < 0x80 {
        1
    } else if (c as u32) < 0x800 {
        2
    } else if (c as u32) < 0x10000 {
        3
    } else {
        4
    }
}

/// Bytes that the UTF-8 encoding of `s` takes.
pub open spec fn utf8_len(s: Seq<char>) -> nat
    decreases s.len(),
{
    if s.len() == 0 {
        0
    } else {
        utf8_len(s.drop_last()) + utf8_width(s.last())
    }
}

/// `n` equals signs.
pub open spec fn rule(n: nat) -> Seq<char> {
    Seq::new(n, |i: int| '=')
}

pub open spec fn header_line(name: Seq<char>) -> Seq<char> {
    "\u{2588} PROFILE: "@ + name + " \u{2588}"@
}

/// The header of a primary call's section: its name, underlined with as many
/// `=` as the name line has bytes.
pub open spec fn header_text(name: Seq<char>) -> Seq<char> {
    "\n"@ + header_line(name) + "\n"@ + rule(utf8_len(header_line(name)))
}

/// Share of `call_ns` in `pcall_ns`, in hundredths of a percent (rounded half
/// up); zero where either time is zero.
pub open spec fn percentage(pcall_ns: u64, call_ns: u64) -> nat {
    if pcall_ns > 0 && call_ns > 0 {
        hundredths(call_ns as nat * 100, pcall_ns as nat)
    } else {
        0
    }
}

/// The row of one subcall under a primary call that took `pcall_ns` in all.
pub open spec fn call_text(m: CallableMetrics, pcall_ns: u64) -> Seq<char> {
    "Name: "@ + m.name@ + "\nTime: ["@ + time_text(m.time_ns as nat) + "] \u{2014} T%: "@ + fixed2(
        percentage(pcall_ns, m.time_ns),
    ) + "%\nNCalls: ["@ + decimal(m.ncalls as nat) + "] \u{2014} PerCall: ["@ + time_text(
        percall(m) as nat,
    ) + "]\n\u{2014}\u{2014}"@
}

/// The totals of a primary call.
pub open spec fn primary_text(m: CallableMetrics) -> Seq<char> {
    "Profile Time: ["@ + time_text(m.time_ns as nat) + "]\nNCalls: ["@ + decimal(m.ncalls as nat)
        + "] \u{2014} PerCall: ["@ + time_text(percall(m) as nat)
        + "]\n\u{2014}\u{2014}\u{2014}\u{2014}\u{2014}\u{2014}\n"@
}

/// The closing line with the time of all primary calls.
pub open spec fn total_text(total_ns: u64) -> Seq<char> {
    "\u{2015}\u{2015}\u{2015} Total Time: ["@ + time_text(total_ns as nat)
        + "] \u{2015}\u{2015}\u{2015}\n\n\n"@
}

/// The time of all primary calls of `ps` (saturating at `u64::MAX`).
pub open spec fn grand_total(ps: Seq<PrimaryView>) -> u64
    decreases ps.len(),
{
    if ps.len() == 0 {
        0
    } else {
        sat_add(grand_total(ps.drop_last()), ps.last().primary.time_ns)
    }
}

pub open spec fn header_color(realtime: bool) -> ANSICode {
    if realtime { ANSICode::Yellow } else { ANSICode::Green }
}

pub open spec fn call_color(realtime: bool) -> ANSICode {
    if realtime { ANSICode::Cyan } else { ANSICode::White }
}

pub open spec fn total_time_color(realtime: bool) -> ANSICode {
    if realtime { ANSICode::Yellow } else { ANSICode::Green }
}

/// The rows of the subcalls `s` of a primary call that took `pcall_ns`.
pub open spec fn rows_text(call: ANSICode, s: Seq<CallableMetrics>, pcall_ns: u64) -> Seq<Seq<char>>
    decreases s.len(),
{
    if s.len() == 0 {
        Seq::empty()
    } else {
        rows_text(call, s.drop_last(), pcall_ns).push(
            colored(call, ANSICode::Reset, call_text(s.last(), pcall_ns)),
        )
    }
}

/// The section of one primary call: header, one row per subcall, totals.
pub open spec fn section_text(header: ANSICode, call: ANSICode, p: PrimaryView) -> Seq<Seq<char>> {
    (seq![colored(header, ANSICode::Reset, header_text(p.primary.name@))] + rows_text(
        call,
        p.subcalls,
        p.primary.time_ns,
    )).push(colored(call, ANSICode::Reset, primary_text(p.primary)))
}

pub open spec fn sections_text(header: ANSICode, call: ANSICode, ps: Seq<PrimaryView>) -> Seq<
    Seq<char>,
>
    decreases ps.len(),
{
    if ps.len() == 0 {
        Seq::empty()
    } else {
        sections_text(header, call, ps.drop_last()) + section_text(header, call, ps.last())
    }
}

/// The whole report, one written piece after another: a section per primary
/// call in order of first use, then the grand total; in the colours given
/// for headers, rows and the total.
pub open spec fn report_text(
    header: ANSICode,
    call: ANSICode,
    total: ANSICode,
    ps: Seq<PrimaryView>,
) -> Seq<Seq<char>> {
    sections_text(header, call, ps).push(
        colored(total, ANSICode::Reset, total_text(grand_total(ps))),
    )
}

/// The views of a list of strings.
pub open spec fn texts(v: Seq<String>) -> Seq<Seq<char>> {
    v.map_values(|s: String| s@)
}

/// Bytes that the UTF-8 encoding of `s` takes.
fn utf8_byte_len(s: &str) -> (r: u128)
    ensures
        r == utf8_len(s@),
{
    let n = s.unicode_len();
    let mut i: usize = 0;
    let mut total: u128 = 0;
    while i < n
        invariant
            n == s@.len(),
            i <= n,
            total == utf8_len(s@.subrange(0, i as int)),
            total <= 4 * i,
        decreases n - i,
    {
        let c = s.get_char(i);
        let code = c as u32;
        let w: u128 = if code < 0x80 {
            1
        } else if code < 0x800 {
            2
        } else if code < 0x10000 {
            3
        } else {
            4
        };
        proof {
            assert(s@.subrange(0, i + 1).drop_last() =~= s@.subrange(0, i as int));
        }
        total = total + w;
        i = i + 1;
    }
    assert(s@.subrange(0, n as int) =~= s@);
    total
}

/// Renders the profiler's metrics as the text of a report.
pub struct ProfileMetricsReport {
    pub terminal: Terminal,
    pub header_color: ANSICode,
    pub call_color: ANSICode,
    pub total_time_color: ANSICode,
}

impl ProfileMetricsReport {
    pub open spec fn colors_of(&self, realtime: bool) -> bool {
        &&& self.header_color == header_color(realtime)
        &&& self.call_color == call_color(realtime)
        &&& self.total_time_color == total_time_color(realtime)
        &&& self.terminal.ansi_reset == ANSICode::Reset
    }

    /// A report in the colours of realtime mode or of an explicit report.
    pub fn new(realtime: bool) -> (r: ProfileMetricsReport)
        ensures
            r.colors_of(realtime),
            r.terminal.ansi_color == ANSICode::White,
    {
        let terminal = Terminal::new();
        let header_color = Self::get_header_color(realtime);
        let call_color = Self::get_call_color(realtime);
        let total_time_color = Self::get_total_time_color(realtime);
        ProfileMetricsReport { terminal, header_color, call_color, total_time_color }
    }

    fn get_header_color(realtime: bool) -> (r: ANSICode)
        ensures
            r == header_color(realtime),
    {
        if realtime {
            ANSICode::Yellow
        } else {
            ANSICode::Green
        }
    }

    fn get_call_color(realtime: bool) -> (r: ANSICode)
        ensures
            r == call_color(realtime),
    {
        if realtime {
            ANSICode::Cyan
        } else {
            ANSICode::White
        }
    }

    fn get_total_time_color(realtime: bool) -> (r: ANSICode)
        ensures
            r == total_time_color(realtime),
    {
        if realtime {
            ANSICode::Yellow
        } else {
            ANSICode::Green
        }
    }

    /// Share of `call_ns` in `pcall_ns` in hundredths of a percent, rounded
    /// half up; zero where either time is zero.
    pub fn get_relative_percentage(&self, pcall_ns: u64, call_ns: u64) -> (r: u128)
        ensures
            r == percentage(pcall_ns, call_ns),
            pcall_ns == 0 || call_ns == 0 ==> r == 0,
    {
        if pcall_ns > 0 && call_ns > 0 {
            ((call_ns as u128) * 10000 + (pcall_ns as u128) / 2) / (pcall_ns as u128)
        } else {
            0
        }
    }

    fn write_primary_call_header(&mut self, call_metrics: &CallableMetrics) -> (r: String)
        ensures
            r@ == colored(old(self).header_color, old(self).terminal.ansi_reset, header_text(
                call_metrics.name@,
            )),
            *final(self) == (ProfileMetricsReport {
                terminal: Terminal { ansi_color: old(self).header_color, ..old(self).terminal },
                ..*old(self)
            }),
    {
        let mut head = String::from_str("\u{2588} PROFILE: ");
        head.append(call_metrics.name.as_str());
        head.append(" \u{2588}");
        let ghost head_view = head@;
        assert(head_view == header_line(call_metrics.name@));
        proof {
            reveal_strlit("\u{2588} PROFILE: ");
            reveal_strlit(" \u{2588}");
        }
        let width = utf8_byte_len(head.as_str());
        let mut text = String::from_str("\n");
        text.append(head.as_str());
        text.append("\n");
        let mut k: u128 = 0;
        while k < width
            invariant
                k <= width,
                text@ == "\n"@ + head_view + "\n"@ + rule(k as nat),
            decreases width - k,
        {
            text.append("=");
            proof {
                reveal_strlit("=");
                assert(rule(k as nat).push('=') =~= rule(k as nat + 1));
            }
            k = k + 1;
        }
        self.terminal.set_ansi_color(self.header_color);
        self.terminal.render(text.as_str())
    }

    fn write_primacy_call_report(&mut self, pcall_metrics: &CallableMetrics) -> (r: String)
        ensures
            r@ == colored(old(self).call_color, old(self).terminal.ansi_reset, primary_text(
                *pcall_metrics,
            )),
            *final(self) == (ProfileMetricsReport {
                terminal: Terminal { ansi_color: old(self).call_color, ..old(self).terminal },
                ..*old(self)
            }),
    {
        let mut text = String::from_str("Profile Time: [");
        text.append(format_time(pcall_metrics.time_ns).as_str());
        text.append("]\nNCalls: [");
        text.append(format_count(pcall_metrics.ncalls).as_str());
        text.append("] \u{2014} PerCall: [");
        text.append(format_time(pcall_metrics.get_percall_time()).as_str());
        text.append("]\n\u{2014}\u{2014}\u{2014}\u{2014}\u{2014}\u{2014}\n");
        self.terminal.set_ansi_color(self.call_color);
        self.terminal.render(text.as_str())
    }

    fn write_call_report(&mut self, call_metrics: &CallableMetrics, pcall_time: u64) -> (r: String)
        ensures
            r@ == colored(old(self).call_color, old(self).terminal.ansi_reset, call_text(
                *call_metrics,
                pcall_time,
            )),
            *final(self) == (ProfileMetricsReport {
                terminal: Terminal { ansi_color: old(self).call_color, ..old(self).terminal },
                ..*old(self)
            }),
    {
        let prc = self.get_relative_percentage(pcall_time, call_metrics.time_ns);
        let mut text = String::from_str("Name: ");
        text.append(call_metrics.name.as_str());
        text.append("\nTime: [");
        text.append(format_time(call_metrics.time_ns).as_str());
        text.append("] \u{2014} T%: ");
        text.append(format_fixed2(prc).as_str());
        text.append("%\nNCalls: [");
        text.append(format_count(call_metrics.ncalls).as_str());
        text.append("] \u{2014} PerCall: [");
        text.append(format_time(call_metrics.get_percall_time()).as_str());
        text.append("]\n\u{2014}\u{2014}");
        self.terminal.set_ansi_color(self.call_color);
        self.terminal.render(text.as_str())
    }

    /// The time of all primary calls, saturating at `u64::MAX`.
    pub fn get_total_time(&self, timing_refs: &Vec<PrimaryCall>) -> (r: u64)
        ensures
            r == grand_total(timing_refs@.map_values(|p: PrimaryCall| p@)),
    {
        let ghost ps = timing_refs@.map_values(|p: PrimaryCall| p@);
        let mut total: u64 = 0;
        let mut i: usize = 0;
        while i < timing_refs.len()
            invariant
                i <= ps.len(),
                ps.len() == timing_refs@.len(),
                ps == timing_refs@.map_values(|p: PrimaryCall| p@),
                total == grand_total(ps.subrange(0, i as int)),
            decreases ps.len() - i,
        {
            proof {
                assert(ps.subrange(0, i + 1).drop_last() =~= ps.subrange(0, i as int));
            }
            total = total.saturating_add(timing_refs[i].primary.time_ns);
            i = i + 1;
        }
        assert(ps.subrange(0, i as int) =~= ps);
        total
    }

    /// The report of the primary calls `timing_refs`, as the pieces that are
    /// written one after another.
    pub fn write_report(&mut self, timing_refs: &Vec<PrimaryCall>) -> (r: Vec<String>)
        requires
            old(self).terminal.ansi_reset == ANSICode::Reset,
        ensures
            texts(r@) == report_text(
                old(self).header_color,
                old(self).call_color,
                old(self).total_time_color,
                timing_refs@.map_values(|p: PrimaryCall| p@),
            ),
            final(self).header_color == old(self).header_color,
            final(self).call_color == old(self).call_color,
            final(self).total_time_color == old(self).total_time_color,
            final(self).terminal.ansi_reset == ANSICode::Reset,
    {
        let ghost ps = timing_refs@.map_values(|p: PrimaryCall| p@);
        let ghost hc = self.header_color;
        let ghost cc = self.call_color;
        let ghost tc = self.total_time_color;
        let mut out: Vec<String> = Vec::new();
        let mut i: usize = 0;
        proof {
            assert(texts(out@) =~= Seq::empty());
        }
        while i < timing_refs.len()
            invariant
                i <= ps.len(),
                ps.len() == timing_refs@.len(),
                ps == timing_refs@.map_values(|p: PrimaryCall| p@),
                self.header_color == hc,
                self.call_color == cc,
                self.total_time_color == tc,
                self.terminal.ansi_reset == ANSICode::Reset,
                texts(out@) == sections_text(hc, cc, ps.subrange(0, i as int)),
            decreases ps.len() - i,
        {
            let p = &timing_refs[i];
            let ghost before = texts(out@);
            let h = self.write_primary_call_header(&p.primary);
            out.push(h);
            proof {
                assert(texts(out@) =~= before + seq![h@]);
            }
            let pcall_time = p.primary.time_ns;
            let mut j: usize = 0;
            while j < p.subcalls.len()
                invariant
                    j <= p.subcalls@.len(),
                    p == &timing_refs@[i as int],
                    pcall_time == p.primary.time_ns,
                    self.header_color == hc,
                    self.call_color == cc,
                    self.total_time_color == tc,
                    self.terminal.ansi_reset == ANSICode::Reset,
                    texts(out@) == before + seq![h@] + rows_text(
                        cc,
                        p.subcalls@.subrange(0, j as int),
                        pcall_time,
                    ),
                decreases p.subcalls@.len() - j,
            {
                let row = self.write_call_report(&p.subcalls[j], pcall_time);
                let ghost prev = texts(out@);
                out.push(row);
                proof {
                    assert(texts(out@) =~= prev.push(row@));
                    assert(p.subcalls@.subrange(0, j + 1).drop_last() =~= p.subcalls@.subrange(
                        0,
                        j as int,
                    ));
                }
                j = j + 1;
            }
            let tail = self.write_primacy_call_report(&p.primary);
            let ghost prev = texts(out@);
            out.push(tail);
            proof {
                assert(texts(out@) =~= prev.push(tail@));
                assert(p.subcalls@.subrange(0, j as int) =~= p.subcalls@);
                assert(ps.subrange(0, i + 1).drop_last() =~= ps.subrange(0, i as int));
                assert(ps[i as int] == p@);
                assert(texts(out@) =~= sections_text(hc, cc, ps.subrange(0, i as int))
                    + section_text(hc, cc, ps[i as int]));
            }
            i = i + 1;
        }
        proof {
            assert(ps.subrange(0, i as int) =~= ps);
        }
        let total_time_ns = self.get_total_time(timing_refs);
        let mut text = String::from_str("\u{2015}\u{2015}\u{2015} Total Time: [");
        text.append(format_time(total_time_ns).as_str());
        text.append("] \u{2015}\u{2015}\u{2015}\n\n\n");
        self.terminal.set_ansi_color(self.total_time_color);
        let last = self.terminal.render(text.as_str());
        let ghost prev = texts(out@);
        out.push(last);
        proof {
            assert(texts(out@) =~= prev.push(last@));
        }
        out
    }
}

} // verus!
