use vstd::prelude::*;

use crate::metrics::{bumped, entered, has_hash, metrics_wf, record_all, record_of, reset};
use crate::metrics::{enter_in, find_metrics, lemma_entered, lemma_record_all, record_in};
use crate::metrics::{unique_hashes, CallableMetrics};
use crate::report::ProfileMetricsReport;
use crate::report::{call_color, header_color, report_text, texts, total_time_color};

verus! {

/// What was measured under one primary call: the primary's own totals and one
/// record for each other callable invoked while it was in flight.
pub struct PrimaryCall {
    pub primary: CallableMetrics,
    pub subcalls: Vec<CallableMetrics>,
}

pub ghost struct PrimaryView {
    pub primary: CallableMetrics,
    pub subcalls: Seq<CallableMetrics>,
}

impl View for PrimaryCall {
    type V = PrimaryView;

    open spec fn view(&self) -> PrimaryView {
        PrimaryView { primary: self.primary, subcalls: self.subcalls@ }
    }
}

/// The profiler as a mathematical value.
pub ghost struct ProfilerView {
    /// Whether the report is due each time a primary call completes.
    pub realtime: bool,
    /// One record per registered callable, over all its calls.
    pub calls: Seq<CallableMetrics>,
    /// One entry per callable that has been a primary call, in order of first use.
    pub primaries: Seq<PrimaryView>,
    /// The primary call in flight, if any.
    pub pcall: Option<u64>,
    /// How many instrumented calls are in flight.
    pub depth: nat,
}

/// Some entry of `ps` is the primary call `p`.
pub open spec fn has_primary(ps: Seq<PrimaryView>, p: u64) -> bool {
    exists|i: int| 0 <= i < ps.len() && #[trigger] ps[i].primary.call_hash == p
}

/// The entry of primary call `p` in `ps` (meaningful where `has_primary(ps, p)`).
pub open spec fn primary_of(ps: Seq<PrimaryView>, p: u64) -> PrimaryView {
    ps[choose|i: int| 0 <= i < ps.len() && #[trigger] ps[i].primary.call_hash == p]
}

pub open spec fn unique_primaries(ps: Seq<PrimaryView>) -> bool {
    forall|i: int, j: int|
        0 <= i < ps.len() && 0 <= j < ps.len() && i != j ==> #[trigger] ps[i].primary.call_hash
            != #[trigger] ps[j].primary.call_hash
}

pub open spec fn all_metrics_wf(s: Seq<CallableMetrics>) -> bool {
    forall|i: int| 0 <= i < s.len() ==> metrics_wf(#[trigger] s[i])
}

pub open spec fn primary_wf(p: PrimaryView) -> bool {
    &&& metrics_wf(p.primary)
    &&& unique_hashes(p.subcalls)
    &&& all_metrics_wf(p.subcalls)
    &&& !has_hash(p.subcalls, p.primary.call_hash)
}

/// The invariant of the profiler.
pub open spec fn view_wf(v: ProfilerView) -> bool {
    &&& unique_hashes(v.calls)
    &&& all_metrics_wf(v.calls)
    &&& unique_primaries(v.primaries)
    &&& forall|i: int| 0 <= i < v.primaries.len() ==> primary_wf(#[trigger] v.primaries[i])
    &&& (v.pcall is Some <==> v.depth > 0)
    &&& (v.pcall is Some ==> has_primary(v.primaries, v.pcall->0))
}

/// `ps` with an entry for primary call `p`, a cleared copy of its record in
/// `calls`, added where it had none.
pub open spec fn with_root(ps: Seq<PrimaryView>, calls: Seq<CallableMetrics>, p: u64) -> Seq<
    PrimaryView,
> {
    if has_primary(ps, p) {
        ps
    } else {
        ps.push(PrimaryView { primary: reset(record_of(calls, p)), subcalls: Seq::empty() })
    }
}

/// `ps` after callable `h` was seen in flight under primary call `p`: a call
/// of the primary itself counts toward its own totals, any other has a
/// subcall record under `p`.
pub open spec fn enter_under(ps: Seq<PrimaryView>, calls: Seq<CallableMetrics>, p: u64, h: u64) -> Seq<
    PrimaryView,
> {
    Seq::new(
        ps.len(),
        |i: int|
            if ps[i].primary.call_hash == p && h != p {
                PrimaryView { subcalls: entered(ps[i].subcalls, calls, h), ..ps[i] }
            } else {
                ps[i]
            },
    )
}

/// `ps` after a call of `h` under primary call `p` that took `elapsed` nanoseconds.
pub open spec fn record_under(ps: Seq<PrimaryView>, p: u64, h: u64, elapsed: u64) -> Seq<PrimaryView> {
    Seq::new(
        ps.len(),
        |i: int|
            if ps[i].primary.call_hash == p {
                if h == p {
                    PrimaryView { primary: bumped(ps[i].primary, elapsed), ..ps[i] }
                } else {
                    PrimaryView { subcalls: record_all(ps[i].subcalls, h, elapsed), ..ps[i] }
                }
            } else {
                ps[i]
            },
    )
}

/// The profiler after an instrumented call of `h` begins: with no primary in
/// flight `h` becomes the primary call; otherwise the primary stays, and `h`
/// is entered under it.
pub open spec fn begin_model(v: ProfilerView, h: u64) -> ProfilerView {
    let root = match v.pcall {
        Some(p) => p,
        None => h,
    };
    ProfilerView {
        primaries: enter_under(with_root(v.primaries, v.calls, root), v.calls, root, h),
        pcall: Some(root),
        depth: v.depth + 1,
        ..v
    }
}

/// The profiler after an instrumented call of `h` that took `elapsed`
/// nanoseconds returns: its record and its record under the primary call
/// grow by the call, and the primary call is over when the outermost call returns.
pub open spec fn end_model(v: ProfilerView, h: u64, elapsed: u64) -> ProfilerView
    recommends
        v.pcall is Some,
{
    let root = v.pcall->0;
    ProfilerView {
        calls: record_all(v.calls, h, elapsed),
        primaries: record_under(enter_under(v.primaries, v.calls, root, h), root, h, elapsed),
        pcall: if v.depth == 1 { None } else { v.pcall },
        depth: (v.depth - 1) as nat,
        ..v
    }
}

/// The profiler after an instrumented call failed: nothing is recorded, and
/// the primary call is over if the failed call was the outermost one.
pub open spec fn abandon_model(v: ProfilerView) -> ProfilerView {
    ProfilerView {
        pcall: if v.depth <= 1 { None } else { v.pcall },
        depth: if v.depth == 0 { 0 } else { (v.depth - 1) as nat },
        ..v
    }
}

/// The call-attribution engine and its metrics store.
///
/// At most one primary call is in flight at a time: an instrumented call that
/// begins while another is in flight is attributed to that primary call, also
/// where it happens on another thread that shares the profiler.
pub struct TimeProfiler {
    realtime: bool,
    callable_refs: Vec<CallableMetrics>,
    timing_refs: Vec<PrimaryCall>,
    pcall_hash: Option<u64>,
    depth: u64,
}

impl View for TimeProfiler {
    type V = ProfilerView;

    closed spec fn view(&self) -> ProfilerView {
        ProfilerView {
            realtime: self.realtime,
            calls: self.callable_refs@,
            primaries: self.timing_refs@.map_values(|p: PrimaryCall| p@),
            pcall: self.pcall_hash,
            depth: self.depth as nat,
        }
    }
}

fn find_primary(v: &Vec<PrimaryCall>, p: u64) -> (r: Option<usize>)
    ensures
        match r {
            Some(i) => i < v@.len() && v@[i as int].primary.call_hash == p,
            None => !has_primary(v@.map_values(|q: PrimaryCall| q@), p),
        },
{
    let mut i: usize = 0;
    while i < v.len()
        invariant
            i <= v@.len(),
            forall|j: int| 0 <= j < i ==> #[trigger] v@[j].primary.call_hash != p,
        decreases v@.len() - i,
    {
        if v[i].primary.call_hash == p {
            return Some(i);
        }
        i += 1;
    }
    let ghost ps = v@.map_values(|q: PrimaryCall| q@);
    assert forall|j: int| 0 <= j < ps.len() implies #[trigger] ps[j].primary.call_hash != p by {
        assert(v@[j].primary.call_hash != p);
    }
    None
}

impl TimeProfiler {
    pub open spec fn wf(&self) -> bool {
        view_wf(self@)
    }

    pub fn new(realtime: bool) -> (r: TimeProfiler)
        ensures
            r.wf(),
            r@ == (ProfilerView {
                realtime,
                calls: Seq::empty(),
                primaries: Seq::empty(),
                pcall: None,
                depth: 0,
            }),
    {
        let r = TimeProfiler {
            realtime,
            callable_refs: Vec::new(),
            timing_refs: Vec::new(),
            pcall_hash: None,
            depth: 0,
        };
        assert(r@.primaries =~= Seq::empty());
        r
    }
}


proof fn lemma_with_root(ps: Seq<PrimaryView>, calls: Seq<CallableMetrics>, p: u64)
    requires
        unique_primaries(ps),
        forall|i: int| 0 <= i < ps.len() ==> primary_wf(#[trigger] ps[i]),
        has_primary(ps, p) || has_hash(calls, p),
        unique_hashes(calls),
    ensures
        unique_primaries(with_root(ps, calls, p)),
        forall|i: int|
            0 <= i < with_root(ps, calls, p).len() ==> primary_wf(#[trigger] with_root(ps, calls, p)[i]),
        has_primary(with_root(ps, calls, p), p),
        forall|g: u64| has_primary(ps, g) ==> has_primary(with_root(ps, calls, p), g),
{
    let w = with_root(ps, calls, p);
    if !has_primary(ps, p) {
        let c = choose|c: int| 0 <= c < calls.len() && #[trigger] calls[c].call_hash == p;
        crate::metrics::lemma_record_of_index(calls, c);
        assert(w[ps.len() as int].primary.call_hash == p);
        assert(unique_primaries(w)) by {
            assert forall|i: int, j: int|
                0 <= i < w.len() && 0 <= j < w.len() && i != j implies #[trigger] w[i].primary.call_hash
                != #[trigger] w[j].primary.call_hash by {
                if i < ps.len() && j < ps.len() {
                    assert(ps[i].primary.call_hash != ps[j].primary.call_hash);
                } else if i < ps.len() {
                    assert(ps[i].primary.call_hash != p);
                } else {
                    assert(ps[j].primary.call_hash != p);
                }
            }
        }
        assert forall|i: int| 0 <= i < w.len() implies primary_wf(#[trigger] w[i]) by {
            if i < ps.len() {
                assert(primary_wf(ps[i]));
            } else {
                assert(w[i].subcalls =~= Seq::empty());
            }
        }
        assert forall|g: u64| has_primary(ps, g) implies has_primary(w, g) by {
            let i = choose|i: int| 0 <= i < ps.len() && #[trigger] ps[i].primary.call_hash == g;
            assert(w[i].primary.call_hash == g);
        }
    }
}

proof fn lemma_enter_under(ps: Seq<PrimaryView>, calls: Seq<CallableMetrics>, p: u64, h: u64)
    requires
        unique_primaries(ps),
        forall|i: int| 0 <= i < ps.len() ==> primary_wf(#[trigger] ps[i]),
        has_hash(calls, h),
        unique_hashes(calls),
    ensures
        unique_primaries(enter_under(ps, calls, p, h)),
        forall|i: int|
            0 <= i < enter_under(ps, calls, p, h).len() ==> primary_wf(
                #[trigger] enter_under(ps, calls, p, h)[i],
            ),
        forall|g: u64| has_primary(enter_under(ps, calls, p, h), g) == has_primary(ps, g),
{
    let e = enter_under(ps, calls, p, h);
    assert forall|i: int| 0 <= i < e.len() implies primary_wf(#[trigger] e[i]) by {
        assert(primary_wf(ps[i]));
        if ps[i].primary.call_hash == p && h != p {
            lemma_entered(ps[i].subcalls, calls, h);
            let s = entered(ps[i].subcalls, calls, h);
            if !has_hash(ps[i].subcalls, h) {
                let c = choose|c: int| 0 <= c < calls.len() && #[trigger] calls[c].call_hash == h;
                assert(calls[c].call_hash == h);
                assert(s[ps[i].subcalls.len() as int] == reset(record_of(calls, h)));
            }
            assert forall|k: int| 0 <= k < s.len() implies metrics_wf(#[trigger] s[k]) by {
                if k < ps[i].subcalls.len() {
                    assert(metrics_wf(ps[i].subcalls[k]));
                }
            }
        }
    }
    assert(unique_primaries(e)) by {
        assert forall|i: int, j: int|
            0 <= i < e.len() && 0 <= j < e.len() && i != j implies #[trigger] e[i].primary.call_hash
            != #[trigger] e[j].primary.call_hash by {
            assert(ps[i].primary.call_hash != ps[j].primary.call_hash);
        }
    }
    assert forall|g: u64| has_primary(e, g) == has_primary(ps, g) by {
        if has_primary(e, g) {
            let i = choose|i: int| 0 <= i < e.len() && #[trigger] e[i].primary.call_hash == g;
            assert(ps[i].primary.call_hash == g);
        }
        if has_primary(ps, g) {
            let i = choose|i: int| 0 <= i < ps.len() && #[trigger] ps[i].primary.call_hash == g;
            assert(e[i].primary.call_hash == g);
        }
    }
}

proof fn lemma_record_under(ps: Seq<PrimaryView>, p: u64, h: u64, elapsed: u64)
    requires
        unique_primaries(ps),
        forall|i: int| 0 <= i < ps.len() ==> primary_wf(#[trigger] ps[i]),
    ensures
        unique_primaries(record_under(ps, p, h, elapsed)),
        forall|i: int|
            0 <= i < record_under(ps, p, h, elapsed).len() ==> primary_wf(
                #[trigger] record_under(ps, p, h, elapsed)[i],
            ),
        forall|g: u64| has_primary(record_under(ps, p, h, elapsed), g) == has_primary(ps, g),
{
    let r = record_under(ps, p, h, elapsed);
    assert forall|i: int| 0 <= i < r.len() implies primary_wf(#[trigger] r[i]) by {
        assert(primary_wf(ps[i]));
        if ps[i].primary.call_hash == p && h != p {
            lemma_record_all(ps[i].subcalls, h, elapsed);
            let s = record_all(ps[i].subcalls, h, elapsed);
            assert forall|k: int| 0 <= k < s.len() implies metrics_wf(#[trigger] s[k]) by {
                assert(metrics_wf(ps[i].subcalls[k]));
            }
        }
    }
    assert(unique_primaries(r)) by {
        assert forall|i: int, j: int|
            0 <= i < r.len() && 0 <= j < r.len() && i != j implies #[trigger] r[i].primary.call_hash
            != #[trigger] r[j].primary.call_hash by {
            assert(ps[i].primary.call_hash != ps[j].primary.call_hash);
        }
    }
    assert forall|g: u64| has_primary(r, g) == has_primary(ps, g) by {
        if has_primary(r, g) {
            let i = choose|i: int| 0 <= i < r.len() && #[trigger] r[i].primary.call_hash == g;
            assert(ps[i].primary.call_hash == g);
        }
        if has_primary(ps, g) {
            let i = choose|i: int| 0 <= i < ps.len() && #[trigger] ps[i].primary.call_hash == g;
            assert(r[i].primary.call_hash == g);
        }
    }
}

/// Beginning a call keeps the profiler well formed.
pub proof fn lemma_begin_wf(v: ProfilerView, h: u64)
    requires
        view_wf(v),
        has_hash(v.calls, h),
    ensures
        view_wf(begin_model(v, h)),
{
    let root = match v.pcall {
        Some(p) => p,
        None => h,
    };
    lemma_with_root(v.primaries, v.calls, root);
    let w = with_root(v.primaries, v.calls, root);
    lemma_enter_under(w, v.calls, root, h);
}

/// Ending a call keeps the profiler well formed.
pub proof fn lemma_end_wf(v: ProfilerView, h: u64, elapsed: u64)
    requires
        view_wf(v),
        has_hash(v.calls, h),
        v.depth > 0,
    ensures
        view_wf(end_model(v, h, elapsed)),
{
    let root = v.pcall->0;
    lemma_enter_under(v.primaries, v.calls, root, h);
    let e = enter_under(v.primaries, v.calls, root, h);
    lemma_record_under(e, root, h, elapsed);
    lemma_record_all(v.calls, h, elapsed);
    let c = record_all(v.calls, h, elapsed);
    assert forall|k: int| 0 <= k < c.len() implies metrics_wf(#[trigger] c[k]) by {
        assert(metrics_wf(v.calls[k]));
    }
}

impl TimeProfiler {
    /// Makes sure that callable `call_hash` has a record; a callable registered
    /// before keeps its record as it is.
    pub fn register(&mut self, call_hash: u64, name: String)
        requires
            old(self).wf(),
        ensures
            final(self).wf(),
            has_hash(old(self)@.calls, call_hash) ==> final(self)@ == old(self)@,
            !has_hash(old(self)@.calls, call_hash) ==> {
                let m = final(self)@.calls.last();
                &&& final(self)@ == (ProfilerView { calls: old(self)@.calls.push(m), ..old(self)@ })
                &&& m.name == name
                &&& m.module@ == "wrapped_function"@
                &&& m.call_hash == call_hash
                &&& m.ncalls == 0
                &&& m.time_ns == 0
            },
    {
        let ghost v = self@;
        match find_metrics(&self.callable_refs, call_hash) {
            Some(_) => {},
            None => {
                let m = CallableMetrics::new(
                    name,
                    String::from_str("wrapped_function"),
                    call_hash,
                    0,
                    0,
                );
                self.callable_refs.push(m);
                proof {
                    let s = self.callable_refs@;
                    assert(s.last() == m);
                    assert forall|i: int, j: int|
                        0 <= i < s.len() && 0 <= j < s.len() && i != j implies #[trigger] s[i].call_hash
                        != #[trigger] s[j].call_hash by {
                        if i < v.calls.len() && j < v.calls.len() {
                            assert(v.calls[i].call_hash != v.calls[j].call_hash);
                        } else if i < v.calls.len() {
                            assert(v.calls[i].call_hash != call_hash);
                        } else {
                            assert(v.calls[j].call_hash != call_hash);
                        }
                    }
                    assert forall|i: int| 0 <= i < s.len() implies metrics_wf(#[trigger] s[i]) by {
                        if i < v.calls.len() {
                            assert(metrics_wf(v.calls[i]));
                        }
                    }
                }
            },
        }
    }

    fn primary_index(&self, root: u64) -> (j: usize)
        requires
            self.wf(),
            has_primary(self@.primaries, root),
        ensures
            j < self@.primaries.len(),
            self@.primaries[j as int].primary.call_hash == root,
    {
        match find_primary(&self.timing_refs, root) {
            Some(j) => j,
            None => {
                proof {
                    let i = choose|i: int|
                        0 <= i < self@.primaries.len() && #[trigger] self@.primaries[i].primary.call_hash
                            == root;
                    assert(self@.primaries[i].primary.call_hash == root);
                }
                0
            },
        }
    }

    /// Enters `h` under primary call `root`, whose entry stands at index `j`.
    fn enter_at(&mut self, j: usize, root: u64, h: u64)
        requires
            old(self).wf(),
            j < old(self)@.primaries.len(),
            old(self)@.primaries[j as int].primary.call_hash == root,
            has_hash(old(self)@.calls, h),
        ensures
            final(self)@ == (ProfilerView {
                primaries: enter_under(old(self)@.primaries, old(self)@.calls, root, h),
                ..old(self)@
            }),
    {
        let ghost v = self@;
        if h != root {
            enter_in(&mut self.timing_refs[j].subcalls, &self.callable_refs, h);
        }
        proof {
            let e = enter_under(v.primaries, v.calls, root, h);
            assert forall|i: int| 0 <= i < e.len() implies #[trigger] self@.primaries[i] == e[i] by {
                if i != j {
                    assert(v.primaries[i].primary.call_hash != v.primaries[j as int].primary.call_hash);
                }
            }
            assert(self@.primaries =~= e);
        }
    }

    /// An instrumented call of `call_hash` begins. With no primary call in
    /// flight it becomes the primary call; otherwise it is attributed to the
    /// primary call in flight (also where it is that same callable again).
    pub fn begin_call(&mut self, call_hash: u64)
        requires
            old(self).wf(),
            has_hash(old(self)@.calls, call_hash),
            old(self)@.depth < u64::MAX,
        ensures
            final(self).wf(),
            final(self)@ == begin_model(old(self)@, call_hash),
    {
        let ghost v = self@;
        proof {
            lemma_begin_wf(v, call_hash);
        }
        let root = match self.pcall_hash {
            Some(p) => p,
            None => call_hash,
        };
        proof {
            lemma_with_root(v.primaries, v.calls, root);
        }
        match find_primary(&self.timing_refs, root) {
            Some(k) => {
                proof {
                    assert(v.primaries[k as int].primary.call_hash == root);
                }
            },
            None => {
                match find_metrics(&self.callable_refs, root) {
                    Some(c) => {
                        proof {
                            crate::metrics::lemma_record_of_index(v.calls, c as int);
                        }
                        let primary = self.callable_refs[c].clone_and_reset();
                        let entry = PrimaryCall { primary, subcalls: Vec::new() };
                        proof {
                            assert(entry@.subcalls =~= Seq::empty());
                        }
                        self.timing_refs.push(entry);
                        proof {
                            assert(self@.primaries =~= v.primaries.push(entry@));
                        }
                    },
                    None => {},
                }
            },
        }
        proof {
            assert(self@.primaries =~= with_root(v.primaries, v.calls, root));
        }
        let j = self.primary_index(root);
        self.enter_at(j, root, call_hash);
        self.pcall_hash = Some(root);
        self.depth = self.depth + 1;
        proof {
            assert(self@ == begin_model(v, call_hash));
        }
    }

    /// The instrumented call of `call_hash` that began last returns after
    /// `elapsed_ns` nanoseconds. The result says whether the report is due:
    /// the profiler is in realtime mode and the primary call is complete.
    pub fn end_call(&mut self, call_hash: u64, elapsed_ns: u64) -> (report_due: bool)
        requires
            old(self).wf(),
            has_hash(old(self)@.calls, call_hash),
            old(self)@.depth > 0,
        ensures
            final(self).wf(),
            final(self)@ == end_model(old(self)@, call_hash, elapsed_ns),
            report_due == (old(self)@.depth == 1 && old(self)@.realtime),
    {
        let ghost v = self@;
        proof {
            lemma_end_wf(v, call_hash, elapsed_ns);
            lemma_enter_under(v.primaries, v.calls, v.pcall->0, call_hash);
        }
        let root = match self.pcall_hash {
            Some(p) => p,
            None => call_hash,
        };
        let j = self.primary_index(root);
        self.enter_at(j, root, call_hash);
        let ghost e = self@.primaries;
        if call_hash == root {
            self.timing_refs[j].primary.record(elapsed_ns);
        } else {
            record_in(&mut self.timing_refs[j].subcalls, call_hash, elapsed_ns);
        }
        proof {
            let r = record_under(e, root, call_hash, elapsed_ns);
            assert forall|i: int| 0 <= i < r.len() implies #[trigger] self@.primaries[i] == r[i] by {
                if i != j {
                    assert(e[i].primary.call_hash != e[j as int].primary.call_hash);
                }
            }
            assert(self@.primaries =~= r);
        }
        record_in(&mut self.callable_refs, call_hash, elapsed_ns);
        self.depth = self.depth - 1;
        let due = if self.depth == 0 {
            self.pcall_hash = None;
            self.realtime
        } else {
            false
        };
        proof {
            assert(self@ == end_model(v, call_hash, elapsed_ns));
        }
        due
    }

    /// The instrumented call that began last failed: nothing is recorded for
    /// it, and the primary call is over if that call was the outermost one.
    pub fn abandon_call(&mut self)
        requires
            old(self).wf(),
        ensures
            final(self).wf(),
            final(self)@ == abandon_model(old(self)@),
    {
        if self.depth > 0 {
            self.depth = self.depth - 1;
        }
        if self.depth == 0 {
            self.pcall_hash = None;
        }
    }
}

impl TimeProfiler {
    /// The report of everything measured so far, as the pieces that are
    /// written one after another. It reads the metrics and changes nothing, so
    /// two reports with no call in between are the same.
    pub fn report(&self) -> (r: Vec<String>)
        ensures
            texts(r@) == report_text(
                header_color(self@.realtime),
                call_color(self@.realtime),
                total_time_color(self@.realtime),
                self@.primaries,
            ),
    {
        let mut metrics_report = ProfileMetricsReport::new(self.realtime);
        metrics_report.write_report(&self.timing_refs)
    }

    pub fn realtime(&self) -> (r: bool)
        ensures
            r == self@.realtime,
    {
        self.realtime
    }

    /// The primary call in flight, if any.
    pub fn active_primary(&self) -> (r: Option<u64>)
        ensures
            r == self@.pcall,
    {
        self.pcall_hash
    }

    /// How many instrumented calls are in flight.
    pub fn in_flight(&self) -> (r: u64)
        ensures
            r == self@.depth,
    {
        self.depth
    }

    pub fn is_registered(&self, call_hash: u64) -> (r: bool)
        ensures
            r == has_hash(self@.calls, call_hash),
    {
        find_metrics(&self.callable_refs, call_hash).is_some()
    }

    /// The record of callable `call_hash` over all its calls.
    pub fn call_metrics(&self, call_hash: u64) -> (r: Option<&CallableMetrics>)
        requires
            self.wf(),
        ensures
            match r {
                Some(m) => has_hash(self@.calls, call_hash) && *m == record_of(self@.calls, call_hash),
                None => !has_hash(self@.calls, call_hash),
            },
    {
        match find_metrics(&self.callable_refs, call_hash) {
            Some(i) => {
                proof {
                    crate::metrics::lemma_record_of_index(self@.calls, i as int);
                }
                Some(&self.callable_refs[i])
            },
            None => None,
        }
    }

    /// What was measured under primary call `pcall_hash`.
    pub fn primary_call(&self, pcall_hash: u64) -> (r: Option<&PrimaryCall>)
        requires
            self.wf(),
        ensures
            match r {
                Some(p) => has_primary(self@.primaries, pcall_hash) && p@ == primary_of(
                    self@.primaries,
                    pcall_hash,
                ),
                None => !has_primary(self@.primaries, pcall_hash),
            },
    {
        match find_primary(&self.timing_refs, pcall_hash) {
            Some(i) => {
                proof {
                    let ps = self@.primaries;
                    assert(ps[i as int].primary.call_hash == pcall_hash);
                    let j = choose|j: int|
                        0 <= j < ps.len() && #[trigger] ps[j].primary.call_hash == pcall_hash;
                    assert(ps[j].primary.call_hash == pcall_hash);
                }
                Some(&self.timing_refs[i])
            },
            None => None,
        }
    }

    /// All primary calls, in order of first use.
    pub fn primary_calls(&self) -> (r: &Vec<PrimaryCall>)
        ensures
            r@.map_values(|p: PrimaryCall| p@) == self@.primaries,
    {
        &self.timing_refs
    }
}

} // verus!
