use vstd::prelude::*;

use crate::formatter::{format_scaled, format_time, scaled_text, time_text};
use crate::formatter::{NANOS_PER_MICRO, NANOS_PER_MILLI, NANOS_PER_SEC};

verus! {

/// `a + b`, or `u64::MAX` where the sum does not fit.
pub open spec fn sat_add(a: u64, b: u64) -> u64 {
    if a + b > u64::MAX { u64::MAX } else { (a + b) as u64 }
}

/// A duration in nanoseconds, written in a chosen unit.
pub struct TimeFormatterNs {
    pub nanos: u64,
}

impl TimeFormatterNs {
    pub fn new(nanos: u64) -> (r: TimeFormatterNs)
        ensures
            r.nanos == nanos,
    {
        TimeFormatterNs { nanos }
    }

    pub fn format_seconds(&self) -> (r: String)
        ensures
            r@ == scaled_text(self.nanos as nat, NANOS_PER_SEC as nat, "s"@),
    {
        format_scaled(self.nanos, NANOS_PER_SEC, "s")
    }

    pub fn format_milliseconds(&self) -> (r: String)
        ensures
            r@ == scaled_text(self.nanos as nat, NANOS_PER_MILLI as nat, "ms"@),
    {
        format_scaled(self.nanos, NANOS_PER_MILLI, "ms")
    }

    pub fn format_microseconds(&self) -> (r: String)
        ensures
            r@ == scaled_text(self.nanos as nat, NANOS_PER_MICRO as nat, "\u{3bc}s"@),
    {
        format_scaled(self.nanos, NANOS_PER_MICRO, "\u{3bc}s")
    }

    pub fn format_nanoseconds(&self) -> (r: String)
        ensures
            r@ == scaled_text(self.nanos as nat, 1, "ns"@),
    {
        format_scaled(self.nanos, 1, "ns")
    }

    /// The duration in the largest unit that it reaches.
    pub fn auto_format(&self) -> (r: String)
        ensures
            r@ == time_text(self.nanos as nat),
    {
        format_time(self.nanos)
    }
}

/// Accumulated statistics of one instrumented callable: how often it was
/// called and how long those calls took in all, in nanoseconds.
pub struct CallableMetrics {
    pub name: String,
    pub module: String,
    pub call_hash: u64,
    pub ncalls: u64,
    pub time_ns: u64,
}

/// A record with no call and no time: a call count of zero goes with a zero time.
pub open spec fn metrics_wf(m: CallableMetrics) -> bool {
    m.ncalls == 0 ==> m.time_ns == 0
}

/// The record `m` after one more call that took `elapsed` nanoseconds
/// (both fields saturate at `u64::MAX`).
pub open spec fn bumped(m: CallableMetrics, elapsed: u64) -> CallableMetrics {
    CallableMetrics {
        ncalls: sat_add(m.ncalls, 1),
        time_ns: sat_add(m.time_ns, elapsed),
        ..m
    }
}

/// The record `m` with its statistics cleared.
pub open spec fn reset(m: CallableMetrics) -> CallableMetrics {
    CallableMetrics { ncalls: 0, time_ns: 0, ..m }
}

/// Average time of one call, in whole nanoseconds; zero without calls.
pub open spec fn percall(m: CallableMetrics) -> u64 {
    if m.ncalls > 0 { (m.time_ns / m.ncalls) as u64 } else { 0 }
}

impl CallableMetrics {
    pub fn new(name: String, module: String, call_hash: u64, ncalls: u64, time_ns: u64) -> (r:
        CallableMetrics)
        ensures
            r == (CallableMetrics { name, module, call_hash, ncalls, time_ns }),
    {
        CallableMetrics { name, module, call_hash, ncalls, time_ns }
    }

    /// A copy of the record's identity with no call and no time.
    pub fn clone_and_reset(&self) -> (r: Self)
        ensures
            r == reset(*self),
    {
        CallableMetrics::new(self.name.clone(), self.module.clone(), self.call_hash, 0, 0)
    }

    /// Average time of one call in nanoseconds; zero when there was no call.
    pub fn get_percall_time(&self) -> (r: u64)
        ensures
            r == percall(*self),
    {
        if self.ncalls > 0 {
            self.time_ns / self.ncalls
        } else {
            0
        }
    }

    /// Adds one call that took `elapsed` nanoseconds.
    pub fn record(&mut self, elapsed: u64)
        ensures
            *final(self) == bumped(*old(self), elapsed),
    {
        self.ncalls = self.ncalls.saturating_add(1);
        self.time_ns = self.time_ns.saturating_add(elapsed);
    }
}

/// Some record of `s` belongs to callable `h`.
pub open spec fn has_hash(s: Seq<CallableMetrics>, h: u64) -> bool {
    exists|i: int| 0 <= i < s.len() && #[trigger] s[i].call_hash == h
}

/// No two records of `s` belong to the same callable.
pub open spec fn unique_hashes(s: Seq<CallableMetrics>) -> bool {
    forall|i: int, j: int|
        0 <= i < s.len() && 0 <= j < s.len() && i != j ==> #[trigger] s[i].call_hash
            != #[trigger] s[j].call_hash
}

/// The record of callable `h` in `s` (meaningful where `has_hash(s, h)`).
pub open spec fn record_of(s: Seq<CallableMetrics>, h: u64) -> CallableMetrics {
    s[choose|i: int| 0 <= i < s.len() && #[trigger] s[i].call_hash == h]
}

/// `s` after one call of `h` that took `elapsed` nanoseconds.
pub open spec fn record_all(s: Seq<CallableMetrics>, h: u64, elapsed: u64) -> Seq<CallableMetrics> {
    Seq::new(s.len(), |i: int| if s[i].call_hash == h { bumped(s[i], elapsed) } else { s[i] })
}

/// `s` with a cleared record for `h` appended, taken from `calls`, unless `s`
/// has one for `h` already.
pub open spec fn entered(s: Seq<CallableMetrics>, calls: Seq<CallableMetrics>, h: u64) -> Seq<
    CallableMetrics,
> {
    if has_hash(s, h) {
        s
    } else {
        s.push(reset(record_of(calls, h)))
    }
}

/// In a sequence without repeated callables, the record found at an index is
/// the record of its callable.
pub proof fn lemma_record_of_index(s: Seq<CallableMetrics>, i: int)
    requires
        unique_hashes(s),
        0 <= i < s.len(),
    ensures
        has_hash(s, s[i].call_hash),
        record_of(s, s[i].call_hash) == s[i],
{
    let h = s[i].call_hash;
    assert(s[i].call_hash == h);
    let j = choose|j: int| 0 <= j < s.len() && #[trigger] s[j].call_hash == h;
    assert(s[j].call_hash == h);
}

/// Recording a call leaves the callables of `s` as they were, and updates the
/// record of `h` alone.
pub proof fn lemma_record_all(s: Seq<CallableMetrics>, h: u64, elapsed: u64)
    requires
        unique_hashes(s),
    ensures
        unique_hashes(record_all(s, h, elapsed)),
        forall|g: u64| has_hash(record_all(s, h, elapsed), g) == has_hash(s, g),
        has_hash(s, h) ==> record_of(record_all(s, h, elapsed), h) == bumped(record_of(s, h), elapsed),
        forall|g: u64|
            g != h && has_hash(s, g) ==> record_of(record_all(s, h, elapsed), g) == record_of(s, g),
{
    let r = record_all(s, h, elapsed);
    assert forall|g: u64| has_hash(r, g) == has_hash(s, g) by {
        if has_hash(s, g) {
            let i = choose|i: int| 0 <= i < s.len() && #[trigger] s[i].call_hash == g;
            assert(r[i].call_hash == g);
        }
        if has_hash(r, g) {
            let i = choose|i: int| 0 <= i < r.len() && #[trigger] r[i].call_hash == g;
            assert(s[i].call_hash == g);
        }
    }
    assert(unique_hashes(r)) by {
        assert forall|i: int, j: int|
            0 <= i < r.len() && 0 <= j < r.len() && i != j implies #[trigger] r[i].call_hash
            != #[trigger] r[j].call_hash by {
            assert(s[i].call_hash != s[j].call_hash);
        }
    }
    if has_hash(s, h) {
        let i = choose|i: int| 0 <= i < s.len() && #[trigger] s[i].call_hash == h;
        lemma_record_of_index(s, i);
        lemma_record_of_index(r, i);
    }
    assert forall|g: u64| g != h && has_hash(s, g) implies record_of(r, g) == record_of(s, g) by {
        let i = choose|i: int| 0 <= i < s.len() && #[trigger] s[i].call_hash == g;
        lemma_record_of_index(s, i);
        lemma_record_of_index(r, i);
    }
}

/// Entering a callable keeps the callables of `s` unique and their records,
/// and afterwards `h` has a record.
pub proof fn lemma_entered(s: Seq<CallableMetrics>, calls: Seq<CallableMetrics>, h: u64)
    requires
        unique_hashes(s),
        has_hash(calls, h),
    ensures
        unique_hashes(entered(s, calls, h)),
        has_hash(entered(s, calls, h), h),
        forall|g: u64| g != h ==> has_hash(entered(s, calls, h), g) == has_hash(s, g),
        forall|g: u64| has_hash(s, g) ==> record_of(entered(s, calls, h), g) == record_of(s, g),
        !has_hash(s, h) ==> record_of(entered(s, calls, h), h) == reset(record_of(calls, h)),
{
    let e = entered(s, calls, h);
    if !has_hash(s, h) {
        let c = choose|i: int| 0 <= i < calls.len() && #[trigger] calls[i].call_hash == h;
        assert(calls[c].call_hash == h);
        assert(e[s.len() as int].call_hash == h);
        assert(unique_hashes(e)) by {
            assert forall|i: int, j: int|
                0 <= i < e.len() && 0 <= j < e.len() && i != j implies #[trigger] e[i].call_hash
                != #[trigger] e[j].call_hash by {
                if i < s.len() && j < s.len() {
                    assert(s[i].call_hash != s[j].call_hash);
                } else if i < s.len() {
                    assert(s[i].call_hash != h);
                } else {
                    assert(s[j].call_hash != h);
                }
            }
        }
        assert forall|g: u64| g != h implies has_hash(e, g) == has_hash(s, g) by {
            if has_hash(e, g) {
                let i = choose|i: int| 0 <= i < e.len() && #[trigger] e[i].call_hash == g;
                assert(s[i].call_hash == g);
            }
            if has_hash(s, g) {
                let i = choose|i: int| 0 <= i < s.len() && #[trigger] s[i].call_hash == g;
                assert(e[i].call_hash == g);
            }
        }
        assert forall|g: u64| has_hash(s, g) implies record_of(e, g) == record_of(s, g) by {
            let i = choose|i: int| 0 <= i < s.len() && #[trigger] s[i].call_hash == g;
            lemma_record_of_index(s, i);
            lemma_record_of_index(e, i);
        }
        lemma_record_of_index(e, s.len() as int);
    }
}

/// The index of the record of callable `h`, if `v` has one.
pub fn find_metrics(v: &Vec<CallableMetrics>, h: u64) -> (r: Option<usize>)
    ensures
        match r {
            Some(i) => i < v@.len() && v@[i as int].call_hash == h,
            None => !has_hash(v@, h),
        },
{
    let mut i: usize = 0;
    while i < v.len()
        invariant
            i <= v@.len(),
            forall|j: int| 0 <= j < i ==> #[trigger] v@[j].call_hash != h,
        decreases v@.len() - i,
    {
        if v[i].call_hash == h {
            return Some(i);
        }
        i += 1;
    }
    None
}

/// Adds one call of `h` that took `elapsed` nanoseconds to the records of `v`.
pub fn record_in(v: &mut Vec<CallableMetrics>, h: u64, elapsed: u64)
    ensures
        final(v)@ == record_all(old(v)@, h, elapsed),
{
    let ghost s = v@;
    let mut i: usize = 0;
    while i < v.len()
        invariant
            v@.len() == s.len(),
            i <= s.len(),
            forall|j: int| 0 <= j < i ==> v@[j] == record_all(s, h, elapsed)[j],
            forall|j: int| i <= j < s.len() ==> v@[j] == s[j],
        decreases s.len() - i,
    {
        if v[i].call_hash == h {
            v[i].record(elapsed);
        }
        i += 1;
    }
    assert(v@ =~= record_all(s, h, elapsed));
}

/// Makes sure that `v` has a record for `h`, a cleared copy of its record in
/// `calls` where it had none.
pub fn enter_in(v: &mut Vec<CallableMetrics>, calls: &Vec<CallableMetrics>, h: u64)
    requires
        unique_hashes(calls@),
        has_hash(calls@, h),
    ensures
        final(v)@ == entered(old(v)@, calls@, h),
{
    match find_metrics(v, h) {
        Some(_) => {},
        None => {
            match find_metrics(calls, h) {
                Some(c) => {
                    proof {
                        lemma_record_of_index(calls@, c as int);
                    }
                    let m = calls[c].clone_and_reset();
                    v.push(m);
                },
                None => {
                    proof {
                        let k = choose|k: int|
                            0 <= k < calls@.len() && #[trigger] calls@[k].call_hash == h;
                        assert(calls@[k].call_hash == h);
                    }
                },
            }
        },
    }
}

} // verus!
