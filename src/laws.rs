use vstd::prelude::*;

use crate::metrics::{
    bumped,
    entered,
    has_hash,
    lemma_entered,
    lemma_record_all,
    lemma_record_of_index,
    record_all,
    record_of,
    sat_add,
};
use crate::profiler::{
    begin_model,
    end_model,
    enter_under,
    has_primary,
    lemma_begin_wf,
    lemma_end_wf,
    primary_of,
    record_under,
    unique_primaries,
    view_wf,
    with_root,
    PrimaryView,
    ProfilerView,
};

verus! {

/// The sum of a sequence of durations.
pub open spec fn total(ts: Seq<u64>) -> nat
    decreases ts.len(),
{
    if ts.len() == 0 {
        0
    } else {
        total(ts.drop_last()) + ts.last() as nat
    }
}

/// The profiler after calls of `h` taking the times `ts`, each begun and
/// returned before the next.
pub open spec fn sequential_calls(v: ProfilerView, h: u64, ts: Seq<u64>) -> ProfilerView
    decreases ts.len(),
{
    if ts.len() == 0 {
        v
    } else {
        end_model(begin_model(sequential_calls(v, h, ts.drop_last()), h), h, ts.last())
    }
}

/// How often callable `d` has been recorded under primary call `p`.
pub open spec fn subcall_count(v: ProfilerView, p: u64, d: u64) -> nat {
    let s = primary_of(v.primaries, p).subcalls;
    if has_hash(s, d) {
        record_of(s, d).ncalls as nat
    } else {
        0
    }
}

/// How long callable `d` has taken in all under primary call `p`.
pub open spec fn subcall_time(v: ProfilerView, p: u64, d: u64) -> nat {
    let s = primary_of(v.primaries, p).subcalls;
    if has_hash(s, d) {
        record_of(s, d).time_ns as nat
    } else {
        0
    }
}

proof fn lemma_primary_of_index(ps: Seq<PrimaryView>, i: int)
    requires
        unique_primaries(ps),
        0 <= i < ps.len(),
    ensures
        has_primary(ps, ps[i].primary.call_hash),
        primary_of(ps, ps[i].primary.call_hash) == ps[i],
{
    let p = ps[i].primary.call_hash;
    assert(ps[i].primary.call_hash == p);
    let j = choose|j: int| 0 <= j < ps.len() && #[trigger] ps[j].primary.call_hash == p;
    assert(ps[j].primary.call_hash == p);
}

/// Calls of one callable with no instrumented call nested in them: each is a
/// primary call, the engine is idle after each, and the callable's record
/// counts every call and the sum of their times.
pub proof fn law_sequential_calls(v: ProfilerView, h: u64, ts: Seq<u64>)
    requires
        view_wf(v),
        has_hash(v.calls, h),
        v.depth == 0,
        record_of(v.calls, h).ncalls + ts.len() <= u64::MAX,
        record_of(v.calls, h).time_ns + total(ts) <= u64::MAX,
    ensures
        view_wf(sequential_calls(v, h, ts)),
        sequential_calls(v, h, ts).depth == 0,
        sequential_calls(v, h, ts).pcall is None,
        has_hash(sequential_calls(v, h, ts).calls, h),
        record_of(sequential_calls(v, h, ts).calls, h).ncalls == record_of(v.calls, h).ncalls
            + ts.len(),
        record_of(sequential_calls(v, h, ts).calls, h).time_ns == record_of(v.calls, h).time_ns
            + total(ts),
    decreases ts.len(),
{
    if ts.len() > 0 {
        let rest = ts.drop_last();
        law_sequential_calls(v, h, rest);
        let u = sequential_calls(v, h, rest);
        lemma_begin_wf(u, h);
        let b = begin_model(u, h);
        lemma_end_wf(b, h, ts.last());
        lemma_record_all(b.calls, h, ts.last());
    }
}

/// The profiler after calls of `d` taking the times `ts`, each begun and
/// returned before the next, while a primary call is in flight.
pub open spec fn calls_in_flight(v: ProfilerView, d: u64, ts: Seq<u64>) -> ProfilerView
    decreases ts.len(),
{
    if ts.len() == 0 {
        v
    } else {
        end_model(begin_model(calls_in_flight(v, d, ts.drop_last()), d), d, ts.last())
    }
}

/// Calls of callable `d` made while primary call `p` is in flight are all
/// counted under `p`, with their times, and in `d`'s own record too; `p`
/// stays the primary call.
pub proof fn law_calls_in_flight(v: ProfilerView, p: u64, d: u64, ts: Seq<u64>)
    requires
        view_wf(v),
        v.pcall == Some(p),
        d != p,
        has_hash(v.calls, d),
        v.depth < u64::MAX,
        record_of(v.calls, d).ncalls + ts.len() <= u64::MAX,
        record_of(v.calls, d).time_ns + total(ts) <= u64::MAX,
        subcall_count(v, p, d) + ts.len() <= u64::MAX,
        subcall_time(v, p, d) + total(ts) <= u64::MAX,
    ensures
        view_wf(calls_in_flight(v, d, ts)),
        calls_in_flight(v, d, ts).pcall == Some(p),
        calls_in_flight(v, d, ts).depth == v.depth,
        has_hash(calls_in_flight(v, d, ts).calls, d),
        record_of(calls_in_flight(v, d, ts).calls, d).ncalls == record_of(v.calls, d).ncalls
            + ts.len(),
        record_of(calls_in_flight(v, d, ts).calls, d).time_ns == record_of(v.calls, d).time_ns
            + total(ts),
        ts.len() > 0 ==> has_hash(primary_of(calls_in_flight(v, d, ts).primaries, p).subcalls, d),
        subcall_count(calls_in_flight(v, d, ts), p, d) == subcall_count(v, p, d) + ts.len(),
        subcall_time(calls_in_flight(v, d, ts), p, d) == subcall_time(v, p, d) + total(ts),
    decreases ts.len(),
{
    if ts.len() > 0 {
        let t = ts.last();
        let rest = ts.drop_last();
        law_calls_in_flight(v, p, d, rest);
        let u = calls_in_flight(v, d, rest);
        lemma_begin_wf(u, d);
        let b = begin_model(u, d);
        lemma_end_wf(b, d, t);
        lemma_record_all(b.calls, d, t);
        // where the entry of `p` stands
        let i = choose|i: int|
            0 <= i < u.primaries.len() && #[trigger] u.primaries[i].primary.call_hash == p;
        assert(u.primaries[i].primary.call_hash == p);
        lemma_primary_of_index(u.primaries, i);
        let s0 = u.primaries[i].subcalls;
        assert(with_root(u.primaries, u.calls, p) == u.primaries);
        let e1 = enter_under(u.primaries, u.calls, p, d);
        assert(b.primaries == e1);
        lemma_primary_of_index(e1, i);
        let s1 = entered(s0, u.calls, d);
        assert(e1[i].subcalls == s1);
        lemma_entered(s0, u.calls, d);
        let e2 = enter_under(e1, b.calls, p, d);
        assert(e2[i].subcalls == s1);
        let r = record_under(e2, p, d, t);
        let e = end_model(b, d, t);
        assert(e.primaries == r);
        assert(r[i].subcalls == record_all(s1, d, t));
        lemma_primary_of_index(r, i);
        lemma_record_all(s1, d, t);
        if has_hash(s0, d) {
            assert(record_of(s1, d) == record_of(s0, d));
        }
        assert(bumped(record_of(s1, d), t).ncalls == sat_add(record_of(s1, d).ncalls, 1));
    }
}

/// While a primary call is in flight, a call that begins (of any callable,
/// the primary itself included) leaves it the primary call and opens no
/// second primary context.
pub proof fn law_begin_keeps_primary(v: ProfilerView, h: u64)
    requires
        view_wf(v),
        v.pcall is Some,
    ensures
        begin_model(v, h).pcall == v.pcall,
        begin_model(v, h).primaries.len() == v.primaries.len(),
{
}

/// A returning call ends the primary call exactly when it is the outermost
/// call in flight.
pub proof fn law_only_outermost_return_clears(v: ProfilerView, h: u64, elapsed: u64)
    requires
        view_wf(v),
        v.depth > 0,
    ensures
        end_model(v, h, elapsed).pcall is None <==> v.depth == 1,
        end_model(v, h, elapsed).pcall is Some ==> end_model(v, h, elapsed).pcall == v.pcall,
{
}

/// A callable that calls itself while it is the primary call: the nested
/// call keeps it the primary call, its return does not end the primary call,
/// and the outer return does.
pub proof fn law_reentrant_primary(v: ProfilerView, p: u64, inner: u64, outer: u64)
    requires
        view_wf(v),
        v.depth == 0,
        has_hash(v.calls, p),
    ensures
        begin_model(v, p).pcall == Some(p),
        begin_model(begin_model(v, p), p).pcall == Some(p),
        begin_model(begin_model(v, p), p).primaries.len() == begin_model(v, p).primaries.len(),
        end_model(begin_model(begin_model(v, p), p), p, inner).pcall == Some(p),
        end_model(end_model(begin_model(begin_model(v, p), p), p, inner), p, outer).pcall is None,
{
    lemma_begin_wf(v, p);
    let v1 = begin_model(v, p);
    lemma_begin_wf(v1, p);
}

} // verus!
