//! The hooks an instrumented mutex runs around its real state changes, and
//! what they guarantee of the trace.
//!
//! `lock()` runs `start_lock` before it tries to acquire and `finish_lock`
//! once it holds the lock; `unlock()` releases and then runs `finish_unlock`.
//! Unlock's start hook records nothing.
use vstd::prelude::*;
use vstd::set_lib::{lemma_int_range, set_int_range};

use crate::tracing::{
    aquire_hook, fork_hook, join_hook, release_hook, request_hook, Event, Op, TraceBuffer,
};

verus! {

/// The event a lock hook records: a request before acquisition, an
/// acquisition after it. Hooks record no source location.
pub open spec fn hook_event(t: u32, lock: usize, finishing: bool) -> Event {
    Event {
        t,
        op: if finishing {
            Op::Aquire { lock }
        } else {
            Op::Request { lock }
        },
        loc: (0, 0),
    }
}

/// Start hook of `lock()`: records that thread `t` requests `lock_id`.
pub fn start_lock(trace: &mut TraceBuffer, t: u32, lock_id: usize)
    ensures
        final(trace)@ == old(trace)@.push(hook_event(t, lock_id, false)),
{
    request_hook(trace, t, lock_id, 0, 0);
}

/// Finish hook of `lock()`: records that thread `t` acquired `lock_id`.
pub fn finish_lock(trace: &mut TraceBuffer, t: u32, lock_id: usize)
    ensures
        final(trace)@ == old(trace)@.push(hook_event(t, lock_id, true)),
{
    aquire_hook(trace, t, lock_id, 0, 0);
}

/// Finish hook of `unlock()`: records that thread `t` released `lock_id`.
pub fn finish_unlock(trace: &mut TraceBuffer, t: u32, lock_id: usize)
    ensures
        final(trace)@ == old(trace)@.push(
            Event { t, op: Op::Release { lock: lock_id }, loc: (0, 0) },
        ),
{
    release_hook(trace, t, lock_id, 0, 0);
}

/// Records that thread `t` spawned thread `thread_id`.
pub fn spawn_thread(trace: &mut TraceBuffer, t: u32, thread_id: u32)
    ensures
        final(trace)@ == old(trace)@.push(Event { t, op: Op::Fork { tid: thread_id }, loc: (0, 0) }),
{
    fork_hook(trace, t, thread_id, 0, 0);
}

/// Records that thread `t` joined thread `thread_id`.
pub fn join_thread(trace: &mut TraceBuffer, t: u32, thread_id: u32)
    ensures
        final(trace)@ == old(trace)@.push(Event { t, op: Op::Join { tid: thread_id }, loc: (0, 0) }),
{
    join_hook(trace, t, thread_id, 0, 0);
}

/// How many of `events` carry `op`.
pub open spec fn count_op(events: Seq<Event>, op: Op) -> nat
    decreases events.len(),
{
    if events.len() == 0 {
        0
    } else {
        count_op(events.drop_last(), op) + if events.last().op == op {
            1nat
        } else {
            0nat
        }
    }
}

/// A capture order of lock hooks: step `(c, false)` is call `c` running its
/// start hook, `(c, true)` its finish hook. The result is the calls that have
/// started and the calls that have acquired, or `None` where a call runs a
/// hook out of turn: a start twice, or a finish before its start or twice.
pub open spec fn lock_runs(schedule: Seq<(int, bool)>) -> Option<(Set<int>, Set<int>)>
    decreases schedule.len(),
{
    if schedule.len() == 0 {
        Some((Set::empty(), Set::empty()))
    } else {
        match lock_runs(schedule.drop_last()) {
            Some((started, acquired)) => {
                let (c, finishing) = schedule.last();
                if !finishing {
                    if started.contains(c) {
                        None
                    } else {
                        Some((started.insert(c), acquired))
                    }
                } else if started.contains(c) && !acquired.contains(c) {
                    Some((started, acquired.insert(c)))
                } else {
                    None
                }
            },
            None => None,
        }
    }
}

/// The events the hooks record for `schedule`, call `c` running on thread `tid_of(c)`.
pub open spec fn hook_trace(schedule: Seq<(int, bool)>, tid_of: spec_fn(int) -> u32, lock: usize) -> Seq<
    Event,
> {
    Seq::new(schedule.len(), |i: int| hook_event(tid_of(schedule[i].0), lock, schedule[i].1))
}

proof fn lemma_lock_runs(schedule: Seq<(int, bool)>, tid_of: spec_fn(int) -> u32, lock: usize)
    requires
        lock_runs(schedule) is Some,
    ensures
        ({
            let (started, acquired) = lock_runs(schedule)->Some_0;
            &&& started.finite()
            &&& acquired.finite()
            &&& count_op(hook_trace(schedule, tid_of, lock), Op::Request { lock }) == started.len()
            &&& count_op(hook_trace(schedule, tid_of, lock), Op::Aquire { lock }) == acquired.len()
            &&& forall|c: int| #[trigger] started.contains(c) ==> exists|j: int|
                0 <= j < schedule.len() && schedule[j] == (c, false)
        }),
        forall|i: int|
            0 <= i < schedule.len() && (#[trigger] schedule[i]).1 ==> exists|j: int|
                0 <= j < i && schedule[j] == (schedule[i].0, false),
    decreases schedule.len(),
{
    if schedule.len() > 0 {
        let prev = schedule.drop_last();
        let last = schedule.len() - 1;
        lemma_lock_runs(prev, tid_of, lock);
        assert(hook_trace(schedule, tid_of, lock).drop_last() =~= hook_trace(prev, tid_of, lock));
        let (started, acquired) = lock_runs(prev)->Some_0;
        assert forall|c: int| #[trigger]
            lock_runs(schedule)->Some_0.0.contains(c) implies exists|j: int|
                0 <= j < schedule.len() && schedule[j] == (c, false) by {
            if started.contains(c) {
                let j = choose|j: int| 0 <= j < prev.len() && prev[j] == (c, false);
                assert(schedule[j] == (c, false));
            } else {
                assert(schedule[last] == (c, false));
            }
        }
        assert forall|i: int|
            0 <= i < schedule.len() && (#[trigger] schedule[i]).1 implies exists|j: int|
                0 <= j < i && schedule[j] == (schedule[i].0, false) by {
            if i < last {
                assert(prev[i] == schedule[i]);
                let j = choose|j: int| 0 <= j < i && prev[j] == (prev[i].0, false);
                assert(schedule[j] == prev[j]);
            } else {
                let c = schedule[i].0;
                assert(started.contains(c));
                let j = choose|j: int| 0 <= j < prev.len() && prev[j] == (c, false);
                assert(schedule[j] == prev[j]);
            }
        }
    }
}

/// Of `n` calls to `lock()` on one mutex, interleaved in any order in which
/// each call runs its start hook and then its finish hook, the trace holds
/// exactly `n` requests and `n` acquisitions of that lock, and every
/// acquisition comes after the request of its own call.
pub proof fn lemma_lock_hooks(
    schedule: Seq<(int, bool)>,
    tid_of: spec_fn(int) -> u32,
    lock: usize,
    n: int,
)
    requires
        0 <= n,
        lock_runs(schedule) == Some((set_int_range(0, n), set_int_range(0, n))),
    ensures
        count_op(hook_trace(schedule, tid_of, lock), Op::Request { lock }) == n,
        count_op(hook_trace(schedule, tid_of, lock), Op::Aquire { lock }) == n,
        forall|i: int|
            0 <= i < schedule.len() && (#[trigger] schedule[i]).1 ==> exists|j: int|
                0 <= j < i && schedule[j] == (schedule[i].0, false),
{
    lemma_lock_runs(schedule, tid_of, lock);
    lemma_int_range(0, n);
}

} // verus!
