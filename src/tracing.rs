//! The event model and the capture API that appends events to a trace buffer.
use vstd::prelude::*;

use crate::rapidbin::{encode_events, encode_trace, trace_bytes, EncodeError};

verus! {

/// A traced operation with its decoration.
#[derive(Clone, Copy, Debug, PartialEq, Eq)]
pub enum Op {
    Read { addr: usize, n: usize },
    Write { addr: usize, n: usize },
    Aquire { lock: usize },
    Request { lock: usize },
    Release { lock: usize },
    Fork { tid: u32 },
    Join { tid: u32 },
}

impl Op {
    pub open spec fn spec_id(self) -> u8 {
        match self {
            Op::Read { .. } => 2,
            Op::Write { .. } => 3,
            Op::Aquire { .. } => 0,
            Op::Request { .. } => 8,
            Op::Release { .. } => 1,
            Op::Fork { .. } => 4,
            Op::Join { .. } => 5,
        }
    }

    /// The op code written into a trace word.
    pub fn id(&self) -> (r: u8)
        ensures
            r == self.spec_id(),
    {
        match self {
            Op::Read { .. } => 2,
            Op::Write { .. } => 3,
            Op::Aquire { .. } => 0,
            Op::Request { .. } => 8,
            Op::Release { .. } => 1,
            Op::Fork { .. } => 4,
            Op::Join { .. } => 5,
        }
    }
}

/// One captured event: the logical thread that performed `op` at `loc`,
/// a (function index, instruction index) pair.
#[derive(Clone, Copy, Debug, PartialEq, Eq)]
pub struct Event {
    pub t: u32,
    pub op: Op,
    pub loc: (usize, usize),
}

/// Thread id that events carry when their thread was never given one.
pub const UNASSIGNED_THREAD: u32 = u32::MAX;

/// The thread id to tag events with, given the id assigned to the current
/// thread, if any.
pub fn thread_id(assigned: Option<u32>) -> (r: u32)
    ensures
        r == match assigned {
            Some(id) => id,
            None => UNASSIGNED_THREAD,
        },
{
    match assigned {
        Some(id) => id,
        None => UNASSIGNED_THREAD,
    }
}

/// Append-only sequence of captured events, in capture order.
pub struct TraceBuffer {
    events: Vec<Event>,
}

impl View for TraceBuffer {
    type V = Seq<Event>;

    closed spec fn view(&self) -> Seq<Event> {
        self.events@
    }
}

impl TraceBuffer {
    pub fn new() -> (r: TraceBuffer)
        ensures
            r@ == Seq::<Event>::empty(),
    {
        TraceBuffer { events: Vec::new() }
    }

    pub fn len(&self) -> (r: usize)
        ensures
            r == self@.len(),
    {
        self.events.len()
    }

    /// The captured events, in capture order.
    pub fn events(&self) -> (r: &Vec<Event>)
        ensures
            r@ == self@,
    {
        &self.events
    }

    /// Appends one event.
    pub fn push(&mut self, event: Event)
        ensures
            final(self)@ == old(self)@.push(event),
    {
        self.events.push(event);
    }
}

/// Records that thread `t` performed `op` at `loc`.
pub fn add_event(trace: &mut TraceBuffer, t: u32, op: Op, loc: (usize, usize))
    ensures
        final(trace)@ == old(trace)@.push(Event { t, op, loc }),
{
    trace.push(Event { t, op, loc });
}

/// Records a read of `n` bytes at `addr`.
pub fn read_hook(trace: &mut TraceBuffer, t: u32, addr: usize, n: usize, fidx: usize, iidx: usize)
    ensures
        final(trace)@ == old(trace)@.push(Event { t, op: Op::Read { addr, n }, loc: (fidx, iidx) }),
{
    add_event(trace, t, Op::Read { addr, n }, (fidx, iidx));
}

/// Records a write of `n` bytes at `addr`.
pub fn write_hook(trace: &mut TraceBuffer, t: u32, addr: usize, n: usize, fidx: usize, iidx: usize)
    ensures
        final(trace)@ == old(trace)@.push(Event { t, op: Op::Write { addr, n }, loc: (fidx, iidx) }),
{
    add_event(trace, t, Op::Write { addr, n }, (fidx, iidx));
}

/// Records that lock `lock_id` was acquired.
pub fn aquire_hook(trace: &mut TraceBuffer, t: u32, lock_id: usize, fidx: usize, iidx: usize)
    ensures
        final(trace)@ == old(trace)@.push(
            Event { t, op: Op::Aquire { lock: lock_id }, loc: (fidx, iidx) },
        ),
{
    add_event(trace, t, Op::Aquire { lock: lock_id }, (fidx, iidx));
}

/// Records that lock `lock_id` was requested.
pub fn request_hook(trace: &mut TraceBuffer, t: u32, lock_id: usize, fidx: usize, iidx: usize)
    ensures
        final(trace)@ == old(trace)@.push(
            Event { t, op: Op::Request { lock: lock_id }, loc: (fidx, iidx) },
        ),
{
    add_event(trace, t, Op::Request { lock: lock_id }, (fidx, iidx));
}

/// Records that lock `lock_id` was released.
pub fn release_hook(trace: &mut TraceBuffer, t: u32, lock_id: usize, fidx: usize, iidx: usize)
    ensures
        final(trace)@ == old(trace)@.push(
            Event { t, op: Op::Release { lock: lock_id }, loc: (fidx, iidx) },
        ),
{
    add_event(trace, t, Op::Release { lock: lock_id }, (fidx, iidx));
}

/// Records that thread `thread_id` was forked.
pub fn fork_hook(trace: &mut TraceBuffer, t: u32, thread_id: u32, fidx: usize, iidx: usize)
    ensures
        final(trace)@ == old(trace)@.push(
            Event { t, op: Op::Fork { tid: thread_id }, loc: (fidx, iidx) },
        ),
{
    add_event(trace, t, Op::Fork { tid: thread_id }, (fidx, iidx));
}

/// Records that thread `thread_id` was joined.
pub fn join_hook(trace: &mut TraceBuffer, t: u32, thread_id: u32, fidx: usize, iidx: usize)
    ensures
        final(trace)@ == old(trace)@.push(
            Event { t, op: Op::Join { tid: thread_id }, loc: (fidx, iidx) },
        ),
{
    add_event(trace, t, Op::Join { tid: thread_id }, (fidx, iidx));
}

/// The binary trace of every event captured so far.
pub fn generate_binary_trace(trace: &TraceBuffer) -> (r: Result<Vec<u8>, EncodeError>)
    ensures
        match encode_events(trace@) {
            Ok(st) => r matches Ok(bytes) && bytes@ == trace_bytes(st),
            Err(e) => r == Err::<Vec<u8>, EncodeError>(e),
        },
{
    encode_trace(trace.events())
}

} // verus!
