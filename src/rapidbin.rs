//! The binary trace encoder: interns each event's operands into compact
//! identifiers in first-seen order and packs them into 64-bit words.
use std::collections::HashMap;
use std::hash::Hash;
use vstd::prelude::*;
use vstd::std_specs::hash::obeys_key_model;

use crate::bytes::{be_u16, be_u32, be_u64, push_be_u16, push_be_u32, push_be_u64};
use crate::layout::{fields_fit, pack, spec_pack};
use crate::parser;
use crate::tracing::{Event, Op};

verus! {

/// Most distinct threads a trace can name: the thread field is 10 bits wide.
pub const MAX_THREADS: u32 = 0x400;

/// Most distinct locations a trace can name: the location field is 15 bits wide.
pub const MAX_LOCATIONS: u32 = 0x8000;

/// Most distinct memory regions: the header's region count has 31 usable bits.
pub const MAX_REGIONS: u32 = 0x7FFF_FFFF;

/// Most distinct locks: the header's lock count has 31 usable bits.
pub const MAX_LOCKS: u32 = 0x7FFF_FFFF;

/// Most events: the header's event count has 63 usable bits.
pub const MAX_EVENTS: u64 = 0x7FFF_FFFF_FFFF_FFFF;

/// An event whose operands would need an identifier beyond what the format can hold.
#[derive(Clone, Copy, Debug, PartialEq, Eq)]
pub enum EncodeError {
    TooManyThreads,
    TooManyLocations,
    TooManyRegions,
    TooManyLocks,
    TooManyEvents,
}

/// What an encoder holds: the four interning maps, from raw key to the
/// identifier given in first-seen order, and the packed words so far.
pub struct EncoderModel {
    pub threads: Map<u32, u32>,
    pub locations: Map<u128, u32>,
    pub regions: Map<u128, u32>,
    pub locks: Map<usize, u32>,
    pub words: Seq<u64>,
}

/// The single key under which a (function, instruction) location or an
/// (address, length) region is interned.
pub open spec fn pair_key(a: usize, b: usize) -> u128 {
    ((a as u128) << 64u128) | (b as u128)
}

/// Distinct pairs have distinct keys.
pub proof fn lemma_pair_key_injective(a: usize, b: usize, c: usize, d: usize)
    ensures
        pair_key(a, b) == pair_key(c, d) ==> a == c && b == d,
{
    assert((((a as u128) << 64u128) | (b as u128)) == (((c as u128) << 64u128) | (d as u128))
        ==> a == c && b == d) by (bit_vector);
}

pub fn location_key(a: usize, b: usize) -> (k: u128)
    ensures
        k == pair_key(a, b),
{
    ((a as u128) << 64u128) | (b as u128)
}

/// `m` after interning `k`: a key seen before keeps its identifier, a new
/// key gets the next one.
pub open spec fn intern<K>(m: Map<K, u32>, k: K) -> Map<K, u32> {
    if m.contains_key(k) {
        m
    } else {
        m.insert(k, m.len() as u32)
    }
}

/// Every identifier of `m` is below the number of keys.
pub open spec fn ids_below_len<K>(m: Map<K, u32>) -> bool {
    &&& m.dom().finite()
    &&& forall|k: K| #[trigger] m.contains_key(k) ==> (m[k] as int) < m.len()
}

/// Distinct keys of `m` have distinct identifiers.
pub open spec fn ids_distinct<K>(m: Map<K, u32>) -> bool {
    forall|k1: K, k2: K|
        #[trigger] m.contains_key(k1) && #[trigger] m.contains_key(k2) && m[k1] == m[k2] ==> k1
            == k2
}

pub open spec fn empty_model() -> EncoderModel {
    EncoderModel {
        threads: Map::empty(),
        locations: Map::empty(),
        regions: Map::empty(),
        locks: Map::empty(),
        words: Seq::empty(),
    }
}

pub open spec fn model_wf(st: EncoderModel) -> bool {
    &&& ids_below_len(st.threads)
    &&& ids_below_len(st.locations)
    &&& ids_below_len(st.regions)
    &&& ids_below_len(st.locks)
    &&& ids_distinct(st.threads)
    &&& ids_distinct(st.locations)
    &&& ids_distinct(st.regions)
    &&& ids_distinct(st.locks)
    &&& st.threads.len() <= MAX_THREADS
    &&& st.locations.len() <= MAX_LOCATIONS
    &&& st.regions.len() <= MAX_REGIONS
    &&& st.locks.len() <= MAX_LOCKS
    &&& st.words.len() <= MAX_EVENTS
}

/// The interning maps once event `e`'s operands are interned: its thread,
/// then its location, then its decoration. Fork and join targets are threads.
pub open spec fn interned(st: EncoderModel, e: Event) -> EncoderModel {
    let threads = intern(st.threads, e.t);
    let locations = intern(st.locations, pair_key(e.loc.0, e.loc.1));
    match e.op {
        Op::Read { addr, n } => EncoderModel {
            threads,
            locations,
            regions: intern(st.regions, pair_key(addr, n)),
            locks: st.locks,
            words: st.words,
        },
        Op::Write { addr, n } => EncoderModel {
            threads,
            locations,
            regions: intern(st.regions, pair_key(addr, n)),
            locks: st.locks,
            words: st.words,
        },
        Op::Aquire { lock } => EncoderModel {
            threads,
            locations,
            regions: st.regions,
            locks: intern(st.locks, lock),
            words: st.words,
        },
        Op::Request { lock } => EncoderModel {
            threads,
            locations,
            regions: st.regions,
            locks: intern(st.locks, lock),
            words: st.words,
        },
        Op::Release { lock } => EncoderModel {
            threads,
            locations,
            regions: st.regions,
            locks: intern(st.locks, lock),
            words: st.words,
        },
        Op::Fork { tid } => EncoderModel {
            threads: intern(threads, tid),
            locations,
            regions: st.regions,
            locks: st.locks,
            words: st.words,
        },
        Op::Join { tid } => EncoderModel {
            threads: intern(threads, tid),
            locations,
            regions: st.regions,
            locks: st.locks,
            words: st.words,
        },
    }
}

/// The identifier of an operation's decoration in maps where it is interned.
pub open spec fn decor_slot(st: EncoderModel, op: Op) -> u32 {
    match op {
        Op::Read { addr, n } => st.regions[pair_key(addr, n)],
        Op::Write { addr, n } => st.regions[pair_key(addr, n)],
        Op::Aquire { lock } => st.locks[lock],
        Op::Request { lock } => st.locks[lock],
        Op::Release { lock } => st.locks[lock],
        Op::Fork { tid } => st.threads[tid],
        Op::Join { tid } => st.threads[tid],
    }
}

/// The thread, op, decoration and location slots that event `e` is encoded
/// with by an encoder in state `st`.
pub open spec fn assigned(st: EncoderModel, e: Event) -> parser::Event {
    let m = interned(st, e);
    parser::Event {
        t: m.threads[e.t] as u64,
        op: e.op.spec_id() as u64,
        decor: decor_slot(m, e.op) as u64,
        loc: m.locations[pair_key(e.loc.0, e.loc.1)] as u64,
    }
}

pub open spec fn word_of(s: parser::Event) -> u64 {
    spec_pack(s.t, s.op, s.decor, s.loc)
}

/// The encoder after it took event `e`.
pub open spec fn step(st: EncoderModel, e: Event) -> EncoderModel {
    let m = interned(st, e);
    EncoderModel {
        threads: m.threads,
        locations: m.locations,
        regions: m.regions,
        locks: m.locks,
        words: st.words.push(word_of(assigned(st, e))),
    }
}

/// The limit that taking event `e` would break, if any.
pub open spec fn overflow(st: EncoderModel, e: Event) -> Option<EncodeError> {
    let m = interned(st, e);
    if m.threads.len() > MAX_THREADS {
        Some(EncodeError::TooManyThreads)
    } else if m.locations.len() > MAX_LOCATIONS {
        Some(EncodeError::TooManyLocations)
    } else if m.regions.len() > MAX_REGIONS {
        Some(EncodeError::TooManyRegions)
    } else if m.locks.len() > MAX_LOCKS {
        Some(EncodeError::TooManyLocks)
    } else if st.words.len() >= MAX_EVENTS {
        Some(EncodeError::TooManyEvents)
    } else {
        None
    }
}

/// The encoder after taking `events` in order from a fresh one, or the
/// first limit broken on the way.
pub open spec fn encode_events(events: Seq<Event>) -> Result<EncoderModel, EncodeError>
    decreases events.len(),
{
    if events.len() == 0 {
        Ok(empty_model())
    } else {
        match encode_events(events.drop_last()) {
            Ok(st) => match overflow(st, events.last()) {
                Some(e) => Err(e),
                None => Ok(step(st, events.last())),
            },
            Err(e) => Err(e),
        }
    }
}

/// The encoder after `push_event` was called with each of `events` in order,
/// starting fresh: an event that would break a limit is refused and leaves
/// the encoder as it was.
pub open spec fn pushed(events: Seq<Event>) -> EncoderModel
    decreases events.len(),
{
    if events.len() == 0 {
        empty_model()
    } else {
        let st = pushed(events.drop_last());
        match overflow(st, events.last()) {
            Some(_) => st,
            None => step(st, events.last()),
        }
    }
}

/// The packed words as bytes, each big-endian, in order.
pub open spec fn words_bytes(words: Seq<u64>) -> Seq<u8>
    decreases words.len(),
{
    if words.len() == 0 {
        Seq::empty()
    } else {
        words_bytes(words.drop_last()) + be_u64(words.last())
    }
}

/// The header bytes of an encoder's trace.
pub open spec fn header_bytes(st: EncoderModel) -> Seq<u8> {
    be_u16(st.threads.len() as u16) + be_u32(st.locks.len() as u32) + be_u32(
        st.regions.len() as u32,
    ) + be_u64(st.words.len() as u64)
}

/// The bytes an encoder emits: the header, then every word.
pub open spec fn trace_bytes(st: EncoderModel) -> Seq<u8> {
    header_bytes(st) + words_bytes(st.words)
}

pub proof fn lemma_intern<K>(m: Map<K, u32>, k: K)
    requires
        ids_below_len(m),
        ids_distinct(m),
        m.len() < 0xFFFF_FFFF,
    ensures
        ids_below_len(intern(m, k)),
        ids_distinct(intern(m, k)),
        intern(m, k).contains_key(k),
        intern(m, k).len() == m.len() + if m.contains_key(k) {
            0int
        } else {
            1int
        },
        forall|k2: K| #[trigger]
            m.contains_key(k2) ==> intern(m, k).contains_key(k2) && intern(m, k)[k2] == m[k2],
{
    if !m.contains_key(k) {
        let n = intern(m, k);
        assert(n.dom() == m.dom().insert(k));
        assert forall|k2: K| #[trigger] n.contains_key(k2) implies (n[k2] as int) < n.len() by {
            if k2 != k {
                assert(m.contains_key(k2));
            }
        }
        assert forall|k1: K, k2: K|
            #[trigger] n.contains_key(k1) && #[trigger] n.contains_key(k2) && n[k1] == n[k2] implies k1
                == k2 by {
            if k1 != k && k2 != k {
                assert(m.contains_key(k1) && m.contains_key(k2));
            } else if k1 != k {
                assert(m.contains_key(k1));
            } else if k2 != k {
                assert(m.contains_key(k2));
            }
        }
    }
}

/// Lengths of the maps once an event is interned, from what the maps held before.
pub(crate) proof fn lemma_interned(st: EncoderModel, e: Event)
    requires
        model_wf(st),
    ensures
        ids_below_len(interned(st, e).threads),
        ids_below_len(interned(st, e).locations),
        ids_below_len(interned(st, e).regions),
        ids_below_len(interned(st, e).locks),
        ids_distinct(interned(st, e).threads),
        ids_distinct(interned(st, e).locations),
        ids_distinct(interned(st, e).regions),
        ids_distinct(interned(st, e).locks),
        interned(st, e).threads.contains_key(e.t),
        interned(st, e).locations.contains_key(pair_key(e.loc.0, e.loc.1)),
        interned(st, e).words == st.words,
        interned(st, e).threads.len() == st.threads.len() + (if st.threads.contains_key(e.t) {
            0int
        } else {
            1int
        }) + match e.op {
            Op::Fork { tid } => if tid == e.t || st.threads.contains_key(tid) {
                0int
            } else {
                1int
            },
            Op::Join { tid } => if tid == e.t || st.threads.contains_key(tid) {
                0int
            } else {
                1int
            },
            _ => 0int,
        },
        interned(st, e).locations.len() == st.locations.len() + if st.locations.contains_key(
            pair_key(e.loc.0, e.loc.1),
        ) {
            0int
        } else {
            1int
        },
        interned(st, e).regions.len() == st.regions.len() + match e.op {
            Op::Read { addr, n } => if st.regions.contains_key(pair_key(addr, n)) {
                0int
            } else {
                1int
            },
            Op::Write { addr, n } => if st.regions.contains_key(pair_key(addr, n)) {
                0int
            } else {
                1int
            },
            _ => 0int,
        },
        interned(st, e).locks.len() == st.locks.len() + match e.op {
            Op::Aquire { lock } => if st.locks.contains_key(lock) {
                0int
            } else {
                1int
            },
            Op::Request { lock } => if st.locks.contains_key(lock) {
                0int
            } else {
                1int
            },
            Op::Release { lock } => if st.locks.contains_key(lock) {
                0int
            } else {
                1int
            },
            _ => 0int,
        },
        forall|k: u32| #[trigger]
            st.threads.contains_key(k) ==> interned(st, e).threads.contains_key(k)
                && interned(st, e).threads[k] == st.threads[k],
        interned(st, e).threads[e.t] == intern(st.threads, e.t)[e.t],
{
    let threads = intern(st.threads, e.t);
    lemma_intern(st.threads, e.t);
    lemma_intern(st.locations, pair_key(e.loc.0, e.loc.1));
    match e.op {
        Op::Read { addr, n } => {
            lemma_intern(st.regions, pair_key(addr, n));
        },
        Op::Write { addr, n } => {
            lemma_intern(st.regions, pair_key(addr, n));
        },
        Op::Aquire { lock } => {
            lemma_intern(st.locks, lock);
        },
        Op::Request { lock } => {
            lemma_intern(st.locks, lock);
        },
        Op::Release { lock } => {
            lemma_intern(st.locks, lock);
        },
        Op::Fork { tid } => {
            lemma_intern(threads, tid);
        },
        Op::Join { tid } => {
            lemma_intern(threads, tid);
        },
    }
}

/// An event that breaks no limit leaves a well-formed encoder and gets
/// slots that fit their fields.
pub proof fn lemma_step(st: EncoderModel, e: Event)
    requires
        model_wf(st),
        overflow(st, e) is None,
    ensures
        model_wf(step(st, e)),
        fields_fit(assigned(st, e).t, assigned(st, e).op, assigned(st, e).decor, assigned(st, e).loc),
{
    lemma_interned(st, e);
    let m = interned(st, e);
    match e.op {
        Op::Read { addr, n } => {
            assert(m.regions.contains_key(pair_key(addr, n)));
        },
        Op::Write { addr, n } => {
            assert(m.regions.contains_key(pair_key(addr, n)));
        },
        Op::Aquire { lock } => {
            assert(m.locks.contains_key(lock));
        },
        Op::Request { lock } => {
            assert(m.locks.contains_key(lock));
        },
        Op::Release { lock } => {
            assert(m.locks.contains_key(lock));
        },
        Op::Fork { tid } => {
            assert(m.threads.contains_key(tid));
        },
        Op::Join { tid } => {
            assert(m.threads.contains_key(tid));
        },
    }
}

/// Interns `key` in `map`, whose identifiers were given in order by `counter`.
fn intern_key<K: Copy + Eq + Hash>(map: &mut HashMap<K, u32>, counter: &mut u32, key: K) -> (id:
    u32)
    requires
        obeys_key_model::<K>(),
        *old(counter) == old(map)@.len(),
        old(map)@.contains_key(key) || *old(counter) < u32::MAX,
    ensures
        final(map)@ == intern(old(map)@, key),
        *final(counter) == final(map)@.len(),
        id == final(map)@[key],
{
    match map.get(&key) {
        Some(id) => *id,
        None => {
            let id = *counter;
            map.insert(key, id);
            *counter = id + 1;
            id
        },
    }
}

/// Encodes events into a binary trace, one pass, one use.
pub struct BinaryTraceBuilder {
    thread_map: HashMap<u32, u32>,
    thread_counter: u32,
    memory_map: HashMap<u128, u32>,
    memory_counter: u32,
    lock_map: HashMap<usize, u32>,
    lock_counter: u32,
    location_map: HashMap<u128, u32>,
    location_counter: u32,
    binary_trace: Vec<u64>,
    event_counter: u64,
}

impl View for BinaryTraceBuilder {
    type V = EncoderModel;

    closed spec fn view(&self) -> EncoderModel {
        EncoderModel {
            threads: self.thread_map@,
            locations: self.location_map@,
            regions: self.memory_map@,
            locks: self.lock_map@,
            words: self.binary_trace@,
        }
    }
}

impl BinaryTraceBuilder {
    pub closed spec fn wf(&self) -> bool {
        &&& model_wf(self@)
        &&& self.thread_counter == self.thread_map@.len()
        &&& self.location_counter == self.location_map@.len()
        &&& self.memory_counter == self.memory_map@.len()
        &&& self.lock_counter == self.lock_map@.len()
        &&& self.event_counter == self.binary_trace@.len()
    }

    /// A well-formed builder's model is well formed: its identifiers are
    /// distinct, below their counts, and within the format's limits.
    pub proof fn lemma_model_wf(&self)
        requires
            self.wf(),
        ensures
            model_wf(self@),
    {
    }

    pub fn new() -> (r: BinaryTraceBuilder)
        ensures
            r.wf(),
            r@ == empty_model(),
    {
        let r = BinaryTraceBuilder {
            thread_map: HashMap::new(),
            thread_counter: 0,
            memory_map: HashMap::new(),
            memory_counter: 0,
            lock_map: HashMap::new(),
            lock_counter: 0,
            location_map: HashMap::new(),
            location_counter: 0,
            binary_trace: Vec::new(),
            event_counter: 0,
        };
        assert(r@.threads.dom() =~= Set::empty());
        assert(r@.locations.dom() =~= Set::empty());
        assert(r@.regions.dom() =~= Set::empty());
        assert(r@.locks.dom() =~= Set::empty());
        r
    }

    /// The limit that taking `event` would break, if any.
    pub fn check_capacity(&self, event: &Event) -> (r: Option<EncodeError>)
        requires
            self.wf(),
        ensures
            r == overflow(self@, *event),
    {
        proof {
            lemma_interned(self@, *event);
        }
        let new_thread: u32 = if self.thread_map.contains_key(&event.t) {
            0
        } else {
            1
        };
        let new_target: u32 = match event.op {
            Op::Fork { tid } | Op::Join { tid } => {
                if tid == event.t || self.thread_map.contains_key(&tid) {
                    0
                } else {
                    1
                }
            },
            _ => 0,
        };
        if self.thread_counter + new_thread + new_target > MAX_THREADS {
            return Some(EncodeError::TooManyThreads);
        }
        let new_location: u32 = if self.location_map.contains_key(
            &location_key(event.loc.0, event.loc.1),
        ) {
            0
        } else {
            1
        };
        if self.location_counter + new_location > MAX_LOCATIONS {
            return Some(EncodeError::TooManyLocations);
        }
        match event.op {
            Op::Read { addr, n } | Op::Write { addr, n } => {
                if !self.memory_map.contains_key(&location_key(addr, n)) && self.memory_counter
                    >= MAX_REGIONS {
                    return Some(EncodeError::TooManyRegions);
                }
            },
            Op::Aquire { lock } | Op::Request { lock } | Op::Release { lock } => {
                if !self.lock_map.contains_key(&lock) && self.lock_counter >= MAX_LOCKS {
                    return Some(EncodeError::TooManyLocks);
                }
            },
            _ => {},
        }
        if self.event_counter >= MAX_EVENTS {
            return Some(EncodeError::TooManyEvents);
        }
        None
    }

    /// Interns the operands of `event` and returns its packed word.
    pub fn convert_event(&mut self, event: &Event) -> (word: u64)
        requires
            old(self).wf(),
            overflow(old(self)@, *event) is None,
        ensures
            final(self).wf(),
            final(self)@ == interned(old(self)@, *event),
            word == word_of(assigned(old(self)@, *event)),
    {
        proof {
            lemma_interned(self@, *event);
            lemma_step(self@, *event);
        }
        let ghost st = self@;
        let thread_id = intern_key(&mut self.thread_map, &mut self.thread_counter, event.t);
        let location_id = intern_key(
            &mut self.location_map,
            &mut self.location_counter,
            location_key(event.loc.0, event.loc.1),
        );
        let decor = match event.op {
            Op::Read { addr, n } | Op::Write { addr, n } => intern_key(
                &mut self.memory_map,
                &mut self.memory_counter,
                location_key(addr, n),
            ),
            Op::Aquire { lock } | Op::Request { lock } | Op::Release { lock } => intern_key(
                &mut self.lock_map,
                &mut self.lock_counter,
                lock,
            ),
            Op::Fork { tid } | Op::Join { tid } => intern_key(
                &mut self.thread_map,
                &mut self.thread_counter,
                tid,
            ),
        };
        assert(self@ == interned(st, *event));
        let op_id = event.op.id();
        pack(thread_id as u64, op_id as u64, decor as u64, location_id as u64)
    }

    /// Encodes one more event. An event that would need an identifier beyond
    /// what the format holds is refused, and the encoder is left as it was.
    pub fn push_event(&mut self, event: &Event) -> (r: Result<(), EncodeError>)
        requires
            old(self).wf(),
        ensures
            final(self).wf(),
            match overflow(old(self)@, *event) {
                Some(e) => r == Err::<(), EncodeError>(e) && final(self)@ == old(self)@,
                None => r == Ok::<(), EncodeError>(()) && final(self)@ == step(old(self)@, *event),
            },
    {
        if let Some(e) = self.check_capacity(event) {
            return Err(e);
        }
        proof {
            lemma_step(self@, *event);
        }
        let word = self.convert_event(event);
        self.binary_trace.push(word);
        self.event_counter = self.event_counter + 1;
        Ok(())
    }

    /// The trace: the header, then every word, all big-endian.
    pub fn build(self) -> (bytes: Vec<u8>)
        requires
            self.wf(),
        ensures
            bytes@ == trace_bytes(self@),
    {
        let mut output: Vec<u8> = Vec::new();
        push_be_u16(&mut output, self.thread_counter as u16);
        push_be_u32(&mut output, self.lock_counter);
        push_be_u32(&mut output, self.memory_counter);
        push_be_u64(&mut output, self.event_counter);
        assert(output@ =~= header_bytes(self@));
        let ghost header = output@;
        let words = &self.binary_trace;
        let mut i: usize = 0;
        assert(words@.take(0) =~= Seq::<u64>::empty());
        while i < words.len()
            invariant
                i <= words@.len(),
                output@ == header + words_bytes(words@.take(i as int)),
            decreases words@.len() - i,
        {
            assert(words@.take(i + 1).drop_last() == words@.take(i as int));
            push_be_u64(&mut output, words[i]);
            assert(output@ =~= header + words_bytes(words@.take(i + 1)));
            i = i + 1;
        }
        assert(words@.take(i as int) == words@);
        output
    }
}

/// Once a prefix of the events breaks a limit, encoding all of them fails the same way.
pub proof fn lemma_encode_error_persists(events: Seq<Event>, k: int)
    requires
        0 <= k <= events.len(),
        encode_events(events.take(k)) is Err,
    ensures
        encode_events(events) == encode_events(events.take(k)),
    decreases events.len() - k,
{
    if k < events.len() {
        assert(events.take(k + 1).drop_last() == events.take(k));
        lemma_encode_error_persists(events, k + 1);
    } else {
        assert(events.take(k) == events);
    }
}

/// Encodes `events` in order with a fresh encoder. Fails, with no output,
/// on the first event that would break one of the format's limits.
pub fn encode_trace(events: &Vec<Event>) -> (r: Result<Vec<u8>, EncodeError>)
    ensures
        match encode_events(events@) {
            Ok(st) => r matches Ok(bytes) && bytes@ == trace_bytes(st),
            Err(e) => r == Err::<Vec<u8>, EncodeError>(e),
        },
{
    let mut output = BinaryTraceBuilder::new();
    let mut i: usize = 0;
    assert(events@.take(0) =~= Seq::<Event>::empty());
    while i < events.len()
        invariant
            i <= events@.len(),
            output.wf(),
            encode_events(events@.take(i as int)) == Ok::<EncoderModel, EncodeError>(output@),
        decreases events@.len() - i,
    {
        assert(events@.take(i + 1).drop_last() == events@.take(i as int));
        match output.push_event(&events[i]) {
            Ok(()) => {},
            Err(e) => {
                proof {
                    lemma_encode_error_persists(events@, i + 1);
                }
                return Err(e);
            },
        }
        i = i + 1;
    }
    assert(events@.take(i as int) == events@);
    Ok(output.build())
}

} // verus!
