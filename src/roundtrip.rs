//! Laws relating the encoder and the decoder.
use vstd::prelude::*;

use crate::bytes::{
    be_u16, be_u32, be_u64, lemma_read_be_u16, lemma_read_be_u32, lemma_read_be_u64, read_be_u64,
};
use crate::layout::lemma_pack_unpack;
use crate::parser::{
    self, op_known, spec_decode, spec_decode_events, spec_event_at, spec_header, DecodeError, Header,
};
use crate::rapidbin::{
    assigned, decor_slot, empty_model, encode_events, header_bytes, interned, lemma_interned,
    lemma_pair_key_injective, lemma_step, model_wf, overflow, pair_key, pushed, step, trace_bytes,
    word_of, words_bytes, BinaryTraceBuilder, EncoderModel,
};
use crate::tracing::{Event, Op};

verus! {

/// The header an encoder in state `st` writes.
pub open spec fn header_of(st: EncoderModel) -> Header {
    Header {
        threads: st.threads.len() as u16,
        locks: st.locks.len() as u32,
        regions: st.regions.len() as u32,
        events: st.words.len() as u64,
    }
}

/// The encoder's state after `events`, which break no limit.
pub open spec fn encoded(events: Seq<Event>) -> EncoderModel
    recommends
        encode_events(events) is Ok,
{
    match encode_events(events) {
        Ok(st) => st,
        Err(_) => empty_model(),
    }
}

/// The slots that the `i`-th of `events` is encoded with.
pub open spec fn slots_at(events: Seq<Event>, i: int) -> parser::Event {
    assigned(encoded(events.take(i)), events[i])
}

proof fn lemma_words_bytes_append(a: Seq<u64>, b: Seq<u64>)
    ensures
        words_bytes(a + b) == words_bytes(a) + words_bytes(b),
    decreases b.len(),
{
    if b.len() == 0 {
        assert(a + b =~= a);
        assert(words_bytes(a) + words_bytes(b) =~= words_bytes(a));
    } else {
        assert((a + b).drop_last() =~= a + b.drop_last());
        assert((a + b).last() == b.last());
        lemma_words_bytes_append(a, b.drop_last());
        assert(words_bytes(a) + words_bytes(b) =~= words_bytes(a) + words_bytes(b.drop_last())
            + be_u64(b.last()));
    }
}

proof fn lemma_words_bytes_len(ws: Seq<u64>)
    ensures
        words_bytes(ws).len() == 8 * ws.len(),
    decreases ws.len(),
{
    if ws.len() > 0 {
        lemma_words_bytes_len(ws.drop_last());
    }
}

/// The `i`-th word sits at byte `8 * i` of the word bytes.
proof fn lemma_words_bytes_read(pre: Seq<u8>, ws: Seq<u64>, i: int)
    requires
        0 <= i < ws.len(),
    ensures
        read_be_u64(pre + words_bytes(ws), pre.len() + 8 * i) == ws[i],
{
    let a = ws.take(i);
    let b = ws.skip(i + 1);
    assert(ws =~= a + seq![ws[i]] + b);
    lemma_words_bytes_append(a + seq![ws[i]], b);
    lemma_words_bytes_append(a, seq![ws[i]]);
    assert(seq![ws[i]].drop_last() =~= Seq::<u64>::empty());
    assert(words_bytes(Seq::<u64>::empty()) == Seq::<u8>::empty());
    assert(seq![ws[i]].last() == ws[i]);
    assert(words_bytes(seq![ws[i]]) =~= be_u64(ws[i]));
    lemma_words_bytes_len(a);
    let p = pre + words_bytes(a);
    assert(pre + words_bytes(ws) =~= p + be_u64(ws[i]) + words_bytes(b));
    lemma_read_be_u64(p, ws[i], words_bytes(b));
}

/// Every encoder state reached without breaking a limit is well formed and
/// holds one word per event.
pub proof fn lemma_encode_wf(events: Seq<Event>)
    requires
        encode_events(events) is Ok,
    ensures
        model_wf(encoded(events)),
        encoded(events).words.len() == events.len(),
    decreases events.len(),
{
    if events.len() == 0 {
        assert(empty_model().threads.dom() =~= Set::empty());
        assert(empty_model().locations.dom() =~= Set::empty());
        assert(empty_model().regions.dom() =~= Set::empty());
        assert(empty_model().locks.dom() =~= Set::empty());
    } else {
        lemma_encode_wf(events.drop_last());
        lemma_step(encoded(events.drop_last()), events.last());
    }
}

/// Each prefix of an encodable sequence is encodable, and the `i`-th word is
/// the packed slots of the `i`-th event.
pub proof fn lemma_encode_prefix(events: Seq<Event>, i: int)
    requires
        encode_events(events) is Ok,
        0 <= i < events.len(),
    ensures
        encode_events(events.take(i)) is Ok,
        overflow(encoded(events.take(i)), events[i]) is None,
        model_wf(encoded(events.take(i))),
        encoded(events).words[i] == word_of(slots_at(events, i)),
    decreases events.len(),
{
    let prev = events.drop_last();
    lemma_encode_wf(prev);
    if i == events.len() - 1 {
        assert(events.take(i) =~= prev);
    } else {
        assert(prev.take(i) =~= events.take(i));
        assert(prev[i] == events[i]);
        lemma_encode_prefix(prev, i);
    }
}

proof fn lemma_op_known(op: Op)
    ensures
        op_known(op.spec_id() as u64),
{
    match op {
        Op::Read { .. } => {},
        Op::Write { .. } => {},
        Op::Aquire { .. } => {},
        Op::Request { .. } => {},
        Op::Release { .. } => {},
        Op::Fork { .. } => {},
        Op::Join { .. } => {},
    }
}

proof fn lemma_decode_all_known(b: Seq<u8>, k: nat)
    requires
        forall|i: int| 0 <= i < k ==> op_known(#[trigger] spec_event_at(b, i).op),
    ensures
        spec_decode_events(b, k) == Ok::<Seq<parser::Event>, DecodeError>(
            Seq::new(k, |i: int| spec_event_at(b, i)),
        ),
    decreases k,
{
    if k == 0 {
        assert(Seq::new(k, |i: int| spec_event_at(b, i)) =~= Seq::<parser::Event>::empty());
    } else {
        lemma_decode_all_known(b, (k - 1) as nat);
        assert(op_known(spec_event_at(b, k - 1).op));
        assert(Seq::new((k - 1) as nat, |i: int| spec_event_at(b, i)).push(spec_event_at(b, k - 1))
            =~= Seq::new(k, |i: int| spec_event_at(b, i)));
    }
}

/// Decoding the bytes of an encodable event sequence gives back the header
/// the encoder wrote and, for every event, exactly the thread, op, decoration
/// and location slots it was encoded with.
pub proof fn lemma_round_trip(events: Seq<Event>)
    requires
        encode_events(events) is Ok,
    ensures
        spec_decode(trace_bytes(encoded(events))) == Ok::<(Header, Seq<parser::Event>), DecodeError>(
            (header_of(encoded(events)), Seq::new(events.len(), |i: int| slots_at(events, i))),
        ),
{
    let st = encoded(events);
    lemma_encode_wf(events);
    let b = trace_bytes(st);
    let ws = st.words;
    let nt = st.threads.len() as u16;
    let nl = st.locks.len() as u32;
    let nr = st.regions.len() as u32;
    let ne = st.words.len() as u64;
    lemma_words_bytes_len(ws);
    let h = header_bytes(st);
    let tail = words_bytes(ws);
    assert(h.len() == 18);
    // Each header field reads back as written.
    assert(b =~= Seq::<u8>::empty() + be_u16(nt) + (be_u32(nl)
        + be_u32(nr) + be_u64(ne) + tail));
    lemma_read_be_u16(Seq::<u8>::empty(), nt, be_u32(nl) + be_u32(nr)
        + be_u64(ne) + tail);
    assert(b =~= be_u16(nt) + be_u32(nl) + (be_u32(nr)
        + be_u64(ne) + tail));
    lemma_read_be_u32(be_u16(nt), nl, be_u32(nr) + be_u64(ne) + tail);
    assert(b =~= be_u16(nt) + be_u32(nl) + be_u32(nr) + (
    be_u64(ne) + tail));
    lemma_read_be_u32(be_u16(nt) + be_u32(nl), nr, be_u64(ne) + tail);
    assert(b =~= be_u16(nt) + be_u32(nl) + be_u32(nr)
        + be_u64(ne) + tail);
    lemma_read_be_u64(
        be_u16(nt) + be_u32(nl) + be_u32(nr),
        ne,
        tail,
    );
    // The reserved top bits are clear, so masking keeps the counts.
    assert(nt <= 0x400 ==> nt & 0x7FFF == nt) by (bit_vector);
    assert(nl <= 0x7FFF_FFFF ==> nl & 0x7FFF_FFFF == nl) by (bit_vector);
    assert(nr <= 0x7FFF_FFFF ==> nr & 0x7FFF_FFFF == nr) by (bit_vector);
    assert(ne <= 0x7FFF_FFFF_FFFF_FFFF ==> ne & 0x7FFF_FFFF_FFFF_FFFF == ne) by (bit_vector);
    assert(spec_header(b) == header_of(st));
    assert(ne == events.len());
    // Each word unpacks to the slots it was packed from.
    assert forall|i: int| 0 <= i < events.len() implies spec_event_at(b, i) == slots_at(events, i)
        && op_known(spec_event_at(b, i).op) by {
        lemma_encode_prefix(events, i);
        lemma_step(encoded(events.take(i)), events[i]);
        lemma_words_bytes_read(h, ws, i);
        let s = slots_at(events, i);
        lemma_pack_unpack(s.t, s.op, s.decor, s.loc);
        lemma_op_known(events[i].op);
    }
    lemma_decode_all_known(b, ne as nat);
    assert(Seq::new(ne as nat, |i: int| spec_event_at(b, i)) =~= Seq::new(
        events.len(),
        |i: int| slots_at(events, i),
    ));
}

/// Without a refusal, pushing events one by one leaves the encoder exactly
/// where encoding them as a whole does.
pub proof fn lemma_pushed_is_encoded(events: Seq<Event>)
    requires
        encode_events(events) is Ok,
    ensures
        pushed(events) == encoded(events),
    decreases events.len(),
{
    if events.len() > 0 {
        lemma_pushed_is_encoded(events.drop_last());
    }
}

/// A builder that took `events` through `push_event` from `new()` is in
/// state `pushed(events)`; the next `push_event` keeps that so.
pub proof fn lemma_pushed_push(events: Seq<Event>, e: Event)
    ensures
        pushed(events.push(e)) == match overflow(pushed(events), e) {
            Some(_) => pushed(events),
            None => step(pushed(events), e),
        },
{
    assert(events.push(e).drop_last() =~= events);
}

/// Two builders fed the same events through `push_event`, each from
/// `new()`, build byte-identical traces; when no event was refused, those
/// are the bytes of encoding the events as a whole.
pub proof fn lemma_builders_agree(b1: BinaryTraceBuilder, b2: BinaryTraceBuilder, events: Seq<Event>)
    requires
        b1@ == pushed(events),
        b2@ == pushed(events),
    ensures
        trace_bytes(b1@) == trace_bytes(b2@),
        encode_events(events) is Ok ==> trace_bytes(b1@) == trace_bytes(encoded(events)),
{
    if encode_events(events) is Ok {
        lemma_pushed_is_encoded(events);
    }
}

proof fn lemma_interned_keeps(st: EncoderModel, e: Event)
    ensures
        forall|t: u32| #[trigger]
            st.threads.contains_key(t) ==> interned(st, e).threads[t] == st.threads[t],
        forall|k: u128| #[trigger]
            st.locations.contains_key(k) ==> interned(st, e).locations[k] == st.locations[k],
        forall|k: u128| #[trigger]
            st.regions.contains_key(k) ==> interned(st, e).regions[k] == st.regions[k],
        forall|l: usize| #[trigger] st.locks.contains_key(l) ==> interned(st, e).locks[l] == st.locks[l],
{
    match e.op {
        Op::Read { addr, n } => {},
        Op::Write { addr, n } => {},
        Op::Aquire { lock } => {},
        Op::Request { lock } => {},
        Op::Release { lock } => {},
        Op::Fork { tid } => {},
        Op::Join { tid } => {},
    }
}

/// Identifiers are fixed by first-seen order: once a key has an identifier
/// after a prefix of the events, it keeps it however many events follow.
pub proof fn lemma_ids_stable(events: Seq<Event>, j: int)
    requires
        encode_events(events) is Ok,
        0 <= j <= events.len(),
    ensures
        encode_events(events.take(j)) is Ok,
        forall|t: u32| #[trigger]
            encoded(events.take(j)).threads.contains_key(t) ==> encoded(events).threads.contains_key(t)
                && encoded(events).threads[t] == encoded(events.take(j)).threads[t],
        forall|k: u128| #[trigger]
            encoded(events.take(j)).locations.contains_key(k) ==> encoded(events).locations.contains_key(k)
                && encoded(events).locations[k] == encoded(events.take(j)).locations[k],
        forall|k: u128| #[trigger]
            encoded(events.take(j)).regions.contains_key(k) ==> encoded(events).regions.contains_key(k)
                && encoded(events).regions[k] == encoded(events.take(j)).regions[k],
        forall|l: usize| #[trigger]
            encoded(events.take(j)).locks.contains_key(l) ==> encoded(events).locks.contains_key(l)
                && encoded(events).locks[l] == encoded(events.take(j)).locks[l],
    decreases events.len() - j,
{
    if j == events.len() {
        assert(events.take(j) =~= events);
    } else {
        let prev = events.drop_last();
        assert(prev.take(j) =~= events.take(j));
        lemma_ids_stable(prev, j);
        lemma_interned_keeps(encoded(prev), events.last());
        lemma_interned_keys(encoded(prev), events.last());
        assert forall|k: u128| #[trigger]
            encoded(prev).locations.contains_key(k) implies encoded(events).locations.contains_key(k) by {
            match events.last().op {
                Op::Read { addr, n } => {},
                Op::Write { addr, n } => {},
                Op::Aquire { lock } => {},
                Op::Request { lock } => {},
                Op::Release { lock } => {},
                Op::Fork { tid } => {},
                Op::Join { tid } => {},
            }
        }
    }
}

/// The region a read or write touches.
pub open spec fn region_of(op: Op) -> Option<(usize, usize)> {
    match op {
        Op::Read { addr, n } => Some((addr, n)),
        Op::Write { addr, n } => Some((addr, n)),
        _ => None,
    }
}

/// The lock a request, acquisition or release names.
pub open spec fn lock_of(op: Op) -> Option<usize> {
    match op {
        Op::Aquire { lock } => Some(lock),
        Op::Request { lock } => Some(lock),
        Op::Release { lock } => Some(lock),
        _ => None,
    }
}

/// The thread a fork or join targets.
pub open spec fn target_of(op: Op) -> Option<u32> {
    match op {
        Op::Fork { tid } => Some(tid),
        Op::Join { tid } => Some(tid),
        _ => None,
    }
}

/// The slots of the `i`-th event, read from the encoder's final maps, which
/// hold every key the event names.
proof fn lemma_slots_final(events: Seq<Event>, i: int)
    requires
        encode_events(events) is Ok,
        0 <= i < events.len(),
    ensures
        ({
            let f = encoded(events);
            let e = events[i];
            &&& model_wf(f)
            &&& f.threads.contains_key(e.t)
            &&& f.locations.contains_key(pair_key(e.loc.0, e.loc.1))
            &&& region_of(e.op) matches Some((a, n)) ==> f.regions.contains_key(pair_key(a, n))
            &&& lock_of(e.op) matches Some(l) ==> f.locks.contains_key(l)
            &&& target_of(e.op) matches Some(t) ==> f.threads.contains_key(t)
            &&& slots_at(events, i) == parser::Event {
                t: f.threads[e.t] as u64,
                op: e.op.spec_id() as u64,
                decor: decor_slot(f, e.op) as u64,
                loc: f.locations[pair_key(e.loc.0, e.loc.1)] as u64,
            }
        }),
{
    let e = events[i];
    lemma_encode_prefix(events, i);
    lemma_encode_wf(events);
    let before = encoded(events.take(i));
    assert(events.take(i + 1).drop_last() =~= events.take(i));
    assert(events.take(i + 1).last() == e);
    assert(encoded(events.take(i + 1)) == step(before, e));
    lemma_interned(before, e);
    lemma_ids_stable(events, i + 1);
    let m = interned(before, e);
    let f = encoded(events);
    assert(m.threads == encoded(events.take(i + 1)).threads);
    assert(m.locations == encoded(events.take(i + 1)).locations);
    assert(m.regions == encoded(events.take(i + 1)).regions);
    assert(m.locks == encoded(events.take(i + 1)).locks);
    assert(m.threads.contains_key(e.t));
    assert(m.locations.contains_key(pair_key(e.loc.0, e.loc.1)));
    match e.op {
        Op::Read { addr, n } => {
            assert(m.regions.contains_key(pair_key(addr, n)));
        },
        Op::Write { addr, n } => {
            assert(m.regions.contains_key(pair_key(addr, n)));
        },
        Op::Aquire { lock } => {
            assert(m.locks.contains_key(lock));
        },
        Op::Request { lock } => {
            assert(m.locks.contains_key(lock));
        },
        Op::Release { lock } => {
            assert(m.locks.contains_key(lock));
        },
        Op::Fork { tid } => {
            assert(m.threads.contains_key(tid));
        },
        Op::Join { tid } => {
            assert(m.threads.contains_key(tid));
        },
    }
}

/// Decoding keeps relative identity: two events get the same thread slot
/// exactly when they ran on the same thread, the same location slot exactly
/// when they ran at the same location, and the same decoration slot exactly
/// when they name the same region, the same lock, or the same target thread;
/// a fork or join target shares its slot with the events of that thread.
pub proof fn lemma_relative_identity(events: Seq<Event>, i: int, j: int)
    requires
        encode_events(events) is Ok,
        0 <= i < events.len(),
        0 <= j < events.len(),
    ensures
        (slots_at(events, i).t == slots_at(events, j).t) == (events[i].t == events[j].t),
        (slots_at(events, i).loc == slots_at(events, j).loc) == (events[i].loc == events[j].loc),
        region_of(events[i].op) is Some && region_of(events[j].op) is Some ==> ((slots_at(
            events,
            i,
        ).decor == slots_at(events, j).decor) == (region_of(events[i].op) == region_of(
            events[j].op,
        ))),
        lock_of(events[i].op) is Some && lock_of(events[j].op) is Some ==> ((slots_at(
            events,
            i,
        ).decor == slots_at(events, j).decor) == (lock_of(events[i].op) == lock_of(events[j].op))),
        target_of(events[i].op) is Some && target_of(events[j].op) is Some ==> ((slots_at(
            events,
            i,
        ).decor == slots_at(events, j).decor) == (target_of(events[i].op) == target_of(
            events[j].op,
        ))),
        target_of(events[i].op) is Some ==> ((slots_at(events, i).decor == slots_at(events, j).t)
            == (target_of(events[i].op) == Some(events[j].t))),
{
    lemma_slots_final(events, i);
    lemma_slots_final(events, j);
    let f = encoded(events);
    let ei = events[i];
    let ej = events[j];
    lemma_pair_key_injective(ei.loc.0, ei.loc.1, ej.loc.0, ej.loc.1);
    if let (Some((a, n)), Some((c, d))) = (region_of(ei.op), region_of(ej.op)) {
        lemma_pair_key_injective(a, n, c, d);
        assert(f.regions.contains_key(pair_key(a, n)) && f.regions.contains_key(pair_key(c, d)));
        assert(decor_slot(f, ei.op) == f.regions[pair_key(a, n)]);
        assert(decor_slot(f, ej.op) == f.regions[pair_key(c, d)]);
    }
    if let (Some(l1), Some(l2)) = (lock_of(ei.op), lock_of(ej.op)) {
        assert(f.locks.contains_key(l1) && f.locks.contains_key(l2));
        assert(decor_slot(f, ei.op) == f.locks[l1]);
        assert(decor_slot(f, ej.op) == f.locks[l2]);
    }
    if let Some(t1) = target_of(ei.op) {
        assert(f.threads.contains_key(t1));
        assert(decor_slot(f, ei.op) == f.threads[t1]);
        assert(f.threads.contains_key(ej.t));
        if let Some(t2) = target_of(ej.op) {
            assert(f.threads.contains_key(t2));
            assert(decor_slot(f, ej.op) == f.threads[t2]);
        }
    }
}

/// Event `e` names thread `t`: as its own thread, or as the target of a fork or join.
pub open spec fn names_thread(e: Event, t: u32) -> bool {
    e.t == t || e.op == (Op::Fork { tid: t }) || e.op == (Op::Join { tid: t })
}

/// Event `e` reads or writes the region whose key is `k`.
pub open spec fn names_region(e: Event, k: u128) -> bool {
    match e.op {
        Op::Read { addr, n } => pair_key(addr, n) == k,
        Op::Write { addr, n } => pair_key(addr, n) == k,
        _ => false,
    }
}

/// Event `e` requests, acquires or releases lock `l`.
pub open spec fn names_lock(e: Event, l: usize) -> bool {
    e.op == (Op::Aquire { lock: l }) || e.op == (Op::Request { lock: l }) || e.op == (
    Op::Release { lock: l })
}

/// The distinct threads that `events` name.
pub open spec fn thread_keys(events: Seq<Event>) -> Set<u32> {
    Set::new(|t: u32| exists|i: int| 0 <= i < events.len() && #[trigger] names_thread(events[i], t))
}

/// The keys of the distinct regions that `events` read or write.
pub open spec fn region_keys(events: Seq<Event>) -> Set<u128> {
    Set::new(|k: u128| exists|i: int| 0 <= i < events.len() && #[trigger] names_region(events[i], k))
}

/// The distinct (address, length) regions that `events` read or write.
pub open spec fn region_pairs(events: Seq<Event>) -> Set<(usize, usize)> {
    Set::new(|p: (usize, usize)| exists|i: int| 0 <= i < events.len() && #[trigger] region_of(events[i].op) == Some(p))
}

pub open spec fn region_key_of(p: (usize, usize)) -> u128 {
    pair_key(p.0, p.1)
}

proof fn lemma_region_pairs_finite(events: Seq<Event>)
    ensures
        region_pairs(events).finite(),
    decreases events.len(),
{
    if events.len() == 0 {
        assert(region_pairs(events) =~= Set::empty());
    } else {
        let prev = events.drop_last();
        let last = events.len() - 1;
        lemma_region_pairs_finite(prev);
        let extra = match region_of(events[last].op) {
            Some(p) => Set::empty().insert(p),
            None => Set::empty(),
        };
        assert forall|p: (usize, usize)| #[trigger] region_pairs(events).contains(p) implies region_pairs(
            prev,
        ).union(extra).contains(p) by {
            let i = choose|i: int| 0 <= i < events.len() && #[trigger] region_of(events[i].op) == Some(p);
            if i < last {
                assert(region_of(prev[i].op) == Some(p));
            }
        }
        vstd::set_lib::lemma_len_subset(region_pairs(events), region_pairs(prev).union(extra));
    }
}

/// Counting regions by key counts distinct (address, length) pairs.
proof fn lemma_region_count(events: Seq<Event>)
    ensures
        region_keys(events).finite() ==> region_keys(events).len() == region_pairs(events).len(),
{
    lemma_region_pairs_finite(events);
    let x = region_pairs(events);
    assert forall|k: u128| #[trigger] region_keys(events).contains(k) <==> x.map(|p: (usize, usize)| region_key_of(p)).contains(k) by {
        if region_keys(events).contains(k) {
            let i = choose|i: int| 0 <= i < events.len() && #[trigger] names_region(events[i], k);
            match events[i].op {
                Op::Read { addr, n } => {
                    assert(region_of(events[i].op) == Some((addr, n)));
                    assert(x.contains((addr, n)));
                    assert(region_key_of((addr, n)) == k);
                },
                Op::Write { addr, n } => {
                    assert(region_of(events[i].op) == Some((addr, n)));
                    assert(x.contains((addr, n)));
                    assert(region_key_of((addr, n)) == k);
                },
                _ => {},
            }
        }
        if x.map(|p: (usize, usize)| region_key_of(p)).contains(k) {
            let p = choose|p: (usize, usize)| x.contains(p) && region_key_of(p) == k;
            let i = choose|i: int| 0 <= i < events.len() && #[trigger] region_of(events[i].op) == Some(p);
            assert(names_region(events[i], k));
        }
    }
    assert(x.map(|p: (usize, usize)| region_key_of(p)) =~= region_keys(events));
    assert forall|p1: (usize, usize), p2: (usize, usize)|
        x.contains(p1) && x.contains(p2) && #[trigger] region_key_of(p1) == #[trigger] region_key_of(p2) implies p1 == p2 by {
        lemma_pair_key_injective(p1.0, p1.1, p2.0, p2.1);
    }
    vstd::set_lib::lemma_map_size(x, region_keys(events), |p: (usize, usize)| region_key_of(p));
}

/// The distinct locks that `events` name.
pub open spec fn lock_keys(events: Seq<Event>) -> Set<usize> {
    Set::new(|l: usize| exists|i: int| 0 <= i < events.len() && #[trigger] names_lock(events[i], l))
}

proof fn lemma_interned_keys(st: EncoderModel, e: Event)
    ensures
        forall|t: u32| #[trigger]
            interned(st, e).threads.contains_key(t) <==> st.threads.contains_key(t)
                || names_thread(e, t),
        forall|k: u128| #[trigger]
            interned(st, e).regions.contains_key(k) <==> st.regions.contains_key(k)
                || names_region(e, k),
        forall|l: usize| #[trigger]
            interned(st, e).locks.contains_key(l) <==> st.locks.contains_key(l) || names_lock(e, l),
{
    match e.op {
        Op::Read { addr, n } => {},
        Op::Write { addr, n } => {},
        Op::Aquire { lock } => {},
        Op::Request { lock } => {},
        Op::Release { lock } => {},
        Op::Fork { tid } => {},
        Op::Join { tid } => {},
    }
}

/// The interning maps of an encodable sequence hold exactly the keys it names.
pub proof fn lemma_encode_keys(events: Seq<Event>)
    requires
        encode_events(events) is Ok,
    ensures
        encoded(events).threads.dom() == thread_keys(events),
        encoded(events).regions.dom() == region_keys(events),
        encoded(events).locks.dom() == lock_keys(events),
    decreases events.len(),
{
    if events.len() == 0 {
        assert(encoded(events).threads.dom() =~= thread_keys(events));
        assert(encoded(events).regions.dom() =~= region_keys(events));
        assert(encoded(events).locks.dom() =~= lock_keys(events));
    } else {
        let prev = events.drop_last();
        let e = events.last();
        let last = events.len() - 1;
        lemma_encode_keys(prev);
        lemma_interned_keys(encoded(prev), e);
        assert(forall|i: int| 0 <= i < prev.len() ==> prev[i] == events[i]);
        assert forall|t: u32| #[trigger]
            encoded(events).threads.contains_key(t) <==> thread_keys(events).contains(t) by {
            if thread_keys(events).contains(t) {
                let i = choose|i: int| 0 <= i < events.len() && #[trigger] names_thread(events[i], t);
                if i < last {
                    assert(names_thread(prev[i], t));
                }
            }
            if thread_keys(prev).contains(t) {
                let i = choose|i: int| 0 <= i < prev.len() && #[trigger] names_thread(prev[i], t);
                assert(names_thread(events[i], t));
            }
            if names_thread(e, t) {
                assert(names_thread(events[last], t));
            }
        }
        assert forall|k: u128| #[trigger]
            encoded(events).regions.contains_key(k) <==> region_keys(events).contains(k) by {
            if region_keys(events).contains(k) {
                let i = choose|i: int| 0 <= i < events.len() && #[trigger] names_region(events[i], k);
                if i < last {
                    assert(names_region(prev[i], k));
                }
            }
            if region_keys(prev).contains(k) {
                let i = choose|i: int| 0 <= i < prev.len() && #[trigger] names_region(prev[i], k);
                assert(names_region(events[i], k));
            }
            if names_region(e, k) {
                assert(names_region(events[last], k));
            }
        }
        assert forall|l: usize| #[trigger]
            encoded(events).locks.contains_key(l) <==> lock_keys(events).contains(l) by {
            if lock_keys(events).contains(l) {
                let i = choose|i: int| 0 <= i < events.len() && #[trigger] names_lock(events[i], l);
                if i < last {
                    assert(names_lock(prev[i], l));
                }
            }
            if lock_keys(prev).contains(l) {
                let i = choose|i: int| 0 <= i < prev.len() && #[trigger] names_lock(prev[i], l);
                assert(names_lock(events[i], l));
            }
            if names_lock(e, l) {
                assert(names_lock(events[last], l));
            }
        }
        assert(encoded(events).threads.dom() =~= thread_keys(events));
        assert(encoded(events).regions.dom() =~= region_keys(events));
        assert(encoded(events).locks.dom() =~= lock_keys(events));
    }
}

/// The decoded header of an encodable sequence counts exactly the distinct
/// threads, locks and (address, length) regions it names, and its events.
pub proof fn lemma_header_counts(events: Seq<Event>)
    requires
        encode_events(events) is Ok,
    ensures
        spec_decode(trace_bytes(encoded(events))) matches Ok((h, _)) && h.threads == thread_keys(
            events,
        ).len() && h.locks == lock_keys(events).len() && h.regions == region_pairs(events).len()
            && h.events == events.len(),
{
    lemma_round_trip(events);
    lemma_encode_keys(events);
    lemma_encode_wf(events);
    lemma_region_count(events);
}

} // verus!
