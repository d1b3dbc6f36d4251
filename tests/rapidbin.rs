use wasm_tracing::layout::{DECOR_BIT_OFFSET, LOC_BIT_OFFSET, OP_BIT_OFFSET, THREAD_BIT_OFFSET};
use wasm_tracing::parser::{decode_trace, Header};
use wasm_tracing::rapidbin::{encode_trace, BinaryTraceBuilder, EncodeError, MAX_LOCATIONS, MAX_THREADS};
use wasm_tracing::tracing::{Event, Op};

#[test]
fn test_event_conversion() {
    let mut builder = BinaryTraceBuilder::new();
    let event = Event { t: 1, op: Op::Write { addr: 100, n: 2 }, loc: (10, 75) };
    let binary_event = (0 << THREAD_BIT_OFFSET)
        | (3 << OP_BIT_OFFSET)
        | (0 << DECOR_BIT_OFFSET)
        | (0 << LOC_BIT_OFFSET);
    assert_eq!(builder.convert_event(&event), binary_event)
}

#[test]
fn concrete_word_is_3072() {
    let mut builder = BinaryTraceBuilder::new();
    let event = Event { t: 1, op: Op::Write { addr: 100, n: 2 }, loc: (10, 75) };
    assert_eq!(builder.convert_event(&event), 3072);
}

#[test]
fn ids_follow_first_seen_order() {
    let mut builder = BinaryTraceBuilder::new();
    let a = Event { t: 7, op: Op::Read { addr: 8, n: 4 }, loc: (1, 2) };
    let b = Event { t: 9, op: Op::Read { addr: 16, n: 4 }, loc: (1, 3) };
    let c = Event { t: 7, op: Op::Write { addr: 16, n: 4 }, loc: (1, 2) };
    assert_eq!(builder.convert_event(&a), 2 << 10);
    // thread 1, op 2, region 1, location 1
    assert_eq!(builder.convert_event(&b), 1 | (2 << 10) | (1 << 14) | (1 << 48));
    // thread 0, op 3, region 1, location 0
    assert_eq!(builder.convert_event(&c), (3 << 10) | (1 << 14));
}

#[test]
fn fork_target_shares_thread_ids() {
    let mut builder = BinaryTraceBuilder::new();
    let fork = Event { t: 5, op: Op::Fork { tid: 6 }, loc: (0, 0) };
    let child = Event { t: 6, op: Op::Join { tid: 5 }, loc: (0, 0) };
    // thread 5 -> 0, target 6 -> 1
    assert_eq!(builder.convert_event(&fork), (4 << 10) | (1 << 14));
    // thread 6 -> 1, target 5 -> 0
    assert_eq!(builder.convert_event(&child), 1 | (5 << 10));
}

#[test]
fn build_writes_header_then_words() {
    let mut builder = BinaryTraceBuilder::new();
    let e = Event { t: 1, op: Op::Request { lock: 42 }, loc: (3, 4) };
    assert_eq!(builder.push_event(&e), Ok(()));
    let e = Event { t: 1, op: Op::Aquire { lock: 42 }, loc: (3, 5) };
    assert_eq!(builder.push_event(&e), Ok(()));
    let bytes = builder.build();
    let mut expected: Vec<u8> = vec![0, 1, 0, 0, 0, 1, 0, 0, 0, 0, 0, 0, 0, 0, 0, 0, 0, 2];
    expected.extend_from_slice(&(8u64 << 10).to_be_bytes());
    expected.extend_from_slice(&(1u64 << 48).to_be_bytes());
    assert_eq!(bytes, expected);
}

#[test]
fn empty_trace_is_a_zero_header() {
    let bytes = encode_trace(&Vec::new()).unwrap();
    assert_eq!(bytes, vec![0u8; 18]);
    let (header, events) = decode_trace(&bytes).unwrap();
    assert_eq!(header, Header { threads: 0, locks: 0, regions: 0, events: 0 });
    assert!(events.is_empty());
}

#[test]
fn too_many_threads_is_refused() {
    let mut builder = BinaryTraceBuilder::new();
    for t in 0..MAX_THREADS {
        let e = Event { t, op: Op::Read { addr: 0, n: 1 }, loc: (0, 0) };
        assert_eq!(builder.push_event(&e), Ok(()));
    }
    let e = Event { t: MAX_THREADS, op: Op::Read { addr: 0, n: 1 }, loc: (0, 0) };
    assert_eq!(builder.push_event(&e), Err(EncodeError::TooManyThreads));
    // A known thread still encodes after the refusal.
    let e = Event { t: 3, op: Op::Read { addr: 0, n: 1 }, loc: (0, 0) };
    assert_eq!(builder.push_event(&e), Ok(()));
    let (header, events) = decode_trace(&builder.build()).unwrap();
    assert_eq!(header.threads as u32, MAX_THREADS);
    assert_eq!(events.len() as u32, MAX_THREADS + 1);
    assert_eq!(events[MAX_THREADS as usize].t, 3);
}

#[test]
fn fork_of_a_new_thread_past_the_limit_is_refused() {
    let mut events = Vec::new();
    for t in 0..MAX_THREADS - 1 {
        events.push(Event { t, op: Op::Read { addr: 0, n: 1 }, loc: (0, 0) });
    }
    events.push(Event { t: 0, op: Op::Fork { tid: 5000 }, loc: (0, 0) });
    assert!(encode_trace(&events).is_ok());
    events.push(Event { t: 5001, op: Op::Fork { tid: 5002 }, loc: (0, 0) });
    assert_eq!(encode_trace(&events), Err(EncodeError::TooManyThreads));
}

#[test]
fn too_many_locations_is_refused() {
    let mut events = Vec::new();
    for i in 0..MAX_LOCATIONS as usize {
        events.push(Event { t: 0, op: Op::Release { lock: 1 }, loc: (i, 0) });
    }
    assert!(encode_trace(&events).is_ok());
    events.push(Event { t: 0, op: Op::Release { lock: 1 }, loc: (0, 1) });
    assert_eq!(encode_trace(&events), Err(EncodeError::TooManyLocations));
}
