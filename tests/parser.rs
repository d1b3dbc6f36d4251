use wasm_tracing::layout::{pack, unpack};
use wasm_tracing::parser::{
    convert_bin_to_text, decode_trace, emit_text_format, parse_from_buffer, parse_header,
    push_decimal, DecodeError, Event, Header,
};
use wasm_tracing::rapidbin::encode_trace;
use wasm_tracing::tracing::{self, Op};

fn trace_with_words(header: [u8; 18], words: &[u64]) -> Vec<u8> {
    let mut bytes = header.to_vec();
    for w in words {
        bytes.extend_from_slice(&w.to_be_bytes());
    }
    bytes
}

fn header_for(events: u64) -> [u8; 18] {
    let mut h = [0u8; 18];
    h[10..18].copy_from_slice(&events.to_be_bytes());
    h
}

#[test]
fn decoding_3072_gives_write_of_first_slots() {
    let bytes = trace_with_words(header_for(1), &[3072]);
    let events = parse_from_buffer(&bytes).unwrap();
    assert_eq!(events, vec![Event { t: 0, op: 3, decor: 0, loc: 0 }]);
}

#[test]
fn pack_and_unpack_round_trip_at_field_limits() {
    let cases = [
        (0u64, 0u64, 0u64, 0u64),
        (1023, 15, (1u64 << 34) - 1, 32767),
        (512, 8, 1u64 << 33, 16384),
        (1, 2, 3, 4),
    ];
    for (t, op, decor, loc) in cases {
        let word = pack(t, op, decor, loc);
        assert!(word < 1u64 << 63);
        assert_eq!(unpack(word), (t, op, decor, loc));
    }
    assert_eq!(pack(1023, 15, (1u64 << 34) - 1, 32767), (1u64 << 63) - 1);
}

#[test]
fn header_counts_are_masked_on_read() {
    let header = [0xFF, 0xFF, 0x80, 0, 0, 5, 0xFF, 0xFF, 0xFF, 0xFF, 0x80, 0, 0, 0, 0, 0, 0, 0];
    let h = parse_header(&header).unwrap();
    assert_eq!(
        h,
        Header { threads: 0x7FFF, locks: 5, regions: 0x7FFF_FFFF, events: 0 }
    );
}

#[test]
fn short_header_is_truncated() {
    assert_eq!(
        parse_from_buffer(&[0u8; 17]),
        Err(DecodeError::Truncated { expected: 18, actual: 17 })
    );
    assert_eq!(
        parse_from_buffer(&[]),
        Err(DecodeError::Truncated { expected: 18, actual: 0 })
    );
}

#[test]
fn missing_event_words_are_truncated() {
    let bytes = trace_with_words(header_for(2), &[3072]);
    assert_eq!(
        decode_trace(&bytes),
        Err(DecodeError::Truncated { expected: 34, actual: 26 })
    );
}

#[test]
fn huge_event_count_is_truncated_without_overflow() {
    let mut header = [0u8; 18];
    header[10..18].copy_from_slice(&[0xFF; 8]);
    let expected = 18u128 + 8 * 0x7FFF_FFFF_FFFF_FFFFu128;
    assert_eq!(
        parse_from_buffer(&header),
        Err(DecodeError::Truncated { expected, actual: 18 })
    );
}

#[test]
fn bytes_after_the_declared_events_are_ignored() {
    let mut bytes = trace_with_words(header_for(1), &[3072]);
    bytes.extend_from_slice(&[1, 2, 3]);
    assert_eq!(parse_from_buffer(&bytes).unwrap().len(), 1);
}

#[test]
fn text_lines_for_every_op() {
    let lines = emit_text_format(vec![
        Event { t: 0, op: 2, decor: 7, loc: 1 },
        Event { t: 1, op: 3, decor: 0, loc: 2 },
        Event { t: 2, op: 0, decor: 10, loc: 3 },
        Event { t: 3, op: 8, decor: 99, loc: 4 },
        Event { t: 4, op: 1, decor: 100, loc: 5 },
        Event { t: 5, op: 4, decor: 6, loc: 6 },
        Event { t: 6, op: 5, decor: 5, loc: 32767 },
    ])
    .unwrap();
    assert_eq!(
        lines,
        vec![
            "T0|r(V7)|1",
            "T1|w(V0)|2",
            "T2|acq(L10)|3",
            "T3|req(L99)|4",
            "T4|rel(L100)|5",
            "T5|fork(T6)|6",
            "T6|join(T5)|32767",
        ]
    );
}

#[test]
fn unknown_op_fails_the_whole_rendering() {
    let r = emit_text_format(vec![
        Event { t: 0, op: 2, decor: 7, loc: 1 },
        Event { t: 0, op: 6, decor: 0, loc: 0 },
        Event { t: 0, op: 9, decor: 0, loc: 0 },
    ]);
    assert_eq!(r, Err(DecodeError::UnknownOp(6)));
    assert_eq!(
        Event { t: 0, op: 15, decor: 0, loc: 0 }.to_std_format(),
        Err(DecodeError::UnknownOp(15))
    );
}

#[test]
fn decimal_notation() {
    for (n, text) in [(0u64, "0"), (9, "9"), (10, "10"), (1234567890, "1234567890"), (u64::MAX, "18446744073709551615")] {
        let mut s = String::from("x");
        push_decimal(&mut s, n);
        assert_eq!(s, format!("x{}", text));
    }
}

#[test]
fn round_trip_reproduces_slots_and_counts() {
    let events = vec![
        tracing::Event { t: 10, op: Op::Request { lock: 0xAA }, loc: (1, 1) },
        tracing::Event { t: 10, op: Op::Aquire { lock: 0xAA }, loc: (1, 2) },
        tracing::Event { t: 10, op: Op::Fork { tid: 11 }, loc: (1, 3) },
        tracing::Event { t: 11, op: Op::Write { addr: 0x1000, n: 8 }, loc: (2, 1) },
        tracing::Event { t: 10, op: Op::Read { addr: 0x1000, n: 8 }, loc: (1, 4) },
        tracing::Event { t: 10, op: Op::Read { addr: 0x1000, n: 4 }, loc: (1, 4) },
        tracing::Event { t: 10, op: Op::Release { lock: 0xAA }, loc: (1, 5) },
        tracing::Event { t: 10, op: Op::Join { tid: 11 }, loc: (1, 6) },
    ];
    let bytes = encode_trace(&events).unwrap();
    assert_eq!(bytes.len(), 18 + 8 * events.len());
    let (header, decoded) = decode_trace(&bytes).unwrap();
    assert_eq!(header, Header { threads: 2, locks: 1, regions: 2, events: 8 });
    assert_eq!(
        decoded,
        vec![
            Event { t: 0, op: 8, decor: 0, loc: 0 },
            Event { t: 0, op: 0, decor: 0, loc: 1 },
            Event { t: 0, op: 4, decor: 1, loc: 2 },
            Event { t: 1, op: 3, decor: 0, loc: 3 },
            Event { t: 0, op: 2, decor: 0, loc: 4 },
            Event { t: 0, op: 2, decor: 1, loc: 4 },
            Event { t: 0, op: 1, decor: 0, loc: 5 },
            Event { t: 0, op: 5, decor: 1, loc: 6 },
        ]
    );
    assert_eq!(
        convert_bin_to_text(&bytes).unwrap(),
        vec![
            "T0|req(L0)|0",
            "T0|acq(L0)|1",
            "T0|fork(T1)|2",
            "T1|w(V0)|3",
            "T0|r(V0)|4",
            "T0|r(V1)|4",
            "T0|rel(L0)|5",
            "T0|join(T1)|6",
        ]
    );
}

#[test]
fn encoding_twice_gives_identical_bytes() {
    let events: Vec<tracing::Event> = (0..200usize)
        .map(|i| tracing::Event {
            t: (i % 7) as u32,
            op: if i % 3 == 0 { Op::Read { addr: i % 11, n: 4 } } else { Op::Release { lock: i % 5 } },
            loc: (i % 13, i % 2),
        })
        .collect();
    let first = encode_trace(&events).unwrap();
    let second = encode_trace(&events).unwrap();
    assert_eq!(first, second);
    let (header, _) = decode_trace(&first).unwrap();
    assert_eq!(header, Header { threads: 7, locks: 5, regions: 11, events: 200 });
}

#[test]
fn convert_bin_to_text_reports_truncation() {
    assert_eq!(
        convert_bin_to_text(&[0u8; 5]),
        Err(DecodeError::Truncated { expected: 18, actual: 5 })
    );
    let bytes = trace_with_words(header_for(1), &[6 << 10]);
    assert_eq!(convert_bin_to_text(&bytes), Err(DecodeError::UnknownOp(6)));
}

#[test]
fn unknown_op_word_fails_decoding() {
    let bytes = trace_with_words(header_for(3), &[3072, 7 << 10, 9 << 10]);
    assert_eq!(parse_from_buffer(&bytes), Err(DecodeError::UnknownOp(7)));
    assert_eq!(decode_trace(&bytes), Err(DecodeError::UnknownOp(7)));
    // A word past the declared events is not read.
    let bytes = trace_with_words(header_for(1), &[3072, 7 << 10]);
    assert_eq!(parse_from_buffer(&bytes).unwrap().len(), 1);
}
