//! Decoding of binary traces and their canonical text rendering.
use vstd::prelude::*;

use crate::bytes::{read_be_u16, read_be_u32, read_be_u64, read_u16_at, read_u32_at, read_u64_at};
use crate::layout::{spec_decor_of, spec_loc_of, spec_op_of, spec_thread_of, unpack};

verus! {

/// Bytes taken by the header: thread count (2), lock count (4),
/// region count (4) and event count (8).
pub const HEADER_LEN: usize = 18;

/// Bytes taken by one packed event word.
pub const WORD_LEN: usize = 8;

pub const NUMBER_OF_THREADS_MASK: u16 = 0x7FFF;
pub const NUMBER_OF_LOCKS_MASK: u32 = 0x7FFF_FFFF;
pub const NUMBER_OF_VARS_MASK: u32 = 0x7FFF_FFFF;
pub const NUMBER_OF_EVENTS_MASK: u64 = 0x7FFF_FFFF_FFFF_FFFF;

/// One decoded event. Its fields are the compacted identifiers that the
/// encoder assigned, not the raw values they stand for.
#[derive(Clone, Copy, Debug, PartialEq, Eq)]
pub struct Event {
    pub t: u64,
    pub op: u64,
    pub decor: u64,
    pub loc: u64,
}

/// The counts a trace declares before its events.
#[derive(Clone, Copy, Debug, PartialEq, Eq)]
pub struct Header {
    pub threads: u16,
    pub locks: u32,
    pub regions: u32,
    pub events: u64,
}

#[derive(Clone, Copy, Debug, PartialEq, Eq)]
pub enum DecodeError {
    /// The buffer holds fewer bytes than the header or its event count needs.
    Truncated { expected: u128, actual: usize },
    /// An event carries an op code that names no operation.
    UnknownOp(u64),
}

pub open spec fn spec_unpack_event(word: u64) -> Event {
    Event {
        t: spec_thread_of(word),
        op: spec_op_of(word),
        decor: spec_decor_of(word),
        loc: spec_loc_of(word),
    }
}

/// The header stored at the start of `b`, with each count's reserved top bit cleared.
pub open spec fn spec_header(b: Seq<u8>) -> Header {
    Header {
        threads: read_be_u16(b, 0) & 0x7FFF,
        locks: read_be_u32(b, 2) & 0x7FFF_FFFF,
        regions: read_be_u32(b, 6) & 0x7FFF_FFFF,
        events: read_be_u64(b, 10) & 0x7FFF_FFFF_FFFF_FFFF,
    }
}

/// Bytes that a trace declaring `events` events takes.
pub open spec fn trace_len(events: u64) -> int {
    18 + 8 * events
}

/// The `i`-th event word of a trace, decoded.
pub open spec fn spec_event_at(b: Seq<u8>, i: int) -> Event {
    spec_unpack_event(read_be_u64(b, 18 + 8 * i))
}

/// The first `k` event words of `b`, decoded, or the unknown op code of the
/// first of them that carries one.
pub open spec fn spec_decode_events(b: Seq<u8>, k: nat) -> Result<Seq<Event>, DecodeError>
    decreases k,
{
    if k == 0 {
        Ok(Seq::empty())
    } else {
        match spec_decode_events(b, (k - 1) as nat) {
            Ok(events) => {
                let e = spec_event_at(b, k - 1);
                if op_known(e.op) {
                    Ok(events.push(e))
                } else {
                    Err(DecodeError::UnknownOp(e.op))
                }
            },
            Err(err) => Err(err),
        }
    }
}

/// Once some word fails to decode, decoding more words fails the same way.
proof fn lemma_decode_error_persists(b: Seq<u8>, k: nat, m: nat)
    requires
        k <= m,
        spec_decode_events(b, k) is Err,
    ensures
        spec_decode_events(b, m) == spec_decode_events(b, k),
    decreases m - k,
{
    if k < m {
        lemma_decode_error_persists(b, k, (m - 1) as nat);
    }
}

/// What a buffer decodes to: its header and exactly as many events as the
/// header declares; or the truncation it suffers from; or the unknown op code
/// of the first declared event that carries one. Bytes past the last declared
/// event are not read.
pub open spec fn spec_decode(b: Seq<u8>) -> Result<(Header, Seq<Event>), DecodeError> {
    if b.len() < 18 {
        Err(DecodeError::Truncated { expected: 18, actual: b.len() as usize })
    } else {
        let h = spec_header(b);
        if b.len() < trace_len(h.events) {
            Err(DecodeError::Truncated { expected: trace_len(h.events) as u128, actual: b.len() as usize })
        } else {
            match spec_decode_events(b, h.events as nat) {
                Ok(events) => Ok((h, events)),
                Err(e) => Err(e),
            }
        }
    }
}

/// Reads the header of a trace.
pub fn parse_header(buffer: &[u8]) -> (r: Result<Header, DecodeError>)
    ensures
        match r {
            Ok(h) => buffer@.len() >= 18 && h == spec_header(buffer@),
            Err(e) => buffer@.len() < 18 && e == (DecodeError::Truncated {
                expected: 18,
                actual: buffer@.len() as usize,
            }),
        },
{
    if buffer.len() < HEADER_LEN {
        return Err(DecodeError::Truncated { expected: HEADER_LEN as u128, actual: buffer.len() });
    }
    let threads = read_u16_at(buffer, 0) & NUMBER_OF_THREADS_MASK;
    let locks = read_u32_at(buffer, 2) & NUMBER_OF_LOCKS_MASK;
    let regions = read_u32_at(buffer, 6) & NUMBER_OF_VARS_MASK;
    let events = read_u64_at(buffer, 10) & NUMBER_OF_EVENTS_MASK;
    Ok(Header { threads, locks, regions, events })
}

/// Decodes a whole trace: the header, then exactly the declared number of
/// event words. A buffer too short for either, or a declared word with an
/// unknown op code, is rejected as a whole.
pub fn decode_trace(buffer: &[u8]) -> (r: Result<(Header, Vec<Event>), DecodeError>)
    ensures
        match r {
            Ok((h, events)) => spec_decode(buffer@) == Ok::<(Header, Seq<Event>), DecodeError>((h, events@)),
            Err(e) => spec_decode(buffer@) == Err::<(Header, Seq<Event>), DecodeError>(e),
        },
{
    let header = match parse_header(buffer) {
        Ok(h) => h,
        Err(e) => return Err(e),
    };
    let n = header.events;
    let needed: u128 = HEADER_LEN as u128 + WORD_LEN as u128 * n as u128;
    if (buffer.len() as u128) < needed {
        return Err(DecodeError::Truncated { expected: needed, actual: buffer.len() });
    }
    let ghost b = buffer@;
    assert(b.len() <= usize::MAX) by {
        assert(buffer.len() == b.len());
    }
    let mut out: Vec<Event> = Vec::new();
    let mut i: u64 = 0;
    let mut at: usize = HEADER_LEN;
    while i < n
        invariant
            b == buffer@,
            n == spec_header(b).events,
            trace_len(n) <= b.len() <= usize::MAX,
            i <= n,
            at == 18 + 8 * i,
            spec_decode_events(b, i as nat) == Ok::<Seq<Event>, DecodeError>(out@),
        decreases n - i,
    {
        let word = read_u64_at(buffer, at);
        let (t, op, decor, loc) = unpack(word);
        let event = Event { t, op, decor, loc };
        if !event.has_known_op() {
            proof {
                lemma_decode_error_persists(b, (i + 1) as nat, n as nat);
            }
            return Err(DecodeError::UnknownOp(op));
        }
        out.push(event);
        i = i + 1;
        at = at + WORD_LEN;
    }
    Ok((header, out))
}

/// Decodes the events of a trace.
pub fn parse_from_buffer(buffer: &[u8]) -> (r: Result<Vec<Event>, DecodeError>)
    ensures
        match r {
            Ok(events) => match spec_decode(buffer@) {
                Ok((_, decoded)) => events@ == decoded,
                Err(_) => false,
            },
            Err(e) => spec_decode(buffer@) == Err::<(Header, Seq<Event>), DecodeError>(e),
        },
{
    match decode_trace(buffer) {
        Ok((_h, events)) => Ok(events),
        Err(e) => Err(e),
    }
}

/// The character of a decimal digit.
pub open spec fn digit_char(d: int) -> char {
    (d + 48) as char
}

/// Decimal notation of `n`, without leading zeros.
pub open spec fn decimal(n: nat) -> Seq<char>
    decreases n,
{
    if n < 10 {
        seq![digit_char(n as int)]
    } else {
        decimal(n / 10).push(digit_char((n % 10) as int))
    }
}

/// The op codes that name an operation.
pub open spec fn op_known(op: u64) -> bool {
    op == 0 || op == 1 || op == 2 || op == 3 || op == 4 || op == 5 || op == 8
}

/// Text of an operation and its decoration, for a known op code.
pub open spec fn spec_formatted_decor(op: u64, decor: u64) -> Seq<char> {
    let d = decimal(decor as nat);
    if op == 2 {
        "r(V"@ + d + ")"@
    } else if op == 3 {
        "w(V"@ + d + ")"@
    } else if op == 0 {
        "acq(L"@ + d + ")"@
    } else if op == 8 {
        "req(L"@ + d + ")"@
    } else if op == 1 {
        "rel(L"@ + d + ")"@
    } else if op == 4 {
        "fork(T"@ + d + ")"@
    } else {
        "join(T"@ + d + ")"@
    }
}

/// The canonical line of an event with a known op code: `T<thread>|<op-text>|<location>`.
pub open spec fn spec_std_format(e: Event) -> Seq<char> {
    "T"@ + decimal(e.t as nat) + "|"@ + spec_formatted_decor(e.op, e.decor) + "|"@ + decimal(
        e.loc as nat,
    )
}

fn digit_str(d: u64) -> (r: &'static str)
    requires
        d < 10,
    ensures
        r@ == seq![digit_char(d as int)],
{
    proof {
        reveal_strlit("0");
        reveal_strlit("1");
        reveal_strlit("2");
        reveal_strlit("3");
        reveal_strlit("4");
        reveal_strlit("5");
        reveal_strlit("6");
        reveal_strlit("7");
        reveal_strlit("8");
        reveal_strlit("9");
    }
    if d == 0 {
        "0"
    } else if d == 1 {
        "1"
    } else if d == 2 {
        "2"
    } else if d == 3 {
        "3"
    } else if d == 4 {
        "4"
    } else if d == 5 {
        "5"
    } else if d == 6 {
        "6"
    } else if d == 7 {
        "7"
    } else if d == 8 {
        "8"
    } else {
        "9"
    }
}

/// Appends the decimal notation of `n`.
pub fn push_decimal(s: &mut String, n: u64)
    ensures
        final(s)@ == old(s)@ + decimal(n as nat),
    decreases n,
{
    if n >= 10 {
        push_decimal(s, n / 10);
    }
    s.append(digit_str(n % 10));
}

impl Event {
    /// Whether the op code names an operation.
    pub fn has_known_op(&self) -> (r: bool)
        ensures
            r == op_known(self.op),
    {
        self.op == 0 || self.op == 1 || self.op == 2 || self.op == 3 || self.op == 4 || self.op
            == 5 || self.op == 8
    }

    /// Text of the operation and its decoration; an unknown op code is an error.
    pub fn get_formatted_decor(&self) -> (r: Result<String, DecodeError>)
        ensures
            match r {
                Ok(s) => op_known(self.op) && s@ == spec_formatted_decor(self.op, self.decor),
                Err(e) => !op_known(self.op) && e == DecodeError::UnknownOp(self.op),
            },
    {
        let prefix = if self.op == 2 {
            "r(V"
        } else if self.op == 3 {
            "w(V"
        } else if self.op == 0 {
            "acq(L"
        } else if self.op == 8 {
            "req(L"
        } else if self.op == 1 {
            "rel(L"
        } else if self.op == 4 {
            "fork(T"
        } else if self.op == 5 {
            "join(T"
        } else {
            return Err(DecodeError::UnknownOp(self.op));
        };
        let mut s = String::new();
        s.append(prefix);
        push_decimal(&mut s, self.decor);
        s.append(")");
        Ok(s)
    }

    /// The canonical line of the event, `T<thread>|<op-text>|<location>`.
    pub fn to_std_format(&self) -> (r: Result<String, DecodeError>)
        ensures
            match r {
                Ok(s) => op_known(self.op) && s@ == spec_std_format(*self),
                Err(e) => !op_known(self.op) && e == DecodeError::UnknownOp(self.op),
            },
    {
        let decor = match self.get_formatted_decor() {
            Ok(d) => d,
            Err(e) => return Err(e),
        };
        let mut s = String::new();
        s.append("T");
        push_decimal(&mut s, self.t);
        s.append("|");
        s.append(decor.as_str());
        s.append("|");
        push_decimal(&mut s, self.loc);
        Ok(s)
    }
}

/// The lines of `events`, or the op code of the first event whose op is unknown.
pub open spec fn spec_text_format(events: Seq<Event>) -> Result<Seq<Seq<char>>, DecodeError>
    decreases events.len(),
{
    if events.len() == 0 {
        Ok(Seq::empty())
    } else {
        match spec_text_format(events.drop_last()) {
            Ok(lines) => if op_known(events.last().op) {
                Ok(lines.push(spec_std_format(events.last())))
            } else {
                Err(DecodeError::UnknownOp(events.last().op))
            },
            Err(e) => Err(e),
        }
    }
}

/// Once a prefix of the events fails to render, the whole sequence fails the same way.
proof fn lemma_text_format_error_persists(events: Seq<Event>, k: int)
    requires
        0 <= k <= events.len(),
        spec_text_format(events.take(k)) is Err,
    ensures
        spec_text_format(events) == spec_text_format(events.take(k)),
    decreases events.len() - k,
{
    if k < events.len() {
        assert(events.take(k + 1).drop_last() == events.take(k));
        lemma_text_format_error_persists(events, k + 1);
    } else {
        assert(events.take(k) == events);
    }
}

/// Renders each event as its canonical line. Fails on the first event whose
/// op code is unknown, with no partial output.
pub fn emit_text_format(trace: Vec<Event>) -> (r: Result<Vec<String>, DecodeError>)
    ensures
        match r {
            Ok(lines) => spec_text_format(trace@) == Ok::<Seq<Seq<char>>, DecodeError>(
                lines@.map_values(|l: String| l@),
            ),
            Err(e) => spec_text_format(trace@) == Err::<Seq<Seq<char>>, DecodeError>(e),
        },
{
    let mut lines: Vec<String> = Vec::new();
    let mut i: usize = 0;
    assert(lines@.map_values(|l: String| l@) =~= Seq::<Seq<char>>::empty());
    assert(trace@.take(0) =~= Seq::<Event>::empty());
    while i < trace.len()
        invariant
            i <= trace@.len(),
            spec_text_format(trace@.take(i as int)) == Ok::<Seq<Seq<char>>, DecodeError>(
                lines@.map_values(|l: String| l@),
            ),
        decreases trace@.len() - i,
    {
        assert(trace@.take(i + 1).drop_last() == trace@.take(i as int));
        let ghost prev = lines@.map_values(|l: String| l@);
        match trace[i].to_std_format() {
            Ok(line) => {
                let ghost line_view = line@;
                lines.push(line);
                assert(lines@.map_values(|l: String| l@) =~= prev.push(line_view));
            },
            Err(e) => {
                proof {
                    lemma_text_format_error_persists(trace@, i + 1);
                }
                return Err(e);
            },
        }
        i = i + 1;
    }
    assert(trace@.take(i as int) == trace@);
    Ok(lines)
}

/// Decodes a trace and renders its events as text lines.
pub fn convert_bin_to_text(buffer: &[u8]) -> (r: Result<Vec<String>, DecodeError>)
    ensures
        match spec_decode(buffer@) {
            Err(e) => r == Err::<Vec<String>, DecodeError>(e),
            Ok((_, events)) => match r {
                Ok(lines) => spec_text_format(events) == Ok::<Seq<Seq<char>>, DecodeError>(
                    lines@.map_values(|l: String| l@),
                ),
                Err(e) => spec_text_format(events) == Err::<Seq<Seq<char>>, DecodeError>(e),
            },
        },
{
    match parse_from_buffer(buffer) {
        Ok(events) => emit_text_format(events),
        Err(e) => Err(e),
    }
}

} // verus!
