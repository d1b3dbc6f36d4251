//! Bit layout of one packed trace word, low to high:
//! thread (10 bits) | op (4 bits) | decoration (34 bits) | location (15 bits).
//! The top bit of the 64-bit word is unused.
use vstd::prelude::*;

verus! {

pub const THREAD_NUM_BITS: u16 = 10;
pub const THREAD_BIT_OFFSET: u16 = 0;

pub const OP_NUM_BITS: u16 = 4;
pub const OP_BIT_OFFSET: u16 = THREAD_NUM_BITS;

pub const DECOR_NUM_BITS: u16 = 34;
pub const DECOR_BIT_OFFSET: u16 = THREAD_NUM_BITS + OP_NUM_BITS;

pub const LOC_NUM_BITS: u16 = 15;
pub const LOC_BIT_OFFSET: u16 = THREAD_NUM_BITS + OP_NUM_BITS + DECOR_NUM_BITS;

/// Number of distinct values each field can hold.
pub const THREAD_LIMIT: u64 = 0x400;
pub const OP_LIMIT: u64 = 0x10;
pub const DECOR_LIMIT: u64 = 0x4_0000_0000;
pub const LOC_LIMIT: u64 = 0x8000;

/// The four fields fit their widths.
pub open spec fn fields_fit(thread: u64, op: u64, decor: u64, loc: u64) -> bool {
    &&& thread < 0x400
    &&& op < 0x10
    &&& decor < 0x4_0000_0000
    &&& loc < 0x8000
}

pub open spec fn spec_pack(thread: u64, op: u64, decor: u64, loc: u64) -> u64 {
    thread | (op << 10u64) | (decor << 14u64) | (loc << 48u64)
}

pub open spec fn spec_thread_of(word: u64) -> u64 {
    word & 0x3FF
}

pub open spec fn spec_op_of(word: u64) -> u64 {
    (word >> 10u64) & 0xF
}

pub open spec fn spec_decor_of(word: u64) -> u64 {
    (word >> 14u64) & 0x3_FFFF_FFFF
}

pub open spec fn spec_loc_of(word: u64) -> u64 {
    (word >> 48u64) & 0x7FFF
}

/// Packing four fields that fit their widths and unpacking the word gives
/// back exactly those fields; the word's top bit stays clear.
pub proof fn lemma_pack_unpack(thread: u64, op: u64, decor: u64, loc: u64)
    requires
        fields_fit(thread, op, decor, loc),
    ensures
        spec_thread_of(spec_pack(thread, op, decor, loc)) == thread,
        spec_op_of(spec_pack(thread, op, decor, loc)) == op,
        spec_decor_of(spec_pack(thread, op, decor, loc)) == decor,
        spec_loc_of(spec_pack(thread, op, decor, loc)) == loc,
        spec_pack(thread, op, decor, loc) < 0x8000_0000_0000_0000u64,
{
    assert(((thread | (op << 10u64) | (decor << 14u64) | (loc << 48u64)) & 0x3FF) == thread)
        by (bit_vector)
        requires
            thread < 0x400u64,
            op < 0x10u64,
            decor < 0x4_0000_0000u64,
            loc < 0x8000u64,
    ;
    assert((((thread | (op << 10u64) | (decor << 14u64) | (loc << 48u64)) >> 10u64) & 0xF) == op)
        by (bit_vector)
        requires
            thread < 0x400u64,
            op < 0x10u64,
            decor < 0x4_0000_0000u64,
            loc < 0x8000u64,
    ;
    assert((((thread | (op << 10u64) | (decor << 14u64) | (loc << 48u64)) >> 14u64)
        & 0x3_FFFF_FFFF) == decor) by (bit_vector)
        requires
            thread < 0x400u64,
            op < 0x10u64,
            decor < 0x4_0000_0000u64,
            loc < 0x8000u64,
    ;
    assert((((thread | (op << 10u64) | (decor << 14u64) | (loc << 48u64)) >> 48u64) & 0x7FFF)
        == loc) by (bit_vector)
        requires
            thread < 0x400u64,
            op < 0x10u64,
            decor < 0x4_0000_0000u64,
            loc < 0x8000u64,
    ;
    assert((thread | (op << 10u64) | (decor << 14u64) | (loc << 48u64)) < 0x8000_0000_0000_0000u64)
        by (bit_vector)
        requires
            thread < 0x400u64,
            op < 0x10u64,
            decor < 0x4_0000_0000u64,
            loc < 0x8000u64,
    ;
}

/// Packs four fields into one trace word.
pub fn pack(thread: u64, op: u64, decor: u64, loc: u64) -> (word: u64)
    requires
        fields_fit(thread, op, decor, loc),
    ensures
        word == spec_pack(thread, op, decor, loc),
{
    let word = (thread << THREAD_BIT_OFFSET) | (op << OP_BIT_OFFSET) | (decor << DECOR_BIT_OFFSET)
        | (loc << LOC_BIT_OFFSET);
    assert(((thread << 0u16) | (op << 10u16) | (decor << 14u16) | (loc << 48u16)) == (thread | (op
        << 10u64) | (decor << 14u64) | (loc << 48u64))) by (bit_vector);
    word
}

/// Splits a trace word into its thread, op, decoration and location fields.
pub fn unpack(word: u64) -> (fields: (u64, u64, u64, u64))
    ensures
        fields == (spec_thread_of(word), spec_op_of(word), spec_decor_of(word), spec_loc_of(word)),
{
    let thread = (word >> THREAD_BIT_OFFSET) & (THREAD_LIMIT - 1);
    let op = (word >> OP_BIT_OFFSET) & (OP_LIMIT - 1);
    let decor = (word >> DECOR_BIT_OFFSET) & (DECOR_LIMIT - 1);
    let loc = (word >> LOC_BIT_OFFSET) & (LOC_LIMIT - 1);
    assert(word >> 0u16 == word) by (bit_vector);
    (thread, op, decor, loc)
}

} // verus!
