//! The deterministic AFL-style byte mutator that runs over terminal bytes.
//!
//! A `MutationState` walks a fixed sequence of stages (bit flips, arithmetic,
//! interesting values, optional brute force). Every call to `deterministic`
//! applies at most one mutation to the data and reports the bytes it touched.
use std::ops::Range;
use vstd::prelude::*;
use crate::random::random_below;

verus! {

/// Largest magnitude added or subtracted by the arithmetic stages.
pub const AFL_ARITH_MAX: i8 = 35;

/// Number of interesting 8-bit values.
pub const INTERESTING_8_LEN: u8 = 9;

/// Number of interesting 16-bit values.
pub const INTERESTING_16_LEN: u8 = 10;

/// Number of interesting 32-bit values.
pub const INTERESTING_32_LEN: u8 = 8;

// ---------------------------------------------------------------------------
// Interesting values
// ---------------------------------------------------------------------------

pub open spec fn interesting_8(i: int) -> u8 {
    if i == 0 { 128 }
    else if i == 1 { 255 }
    else if i == 2 { 0 }
    else if i == 3 { 1 }
    else if i == 4 { 16 }
    else if i == 5 { 32 }
    else if i == 6 { 64 }
    else if i == 7 { 100 }
    else { 127 }
}

pub open spec fn interesting_16(i: int) -> u16 {
    if i == 0 { 32768 }
    else if i == 1 { 65407 }
    else if i == 2 { 128 }
    else if i == 3 { 255 }
    else if i == 4 { 256 }
    else if i == 5 { 512 }
    else if i == 6 { 1000 }
    else if i == 7 { 1024 }
    else if i == 8 { 4096 }
    else { 32767 }
}

pub open spec fn interesting_32(i: int) -> u32 {
    if i == 0 { 2147483648 }
    else if i == 1 { 4194304250 }
    else if i == 2 { 4294934527 }
    else if i == 3 { 32768 }
    else if i == 4 { 65535 }
    else if i == 5 { 65536 }
    else if i == 6 { 100663045 }
    else { 2147483647 }
}

fn interesting_8_at(i: u8) -> (r: u8)
    ensures
        r == interesting_8(i as int),
{
    match i {
        0 => 128,
        1 => 255,
        2 => 0,
        3 => 1,
        4 => 16,
        5 => 32,
        6 => 64,
        7 => 100,
        _ => 127,
    }
}

fn interesting_16_at(i: u8) -> (r: u16)
    ensures
        r == interesting_16(i as int),
{
    match i {
        0 => 32768,
        1 => 65407,
        2 => 128,
        3 => 255,
        4 => 256,
        5 => 512,
        6 => 1000,
        7 => 1024,
        8 => 4096,
        _ => 32767,
    }
}

fn interesting_32_at(i: u8) -> (r: u32)
    ensures
        r == interesting_32(i as int),
{
    match i {
        0 => 2147483648,
        1 => 4194304250,
        2 => 4294934527,
        3 => 32768,
        4 => 65535,
        5 => 65536,
        6 => 100663045,
        _ => 2147483647,
    }
}

// ---------------------------------------------------------------------------
// Bit flips
// ---------------------------------------------------------------------------

pub open spec fn clamp8(x: int) -> int {
    if x < 0 { 0 } else if x > 8 { 8 } else { x }
}

/// The bits of byte `i` whose global bit index (most significant bit first)
/// lies in `[lo, hi)`.
pub open spec fn flip_mask(i: int, lo: int, hi: int) -> u8 {
    ((0xffu32 >> (clamp8(lo - 8 * i) as u32)) ^ (0xffu32 >> (clamp8(hi - 8 * i) as u32))) as u8
}

/// `d` with every bit whose index lies in `[lo, hi)` inverted; bits past the
/// end of `d` are ignored.
pub open spec fn flip_bits(d: Seq<u8>, lo: int, hi: int) -> Seq<u8> {
    Seq::new(d.len(), |i: int| d[i] ^ flip_mask(i, lo, hi))
}

proof fn lemma_mask_zero_outside(i: int, lo: int, hi: int)
    requires
        lo <= hi,
        8 * i + 8 <= lo || hi <= 8 * i,
    ensures
        flip_mask(i, lo, hi) == 0,
{
    assert(clamp8(lo - 8 * i) == clamp8(hi - 8 * i));
    let a = clamp8(lo - 8 * i) as u32;
    assert((0xffu32 >> a) ^ (0xffu32 >> a) == 0) by (bit_vector);
}

/// Inverting the same bits twice gives back the same bytes.
pub proof fn lemma_flip_twice(d: Seq<u8>, lo: int, hi: int)
    ensures
        flip_bits(flip_bits(d, lo, hi), lo, hi) == d,
{
    let f = flip_bits(flip_bits(d, lo, hi), lo, hi);
    assert forall|i: int| 0 <= i < d.len() implies f[i] == d[i] by {
        let x = d[i];
        let m = flip_mask(i, lo, hi);
        assert((x ^ m) ^ m == x) by (bit_vector);
    }
    assert(f =~= d);
}

fn clamp_offset(x: usize, base: usize) -> (r: u32)
    ensures
        r as int == clamp8(x - base),
{
    if x <= base {
        0
    } else if x - base >= 8 {
        8
    } else {
        (x - base) as u32
    }
}

/// Inverts the bits with index in `[lo, hi)` that lie inside `data`.
fn flip_bit_range(data: &mut Vec<u8>, lo: usize, hi: usize)
    requires
        lo <= hi,
        old(data).len() * 8 + 64 <= usize::MAX,
    ensures
        final(data)@ == flip_bits(old(data)@, lo as int, hi as int),
{
    let n = data.len();
    let mut i: usize = lo / 8;
    let end: usize = if hi / 8 + 1 < n { hi / 8 + 1 } else { n };
    let ghost d0 = data@;
    while i < end
        invariant
            lo <= hi,
            n == data.len(),
            d0.len() == n,
            n * 8 + 64 <= usize::MAX,
            end <= n,
            lo / 8 <= i || i >= end,
            forall|j: int| lo / 8 <= j < i && j < n ==> data@[j] == d0[j] ^ flip_mask(j, lo as int, hi as int),
            forall|j: int| 0 <= j < n && j < lo / 8 ==> data@[j] == d0[j],
            forall|j: int| i <= j < n ==> data@[j] == d0[j],
        decreases end - i,
    {
        let a = clamp_offset(lo, 8 * i);
        let b = clamp_offset(hi, 8 * i);
        let m = ((0xffu32 >> a) ^ (0xffu32 >> b)) as u8;
        assert(m == flip_mask(i as int, lo as int, hi as int));
        let x = data[i];
        data.set(i, x ^ m);
        i = i + 1;
    }
    proof {
        assert forall|j: int| 0 <= j < n implies data@[j] == d0[j] ^ flip_mask(j, lo as int, hi as int) by {
            if j < lo / 8 || j >= end {
                if j >= end {
                    assert(end == n || end == hi / 8 + 1);
                }
                lemma_mask_zero_outside(j, lo as int, hi as int);
                let x = d0[j];
                assert(x ^ 0u8 == x) by (bit_vector);
            }
        }
        assert(data@ =~= flip_bits(d0, lo as int, hi as int));
    }
}


// ---------------------------------------------------------------------------
// Words
// ---------------------------------------------------------------------------

/// The 16-bit word at `o`, big endian when `be` holds.
pub open spec fn read16(d: Seq<u8>, o: int, be: bool) -> int {
    if be { d[o] * 256 + d[o + 1] } else { d[o] + d[o + 1] * 256 }
}

/// The 32-bit word at `o`, big endian when `be` holds.
pub open spec fn read32(d: Seq<u8>, o: int, be: bool) -> int {
    if be {
        ((d[o] * 256 + d[o + 1]) * 256 + d[o + 2]) * 256 + d[o + 3]
    } else {
        ((d[o + 3] * 256 + d[o + 2]) * 256 + d[o + 1]) * 256 + d[o]
    }
}

/// `d` with the 16-bit word `w` stored at `o`.
pub open spec fn write16(d: Seq<u8>, o: int, w: int, be: bool) -> Seq<u8> {
    if be {
        d.update(o, (w / 256) as u8).update(o + 1, (w % 256) as u8)
    } else {
        d.update(o, (w % 256) as u8).update(o + 1, (w / 256) as u8)
    }
}

/// `d` with the 32-bit word `w` stored at `o`.
pub open spec fn write32(d: Seq<u8>, o: int, w: int, be: bool) -> Seq<u8> {
    let b3 = (w / 0x1000000) as u8;
    let b2 = ((w / 0x10000) % 256) as u8;
    let b1 = ((w / 256) % 256) as u8;
    let b0 = (w % 256) as u8;
    if be {
        d.update(o, b3).update(o + 1, b2).update(o + 2, b1).update(o + 3, b0)
    } else {
        d.update(o, b0).update(o + 1, b1).update(o + 2, b2).update(o + 3, b3)
    }
}

fn read_u16(data: &Vec<u8>, o: usize, be: bool) -> (r: u16)
    requires
        o + 2 <= data.len(),
    ensures
        r as int == read16(data@, o as int, be),
{
    let a = data[o] as u16;
    let b = data[o + 1] as u16;
    if be { a * 256 + b } else { b * 256 + a }
}

fn read_u32(data: &Vec<u8>, o: usize, be: bool) -> (r: u32)
    requires
        o + 4 <= data.len(),
    ensures
        r as int == read32(data@, o as int, be),
{
    let a = data[o] as u32;
    let b = data[o + 1] as u32;
    let c = data[o + 2] as u32;
    let d = data[o + 3] as u32;
    if be {
        ((a * 256 + b) * 256 + c) * 256 + d
    } else {
        ((d * 256 + c) * 256 + b) * 256 + a
    }
}

fn write_u16(data: &mut Vec<u8>, o: usize, w: u16, be: bool)
    requires
        o + 2 <= old(data).len(),
    ensures
        final(data)@ == write16(old(data)@, o as int, w as int, be),
{
    let hi = (w / 256) as u8;
    let lo = (w % 256) as u8;
    if be {
        data.set(o, hi);
        data.set(o + 1, lo);
    } else {
        data.set(o, lo);
        data.set(o + 1, hi);
    }
}

fn write_u32(data: &mut Vec<u8>, o: usize, w: u32, be: bool)
    requires
        o + 4 <= old(data).len(),
    ensures
        final(data)@ == write32(old(data)@, o as int, w as int, be),
{
    let b3 = (w / 0x1000000) as u8;
    let b2 = ((w / 0x10000) % 256) as u8;
    let b1 = ((w / 256) % 256) as u8;
    let b0 = (w % 256) as u8;
    if be {
        data.set(o, b3);
        data.set(o + 1, b2);
        data.set(o + 2, b1);
        data.set(o + 3, b0);
    } else {
        data.set(o, b0);
        data.set(o + 1, b1);
        data.set(o + 2, b2);
        data.set(o + 3, b3);
    }
}

// ---------------------------------------------------------------------------
// Changes that a bit flip already produced
// ---------------------------------------------------------------------------

/// `x` with its trailing zero bits shifted out.
pub open spec fn strip_low_zeros(x: int) -> int
    decreases x,
{
    if x <= 0 {
        x
    } else if x % 2 == 0 {
        strip_low_zeros(x / 2)
    } else {
        x
    }
}

/// A one-byte change that the flip stages have already tried.
pub open spec fn is_flip_pattern8(c: int) -> bool {
    let s = strip_low_zeros(c);
    s == 1 || s == 3 || s == 15 || s == 255
}

/// A multi-byte change that the flip stages have already tried.
pub open spec fn is_flip_pattern_wide(c: int) -> bool {
    is_flip_pattern8(c) || strip_low_zeros(c) == 65535
}

fn strip_low_zeros_exec(c: u32) -> (r: u32)
    ensures
        r as int == strip_low_zeros(c as int),
{
    let mut x = c;
    while x != 0 && x % 2 == 0
        invariant
            strip_low_zeros(x as int) == strip_low_zeros(c as int),
        decreases x,
    {
        x = x / 2;
    }
    x
}

fn is_flip_pattern8_exec(c: u32) -> (r: bool)
    ensures
        r == is_flip_pattern8(c as int),
{
    let s = strip_low_zeros_exec(c);
    s == 1 || s == 3 || s == 15 || s == 255
}

fn is_flip_pattern_wide_exec(c: u32) -> (r: bool)
    ensures
        r == is_flip_pattern_wide(c as int),
{
    let s = strip_low_zeros_exec(c);
    s == 1 || s == 3 || s == 15 || s == 255 || s == 65535
}

// ---------------------------------------------------------------------------
// Stages
// ---------------------------------------------------------------------------

/// The stage of the deterministic mutator, with its position inside the stage.
#[derive(Debug, Clone, Copy, PartialEq, Eq, Structural)]
#[allow(inconsistent_fields)]
pub enum Stage {
    Flip1 { offset: usize },
    Flip2 { offset: usize },
    Flip4 { offset: usize },
    Flip8 { offset: usize },
    Flip16 { offset: usize },
    Flip32 { offset: usize },
    Arith8 { offset: usize, value: i8 },
    Arith16 { offset: usize, value: i16, endianess: bool },
    Arith32 { offset: usize, value: i32, endianess: bool },
    Interest8 { offset: usize, value: u8 },
    Interest16 { offset: usize, value: u8, endianess: bool },
    Interest32 { offset: usize, value: u8, endianess: bool },
    Bruteforce { offset: usize, value: u8 },
    Finished,
}

/// Options of the mutator.
pub struct Options {
    pub change_size: bool,
}

/// The state of the deterministic mutator on one byte string.
pub struct MutationState {
    /// One entry per byte of the data: 0 marks a byte whose mutation is skipped.
    pub effector_map: Vec<u8>,
    pub stage: Stage,
    pub options: Options,
}

/// What one step of a stage did.
enum ReturnValue {
    ChangedBits { range: Range<usize> },
    Skip,
    Finished,
}

spec fn return_view(r: ReturnValue) -> Option<(int, int)> {
    match r {
        ReturnValue::ChangedBits { range } => Some((range.start as int, range.end as int)),
        _ => None,
    }
}

/// Largest offset that a well-formed stage holds.
pub open spec fn max_offset() -> int {
    (usize::MAX / 2) as int
}

/// Largest data length that the mutator accepts.
pub open spec fn max_data_len() -> int {
    (usize::MAX / 16) as int
}

/// A stage whose value lies in the range its stage walks through.
pub open spec fn stage_wf(s: Stage) -> bool {
    match s {
        Stage::Flip1 { offset } => offset <= max_offset(),
        Stage::Flip2 { offset } => offset <= max_offset(),
        Stage::Flip4 { offset } => offset <= max_offset(),
        Stage::Flip8 { offset } => offset <= max_offset(),
        Stage::Flip16 { offset } => offset <= max_offset(),
        Stage::Flip32 { offset } => offset <= max_offset(),
        Stage::Arith8 { offset, value } => offset <= max_offset() && -35 <= value <= 35,
        Stage::Arith16 { offset, value, .. } => offset <= max_offset() && -35 <= value <= 35,
        Stage::Arith32 { offset, value, .. } => offset <= max_offset() && -35 <= value <= 35,
        Stage::Interest8 { offset, value } => offset <= max_offset() && value < 9,
        Stage::Interest16 { offset, value, .. } => offset <= max_offset() && value < 10,
        Stage::Interest32 { offset, value, .. } => offset <= max_offset() && value < 8,
        Stage::Bruteforce { offset, .. } => offset <= max_offset(),
        Stage::Finished => true,
    }
}

/// Whether the effector map marks byte `i` for mutation; bytes past its end
/// are not mutated.
pub open spec fn effector_set(eff: Seq<u8>, i: int) -> bool {
    0 <= i < eff.len() && eff[i] != 0
}

/// The flip stage of width `w` at bit offset `o`.
pub open spec fn flip_stage(w: int, o: usize) -> Stage {
    if w == 1 { Stage::Flip1 { offset: o } }
    else if w == 2 { Stage::Flip2 { offset: o } }
    else if w == 4 { Stage::Flip4 { offset: o } }
    else if w == 8 { Stage::Flip8 { offset: o } }
    else if w == 16 { Stage::Flip16 { offset: o } }
    else { Stage::Flip32 { offset: o } }
}

/// The stage that follows the flips of width `w`.
pub open spec fn after_flip(w: int) -> Stage {
    if w == 1 { Stage::Flip2 { offset: 0 } }
    else if w == 2 { Stage::Flip4 { offset: 0 } }
    else if w == 4 { Stage::Flip8 { offset: 0 } }
    else if w == 8 { Stage::Flip16 { offset: 0 } }
    else if w == 16 { Stage::Flip32 { offset: 0 } }
    else { Stage::Arith8 { offset: 0, value: -35i8 } }
}

/// The width of a flip stage, 0 for the other stages.
pub open spec fn flip_width(s: Stage) -> int {
    match s {
        Stage::Flip1 { .. } => 1,
        Stage::Flip2 { .. } => 2,
        Stage::Flip4 { .. } => 4,
        Stage::Flip8 { .. } => 8,
        Stage::Flip16 { .. } => 16,
        Stage::Flip32 { .. } => 32,
        _ => 0,
    }
}

pub open spec fn flip_offset(s: Stage) -> usize {
    match s {
        Stage::Flip1 { offset } => offset,
        Stage::Flip2 { offset } => offset,
        Stage::Flip4 { offset } => offset,
        Stage::Flip8 { offset } => offset,
        Stage::Flip16 { offset } => offset,
        Stage::Flip32 { offset } => offset,
        _ => 0,
    }
}

/// After a flip of width `w` at bit `o`: the next bit, or, when the byte was
/// skipped, the same bit of the next byte; the next stage past the end.
pub open spec fn next_flip(w: int, o: usize, n: int, effector: bool) -> Stage {
    if effector {
        if o + w < n * 8 { flip_stage(w, (o + 1) as usize) } else { after_flip(w) }
    } else {
        if o + 7 + w < n * 8 { flip_stage(w, (o + 8) as usize) } else { after_flip(w) }
    }
}

pub open spec fn next_arith8(o: usize, v: i8, n: int, effector: bool) -> Stage {
    if effector {
        if v < 35 {
            Stage::Arith8 { offset: o, value: (v + 1) as i8 }
        } else if o + 1 < n {
            Stage::Arith8 { offset: (o + 1) as usize, value: -35i8 }
        } else {
            Stage::Arith16 { offset: 0, value: -35i16, endianess: true }
        }
    } else {
        if o + 1 < n {
            Stage::Arith8 { offset: (o + 1) as usize, value: -35i8 }
        } else {
            Stage::Arith16 { offset: 0, value: -35i16, endianess: true }
        }
    }
}

pub open spec fn next_arith16(o: usize, v: i16, e: bool, n: int, effector: bool) -> Stage {
    if effector {
        if v < 35 {
            Stage::Arith16 { offset: o, value: (v + 1) as i16, endianess: e }
        } else if e {
            Stage::Arith16 { offset: o, value: -35i16, endianess: false }
        } else if o + 2 < n {
            Stage::Arith16 { offset: (o + 1) as usize, value: -35i16, endianess: true }
        } else {
            Stage::Arith32 { offset: 0, value: -35i32, endianess: true }
        }
    } else {
        if o + 2 < n {
            Stage::Arith16 { offset: (o + 1) as usize, value: -35i16, endianess: true }
        } else {
            Stage::Arith32 { offset: 0, value: -35i32, endianess: true }
        }
    }
}

pub open spec fn next_arith32(o: usize, v: i32, e: bool, n: int, effector: bool) -> Stage {
    if effector {
        if v < 35 {
            Stage::Arith32 { offset: o, value: (v + 1) as i32, endianess: e }
        } else if e {
            Stage::Arith32 { offset: o, value: -35i32, endianess: false }
        } else if o + 4 < n {
            Stage::Arith32 { offset: (o + 1) as usize, value: -35i32, endianess: true }
        } else {
            Stage::Interest8 { offset: 0, value: 0 }
        }
    } else {
        if o + 4 < n {
            Stage::Arith32 { offset: (o + 1) as usize, value: -35i32, endianess: true }
        } else {
            Stage::Interest8 { offset: 0, value: 0 }
        }
    }
}

pub open spec fn next_interest8(o: usize, v: u8, n: int, effector: bool) -> Stage {
    if effector {
        if v + 1 < 9 {
            Stage::Interest8 { offset: o, value: (v + 1) as u8 }
        } else if o + 1 < n {
            Stage::Interest8 { offset: (o + 1) as usize, value: 0 }
        } else {
            Stage::Interest16 { offset: 0, value: 0, endianess: true }
        }
    } else {
        if o + 1 < n {
            Stage::Interest8 { offset: (o + 1) as usize, value: 0 }
        } else {
            Stage::Interest16 { offset: 0, value: 0, endianess: true }
        }
    }
}

pub open spec fn next_interest16(o: usize, v: u8, e: bool, n: int, effector: bool) -> Stage {
    if effector {
        if v + 1 < 10 {
            Stage::Interest16 { offset: o, value: (v + 1) as u8, endianess: e }
        } else if e {
            Stage::Interest16 { offset: o, value: 0, endianess: false }
        } else if o + 2 < n {
            Stage::Interest16 { offset: (o + 1) as usize, value: 0, endianess: true }
        } else {
            Stage::Interest32 { offset: 0, value: 0, endianess: true }
        }
    } else {
        if o + 2 < n {
            Stage::Interest16 { offset: (o + 1) as usize, value: 0, endianess: true }
        } else {
            Stage::Interest32 { offset: 0, value: 0, endianess: true }
        }
    }
}

pub open spec fn next_interest32(o: usize, v: u8, e: bool, n: int, effector: bool) -> Stage {
    if effector {
        if v + 1 < 8 {
            Stage::Interest32 { offset: o, value: (v + 1) as u8, endianess: e }
        } else if e {
            Stage::Interest32 { offset: o, value: 0, endianess: false }
        } else if o + 4 < n {
            Stage::Interest32 { offset: (o + 1) as usize, value: 0, endianess: true }
        } else {
            Stage::Finished
        }
    } else {
        if o + 4 < n {
            Stage::Interest32 { offset: (o + 1) as usize, value: 0, endianess: true }
        } else {
            Stage::Finished
        }
    }
}

/// `b + v` modulo 256.
pub open spec fn add8(b: int, v: int) -> int {
    (b + v) % 256
}

/// Byte-swapped 16-bit change mask.
pub open spec fn swap16(c: int) -> int {
    (c % 256) * 256 + c / 256
}

/// Byte-swapped 32-bit change mask.
pub open spec fn swap32(c: int) -> int {
    (c % 256) * 0x1000000 + ((c / 256) % 256) * 0x10000 + ((c / 0x10000) % 256) * 256 + c / 0x1000000
}

/// Whether adding `v` to the 16-bit word `w` is a change that neither a bit
/// flip nor an 8-bit addition has produced.
pub open spec fn arith16_new(w: int, v: int, e: bool) -> bool {
    let nw = (w + v) % 0x10000;
    let c0 = ((w as u16) ^ (nw as u16)) as int;
    let c = if e { swap16(c0) } else { c0 };
    &&& v != 0
    &&& !is_flip_pattern_wide(c)
    &&& (v < 0 || w % 256 + v > 255)
    &&& (v >= 0 || w % 256 < -v)
}

/// Whether adding `v` to the 32-bit word `w` is a change that no earlier
/// stage has produced.
pub open spec fn arith32_new(w: int, v: int, e: bool) -> bool {
    let nw = (w + v) % 0x1_0000_0000;
    let c0 = ((w as u32) ^ (nw as u32)) as int;
    let c = if e { swap32(c0) } else { c0 };
    &&& v != 0
    &&& !is_flip_pattern_wide(c)
    &&& (v < 0 || w % 0x10000 + v > 0xffff)
    &&& (v >= 0 || w % 0x10000 < -v)
}

/// One step of the mutator: the next stage, the data after the step, and the
/// byte range `[lo, hi)` it changed (`None` when the step was skipped or the
/// mutator is finished).
pub open spec fn step(s: Stage, eff: Seq<u8>, d: Seq<u8>) -> (Stage, Seq<u8>, Option<(int, int)>) {
    let n = d.len() as int;
    match s {
        Stage::Arith8 { offset: o, value: v } => {
            if !effector_set(eff, o as int) || o >= n {
                (next_arith8(o, v, n, false), d, None)
            } else if v == 0 {
                (next_arith8(o, v, n, true), d, None)
            } else {
                let nb = add8(d[o as int] as int, v as int);
                let c = (d[o as int] ^ (nb as u8)) as int;
                if !is_flip_pattern8(c) {
                    (next_arith8(o, v, n, true), d.update(o as int, nb as u8), Some((o as int, o + 1)))
                } else {
                    (next_arith8(o, v, n, true), d, None)
                }
            }
        },
        Stage::Arith16 { offset: o, value: v, endianess: e } => {
            if !effector_set(eff, o as int) || o + 2 > n {
                (next_arith16(o, v, e, n, false), d, None)
            } else {
                let w = read16(d, o as int, e);
                if arith16_new(w, v as int, e) {
                    (next_arith16(o, v, e, n, true), write16(d, o as int, (w + v) % 0x10000, e), Some((o as int, o + 2)))
                } else {
                    (next_arith16(o, v, e, n, true), d, None)
                }
            }
        },
        Stage::Arith32 { offset: o, value: v, endianess: e } => {
            if !effector_set(eff, o as int) || o + 4 > n {
                (next_arith32(o, v, e, n, false), d, None)
            } else {
                let w = read32(d, o as int, e);
                if arith32_new(w, v as int, e) {
                    (next_arith32(o, v, e, n, true), write32(d, o as int, (w + v) % 0x1_0000_0000, e), Some((o as int, o + 4)))
                } else {
                    (next_arith32(o, v, e, n, true), d, None)
                }
            }
        },
        Stage::Interest8 { offset: o, value: v } => {
            if !effector_set(eff, o as int) || o >= n {
                (next_interest8(o, v, n, false), d, None)
            } else {
                (next_interest8(o, v, n, true), d.update(o as int, interesting_8(v as int)), Some((o as int, o + 1)))
            }
        },
        Stage::Interest16 { offset: o, value: v, endianess: e } => {
            if !effector_set(eff, o as int) || o + 2 > n {
                (next_interest16(o, v, e, n, false), d, None)
            } else {
                (next_interest16(o, v, e, n, true), write16(d, o as int, interesting_16(v as int) as int, e), Some((o as int, o + 2)))
            }
        },
        Stage::Interest32 { offset: o, value: v, endianess: e } => {
            if !effector_set(eff, o as int) || o + 4 > n {
                (next_interest32(o, v, e, n, false), d, None)
            } else {
                (next_interest32(o, v, e, n, true), write32(d, o as int, interesting_32(v as int) as int, e), Some((o as int, o + 4)))
            }
        },
        Stage::Bruteforce { offset: o, value: v } => {
            if !effector_set(eff, o as int) || o >= n {
                (Stage::Flip1 { offset: 0 }, d, None)
            } else if v < 255 {
                (Stage::Bruteforce { offset: o, value: (v + 1) as u8 }, d.update(o as int, v), Some((o as int, o + 1)))
            } else {
                (Stage::Flip1 { offset: 0 }, d.update(o as int, v), Some((o as int, o + 1)))
            }
        },
        Stage::Finished => (s, d, None),
        _ => {
            let w = flip_width(s);
            let o = flip_offset(s) as int;
            if !effector_set(eff, o / 8) {
                (next_flip(w, o as usize, n, false), d, None)
            } else {
                (next_flip(w, o as usize, n, true), flip_bits(d, o, o + w), Some((o / 8, 1 + (o + w - 1) / 8)))
            }
        },
    }
}

/// Stages further along come first: a step never moves to a higher rank
/// without lowering `stage_pos`.
pub open spec fn stage_rank(s: Stage) -> int {
    match s {
        Stage::Bruteforce { .. } => 14,
        Stage::Flip1 { .. } => 13,
        Stage::Flip2 { .. } => 12,
        Stage::Flip4 { .. } => 11,
        Stage::Flip8 { .. } => 10,
        Stage::Flip16 { .. } => 9,
        Stage::Flip32 { .. } => 8,
        Stage::Arith8 { .. } => 7,
        Stage::Arith16 { .. } => 6,
        Stage::Arith32 { .. } => 5,
        Stage::Interest8 { .. } => 4,
        Stage::Interest16 { .. } => 3,
        Stage::Interest32 { .. } => 2,
        Stage::Finished => 1,
    }
}

/// The distance left inside the current stage for data of length `n`.
pub open spec fn stage_pos(s: Stage, n: int) -> int {
    match s {
        Stage::Arith8 { offset, value } => 71 * (n + 1) - (offset * 71 + value + 35),
        Stage::Arith16 { offset, value, endianess } => 142 * (n + 1) - (offset * 142 + (if endianess { 0int } else { 71 }) + value + 35),
        Stage::Arith32 { offset, value, endianess } => 142 * (n + 1) - (offset * 142 + (if endianess { 0int } else { 71 }) + value + 35),
        Stage::Interest8 { offset, value } => 9 * (n + 1) - (offset * 9 + value),
        Stage::Interest16 { offset, value, endianess } => 20 * (n + 1) - (offset * 20 + (if endianess { 0int } else { 10 }) + value),
        Stage::Interest32 { offset, value, endianess } => 16 * (n + 1) - (offset * 16 + (if endianess { 0int } else { 8 }) + value),
        Stage::Bruteforce { value, .. } => 256 - value,
        Stage::Finished => 0,
        _ => 8 * n + 64 - flip_offset(s),
    }
}

/// Each step that does not finish keeps the stage well formed and the data's
/// length, moves the stage strictly forward, and changes no byte outside the
/// range that it reports.
pub proof fn lemma_step(s: Stage, eff: Seq<u8>, d: Seq<u8>)
    requires
        stage_wf(s),
        d.len() <= max_data_len(),
        !(s is Finished),
    ensures
        ({
            let (s2, d2, r) = step(s, eff, d);
            &&& stage_wf(s2)
            &&& d2.len() == d.len()
            &&& (stage_rank(s2) < stage_rank(s) || (stage_rank(s2) == stage_rank(s)
                && 0 <= stage_pos(s2, d.len() as int) < stage_pos(s, d.len() as int)))
            &&& (r is None ==> d2 == d)
            &&& (r matches Some((lo, hi)) ==> lo < hi && forall|i: int| 0 <= i < d.len() && (i < lo || i >= hi) ==> d2[i] == d[i])
        }),
{
    let n = d.len() as int;
    let (s2, d2, r) = step(s, eff, d);
    if flip_width(s) != 0 {
        let w = flip_width(s);
        let o = flip_offset(s) as int;
        if effector_set(eff, o / 8) {
            assert forall|i: int| 0 <= i < d.len() && (i < o / 8 || i >= 1 + (o + w - 1) / 8) implies d2[i] == d[i] by {
                lemma_mask_zero_outside(i, o, o + w);
                let x = d[i];
                assert(x ^ 0u8 == x) by (bit_vector);
            }
        }
    }
}

/// Runs steps until one changes the data or the mutator is finished.
pub open spec fn run(s: Stage, eff: Seq<u8>, d: Seq<u8>) -> (Stage, Seq<u8>, Option<(int, int)>)
    decreases stage_rank(s), stage_pos(s, d.len() as int),
{
    if !stage_wf(s) || d.len() > max_data_len() || s is Finished {
        (s, d, None)
    } else {
        let (s2, d2, r) = step(s, eff, d);
        if r is Some {
            (s2, d2, r)
        } else {
            proof { lemma_step(s, eff, d); }
            run(s2, eff, d2)
        }
    }
}

/// Runs flip steps until one changes the data or a stage other than a flip
/// is reached.
pub open spec fn run_flips(s: Stage, eff: Seq<u8>, d: Seq<u8>) -> (Stage, Seq<u8>, Option<(int, int)>)
    decreases stage_rank(s), stage_pos(s, d.len() as int),
{
    if !stage_wf(s) || d.len() > max_data_len() || flip_width(s) == 0 {
        (s, d, None)
    } else {
        let (s2, d2, r) = step(s, eff, d);
        if r is Some {
            (s2, d2, r)
        } else {
            proof { lemma_step(s, eff, d); }
            run_flips(s2, eff, d2)
        }
    }
}

/// Adding `v` to a byte and then `-v` gives back the byte.
pub proof fn lemma_arith8_inverse(b: u8, v: int)
    ensures
        add8(add8(b as int, v), -v) == b as int,
{
    let x = b as int;
    assert((((x + v) % 256) - v) % 256 == x % 256) by {
        vstd::arithmetic::div_mod::lemma_add_mod_noop(x + v, -v, 256);
        vstd::arithmetic::div_mod::lemma_mod_twice(x + v, 256);
    }
}

/// Applying the arithmetic step of `v` and then that of `-v` at the same
/// byte leaves the data as it was.
pub proof fn lemma_arith8_undo(d: Seq<u8>, o: int, v: int)
    requires
        0 <= o < d.len(),
    ensures
        ({
            let d1 = d.update(o, add8(d[o] as int, v) as u8);
            d1.update(o, add8(d1[o] as int, -v) as u8) == d
        }),
{
    let d1 = d.update(o, add8(d[o] as int, v) as u8);
    lemma_arith8_inverse(d[o], v);
    assert(d1.update(o, add8(d1[o] as int, -v) as u8) =~= d);
}

/// The stage after `k` calls of `deterministic`.
pub open spec fn stage_after_calls(s: Stage, eff: Seq<u8>, d: Seq<u8>, k: nat) -> Stage
    decreases k,
{
    if k == 0 {
        s
    } else {
        let (s2, d2, _r) = run(s, eff, d);
        stage_after_calls(s2, eff, d2, (k - 1) as nat)
    }
}

/// A run that starts before the end stops at a stage further along, with
/// data of the same length.
pub proof fn lemma_run_progress(s: Stage, eff: Seq<u8>, d: Seq<u8>)
    requires
        stage_wf(s),
        d.len() <= max_data_len(),
    ensures
        ({
            let (s2, d2, _r) = run(s, eff, d);
            &&& stage_wf(s2)
            &&& d2.len() == d.len()
            &&& (s is Finished ==> s2 is Finished)
            &&& (!(s is Finished) ==> (stage_rank(s2) < stage_rank(s) || (stage_rank(s2) == stage_rank(s)
                && 0 <= stage_pos(s2, d.len() as int) < stage_pos(s, d.len() as int))))
        }),
    decreases stage_rank(s), stage_pos(s, d.len() as int),
{
    if !(s is Finished) {
        lemma_step(s, eff, d);
        let (s2, d2, r) = step(s, eff, d);
        if r is None {
            lemma_run_progress(s2, eff, d2);
        }
    }
}

/// From any well-formed stage, repeated calls of `deterministic` reach
/// `Finished`: the returned count of calls gets there.
pub proof fn lemma_reaches_finished(s: Stage, eff: Seq<u8>, d: Seq<u8>) -> (k: nat)
    requires
        stage_wf(s),
        d.len() <= max_data_len(),
    ensures
        stage_after_calls(s, eff, d, k) is Finished,
    decreases stage_rank(s), stage_pos(s, d.len() as int),
{
    if s is Finished {
        0
    } else {
        lemma_run_progress(s, eff, d);
        let (s2, d2, _r) = run(s, eff, d);
        let k2 = lemma_reaches_finished(s2, eff, d2);
        assert(stage_after_calls(s, eff, d, k2 + 1) == stage_after_calls(s2, eff, d2, k2));
        k2 + 1
    }
}

pub open spec fn range_view(r: Option<Range<usize>>) -> Option<(int, int)> {
    match r {
        Some(rg) => Some((rg.start as int, rg.end as int)),
        None => None,
    }
}

/// The byte after adding `value`, and whether that change is new.
fn arith8_candidate(b: u8, value: i8) -> (r: (u8, bool))
    requires
        -35 <= value <= 35,
    ensures
        r.0 as int == add8(b as int, value as int),
        r.1 == !is_flip_pattern8((b ^ (add8(b as int, value as int) as u8)) as int),
{
    let nb = ((b as i16 + value as i16 + 256) % 256) as u8;
    let changed = (b ^ nb) as u32;
    (nb, !is_flip_pattern8_exec(changed))
}

/// The word after adding `value`, and whether that change is new.
fn arith16_candidate(word: u16, value: i16, endianess: bool) -> (r: (u16, bool))
    requires
        -35 <= value <= 35,
    ensures
        r.0 as int == (word as int + value as int) % 0x10000,
        r.1 == arith16_new(word as int, value as int, endianess),
{
    let new_word = ((word as i32 + value as i32 + 0x10000) % 0x10000) as u16;
    if value == 0 {
        return (new_word, false);
    }
    let c0 = word ^ new_word;
    let changed: u32 = if endianess { (c0 % 256) as u32 * 256 + (c0 / 256) as u32 } else { c0 as u32 };
    let low = (word % 256) as i32;
    let fresh = !is_flip_pattern_wide_exec(changed) && (value < 0 || low + value as i32 > 255) && (value >= 0 || low < -(value as i32));
    (new_word, fresh)
}

/// The double word after adding `value`, and whether that change is new.
fn arith32_candidate(word: u32, value: i32, endianess: bool) -> (r: (u32, bool))
    requires
        -35 <= value <= 35,
    ensures
        r.0 as int == (word as int + value as int) % 0x1_0000_0000,
        r.1 == arith32_new(word as int, value as int, endianess),
{
    let new_word = ((word as i64 + value as i64 + 0x1_0000_0000) % 0x1_0000_0000) as u32;
    if value == 0 {
        return (new_word, false);
    }
    let c0 = word ^ new_word;
    let changed: u32 = if endianess {
        (c0 % 256) * 0x1000000 + ((c0 / 256) % 256) * 0x10000 + ((c0 / 0x10000) % 256) * 256 + c0 / 0x1000000
    } else {
        c0
    };
    let low = (word % 0x10000) as i64;
    let fresh = !is_flip_pattern_wide_exec(changed) && (value < 0 || low + value as i64 > 0xffff) && (value >= 0 || low < -(value as i64));
    (new_word, fresh)
}

fn make_flip_stage(w: usize, o: usize) -> (r: Stage)
    ensures
        r == flip_stage(w as int, o),
{
    if w == 1 {
        Stage::Flip1 { offset: o }
    } else if w == 2 {
        Stage::Flip2 { offset: o }
    } else if w == 4 {
        Stage::Flip4 { offset: o }
    } else if w == 8 {
        Stage::Flip8 { offset: o }
    } else if w == 16 {
        Stage::Flip16 { offset: o }
    } else {
        Stage::Flip32 { offset: o }
    }
}

fn make_after_flip(w: usize) -> (r: Stage)
    ensures
        r == after_flip(w as int),
{
    if w == 1 {
        Stage::Flip2 { offset: 0 }
    } else if w == 2 {
        Stage::Flip4 { offset: 0 }
    } else if w == 4 {
        Stage::Flip8 { offset: 0 }
    } else if w == 8 {
        Stage::Flip16 { offset: 0 }
    } else if w == 16 {
        Stage::Flip32 { offset: 0 }
    } else {
        Stage::Arith8 { offset: 0, value: -AFL_ARITH_MAX }
    }
}

impl MutationState {
    /// A mutator that starts with the single-bit flips.
    pub fn new_bitflip(vec: Vec<u8>) -> (r: MutationState)
        ensures
            r.effector_map@ == vec@,
            r.stage == (Stage::Flip1 { offset: 0 }),
            !r.options.change_size,
    {
        MutationState { options: Options { change_size: false }, stage: Stage::Flip1 { offset: 0 }, effector_map: vec }
    }

    /// A mutator that starts with the 8-bit arithmetic stage.
    pub fn new_deterministic(vec: Vec<u8>) -> (r: MutationState)
        ensures
            r.effector_map@ == vec@,
            r.stage == (Stage::Arith8 { offset: 0, value: -35i8 }),
            !r.options.change_size,
    {
        MutationState {
            options: Options { change_size: false },
            stage: Stage::Arith8 { offset: 0, value: -AFL_ARITH_MAX },
            effector_map: vec,
        }
    }

    /// Replaces the effector map.
    pub fn new_effector(&mut self, vec: Vec<u8>)
        ensures
            final(self).effector_map@ == vec@,
            final(self).stage == old(self).stage,
            final(self).options.change_size == old(self).options.change_size,
    {
        self.effector_map = vec;
    }

    /// Starts brute-forcing all 256 values of the byte at `offset`.
    pub fn startbruteforce(&mut self, offset: usize)
        ensures
            final(self).stage == (Stage::Bruteforce { offset, value: 0 }),
            final(self).effector_map@ == old(self).effector_map@,
            final(self).options.change_size == old(self).options.change_size,
    {
        self.stage = Stage::Bruteforce { offset, value: 0 };
    }

    fn effector_at(&self, i: usize) -> (r: bool)
        ensures
            r == effector_set(self.effector_map@, i as int),
    {
        i < self.effector_map.len() && self.effector_map[i] != 0
    }

    fn next_state_flip(&mut self, w: usize, offset: usize, datalen: usize, effector: bool)
        requires
            w == 1 || w == 2 || w == 4 || w == 8 || w == 16 || w == 32,
            offset <= max_offset(),
            datalen <= max_data_len(),
        ensures
            final(self).stage == next_flip(w as int, offset, datalen as int, effector),
            final(self).effector_map == old(self).effector_map,
            final(self).options == old(self).options,
    {
        if effector {
            if offset + w < datalen * 8 {
                self.stage = make_flip_stage(w, offset + 1);
            } else {
                self.stage = make_after_flip(w);
            }
        } else {
            if offset + 7 + w < datalen * 8 {
                self.stage = make_flip_stage(w, offset + 8);
            } else {
                self.stage = make_after_flip(w);
            }
        }
    }

    fn next_state_arith8(&mut self, offset: usize, value: i8, datalen: usize, effector: bool)
        requires
            -35 <= value <= 35,
            offset <= max_offset(),
        ensures
            final(self).stage == next_arith8(offset, value, datalen as int, effector),
            final(self).effector_map == old(self).effector_map,
            final(self).options == old(self).options,
    {
        if effector {
            if value < AFL_ARITH_MAX {
                self.stage = Stage::Arith8 { offset, value: value + 1 };
            } else if offset + 1 < datalen {
                self.stage = Stage::Arith8 { offset: offset + 1, value: -AFL_ARITH_MAX };
            } else {
                self.stage = Stage::Arith16 { offset: 0, value: -(AFL_ARITH_MAX as i16), endianess: true };
            }
        } else {
            if offset + 1 < datalen {
                self.stage = Stage::Arith8 { offset: offset + 1, value: -AFL_ARITH_MAX };
            } else {
                self.stage = Stage::Arith16 { offset: 0, value: -(AFL_ARITH_MAX as i16), endianess: true };
            }
        }
    }

    fn next_state_arith16(&mut self, offset: usize, value: i16, endianess: bool, datalen: usize, effector: bool)
        requires
            -35 <= value <= 35,
            offset <= max_offset(),
        ensures
            final(self).stage == next_arith16(offset, value, endianess, datalen as int, effector),
            final(self).effector_map == old(self).effector_map,
            final(self).options == old(self).options,
    {
        if effector {
            if value < AFL_ARITH_MAX as i16 {
                self.stage = Stage::Arith16 { offset, value: value + 1, endianess };
            } else if endianess {
                self.stage = Stage::Arith16 { offset, value: -(AFL_ARITH_MAX as i16), endianess: false };
            } else if offset + 2 < datalen {
                self.stage = Stage::Arith16 { offset: offset + 1, value: -(AFL_ARITH_MAX as i16), endianess: true };
            } else {
                self.stage = Stage::Arith32 { offset: 0, value: -(AFL_ARITH_MAX as i32), endianess: true };
            }
        } else {
            if offset + 2 < datalen {
                self.stage = Stage::Arith16 { offset: offset + 1, value: -(AFL_ARITH_MAX as i16), endianess: true };
            } else {
                self.stage = Stage::Arith32 { offset: 0, value: -(AFL_ARITH_MAX as i32), endianess: true };
            }
        }
    }

    fn next_state_arith32(&mut self, offset: usize, value: i32, endianess: bool, datalen: usize, effector: bool)
        requires
            -35 <= value <= 35,
            offset <= max_offset(),
        ensures
            final(self).stage == next_arith32(offset, value, endianess, datalen as int, effector),
            final(self).effector_map == old(self).effector_map,
            final(self).options == old(self).options,
    {
        if effector {
            if value < AFL_ARITH_MAX as i32 {
                self.stage = Stage::Arith32 { offset, value: value + 1, endianess };
            } else if endianess {
                self.stage = Stage::Arith32 { offset, value: -(AFL_ARITH_MAX as i32), endianess: false };
            } else if offset + 4 < datalen {
                self.stage = Stage::Arith32 { offset: offset + 1, value: -(AFL_ARITH_MAX as i32), endianess: true };
            } else {
                self.stage = Stage::Interest8 { offset: 0, value: 0 };
            }
        } else {
            if offset + 4 < datalen {
                self.stage = Stage::Arith32 { offset: offset + 1, value: -(AFL_ARITH_MAX as i32), endianess: true };
            } else {
                self.stage = Stage::Interest8 { offset: 0, value: 0 };
            }
        }
    }

    fn next_state_interest8(&mut self, offset: usize, value: u8, datalen: usize, effector: bool)
        requires
            value < 9,
            offset <= max_offset(),
        ensures
            final(self).stage == next_interest8(offset, value, datalen as int, effector),
            final(self).effector_map == old(self).effector_map,
            final(self).options == old(self).options,
    {
        if effector {
            if value + 1 < INTERESTING_8_LEN {
                self.stage = Stage::Interest8 { offset, value: value + 1 };
            } else if offset + 1 < datalen {
                self.stage = Stage::Interest8 { offset: offset + 1, value: 0 };
            } else {
                self.stage = Stage::Interest16 { offset: 0, value: 0, endianess: true };
            }
        } else {
            if offset + 1 < datalen {
                self.stage = Stage::Interest8 { offset: offset + 1, value: 0 };
            } else {
                self.stage = Stage::Interest16 { offset: 0, value: 0, endianess: true };
            }
        }
    }

    fn next_state_interest16(&mut self, offset: usize, value: u8, endianess: bool, datalen: usize, effector: bool)
        requires
            value < 10,
            offset <= max_offset(),
        ensures
            final(self).stage == next_interest16(offset, value, endianess, datalen as int, effector),
            final(self).effector_map == old(self).effector_map,
            final(self).options == old(self).options,
    {
        if effector {
            if value + 1 < INTERESTING_16_LEN {
                self.stage = Stage::Interest16 { offset, value: value + 1, endianess };
            } else if endianess {
                self.stage = Stage::Interest16 { offset, value: 0, endianess: false };
            } else if offset + 2 < datalen {
                self.stage = Stage::Interest16 { offset: offset + 1, value: 0, endianess: true };
            } else {
                self.stage = Stage::Interest32 { offset: 0, value: 0, endianess: true };
            }
        } else {
            if offset + 2 < datalen {
                self.stage = Stage::Interest16 { offset: offset + 1, value: 0, endianess: true };
            } else {
                self.stage = Stage::Interest32 { offset: 0, value: 0, endianess: true };
            }
        }
    }

    fn next_state_interest32(&mut self, offset: usize, value: u8, endianess: bool, datalen: usize, effector: bool)
        requires
            value < 8,
            offset <= max_offset(),
        ensures
            final(self).stage == next_interest32(offset, value, endianess, datalen as int, effector),
            final(self).effector_map == old(self).effector_map,
            final(self).options == old(self).options,
    {
        if effector {
            if value + 1 < INTERESTING_32_LEN {
                self.stage = Stage::Interest32 { offset, value: value + 1, endianess };
            } else if endianess {
                self.stage = Stage::Interest32 { offset, value: 0, endianess: false };
            } else if offset + 4 < datalen {
                self.stage = Stage::Interest32 { offset: offset + 1, value: 0, endianess: true };
            } else {
                self.stage = Stage::Finished;
            }
        } else {
            if offset + 4 < datalen {
                self.stage = Stage::Interest32 { offset: offset + 1, value: 0, endianess: true };
            } else {
                self.stage = Stage::Finished;
            }
        }
    }


    /// Flips `w` bits starting at bit `offset`.
    fn flip(&mut self, w: usize, offset: usize, data: &mut Vec<u8>) -> (r: ReturnValue)
        requires
            w == 1 || w == 2 || w == 4 || w == 8 || w == 16 || w == 32,
            offset <= max_offset(),
            old(data).len() <= max_data_len(),
            old(self).stage == flip_stage(w as int, offset),
        ensures
            (final(self).stage, final(data)@, return_view(r)) == step(old(self).stage, old(self).effector_map@, old(data)@),
            !(r is Finished),
            final(self).effector_map == old(self).effector_map,
            final(self).options == old(self).options,
    {
        if !self.effector_at(offset / 8) {
            self.next_state_flip(w, offset, data.len(), false);
            return ReturnValue::Skip;
        }
        flip_bit_range(data, offset, offset + w);
        self.next_state_flip(w, offset, data.len(), true);
        ReturnValue::ChangedBits { range: offset / 8..1 + (offset + w - 1) / 8 }
    }

    /// Adds `value` to the byte at `offset` unless a bit flip already made
    /// the same change.
    fn arith8(&mut self, offset: usize, value: i8, data: &mut Vec<u8>) -> (r: ReturnValue)
        requires
            offset <= max_offset(),
            -35 <= value <= 35,
            old(self).stage == (Stage::Arith8 { offset, value }),
        ensures
            (final(self).stage, final(data)@, return_view(r)) == step(old(self).stage, old(self).effector_map@, old(data)@),
            !(r is Finished),
            final(self).effector_map == old(self).effector_map,
            final(self).options == old(self).options,
    {
        if !self.effector_at(offset) || offset >= data.len() {
            self.next_state_arith8(offset, value, data.len(), false);
            return ReturnValue::Skip;
        }
        if value == 0 {
            self.next_state_arith8(offset, value, data.len(), true);
            return ReturnValue::Skip;
        }
        let (nb, fresh) = arith8_candidate(data[offset], value);
        if fresh {
            data.set(offset, nb);
            self.next_state_arith8(offset, value, data.len(), true);
            return ReturnValue::ChangedBits { range: offset..1 + offset };
        }
        self.next_state_arith8(offset, value, data.len(), true);
        ReturnValue::Skip
    }

    /// Adds `value` to the 16-bit word at `offset` unless an earlier stage
    /// already made the same change.
    fn arith16(&mut self, offset: usize, value: i16, endianess: bool, data: &mut Vec<u8>) -> (r: ReturnValue)
        requires
            offset <= max_offset(),
            -35 <= value <= 35,
            old(self).stage == (Stage::Arith16 { offset, value, endianess }),
        ensures
            (final(self).stage, final(data)@, return_view(r)) == step(old(self).stage, old(self).effector_map@, old(data)@),
            !(r is Finished),
            final(self).effector_map == old(self).effector_map,
            final(self).options == old(self).options,
    {
        if !self.effector_at(offset) || offset + 2 > data.len() {
            self.next_state_arith16(offset, value, endianess, data.len(), false);
            return ReturnValue::Skip;
        }
        let word = read_u16(data, offset, endianess);
        let (new_word, fresh) = arith16_candidate(word, value, endianess);
        if fresh {
            write_u16(data, offset, new_word, endianess);
            self.next_state_arith16(offset, value, endianess, data.len(), true);
            return ReturnValue::ChangedBits { range: offset..1 + offset + 1 };
        }
        self.next_state_arith16(offset, value, endianess, data.len(), true);
        ReturnValue::Skip
    }

    /// Adds `value` to the 32-bit word at `offset` unless an earlier stage
    /// already made the same change.
    fn arith32(&mut self, offset: usize, value: i32, endianess: bool, data: &mut Vec<u8>) -> (r: ReturnValue)
        requires
            offset <= max_offset(),
            -35 <= value <= 35,
            old(self).stage == (Stage::Arith32 { offset, value, endianess }),
        ensures
            (final(self).stage, final(data)@, return_view(r)) == step(old(self).stage, old(self).effector_map@, old(data)@),
            !(r is Finished),
            final(self).effector_map == old(self).effector_map,
            final(self).options == old(self).options,
    {
        if !self.effector_at(offset) || offset + 4 > data.len() {
            self.next_state_arith32(offset, value, endianess, data.len(), false);
            return ReturnValue::Skip;
        }
        let word = read_u32(data, offset, endianess);
        let (new_word, fresh) = arith32_candidate(word, value, endianess);
        if fresh {
            write_u32(data, offset, new_word, endianess);
            self.next_state_arith32(offset, value, endianess, data.len(), true);
            return ReturnValue::ChangedBits { range: offset..1 + offset + 3 };
        }
        self.next_state_arith32(offset, value, endianess, data.len(), true);
        ReturnValue::Skip
    }

    /// Overwrites the byte at `offset` with an interesting value.
    fn interest8(&mut self, offset: usize, value: u8, data: &mut Vec<u8>) -> (r: ReturnValue)
        requires
            offset <= max_offset(),
            value < 9,
            old(self).stage == (Stage::Interest8 { offset, value }),
        ensures
            (final(self).stage, final(data)@, return_view(r)) == step(old(self).stage, old(self).effector_map@, old(data)@),
            !(r is Finished),
            final(self).effector_map == old(self).effector_map,
            final(self).options == old(self).options,
    {
        if !self.effector_at(offset) || offset >= data.len() {
            self.next_state_interest8(offset, value, data.len(), false);
            return ReturnValue::Skip;
        }
        data.set(offset, interesting_8_at(value));
        self.next_state_interest8(offset, value, data.len(), true);
        ReturnValue::ChangedBits { range: offset..1 + offset }
    }

    /// Overwrites the 16-bit word at `offset` with an interesting value.
    fn interest16(&mut self, offset: usize, value: u8, endianess: bool, data: &mut Vec<u8>) -> (r: ReturnValue)
        requires
            offset <= max_offset(),
            value < 10,
            old(self).stage == (Stage::Interest16 { offset, value, endianess }),
        ensures
            (final(self).stage, final(data)@, return_view(r)) == step(old(self).stage, old(self).effector_map@, old(data)@),
            !(r is Finished),
            final(self).effector_map == old(self).effector_map,
            final(self).options == old(self).options,
    {
        if !self.effector_at(offset) || offset + 2 > data.len() {
            self.next_state_interest16(offset, value, endianess, data.len(), false);
            return ReturnValue::Skip;
        }
        write_u16(data, offset, interesting_16_at(value), endianess);
        self.next_state_interest16(offset, value, endianess, data.len(), true);
        ReturnValue::ChangedBits { range: offset..1 + offset + 1 }
    }

    /// Overwrites the 32-bit word at `offset` with an interesting value.
    fn interest32(&mut self, offset: usize, value: u8, endianess: bool, data: &mut Vec<u8>) -> (r: ReturnValue)
        requires
            offset <= max_offset(),
            value < 8,
            old(self).stage == (Stage::Interest32 { offset, value, endianess }),
        ensures
            (final(self).stage, final(data)@, return_view(r)) == step(old(self).stage, old(self).effector_map@, old(data)@),
            !(r is Finished),
            final(self).effector_map == old(self).effector_map,
            final(self).options == old(self).options,
    {
        if !self.effector_at(offset) || offset + 4 > data.len() {
            self.next_state_interest32(offset, value, endianess, data.len(), false);
            return ReturnValue::Skip;
        }
        write_u32(data, offset, interesting_32_at(value), endianess);
        self.next_state_interest32(offset, value, endianess, data.len(), true);
        ReturnValue::ChangedBits { range: offset..1 + offset + 3 }
    }

    /// Writes `value` to the byte at `offset`; after the last value, or on a
    /// byte that is not to be mutated, starts over with the bit flips.
    fn bruteforce(&mut self, offset: usize, value: u8, data: &mut Vec<u8>) -> (r: ReturnValue)
        requires
            offset <= max_offset(),
            old(self).stage == (Stage::Bruteforce { offset, value }),
        ensures
            (final(self).stage, final(data)@, return_view(r)) == step(old(self).stage, old(self).effector_map@, old(data)@),
            !(r is Finished),
            final(self).effector_map == old(self).effector_map,
            final(self).options == old(self).options,
    {
        if !self.effector_at(offset) || offset >= data.len() {
            self.stage = Stage::Flip1 { offset: 0 };
            return ReturnValue::Skip;
        }
        data.set(offset, value);
        if value < 0xff {
            self.stage = Stage::Bruteforce { offset, value: value + 1 };
        } else {
            self.stage = Stage::Flip1 { offset: 0 };
        }
        ReturnValue::ChangedBits { range: offset..1 + offset }
    }

    /// Performs one step of the current stage.
    fn step_once(&mut self, data: &mut Vec<u8>) -> (r: ReturnValue)
        requires
            stage_wf(old(self).stage),
            old(data).len() <= max_data_len(),
        ensures
            (final(self).stage, final(data)@, return_view(r)) == step(old(self).stage, old(self).effector_map@, old(data)@),
            (r is Finished) == (old(self).stage is Finished),
            final(self).effector_map == old(self).effector_map,
            final(self).options == old(self).options,
    {
        match self.stage {
            Stage::Flip1 { offset } => self.flip(1, offset, data),
            Stage::Flip2 { offset } => self.flip(2, offset, data),
            Stage::Flip4 { offset } => self.flip(4, offset, data),
            Stage::Flip8 { offset } => self.flip(8, offset, data),
            Stage::Flip16 { offset } => self.flip(16, offset, data),
            Stage::Flip32 { offset } => self.flip(32, offset, data),
            Stage::Arith8 { offset, value } => self.arith8(offset, value, data),
            Stage::Arith16 { offset, value, endianess } => self.arith16(offset, value, endianess, data),
            Stage::Arith32 { offset, value, endianess } => self.arith32(offset, value, endianess, data),
            Stage::Interest8 { offset, value } => self.interest8(offset, value, data),
            Stage::Interest16 { offset, value, endianess } => self.interest16(offset, value, endianess, data),
            Stage::Interest32 { offset, value, endianess } => self.interest32(offset, value, endianess, data),
            Stage::Bruteforce { offset, value } => self.bruteforce(offset, value, data),
            Stage::Finished => ReturnValue::Finished,
        }
    }

    /// Performs mutation steps until one changes `data`, and returns the
    /// range of bytes it may have changed; `None` once every stage is done.
    pub fn deterministic(&mut self, data: &mut Vec<u8>) -> (r: Option<Range<usize>>)
        requires
            stage_wf(old(self).stage),
            old(data).len() <= max_data_len(),
        ensures
            (final(self).stage, final(data)@, range_view(r)) == run(old(self).stage, old(self).effector_map@, old(data)@),
            stage_wf(final(self).stage),
            final(self).effector_map@ == old(self).effector_map@,
            final(self).options.change_size == old(self).options.change_size,
            final(data).len() == old(data).len(),
            r matches Some(rg) ==> rg.start < rg.end && forall|i: int|
                0 <= i < old(data).len() && (i < rg.start || i >= rg.end) ==> final(data)@[i] == old(data)@[i],
            r is None ==> final(self).stage is Finished && final(data)@ == old(data)@,
    {
        let ghost eff = self.effector_map@;
        loop
            invariant
                stage_wf(self.stage),
                data.len() <= max_data_len(),
                self.effector_map@ == eff,
                eff == old(self).effector_map@,
                self.options.change_size == old(self).options.change_size,
                data@ == old(data)@,
                run(self.stage, eff, data@) == run(old(self).stage, eff, old(data)@),
            decreases stage_rank(self.stage), stage_pos(self.stage, data.len() as int),
        {
            let ghost s0 = self.stage;
            proof {
                if !(s0 is Finished) {
                    lemma_step(s0, eff, data@);
                }
            }
            let rv = self.step_once(data);
            match rv {
                ReturnValue::ChangedBits { range } => {
                    return Some(range);
                },
                ReturnValue::Finished => {
                    return None;
                },
                ReturnValue::Skip => {},
            }
        }
    }

    /// Performs bit-flip steps until one changes `data`; `None` once the
    /// flip stages are done, leaving the stage at the first stage after them.
    pub fn deterministic_flip_bits(&mut self, data: &mut Vec<u8>) -> (r: Option<Range<usize>>)
        requires
            stage_wf(old(self).stage),
            old(data).len() <= max_data_len(),
        ensures
            (final(self).stage, final(data)@, range_view(r)) == run_flips(old(self).stage, old(self).effector_map@, old(data)@),
            stage_wf(final(self).stage),
            final(self).effector_map@ == old(self).effector_map@,
            final(self).options.change_size == old(self).options.change_size,
            final(data).len() == old(data).len(),
            r matches Some(rg) ==> rg.start < rg.end && forall|i: int|
                0 <= i < old(data).len() && (i < rg.start || i >= rg.end) ==> final(data)@[i] == old(data)@[i],
            r is None ==> flip_width(final(self).stage) == 0 && final(data)@ == old(data)@,
    {
        let ghost eff = self.effector_map@;
        loop
            invariant
                stage_wf(self.stage),
                data.len() <= max_data_len(),
                self.effector_map@ == eff,
                eff == old(self).effector_map@,
                self.options.change_size == old(self).options.change_size,
                data@ == old(data)@,
                run_flips(self.stage, eff, data@) == run_flips(old(self).stage, eff, old(data)@),
            decreases stage_rank(self.stage), stage_pos(self.stage, data.len() as int),
        {
            let is_flip = match self.stage {
                Stage::Flip1 { .. } | Stage::Flip2 { .. } | Stage::Flip4 { .. } | Stage::Flip8 { .. }
                | Stage::Flip16 { .. } | Stage::Flip32 { .. } => true,
                _ => false,
            };
            if !is_flip {
                return None;
            }
            let ghost s0 = self.stage;
            proof {
                lemma_step(s0, eff, data@);
            }
            let rv = self.step_once(data);
            match rv {
                ReturnValue::ChangedBits { range } => {
                    return Some(range);
                },
                _ => {},
            }
        }
    }
}

// ---------------------------------------------------------------------------
// Havoc
// ---------------------------------------------------------------------------

/// Largest block that havoc deletes, inserts or overwrites.
pub const AFL_HAVOC_BLK_LARGE: usize = 1500;

/// Havoc applies between 2 and 2^7 operations.
pub const AFL_HAVOC_STACK_POW2: u64 = 7;

/// A value below `n`, drawn uniformly.
fn draw(n: usize) -> (r: usize)
    requires
        n > 0,
    ensures
        r < n,
{
    random_below(n as u64) as usize
}

/// `d` with `len` bytes removed at `offset`.
pub open spec fn deleted(d: Seq<u8>, offset: int, len: int) -> Seq<u8> {
    d.subrange(0, offset) + d.subrange(offset + len, d.len() as int)
}

/// `d` with `block` inserted at `offset`.
pub open spec fn inserted(d: Seq<u8>, offset: int, block: Seq<u8>) -> Seq<u8> {
    d.subrange(0, offset) + block + d.subrange(offset, d.len() as int)
}

/// `d` with `block` written over the bytes from `offset`.
pub open spec fn overwritten(d: Seq<u8>, offset: int, block: Seq<u8>) -> Seq<u8> {
    d.subrange(0, offset) + block + d.subrange(offset + block.len(), d.len() as int)
}

/// Adds `v` to the byte at `offset`, wrapping.
fn havoc_arith8(data: &mut Vec<u8>, offset: usize, v: i16)
    requires
        offset < old(data).len(),
        -255 <= v <= 255,
    ensures
        final(data)@ == old(data)@.update(offset as int, add8(old(data)@[offset as int] as int, v as int) as u8),
{
    let b = data[offset];
    data.set(offset, ((b as i16 + v + 256) % 256) as u8);
}

/// Adds `v` to the 16-bit word at `offset`, wrapping.
fn havoc_arith16(data: &mut Vec<u8>, offset: usize, v: i32, be: bool)
    requires
        offset + 2 <= old(data).len(),
        -35 <= v <= 35,
    ensures
        final(data)@ == write16(old(data)@, offset as int, (read16(old(data)@, offset as int, be) + v) % 0x10000, be),
{
    let w = read_u16(data, offset, be);
    let nw = ((w as i32 + v + 0x10000) % 0x10000) as u16;
    write_u16(data, offset, nw, be);
}

/// Adds `v` to the 32-bit word at `offset`, wrapping.
#[verifier::rlimit(40)]
fn havoc_arith32(data: &mut Vec<u8>, offset: usize, v: i64, be: bool)
    requires
        offset + 4 <= old(data).len(),
        -35 <= v <= 35,
    ensures
        final(data)@ == write32(old(data)@, offset as int, (read32(old(data)@, offset as int, be) + v) % 0x1_0000_0000, be),
{
    let w = read_u32(data, offset, be);
    let nw = ((w as i64 + v + 0x1_0000_0000) % 0x1_0000_0000) as u32;
    write_u32(data, offset, nw, be);
}

/// The bytes `from..from + len` of `data`.
fn block_of(data: &Vec<u8>, from: usize, len: usize) -> (r: Vec<u8>)
    requires
        from + len <= data.len(),
    ensures
        r@ == data@.subrange(from as int, from + len),
{
    let mut r: Vec<u8> = Vec::new();
    let mut k: usize = 0;
    while k < len
        invariant
            k <= len,
            from + len <= data.len(),
            r@ == data@.subrange(from as int, from + k),
        decreases len - k,
    {
        r.push(data[from + k]);
        k = k + 1;
        assert(r@ =~= data@.subrange(from as int, from + k));
    }
    r
}

/// `len` copies of `v`.
fn filled(v: u8, len: usize) -> (r: Vec<u8>)
    ensures
        r@ == Seq::new(len as nat, |_i: int| v),
{
    let mut r: Vec<u8> = Vec::new();
    let mut k: usize = 0;
    while k < len
        invariant
            k <= len,
            r@ == Seq::new(k as nat, |_i: int| v),
        decreases len - k,
    {
        r.push(v);
        k = k + 1;
        assert(r@ =~= Seq::new(k as nat, |_i: int| v));
    }
    r
}

/// Writes `block` over the bytes from `offset`.
fn havoc_overwrite(data: &mut Vec<u8>, offset: usize, block: &Vec<u8>)
    requires
        offset + block.len() <= old(data).len(),
    ensures
        final(data)@ == overwritten(old(data)@, offset as int, block@),
{
    let ghost d0 = data@;
    let n = data.len();
    let mut k: usize = 0;
    while k < block.len()
        invariant
            k <= block.len(),
            n == d0.len(),
            offset + block.len() <= d0.len(),
            data@.len() == d0.len(),
            forall|i: int| 0 <= i < d0.len() ==> #[trigger] data@[i] ==
                if offset <= i < offset + k { block@[i - offset] } else { d0[i] },
        decreases block.len() - k,
    {
        data.set(offset + k, block[k]);
        k = k + 1;
    }
    assert(data@ =~= overwritten(d0, offset as int, block@));
}

/// What is kept of the first `k` bytes of `d` when `len` bytes at `offset` are removed.
pub open spec fn kept_prefix(d: Seq<u8>, offset: int, len: int, k: int) -> Seq<u8> {
    if k <= offset {
        d.subrange(0, k)
    } else if k <= offset + len {
        d.subrange(0, offset)
    } else {
        d.subrange(0, offset) + d.subrange(offset + len, k)
    }
}

/// Removes `len` bytes at `offset`.
fn havoc_delete(data: &mut Vec<u8>, offset: usize, len: usize)
    requires
        offset + len <= old(data).len(),
    ensures
        final(data)@ == deleted(old(data)@, offset as int, len as int),
{
    let n = data.len();
    let mut r: Vec<u8> = Vec::new();
    let mut k: usize = 0;
    while k < n
        invariant
            k <= n,
            n == data@.len(),
            offset + len <= n,
            data@ == old(data)@,
            r@ == kept_prefix(data@, offset as int, len as int, k as int),
        decreases n - k,
    {
        if k < offset || k >= offset + len {
            r.push(data[k]);
        }
        k = k + 1;
        assert(r@ =~= kept_prefix(data@, offset as int, len as int, k as int));
    }
    assert(r@ =~= deleted(data@, offset as int, len as int));
    *data = r;
}

/// Inserts `block` at `offset`.
fn havoc_insert(data: &mut Vec<u8>, offset: usize, block: &Vec<u8>)
    requires
        offset <= old(data).len(),
    ensures
        final(data)@ == inserted(old(data)@, offset as int, block@),
{
    let n = data.len();
    let mut r = block_of(data, 0, offset);
    let mut k: usize = 0;
    while k < block.len()
        invariant
            k <= block.len(),
            r@ == data@.subrange(0, offset as int) + block@.subrange(0, k as int),
        decreases block.len() - k,
    {
        r.push(block[k]);
        k = k + 1;
        assert(r@ =~= data@.subrange(0, offset as int) + block@.subrange(0, k as int));
    }
    let mut j: usize = offset;
    while j < n
        invariant
            offset <= j <= n,
            n == data@.len(),
            r@ == data@.subrange(0, offset as int) + block@ + data@.subrange(offset as int, j as int),
        decreases n - j,
    {
        r.push(data[j]);
        j = j + 1;
        assert(r@ =~= data@.subrange(0, offset as int) + block@ + data@.subrange(offset as int, j as int));
    }
    assert(block@.subrange(0, block@.len() as int) =~= block@);
    *data = r;
}

/// `2^(e + 1)` for the exponent drawn below `AFL_HAVOC_STACK_POW2`.
fn havoc_rounds(e: u64) -> (r: usize)
    ensures
        2 <= r <= 128,
{
    if e == 0 { 2 } else if e == 1 { 4 } else if e == 2 { 8 } else if e == 3 { 16 } else if e == 4 { 32 } else if e == 5 { 64 } else { 128 }
}

/// One havoc operation, with the values drawn for it.
#[allow(inconsistent_fields)]
pub enum HavocOp {
    FlipBit { bit: usize },
    SetByte { pos: usize, value: u8 },
    Word16 { pos: usize, value: u16, be: bool },
    Word32 { pos: usize, value: u32, be: bool },
    Add8 { pos: usize, delta: i16 },
    Add16 { pos: usize, delta: i32, be: bool },
    Add32 { pos: usize, delta: i64, be: bool },
    Overwrite { offset: usize, block: Vec<u8> },
    Delete { offset: usize, len: usize },
    Insert { offset: usize, block: Vec<u8> },
}

/// Whether `op` fits data of length `n`.
pub open spec fn havoc_op_fits(op: HavocOp, n: int) -> bool {
    match op {
        HavocOp::FlipBit { bit } => bit < n * 8,
        HavocOp::SetByte { pos, .. } => pos < n,
        HavocOp::Word16 { pos, .. } => pos + 2 <= n,
        HavocOp::Word32 { pos, .. } => pos + 4 <= n,
        HavocOp::Add8 { pos, delta } => pos < n && -255 <= delta <= 255,
        HavocOp::Add16 { pos, delta, .. } => pos + 2 <= n && -35 <= delta <= 35,
        HavocOp::Add32 { pos, delta, .. } => pos + 4 <= n && -35 <= delta <= 35,
        HavocOp::Overwrite { offset, block } => offset + block@.len() <= n,
        HavocOp::Delete { offset, len } => offset + len <= n,
        HavocOp::Insert { offset, block } => offset <= n,
    }
}

/// The data after applying `op`.
pub open spec fn havoc_op_result(d: Seq<u8>, op: HavocOp) -> Seq<u8> {
    match op {
        HavocOp::FlipBit { bit } => flip_bits(d, bit as int, bit + 1),
        HavocOp::SetByte { pos, value } => d.update(pos as int, value),
        HavocOp::Word16 { pos, value, be } => write16(d, pos as int, value as int, be),
        HavocOp::Word32 { pos, value, be } => write32(d, pos as int, value as int, be),
        HavocOp::Add8 { pos, delta } => d.update(pos as int, add8(d[pos as int] as int, delta as int) as u8),
        HavocOp::Add16 { pos, delta, be } => write16(d, pos as int, (read16(d, pos as int, be) + delta) % 0x10000, be),
        HavocOp::Add32 { pos, delta, be } => write32(d, pos as int, (read32(d, pos as int, be) + delta) % 0x1_0000_0000, be),
        HavocOp::Overwrite { offset, block } => overwritten(d, offset as int, block@),
        HavocOp::Delete { offset, len } => deleted(d, offset as int, len as int),
        HavocOp::Insert { offset, block } => inserted(d, offset as int, block@),
    }
}

/// Applies one havoc operation.
pub fn havoc_apply(data: &mut Vec<u8>, op: &HavocOp)
    requires
        havoc_op_fits(*op, old(data)@.len() as int),
        old(data)@.len() <= max_data_len(),
    ensures
        final(data)@ == havoc_op_result(old(data)@, *op),
{
    match op {
        HavocOp::FlipBit { bit } => flip_bit_range(data, *bit, *bit + 1),
        HavocOp::SetByte { pos, value } => data.set(*pos, *value),
        HavocOp::Word16 { pos, value, be } => write_u16(data, *pos, *value, *be),
        HavocOp::Word32 { pos, value, be } => write_u32(data, *pos, *value, *be),
        HavocOp::Add8 { pos, delta } => havoc_arith8(data, *pos, *delta),
        HavocOp::Add16 { pos, delta, be } => havoc_arith16(data, *pos, *delta, *be),
        HavocOp::Add32 { pos, delta, be } => havoc_arith32(data, *pos, *delta, *be),
        HavocOp::Overwrite { offset, block } => havoc_overwrite(data, *offset, block),
        HavocOp::Delete { offset, len } => havoc_delete(data, *offset, *len),
        HavocOp::Insert { offset, block } => havoc_insert(data, *offset, block),
    }
}

/// The data after applying `ops` in order.
pub open spec fn havoc_ops_result(d: Seq<u8>, ops: Seq<HavocOp>) -> Seq<u8>
    decreases ops.len(),
{
    if ops.len() == 0 { d } else { havoc_op_result(havoc_ops_result(d, ops.drop_last()), ops.last()) }
}

/// How a havoc operation changes the length of the data.
pub open spec fn havoc_op_len(op: HavocOp, n: int) -> int {
    match op {
        HavocOp::Delete { len, .. } => n - len,
        HavocOp::Insert { block, .. } => n + block@.len(),
        _ => n,
    }
}

proof fn lemma_havoc_len(d: Seq<u8>, op: HavocOp)
    requires
        havoc_op_fits(op, d.len() as int),
    ensures
        havoc_op_result(d, op).len() == havoc_op_len(op, d.len() as int),
{
}

/// Draws the operation with number `op` (below 15) for data of length
/// `n`; `None` when it needs more bytes than there are.
fn draw_havoc_op(op: usize, data: &Vec<u8>) -> (res: Option<HavocOp>)
    requires
        data@.len() <= max_data_len(),
    ensures
        res matches Some(o) ==> havoc_op_fits(o, data@.len() as int)
            && (o is Delete ==> data@.len() > 4 && havoc_op_len(o, data@.len() as int) > 3)
            && (o is Insert ==> havoc_op_len(o, data@.len() as int) <= data@.len() + AFL_HAVOC_BLK_LARGE)
            && (o is Delete || o is Insert ==> op >= 12),
        data@.len() == 0 ==> res is None,
{
    let n = data.len();
    if n == 0 {
        return None;
    }
    if op == 0 {
        Some(HavocOp::FlipBit { bit: draw(n * 8) })
    } else if op == 1 {
        Some(HavocOp::SetByte { pos: draw(n), value: interesting_8_at(draw(INTERESTING_8_LEN as usize) as u8) })
    } else if op == 2 && n >= 2 {
        Some(HavocOp::Word16 { pos: draw(n - 1), value: interesting_16_at(draw(INTERESTING_16_LEN as usize) as u8), be: draw(2) == 0 })
    } else if op == 3 && n >= 4 {
        Some(HavocOp::Word32 { pos: draw(n - 3), value: interesting_32_at(draw(INTERESTING_32_LEN as usize) as u8), be: draw(2) == 0 })
    } else if op == 4 {
        Some(HavocOp::Add8 { pos: draw(n), delta: -(1 + draw(35) as i16) })
    } else if op == 5 {
        Some(HavocOp::Add8 { pos: draw(n), delta: 1 + draw(35) as i16 })
    } else if (op == 6 || op == 7) && n >= 2 {
        let v = 1 + draw(35) as i32;
        Some(HavocOp::Add16 { pos: draw(n - 1), delta: if op == 6 { -v } else { v }, be: draw(2) == 0 })
    } else if (op == 8 || op == 9) && n >= 4 {
        let v = 1 + draw(35) as i64;
        Some(HavocOp::Add32 { pos: draw(n - 3), delta: if op == 8 { -v } else { v }, be: draw(2) == 0 })
    } else if op == 10 {
        Some(HavocOp::SetByte { pos: draw(n), value: draw(256) as u8 })
    } else if op == 11 && n >= 2 {
        let offset = draw(n - 1);
        let room = if AFL_HAVOC_BLK_LARGE < n - offset { AFL_HAVOC_BLK_LARGE } else { n - offset };
        let len = 1 + draw(room);
        let len = if len > n - offset { n - offset } else { len };
        let block = if draw(4) == 0 { filled(draw(256) as u8, len) } else { block_of(data, draw(n - len + 1), len) };
        Some(HavocOp::Overwrite { offset, block })
    } else if (op == 12 || op == 13) && n > 4 {
        let offset = draw(n - 1);
        let limit = if n - offset < n - 3 { n - offset } else { n - 3 };
        let limit = if limit < AFL_HAVOC_BLK_LARGE { limit } else { AFL_HAVOC_BLK_LARGE };
        Some(HavocOp::Delete { offset, len: draw(limit) })
    } else if op == 14 && n >= 2 {
        let offset = draw(n - 1);
        let room = if AFL_HAVOC_BLK_LARGE < n - offset { AFL_HAVOC_BLK_LARGE } else { n - offset };
        let len = 1 + draw(room);
        let len = if len > n { n } else { len };
        let block = if draw(4) == 0 { filled(draw(256) as u8, len) } else { block_of(data, draw(n - len + 1), len) };
        Some(HavocOp::Insert { offset, block })
    } else {
        None
    }
}

impl MutationState {
    /// One havoc round: between 2 and 128 operations drawn at random (bit
    /// flips, interesting values, small additions, random bytes, block
    /// overwrites; with `change_size` also block deletions and insertions),
    /// each applied by `havoc_apply`. Operations that need more bytes than
    /// there are are skipped.
    pub fn havoc(&mut self, data: &mut Vec<u8>)
        requires
            old(data).len() <= max_data_len() - 128 * AFL_HAVOC_BLK_LARGE,
        ensures
            !old(self).options.change_size ==> final(data).len() == old(data).len(),
            old(data).len() > 0 ==> final(data).len() > 0,
            final(data).len() <= old(data).len() + 128 * AFL_HAVOC_BLK_LARGE,
            exists|ops: Seq<HavocOp>| ops.len() <= 128 && #[trigger] havoc_ops_result(old(data)@, ops) == final(data)@,
            final(self).stage == old(self).stage,
            final(self).effector_map@ == old(self).effector_map@,
            final(self).options.change_size == old(self).options.change_size,
    {
        let max_step: usize = if self.options.change_size { 15 } else { 12 };
        let rounds: usize = havoc_rounds(random_below(AFL_HAVOC_STACK_POW2));
        let ghost n0 = data.len();
        let ghost d0 = data@;
        let ghost mut ops: Seq<HavocOp> = Seq::empty();
        let mut i: usize = 0;
        while i < rounds
            invariant
                ops.len() <= i,
                d0 == old(data)@,
                havoc_ops_result(d0, ops) == data@,
                !self.options.change_size ==> data.len() == n0,
                n0 > 0 ==> data.len() > 0,
                data.len() <= n0 + AFL_HAVOC_BLK_LARGE * i,
                n0 <= max_data_len() - 128 * AFL_HAVOC_BLK_LARGE,
                rounds <= 128,
                i <= rounds,
                n0 == old(data).len(),
                self.options.change_size == old(self).options.change_size,
                max_step == (if self.options.change_size { 15usize } else { 12 }),
                self.stage == old(self).stage,
                self.effector_map@ == old(self).effector_map@,
            decreases rounds - i,
        {
            let op = draw(max_step);
            match draw_havoc_op(op, data) {
                Some(o) => {
                    proof {
                        lemma_havoc_len(data@, o);
                    }
                    let ghost before = data@;
                    havoc_apply(data, &o);
                    proof {
                        let ops2 = ops.push(o);
                        assert(ops2.drop_last() =~= ops);
                        ops = ops2;
                    }
                },
                None => {},
            }
            i = i + 1;
        }
        proof {
            assert(ops.len() <= 128 && havoc_ops_result(old(data)@, ops) == data@);
        }
    }
}

} // verus!
