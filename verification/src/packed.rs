//! The packed encoding of a pair of non-negative integers.
//!
//! A pair is one descriptor byte followed by the little-endian bytes of the
//! first and then of the second number. The low four bits of the descriptor
//! give the width of the first number, bits four to six the width of the
//! second, and the top bit is a sign that the pair codec itself ignores.
//! A second number of 1 is left out altogether.

use crate::buffer::{
    get_u16_le, get_u32_le, get_u64_le, get_u8, le_bytes, le_value, lemma_le_bytes_len,
    lemma_le_value_bound, lemma_le_value_of_bytes, lemma_radix_values, overwrite, put_u16_le,
    put_u32_le, put_u64_le, put_u8, radix, set_u16_le, set_u32_le, set_u64_le, set_u8,
};
use vstd::prelude::*;

verus! {

pub const U8_NUM: u8 = 1;

pub const U16_NUM: u8 = 2;

pub const U32_NUM: u8 = 3;

pub const U64_NUM: u8 = 4;

pub const NUM_MASK: u8 = 0x0f;

pub const DEN_MASK: u8 = 0x70;

pub const SIGN: u8 = 0x80;

/// The number of bytes that a width code stands for.
pub open spec fn width_of(code: u8) -> nat {
    if code == U8_NUM {
        1
    } else if code == U16_NUM {
        2
    } else if code == U32_NUM {
        4
    } else if code == U64_NUM {
        8
    } else {
        0
    }
}

/// The width code of the first number, from the descriptor byte.
pub open spec fn num_code(d: u8) -> u8 {
    d & NUM_MASK
}

/// The width code of the second number, from the descriptor byte.
pub open spec fn den_code(d: u8) -> u8 {
    (d & DEN_MASK) >> 4
}

/// The number of bytes of the pair that starts `s`.
pub open spec fn pair_len(s: Seq<u8>) -> nat {
    1 + width_of(num_code(s[0])) + width_of(den_code(s[0]))
}

/// Whether `s` starts with a complete pair.
pub open spec fn pair_ok(s: Seq<u8>) -> bool {
    &&& s.len() >= 1
    &&& 1 <= num_code(s[0]) <= 4
    &&& den_code(s[0]) <= 4
    &&& pair_len(s) <= s.len()
}

/// The first number of the pair that starts `s`.
pub open spec fn pair_first(s: Seq<u8>) -> nat {
    le_value(s.subrange(1, 1 + width_of(num_code(s[0])) as int))
}

/// The second number of the pair that starts `s`.
pub open spec fn pair_second(s: Seq<u8>) -> nat {
    if den_code(s[0]) == 0 {
        1
    } else {
        le_value(s.subrange(1 + width_of(num_code(s[0])) as int, pair_len(s) as int))
    }
}

/// The smallest width code that holds `v`.
pub open spec fn code_for(v: nat) -> u8 {
    if v <= 0xff {
        U8_NUM
    } else if v <= 0xffff {
        U16_NUM
    } else if v <= 0xffff_ffff {
        U32_NUM
    } else {
        U64_NUM
    }
}

/// The width code of a second number: none for 1, else the smallest.
pub open spec fn second_code_for(v: nat) -> u8 {
    if v == 1 {
        0
    } else {
        code_for(v)
    }
}

/// The descriptor byte of the pair `(a, b)`.
pub open spec fn pair_disc(a: nat, b: nat) -> u8 {
    code_for(a) | (second_code_for(b) << 4)
}

/// The number of bytes of the encoding of `(a, b)`.
pub open spec fn packed_size(a: nat, b: nat) -> nat {
    1 + width_of(code_for(a)) + width_of(second_code_for(b))
}

/// The encoding of the pair `(a, b)`: the fewest bytes that hold both.
pub open spec fn packed_pair(a: nat, b: nat) -> Seq<u8> {
    seq![pair_disc(a, b)] + le_bytes(a, width_of(code_for(a))) + le_bytes(
        b,
        width_of(second_code_for(b)),
    )
}

/// Whether `s` and `t` have the same first `k` bytes.
pub open spec fn agree(s: Seq<u8>, t: Seq<u8>, k: int) -> bool {
    &&& 0 <= k <= s.len()
    &&& k <= t.len()
    &&& s.subrange(0, k) == t.subrange(0, k)
}

/// Sequences that agree on their first `k` bytes have the same bytes, and the
/// same ranges of bytes, below `k`.
pub proof fn lemma_agree_index(s: Seq<u8>, t: Seq<u8>, k: int)
    requires
        agree(s, t, k),
    ensures
        forall|i: int| 0 <= i < k ==> s[i] == t[i],
        forall|i: int, j: int| 0 <= i <= j <= k ==> #[trigger] s.subrange(i, j) == t.subrange(i, j),
{
    assert forall|i: int| 0 <= i < k implies s[i] == t[i] by {
        assert(s.subrange(0, k)[i] == t.subrange(0, k)[i]);
    }
    assert forall|i: int, j: int| 0 <= i <= j <= k implies #[trigger] s.subrange(i, j)
        == t.subrange(i, j) by {
        assert(s.subrange(i, j) =~= t.subrange(i, j));
    }
}

/// Sequences that agree on their first `k` bytes agree on fewer, and it does
/// not matter which of the two is named first.
pub proof fn lemma_agree_shorter(s: Seq<u8>, t: Seq<u8>, k: int, m: int)
    requires
        agree(s, t, k),
        0 <= m <= k,
    ensures
        agree(s, t, m),
        agree(t, s, k),
{
    lemma_agree_index(s, t, k);
}

/// Two sequences that agree on `from + k` bytes agree on `k` bytes behind
/// their first `from`.
pub proof fn lemma_agree_skip(s: Seq<u8>, t: Seq<u8>, from: int, k: int)
    requires
        0 <= from,
        0 <= k,
        agree(s, t, from + k),
    ensures
        agree(s.skip(from), t.skip(from), k),
{
    lemma_agree_index(s, t, from + k);
    assert(s.skip(from).subrange(0, k) =~= t.skip(from).subrange(0, k));
}

/// The width codes in a descriptor byte, with or without the sign bit.
proof fn lemma_disc_codes(nc: u8, dc: u8)
    by (bit_vector)
    requires
        nc <= 4,
        dc <= 4,
    ensures
        (nc | (dc << 4)) & 0x0f == nc,
        ((nc | (dc << 4)) & 0x70) >> 4 == dc,
        (nc | (dc << 4)) & 0x80 == 0,
        ((nc | (dc << 4)) | 0x80) & 0x0f == nc,
        (((nc | (dc << 4)) | 0x80) & 0x70) >> 4 == dc,
        ((nc | (dc << 4)) | 0x80) & 0x80 == 0x80,
        (nc | (dc << 4)) != 8 || nc == 8,
{
}

/// The sign bit does not change the width codes.
pub proof fn lemma_sign_keeps_codes(d: u8)
    by (bit_vector)
    ensures
        (d | 0x80) & 0x0f == d & 0x0f,
        ((d | 0x80) & 0x70) >> 4 == (d & 0x70) >> 4,
        (d | 0x80) & 0x80 == 0x80,
        (d & 0x70) >> 4 <= 7,
        d & 0x0f <= 15,
        d == 8 ==> d & 0x0f == 8,
{
}

/// The descriptor byte of a pair holds the width codes of both numbers, with
/// or without the sign bit, and is never the byte that announces a rational
/// function.
pub proof fn lemma_pair_disc(a: nat, b: nat)
    ensures
        num_code(pair_disc(a, b)) == code_for(a),
        den_code(pair_disc(a, b)) == second_code_for(b),
        pair_disc(a, b) & SIGN == 0,
        num_code(pair_disc(a, b) | SIGN) == code_for(a),
        den_code(pair_disc(a, b) | SIGN) == second_code_for(b),
        (pair_disc(a, b) | SIGN) & SIGN == SIGN,
        pair_disc(a, b) != 8,
{
    lemma_disc_codes(code_for(a), second_code_for(b));
}

/// One byte denotes its own value.
pub proof fn lemma_le_value_one(s: Seq<u8>)
    requires
        s.len() == 1,
    ensures
        le_value(s) == s[0],
{
    reveal_with_fuel(le_value, 2);
}

/// The one digit of a number below 256 is the number.
pub proof fn lemma_le_bytes_one(v: nat)
    requires
        v < 256,
    ensures
        le_bytes(v, 1) == seq![v as u8],
{
    reveal_with_fuel(le_bytes, 2);
    assert(le_bytes(v, 1) =~= seq![v as u8]);
}

/// What the encoding of `(a, b)` is made of.
pub proof fn lemma_packed_pair_parts(a: nat, b: nat)
    requires
        a <= u64::MAX,
        b <= u64::MAX,
    ensures
        packed_pair(a, b).len() == packed_size(a, b),
        2 <= packed_size(a, b) <= 17,
        packed_pair(a, b)[0] == pair_disc(a, b),
        packed_pair(a, b).subrange(1, 1 + width_of(code_for(a)) as int) == le_bytes(
            a,
            width_of(code_for(a)),
        ),
        packed_pair(a, b).subrange(1 + width_of(code_for(a)) as int, packed_size(a, b) as int)
            == le_bytes(b, width_of(second_code_for(b))),
{
    let na = width_of(code_for(a));
    let nb = width_of(second_code_for(b));
    let wa = na as int;
    lemma_le_bytes_len(a, na);
    lemma_le_bytes_len(b, nb);
    let p = packed_pair(a, b);
    assert(p.subrange(1, 1 + wa) =~= le_bytes(a, na));
    assert(p.subrange(1 + wa, packed_size(a, b) as int) =~= le_bytes(b, nb));
}

/// A number fits the width that its code stands for.
pub proof fn lemma_code_fits(v: nat)
    requires
        v <= u64::MAX,
    ensures
        v < radix(width_of(code_for(v))),
        1 <= code_for(v) <= 4,
        second_code_for(v) <= 4,
{
    lemma_radix_values();
}

/// Decoding what was encoded: whatever follows the encoding of `(a, b)`, a
/// reader finds a complete pair of exactly the encoding's length, and the
/// numbers `a` and `b`.
pub proof fn lemma_packed_pair_reads(a: nat, b: nat, s: Seq<u8>)
    requires
        a <= u64::MAX,
        b <= u64::MAX,
        agree(packed_pair(a, b), s, packed_size(a, b) as int),
    ensures
        pair_ok(s),
        pair_len(s) == packed_size(a, b),
        pair_first(s) == a,
        pair_second(s) == b,
{
    let p = packed_pair(a, b);
    let na = width_of(code_for(a));
    let nb = width_of(second_code_for(b));
    let wa = na as int;
    let wb = nb as int;
    lemma_packed_pair_parts(a, b);
    lemma_pair_disc(a, b);
    lemma_code_fits(a);
    lemma_code_fits(b);
    lemma_agree_index(p, s, packed_size(a, b) as int);
    assert(s[0] == p[0]);
    assert(s.subrange(1, 1 + wa) == p.subrange(1, 1 + wa));
    lemma_le_value_of_bytes(a, na);
    if b != 1 {
        assert(s.subrange(1 + wa, 1 + wa + wb) == p.subrange(1 + wa, 1 + wa + wb));
        lemma_le_value_of_bytes(b, nb);
    }
}

/// A pair is read from its own bytes alone: what follows them is of no
/// account.
pub proof fn lemma_pair_prefix(s: Seq<u8>, t: Seq<u8>)
    requires
        pair_ok(s),
        agree(s, t, pair_len(s) as int),
    ensures
        pair_ok(t),
        pair_len(t) == pair_len(s),
        pair_first(t) == pair_first(s),
        pair_second(t) == pair_second(s),
{
    lemma_agree_index(s, t, pair_len(s) as int);
    let wa = width_of(num_code(s[0])) as int;
    assert(s[0] == t[0]);
    assert(s.subrange(1, 1 + wa) == t.subrange(1, 1 + wa));
    assert(s.subrange(1 + wa, pair_len(s) as int) == t.subrange(1 + wa, pair_len(s) as int));
}

/// The numbers of a pair fit in 64 bits.
pub proof fn lemma_pair_bounds(s: Seq<u8>)
    requires
        pair_ok(s),
    ensures
        pair_first(s) <= u64::MAX,
        pair_second(s) <= u64::MAX,
        pair_first(s) < radix(width_of(num_code(s[0]))),
        2 <= pair_len(s) <= 17,
{
    lemma_radix_values();
    let wa = width_of(num_code(s[0])) as int;
    lemma_le_value_bound(s.subrange(1, 1 + wa));
    if den_code(s[0]) != 0 {
        lemma_le_value_bound(s.subrange(1 + wa, pair_len(s) as int));
    }
}

/// The width code for `v`: the smallest that holds it.
fn width_code(v: u64) -> (r: u8)
    ensures
        r == code_for(v as nat),
{
    if v <= 0xff {
        U8_NUM
    } else if v <= 0xffff {
        U16_NUM
    } else if v <= 0xffff_ffff {
        U32_NUM
    } else {
        U64_NUM
    }
}

/// The number of bytes that a width code stands for.
fn code_width(code: u8) -> (r: usize)
    ensures
        r == width_of(code),
{
    if code == U8_NUM {
        1
    } else if code == U16_NUM {
        2
    } else if code == U32_NUM {
        4
    } else if code == U64_NUM {
        8
    } else {
        0
    }
}

/// Reads a number of the width that `code` stands for from the start of
/// `src`.
fn get_natural<'a>(src: &'a [u8], code: u8) -> (r: (u64, &'a [u8]))
    requires
        1 <= code <= 4,
        width_of(code) <= src@.len(),
    ensures
        r.0 as nat == le_value(src@.subrange(0, width_of(code) as int)),
        r.1@ == src@.skip(width_of(code) as int),
{
    if code == U8_NUM {
        let (v, rest) = get_u8(src);
        proof {
            lemma_le_value_one(src@.subrange(0, 1));
        }
        (v as u64, rest)
    } else if code == U16_NUM {
        let (v, rest) = get_u16_le(src);
        (v as u64, rest)
    } else if code == U32_NUM {
        let (v, rest) = get_u32_le(src);
        (v as u64, rest)
    } else {
        get_u64_le(src)
    }
}

/// Appends `v` in the width that `code` stands for.
fn put_natural(dest: &mut Vec<u8>, v: u64, code: u8)
    requires
        code == code_for(v as nat),
    ensures
        final(dest)@ == old(dest)@ + le_bytes(v as nat, width_of(code)),
{
    if code == U8_NUM {
        put_u8(dest, v as u8);
        proof {
            lemma_le_bytes_one(v as nat);
            assert(old(dest)@.push(v as u8) =~= old(dest)@ + seq![v as u8]);
        }
    } else if code == U16_NUM {
        put_u16_le(dest, v as u16);
    } else if code == U32_NUM {
        put_u32_le(dest, v as u32);
    } else {
        put_u64_le(dest, v);
    }
}

/// Writes `v` over the bytes of `dest` from `pos` on, in the width that
/// `code` stands for.
fn set_natural(dest: &mut [u8], pos: usize, v: u64, code: u8)
    requires
        code == code_for(v as nat),
        pos + width_of(code) <= old(dest)@.len(),
    ensures
        final(dest)@ == overwrite(old(dest)@, pos as int, le_bytes(v as nat, width_of(code))),
{
    if code == U8_NUM {
        set_u8(dest, pos, v as u8);
        proof {
            lemma_le_bytes_one(v as nat);
        }
    } else if code == U16_NUM {
        set_u16_le(dest, pos, v as u16);
    } else if code == U32_NUM {
        set_u32_le(dest, pos, v as u32);
    } else {
        set_u64_le(dest, pos, v);
    }
}

/// The descriptor byte of the pair `(a, b)`.
fn descriptor(a: u64, b: u64) -> (r: u8)
    ensures
        r == pair_disc(a as nat, b as nat),
{
    let nc = width_code(a);
    let dc: u8 = if b == 1 {
        0
    } else {
        width_code(b)
    };
    nc | (dc << 4)
}

/// The number of bytes that the encoding of the pair `(a, b)` takes.
pub fn get_packed_size(a: u64, b: u64) -> (r: u64)
    ensures
        r == packed_size(a as nat, b as nat),
        r == packed_pair(a as nat, b as nat).len(),
        2 <= r <= 17,
{
    proof {
        lemma_packed_pair_parts(a as nat, b as nat);
    }
    let wa = code_width(width_code(a));
    let wb = if b == 1 {
        0
    } else {
        code_width(width_code(b))
    };
    (1 + wa + wb) as u64
}

/// Appends the encoding of the pair `(a, b)` to `dest`.
pub fn write_packed(a: u64, b: u64, dest: &mut Vec<u8>)
    ensures
        final(dest)@ == old(dest)@ + packed_pair(a as nat, b as nat),
{
    put_u8(dest, descriptor(a, b));
    put_natural(dest, a, width_code(a));
    if b != 1 {
        put_natural(dest, b, width_code(b));
    }
    assert(dest@ =~= old(dest)@ + packed_pair(a as nat, b as nat));
}

/// Writes the encoding of the pair `(a, b)` over the first bytes of `dest`,
/// which must be long enough to take it; the bytes behind it stay.
pub fn write_packed_fixed(a: u64, b: u64, dest: &mut [u8])
    requires
        packed_size(a as nat, b as nat) <= old(dest)@.len(),
    ensures
        final(dest)@ == overwrite(old(dest)@, 0, packed_pair(a as nat, b as nat)),
{
    proof {
        lemma_packed_pair_parts(a as nat, b as nat);
    }
    let nc = width_code(a);
    set_u8(dest, 0, descriptor(a, b));
    set_natural(dest, 1, a, nc);
    if b != 1 {
        set_natural(dest, 1 + code_width(nc), b, width_code(b));
    }
    proof {
        lemma_le_bytes_len(a as nat, width_of(code_for(a as nat)));
        lemma_le_bytes_len(b as nat, width_of(second_code_for(b as nat)));
        assert(dest@ =~= overwrite(old(dest)@, 0, packed_pair(a as nat, b as nat)));
    }
}

/// Whether `source` starts with a complete pair.
pub fn has_pair(source: &[u8]) -> (r: bool)
    ensures
        r == pair_ok(source@),
{
    if source.len() < 1 {
        return false;
    }
    let disc = source[0];
    let nc = disc & NUM_MASK;
    let dc = (disc & DEN_MASK) >> 4;
    if nc < 1 || nc > 4 || dc > 4 {
        return false;
    }
    1 + code_width(nc) + code_width(dc) <= source.len()
}

/// Reads the pair that starts `source`: its two numbers, and the slice
/// behind it.
pub fn get_frac_u64<'a>(source: &'a [u8]) -> (r: (u64, u64, &'a [u8]))
    requires
        pair_ok(source@),
    ensures
        r.0 == pair_first(source@),
        r.1 == pair_second(source@),
        r.2@ == source@.skip(pair_len(source@) as int),
{
    let (disc, rest) = get_u8(source);
    let nc = disc & NUM_MASK;
    let dc = (disc & DEN_MASK) >> 4;
    let ghost wa = width_of(nc) as int;
    let ghost wb = width_of(dc) as int;
    let (num, rest2) = get_natural(rest, nc);
    proof {
        assert(rest@.subrange(0, wa) =~= source@.subrange(1, 1 + wa));
        assert(rest2@ =~= source@.skip(1 + wa));
    }
    if dc == 0 {
        (num, 1, rest2)
    } else {
        let (den, rest3) = get_natural(rest2, dc);
        proof {
            assert(rest2@.subrange(0, wb) =~= source@.subrange(1 + wa, 1 + wa + wb));
            assert(rest3@ =~= source@.skip(1 + wa + wb));
        }
        (num, den, rest3)
    }
}

/// The number of bytes of a pair whose descriptor byte is `disc`.
pub fn pair_size_of(disc: u8) -> (r: usize)
    ensures
        r == 1 + width_of(num_code(disc)) + width_of(den_code(disc)),
        r <= 17,
{
    1 + code_width(disc & NUM_MASK) + code_width((disc & DEN_MASK) >> 4)
}

/// The number of bytes of the pair that starts `source`.
pub fn get_pair_size(source: &[u8]) -> (r: usize)
    requires
        pair_ok(source@),
    ensures
        r == pair_len(source@),
{
    let disc = source[0];
    1 + code_width(disc & NUM_MASK) + code_width((disc & DEN_MASK) >> 4)
}

} // verus!
