//! Little-endian integers as byte sequences, and the byte-buffer primitives
//! the encoders and decoders are built from.

use byteorder::LittleEndian;
use byteorder::WriteBytesExt;
use bytes::Buf;
use bytes::BufMut;
use std::hash::Hash;
use std::hash::Hasher;
use vstd::prelude::*;

verus! {

/// `256^n`: the number of values that `n` bytes can hold.
pub open spec fn radix(n: nat) -> nat
    decreases n,
{
    if n == 0 {
        1
    } else {
        256 * radix((n - 1) as nat)
    }
}

/// The number whose little-endian digits (base 256) are the bytes of `s`.
pub open spec fn le_value(s: Seq<u8>) -> nat
    decreases s.len(),
{
    if s.len() == 0 {
        0
    } else {
        s[0] as nat + 256 * le_value(s.skip(1))
    }
}

/// The `n` low little-endian digits (base 256) of `v`.
pub open spec fn le_bytes(v: nat, n: nat) -> Seq<u8>
    decreases n,
{
    if n == 0 {
        Seq::empty()
    } else {
        seq![(v % 256) as u8] + le_bytes(v / 256, (n - 1) as nat)
    }
}

/// `s` with the bytes from `pos` on replaced by `w`, as far as `w` reaches.
pub open spec fn overwrite(s: Seq<u8>, pos: int, w: Seq<u8>) -> Seq<u8> {
    s.subrange(0, pos) + w + s.subrange(pos + w.len(), s.len() as int)
}

/// How many values one, two, four and eight bytes hold.
pub proof fn lemma_radix_values()
    ensures
        radix(0) == 1,
        radix(1) == 0x100,
        radix(2) == 0x1_0000,
        radix(4) == 0x1_0000_0000,
        radix(8) == 0x1_0000_0000_0000_0000,
{
    reveal_with_fuel(radix, 9);
}

/// The `n` digits of a number are `n` bytes.
pub proof fn lemma_le_bytes_len(v: nat, n: nat)
    ensures
        le_bytes(v, n).len() == n,
    decreases n,
{
    if n > 0 {
        lemma_le_bytes_len(v / 256, (n - 1) as nat);
    }
}

/// Every sequence of `n` bytes denotes a number below `256^n`.
pub proof fn lemma_le_value_bound(s: Seq<u8>)
    ensures
        le_value(s) < radix(s.len()),
    decreases s.len(),
{
    if s.len() > 0 {
        lemma_le_value_bound(s.skip(1));
    }
}

/// Reading back the `n` digits of a number below `256^n` gives the number.
pub proof fn lemma_le_value_of_bytes(v: nat, n: nat)
    requires
        v < radix(n),
    ensures
        le_value(le_bytes(v, n)) == v,
    decreases n,
{
    lemma_le_bytes_len(v, n);
    if n > 0 {
        let rest = le_bytes(v / 256, (n - 1) as nat);
        lemma_le_value_of_bytes(v / 256, (n - 1) as nat);
        assert(le_bytes(v, n).skip(1) =~= rest);
    }
}

/// `bytes::Buf::get_u8` on a byte slice: the first byte, and the slice
/// behind it.
#[verifier::external_body]
pub(crate) fn get_u8<'a>(src: &'a [u8]) -> (r: (u8, &'a [u8]))
    requires
        src@.len() >= 1,
    ensures
        r.0 == src@[0],
        r.1@ == src@.skip(1),
{
    let mut cur = src;
    let v = cur.get_u8();
    (v, cur)
}

/// `bytes::Buf::get_u16_le` on a byte slice: the first two bytes read as a
/// little-endian number, and the slice behind them.
#[verifier::external_body]
pub(crate) fn get_u16_le<'a>(src: &'a [u8]) -> (r: (u16, &'a [u8]))
    requires
        src@.len() >= 2,
    ensures
        r.0 as nat == le_value(src@.subrange(0, 2)),
        r.1@ == src@.skip(2),
{
    let mut cur = src;
    let v = cur.get_u16_le();
    (v, cur)
}

/// `bytes::Buf::get_u32_le` on a byte slice: the first four bytes read as a
/// little-endian number, and the slice behind them.
#[verifier::external_body]
pub(crate) fn get_u32_le<'a>(src: &'a [u8]) -> (r: (u32, &'a [u8]))
    requires
        src@.len() >= 4,
    ensures
        r.0 as nat == le_value(src@.subrange(0, 4)),
        r.1@ == src@.skip(4),
{
    let mut cur = src;
    let v = cur.get_u32_le();
    (v, cur)
}

/// `bytes::Buf::get_u64_le` on a byte slice: the first eight bytes read as a
/// little-endian number, and the slice behind them.
#[verifier::external_body]
pub(crate) fn get_u64_le<'a>(src: &'a [u8]) -> (r: (u64, &'a [u8]))
    requires
        src@.len() >= 8,
    ensures
        r.0 as nat == le_value(src@.subrange(0, 8)),
        r.1@ == src@.skip(8),
{
    let mut cur = src;
    let v = cur.get_u64_le();
    (v, cur)
}

/// `bytes::Buf::advance` on a byte slice: the slice without its first `cnt`
/// bytes.
#[verifier::external_body]
pub(crate) fn advance<'a>(src: &'a [u8], cnt: usize) -> (r: &'a [u8])
    requires
        cnt <= src@.len(),
    ensures
        r@ == src@.skip(cnt as int),
{
    let mut cur = src;
    cur.advance(cnt);
    cur
}

/// `bytes::BufMut::put_u8` on a vector: appends the byte.
#[verifier::external_body]
pub(crate) fn put_u8(buf: &mut Vec<u8>, v: u8)
    ensures
        final(buf)@ == old(buf)@.push(v),
{
    buf.put_u8(v)
}

/// `bytes::BufMut::put_u16_le` on a vector: appends the two little-endian
/// bytes of `v`.
#[verifier::external_body]
pub(crate) fn put_u16_le(buf: &mut Vec<u8>, v: u16)
    ensures
        final(buf)@ == old(buf)@ + le_bytes(v as nat, 2),
{
    buf.put_u16_le(v)
}

/// `bytes::BufMut::put_u32_le` on a vector: appends the four little-endian
/// bytes of `v`.
#[verifier::external_body]
pub(crate) fn put_u32_le(buf: &mut Vec<u8>, v: u32)
    ensures
        final(buf)@ == old(buf)@ + le_bytes(v as nat, 4),
{
    buf.put_u32_le(v)
}

/// `bytes::BufMut::put_u64_le` on a vector: appends the eight little-endian
/// bytes of `v`.
#[verifier::external_body]
pub(crate) fn put_u64_le(buf: &mut Vec<u8>, v: u64)
    ensures
        final(buf)@ == old(buf)@ + le_bytes(v as nat, 8),
{
    buf.put_u64_le(v)
}

/// `<[T; N]>::as_mut_slice` of std: the whole array as a mutable slice. The
/// slice starts out with the array's items, and the array ends up with what
/// the slice ends up with.
pub assume_specification<T, const N: usize>[ <[T; N]>::as_mut_slice ](ar: &mut [T; N]) -> (slice:
    &mut [T])
    ensures
        slice@ == old(ar)@,
        final(slice)@ == final(ar)@,
;

/// `bytes::BufMut::put_u8` on the part of a mutable slice that starts at
/// `pos`: overwrites one byte, the rest of the slice stays.
#[verifier::external_body]
pub(crate) fn set_u8(dest: &mut [u8], pos: usize, v: u8)
    requires
        pos + 1 <= old(dest)@.len(),
    ensures
        final(dest)@ == overwrite(old(dest)@, pos as int, seq![v]),
{
    (&mut dest[pos..]).put_u8(v)
}

/// `bytes::BufMut::put_u16_le` on the part of a mutable slice that starts at
/// `pos`: overwrites two bytes with the little-endian bytes of `v`.
#[verifier::external_body]
pub(crate) fn set_u16_le(dest: &mut [u8], pos: usize, v: u16)
    requires
        pos + 2 <= old(dest)@.len(),
    ensures
        final(dest)@ == overwrite(old(dest)@, pos as int, le_bytes(v as nat, 2)),
{
    (&mut dest[pos..]).put_u16_le(v)
}

/// `bytes::BufMut::put_u32_le` on the part of a mutable slice that starts at
/// `pos`: overwrites four bytes with the little-endian bytes of `v`.
#[verifier::external_body]
pub(crate) fn set_u32_le(dest: &mut [u8], pos: usize, v: u32)
    requires
        pos + 4 <= old(dest)@.len(),
    ensures
        final(dest)@ == overwrite(old(dest)@, pos as int, le_bytes(v as nat, 4)),
{
    (&mut dest[pos..]).put_u32_le(v)
}

/// `bytes::BufMut::put_u64_le` on the part of a mutable slice that starts at
/// `pos`: overwrites eight bytes with the little-endian bytes of `v`.
#[verifier::external_body]
pub(crate) fn set_u64_le(dest: &mut [u8], pos: usize, v: u64)
    requires
        pos + 8 <= old(dest)@.len(),
    ensures
        final(dest)@ == overwrite(old(dest)@, pos as int, le_bytes(v as nat, 8)),
{
    (&mut dest[pos..]).put_u64_le(v)
}

/// `byteorder::WriteBytesExt::write_u32::<LittleEndian>` on the part of a
/// mutable slice that starts at `pos`: overwrites four bytes with the
/// little-endian bytes of `v`. The four bytes are there, so the write
/// cannot fail.
#[verifier::external_body]
pub(crate) fn write_u32_le_at(dest: &mut [u8], pos: usize, v: u32)
    requires
        pos + 4 <= old(dest)@.len(),
    ensures
        final(dest)@ == overwrite(old(dest)@, pos as int, le_bytes(v as nat, 4)),
{
    let mut cursor = &mut dest[pos..];
    cursor.write_u32::<LittleEndian>(v).unwrap()
}

/// `byteorder::WriteBytesExt::write_u8` with a vector as the writer: appends
/// the byte. Writing to a vector does not fail.
#[verifier::external_body]
pub(crate) fn write_u8(dest: &mut Vec<u8>, v: u8)
    ensures
        final(dest)@ == old(dest)@.push(v),
{
    dest.write_u8(v).unwrap()
}

/// `byteorder::WriteBytesExt::write_u64::<LittleEndian>` with a vector as the
/// writer: appends the eight little-endian bytes of `v`. Writing to a vector
/// does not fail.
#[verifier::external_body]
pub(crate) fn write_u64_le(dest: &mut Vec<u8>, v: u64)
    ensures
        final(dest)@ == old(dest)@ + le_bytes(v as nat, 8),
{
    dest.write_u64::<LittleEndian>(v).unwrap()
}

/// `<[u8]>::copy_within` on a vector's bytes: the bytes `start..end` are
/// copied to the positions from `dest` on, as by a memmove; the length and
/// all other bytes stay.
#[verifier::external_body]
pub(crate) fn copy_within(buf: &mut Vec<u8>, start: usize, end: usize, dest: usize)
    requires
        start <= end <= old(buf)@.len(),
        dest + (end - start) <= old(buf)@.len(),
    ensures
        final(buf)@ == overwrite(old(buf)@, dest as int, old(buf)@.subrange(start as int, end as int)),
{
    buf.copy_within(start..end, dest)
}

/// `Vec::capacity`: how many bytes the vector can hold without allocating
/// again. That is at least as many as it holds; how many more depends on
/// the allocator, and nothing is said of it.
#[verifier::external_body]
pub(crate) fn capacity(buf: &Vec<u8>) -> (r: usize)
    ensures
        r >= buf@.len(),
{
    buf.capacity()
}

/// `<[T] as Hash>::hash`: feeds the length and the elements of the slice to
/// the hasher. Nothing is said of the hasher's state.
pub assume_specification<T: Hash, H: Hasher>[ <[T] as Hash>::hash::<H> ](
    data: &[T],
    state: &mut H,
)
;

/// Appends the bytes of `src` to `buf`.
pub fn append(buf: &mut Vec<u8>, src: &[u8])
    ensures
        final(buf)@ == old(buf)@ + src@,
{
    buf.extend_from_slice(src);
    assert(buf@ =~= old(buf)@ + src@);
}

/// Whether `a` comes before `b` in the order of byte strings: at the first
/// place where they differ `a` has the smaller byte, or `a` ends before
/// `b` does.
pub open spec fn lex_less(a: Seq<u8>, b: Seq<u8>) -> bool
    decreases a.len(),
{
    if b.len() == 0 {
        false
    } else if a.len() == 0 {
        true
    } else if a[0] != b[0] {
        a[0] < b[0]
    } else {
        lex_less(a.skip(1), b.skip(1))
    }
}

/// How `a` stands to `b` in the order of byte strings: -1 if it comes
/// before, 0 if they are the same, 1 if it comes after.
pub fn lex_sign(a: &[u8], b: &[u8]) -> (r: i8)
    ensures
        r == 0 <==> a@ == b@,
        r == -1 <==> lex_less(a@, b@),
        r == 1 <==> a@ != b@ && !lex_less(a@, b@),
{
    let mut i: usize = 0;
    proof {
        assert(a@.skip(0) =~= a@);
        assert(b@.skip(0) =~= b@);
    }
    while i < a.len() && i < b.len()
        invariant
            i <= a@.len(),
            i <= b@.len(),
            forall|j: int| 0 <= j < i ==> a@[j] == b@[j],
            lex_less(a@, b@) == lex_less(a@.skip(i as int), b@.skip(i as int)),
        decreases a@.len() - i,
    {
        if a[i] != b[i] {
            if a[i] < b[i] {
                return -1;
            } else {
                return 1;
            }
        }
        proof {
            assert(a@.skip(i as int).skip(1) =~= a@.skip(i + 1));
            assert(b@.skip(i as int).skip(1) =~= b@.skip(i + 1));
        }
        i += 1;
    }
    if a.len() < b.len() {
        -1
    } else if a.len() > b.len() {
        1
    } else {
        assert(a@ =~= b@);
        0
    }
}

/// Whether two byte slices hold the same bytes.
pub fn same_bytes(a: &[u8], b: &[u8]) -> (r: bool)
    ensures
        r == (a@ == b@),
{
    if a.len() != b.len() {
        return false;
    }
    let mut i: usize = 0;
    while i < a.len()
        invariant
            i <= a@.len(),
            a@.len() == b@.len(),
            forall|j: int| 0 <= j < i ==> a@[j] == b@[j],
        decreases a@.len() - i,
    {
        if a[i] != b[i] {
            return false;
        }
        i += 1;
    }
    assert(a@ =~= b@);
    true
}

} // verus!
