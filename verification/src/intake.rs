//! How far an export reaches.
//!
//! A reader that takes an export from a stream must not read past its end.
//! An export does not say up front how long it is: it is three counted
//! runs, the symbols, the variable lists and the framed expressions, and
//! each item says by itself how many bytes it has. From the bytes read so
//! far, `missing` tells how many more are to be read before more can be
//! told; a reader that reads that many and asks again ends with the export
//! and not a byte more.
//!
//! `missing` goes through the bytes from their start. An `Intake` holds the
//! bytes for the reader and keeps its place in them, so that it goes
//! through each item once; it gives the same answers.

use crate::buffer::{
    advance, append, get_u64_le, le_bytes, le_value, lemma_le_bytes_len, lemma_le_value_of_bytes,
    lemma_radix_values,
};
use crate::packed::{
    agree, lemma_packed_pair_parts, lemma_packed_pair_reads, packed_pair, pair_len, pair_size_of,
};
use crate::state::{
    entries_bytes, entry_bytes, lemma_ids_bytes_len, list_bytes, lists_bytes, section, StateModel,
    SymbolData, writable,
};
use crate::stream::{exported, frame, frame_size, lemma_frame_reads};
use vstd::prelude::*;
use vstd::slice::slice_subrange;

verus! {

/// The runs of an export.
#[derive(Debug, Clone, Copy, PartialEq, Eq, Hash, Structural)]
pub enum Part {
    /// The symbols of the table.
    Symbols,
    /// The variable lists of the table.
    Lists,
    /// The framed expressions.
    Frames,
}

/// How far the symbol that starts `s` reaches, as far as `s` tells: the
/// number of its bytes if that is at most the length of `s`, and else a
/// length that `s` must have before more can be told.
pub open spec fn symbol_extent(s: Seq<u8>) -> nat {
    if s.len() < 8 {
        8
    } else {
        let node = 8 + le_value(s.subrange(0, 8));
        if s.len() < node + 2 {
            node + 2
        } else {
            node + 1 + pair_len(s.skip(node as int + 1))
        }
    }
}

/// How far the variable list that starts `s` reaches, as far as `s` tells.
pub open spec fn list_extent(s: Seq<u8>) -> nat {
    if s.len() < 8 {
        8
    } else {
        8 + 4 * le_value(s.subrange(0, 8))
    }
}

/// How far the frame that starts `s` reaches, as far as `s` tells.
pub open spec fn frame_extent(s: Seq<u8>) -> nat {
    if s.len() < 9 {
        9
    } else {
        9 + frame_size(s)
    }
}

/// How far the item of the run `part` that starts `s` reaches, as far as
/// `s` tells.
pub open spec fn item_extent(s: Seq<u8>, part: Part) -> nat {
    match part {
        Part::Symbols => symbol_extent(s),
        Part::Lists => list_extent(s),
        Part::Frames => frame_extent(s),
    }
}

/// How far `count` items of the run `part` that start `s` reach, as far as
/// `s` tells: the first item that `s` does not hold whole decides.
pub open spec fn run_extent(s: Seq<u8>, count: nat, part: Part) -> nat
    decreases count,
{
    if count == 0 {
        0
    } else {
        let e = item_extent(s, part);
        if e > s.len() {
            e
        } else {
            e + run_extent(s.skip(e as int), (count - 1) as nat, part)
        }
    }
}

/// How far the run `part` that starts `s` with its count reaches, as far
/// as `s` tells.
pub open spec fn counted_extent(s: Seq<u8>, part: Part) -> nat {
    if s.len() < 8 {
        8
    } else {
        8 + run_extent(s.skip(8), le_value(s.subrange(0, 8)), part)
    }
}

/// How far the export that starts `s` reaches, as far as `s` tells: its
/// length if that is at most the length of `s`, and else a length that `s`
/// must have before more can be told.
pub open spec fn export_extent(s: Seq<u8>) -> nat {
    let symbols = counted_extent(s, Part::Symbols);
    if symbols > s.len() {
        symbols
    } else {
        let lists = symbols + counted_extent(s.skip(symbols as int), Part::Lists);
        if lists > s.len() {
            lists
        } else {
            lists + counted_extent(s.skip(lists as int), Part::Frames)
        }
    }
}

/// The length `n`, if a buffer can have it.
pub open spec fn held(n: nat) -> Option<usize> {
    if n <= usize::MAX {
        Some(n as usize)
    } else {
        None
    }
}

/// The number of bytes by which a buffer of `len` bytes falls short of
/// `extent` bytes: none if it holds as many. There is no such number where
/// no buffer can hold `extent` bytes.
pub open spec fn short_of(extent: nat, len: nat) -> Option<usize> {
    match held(extent) {
        None => None,
        Some(e) => if e > len {
            Some((e - len) as usize)
        } else {
            Some(0)
        },
    }
}

/// The number of bytes that are to be read behind `s` before more can be
/// told of the export that starts `s`: none if `s` holds it whole.
pub open spec fn export_missing(s: Seq<u8>) -> Option<usize> {
    short_of(export_extent(s), s.len())
}

/// The number of bytes that are to be read behind `s` before more can be
/// told of the frame that starts `s`: none if `s` holds it whole.
pub open spec fn frame_missing(s: Seq<u8>) -> Option<usize> {
    short_of(frame_extent(s), s.len())
}

/// The number of bytes by which `source` falls short of `reach` bytes.
fn shortfall(reach: Option<usize>, source: &[u8]) -> (r: Option<usize>)
    ensures
        r == match reach {
            None => None,
            Some(e) => Some(
                if e > source@.len() {
                    (e - source@.len()) as usize
                } else {
                    0usize
                },
            ),
        },
{
    match reach {
        None => None,
        Some(e) => if e > source.len() {
            Some(e - source.len())
        } else {
            Some(0)
        },
    }
}

/// How far the symbol that starts `source` reaches.
fn symbol_reach(source: &[u8]) -> (r: Option<usize>)
    ensures
        r == held(symbol_extent(source@)),
{
    if source.len() < 8 {
        return Some(8);
    }
    let (n, _) = get_u64_le(source);
    if usize::MAX < 10 || n > (usize::MAX - 10) as u64 {
        return None;
    }
    let node: usize = 8 + n as usize;
    if source.len() < node + 2 {
        return Some(node + 2);
    }
    let size: usize = pair_size_of(source[node + 1]);
    assert(source@.skip(node + 1)[0] == source@[node + 1]);
    (node + 1).checked_add(size)
}

/// How far the variable list that starts `source` reaches.
fn list_reach(source: &[u8]) -> (r: Option<usize>)
    ensures
        r == held(list_extent(source@)),
{
    if source.len() < 8 {
        return Some(8);
    }
    let (n, _) = get_u64_le(source);
    if usize::MAX < 8 || n > ((usize::MAX - 8) / 4) as u64 {
        return None;
    }
    Some(8 + 4 * (n as usize))
}

/// How far the frame that starts `source` reaches.
fn frame_reach(source: &[u8]) -> (r: Option<usize>)
    ensures
        r == held(frame_extent(source@)),
{
    if source.len() < 9 {
        return Some(9);
    }
    let (n, _) = get_u64_le(advance(source, 1));
    assert(source@.skip(1).subrange(0, 8) =~= source@.subrange(1, 9));
    if usize::MAX < 9 || n > (usize::MAX - 9) as u64 {
        return None;
    }
    Some(9 + n as usize)
}

/// How far the item of the run `part` that starts `source` reaches.
fn item_reach(source: &[u8], part: Part) -> (r: Option<usize>)
    ensures
        r == held(item_extent(source@, part)),
{
    match part {
        Part::Symbols => symbol_reach(source),
        Part::Lists => list_reach(source),
        Part::Frames => frame_reach(source),
    }
}

/// How far `count` items of the run `part` that start `source` reach.
fn run_reach(source: &[u8], count: u64, part: Part) -> (r: Option<usize>)
    ensures
        r == held(run_extent(source@, count as nat, part)),
{
    let mut cur = source;
    let mut used: usize = 0;
    let mut i: u64 = 0;
    while i < count
        invariant
            i <= count,
            used <= source@.len(),
            cur@ == source@.skip(used as int),
            run_extent(source@, count as nat, part) == used + run_extent(
                cur@,
                (count - i) as nat,
                part,
            ),
        decreases count - i,
    {
        match item_reach(cur, part) {
            None => {
                return None;
            },
            Some(e) => {
                if e > cur.len() {
                    return used.checked_add(e);
                }
                assert(used + e <= source.len());
                cur = advance(cur, e);
                assert(cur@ =~= source@.skip(used + e));
                used = used + e;
                i = i + 1;
            },
        }
    }
    Some(used)
}

/// How far the run `part` that starts `source` with its count reaches.
fn counted_reach(source: &[u8], part: Part) -> (r: Option<usize>)
    ensures
        r == held(counted_extent(source@, part)),
{
    if source.len() < 8 {
        return Some(8);
    }
    let (n, rest) = get_u64_le(source);
    match run_reach(rest, n, part) {
        None => None,
        Some(k) => k.checked_add(8),
    }
}

/// How far the export that starts `source` reaches.
pub fn extent(source: &[u8]) -> (r: Option<usize>)
    ensures
        r == held(export_extent(source@)),
{
    let symbols: usize = match counted_reach(source, Part::Symbols) {
        None => {
            return None;
        },
        Some(k) => k,
    };
    if symbols > source.len() {
        return Some(symbols);
    }
    let lists: usize = match counted_reach(advance(source, symbols), Part::Lists) {
        None => {
            return None;
        },
        Some(k) => match k.checked_add(symbols) {
            None => {
                return None;
            },
            Some(l) => l,
        },
    };
    if lists > source.len() {
        return Some(lists);
    }
    match counted_reach(advance(source, lists), Part::Frames) {
        None => None,
        Some(k) => k.checked_add(lists),
    }
}

/// The number of bytes that are to be read behind `source` before more can
/// be told of the export that starts `source`; none if `source` holds it
/// whole.
pub fn missing(source: &[u8]) -> (r: Option<usize>)
    ensures
        r == export_missing(source@),
{
    shortfall(extent(source), source)
}

/// The number of bytes that are to be read behind `source` before more can
/// be told of the frame that starts `source`; none if `source` holds it
/// whole.
pub fn missing_of_frame(source: &[u8]) -> (r: Option<usize>)
    ensures
        r == frame_missing(source@),
{
    shortfall(frame_reach(source), source)
}

/// A symbol reaches as far as its bytes, whatever follows it.
pub proof fn lemma_symbol_extent(d: SymbolData, tail: Seq<u8>)
    requires
        d.name.len() <= u64::MAX,
    ensures
        symbol_extent(entry_bytes(d) + tail) == entry_bytes(d).len(),
{
    let s = entry_bytes(d) + tail;
    let n = d.name.len();
    let id = d.symbol.id as nat;
    let p = packed_pair(id, 1);
    lemma_le_bytes_len(n, 8);
    lemma_radix_values();
    lemma_le_value_of_bytes(n, 8);
    lemma_packed_pair_parts(id, 1);
    assert(s.subrange(0, 8) =~= le_bytes(n, 8));
    let t = s.skip(8 + n as int + 1);
    assert(t =~= p + tail);
    assert(agree(p, t, p.len() as int)) by {
        assert(p.subrange(0, p.len() as int) =~= t.subrange(0, p.len() as int));
    }
    lemma_packed_pair_reads(id, 1, t);
}

/// Symbols reach as far as their bytes, whatever follows them.
pub proof fn lemma_symbols_extent(symbols: Seq<SymbolData>, tail: Seq<u8>)
    requires
        forall|i: int| 0 <= i < symbols.len() ==> (#[trigger] symbols[i]).name.len() <= u64::MAX,
    ensures
        run_extent(entries_bytes(symbols) + tail, symbols.len(), Part::Symbols) == entries_bytes(
            symbols,
        ).len(),
    decreases symbols.len(),
{
    if symbols.len() > 0 {
        let d = symbols[0];
        let rest = symbols.skip(1);
        let s = entries_bytes(symbols) + tail;
        let behind = entries_bytes(rest) + tail;
        assert(s =~= entry_bytes(d) + behind);
        lemma_symbol_extent(d, behind);
        assert(s.skip(entry_bytes(d).len() as int) =~= behind);
        assert forall|i: int| 0 <= i < rest.len() implies (#[trigger] rest[i]).name.len()
            <= u64::MAX by {
            assert(rest[i] == symbols[i + 1]);
        }
        lemma_symbols_extent(rest, tail);
    }
}

/// A variable list reaches as far as its bytes, whatever follows it.
pub proof fn lemma_list_extent(l: Seq<u32>, tail: Seq<u8>)
    requires
        l.len() <= u64::MAX,
    ensures
        list_extent(list_bytes(l) + tail) == list_bytes(l).len(),
{
    let s = list_bytes(l) + tail;
    lemma_le_bytes_len(l.len(), 8);
    lemma_radix_values();
    lemma_le_value_of_bytes(l.len(), 8);
    lemma_ids_bytes_len(l);
    assert(s.subrange(0, 8) =~= le_bytes(l.len(), 8));
}

/// Variable lists reach as far as their bytes, whatever follows them.
pub proof fn lemma_lists_extent(lists: Seq<Seq<u32>>, tail: Seq<u8>)
    requires
        forall|i: int| 0 <= i < lists.len() ==> (#[trigger] lists[i]).len() <= u64::MAX,
    ensures
        run_extent(lists_bytes(lists) + tail, lists.len(), Part::Lists) == lists_bytes(
            lists,
        ).len(),
    decreases lists.len(),
{
    if lists.len() > 0 {
        let l = lists[0];
        let rest = lists.skip(1);
        let s = lists_bytes(lists) + tail;
        let behind = lists_bytes(rest) + tail;
        assert(s =~= list_bytes(l) + behind);
        lemma_list_extent(l, behind);
        assert(s.skip(list_bytes(l).len() as int) =~= behind);
        assert forall|i: int| 0 <= i < rest.len() implies (#[trigger] rest[i]).len()
            <= u64::MAX by {
            assert(rest[i] == lists[i + 1]);
        }
        lemma_lists_extent(rest, tail);
    }
}

/// An export reaches as far as its bytes, whatever follows it.
pub proof fn lemma_export_extent(m: StateModel, payload: Seq<u8>, tail: Seq<u8>)
    requires
        m.symbols.len() <= u64::MAX,
        writable(m),
        payload.len() <= u64::MAX,
    ensures
        export_extent(exported(section(m), payload) + tail) == exported(
            section(m),
            payload,
        ).len(),
{
    let whole = exported(section(m), payload);
    let s = whole + tail;
    let e = entries_bytes(m.symbols);
    let l = lists_bytes(m.lists);
    let f = le_bytes(1, 8) + frame(payload) + tail;
    let behind = le_bytes(m.lists.len(), 8) + l + f;
    lemma_le_bytes_len(m.symbols.len(), 8);
    lemma_le_bytes_len(m.lists.len(), 8);
    lemma_le_bytes_len(1, 8);
    lemma_radix_values();
    lemma_le_value_of_bytes(m.symbols.len(), 8);
    lemma_le_value_of_bytes(m.lists.len(), 8);
    lemma_le_value_of_bytes(1, 8);
    lemma_frame_reads(payload, tail);
    assert(s.subrange(0, 8) =~= le_bytes(m.symbols.len(), 8));
    assert(s.skip(8) =~= e + behind);
    lemma_symbols_extent(m.symbols, behind);
    let a = 8 + e.len();
    assert(counted_extent(s, Part::Symbols) == a);
    let t = s.skip(a as int);
    assert(t =~= behind);
    assert(t.subrange(0, 8) =~= le_bytes(m.lists.len(), 8));
    assert(t.skip(8) =~= l + f);
    lemma_lists_extent(m.lists, f);
    let b = a + 8 + l.len();
    assert(counted_extent(t, Part::Lists) == 8 + l.len());
    let u = s.skip(b as int);
    assert(u =~= f);
    assert(u.subrange(0, 8) =~= le_bytes(1, 8));
    assert(u.skip(8) =~= frame(payload) + tail);
    assert(run_extent(u.skip(8), 1, Part::Frames) == 9 + payload.len()) by {
        reveal_with_fuel(run_extent, 2);
    }
    assert(whole.len() == b + 8 + 9 + payload.len());
}

/// Of an export that a buffer holds whole, nothing is missing.
pub proof fn lemma_whole_export_misses_nothing(m: StateModel, payload: Seq<u8>)
    requires
        m.symbols.len() <= u64::MAX,
        writable(m),
        payload.len() <= u64::MAX,
        exported(section(m), payload).len() <= usize::MAX,
    ensures
        export_missing(exported(section(m), payload)) == Some(0usize),
{
    let whole = exported(section(m), payload);
    assert(whole + Seq::<u8>::empty() =~= whole);
    lemma_export_extent(m, payload, Seq::empty());
}

/// What a reader is told who holds the first `k` bytes of something that
/// reaches `whole` bytes far, if it is told that it reaches `got` bytes far:
/// the truth if it holds all of it, and else to read on, but not past the
/// end.
pub open spec fn told(k: int, whole: nat, got: nat) -> bool {
    if k >= whole {
        got == whole
    } else {
        k < got <= whole
    }
}

/// Of an item that `s` holds whole, the first `k` bytes of `s` tell as
/// much as they hold of it.
pub proof fn lemma_part_of_item(s: Seq<u8>, k: int, part: Part)
    requires
        0 <= k <= s.len(),
        item_extent(s, part) <= s.len(),
    ensures
        told(k, item_extent(s, part), item_extent(s.subrange(0, k), part)),
{
    let p = s.subrange(0, k);
    match part {
        Part::Symbols => {
            if k >= 8 {
                assert(p.subrange(0, 8) =~= s.subrange(0, 8));
                let node = 8 + le_value(s.subrange(0, 8));
                if k >= node + 2 {
                    assert(p.skip(node as int + 1)[0] == s.skip(node as int + 1)[0]);
                }
            }
        },
        Part::Lists => {
            if k >= 8 {
                assert(p.subrange(0, 8) =~= s.subrange(0, 8));
            }
        },
        Part::Frames => {
            if k >= 9 {
                assert(p.subrange(1, 9) =~= s.subrange(1, 9));
            }
        },
    }
}

/// Of a run that `s` holds whole, the first `k` bytes of `s` tell as much
/// as they hold of it.
pub proof fn lemma_part_of_run(s: Seq<u8>, k: int, count: nat, part: Part)
    requires
        0 <= k <= s.len(),
        run_extent(s, count, part) <= s.len(),
    ensures
        told(k, run_extent(s, count, part), run_extent(s.subrange(0, k), count, part)),
    decreases count,
{
    if count > 0 {
        let p = s.subrange(0, k);
        let e = item_extent(s, part);
        lemma_part_of_item(s, k, part);
        if k >= e {
            assert(p.skip(e as int) =~= s.skip(e as int).subrange(0, k - e));
            lemma_part_of_run(s.skip(e as int), k - e, (count - 1) as nat, part);
        }
    }
}

/// Of a counted run that `s` holds whole, the first `k` bytes of `s` tell
/// as much as they hold of it.
pub proof fn lemma_part_of_counted(s: Seq<u8>, k: int, part: Part)
    requires
        0 <= k <= s.len(),
        counted_extent(s, part) <= s.len(),
    ensures
        told(k, counted_extent(s, part), counted_extent(s.subrange(0, k), part)),
{
    let p = s.subrange(0, k);
    if k >= 8 {
        assert(p.subrange(0, 8) =~= s.subrange(0, 8));
        assert(p.skip(8) =~= s.skip(8).subrange(0, k - 8));
        lemma_part_of_run(s.skip(8), k - 8, le_value(s.subrange(0, 8)), part);
    }
}

/// A reader that holds the first `k` bytes of an export is told to read
/// on, and never past the end of the export; once it holds the export, it
/// is told how long the export is, whatever follows it.
pub proof fn lemma_part_of_export(s: Seq<u8>, k: int)
    requires
        0 <= k <= s.len(),
        export_extent(s) <= s.len(),
    ensures
        told(k, export_extent(s), export_extent(s.subrange(0, k))),
{
    let p = s.subrange(0, k);
    let a = counted_extent(s, Part::Symbols);
    lemma_part_of_counted(s, k, Part::Symbols);
    if k >= a {
        let t = s.skip(a as int);
        let b = a + counted_extent(t, Part::Lists);
        assert(p.skip(a as int) =~= t.subrange(0, k - a));
        lemma_part_of_counted(t, k - a, Part::Lists);
        if k >= b {
            let u = s.skip(b as int);
            assert(p.skip(b as int) =~= u.subrange(0, k - b));
            lemma_part_of_counted(u, k - b, Part::Frames);
        }
    }
}

/// Whether `t` starts with `p`.
pub open spec fn starts_with(t: Seq<u8>, p: Seq<u8>) -> bool {
    p.len() <= t.len() && t.subrange(0, p.len() as int) == p
}

/// How far what follows the run `part` of an export reaches, as far as `s`
/// tells, where `s` starts behind that run.
pub open spec fn behind_run(s: Seq<u8>, part: Part) -> nat {
    match part {
        Part::Symbols => {
            let lists = counted_extent(s, Part::Lists);
            if lists > s.len() {
                lists
            } else {
                lists + counted_extent(s.skip(lists as int), Part::Frames)
            }
        },
        Part::Lists => counted_extent(s, Part::Frames),
        Part::Frames => 0,
    }
}

/// How far the rest of an export reaches, as far as `s` tells, where `s`
/// starts with the last `n` items of the run `part`.
pub open spec fn from_items(s: Seq<u8>, part: Part, n: nat) -> nat {
    let run = run_extent(s, n, part);
    if run > s.len() {
        run
    } else {
        run + behind_run(s.skip(run as int), part)
    }
}

/// How far the rest of an export reaches, as far as `s` tells, where `s`
/// starts with the count of the run `part`.
pub open spec fn from_count(s: Seq<u8>, part: Part) -> nat {
    if s.len() < 8 {
        8
    } else {
        8 + from_items(s.skip(8), part, le_value(s.subrange(0, 8)))
    }
}

/// How far the rest of an export reaches, as far as `s` tells, where `s`
/// starts in the run `part`: with its last `left` items, or with its count
/// if there is no `left`.
pub open spec fn from_place(s: Seq<u8>, part: Part, left: Option<u64>) -> nat {
    match left {
        None => from_count(s, part),
        Some(n) => from_items(s, part, n as nat),
    }
}

/// An export is the counted run of its symbols and what follows it.
pub proof fn lemma_from_start(s: Seq<u8>)
    ensures
        export_extent(s) == from_count(s, Part::Symbols),
{
    if s.len() >= 8 {
        let run = run_extent(s.skip(8), le_value(s.subrange(0, 8)), Part::Symbols);
        if run <= s.skip(8).len() {
            assert(s.skip(8).skip(run as int) =~= s.skip(8 + run as int));
            let t = s.skip(8 + run as int);
            let lists = counted_extent(t, Part::Lists);
            if lists <= t.len() {
                assert(t.skip(lists as int) =~= s.skip(8 + run as int + lists as int));
            }
        }
    }
}

/// Behind the last item of a run stands the count of the next run, and
/// nothing behind the last frame.
pub proof fn lemma_from_end_of_run(s: Seq<u8>, part: Part)
    ensures
        from_items(s, part, 0) == match part {
            Part::Symbols => from_count(s, Part::Lists),
            Part::Lists => from_count(s, Part::Frames),
            Part::Frames => 0,
        },
{
    assert(s.skip(0) =~= s);
    if s.len() >= 8 && part != Part::Frames {
        let next = if part == Part::Symbols {
            Part::Lists
        } else {
            Part::Frames
        };
        let run = run_extent(s.skip(8), le_value(s.subrange(0, 8)), next);
        if run <= s.skip(8).len() {
            assert(s.skip(8).skip(run as int) =~= s.skip(8 + run as int));
        }
    }
}

/// Behind an item that `s` holds whole stands the rest of its run.
pub proof fn lemma_from_next_item(s: Seq<u8>, part: Part, n: nat)
    requires
        n > 0,
    ensures
        item_extent(s, part) > s.len() ==> from_items(s, part, n) == item_extent(s, part),
        item_extent(s, part) <= s.len() ==> from_items(s, part, n) == item_extent(s, part)
            + from_items(s.skip(item_extent(s, part) as int), part, (n - 1) as nat),
{
    let e = item_extent(s, part);
    if e <= s.len() {
        let rest = run_extent(s.skip(e as int), (n - 1) as nat, part);
        if rest <= s.skip(e as int).len() {
            assert(s.skip(e as int).skip(rest as int) =~= s.skip(e as int + rest as int));
        }
    }
}

/// An item that a reader holds whole is the same item whatever is read
/// behind it.
pub proof fn lemma_item_is_settled(p: Seq<u8>, t: Seq<u8>, part: Part)
    requires
        starts_with(t, p),
        item_extent(p, part) <= p.len(),
    ensures
        item_extent(t, part) == item_extent(p, part),
{
    let k = p.len() as int;
    match part {
        Part::Symbols => {
            assert(p.subrange(0, 8) =~= t.subrange(0, k).subrange(0, 8));
            assert(t.subrange(0, 8) =~= t.subrange(0, k).subrange(0, 8));
            let node = 8 + le_value(p.subrange(0, 8));
            assert(p.skip(node as int + 1)[0] == t.subrange(0, k)[node as int + 1]);
            assert(t.skip(node as int + 1)[0] == t.subrange(0, k)[node as int + 1]);
        },
        Part::Lists => {
            assert(p.subrange(0, 8) =~= t.subrange(0, k).subrange(0, 8));
            assert(t.subrange(0, 8) =~= t.subrange(0, k).subrange(0, 8));
        },
        Part::Frames => {
            assert(p.subrange(1, 9) =~= t.subrange(0, k).subrange(1, 9));
            assert(t.subrange(1, 9) =~= t.subrange(0, k).subrange(1, 9));
        },
    }
}

/// What starts with a sequence starts, behind a place in it, with what it
/// holds behind that place.
pub proof fn lemma_starts_behind(t: Seq<u8>, p: Seq<u8>, at: int)
    requires
        starts_with(t, p),
        0 <= at <= p.len(),
    ensures
        starts_with(t.skip(at), p.skip(at)),
{
    assert(t.skip(at).subrange(0, p.len() - at) =~= t.subrange(0, p.len() as int).skip(at));
}

/// Whether a reader that has read `all` stands in order at `at`, in the
/// run `part`, before its last `left` items or, if there is no `left`,
/// before its count: whatever is read behind `all`, the export reaches as
/// far as its rest reaches from that place.
pub open spec fn place_ok(all: Seq<u8>, at: int, part: Part, left: Option<u64>) -> bool {
    &&& 0 <= at <= all.len()
    &&& forall|t: Seq<u8>| #[trigger]
        starts_with(t, all) ==> export_extent(t) == at + from_place(t.skip(at), part, left)
}

/// The runs that are still to come behind the run `part`.
pub open spec fn runs_behind(part: Part) -> nat {
    match part {
        Part::Symbols => 2,
        Part::Lists => 1,
        Part::Frames => 0,
    }
}

/// A reader that has read nothing stands before the count of the symbols.
pub proof fn lemma_place_at_start()
    ensures
        place_ok(Seq::empty(), 0, Part::Symbols, None),
{
    assert forall|t: Seq<u8>| #[trigger] starts_with(t, Seq::empty()) implies export_extent(t)
        == 0 + from_place(t.skip(0), Part::Symbols, None) by {
        lemma_from_start(t);
        assert(t.skip(0) =~= t);
    }
}

/// A place stays in order when more is read.
pub proof fn lemma_place_stays(
    before: Seq<u8>,
    now: Seq<u8>,
    at: int,
    part: Part,
    left: Option<u64>,
)
    requires
        place_ok(before, at, part, left),
        starts_with(now, before),
    ensures
        place_ok(now, at, part, left),
{
    assert forall|t: Seq<u8>| #[trigger] starts_with(t, now) implies export_extent(t) == at
        + from_place(t.skip(at), part, left) by {
        assert(t.subrange(0, before.len() as int) =~= t.subrange(0, now.len() as int).subrange(
            0,
            before.len() as int,
        ));
        assert(starts_with(t, before));
    }
}

/// From a place that is in order, what was read tells how far the export
/// reaches.
pub proof fn lemma_place_tells(all: Seq<u8>, at: int, part: Part, left: Option<u64>)
    requires
        place_ok(all, at, part, left),
    ensures
        export_extent(all) == at + from_place(all.skip(at), part, left),
{
    assert(all.subrange(0, all.len() as int) =~= all);
    assert(starts_with(all, all));
}

/// Behind a count that was read whole, the reader stands before the items
/// that it counts.
pub proof fn lemma_place_behind_count(all: Seq<u8>, at: int, part: Part, n: u64)
    requires
        place_ok(all, at, part, None),
        at + 8 <= all.len(),
        n == le_value(all.skip(at).subrange(0, 8)),
    ensures
        place_ok(all, at + 8, part, Some(n)),
{
    assert forall|t: Seq<u8>| #[trigger] starts_with(t, all) implies export_extent(t) == at + 8
        + from_place(t.skip(at + 8), part, Some(n)) by {
        lemma_starts_behind(t, all, at);
        let u = t.skip(at);
        assert(u.subrange(0, 8) =~= u.subrange(0, all.len() - at).subrange(0, 8));
        assert(u.skip(8) =~= t.skip(at + 8));
    }
}

/// Behind the last item of the symbols or of the variable lists, the
/// reader stands before the count of the next run.
pub proof fn lemma_place_behind_run(all: Seq<u8>, at: int, part: Part)
    requires
        place_ok(all, at, part, Some(0u64)),
        part != Part::Frames,
    ensures
        place_ok(
            all,
            at,
            if part == Part::Symbols {
                Part::Lists
            } else {
                Part::Frames
            },
            None,
        ),
{
    let next = if part == Part::Symbols {
        Part::Lists
    } else {
        Part::Frames
    };
    assert forall|t: Seq<u8>| #[trigger] starts_with(t, all) implies export_extent(t) == at
        + from_place(t.skip(at), next, None) by {
        lemma_from_end_of_run(t.skip(at), part);
    }
}

/// Behind an item that was read whole, the reader stands before the rest
/// of the run.
pub proof fn lemma_place_behind_item(all: Seq<u8>, at: int, part: Part, n: u64, e: int)
    requires
        place_ok(all, at, part, Some(n)),
        n > 0,
        e == item_extent(all.skip(at), part),
        at + e <= all.len(),
    ensures
        place_ok(all, at + e, part, Some((n - 1) as u64)),
{
    assert forall|t: Seq<u8>| #[trigger] starts_with(t, all) implies export_extent(t) == at + e
        + from_place(t.skip(at + e), part, Some((n - 1) as u64)) by {
        lemma_starts_behind(t, all, at);
        lemma_item_is_settled(all.skip(at), t.skip(at), part);
        lemma_from_next_item(t.skip(at), part, n as nat);
        assert(t.skip(at).skip(e) =~= t.skip(at + e));
    }
}

/// What a reader holds of an export: the bytes that it has read, and how
/// far it has gone through them, so that no item is gone through twice.
pub struct Intake {
    bytes: Vec<u8>,
    at: usize,
    part: Part,
    left: Option<u64>,
}

impl View for Intake {
    type V = Seq<u8>;

    /// The bytes that were read.
    closed spec fn view(&self) -> Seq<u8> {
        self.bytes@
    }
}

impl Intake {
    /// Whether the reader stands in order in what it has read.
    pub closed spec fn wf(&self) -> bool {
        place_ok(self.bytes@, self.at as int, self.part, self.left)
    }

    /// How far the reader still has to go through what it has read.
    pub closed spec fn to_go(&self) -> (nat, nat) {
        ((self.bytes@.len() - self.at) as nat, runs_behind(self.part))
    }

    /// A reader that has read nothing.
    pub fn new() -> (r: Intake)
        ensures
            r.wf(),
            r@ == Seq::<u8>::empty(),
    {
        proof {
            lemma_place_at_start();
        }
        Intake { bytes: Vec::new(), at: 0, part: Part::Symbols, left: None }
    }

    /// The bytes that were read.
    pub fn bytes(&self) -> (r: &[u8])
        ensures
            r@ == self@,
    {
        self.bytes.as_slice()
    }

    /// Takes `more` as what was read next.
    pub fn take(&mut self, more: &[u8])
        requires
            old(self).wf(),
        ensures
            final(self).wf(),
            final(self)@ == old(self)@ + more@,
    {
        let ghost before = self.bytes@;
        append(&mut self.bytes, more);
        proof {
            assert(self.bytes@.subrange(0, before.len() as int) =~= before);
            lemma_place_stays(before, self.bytes@, self.at as int, self.part, self.left);
        }
    }

    /// Goes one step through what was read: over a count, over an item, or
    /// from one run to the next. Gives the number of bytes that are to be
    /// read next where the step cannot be made, or is the last.
    fn step(&mut self) -> (r: Option<Option<usize>>)
        requires
            old(self).wf(),
        ensures
            final(self).wf(),
            final(self)@ == old(self)@,
            r matches Some(answer) ==> answer == export_missing(old(self)@),
            r is None ==> final(self).to_go().0 < old(self).to_go().0 || (final(self).to_go().0
                == old(self).to_go().0 && final(self).to_go().1 < old(self).to_go().1),
    {
        let ghost all = self.bytes@;
        let ghost at = self.at as int;
        let tail = slice_subrange(self.bytes.as_slice(), self.at, self.bytes.len());
        proof {
            assert(tail@ =~= all.skip(at));
            lemma_place_tells(all, at, self.part, self.left);
        }
        match self.left {
            None => {
                if tail.len() < 8 {
                    return Some(shortfall(self.at.checked_add(8), self.bytes.as_slice()));
                }
                let (n, _) = get_u64_le(tail);
                proof {
                    lemma_place_behind_count(all, at, self.part, n);
                }
                self.at = self.at + 8;
                self.left = Some(n);
                None
            },
            Some(n) => {
                if n == 0 {
                    proof {
                        lemma_from_end_of_run(all.skip(at), self.part);
                        if self.part != Part::Frames {
                            lemma_place_behind_run(all, at, self.part);
                        }
                    }
                    match self.part {
                        Part::Symbols => {
                            self.part = Part::Lists;
                            self.left = None;
                            None
                        },
                        Part::Lists => {
                            self.part = Part::Frames;
                            self.left = None;
                            None
                        },
                        Part::Frames => Some(Some(0)),
                    }
                } else {
                    proof {
                        lemma_from_next_item(all.skip(at), self.part, n as nat);
                    }
                    match item_reach(tail, self.part) {
                        None => Some(None),
                        Some(e) => {
                            if e > tail.len() {
                                return Some(
                                    shortfall(self.at.checked_add(e), self.bytes.as_slice()),
                                );
                            }
                            proof {
                                lemma_place_behind_item(all, at, self.part, n, e as int);
                            }
                            self.at = self.at + e;
                            self.left = Some((n - 1) as u64);
                            None
                        },
                    }
                }
            },
        }
    }

    /// The number of bytes that are to be read next, before more can be
    /// told of the export: none if it was read whole. The reader goes on
    /// through what was read from the place where it stood.
    pub fn missing(&mut self) -> (r: Option<usize>)
        requires
            old(self).wf(),
        ensures
            final(self).wf(),
            final(self)@ == old(self)@,
            r == export_missing(old(self)@),
    {
        loop
            invariant
                self.wf(),
                self@ == old(self)@,
            decreases self.to_go().0, self.to_go().1,
        {
            match self.step() {
                Some(answer) => {
                    return answer;
                },
                None => {},
            }
        }
    }
}

} // verus!
