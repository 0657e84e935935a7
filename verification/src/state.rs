//! The symbol table: the names and attributes of the symbols, and the lists
//! of variables that rational functions are written over.
//!
//! A symbol's id is its place in the table, and no two symbols of a table
//! have the same name.

use crate::buffer::{
    advance, append, get_u32_le, get_u64_le, le_bytes, le_value, lemma_le_bytes_len,
    lemma_le_value_of_bytes, lemma_radix_values, put_u32_le, same_bytes, write_u64_le,
};
use crate::builder::Var;
use crate::layout::{first_len, tag_of, VAR_ID};
use crate::node::{lemma_var_node, var_node};
use crate::stream::{node_size, ReadError};
use crate::symbol::{Symbol, var_symbol};
use crate::view::{AtomView, ListSlice};
use vstd::prelude::*;
use vstd::slice::slice_subrange;

verus! {

/// A symbol of a table as a mathematical value: its name and what the table
/// knows of it.
pub struct SymbolData {
    pub name: Seq<u8>,
    pub symbol: Symbol,
}

/// A symbol table as a mathematical value.
pub struct StateModel {
    pub symbols: Seq<SymbolData>,
    pub lists: Seq<Seq<u32>>,
}

/// A symbol of a table.
#[derive(Debug, Clone, PartialEq, Eq)]
pub struct SymbolEntry {
    name: Vec<u8>,
    symbol: Symbol,
}

/// A symbol table.
#[derive(Debug, Clone, PartialEq, Eq)]
pub struct State {
    symbols: Vec<SymbolEntry>,
    lists: Vec<Vec<u32>>,
}

/// Why a symbol could not be had from a table.
#[derive(Debug, Clone, Copy, PartialEq, Eq, Hash, Structural)]
pub enum StateError {
    /// The name is taken by a symbol with other attributes.
    Conflict,
    /// The table holds as many symbols as there are ids.
    Full,
}

impl View for SymbolEntry {
    type V = SymbolData;

    closed spec fn view(&self) -> SymbolData {
        SymbolData { name: self.name@, symbol: self.symbol }
    }
}

impl View for State {
    type V = StateModel;

    closed spec fn view(&self) -> StateModel {
        StateModel {
            symbols: Seq::new(self.symbols@.len(), |i: int| self.symbols@[i]@),
            lists: Seq::new(self.lists@.len(), |i: int| self.lists@[i]@),
        }
    }
}

/// Whether the symbols `a` and `b` have the same attributes, whatever
/// their ids.
pub open spec fn same_attributes(a: Symbol, b: Symbol) -> bool {
    &&& a.wildcard_level == b.wildcard_level
    &&& a.is_symmetric == b.is_symmetric
    &&& a.is_antisymmetric == b.is_antisymmetric
    &&& a.is_cyclesymmetric == b.is_cyclesymmetric
    &&& a.is_linear == b.is_linear
}

/// The symbol with the id `id` and the attributes of `symbol`.
pub open spec fn with_id(symbol: Symbol, id: u32) -> Symbol {
    Symbol {
        id,
        wildcard_level: symbol.wildcard_level,
        is_symmetric: symbol.is_symmetric,
        is_antisymmetric: symbol.is_antisymmetric,
        is_cyclesymmetric: symbol.is_cyclesymmetric,
        is_linear: symbol.is_linear,
    }
}

/// Whether a symbol of the table `m` has the name `name`.
pub open spec fn has_name(m: StateModel, name: Seq<u8>) -> bool {
    exists|i: int| 0 <= i < m.symbols.len() && (#[trigger] m.symbols[i]).name == name
}

/// Whether the table `m` is in order: every symbol has its place as its
/// id, its attributes are in canonical form, no two symbols have the same
/// name, and no variable list is there twice.
pub open spec fn model_ok(m: StateModel) -> bool {
    &&& m.symbols.len() <= u32::MAX
    &&& forall|i: int|
        0 <= i < m.symbols.len() ==> (#[trigger] m.symbols[i]).symbol.id == i && m.symbols[i].symbol
            == m.symbols[i].symbol.canonical()
    &&& forall|i: int, j: int|
        0 <= i < j < m.symbols.len() ==> (#[trigger] m.symbols[i]).name != (
        #[trigger] m.symbols[j]).name
    &&& forall|i: int, j: int|
        0 <= i < j < m.lists.len() ==> (#[trigger] m.lists[i]) != (#[trigger] m.lists[j])
}

/// Whether `a` and `b` hold the same ids in the same order.
pub fn same_ids(a: &[u32], b: &[u32]) -> (r: bool)
    ensures
        r == (a@ == b@),
{
    if a.len() != b.len() {
        return false;
    }
    let mut i: usize = 0;
    while i < a.len()
        invariant
            i <= a@.len(),
            a@.len() == b@.len(),
            forall|j: int| 0 <= j < i ==> a@[j] == b@[j],
        decreases a@.len() - i,
    {
        if a[i] != b[i] {
            return false;
        }
        i += 1;
    }
    assert(a@ =~= b@);
    true
}

/// The same symbol, in canonical form, with the id `id`.
fn canonical_with_id(symbol: Symbol, id: u32) -> (r: Symbol)
    ensures
        r == with_id(symbol.canonical(), id),
        r == r.canonical(),
{
    let cyclesymmetric = symbol.is_cyclesymmetric || (symbol.is_symmetric
        && symbol.is_antisymmetric);
    Symbol::raw_fn(
        id,
        if symbol.wildcard_level > 3 {
            3
        } else {
            symbol.wildcard_level
        },
        symbol.is_symmetric && !cyclesymmetric,
        symbol.is_antisymmetric && !cyclesymmetric,
        cyclesymmetric,
        symbol.is_linear,
    )
}

impl State {
    /// Whether the table is in order.
    pub open spec fn wf(&self) -> bool {
        model_ok(self@)
    }

    /// The table without symbols.
    pub fn new() -> (r: State)
        ensures
            r.wf(),
            r@.symbols.len() == 0,
            r@.lists.len() == 0,
    {
        State { symbols: Vec::new(), lists: Vec::new() }
    }

    /// The number of symbols.
    pub fn len(&self) -> (r: usize)
        ensures
            r == self@.symbols.len(),
    {
        self.symbols.len()
    }

    /// The symbol at the place `i`.
    pub(crate) fn symbols_at(&self, i: usize) -> (r: Symbol)
        requires
            i < self@.symbols.len(),
        ensures
            r == self@.symbols[i as int].symbol,
    {
        self.symbols[i].symbol
    }

    /// The number of variable lists.
    pub fn lists_len(&self) -> (r: usize)
        ensures
            r == self@.lists.len(),
    {
        self.lists.len()
    }

    /// The symbol with the id `id`, if the table has one.
    pub fn get_symbol(&self, id: u32) -> (r: Option<Symbol>)
        ensures
            r is Some == (id < self@.symbols.len()),
            r is Some ==> r.unwrap() == self@.symbols[id as int].symbol,
    {
        if (id as usize) < self.symbols.len() {
            Some(self.symbols[id as usize].symbol)
        } else {
            None
        }
    }

    /// The name of the symbol with the id `id`, if the table has one.
    pub fn get_name(&self, id: u32) -> (r: Option<&[u8]>)
        ensures
            r is Some == (id < self@.symbols.len()),
            r is Some ==> r.unwrap()@ == self@.symbols[id as int].name,
    {
        if (id as usize) < self.symbols.len() {
            Some(self.symbols[id as usize].name.as_slice())
        } else {
            None
        }
    }

    /// The variable list with the index `index`, if the table has one.
    pub fn get_variables_list(&self, index: u64) -> (r: Option<&[u32]>)
        ensures
            r is Some == (index < self@.lists.len()),
            r is Some ==> r.unwrap()@ == self@.lists[index as int],
    {
        if index < self.lists.len() as u64 {
            Some(self.lists[index as usize].as_slice())
        } else {
            None
        }
    }

    /// The place of the symbol with the name `name`, if the table has one.
    pub fn find(&self, name: &[u8]) -> (r: Option<usize>)
        ensures
            r is Some == has_name(self@, name@),
            r is Some ==> r.unwrap() < self@.symbols.len() && self@.symbols[r.unwrap() as int].name
                == name@,
    {
        let mut i: usize = 0;
        while i < self.symbols.len()
            invariant
                i <= self.symbols@.len(),
                forall|j: int| 0 <= j < i ==> (#[trigger] self@.symbols[j]).name != name@,
            decreases self.symbols@.len() - i,
        {
            if same_bytes(self.symbols[i].name.as_slice(), name) {
                assert(self@.symbols[i as int].name == name@);
                return Some(i);
            }
            i += 1;
        }
        None
    }

    /// The place of the variable list `list`, if the table has it.
    pub fn find_list(&self, list: &[u32]) -> (r: Option<usize>)
        ensures
            r is Some == self@.lists.contains(list@),
            r is Some ==> r.unwrap() < self@.lists.len() && self@.lists[r.unwrap() as int] == list@,
    {
        let mut i: usize = 0;
        while i < self.lists.len()
            invariant
                i <= self.lists@.len(),
                forall|j: int| 0 <= j < i ==> (#[trigger] self@.lists[j]) != list@,
            decreases self.lists@.len() - i,
        {
            if same_ids(self.lists[i].as_slice(), list) {
                assert(self@.lists[i as int] == list@);
                return Some(i);
            }
            i += 1;
        }
        None
    }

    /// Appends the symbol with the name `name` and the attributes of
    /// `symbol`, in canonical form; its id is its place.
    pub fn insert(&mut self, name: Vec<u8>, symbol: Symbol) -> (r: Result<Symbol, StateError>)
        requires
            old(self).wf(),
            !has_name(old(self)@, name@),
        ensures
            final(self).wf(),
            final(self)@.lists == old(self)@.lists,
            match r {
                Ok(s) => old(self)@.symbols.len() < u32::MAX && s == with_id(
                    symbol.canonical(),
                    old(self)@.symbols.len() as u32,
                ) && final(self)@.symbols == old(self)@.symbols.push(
                    SymbolData { name: name@, symbol: s },
                ),
                Err(e) => e == StateError::Full && old(self)@.symbols.len() == u32::MAX
                    && final(self)@ == old(self)@,
            },
    {
        if self.symbols.len() >= 0xffff_ffff {
            return Err(StateError::Full);
        }
        let s = canonical_with_id(symbol, self.symbols.len() as u32);
        let ghost data = SymbolData { name: name@, symbol: s };
        self.symbols.push(SymbolEntry { name, symbol: s });
        proof {
            assert(self@.symbols =~= old(self)@.symbols.push(data));
            assert(self@.lists =~= old(self)@.lists);
        }
        Ok(s)
    }

    /// The symbol with the name `name`, which is appended if the table has
    /// none of that name. A symbol of that name with other attributes than
    /// those of `symbol`, in canonical form, is a conflict.
    pub fn get_symbol_with_attributes(&mut self, name: &[u8], symbol: Symbol) -> (r: Result<
        Symbol,
        StateError,
    >)
        requires
            old(self).wf(),
        ensures
            final(self).wf(),
            final(self)@.lists == old(self)@.lists,
            match r {
                Ok(s) => s.id < final(self)@.symbols.len() && final(self)@.symbols[s.id as int]
                    == (SymbolData { name: name@, symbol: s }) && same_attributes(
                    s,
                    symbol.canonical(),
                ) && (if has_name(old(self)@, name@) {
                    final(self)@ == old(self)@
                } else {
                    final(self)@.symbols == old(self)@.symbols.push(
                        SymbolData { name: name@, symbol: s },
                    )
                }),
                Err(e) => final(self)@ == old(self)@ && (e == StateError::Conflict
                    ==> has_name(old(self)@, name@)) && (e == StateError::Full ==> !has_name(
                    old(self)@,
                    name@,
                ) && old(self)@.symbols.len() == u32::MAX),
            },
    {
        match self.find(name) {
            Some(i) => {
                let known = self.symbols[i].symbol;
                let wanted = canonical_with_id(symbol, known.id);
                if known == wanted {
                    Ok(known)
                } else {
                    Err(StateError::Conflict)
                }
            },
            None => {
                let mut copy: Vec<u8> = Vec::new();
                crate::buffer::append(&mut copy, name);
                assert(copy@ =~= name@);
                self.insert(copy, symbol)
            },
        }
    }

    /// Appends the variable list `list`.
    fn push_list(&mut self, list: Vec<u32>)
        requires
            old(self).wf(),
            !old(self)@.lists.contains(list@),
        ensures
            final(self).wf(),
            final(self)@.symbols == old(self)@.symbols,
            final(self)@.lists == old(self)@.lists.push(list@),
    {
        let ghost ids = list@;
        self.lists.push(list);
        proof {
            assert(self@.lists =~= old(self)@.lists.push(ids));
            assert(self@.symbols =~= old(self)@.symbols);
        }
    }

    /// The index of the variable list `list`, which is appended if the
    /// table does not have it.
    pub fn add_variables_list(&mut self, list: Vec<u32>) -> (r: u64)
        requires
            old(self).wf(),
        ensures
            final(self).wf(),
            final(self)@.symbols == old(self)@.symbols,
            r < final(self)@.lists.len(),
            final(self)@.lists[r as int] == list@,
            if old(self)@.lists.contains(list@) {
                final(self)@ == old(self)@
            } else {
                final(self)@.lists == old(self)@.lists.push(list@) && r == old(self)@.lists.len()
            },
    {
        match self.find_list(list.as_slice()) {
            Some(i) => i as u64,
            None => {
                let index = self.lists.len() as u64;
                self.push_list(list);
                index
            },
        }
    }
}

/// The bytes of a symbol in the section of a table: the length of the name
/// as eight little-endian bytes, the name, and the variable of the symbol.
pub open spec fn entry_bytes(d: SymbolData) -> Seq<u8> {
    le_bytes(d.name.len(), 8) + d.name + var_node(d.symbol)
}

/// The bytes of symbols, one after the other.
pub open spec fn entries_bytes(symbols: Seq<SymbolData>) -> Seq<u8>
    decreases symbols.len(),
{
    if symbols.len() == 0 {
        Seq::empty()
    } else {
        entry_bytes(symbols[0]) + entries_bytes(symbols.skip(1))
    }
}

/// The bytes of ids, four little-endian bytes each.
pub open spec fn ids_bytes(ids: Seq<u32>) -> Seq<u8>
    decreases ids.len(),
{
    if ids.len() == 0 {
        Seq::empty()
    } else {
        le_bytes(ids[0] as nat, 4) + ids_bytes(ids.skip(1))
    }
}

/// The bytes of a variable list: the number of ids as eight little-endian
/// bytes, and the ids.
pub open spec fn list_bytes(ids: Seq<u32>) -> Seq<u8> {
    le_bytes(ids.len(), 8) + ids_bytes(ids)
}

/// The bytes of variable lists, one after the other.
pub open spec fn lists_bytes(lists: Seq<Seq<u32>>) -> Seq<u8>
    decreases lists.len(),
{
    if lists.len() == 0 {
        Seq::empty()
    } else {
        list_bytes(lists[0]) + lists_bytes(lists.skip(1))
    }
}

/// The section of a table in an export: the number of symbols, the
/// symbols, the number of variable lists, and the lists.
pub open spec fn section(m: StateModel) -> Seq<u8> {
    le_bytes(m.symbols.len(), 8) + entries_bytes(m.symbols) + le_bytes(m.lists.len(), 8)
        + lists_bytes(m.lists)
}

/// The symbol that starts `s`, which is to have the id `id`, and the number
/// of its bytes; or why there is none.
pub open spec fn entry_parsed(s: Seq<u8>, id: nat) -> Result<(SymbolData, nat), ReadError> {
    if s.len() < 8 || s.len() - 8 < le_value(s.subrange(0, 8)) {
        Err(ReadError::Truncated)
    } else {
        let n = le_value(s.subrange(0, 8));
        let rest = s.skip(8 + n as int);
        match first_len(rest) {
            Some(k) => {
                let node = rest.subrange(0, k as int);
                if tag_of(rest[0]) == VAR_ID && var_symbol(node).id == id {
                    Ok(
                        (
                            SymbolData { name: s.subrange(8, 8 + n as int), symbol: var_symbol(node) },
                            8 + n + k,
                        ),
                    )
                } else {
                    Err(ReadError::Malformed)
                }
            },
            None => Err(ReadError::Malformed),
        }
    }
}

/// Whether one of `symbols` has the name `name`.
pub open spec fn name_among(symbols: Seq<SymbolData>, name: Seq<u8>) -> bool {
    exists|i: int| 0 <= i < symbols.len() && (#[trigger] symbols[i]).name == name
}

/// The symbols `acc` followed by the `count` symbols that start `s`, and
/// the number of bytes of those; or why there are none. No two symbols may
/// have the same name, and there are no more ids than 32 bits hold.
pub open spec fn entries_parsed(s: Seq<u8>, count: nat, acc: Seq<SymbolData>) -> Result<
    (Seq<SymbolData>, nat),
    ReadError,
>
    decreases count,
{
    if count == 0 {
        Ok((acc, 0))
    } else {
        match entry_parsed(s, acc.len()) {
            Ok((d, k)) => if name_among(acc, d.name) || acc.len() >= u32::MAX || k > s.len() {
                Err(ReadError::Malformed)
            } else {
                match entries_parsed(s.skip(k as int), (count - 1) as nat, acc.push(d)) {
                    Ok((all, used)) => Ok((all, k + used)),
                    Err(e) => Err(e),
                }
            },
            Err(e) => Err(e),
        }
    }
}

/// The `n` ids that start `s`.
pub open spec fn ids_parsed(s: Seq<u8>, n: nat) -> Seq<u32> {
    Seq::new(n, |i: int| le_value(s.subrange(4 * i, 4 * i + 4)) as u32)
}

/// The variable list that starts `s`, and the number of its bytes; or why
/// there is none.
pub open spec fn list_parsed(s: Seq<u8>) -> Result<(Seq<u32>, nat), ReadError> {
    if s.len() < 8 || s.len() - 8 < 4 * le_value(s.subrange(0, 8)) {
        Err(ReadError::Truncated)
    } else {
        let n = le_value(s.subrange(0, 8));
        Ok((ids_parsed(s.skip(8), n), 8 + 4 * n))
    }
}

/// The lists `acc` followed by the `count` variable lists that start `s`,
/// and the number of bytes of those; or why there are none. No list may be
/// there twice.
pub open spec fn lists_parsed(s: Seq<u8>, count: nat, acc: Seq<Seq<u32>>) -> Result<
    (Seq<Seq<u32>>, nat),
    ReadError,
>
    decreases count,
{
    if count == 0 {
        Ok((acc, 0))
    } else {
        match list_parsed(s) {
            Ok((l, k)) => if k > s.len() || acc.contains(l) {
                Err(ReadError::Malformed)
            } else {
                match lists_parsed(s.skip(k as int), (count - 1) as nat, acc.push(l)) {
                    Ok((all, used)) => Ok((all, k + used)),
                    Err(e) => Err(e),
                }
            },
            Err(e) => Err(e),
        }
    }
}

/// The table whose section starts `s`, and the number of bytes of the
/// section; or why there is none.
pub open spec fn section_parsed(s: Seq<u8>) -> Result<(StateModel, nat), ReadError> {
    if s.len() < 8 {
        Err(ReadError::Truncated)
    } else {
        match entries_parsed(s.skip(8), le_value(s.subrange(0, 8)), Seq::empty()) {
            Err(e) => Err(e),
            Ok((symbols, k)) => {
                let t = s.skip(8 + k as int);
                if 8 + k > s.len() {
                    Err(ReadError::Malformed)
                } else if t.len() < 8 {
                    Err(ReadError::Truncated)
                } else {
                    match lists_parsed(t.skip(8), le_value(t.subrange(0, 8)), Seq::empty()) {
                        Err(e) => Err(e),
                        Ok((lists, j)) => Ok((StateModel { symbols, lists }, 16 + k + j)),
                    }
                }
            },
        }
    }
}

/// Reads the symbol that starts `source`, which is to have the id `id`.
fn parse_entry<'a>(source: &'a [u8], id: usize) -> (r: Result<(Vec<u8>, Symbol, &'a [u8]), ReadError>)
    ensures
        match r {
            Ok((name, symbol, rest)) => entry_parsed(source@, id as nat) is Ok && entry_parsed(
                source@,
                id as nat,
            ).unwrap().0 == (SymbolData { name: name@, symbol }) && entry_parsed(
                source@,
                id as nat,
            ).unwrap().1 <= source@.len() && rest@ == source@.skip(
                entry_parsed(source@, id as nat).unwrap().1 as int,
            ) && symbol == symbol.canonical(),
            Err(e) => entry_parsed(source@, id as nat) == Err::<(SymbolData, nat), ReadError>(e),
        },
{
    if source.len() < 8 {
        return Err(ReadError::Truncated);
    }
    let (n, body) = get_u64_le(source);
    if n > body.len() as u64 {
        return Err(ReadError::Truncated);
    }
    let n = n as usize;
    let mut name: Vec<u8> = Vec::new();
    append(&mut name, slice_subrange(body, 0, n));
    let rest = advance(body, n);
    proof {
        assert(name@ =~= source@.subrange(8, 8 + n));
        assert(rest@ =~= source@.skip(8 + n));
    }
    match node_size(rest) {
        None => Err(ReadError::Malformed),
        Some(k) => {
            proof {
                crate::layout::lemma_len_bounds(rest@, 0);
            }
            let (view, behind) = ListSlice::get_entry(rest);
            match view {
                AtomView::Var(v) => {
                    let symbol = v.get_symbol();
                    if symbol.get_id() as usize != id {
                        return Err(ReadError::Malformed);
                    }
                    proof {
                        lemma_read_symbol_is_canonical(v@);
                        assert(behind@ =~= source@.skip(8 + n + k));
                    }
                    Ok((name, symbol, behind))
                },
                _ => Err(ReadError::Malformed),
            }
        },
    }
}

/// The symbol that is read from a variable is in canonical form.
pub proof fn lemma_read_symbol_is_canonical(s: Seq<u8>)
    requires
        s.len() > 0,
    ensures
        var_symbol(s) == var_symbol(s).canonical(),
{
    let f = s[0];
    assert((f & 0x20 == 0x20) && (f & 0x80 == 0x80) ==> f & 0xA0 == 0xA0) by (bit_vector);
    assert(f & 0x18 == 0x08 || f & 0x18 == 0x10 || f & 0x18 == 0x18 || f & 0x18 == 0)
        by (bit_vector);
}

/// Reads the variable list that starts `source`.
fn parse_list<'a>(source: &'a [u8]) -> (r: Result<(Vec<u32>, &'a [u8]), ReadError>)
    ensures
        match r {
            Ok((ids, rest)) => list_parsed(source@) is Ok && list_parsed(source@).unwrap().0
                == ids@ && list_parsed(source@).unwrap().1 <= source@.len() && rest@
                == source@.skip(list_parsed(source@).unwrap().1 as int),
            Err(e) => list_parsed(source@) == Err::<(Seq<u32>, nat), ReadError>(e),
        },
{
    if source.len() < 8 {
        return Err(ReadError::Truncated);
    }
    let (n, body) = get_u64_le(source);
    if n > (body.len() / 4) as u64 {
        return Err(ReadError::Truncated);
    }
    let n = n as usize;
    let mut ids: Vec<u32> = Vec::new();
    let mut cur = body;
    let mut i: usize = 0;
    proof {
        assert(body@ =~= source@.skip(8));
        assert(cur@ =~= body@.skip(0));
    }
    while i < n
        invariant
            i <= n,
            4 * n <= body@.len(),
            cur@ == body@.skip(4 * i),
            ids@ == ids_parsed(body@, i as nat),
        decreases n - i,
    {
        let (id, next) = get_u32_le(cur);
        proof {
            assert(cur@.subrange(0, 4) =~= body@.subrange(4 * i, 4 * i + 4));
            assert(next@ =~= body@.skip(4 * (i + 1)));
            assert(ids@.push(id) =~= ids_parsed(body@, (i + 1) as nat));
        }
        ids.push(id);
        cur = next;
        i += 1;
    }
    proof {
        assert(cur@ =~= source@.skip(8 + 4 * n));
    }
    Ok((ids, cur))
}

/// The bytes of symbols, with one more at the end.
pub proof fn lemma_entries_bytes_push(symbols: Seq<SymbolData>, d: SymbolData)
    ensures
        entries_bytes(symbols.push(d)) == entries_bytes(symbols) + entry_bytes(d),
    decreases symbols.len(),
{
    if symbols.len() == 0 {
        assert(symbols.push(d).skip(1) =~= Seq::<SymbolData>::empty());
        assert(entries_bytes(Seq::<SymbolData>::empty()) =~= Seq::<u8>::empty());
        assert(symbols.push(d)[0] == d);
        assert(entries_bytes(symbols.push(d)) =~= entry_bytes(d));
        assert(entries_bytes(symbols) + entry_bytes(d) =~= entry_bytes(d));
    } else {
        assert(symbols.push(d).skip(1) =~= symbols.skip(1).push(d));
        lemma_entries_bytes_push(symbols.skip(1), d);
        assert(entries_bytes(symbols.push(d)) =~= entries_bytes(symbols) + entry_bytes(d));
    }
}

/// The bytes of ids, with one more at the end.
pub proof fn lemma_ids_bytes_push(ids: Seq<u32>, id: u32)
    ensures
        ids_bytes(ids.push(id)) == ids_bytes(ids) + le_bytes(id as nat, 4),
    decreases ids.len(),
{
    if ids.len() == 0 {
        assert(ids.push(id).skip(1) =~= Seq::<u32>::empty());
        assert(ids_bytes(Seq::<u32>::empty()) =~= Seq::<u8>::empty());
        assert(ids.push(id)[0] == id);
        assert(ids_bytes(ids.push(id)) =~= le_bytes(id as nat, 4));
        assert(ids_bytes(ids) + le_bytes(id as nat, 4) =~= le_bytes(id as nat, 4));
    } else {
        assert(ids.push(id).skip(1) =~= ids.skip(1).push(id));
        lemma_ids_bytes_push(ids.skip(1), id);
        assert(ids_bytes(ids.push(id)) =~= ids_bytes(ids) + le_bytes(id as nat, 4));
    }
}

/// The bytes of variable lists, with one more at the end.
pub proof fn lemma_lists_bytes_push(lists: Seq<Seq<u32>>, l: Seq<u32>)
    ensures
        lists_bytes(lists.push(l)) == lists_bytes(lists) + list_bytes(l),
    decreases lists.len(),
{
    if lists.len() == 0 {
        assert(lists.push(l).skip(1) =~= Seq::<Seq<u32>>::empty());
        assert(lists_bytes(Seq::<Seq<u32>>::empty()) =~= Seq::<u8>::empty());
        assert(lists.push(l)[0] == l);
        assert(lists_bytes(lists.push(l)) =~= list_bytes(l));
        assert(lists_bytes(lists) + list_bytes(l) =~= list_bytes(l));
    } else {
        assert(lists.push(l).skip(1) =~= lists.skip(1).push(l));
        lemma_lists_bytes_push(lists.skip(1), l);
        assert(lists_bytes(lists.push(l)) =~= lists_bytes(lists) + list_bytes(l));
    }
}

/// Appends the bytes of the variable list `ids` to `dest`.
fn write_list(ids: &[u32], dest: &mut Vec<u8>)
    ensures
        final(dest)@ == old(dest)@ + list_bytes(ids@),
{
    write_u64_le(dest, ids.len() as u64);
    let mut i: usize = 0;
    proof {
        assert(ids@.subrange(0, 0) =~= Seq::<u32>::empty());
        assert(dest@ =~= old(dest)@ + le_bytes(ids@.len(), 8) + ids_bytes(ids@.subrange(0, 0)));
    }
    while i < ids.len()
        invariant
            i <= ids@.len(),
            dest@ == old(dest)@ + le_bytes(ids@.len(), 8) + ids_bytes(ids@.subrange(0, i as int)),
        decreases ids@.len() - i,
    {
        let ghost before = dest@;
        put_u32_le(dest, ids[i]);
        proof {
            lemma_ids_bytes_push(ids@.subrange(0, i as int), ids@[i as int]);
            assert(ids@.subrange(0, i as int).push(ids@[i as int]) =~= ids@.subrange(0, i + 1));
            assert(dest@ =~= old(dest)@ + le_bytes(ids@.len(), 8) + ids_bytes(
                ids@.subrange(0, i + 1),
            ));
        }
        i += 1;
    }
    proof {
        assert(ids@.subrange(0, ids@.len() as int) =~= ids@);
        assert(dest@ =~= old(dest)@ + list_bytes(ids@));
    }
}

impl State {
    /// Appends the section of the table to `dest`.
    pub fn export(&self, dest: &mut Vec<u8>)
        ensures
            final(dest)@ == old(dest)@ + section(self@),
    {
        let ghost m = self@;
        write_u64_le(dest, self.symbols.len() as u64);
        let mut i: usize = 0;
        proof {
            assert(m.symbols.subrange(0, 0) =~= Seq::<SymbolData>::empty());
            assert(dest@ =~= old(dest)@ + le_bytes(m.symbols.len(), 8) + entries_bytes(
                m.symbols.subrange(0, 0),
            ));
        }
        while i < self.symbols.len()
            invariant
                i <= m.symbols.len(),
                m == self@,
                m.symbols.len() == self.symbols@.len(),
                dest@ == old(dest)@ + le_bytes(m.symbols.len(), 8) + entries_bytes(
                    m.symbols.subrange(0, i as int),
                ),
            decreases m.symbols.len() - i,
        {
            let entry = &self.symbols[i];
            write_u64_le(dest, entry.name.len() as u64);
            append(dest, entry.name.as_slice());
            let v = Var::new(entry.symbol);
            append(dest, v.get_data());
            proof {
                let d = m.symbols[i as int];
                assert(d == entry@);
                lemma_entries_bytes_push(m.symbols.subrange(0, i as int), d);
                assert(m.symbols.subrange(0, i as int).push(d) =~= m.symbols.subrange(0, i + 1));
                assert(dest@ =~= old(dest)@ + le_bytes(m.symbols.len(), 8) + entries_bytes(
                    m.symbols.subrange(0, i + 1),
                ));
            }
            i += 1;
        }
        let ghost mid = dest@;
        proof {
            assert(m.symbols.subrange(0, m.symbols.len() as int) =~= m.symbols);
        }
        write_u64_le(dest, self.lists.len() as u64);
        let mut j: usize = 0;
        proof {
            assert(m.lists.subrange(0, 0) =~= Seq::<Seq<u32>>::empty());
            assert(dest@ =~= mid + le_bytes(m.lists.len(), 8) + lists_bytes(
                m.lists.subrange(0, 0),
            ));
        }
        while j < self.lists.len()
            invariant
                j <= m.lists.len(),
                m == self@,
                m.lists.len() == self.lists@.len(),
                dest@ == mid + le_bytes(m.lists.len(), 8) + lists_bytes(
                    m.lists.subrange(0, j as int),
                ),
            decreases m.lists.len() - j,
        {
            write_list(self.lists[j].as_slice(), dest);
            proof {
                let l = m.lists[j as int];
                assert(l == self.lists@[j as int]@);
                lemma_lists_bytes_push(m.lists.subrange(0, j as int), l);
                assert(m.lists.subrange(0, j as int).push(l) =~= m.lists.subrange(0, j + 1));
                assert(dest@ =~= mid + le_bytes(m.lists.len(), 8) + lists_bytes(
                    m.lists.subrange(0, j + 1),
                ));
            }
            j += 1;
        }
        proof {
            assert(m.lists.subrange(0, m.lists.len() as int) =~= m.lists);
            assert(dest@ =~= old(dest)@ + section(m));
        }
    }

    /// Reads the section of a table from the start of `source`; gives the
    /// table and the slice behind the section.
    pub fn parse<'a>(source: &'a [u8]) -> (r: Result<(State, &'a [u8]), ReadError>)
        ensures
            match r {
                Ok((state, rest)) => state.wf() && section_parsed(source@) is Ok && section_parsed(
                    source@,
                ).unwrap().0 == state@ && section_parsed(source@).unwrap().1 <= source@.len()
                    && rest@ == source@.skip(section_parsed(source@).unwrap().1 as int),
                Err(e) => section_parsed(source@) == Err::<(StateModel, nat), ReadError>(e),
            },
    {
        if source.len() < 8 {
            return Err(ReadError::Truncated);
        }
        let (count, body) = get_u64_le(source);
        assert(body@ =~= source@.skip(8));
        let mut state = State::new();
        let cur = match parse_entries(body, count, &mut state) {
            Err(e) => {
                return Err(e);
            },
            Ok(cur) => cur,
        };
        let ghost k = entries_parsed(body@, count as nat, Seq::empty()).unwrap().1;
        assert(cur@ =~= source@.skip((8 + k) as int));
        if cur.len() < 8 {
            return Err(ReadError::Truncated);
        }
        let (count, tail) = get_u64_le(cur);
        assert(tail@ =~= cur@.skip(8));
        match parse_lists(tail, count, &mut state) {
            Err(e) => Err(e),
            Ok(rest) => {
                proof {
                    let j = lists_parsed(tail@, count as nat, Seq::empty()).unwrap().1;
                    assert(rest@ =~= source@.skip((16 + k + j) as int));
                    assert(state@ == (StateModel {
                        symbols: state@.symbols,
                        lists: state@.lists,
                    }));
                }
                Ok((state, rest))
            },
        }
    }
}

/// Reads `count` symbols from the start of `source` into the table
/// `state`, which holds none yet.
fn parse_entries<'a>(source: &'a [u8], count: u64, state: &mut State) -> (r: Result<
    &'a [u8],
    ReadError,
>)
    requires
        old(state).wf(),
        old(state)@.symbols.len() == 0,
        old(state)@.lists.len() == 0,
    ensures
        final(state).wf(),
        final(state)@.lists.len() == 0,
        match r {
            Ok(rest) => entries_parsed(source@, count as nat, Seq::empty()) is Ok
                && entries_parsed(source@, count as nat, Seq::empty()).unwrap().0
                == final(state)@.symbols && entries_parsed(source@, count as nat, Seq::empty()).unwrap().1
                <= source@.len() && rest@ == source@.skip(
                entries_parsed(source@, count as nat, Seq::empty()).unwrap().1 as int,
            ),
            Err(e) => entries_parsed(source@, count as nat, Seq::empty()) == Err::<
                (Seq<SymbolData>, nat),
                ReadError,
            >(e),
        },
{
    let ghost goal = entries_parsed(source@, count as nat, Seq::empty());
    let mut cur = source;
    let mut left: u64 = count;
    let ghost mut done: nat = 0;
    proof {
        assert(source@.skip(0) =~= source@);
        assert(state@.symbols =~= Seq::<SymbolData>::empty());
    }
    while left > 0
        invariant
            state.wf(),
            state@.lists.len() == 0,
            done <= source@.len(),
            cur@ == source@.skip(done as int),
            goal == entries_parsed(source@, count as nat, Seq::empty()),
            match entries_parsed(cur@, left as nat, state@.symbols) {
                Ok((all, used)) => goal == Ok::<(Seq<SymbolData>, nat), ReadError>(
                    (all, done + used),
                ),
                Err(e) => goal == Err::<(Seq<SymbolData>, nat), ReadError>(e),
            },
        decreases left,
    {
        match parse_entry(cur, state.len()) {
            Err(e) => {
                return Err(e);
            },
            Ok((name, symbol, rest)) => {
                let ghost k = entry_parsed(cur@, state@.symbols.len()).unwrap().1;
                if state.len() >= 0xffff_ffff {
                    return Err(ReadError::Malformed);
                }
                match state.find(name.as_slice()) {
                    Some(_) => {
                        return Err(ReadError::Malformed);
                    },
                    None => {},
                }
                let ghost d = SymbolData { name: name@, symbol };
                match state.insert(name, symbol) {
                    Ok(_) => {},
                    Err(_) => {
                        return Err(ReadError::Malformed);
                    },
                }
                proof {
                    assert(rest@ =~= source@.skip((done + k) as int));
                    done = done + k;
                }
                cur = rest;
                left -= 1;
            },
        }
    }
    Ok(cur)
}

/// Reads `count` variable lists from the start of `source` into the table
/// `state`, which holds none yet.
fn parse_lists<'a>(source: &'a [u8], count: u64, state: &mut State) -> (r: Result<
    &'a [u8],
    ReadError,
>)
    requires
        old(state).wf(),
        old(state)@.lists.len() == 0,
    ensures
        final(state).wf(),
        final(state)@.symbols == old(state)@.symbols,
        match r {
            Ok(rest) => lists_parsed(source@, count as nat, Seq::empty()) is Ok && lists_parsed(
                source@,
                count as nat,
                Seq::empty(),
            ).unwrap().0 == final(state)@.lists && lists_parsed(
                source@,
                count as nat,
                Seq::empty(),
            ).unwrap().1 <= source@.len() && rest@ == source@.skip(
                lists_parsed(source@, count as nat, Seq::empty()).unwrap().1 as int,
            ),
            Err(e) => lists_parsed(source@, count as nat, Seq::empty()) == Err::<
                (Seq<Seq<u32>>, nat),
                ReadError,
            >(e),
        },
{
    let ghost goal = lists_parsed(source@, count as nat, Seq::empty());
    let mut cur = source;
    let mut left: u64 = count;
    let ghost mut done: nat = 0;
    proof {
        assert(source@.skip(0) =~= source@);
        assert(state@.lists =~= Seq::<Seq<u32>>::empty());
    }
    while left > 0
        invariant
            state.wf(),
            state@.symbols == old(state)@.symbols,
            done <= source@.len(),
            cur@ == source@.skip(done as int),
            goal == lists_parsed(source@, count as nat, Seq::empty()),
            match lists_parsed(cur@, left as nat, state@.lists) {
                Ok((all, used)) => goal == Ok::<(Seq<Seq<u32>>, nat), ReadError>(
                    (all, done + used),
                ),
                Err(e) => goal == Err::<(Seq<Seq<u32>>, nat), ReadError>(e),
            },
        decreases left,
    {
        match parse_list(cur) {
            Err(e) => {
                return Err(e);
            },
            Ok((ids, rest)) => {
                let ghost k = list_parsed(cur@).unwrap().1;
                match state.find_list(ids.as_slice()) {
                    Some(_) => {
                        return Err(ReadError::Malformed);
                    },
                    None => {},
                }
                state.push_list(ids);
                proof {
                    assert(rest@ =~= source@.skip((done + k) as int));
                    done = done + k;
                }
                cur = rest;
                left -= 1;
            },
        }
    }
    Ok(cur)
}

/// Whether the table `m` can be written: the lengths in it fit the fields
/// they are written to.
pub open spec fn writable(m: StateModel) -> bool {
    &&& m.lists.len() <= u64::MAX
    &&& forall|i: int| 0 <= i < m.symbols.len() ==> (#[trigger] m.symbols[i]).name.len() <= u64::MAX
    &&& forall|i: int| 0 <= i < m.lists.len() ==> 4 * (#[trigger] m.lists[i]).len() <= u64::MAX
}

/// A symbol is read back as it was written, whatever follows it.
pub proof fn lemma_entry_reads(d: SymbolData, tail: Seq<u8>)
    requires
        d.name.len() <= u64::MAX,
        d.symbol == d.symbol.canonical(),
    ensures
        entry_parsed(entry_bytes(d) + tail, d.symbol.id as nat) == Ok::<
            (SymbolData, nat),
            ReadError,
        >((d, entry_bytes(d).len())),
{
    let s = entry_bytes(d) + tail;
    let n = d.name.len();
    let node = var_node(d.symbol);
    lemma_le_bytes_len(n, 8);
    lemma_radix_values();
    lemma_le_value_of_bytes(n, 8);
    lemma_var_node(d.symbol);
    assert(s.subrange(0, 8) =~= le_bytes(n, 8));
    assert(s.subrange(8, 8 + n as int) =~= d.name);
    let rest = s.skip(8 + n as int);
    assert(rest =~= node + tail);
    assert(crate::packed::agree(node, rest, node.len() as int)) by {
        assert(node.subrange(0, node.len() as int) =~= rest.subrange(0, node.len() as int));
    }
    crate::layout::lemma_first_prefix(node, rest);
    assert(rest.subrange(0, node.len() as int) =~= node);
    assert(rest[0] == node[0]);
}

/// Symbols are read back as they were written, whatever follows them.
pub proof fn lemma_entries_read(acc: Seq<SymbolData>, more: Seq<SymbolData>, tail: Seq<u8>)
    requires
        (acc + more).len() <= u32::MAX,
        forall|i: int|
            0 <= i < (acc + more).len() ==> (#[trigger] (acc + more)[i]).symbol.id == i && (acc
                + more)[i].symbol == (acc + more)[i].symbol.canonical() && (acc
                + more)[i].name.len() <= u64::MAX,
        forall|i: int, j: int|
            0 <= i < j < (acc + more).len() ==> (#[trigger] (acc + more)[i]).name != (#[trigger] (
            acc + more)[j]).name,
    ensures
        entries_parsed(entries_bytes(more) + tail, more.len(), acc) == Ok::<
            (Seq<SymbolData>, nat),
            ReadError,
        >((acc + more, entries_bytes(more).len())),
    decreases more.len(),
{
    let all = acc + more;
    if more.len() == 0 {
        assert(all =~= acc);
    } else {
        let d = more[0];
        let rest = more.skip(1);
        let s = entries_bytes(more) + tail;
        assert(all[acc.len() as int] == d);
        assert(s =~= entry_bytes(d) + (entries_bytes(rest) + tail));
        lemma_entry_reads(d, entries_bytes(rest) + tail);
        let k = entry_bytes(d).len();
        assert(s.skip(k as int) =~= entries_bytes(rest) + tail);
        assert(!name_among(acc, d.name)) by {
            if name_among(acc, d.name) {
                let i = choose|i: int| 0 <= i < acc.len() && (#[trigger] acc[i]).name == d.name;
                assert(all[i] == acc[i]);
            }
        }
        assert(acc.push(d) + rest =~= all);
        lemma_entries_read(acc.push(d), rest, tail);
    }
}

/// The bytes of `n` ids are `4 * n` bytes.
pub proof fn lemma_ids_bytes_len(ids: Seq<u32>)
    ensures
        ids_bytes(ids).len() == 4 * ids.len(),
    decreases ids.len(),
{
    if ids.len() > 0 {
        lemma_le_bytes_len(ids[0] as nat, 4);
        lemma_ids_bytes_len(ids.skip(1));
    }
}

/// The id at `i` is read back from its four bytes, whatever follows the
/// ids.
pub proof fn lemma_id_reads(ids: Seq<u32>, tail: Seq<u8>, i: int)
    requires
        0 <= i < ids.len(),
    ensures
        le_value((ids_bytes(ids) + tail).subrange(4 * i, 4 * i + 4)) == ids[i],
    decreases ids.len(),
{
    let s = ids_bytes(ids) + tail;
    lemma_ids_bytes_len(ids);
    lemma_ids_bytes_len(ids.skip(1));
    lemma_le_bytes_len(ids[0] as nat, 4);
    if i == 0 {
        lemma_radix_values();
        lemma_le_value_of_bytes(ids[0] as nat, 4);
        assert(s.subrange(0, 4) =~= le_bytes(ids[0] as nat, 4));
    } else {
        let t = ids_bytes(ids.skip(1)) + tail;
        lemma_id_reads(ids.skip(1), tail, i - 1);
        assert(s.subrange(4 * i, 4 * i + 4) =~= t.subrange(4 * (i - 1), 4 * (i - 1) + 4));
    }
}

/// A variable list is read back as it was written, whatever follows it.
pub proof fn lemma_list_reads(l: Seq<u32>, tail: Seq<u8>)
    requires
        4 * l.len() <= u64::MAX,
    ensures
        list_parsed(list_bytes(l) + tail) == Ok::<(Seq<u32>, nat), ReadError>(
            (l, list_bytes(l).len()),
        ),
{
    let s = list_bytes(l) + tail;
    let n = l.len();
    lemma_le_bytes_len(n, 8);
    lemma_radix_values();
    lemma_le_value_of_bytes(n, 8);
    lemma_ids_bytes_len(l);
    assert(s.subrange(0, 8) =~= le_bytes(n, 8));
    assert(s.skip(8) =~= ids_bytes(l) + tail);
    assert forall|i: int| 0 <= i < n implies ids_parsed(s.skip(8), n)[i] == l[i] by {
        lemma_id_reads(l, tail, i);
    }
    assert(ids_parsed(s.skip(8), n) =~= l);
}

/// Variable lists are read back as they were written, whatever follows
/// them.
pub proof fn lemma_lists_read(acc: Seq<Seq<u32>>, more: Seq<Seq<u32>>, tail: Seq<u8>)
    requires
        forall|i: int| 0 <= i < more.len() ==> 4 * (#[trigger] more[i]).len() <= u64::MAX,
        forall|i: int, j: int|
            0 <= i < j < (acc + more).len() ==> (#[trigger] (acc + more)[i]) != (#[trigger] (acc
                + more)[j]),
    ensures
        lists_parsed(lists_bytes(more) + tail, more.len(), acc) == Ok::<
            (Seq<Seq<u32>>, nat),
            ReadError,
        >((acc + more, lists_bytes(more).len())),
    decreases more.len(),
{
    let all = acc + more;
    if more.len() == 0 {
        assert(all =~= acc);
    } else {
        let l = more[0];
        let rest = more.skip(1);
        let s = lists_bytes(more) + tail;
        assert(all[acc.len() as int] == l);
        assert(s =~= list_bytes(l) + (lists_bytes(rest) + tail));
        lemma_list_reads(l, lists_bytes(rest) + tail);
        let k = list_bytes(l).len();
        assert(s.skip(k as int) =~= lists_bytes(rest) + tail);
        assert(!acc.contains(l)) by {
            if acc.contains(l) {
                let i = choose|i: int| 0 <= i < acc.len() && acc[i] == l;
                assert(all[i] == acc[i]);
            }
        }
        assert(acc.push(l) + rest =~= all);
        assert forall|i: int| 0 <= i < rest.len() implies 4 * (#[trigger] rest[i]).len()
            <= u64::MAX by {
            assert(rest[i] == more[i + 1]);
        }
        lemma_lists_read(acc.push(l), rest, tail);
    }
}

/// The section of a table is read back as the table, whatever follows it.
pub proof fn lemma_section_reads(m: StateModel, tail: Seq<u8>)
    requires
        model_ok(m),
        writable(m),
    ensures
        section_parsed(section(m) + tail) == Ok::<(StateModel, nat), ReadError>(
            (m, section(m).len()),
        ),
{
    let s = section(m) + tail;
    let n = m.symbols.len();
    let e = entries_bytes(m.symbols);
    let behind = le_bytes(m.lists.len(), 8) + lists_bytes(m.lists) + tail;
    lemma_le_bytes_len(n, 8);
    lemma_le_bytes_len(m.lists.len(), 8);
    lemma_radix_values();
    lemma_le_value_of_bytes(n, 8);
    lemma_le_value_of_bytes(m.lists.len(), 8);
    assert(s.subrange(0, 8) =~= le_bytes(n, 8));
    assert(s.skip(8) =~= e + behind);
    assert(Seq::<SymbolData>::empty() + m.symbols =~= m.symbols);
    lemma_entries_read(Seq::empty(), m.symbols, behind);
    let t = s.skip(8 + e.len() as int);
    assert(t =~= behind);
    assert(t.subrange(0, 8) =~= le_bytes(m.lists.len(), 8));
    assert(t.skip(8) =~= lists_bytes(m.lists) + tail);
    assert(Seq::<Seq<u32>>::empty() + m.lists =~= m.lists);
    lemma_lists_read(Seq::empty(), m.lists, tail);
}

} // verus!
