//! Merging the symbol table of an export into the table of this session.
//!
//! A symbol of the other table whose name this table does not have is
//! appended. One whose name this table has with the same attributes becomes
//! that symbol. One whose name this table has with other attributes is a
//! conflict: the function that the caller supplies picks another name for
//! it, under which it is looked up again, and appended if that name is
//! free. If the caller supplies no function, the symbol of this table is
//! taken, attributes and all. The renaming table holds an entry for every
//! symbol and every variable list that is not the same in both tables.

use crate::buffer::append;
use crate::rename::{renames_nothing, Renaming, StateMap};
use crate::state::{
    has_name, model_ok, same_attributes, State, StateError, StateModel, SymbolData, with_id,
};
use crate::symbol::Symbol;
use vstd::prelude::*;

verus! {

/// Whether the table `new` holds everything that the table `old` holds, in
/// the same places.
pub open spec fn extends(old: StateModel, new: StateModel) -> bool {
    &&& old.symbols.len() <= new.symbols.len()
    &&& forall|i: int| 0 <= i < old.symbols.len() ==> #[trigger] new.symbols[i] == old.symbols[i]
    &&& old.lists.len() <= new.lists.len()
    &&& forall|i: int| 0 <= i < old.lists.len() ==> #[trigger] new.lists[i] == old.lists[i]
}

/// Whether the table `local` holds the table `incoming`, in the same
/// places: the two sessions agree on what `incoming` names.
pub open spec fn agrees(local: StateModel, incoming: StateModel) -> bool {
    extends(incoming, local)
}

/// What `m` makes of the symbol `symbol` of the other table.
pub open spec fn target(m: Renaming, symbol: Symbol) -> Symbol {
    if m.symbols.contains_key(symbol.id) {
        m.symbols[symbol.id]
    } else {
        symbol
    }
}

/// What `m` makes of the id `id` of the other table.
pub open spec fn target_id(m: Renaming, id: u32) -> u32 {
    if m.symbols.contains_key(id) {
        m.symbols[id].id
    } else {
        id
    }
}

/// What `m` makes of the index `index` of a variable list of the other
/// table.
pub open spec fn target_list(m: Renaming, index: u64) -> u64 {
    if m.variables_lists.contains_key(index) {
        m.variables_lists[index]
    } else {
        index
    }
}

/// The variable list `list` of the other table, with the ids that `m`
/// gives its symbols.
pub open spec fn translated(list: Seq<u32>, m: Renaming) -> Seq<u32> {
    Seq::new(list.len(), |i: int| target_id(m, list[i]))
}

/// Whether `name` is the name under which the symbol `d` of the other
/// table belongs in the table `new`: its own, or, where its own is held
/// with other attributes, a name that the function gave for it.
pub open spec fn named<F: Fn(Vec<u8>) -> Vec<u8>>(
    new: StateModel,
    d: SymbolData,
    name: Seq<u8>,
    conflict_fn: Option<F>,
) -> bool {
    name == d.name || (conflict_fn is Some && held_otherwise(new, d.name, d.symbol) && exists|
        n: Vec<u8>,
    |
        n@ == name && #[trigger] picked(conflict_fn.unwrap(), d.name, n))
}

/// Whether `s` is where the symbol `d` of the other table went: a symbol of
/// the table `new` with the attributes of `d`, or, where no function
/// resolves conflicts, the symbol of `new` that has the name of `d`; and
/// it stands in `new` under the name of `d`, or under the name that the
/// function gave for it in a conflict.
pub open spec fn placed<F: Fn(Vec<u8>) -> Vec<u8>>(
    new: StateModel,
    d: SymbolData,
    s: Symbol,
    conflict_fn: Option<F>,
) -> bool {
    &&& s.id < new.symbols.len()
    &&& new.symbols[s.id as int].symbol == s
    &&& same_attributes(s, d.symbol) || (conflict_fn is None && new.symbols[s.id as int].name
        == d.name)
    &&& named(new, d, new.symbols[s.id as int].name, conflict_fn)
}

/// Whether the variable list `list`, which has the index `index` in the
/// other table, went to the table `new`: with the ids that `m` gives its
/// symbols, it is the list of `new` that `m` gives for `index`.
pub open spec fn list_placed(new: StateModel, m: Renaming, list: Seq<u32>, index: int) -> bool {
    &&& target_list(m, index as u64) < new.lists.len()
    &&& new.lists[target_list(m, index as u64) as int] == translated(list, m)
}

/// Whether the table `new` and the renaming table `m` are what merging
/// the table `incoming` into the table `old` may give.
pub open spec fn merged<F: Fn(Vec<u8>) -> Vec<u8>>(
    old: StateModel,
    incoming: StateModel,
    conflict_fn: Option<F>,
    new: StateModel,
    m: Renaming,
) -> bool {
    &&& extends(old, new)
    &&& model_ok(new)
    &&& m.finite_fields == Map::<u64, u64>::empty()
    &&& forall|i: int|
        0 <= i < incoming.symbols.len() ==> placed(
            new,
            #[trigger] incoming.symbols[i],
            target(m, incoming.symbols[i].symbol),
            conflict_fn,
        )
    &&& forall|j: int|
        0 <= j < incoming.lists.len() ==> list_placed(new, m, #[trigger] incoming.lists[j], j)
    &&& agrees(old, incoming) ==> new == old && renames_nothing(m)
}

/// Whether the name `name` is held in the table `m` by a symbol with other
/// attributes than those of `symbol`.
pub open spec fn held_otherwise(m: StateModel, name: Seq<u8>, symbol: Symbol) -> bool {
    exists|i: int|
        0 <= i < m.symbols.len() && (#[trigger] m.symbols[i]).name == name && !same_attributes(
            m.symbols[i].symbol,
            symbol,
        )
}

/// Whether `r` and the table `new` are what taking the free name `name`
/// for a new symbol with the attributes of `symbol` gives in the table
/// `old`: the symbol is appended, with its place as its id, unless the
/// table is full.
pub open spec fn appended_as(
    old: StateModel,
    new: StateModel,
    r: Result<Symbol, StateError>,
    name: Seq<u8>,
    symbol: Symbol,
) -> bool {
    match r {
        Ok(s) => old.symbols.len() < u32::MAX && s == with_id(symbol, old.symbols.len() as u32)
            && new.symbols == old.symbols.push(SymbolData { name, symbol: s }),
        Err(e) => e == StateError::Full && old.symbols.len() == u32::MAX,
    }
}

/// Whether `r` and the table `new` are what the picked name `other` gives
/// for a symbol with the attributes of `symbol` in the table `old`, where
/// the symbol at `j` holds that name.
pub open spec fn picked_case(
    old: StateModel,
    new: StateModel,
    r: Result<Symbol, StateError>,
    j: int,
    symbol: Symbol,
) -> bool {
    if same_attributes(old.symbols[j].symbol, symbol) {
        r == Ok::<Symbol, StateError>(old.symbols[j].symbol) && new == old
    } else {
        r == Err::<Symbol, StateError>(StateError::Conflict)
    }
}

/// Whether `r` and the table `new` are what settling a symbol with the
/// attributes of `symbol` gives in the table `old`, where the symbol at `i`
/// holds its name and `renamed` is the name that was picked, if one was.
pub open spec fn held_case(
    old: StateModel,
    new: StateModel,
    r: Result<Symbol, StateError>,
    i: int,
    symbol: Symbol,
    renamed: Option<Seq<u8>>,
) -> bool {
    if same_attributes(old.symbols[i].symbol, symbol) || renamed is None {
        r == Ok::<Symbol, StateError>(old.symbols[i].symbol) && new == old
    } else if !has_name(old, renamed.unwrap()) {
        appended_as(old, new, r, renamed.unwrap(), symbol)
    } else {
        forall|j: int|
            0 <= j < old.symbols.len() && (#[trigger] old.symbols[j]).name == renamed.unwrap()
                ==> picked_case(old, new, r, j, symbol)
    }
}

/// Whether `n` is a name that the function `f` may give for the name
/// `name`.
pub open spec fn picked<F: Fn(Vec<u8>) -> Vec<u8>>(f: F, name: Seq<u8>, n: Vec<u8>) -> bool {
    exists|arg: Vec<u8>| arg@ == name && #[trigger] call_ensures(f, (arg,), n)
}

/// Whether no symbol of the table `incoming` from the place `from` on has
/// a name that the table `local` holds with other attributes.
pub open spec fn clear_from(local: StateModel, incoming: StateModel, from: int) -> bool {
    forall|j: int|
        from <= j < incoming.symbols.len() ==> !held_otherwise(
            local,
            (#[trigger] incoming.symbols[j]).name,
            incoming.symbols[j].symbol,
        )
}

/// Whether a conflict over the symbol `d` of another table could not be
/// resolved in the table `m`: there is a function to pick names, the name
/// of `d` is held with other attributes than those of `d`, and so is a name
/// that the function gave for it.
pub open spec fn conflict_failed<F: Fn(Vec<u8>) -> Vec<u8>>(
    m: StateModel,
    d: SymbolData,
    conflict_fn: Option<F>,
) -> bool {
    &&& conflict_fn is Some
    &&& held_otherwise(m, d.name, d.symbol)
    &&& exists|n: Vec<u8>| #[trigger]
        picked(conflict_fn.unwrap(), d.name, n) && held_otherwise(m, n@, d.symbol)
}

/// A copy of `name`.
fn owned(name: &[u8]) -> (r: Vec<u8>)
    ensures
        r@ == name@,
{
    let mut copy: Vec<u8> = Vec::new();
    append(&mut copy, name);
    assert(copy@ =~= name@);
    copy
}

impl State {
    /// Whether the name `name` is taken by a symbol with other attributes
    /// than those of `symbol`.
    pub fn conflicts(&self, name: &[u8], symbol: Symbol) -> (r: bool)
        requires
            self.wf(),
        ensures
            r == held_otherwise(self@, name@, symbol),
    {
        match self.find(name) {
            None => false,
            Some(i) => {
                let known = self.symbols_at(i);
                assert(self@.symbols[i as int].name == name@);
                !same(known, symbol)
            },
        }
    }

    /// The symbol of this table for a symbol of another table that has the
    /// name `name` there. `renamed` is the name that was picked for it in a
    /// conflict, if a name was picked.
    ///
    /// A name that is free is taken for a new symbol. A name that is held
    /// by a symbol with the same attributes gives that symbol, without a
    /// look at `renamed`. A name that is held by a symbol with other
    /// attributes gives that symbol if no name was picked; else the picked
    /// name is taken for a new symbol if it is free, gives the symbol that
    /// holds it if that has the same attributes, and is a conflict if that
    /// has others.
    pub fn settle(&mut self, name: &[u8], symbol: Symbol, renamed: Option<Vec<u8>>) -> (r: Result<
        Symbol,
        StateError,
    >)
        requires
            old(self).wf(),
            symbol == symbol.canonical(),
        ensures
            final(self).wf(),
            extends(old(self)@, final(self)@),
            final(self)@.lists == old(self)@.lists,
            final(self)@.symbols.len() <= old(self)@.symbols.len() + 1,
            r matches Ok(s) ==> s.id < final(self)@.symbols.len()
                && final(self)@.symbols[s.id as int].symbol == s && (same_attributes(s, symbol) || (
            renamed is None && final(self)@.symbols[s.id as int].name == name@)),
            r is Err ==> final(self)@ == old(self)@,
            !has_name(old(self)@, name@) ==> appended_as(old(self)@, final(self)@, r, name@, symbol),
            forall|i: int|
                0 <= i < old(self)@.symbols.len() && (#[trigger] old(self)@.symbols[i]).name
                    == name@ ==> held_case(
                    old(self)@,
                    final(self)@,
                    r,
                    i,
                    symbol,
                    match renamed {
                        Some(n) => Some(n@),
                        None => None,
                    },
                ),
            r matches Err(StateError::Conflict) <==> renamed is Some && held_otherwise(
                old(self)@,
                name@,
                symbol,
            ) && held_otherwise(old(self)@, renamed.unwrap()@, symbol),
            r matches Err(StateError::Full) <==> old(self)@.symbols.len() == u32::MAX && (!has_name(
                old(self)@,
                name@,
            ) || (renamed is Some && held_otherwise(old(self)@, name@, symbol) && !has_name(
                old(self)@,
                renamed.unwrap()@,
            ))),
    {
        match self.find(name) {
            None => self.insert(owned(name), symbol),
            Some(i) => {
                let known = self.symbols_at(i);
                if same(known, symbol) {
                    return Ok(known);
                }
                assert(held_otherwise(self@, name@, symbol));
                match renamed {
                    None => Ok(known),
                    Some(other) => {
                        match self.find(other.as_slice()) {
                            None => self.insert(other, symbol),
                            Some(j) => {
                                let taken = self.symbols_at(j);
                                if same(taken, symbol) {
                                    Ok(taken)
                                } else {
                                    assert(held_otherwise(self@, other@, symbol));
                                    Err(StateError::Conflict)
                                }
                            },
                        }
                    },
                }
            },
        }
    }
}

/// Whether the symbols `a` and `b` have the same attributes.
fn same(a: Symbol, b: Symbol) -> (r: bool)
    ensures
        r == same_attributes(a, b),
{
    a.wildcard_level == b.wildcard_level && a.is_symmetric == b.is_symmetric && a.is_antisymmetric
        == b.is_antisymmetric && a.is_cyclesymmetric == b.is_cyclesymmetric && a.is_linear
        == b.is_linear
}

/// Whether the table `new` and the renaming table `m` are what merging
/// the first `upto` symbols of the table `incoming` into the table `old`
/// may give.
pub open spec fn symbols_merged<F: Fn(Vec<u8>) -> Vec<u8>>(
    old: StateModel,
    incoming: StateModel,
    conflict_fn: Option<F>,
    new: StateModel,
    m: Renaming,
    upto: int,
) -> bool {
    &&& extends(old, new)
    &&& model_ok(new)
    &&& new.lists == old.lists
    &&& m.finite_fields == Map::<u64, u64>::empty()
    &&& m.variables_lists == Map::<u64, u64>::empty()
    &&& forall|k: u32| m.symbols.contains_key(k) ==> k < upto
    &&& forall|i: int|
        0 <= i < upto ==> placed(
            new,
            #[trigger] incoming.symbols[i],
            target(m, incoming.symbols[i].symbol),
            conflict_fn,
        )
    &&& agrees(old, incoming) ==> new == old && m.symbols == Map::<u32, Symbol>::empty()
}

/// Whether the table `new` and the renaming table `m` are what merging
/// the symbols and the first `upto` variable lists of the table `incoming`
/// into the table `old` may give.
pub open spec fn lists_merged<F: Fn(Vec<u8>) -> Vec<u8>>(
    old: StateModel,
    incoming: StateModel,
    conflict_fn: Option<F>,
    new: StateModel,
    m: Renaming,
    upto: int,
) -> bool {
    &&& extends(old, new)
    &&& model_ok(new)
    &&& m.finite_fields == Map::<u64, u64>::empty()
    &&& forall|k: u64| m.variables_lists.contains_key(k) ==> k < upto
    &&& forall|i: int|
        0 <= i < incoming.symbols.len() ==> placed(
            new,
            #[trigger] incoming.symbols[i],
            target(m, incoming.symbols[i].symbol),
            conflict_fn,
        )
    &&& forall|j: int| 0 <= j < upto ==> list_placed(new, m, #[trigger] incoming.lists[j], j)
    &&& agrees(old, incoming) ==> new == old && renames_nothing(m)
}

/// The name that `conflict_fn` picks for the symbol of another table with
/// the name `name`, if this table has that name with other attributes and
/// there is a function to pick one. The function is called with a copy of
/// `name`, and in no other case.
fn pick_name<F: Fn(Vec<u8>) -> Vec<u8>>(
    state: &State,
    name: &[u8],
    symbol: Symbol,
    conflict_fn: &Option<F>,
) -> (r: Option<Vec<u8>>)
    requires
        state.wf(),
        conflict_fn matches Some(f) ==> forall|n: Vec<u8>| call_requires(f, (n,)),
    ensures
        r is Some == (conflict_fn is Some && held_otherwise(state@, name@, symbol)),
        r matches Some(n) ==> conflict_fn matches Some(f) && picked(f, name@, n),
{
    match conflict_fn {
        None => None,
        Some(f) => {
            if state.conflicts(name, symbol) {
                let arg = owned(name);
                let n = f(arg);
                assert(call_ensures(*f, (arg,), n));
                Some(n)
            } else {
                None
            }
        },
    }
}

/// Merges the symbol at `i` of the table `incoming` into the table
/// `local`, and notes in `map` where it went. That fails only where the
/// table is full, or where the name of the symbol is held with other
/// attributes and the name that the function picked is so too.
fn merge_symbol<F: Fn(Vec<u8>) -> Vec<u8>>(
    local: &mut State,
    incoming: &State,
    i: usize,
    conflict_fn: &Option<F>,
    map: &mut StateMap,
    Ghost(start): Ghost<StateModel>,
) -> (r: Result<(), StateError>)
    requires
        incoming.wf(),
        i < incoming@.symbols.len(),
        conflict_fn matches Some(f) ==> forall|n: Vec<u8>| call_requires(f, (n,)),
        symbols_merged(start, incoming@, *conflict_fn, old(local)@, old(map)@, i as int),
    ensures
        final(local).wf(),
        extends(old(local)@, final(local)@),
        final(local)@.symbols.len() <= old(local)@.symbols.len() + 1,
        r is Ok ==> symbols_merged(
            start,
            incoming@,
            *conflict_fn,
            final(local)@,
            final(map)@,
            i + 1,
        ),
        r is Err ==> final(local)@ == old(local)@,
        agrees(start, incoming@) ==> r is Ok,
        r matches Err(StateError::Full) ==> final(local)@.symbols.len() == u32::MAX,
        r matches Err(StateError::Conflict) ==> conflict_failed(
            final(local)@,
            incoming@.symbols[i as int],
            *conflict_fn,
        ),
        old(local)@.symbols.len() < u32::MAX && (conflict_fn is None || !held_otherwise(
            old(local)@,
            incoming@.symbols[i as int].name,
            incoming@.symbols[i as int].symbol,
        )) ==> r is Ok,
        clear_from(old(local)@, incoming@, i as int) ==> clear_from(
            final(local)@,
            incoming@,
            i + 1,
        ),
{
    let ghost d = incoming@.symbols[i as int];
    let symbol = incoming.symbols_at(i);
    let name = match incoming.get_name(i as u32) {
        Some(name) => name,
        None => {
            return Err(StateError::Full);
        },
    };
    let renamed = pick_name(local, name, symbol, conflict_fn);
    proof {
        if agrees(start, incoming@) {
            assert(local@.symbols[i as int] == d);
            assert(renamed is None) by {
                if renamed is Some {
                    let k = choose|k: int|
                        0 <= k < local@.symbols.len() && (#[trigger] local@.symbols[k]).name
                            == name@ && !same_attributes(local@.symbols[k].symbol, symbol);
                    assert(local@.symbols[k].name == local@.symbols[i as int].name);
                }
            }
        }
    }
    let ghost answer = renamed;
    match local.settle(name, symbol, renamed) {
        Err(e) => {
            proof {
                if e == StateError::Conflict {
                    assert(picked(conflict_fn.unwrap(), d.name, answer.unwrap()));
                    assert(held_otherwise(local@, answer.unwrap()@, d.symbol));
                }
            }
            Err(e)
        },
        Ok(s) => {
            if s != symbol {
                map.insert_symbol(i as u32, s);
            }
            proof {
                let m = map@;
                let new = local@;
                assert forall|k: int| 0 <= k < i + 1 implies placed(
                    new,
                    #[trigger] incoming@.symbols[k],
                    target(m, incoming@.symbols[k].symbol),
                    *conflict_fn,
                ) by {
                    if k < i {
                        lemma_stays_placed(
                            old(local)@,
                            new,
                            incoming@.symbols[k],
                            target(old(map)@, incoming@.symbols[k].symbol),
                            *conflict_fn,
                        );
                    } else {
                        lemma_settled_is_named(
                            old(local)@,
                            new,
                            d,
                            s,
                            answer,
                            *conflict_fn,
                        );
                    }
                }
                if clear_from(old(local)@, incoming@, i as int) {
                    assert(!held_otherwise(old(local)@, d.name, d.symbol));
                    if has_name(old(local)@, d.name) {
                        let k = choose|k: int|
                            0 <= k < old(local)@.symbols.len() && (
                            #[trigger] old(local)@.symbols[k]).name == d.name;
                        assert(held_case(old(local)@, new, Ok(s), k, symbol, None));
                    } else {
                        assert(new.symbols == old(local)@.symbols.push(
                            SymbolData { name: d.name, symbol: s },
                        ));
                    }
                    lemma_stays_clear(old(local)@, new, incoming@, i as int, s);
                }
            }
            Ok(())
        },
    }
}

/// A name that is held with other attributes stays so in a table that
/// holds all of the first.
proof fn lemma_stays_held(old: StateModel, new: StateModel, name: Seq<u8>, symbol: Symbol)
    requires
        extends(old, new),
        held_otherwise(old, name, symbol),
    ensures
        held_otherwise(new, name, symbol),
{
    let k = choose|k: int|
        0 <= k < old.symbols.len() && (#[trigger] old.symbols[k]).name == name && !same_attributes(
            old.symbols[k].symbol,
            symbol,
        );
    assert(new.symbols[k] == old.symbols[k]);
}

/// A symbol stays where it went in a table that holds all of the first.
proof fn lemma_stays_placed<F: Fn(Vec<u8>) -> Vec<u8>>(
    old: StateModel,
    new: StateModel,
    d: SymbolData,
    s: Symbol,
    conflict_fn: Option<F>,
)
    requires
        extends(old, new),
        placed(old, d, s, conflict_fn),
    ensures
        placed(new, d, s, conflict_fn),
{
    assert(new.symbols[s.id as int] == old.symbols[s.id as int]);
    if old.symbols[s.id as int].name != d.name {
        lemma_stays_held(old, new, d.name, d.symbol);
    }
}

/// The symbol that settling gave for the symbol `d` of another table
/// stands under the name of `d`, or under the name `answer` that the
/// function gave for it in a conflict.
proof fn lemma_settled_is_named<F: Fn(Vec<u8>) -> Vec<u8>>(
    old: StateModel,
    new: StateModel,
    d: SymbolData,
    s: Symbol,
    answer: Option<Vec<u8>>,
    conflict_fn: Option<F>,
)
    requires
        model_ok(old),
        model_ok(new),
        extends(old, new),
        s.id < new.symbols.len(),
        new.symbols[s.id as int].symbol == s,
        answer is Some == (conflict_fn is Some && held_otherwise(old, d.name, d.symbol)),
        answer matches Some(n) ==> picked(conflict_fn.unwrap(), d.name, n),
        !has_name(old, d.name) ==> appended_as(old, new, Ok(s), d.name, d.symbol),
        forall|i: int|
            0 <= i < old.symbols.len() && (#[trigger] old.symbols[i]).name == d.name ==> held_case(
                old,
                new,
                Ok(s),
                i,
                d.symbol,
                match answer {
                    Some(n) => Some(n@),
                    None => None,
                },
            ),
    ensures
        named(new, d, new.symbols[s.id as int].name, conflict_fn),
{
    if has_name(old, d.name) {
        let i = choose|i: int|
            0 <= i < old.symbols.len() && (#[trigger] old.symbols[i]).name == d.name;
        assert(held_case(
            old,
            new,
            Ok(s),
            i,
            d.symbol,
            match answer {
                Some(n) => Some(n@),
                None => None,
            },
        ));
        if !same_attributes(old.symbols[i].symbol, d.symbol) && answer is Some {
            let n = answer.unwrap();
            lemma_stays_held(old, new, d.name, d.symbol);
            if has_name(old, n@) {
                let j = choose|j: int|
                    0 <= j < old.symbols.len() && (#[trigger] old.symbols[j]).name == n@;
                assert(picked_case(old, new, Ok(s), j, d.symbol));
            }
            assert(new.symbols[s.id as int].name == n@);
        }
    }
}

/// A table that is clear of conflicts with the symbols of another table
/// from a place on stays clear of conflicts with those behind that place
/// when the symbol at that place is settled in it.
proof fn lemma_stays_clear(
    old: StateModel,
    new: StateModel,
    incoming: StateModel,
    i: int,
    s: Symbol,
)
    requires
        model_ok(incoming),
        0 <= i < incoming.symbols.len(),
        clear_from(old, incoming, i),
        new == old || new.symbols == old.symbols.push(
            SymbolData { name: incoming.symbols[i].name, symbol: s },
        ),
    ensures
        clear_from(new, incoming, i + 1),
{
    assert forall|j: int| i + 1 <= j < incoming.symbols.len() implies !held_otherwise(
        new,
        (#[trigger] incoming.symbols[j]).name,
        incoming.symbols[j].symbol,
    ) by {
        let name = incoming.symbols[j].name;
        let symbol = incoming.symbols[j].symbol;
        if held_otherwise(new, name, symbol) {
            let k = choose|k: int|
                0 <= k < new.symbols.len() && (#[trigger] new.symbols[k]).name == name
                    && !same_attributes(new.symbols[k].symbol, symbol);
            if new != old && k == old.symbols.len() {
                assert(incoming.symbols[i].name != incoming.symbols[j].name);
            } else {
                assert(old.symbols[k] == new.symbols[k]);
                assert(!held_otherwise(old, incoming.symbols[j].name, incoming.symbols[j].symbol));
            }
        }
    }
}

/// The variable list `list` of another table, with the ids that `map`
/// gives its symbols.
fn translate(list: &[u32], map: &StateMap) -> (r: Vec<u32>)
    ensures
        r@ == translated(list@, map@),
{
    let mut out: Vec<u32> = Vec::new();
    let mut i: usize = 0;
    while i < list.len()
        invariant
            i <= list@.len(),
            out@ == translated(list@.subrange(0, i as int), map@),
        decreases list@.len() - i,
    {
        let id = match map.get_symbol(list[i]) {
            Some(s) => s.get_id(),
            None => list[i],
        };
        proof {
            assert(out@.push(id) =~= translated(list@.subrange(0, i + 1), map@));
        }
        out.push(id);
        i += 1;
    }
    proof {
        assert(list@.subrange(0, list@.len() as int) =~= list@);
    }
    out
}

/// Merges the variable list at `j` of the table `incoming` into the table
/// `local`, and notes in `map` where it went.
fn merge_list<F: Fn(Vec<u8>) -> Vec<u8>>(
    local: &mut State,
    incoming: &State,
    j: usize,
    conflict_fn: &Option<F>,
    map: &mut StateMap,
    Ghost(start): Ghost<StateModel>,
)
    requires
        incoming.wf(),
        j < incoming@.lists.len(),
        lists_merged(start, incoming@, *conflict_fn, old(local)@, old(map)@, j as int),
    ensures
        final(local).wf(),
        extends(old(local)@, final(local)@),
        lists_merged(start, incoming@, *conflict_fn, final(local)@, final(map)@, j + 1),
{
    let list = match incoming.get_variables_list(j as u64) {
        Some(list) => list,
        None => {
            return ;
        },
    };
    let ghost before = map@;
    let moved = translate(list, map);
    proof {
        if agrees(start, incoming@) {
            assert(moved@ =~= list@);
            assert(local@.lists[j as int] == list@);
            assert(local@.lists.contains(moved@));
        }
    }
    let ghost held = local@;
    let index = local.add_variables_list(moved);
    proof {
        assert(extends(held, local@));
        if agrees(start, incoming@) {
            assert(index == j);
        }
    }
    if index != j as u64 {
        map.insert_variables_list(j as u64, index);
    }
    proof {
        let m = map@;
        let new = local@;
        assert forall|k: int| 0 <= k < j + 1 implies list_placed(
            new,
            m,
            #[trigger] incoming@.lists[k],
            k,
        ) by {
            assert(translated(incoming@.lists[k], m) =~= translated(incoming@.lists[k], before));
            if k < j {
                assert(list_placed(held, before, incoming@.lists[k], k));
            }
        }
        assert forall|i: int| 0 <= i < incoming@.symbols.len() implies placed(
            new,
            #[trigger] incoming@.symbols[i],
            target(m, incoming@.symbols[i].symbol),
            *conflict_fn,
        ) by {
            lemma_stays_placed(
                old(local)@,
                new,
                incoming@.symbols[i],
                target(before, incoming@.symbols[i].symbol),
                *conflict_fn,
            );
        }
    }
}

impl State {
    /// Merges the table `incoming` of another session into this table, and
    /// gives the renaming table for what was written under `incoming`.
    /// `conflict_fn` picks another name for a symbol whose name is taken
    /// here by a symbol with other attributes.
    ///
    /// Merging succeeds where there is room for the symbols of `incoming`
    /// and either no function is given or no name of `incoming` is held
    /// here with other attributes. It fails on a conflict only where the
    /// name that the function picked for a symbol is held with other
    /// attributes as well.
    pub fn merge<F: Fn(Vec<u8>) -> Vec<u8>>(&mut self, incoming: &State, conflict_fn: Option<F>) -> (r:
        Result<StateMap, StateError>)
        requires
            old(self).wf(),
            incoming.wf(),
            conflict_fn matches Some(f) ==> forall|n: Vec<u8>| call_requires(f, (n,)),
        ensures
            final(self).wf(),
            extends(old(self)@, final(self)@),
            r matches Ok(map) ==> merged(
                old(self)@,
                incoming@,
                conflict_fn,
                final(self)@,
                map@,
            ),
            agrees(old(self)@, incoming@) ==> r is Ok,
            r matches Err(StateError::Full) ==> final(self)@.symbols.len() == u32::MAX,
            r matches Err(StateError::Conflict) ==> exists|i: int|
                0 <= i < incoming@.symbols.len() && conflict_failed(
                    final(self)@,
                    #[trigger] incoming@.symbols[i],
                    conflict_fn,
                ),
            old(self)@.symbols.len() + incoming@.symbols.len() <= u32::MAX && (conflict_fn is None
                || clear_from(old(self)@, incoming@, 0)) ==> r is Ok,
    {
        let ghost start = self@;
        let mut map = StateMap::new();
        let n = incoming.len();
        let mut i: usize = 0;
        while i < n
            invariant
                i <= n,
                n == incoming@.symbols.len(),
                incoming.wf(),
                self.wf(),
                conflict_fn matches Some(f) ==> forall|n: Vec<u8>| call_requires(f, (n,)),
                start == old(self)@,
                symbols_merged(start, incoming@, conflict_fn, self@, map@, i as int),
                self@.symbols.len() <= start.symbols.len() + i,
                clear_from(start, incoming@, 0) ==> clear_from(self@, incoming@, i as int),
            decreases n - i,
        {
            match merge_symbol(self, incoming, i, &conflict_fn, &mut map, Ghost(start)) {
                Err(e) => {
                    return Err(e);
                },
                Ok(_) => {},
            }
            i += 1;
        }
        let k = incoming.lists_len();
        let mut j: usize = 0;

        while j < k
            invariant
                j <= k,
                k == incoming@.lists.len(),
                incoming.wf(),
                self.wf(),
                start == old(self)@,
                lists_merged(start, incoming@, conflict_fn, self@, map@, j as int),
            decreases k - j,
        {
            merge_list(self, incoming, j, &conflict_fn, &mut map, Ghost(start));
            j += 1;
        }
        Ok(map)
    }
}

} // verus!
