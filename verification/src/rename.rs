//! Renaming the symbols of an expression.
//!
//! An expression that was written under another symbol table names its
//! symbols, finite fields and variable lists by the ids of that table. A
//! `StateMap` gives the ids of this table for them, and renaming builds the
//! expression anew with those ids. What is built anew is marked as not
//! normalized: other ids may sort otherwise.

use crate::atom::Atom;
use crate::buffer::append;
use crate::builder::{fits_sized, spliced_args, spliced_count};
use crate::coefficient::{coeff_value, Coefficient, CoefficientView, CoeffValue};
use crate::layout::{
    add_args, add_count, ADD_ID, add_ok, atom_ok, children, first_len, FUN_ID, fun_name,
    lemma_first_len_by_kind, lemma_first_prefix, lemma_len_bounds, MUL_ID, NOT_NORMALIZED, NUM_ID,
    POW_ID, run_len, sized_args, sized_count, sized_ok, tag_of, VAR_ID,
};
use crate::node::{add_node, fun_node, lemma_fresh_flags, mul_node, num_node, pow_node, var_node};
use crate::symbol::{fun_flags, fun_name_of, fun_symbol, Symbol, var_symbol};
use crate::view::{AtomView, ListSlice};
use std::collections::HashMap;
use vstd::prelude::*;

verus! {

broadcast use vstd::std_specs::hash::group_hash_axioms;

/// What a `StateMap` holds, as mathematical maps: for the ids of another
/// symbol table, the symbol, the field index and the variable-list index of
/// this one.
pub struct Renaming {
    pub symbols: Map<u32, Symbol>,
    pub finite_fields: Map<u64, u64>,
    pub variables_lists: Map<u64, u64>,
}

/// Whether `m` renames nothing.
pub open spec fn renames_nothing(m: Renaming) -> bool {
    &&& m.symbols == Map::<u32, Symbol>::empty()
    &&& m.finite_fields == Map::<u64, u64>::empty()
    &&& m.variables_lists == Map::<u64, u64>::empty()
}

/// The renaming table of one import.
pub struct StateMap {
    symbols: HashMap<u32, Symbol>,
    finite_fields: HashMap<u64, u64>,
    variables_lists: HashMap<u64, u64>,
}

impl View for StateMap {
    type V = Renaming;

    closed spec fn view(&self) -> Renaming {
        Renaming {
            symbols: self.symbols@,
            finite_fields: self.finite_fields@,
            variables_lists: self.variables_lists@,
        }
    }
}

impl StateMap {
    /// The table that renames nothing.
    pub fn new() -> (r: StateMap)
        ensures
            r@.symbols == Map::<u32, Symbol>::empty(),
            r@.finite_fields == Map::<u64, u64>::empty(),
            r@.variables_lists == Map::<u64, u64>::empty(),
    {
        StateMap {
            symbols: HashMap::new(),
            finite_fields: HashMap::new(),
            variables_lists: HashMap::new(),
        }
    }

    /// Lets the symbol with the id `old_id` become `symbol`.
    pub fn insert_symbol(&mut self, old_id: u32, symbol: Symbol)
        ensures
            final(self)@ == (Renaming {
                symbols: old(self)@.symbols.insert(old_id, symbol),
                ..old(self)@
            }),
    {
        self.symbols.insert(old_id, symbol);
    }

    /// Lets the finite field with the index `old_index` become the one with
    /// the index `index`.
    pub fn insert_finite_field(&mut self, old_index: u64, index: u64)
        ensures
            final(self)@ == (Renaming {
                finite_fields: old(self)@.finite_fields.insert(old_index, index),
                ..old(self)@
            }),
    {
        self.finite_fields.insert(old_index, index);
    }

    /// Lets the variable list with the index `old_index` become the one
    /// with the index `index`.
    pub fn insert_variables_list(&mut self, old_index: u64, index: u64)
        ensures
            final(self)@ == (Renaming {
                variables_lists: old(self)@.variables_lists.insert(old_index, index),
                ..old(self)@
            }),
    {
        self.variables_lists.insert(old_index, index);
    }

    /// The symbol that the symbol with the id `id` becomes, if the table
    /// has one for it.
    pub fn get_symbol(&self, id: u32) -> (r: Option<Symbol>)
        ensures
            r is Some == self@.symbols.contains_key(id),
            r is Some ==> r.unwrap() == self@.symbols[id],
    {
        match self.symbols.get(&id) {
            Some(s) => Some(*s),
            None => None,
        }
    }

    /// The index that the finite field with the index `index` gets, if the
    /// table has one for it.
    pub fn get_finite_field(&self, index: u64) -> (r: Option<u64>)
        ensures
            r is Some == self@.finite_fields.contains_key(index),
            r is Some ==> r.unwrap() == self@.finite_fields[index],
    {
        match self.finite_fields.get(&index) {
            Some(s) => Some(*s),
            None => None,
        }
    }

    /// The index that the variable list with the index `index` gets, if
    /// the table has one for it.
    pub fn get_variables_list(&self, index: u64) -> (r: Option<u64>)
        ensures
            r is Some == self@.variables_lists.contains_key(index),
            r is Some ==> r.unwrap() == self@.variables_lists[index],
    {
        match self.variables_lists.get(&index) {
            Some(s) => Some(*s),
            None => None,
        }
    }
}

/// The number `s` with the index of its finite field or of its variable
/// list renamed; a rational stays as it is.
pub open spec fn renamed_num(s: Seq<u8>, m: Renaming) -> Seq<u8> {
    match coeff_value(s.skip(1)) {
        CoeffValue::FiniteField(e, i) => if m.finite_fields.contains_key(i) {
            num_node(CoeffValue::FiniteField(e, m.finite_fields[i]))
        } else {
            s
        },
        CoeffValue::RationalPolynomial(v, body) => if m.variables_lists.contains_key(v) {
            num_node(CoeffValue::RationalPolynomial(m.variables_lists[v], body))
        } else {
            s
        },
        CoeffValue::Rational(_, _) => s,
    }
}

/// The variable `s` with its symbol renamed.
pub open spec fn renamed_var(s: Seq<u8>, m: Renaming) -> Seq<u8> {
    if m.symbols.contains_key(var_symbol(s).id) {
        var_node(m.symbols[var_symbol(s).id])
    } else {
        s
    }
}

/// The function `acc` with the argument `r` added.
pub open spec fn fun_with_arg(acc: Seq<u8>, r: Seq<u8>) -> Seq<u8> {
    fun_node(
        acc[0] | NOT_NORMALIZED,
        fun_name(acc),
        sized_count(acc) + 1,
        sized_args(acc) + r,
    )
}

/// The product `acc` extended by `r`.
pub open spec fn mul_extended(acc: Seq<u8>, r: Seq<u8>) -> Seq<u8> {
    mul_node(
        acc[0] | NOT_NORMALIZED,
        sized_count(acc) + spliced_count(r, MUL_ID),
        sized_args(acc) + spliced_args(r, MUL_ID),
    )
}

/// The sum `acc` extended by `r`.
pub open spec fn add_extended(acc: Seq<u8>, r: Seq<u8>) -> Seq<u8> {
    add_node(
        acc[0] | NOT_NORMALIZED,
        add_count(acc) + spliced_count(r, ADD_ID),
        add_args(acc) + spliced_args(r, ADD_ID),
    )
}

/// The node `acc` of the kind `kind` with the node `r` added to its
/// arguments. For a power, `acc` is what was built so far: the header byte,
/// or the header byte and the base.
pub open spec fn grown(acc: Seq<u8>, r: Seq<u8>, kind: u8) -> Seq<u8> {
    if kind == FUN_ID {
        fun_with_arg(acc, r)
    } else if kind == MUL_ID {
        mul_extended(acc, r)
    } else if kind == ADD_ID {
        add_extended(acc, r)
    } else {
        acc + r
    }
}

/// Whether the node `acc` of the kind `kind` has room for `r`: a function
/// and a product are bounded by their size field, a sum by the machine.
pub open spec fn room(acc: Seq<u8>, r: Seq<u8>, kind: u8) -> bool {
    if kind == FUN_ID || kind == MUL_ID {
        fits_sized(acc, r)
    } else if kind == ADD_ID {
        acc.len() + r.len() + 17 <= usize::MAX
    } else {
        true
    }
}

/// The function of `symbol` without arguments.
pub open spec fn fresh_fun(symbol: Symbol) -> Seq<u8> {
    fun_node(fun_flags(symbol), fun_name_of(symbol) as nat, 0, Seq::empty())
}

/// The product without factors.
pub open spec fn fresh_mul() -> Seq<u8> {
    mul_node(MUL_ID | NOT_NORMALIZED, 0, Seq::empty())
}

/// The sum without terms.
pub open spec fn fresh_add() -> Seq<u8> {
    add_node(ADD_ID | NOT_NORMALIZED, 0, Seq::empty())
}

/// Whether the number `s` names a finite field or a variable list that
/// the table `m` has an entry for.
pub open spec fn num_touched(s: Seq<u8>, m: Renaming) -> bool {
    match coeff_value(s.skip(1)) {
        CoeffValue::FiniteField(_, i) => m.finite_fields.contains_key(i),
        CoeffValue::RationalPolynomial(v, _) => m.variables_lists.contains_key(v),
        CoeffValue::Rational(_, _) => false,
    }
}

/// The symbol that the function `s` gets: the one that the table `m` has
/// for its symbol, or its own.
pub open spec fn fun_target(s: Seq<u8>, m: Renaming) -> Symbol {
    if m.symbols.contains_key(fun_symbol(s).id) {
        m.symbols[fun_symbol(s).id]
    } else {
        fun_symbol(s)
    }
}

/// Whether the table `m` has an entry for something that the expression
/// `s` names, at any depth: the symbol of a variable or of a function, the
/// finite field or the variable list of a number.
pub open spec fn touched(s: Seq<u8>, m: Renaming) -> bool
    decreases s.len(), 0nat,
{
    if s.len() == 0 {
        false
    } else {
        let t = tag_of(s[0]);
        if t == NUM_ID {
            num_touched(s, m)
        } else if t == VAR_ID {
            m.symbols.contains_key(var_symbol(s).id)
        } else if t == FUN_ID {
            m.symbols.contains_key(fun_symbol(s).id) || (sized_ok(s) && touched_run(
                sized_args(s),
                sized_count(s),
                m,
            ))
        } else if t == MUL_ID {
            sized_ok(s) && touched_run(sized_args(s), sized_count(s), m)
        } else if t == ADD_ID {
            add_ok(s) && touched_run(add_args(s), add_count(s), m)
        } else if t == POW_ID {
            touched_run(s.skip(1), 2, m)
        } else {
            false
        }
    }
}

/// Whether the table `m` has an entry for something that one of the `n`
/// nodes that start `args` names.
pub open spec fn touched_run(args: Seq<u8>, n: nat, m: Renaming) -> bool
    decreases args.len(), 1nat,
{
    if n == 0 {
        false
    } else {
        match first_len(args) {
            Some(k) => 1 <= k <= args.len() && (touched(args.subrange(0, k as int), m)
                || touched_run(args.skip(k as int), (n - 1) as nat, m)),
            None => false,
        }
    }
}

/// The expression `s` renamed by `m`, if the result can be encoded.
///
/// An expression that names nothing that the table has an entry for stays
/// as it is, byte for byte. Every other expression is built anew, with
/// every symbol, finite field and variable list in it renamed, at any
/// depth.
pub open spec fn renamed(s: Seq<u8>, m: Renaming) -> Option<Seq<u8>>
    decreases s.len(), 1nat,
{
    if touched(s, m) {
        rebuilt(s, m)
    } else {
        Some(s)
    }
}

/// The expression `s` built anew with what it names renamed by `m`, if the
/// result can be encoded.
///
/// A number and a variable are renamed in place. A function is built from
/// the symbol that the table has for its symbol, or from its own, and its
/// renamed arguments. A power, a product and a sum are built from their
/// renamed arguments; where a renamed argument of a product is a product,
/// or of a sum a sum, its arguments take its place. What is built is
/// marked as not normalized.
pub open spec fn rebuilt(s: Seq<u8>, m: Renaming) -> Option<Seq<u8>>
    decreases s.len(), 0nat,
{
    if s.len() == 0 {
        None
    } else {
        let t = tag_of(s[0]);
        if t == NUM_ID {
            Some(renamed_num(s, m))
        } else if t == VAR_ID {
            Some(renamed_var(s, m))
        } else if t == FUN_ID {
            if sized_ok(s) {
                renamed_run(
                    sized_args(s),
                    sized_count(s),
                    m,
                    fresh_fun(fun_target(s, m)),
                    FUN_ID,
                )
            } else {
                None
            }
        } else if t == MUL_ID {
            if sized_ok(s) {
                renamed_run(sized_args(s), sized_count(s), m, fresh_mul(), MUL_ID)
            } else {
                None
            }
        } else if t == ADD_ID {
            if add_ok(s) {
                renamed_run(add_args(s), add_count(s), m, fresh_add(), ADD_ID)
            } else {
                None
            }
        } else if t == POW_ID {
            renamed_run(s.skip(1), 2, m, seq![POW_ID | NOT_NORMALIZED], POW_ID)
        } else {
            None
        }
    }
}

/// The node `acc` of the kind `kind` with the `n` nodes that start `args`
/// renamed and added to it, one after the other.
pub open spec fn renamed_run(args: Seq<u8>, n: nat, m: Renaming, acc: Seq<u8>, kind: u8) -> Option<
    Seq<u8>,
>
    decreases args.len(), 2nat,
{
    if n == 0 {
        Some(acc)
    } else {
        match first_len(args) {
            Some(k) => if 1 <= k <= args.len() {
                match renamed(args.subrange(0, k as int), m) {
                    Some(r) => if room(acc, r, kind) {
                        renamed_run(args.skip(k as int), (n - 1) as nat, m, grown(acc, r, kind), kind)
                    } else {
                        None
                    },
                    None => None,
                }
            } else {
                None
            },
            None => None,
        }
    }
}

/// Building a number or a variable anew.
pub proof fn lemma_rebuilt_leaf(s: Seq<u8>, m: Renaming)
    requires
        s.len() > 0,
    ensures
        tag_of(s[0]) == NUM_ID ==> rebuilt(s, m) == Some(renamed_num(s, m)),
        tag_of(s[0]) == VAR_ID ==> rebuilt(s, m) == Some(renamed_var(s, m)),
{
}

/// Building a function anew.
pub proof fn lemma_rebuilt_fun(s: Seq<u8>, m: Renaming)
    requires
        s.len() > 0,
        tag_of(s[0]) == FUN_ID,
        sized_ok(s),
    ensures
        rebuilt(s, m) == renamed_run(
            sized_args(s),
            sized_count(s),
            m,
            fresh_fun(fun_target(s, m)),
            FUN_ID,
        ),
{
}

/// Building a product, a sum or a power anew.
pub proof fn lemma_rebuilt_container(s: Seq<u8>, m: Renaming)
    requires
        s.len() > 0,
    ensures
        tag_of(s[0]) == MUL_ID && sized_ok(s) ==> rebuilt(s, m) == renamed_run(
            sized_args(s),
            sized_count(s),
            m,
            fresh_mul(),
            MUL_ID,
        ),
        tag_of(s[0]) == ADD_ID && add_ok(s) ==> rebuilt(s, m) == renamed_run(
            add_args(s),
            add_count(s),
            m,
            fresh_add(),
            ADD_ID,
        ),
        tag_of(s[0]) == POW_ID ==> rebuilt(s, m) == renamed_run(
            s.skip(1),
            2,
            m,
            seq![POW_ID | NOT_NORMALIZED],
            POW_ID,
        ),
{
}

/// Building anew, kind by kind.
pub proof fn lemma_rebuilt_by_kind(s: Seq<u8>, m: Renaming)
    requires
        atom_ok(s),
    ensures
        tag_of(s[0]) == NUM_ID ==> rebuilt(s, m) == Some(renamed_num(s, m)),
        tag_of(s[0]) == VAR_ID ==> rebuilt(s, m) == Some(renamed_var(s, m)),
        tag_of(s[0]) == FUN_ID ==> rebuilt(s, m) == renamed_run(
            sized_args(s),
            sized_count(s),
            m,
            fresh_fun(fun_target(s, m)),
            FUN_ID,
        ),
        tag_of(s[0]) == MUL_ID ==> rebuilt(s, m) == renamed_run(
            sized_args(s),
            sized_count(s),
            m,
            fresh_mul(),
            MUL_ID,
        ),
        tag_of(s[0]) == ADD_ID ==> rebuilt(s, m) == renamed_run(
            add_args(s),
            add_count(s),
            m,
            fresh_add(),
            ADD_ID,
        ),
        tag_of(s[0]) == POW_ID ==> rebuilt(s, m) == renamed_run(
            s.skip(1),
            2,
            m,
            seq![POW_ID | NOT_NORMALIZED],
            POW_ID,
        ),
{
    lemma_first_len_by_kind(s);
    lemma_rebuilt_leaf(s, m);
    lemma_rebuilt_container(s, m);
    if tag_of(s[0]) == FUN_ID {
        lemma_rebuilt_fun(s, m);
    }
}

/// The first node of a run, cut out, is exactly one well-formed node, and
/// the others follow it.
pub proof fn lemma_run_head(args: Seq<u8>, n: nat)
    requires
        n > 0,
        run_len(args, n) is Some,
    ensures
        first_len(args) is Some,
        2 <= first_len(args).unwrap() <= args.len(),
        atom_ok(args.subrange(0, first_len(args).unwrap() as int)),
        run_len(args.skip(first_len(args).unwrap() as int), (n - 1) as nat) is Some,
{
    let k = first_len(args).unwrap() as int;
    lemma_len_bounds(args, 0);
    let head = args.subrange(0, k);
    assert(crate::packed::agree(args, head, k)) by {
        assert(args.subrange(0, k) =~= head.subrange(0, k));
    }
    lemma_first_prefix(args, head);
}

/// Renaming a run, node by node: the first node is renamed and added, then
/// the others.
pub proof fn lemma_renamed_run_step(args: Seq<u8>, n: nat, m: Renaming, acc: Seq<u8>, kind: u8)
    requires
        run_len(args, n) is Some,
    ensures
        n == 0 ==> renamed_run(args, n, m, acc, kind) == Some(acc),
        n > 0 ==> {
            let k = first_len(args).unwrap() as int;
            let first = renamed(args.subrange(0, k), m);
            &&& first is None ==> renamed_run(args, n, m, acc, kind) is None
            &&& first is Some && !room(acc, first.unwrap(), kind) ==> renamed_run(
                args,
                n,
                m,
                acc,
                kind,
            ) is None
            &&& first is Some && room(acc, first.unwrap(), kind) ==> renamed_run(
                args,
                n,
                m,
                acc,
                kind,
            ) == renamed_run(
                args.skip(k),
                (n - 1) as nat,
                m,
                grown(acc, first.unwrap(), kind),
                kind,
            )
        },
{
    if n > 0 {
        lemma_run_head(args, n);
    }
}

/// Building a power anew: base and exponent are renamed, and the power is
/// built from them.
pub proof fn lemma_rebuilt_pow(s: Seq<u8>, m: Renaming)
    requires
        atom_ok(s),
        tag_of(s[0]) == POW_ID,
    ensures
        children(s).len() == 2,
        rebuilt(s, m) == (match (renamed(children(s)[0], m), renamed(children(s)[1], m)) {
            (Some(b), Some(e)) => Some(pow_node(POW_ID | NOT_NORMALIZED, b, e)),
            _ => None,
        }),
{
    lemma_rebuilt_by_kind(s, m);
    lemma_first_len_by_kind(s);
    let body = s.skip(1);
    let acc = seq![POW_ID | NOT_NORMALIZED];
    crate::layout::lemma_run_items(body, 2);
    crate::layout::lemma_run_item_at(body, 2, 0);
    crate::layout::lemma_run_item_at(body, 2, 1);
    assert(body.skip(0) =~= body);
    lemma_renamed_run_step(body, 2, m, acc, POW_ID);
    let k = first_len(body).unwrap() as int;
    let rest = body.skip(k);
    crate::layout::lemma_run_of_one(body);
    assert(children(s)[0] == body.subrange(0, k));
    assert(children(s)[1] == rest.subrange(0, first_len(rest).unwrap() as int));
    match renamed(children(s)[0], m) {
        Some(b) => {
            lemma_renamed_run_step(rest, 1, m, grown(acc, b, POW_ID), POW_ID);
            match renamed(children(s)[1], m) {
                Some(e) => {
                    let k2 = first_len(rest).unwrap() as int;
                    lemma_renamed_run_step(
                        rest.skip(k2),
                        0,
                        m,
                        grown(grown(acc, b, POW_ID), e, POW_ID),
                        POW_ID,
                    );
                    assert(grown(grown(acc, b, POW_ID), e, POW_ID) =~= pow_node(
                        POW_ID | NOT_NORMALIZED,
                        b,
                        e,
                    ));
                },
                None => {},
            }
        },
        None => {},
    }
}

/// Whether a table touches an expression, kind by kind.
pub proof fn lemma_touched_by_kind(s: Seq<u8>, m: Renaming)
    requires
        atom_ok(s),
    ensures
        tag_of(s[0]) == NUM_ID ==> touched(s, m) == num_touched(s, m),
        tag_of(s[0]) == VAR_ID ==> touched(s, m) == m.symbols.contains_key(var_symbol(s).id),
        tag_of(s[0]) == FUN_ID ==> touched(s, m) == (m.symbols.contains_key(fun_symbol(s).id)
            || touched_run(sized_args(s), sized_count(s), m)),
        tag_of(s[0]) == MUL_ID ==> touched(s, m) == touched_run(
            sized_args(s),
            sized_count(s),
            m,
        ),
        tag_of(s[0]) == ADD_ID ==> touched(s, m) == touched_run(add_args(s), add_count(s), m),
        tag_of(s[0]) == POW_ID ==> touched(s, m) == touched_run(s.skip(1), 2, m),
{
    lemma_first_len_by_kind(s);
}

/// Whether a table touches a run, node by node.
pub proof fn lemma_touched_run_step(args: Seq<u8>, n: nat, m: Renaming)
    requires
        run_len(args, n) is Some,
    ensures
        n == 0 ==> !touched_run(args, n, m),
        n > 0 ==> touched_run(args, n, m) == (touched(
            args.subrange(0, first_len(args).unwrap() as int),
            m,
        ) || touched_run(args.skip(first_len(args).unwrap() as int), (n - 1) as nat, m)),
{
    if n > 0 {
        lemma_run_head(args, n);
    }
}

/// A number or a variable that a table does not touch is renamed to
/// itself, so that renaming a number or a variable is building it anew.
pub proof fn lemma_renamed_leaf(s: Seq<u8>, m: Renaming)
    requires
        atom_ok(s),
        tag_of(s[0]) == NUM_ID || tag_of(s[0]) == VAR_ID,
    ensures
        tag_of(s[0]) == NUM_ID ==> renamed(s, m) == Some(renamed_num(s, m)),
        tag_of(s[0]) == VAR_ID ==> renamed(s, m) == Some(renamed_var(s, m)),
{
    lemma_first_len_by_kind(s);
}

/// Adds `child` to the arguments of the function, product or sum `acc`, if
/// there is room for it.
fn push_child(acc: &mut Atom, child: AtomView) -> (r: bool)
    requires
        old(acc).wf(),
        child.wf(),
        *old(acc) is Fun || *old(acc) is Mul || *old(acc) is Add,
    ensures
        final(acc).wf(),
        *final(acc) is Fun == *old(acc) is Fun,
        *final(acc) is Mul == *old(acc) is Mul,
        *final(acc) is Add == *old(acc) is Add,
        tag_of(final(acc)@[0]) == tag_of(old(acc)@[0]),
        r == room(old(acc)@, child@, tag_of(old(acc)@[0])),
        r ==> final(acc)@ == grown(old(acc)@, child@, tag_of(old(acc)@[0])),
        !r ==> final(acc)@ == old(acc)@,
{
    let size = child.get_byte_size();
    match acc {
        Atom::Fun(f) => {
            let used = f.to_fun_view().get_byte_size();
            if used > 0xffff_ffff - 17 || size > 0xffff_ffff - 17 - used {
                false
            } else {
                f.add_arg(child);
                true
            }
        },
        Atom::Mul(m) => {
            let used = m.to_mul_view().get_byte_size();
            if used > 0xffff_ffff - 17 || size > 0xffff_ffff - 17 - used {
                false
            } else {
                m.extend(child);
                true
            }
        },
        Atom::Add(a) => {
            let used = a.to_add_view().get_byte_size();
            if used > usize::MAX - 17 || size > usize::MAX - 17 - used {
                false
            } else {
                a.extend(child);
                true
            }
        },
        _ => false,
    }
}

/// Renames the first of the `left` nodes that start `cur` and adds it to
/// `acc`; gives the slice behind the node, if that could be done.
#[verifier::rlimit(30)]
fn rename_next<'b>(
    cur: &'b [u8],
    left: usize,
    state_map: &StateMap,
    acc: &mut Atom,
    na: &mut Atom,
) -> (r: Option<&'b [u8]>)
    requires
        left > 0,
        run_len(cur@, left as nat) is Some,
        old(acc).wf(),
        *old(acc) is Fun || *old(acc) is Mul || *old(acc) is Add,
    ensures
        final(acc).wf(),
        *final(acc) is Fun == *old(acc) is Fun,
        *final(acc) is Mul == *old(acc) is Mul,
        *final(acc) is Add == *old(acc) is Add,
        tag_of(final(acc)@[0]) == tag_of(old(acc)@[0]),
        r is None ==> renamed_run(
            cur@,
            left as nat,
            state_map@,
            old(acc)@,
            tag_of(old(acc)@[0]),
        ) is None,
        r is Some ==> r.unwrap()@.len() < cur@.len() && run_len(
            r.unwrap()@,
            (left - 1) as nat,
        ) is Some && renamed_run(cur@, left as nat, state_map@, old(acc)@, tag_of(old(acc)@[0]))
            == renamed_run(
            r.unwrap()@,
            (left - 1) as nat,
            state_map@,
            final(acc)@,
            tag_of(old(acc)@[0]),
        ),
    decreases cur@.len(), 2nat,
{
    proof {
        lemma_run_head(cur@, left as nat);
        lemma_renamed_run_step(cur@, left as nat, state_map@, acc@, tag_of(acc@[0]));
    }
    let (child, rest) = ListSlice::get_entry(cur);
    if !child.rename_no_norm(state_map, na) {
        return None;
    }
    if !push_child(acc, na.as_view()) {
        return None;
    }
    Some(rest)
}

/// Renames the `n` nodes that start `args` and adds them to `acc`, one
/// after the other.
fn rename_args(args: &[u8], n: usize, state_map: &StateMap, acc: &mut Atom) -> (r: bool)
    requires
        run_len(args@, n as nat) is Some,
        old(acc).wf(),
        *old(acc) is Fun || *old(acc) is Mul || *old(acc) is Add,
    ensures
        final(acc).wf(),
        *final(acc) is Fun == *old(acc) is Fun,
        *final(acc) is Mul == *old(acc) is Mul,
        *final(acc) is Add == *old(acc) is Add,
        r == renamed_run(args@, n as nat, state_map@, old(acc)@, tag_of(old(acc)@[0])) is Some,
        r ==> final(acc)@ == renamed_run(
            args@,
            n as nat,
            state_map@,
            old(acc)@,
            tag_of(old(acc)@[0]),
        ).unwrap(),
    decreases args@.len(), 3nat,
{
    let ghost kind = tag_of(acc@[0]);
    let ghost goal = renamed_run(args@, n as nat, state_map@, acc@, kind);
    let mut cur = args;
    let mut left: usize = n;
    let mut na = Atom::new();
    while left > 0
        invariant
            run_len(cur@, left as nat) is Some,
            cur@.len() <= args@.len(),
            acc.wf(),
            *acc is Fun == *old(acc) is Fun,
            *acc is Mul == *old(acc) is Mul,
            *acc is Add == *old(acc) is Add,
            *acc is Fun || *acc is Mul || *acc is Add,
            tag_of(acc@[0]) == kind,
            kind == tag_of(old(acc)@[0]),
            goal == renamed_run(args@, n as nat, state_map@, old(acc)@, kind),
            renamed_run(cur@, left as nat, state_map@, acc@, kind) == goal,
        decreases left,
    {
        match rename_next(cur, left, state_map, acc, &mut na) {
            Some(rest) => {
                cur = rest;
                left -= 1;
            },
            None => {
                return false;
            },
        }
    }
    proof {
        lemma_renamed_run_step(cur@, 0, state_map@, acc@, kind);
    }
    true
}

/// Builds in `out` the renamed number.
fn rename_num(n: &crate::view::NumView, state_map: &StateMap, out: &mut Atom)
    requires
        n.wf(),
    ensures
        final(out).wf(),
        !(*final(out) is Zero),
        final(out)@ == renamed_num(n@, state_map@),
{
    match n.get_coeff_view() {
        CoefficientView::FiniteField(e, i) => {
            match state_map.get_finite_field(i) {
                Some(s) => {
                    out.to_num(Coefficient::FiniteField(e, s));
                },
                None => {
                    out.set_from_view(&n.as_view());
                },
            }
        },
        CoefficientView::RationalPolynomial(v, body) => {
            match state_map.get_variables_list(v) {
                Some(nv) => {
                    let mut copy: Vec<u8> = Vec::new();
                    append(&mut copy, body);
                    assert(copy@ =~= body@);
                    out.to_num(Coefficient::RationalPolynomial(nv, copy));
                },
                None => {
                    out.set_from_view(&n.as_view());
                },
            }
        },
        _ => {
            out.set_from_view(&n.as_view());
        },
    }
}

/// Builds in `out` the renamed variable.
fn rename_var(v: &crate::view::VarView, state_map: &StateMap, out: &mut Atom)
    requires
        v.wf(),
    ensures
        final(out).wf(),
        !(*final(out) is Zero),
        final(out)@ == renamed_var(v@, state_map@),
{
    match state_map.get_symbol(v.get_symbol().get_id()) {
        Some(s) => {
            out.to_var(s);
        },
        None => {
            out.set_from_view(&v.as_view());
        },
    }
}

/// Builds in `out` the power anew, from its renamed base and exponent, if
/// it can be encoded.
fn rename_pow(p: &crate::view::PowView, state_map: &StateMap, out: &mut Atom) -> (r: bool)
    requires
        p.wf(),
    ensures
        final(out).wf(),
        r == rebuilt(p@, state_map@) is Some,
        r ==> final(out)@ == rebuilt(p@, state_map@).unwrap() && !(*final(out) is Zero),
    decreases p@.len(), 0nat,
{
    proof {
        lemma_rebuilt_pow(p@, state_map@);
    }
    let (b, e) = p.get_base_exp();
    let mut nb = Atom::new();
    if !b.rename_no_norm(state_map, &mut nb) {
        *out = Atom::new();
        return false;
    }
    let mut ne = Atom::new();
    if !e.rename_no_norm(state_map, &mut ne) {
        *out = Atom::new();
        return false;
    }
    out.to_pow(nb.as_view(), ne.as_view());
    true
}

/// Builds in `out` the function anew, from the symbol that the table has
/// for its symbol, or from its own, and its renamed arguments, if it can be
/// encoded.
fn rename_fun(f: &crate::view::FunView, state_map: &StateMap, out: &mut Atom) -> (r: bool)
    requires
        f.wf(),
    ensures
        final(out).wf(),
        r == rebuilt(f@, state_map@) is Some,
        r ==> final(out)@ == rebuilt(f@, state_map@).unwrap() && !(*final(out) is Zero),
    decreases f@.len(), 0nat,
{
    proof {
        lemma_rebuilt_by_kind(f@, state_map@);
        lemma_first_len_by_kind(f@);
    }
    let own = f.get_symbol();
    let symbol = match state_map.get_symbol(own.get_id()) {
        Some(s) => s,
        None => own,
    };
    out.to_fun(symbol);
    let (_, n_args, args) = f.header();
    rename_args(args, n_args as usize, state_map, out)
}

/// Builds in `out` the product anew, from its renamed factors, if it can
/// be encoded.
fn rename_mul(m: &crate::view::MulView, state_map: &StateMap, out: &mut Atom) -> (r: bool)
    requires
        m.wf(),
    ensures
        final(out).wf(),
        r == rebuilt(m@, state_map@) is Some,
        r ==> final(out)@ == rebuilt(m@, state_map@).unwrap() && !(*final(out) is Zero),
    decreases m@.len(), 0nat,
{
    proof {
        lemma_rebuilt_by_kind(m@, state_map@);
        lemma_first_len_by_kind(m@);
        lemma_fresh_flags();
    }
    out.to_mul();
    let (n_args, args) = m.header();
    rename_args(args, n_args as usize, state_map, out)
}

/// Builds in `out` the sum anew, from its renamed terms, if it can be
/// encoded.
fn rename_add(a: &crate::view::AddView, state_map: &StateMap, out: &mut Atom) -> (r: bool)
    requires
        a.wf(),
    ensures
        final(out).wf(),
        r == rebuilt(a@, state_map@) is Some,
        r ==> final(out)@ == rebuilt(a@, state_map@).unwrap() && !(*final(out) is Zero),
    decreases a@.len(), 0nat,
{
    proof {
        lemma_rebuilt_by_kind(a@, state_map@);
        lemma_first_len_by_kind(a@);
        lemma_fresh_flags();
    }
    out.to_add();
    let (n_args, args) = a.header();
    rename_args(args, n_args as usize, state_map, out)
}

/// Whether the table has an entry for something that one of the `n` nodes
/// that start `args` names.
fn touches_args(args: &[u8], n: usize, state_map: &StateMap) -> (r: bool)
    requires
        run_len(args@, n as nat) is Some,
    ensures
        r == touched_run(args@, n as nat, state_map@),
    decreases args@.len(), 1nat,
{
    let mut cur = args;
    let mut left: usize = n;
    while left > 0
        invariant
            run_len(cur@, left as nat) is Some,
            cur@.len() <= args@.len(),
            touched_run(cur@, left as nat, state_map@) == touched_run(
                args@,
                n as nat,
                state_map@,
            ),
        decreases left,
    {
        proof {
            lemma_run_head(cur@, left as nat);
            lemma_touched_run_step(cur@, left as nat, state_map@);
        }
        let (child, rest) = ListSlice::get_entry(cur);
        if child.touches(state_map) {
            return true;
        }
        cur = rest;
        left -= 1;
    }
    proof {
        lemma_touched_run_step(cur@, 0, state_map@);
    }
    false
}

impl<'a> AtomView<'a> {
    /// Whether the table has an entry for something that the expression
    /// names, at any depth.
    pub fn touches(&self, state_map: &StateMap) -> (r: bool)
        requires
            self.wf(),
        ensures
            r == touched(self@, state_map@),
        decreases self@.len(), 0nat,
    {
        proof {
            lemma_touched_by_kind(self@, state_map@);
            lemma_first_len_by_kind(self@);
        }
        match self {
            AtomView::Num(n) => {
                match n.get_coeff_view() {
                    CoefficientView::FiniteField(_, i) => state_map.get_finite_field(i).is_some(),
                    CoefficientView::RationalPolynomial(v, _) => state_map.get_variables_list(
                        v,
                    ).is_some(),
                    _ => false,
                }
            },
            AtomView::Var(v) => state_map.get_symbol(v.get_symbol().get_id()).is_some(),
            AtomView::Fun(f) => {
                if state_map.get_symbol(f.get_symbol().get_id()).is_some() {
                    return true;
                }
                let (_, n_args, args) = f.header();
                touches_args(args, n_args as usize, state_map)
            },
            AtomView::Pow(p) => {
                let data = p.get_data();
                let body = vstd::slice::slice_subrange(data, 1, data.len());
                assert(body@ =~= self@.skip(1));
                touches_args(body, 2, state_map)
            },
            AtomView::Mul(m) => {
                let (n_args, args) = m.header();
                touches_args(args, n_args as usize, state_map)
            },
            AtomView::Add(a) => {
                let (n_args, args) = a.header();
                touches_args(args, n_args as usize, state_map)
            },
        }
    }

    /// Builds in `out` the expression renamed by `state_map`, without
    /// normalizing it, and says whether that could be done: it cannot where
    /// a function or a product would outgrow its size field. An expression
    /// that names nothing that the table has an entry for is copied as it
    /// is; every other is built anew and marked as not normalized.
    pub fn rename_no_norm(&self, state_map: &StateMap, out: &mut Atom) -> (r: bool)
        requires
            self.wf(),
        ensures
            final(out).wf(),
            r == renamed(self@, state_map@) is Some,
            r ==> final(out)@ == renamed(self@, state_map@).unwrap() && !(*final(out) is Zero),
        decreases self@.len(), 1nat,
    {
        proof {
            lemma_first_len_by_kind(self@);
        }
        match self {
            AtomView::Num(n) => {
                proof {
                    lemma_renamed_leaf(self@, state_map@);
                }
                rename_num(n, state_map, out);
                true
            },
            AtomView::Var(v) => {
                proof {
                    lemma_renamed_leaf(self@, state_map@);
                }
                rename_var(v, state_map, out);
                true
            },
            _ => {
                if !self.touches(state_map) {
                    out.set_from_view(self);
                    return true;
                }
                match self {
                    AtomView::Fun(f) => rename_fun(f, state_map, out),
                    AtomView::Pow(p) => rename_pow(p, state_map, out),
                    AtomView::Mul(m) => rename_mul(m, state_map, out),
                    AtomView::Add(add) => rename_add(add, state_map, out),
                    _ => true,
                }
            },
        }
    }

    /// The expression renamed by `state_map`, if it can be encoded: as it
    /// is where it names nothing that the table has an entry for, else
    /// built anew and marked as not normalized.
    pub fn rename(&self, state_map: &StateMap) -> (r: Option<Atom>)
        requires
            self.wf(),
        ensures
            r is Some == renamed(self@, state_map@) is Some,
            r is Some ==> r.unwrap().wf() && r.unwrap()@ == renamed(self@, state_map@).unwrap(),
    {
        let mut a = Atom::new();
        if self.rename_no_norm(state_map, &mut a) {
            Some(a)
        } else {
            None
        }
    }
}

} // verus!
