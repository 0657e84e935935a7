//! Owned, growable nodes.
//!
//! A builder owns the bytes of exactly one well-formed node. Its model (`@`)
//! is that byte sequence. The contracts of the operations that change a node
//! give the bytes of the result, and from those, its arguments.

use crate::buffer::{
    append, capacity, copy_within, le_bytes, lemma_le_bytes_len, overwrite, put_u32_le, put_u8,
    same_bytes, write_u32_le_at,
};
use crate::coefficient::{coeff_value, Coefficient, CoeffValue};
use crate::layout::{
    add_args, add_args_start, add_count, ADD_ID, atom_ok, children, FUN_ID, FUN_LINEAR_FLAG,
    fun_name, FUN_SYMMETRIC_FLAG, lemma_first_len_by_kind, lemma_len_bounds, lemma_run_concat,
    lemma_run_item_at, lemma_run_items, lemma_run_of_one, lemma_run_prefix, lemma_run_split,
    MUL_HAS_COEFF_FLAG, MUL_ID, NOT_NORMALIZED, NUM_ID, POW_ID, run_items, run_len, run_ok,
    sized_args, sized_args_start, sized_count, tag_of, VAR_ID,
};
use crate::node::{
    add_node, fun_node, lemma_add_node, lemma_fresh_flags, lemma_num_node, lemma_pow_node,
    lemma_run_push, lemma_set_flags, lemma_sized_node, lemma_var_node, lemma_zero_one_bytes,
    mul_node, num_node, pow_node, sized_node, var_node,
};
use crate::packed::{
    agree, get_frac_u64, get_packed_size, get_pair_size, lemma_packed_pair_parts,
    lemma_pair_bounds, packed_pair, packed_size, pair_first, pair_len, pair_ok, pair_second,
    write_packed, write_packed_fixed,
};
use crate::symbol::{
    flag_if, fun_flags, fun_name_of, fun_symbol, lemma_flag_update, lemma_fun_flags, level_flag,
    Symbol, var_header, var_symbol,
};
use crate::view::{
    AddView, AtomView, FunView, MulView, node_ok, normalized, NumView, PowView, VarView,
};
use vstd::prelude::*;
use vstd::slice::slice_subrange;
use vstd::std_specs::cmp::PartialEqSpecImpl;

verus! {

/// The bytes of a node, without the information which kind it is.
pub type RawAtom = Vec<u8>;

/// Moves the bytes from `from` to the end so that they start at `to`. The
/// buffer grows or shrinks by the difference, and the bytes before both
/// positions stay.
pub fn shift_tail(buf: &mut Vec<u8>, from: usize, to: usize)
    requires
        from <= old(buf)@.len(),
        to + (old(buf)@.len() - from) <= usize::MAX,
    ensures
        final(buf)@.len() == old(buf)@.len() - from + to,
        final(buf)@.subrange(to as int, final(buf)@.len() as int) == old(buf)@.subrange(
            from as int,
            old(buf)@.len() as int,
        ),
        forall|i: int| 0 <= i < from && i < to ==> final(buf)@[i] == old(buf)@[i],
{
    let old_len = buf.len();
    if to < from {
        copy_within(buf, from, old_len, to);
        buf.resize(old_len - from + to, 0);
        assert(buf@.subrange(to as int, buf@.len() as int) =~= old(buf)@.subrange(
            from as int,
            old_len as int,
        ));
    } else if to > from {
        buf.resize(to + (old_len - from), 0);
        let ghost grown = buf@;
        assert(forall|i: int| 0 <= i < old_len ==> grown[i] == grown.subrange(0, old_len as int)[i]);
        copy_within(buf, from, old_len, to);
        assert(buf@.subrange(to as int, buf@.len() as int) =~= old(buf)@.subrange(
            from as int,
            old_len as int,
        ));
    } else {
        assert(buf@.subrange(to as int, buf@.len() as int) =~= old(buf)@.subrange(
            from as int,
            old_len as int,
        ));
    }
}

/// Replaces the `old_size` bytes from `start` on by the encoding of the
/// pair `(a, b)`, moving what follows them as far as the sizes differ.
pub fn replace_pair(data: &mut Vec<u8>, start: usize, old_size: usize, a: u64, b: u64)
    requires
        start + old_size <= old(data)@.len(),
        old(data)@.len() + 17 <= usize::MAX,
    ensures
        final(data)@ == old(data)@.subrange(0, start as int) + packed_pair(a as nat, b as nat)
            + old(data)@.subrange(start + old_size, old(data)@.len() as int),
{
    let new_size = get_packed_size(a, b) as usize;
    shift_tail(data, start + old_size, start + new_size);
    let ghost shifted = data@;
    let s = data.as_mut_slice();
    let (head, tail) = s.split_at_mut(start);
    write_packed_fixed(a, b, tail);
    proof {
        assert(data@ =~= old(data)@.subrange(0, start as int) + packed_pair(a as nat, b as nat)
            + old(data)@.subrange(start + old_size, old(data)@.len() as int)) by {
            let tail_old = shifted.subrange(start as int, shifted.len() as int);
            let keep = old(data)@.subrange(start + old_size, old(data)@.len() as int);
            assert(tail_old.subrange(new_size as int, tail_old.len() as int) =~= keep) by {
                assert(shifted.subrange(start + new_size, shifted.len() as int) == keep);
            }
            assert(shifted.subrange(0, start as int) =~= old(data)@.subrange(0, start as int));
        }
    }
}

/// Writes into the size field of a function or a product the number of
/// bytes that follow it.
fn set_stored_size(data: &mut Vec<u8>)
    requires
        5 <= old(data)@.len() <= 5 + u32::MAX,
    ensures
        final(data)@ == overwrite(old(data)@, 1, le_bytes((old(data)@.len() - 5) as nat, 4)),
{
    let size = (data.len() - 5) as u32;
    write_u32_le_at(data.as_mut_slice(), 1, size);
}

/// Sets or clears a flag in the header byte.
fn set_flag(data: &mut Vec<u8>, flag: u8, on: bool)
    requires
        old(data)@.len() >= 1,
    ensures
        final(data)@ == old(data)@.update(
            0,
            if on {
                old(data)@[0] | flag
            } else {
                old(data)@[0] & !flag
            },
        ),
{
    let f = data[0];
    if on {
        data[0] = f | flag;
    } else {
        data[0] = f & !flag;
    }
}

/// The two numbers of the pair that starts at `start`.
fn read_pair(data: &Vec<u8>, start: usize) -> (r: (u64, u64))
    requires
        start <= data@.len(),
        pair_ok(data@.skip(start as int)),
    ensures
        r.0 == pair_first(data@.skip(start as int)),
        r.1 == pair_second(data@.skip(start as int)),
{
    let c = slice_subrange(data.as_slice(), start, data.len());
    assert(c@ =~= data@.skip(start as int));
    let (a, b, _) = get_frac_u64(c);
    (a, b)
}

/// Rewrites a node that stores its size: the pair behind the size field
/// becomes `(a, b)`, the bytes of `more` are appended to the arguments, and
/// the size field is set to the new size. The header byte stays.
fn rebuild_sized(data: &mut Vec<u8>, a: u64, b: u64, more: &[u8])
    requires
        old(data)@.len() >= 5,
        pair_ok(old(data)@.skip(5)),
        old(data)@.len() + more@.len() + 17 <= u32::MAX,
    ensures
        final(data)@ == sized_node(
            old(data)@[0],
            a as nat,
            b as nat,
            old(data)@.subrange(
                sized_args_start(old(data)@),
                old(data)@.len() as int,
            ) + more@,
        ),
{
    let ghost before = data@;
    let ghost args = before.subrange(sized_args_start(before), before.len() as int);
    let c = slice_subrange(data.as_slice(), 5, data.len());
    assert(c@ =~= before.skip(5));
    let old_size = get_pair_size(c);
    replace_pair(data, 5, old_size, a, b);
    append(data, more);
    proof {
        lemma_packed_pair_parts(a as nat, b as nat);
    }
    set_stored_size(data);
    proof {
        lemma_le_bytes_len((packed_size(a as nat, b as nat) + (args + more@).len()) as nat, 4);
        assert(data@ =~= sized_node(before[0], a as nat, b as nat, args + more@));
    }
}

/// Rewrites a sum: the pair behind the header byte becomes `(count, size
/// of the arguments)`, after the bytes of `more` were appended to the
/// arguments. The header byte stays.
fn rebuild_add(data: &mut Vec<u8>, count: u64, more: &[u8])
    requires
        old(data)@.len() >= 1,
        pair_ok(old(data)@.skip(1)),
        old(data)@.len() + more@.len() + 17 <= usize::MAX,
    ensures
        final(data)@ == add_node(
            old(data)@[0],
            count as nat,
            old(data)@.subrange(
                add_args_start(old(data)@),
                old(data)@.len() as int,
            ) + more@,
        ),
{
    let ghost before = data@;
    let ghost args = before.subrange(add_args_start(before), before.len() as int);
    let c = slice_subrange(data.as_slice(), 1, data.len());
    assert(c@ =~= before.skip(1));
    let old_header_size = 1 + get_pair_size(c);
    append(data, more);
    let new_len = data.len() - old_header_size;
    replace_pair(data, 1, old_header_size - 1, count, new_len as u64);
    proof {
        assert(data@ =~= add_node(before[0], count as nat, args + more@));
    }
}

/// Cuts the last `cut` bytes off the arguments of a node that stores its
/// size, and marks the node as not normalized. The header stays as it is
/// otherwise: the size field is not set anew.
fn cut_tail(data: &mut Vec<u8>, cut: usize)
    requires
        old(data)@.len() >= 5,
        pair_ok(old(data)@.skip(5)),
        sized_args_start(old(data)@) + cut <= old(data)@.len(),
    ensures
        final(data)@.len() == old(data)@.len() - cut,
        final(data)@[0] == old(data)@[0] | NOT_NORMALIZED,
        pair_ok(final(data)@.skip(5)),
        pair_first(final(data)@.skip(5)) == pair_first(old(data)@.skip(5)),
        sized_args_start(final(data)@) == sized_args_start(old(data)@),
        final(data)@.subrange(sized_args_start(final(data)@), final(data)@.len() as int) == old(
            data,
        )@.subrange(sized_args_start(old(data)@), old(data)@.len() - cut),
{
    let ghost before = data@;
    let dist = data.len() - cut;
    data.truncate(dist);
    set_flag(data, NOT_NORMALIZED, true);
    proof {
        let pl = pair_len(before.skip(5)) as int;
        assert(agree(before.skip(5), data@.skip(5), pl)) by {
            assert(before.skip(5).subrange(0, pl) =~= data@.skip(5).subrange(0, pl));
        }
        crate::packed::lemma_pair_prefix(before.skip(5), data@.skip(5));
        assert(data@.subrange(5 + pl, data@.len() as int) =~= before.subrange(
            5 + pl,
            before.len() - cut,
        ));
    }
}

/// What `other` adds to a product: the count and the bytes of its factors
/// if it is a product, else itself.
fn mul_parts<'b>(other: AtomView<'b>) -> (r: (u64, &'b [u8]))
    requires
        other.wf(),
    ensures
        r.0 == spliced_count(other@, MUL_ID),
        r.1@ == spliced_args(other@, MUL_ID),
{
    match other {
        AtomView::Mul(m) => m.header(),
        _ => (1, other.get_data()),
    }
}

/// What `other` adds to a sum: the count and the bytes of its terms if it
/// is a sum, else itself.
fn add_parts<'b>(other: AtomView<'b>) -> (r: (u64, &'b [u8]))
    requires
        other.wf(),
    ensures
        r.0 == spliced_count(other@, ADD_ID),
        r.1@ == spliced_args(other@, ADD_ID),
{
    match other {
        AtomView::Add(m) => m.header(),
        _ => (1, other.get_data()),
    }
}

/// A number.
#[derive(Debug, Clone, Eq, Hash)]
pub struct Num {
    data: RawAtom,
}

/// A variable.
#[derive(Debug, Clone, Eq, Hash)]
pub struct Var {
    data: RawAtom,
}

/// A function of a symbol, applied to arguments.
#[derive(Debug, Clone, Eq, Hash)]
pub struct Fun {
    data: RawAtom,
}

impl View for Num {
    type V = Seq<u8>;

    closed spec fn view(&self) -> Seq<u8> {
        self.data@
    }
}

impl View for Var {
    type V = Seq<u8>;

    closed spec fn view(&self) -> Seq<u8> {
        self.data@
    }
}

impl View for Fun {
    type V = Seq<u8>;

    closed spec fn view(&self) -> Seq<u8> {
        self.data@
    }
}

impl PartialEq for Num {
    fn eq(&self, other: &Num) -> (r: bool) {
        same_bytes(self.data.as_slice(), other.data.as_slice())
    }
}

impl PartialEqSpecImpl for Num {
    open spec fn obeys_eq_spec() -> bool {
        true
    }

    open spec fn eq_spec(&self, other: &Num) -> bool {
        self@ == other@
    }
}

impl PartialEq for Var {
    fn eq(&self, other: &Var) -> (r: bool) {
        same_bytes(self.data.as_slice(), other.data.as_slice())
    }
}

impl PartialEqSpecImpl for Var {
    open spec fn obeys_eq_spec() -> bool {
        true
    }

    open spec fn eq_spec(&self, other: &Var) -> bool {
        self@ == other@
    }
}

impl PartialEq for Fun {
    fn eq(&self, other: &Fun) -> (r: bool) {
        same_bytes(self.data.as_slice(), other.data.as_slice())
    }
}

impl PartialEqSpecImpl for Fun {
    open spec fn obeys_eq_spec() -> bool {
        true
    }

    open spec fn eq_spec(&self, other: &Fun) -> bool {
        self@ == other@
    }
}

impl Num {
    /// Whether this is exactly one well-formed number.
    pub open spec fn wf(&self) -> bool {
        node_ok(self@, NUM_ID)
    }

    /// The coefficient that the number holds.
    pub open spec fn value(&self) -> CoeffValue {
        coeff_value(self@.skip(1))
    }

    /// The number zero, in `buffer`.
    pub fn zero(buffer: RawAtom) -> (r: Num)
        ensures
            r.wf(),
            r@ == seq![1u8, 1u8, 0u8],
            r@ == num_node(CoeffValue::Rational(0, 1)),
            r.value() == CoeffValue::Rational(0, 1),
    {
        let mut buffer = buffer;
        buffer.clear();
        put_u8(&mut buffer, NUM_ID);
        put_u8(&mut buffer, 1);
        put_u8(&mut buffer, 0);
        proof {
            lemma_zero_one_bytes();
            lemma_num_node(CoeffValue::Rational(0, 1));
            assert(buffer@ =~= seq![1u8, 1u8, 0u8]);
        }
        Num { data: buffer }
    }

    /// The number with the coefficient `num`.
    pub fn new(num: Coefficient) -> (r: Num)
        ensures
            r.wf(),
            r@ == num_node(num@),
            r.value() == num@,
    {
        Self::new_into(num, Vec::new())
    }

    /// The number with the coefficient `num`, in `buffer`.
    pub fn new_into(num: Coefficient, buffer: RawAtom) -> (r: Num)
        ensures
            r.wf(),
            r@ == num_node(num@),
            r.value() == num@,
    {
        let mut f = Num { data: buffer };
        f.set_from_coeff(num);
        f
    }

    /// A copy of the number under `a`, in `buffer`.
    pub fn from_view_into(a: &NumView<'_>, buffer: RawAtom) -> (r: Num)
        ensures
            r@ == a@,
            r.wf() == a.wf(),
    {
        let mut buffer = buffer;
        buffer.clear();
        append(&mut buffer, a.get_data());
        assert(buffer@ =~= a@);
        Num { data: buffer }
    }

    /// Makes this the number with the coefficient `num`.
    pub fn set_from_coeff(&mut self, num: Coefficient)
        ensures
            final(self).wf(),
            final(self)@ == num_node(num@),
            final(self).value() == num@,
    {
        self.data.clear();
        put_u8(&mut self.data, NUM_ID);
        num.write_packed(&mut self.data);
        proof {
            assert(self.data@ =~= num_node(num@));
            if let Coefficient::RationalPolynomial(_, body) = num {
                assert(body@.len() == body.len());
            }
            lemma_num_node(num@);
        }
    }

    /// Makes this a copy of the number under `a`.
    pub fn set_from_view(&mut self, a: &NumView<'_>)
        ensures
            final(self)@ == a@,
            final(self).wf() == a.wf(),
    {
        self.data.clear();
        append(&mut self.data, a.get_data());
        assert(self.data@ =~= a@);
    }

    /// A view of the number.
    pub fn to_num_view(&self) -> (r: NumView<'_>)
        requires
            self.wf(),
        ensures
            r.wf(),
            r@ == self@,
    {
        NumView::from_bytes(self.data.as_slice())
    }

    /// A view of the number, as a view of a node of any kind.
    pub fn as_view(&self) -> (r: AtomView<'_>)
        requires
            self.wf(),
        ensures
            r.wf(),
            r@ == self@,
            r is Num,
    {
        AtomView::Num(self.to_num_view())
    }

    /// The buffer of the number.
    pub fn into_raw(self) -> (r: RawAtom)
        ensures
            r@ == self@,
    {
        self.data
    }

    /// The bytes of the node.
    pub fn get_data(&self) -> (r: &[u8])
        ensures
            r@ == self@,
    {
        self.data.as_slice()
    }

    /// The capacity of the buffer: at least the number of bytes it holds.
    pub(crate) fn capacity(&self) -> (r: usize)
        ensures
            r >= self@.len(),
    {
        capacity(&self.data)
    }

    /// The number whose bytes `raw` holds.
    pub fn from_raw(raw: RawAtom) -> (r: Num)
        requires
            node_ok(raw@, NUM_ID),
        ensures
            r.wf(),
            r@ == raw@,
    {
        Num { data: raw }
    }
}

impl Var {
    /// Whether this is exactly one well-formed variable.
    pub open spec fn wf(&self) -> bool {
        node_ok(self@, VAR_ID)
    }

    /// The symbol of the variable.
    pub open spec fn symbol(&self) -> Symbol {
        var_symbol(self@)
    }

    /// The variable of `symbol`.
    pub fn new(symbol: Symbol) -> (r: Var)
        ensures
            r.wf(),
            r@ == var_node(symbol),
            r.symbol() == symbol.canonical(),
    {
        Self::new_into(symbol, RawAtom::new())
    }

    /// The variable of `symbol`, in `buffer`.
    pub fn new_into(symbol: Symbol, buffer: RawAtom) -> (r: Var)
        ensures
            r.wf(),
            r@ == var_node(symbol),
            r.symbol() == symbol.canonical(),
    {
        let mut f = Var { data: buffer };
        f.set_from_symbol(symbol);
        f
    }

    /// A copy of the variable under `a`, in `buffer`.
    pub fn from_view_into(a: &VarView<'_>, buffer: RawAtom) -> (r: Var)
        ensures
            r@ == a@,
            r.wf() == a.wf(),
    {
        let mut buffer = buffer;
        buffer.clear();
        append(&mut buffer, a.get_data());
        assert(buffer@ =~= a@);
        Var { data: buffer }
    }

    /// Makes this the variable of `symbol`.
    pub fn set_from_symbol(&mut self, symbol: Symbol)
        ensures
            final(self).wf(),
            final(self)@ == var_node(symbol),
            final(self).symbol() == symbol.canonical(),
    {
        self.data.clear();
        put_u8(&mut self.data, var_header(symbol));
        write_packed(symbol.id as u64, 1, &mut self.data);
        proof {
            assert(self.data@ =~= var_node(symbol));
            lemma_var_node(symbol);
        }
    }

    /// A view of the variable.
    pub fn to_var_view(&self) -> (r: VarView<'_>)
        requires
            self.wf(),
        ensures
            r.wf(),
            r@ == self@,
    {
        VarView::from_bytes(self.data.as_slice())
    }

    /// Makes this a copy of the variable under `view`.
    pub fn set_from_view(&mut self, view: &VarView)
        ensures
            final(self)@ == view@,
            final(self).wf() == view.wf(),
    {
        self.data.clear();
        append(&mut self.data, view.get_data());
        assert(self.data@ =~= view@);
    }

    /// A view of the variable, as a view of a node of any kind.
    pub fn as_view(&self) -> (r: AtomView<'_>)
        requires
            self.wf(),
        ensures
            r.wf(),
            r@ == self@,
            r is Var,
    {
        AtomView::Var(self.to_var_view())
    }

    /// The symbol of the variable.
    pub fn get_symbol(&self) -> (r: Symbol)
        requires
            self.wf(),
        ensures
            r == self.symbol(),
    {
        self.to_var_view().get_symbol()
    }

    /// The buffer of the variable.
    pub fn into_raw(self) -> (r: RawAtom)
        ensures
            r@ == self@,
    {
        self.data
    }

    /// The bytes of the node.
    pub fn get_data(&self) -> (r: &[u8])
        ensures
            r@ == self@,
    {
        self.data.as_slice()
    }

    /// The capacity of the buffer: at least the number of bytes it holds.
    pub(crate) fn capacity(&self) -> (r: usize)
        ensures
            r >= self@.len(),
    {
        capacity(&self.data)
    }

    /// The variable whose bytes `raw` holds.
    pub fn from_raw(raw: RawAtom) -> (r: Var)
        requires
            node_ok(raw@, VAR_ID),
        ensures
            r.wf(),
            r@ == raw@,
    {
        Var { data: raw }
    }
}

/// The largest number of bytes that a function or a product may take
/// together with the node that is added to it: the size field has four
/// bytes.
pub open spec fn fits_sized(node: Seq<u8>, added: Seq<u8>) -> bool {
    node.len() + added.len() + 17 <= u32::MAX
}

impl Fun {
    /// Whether this is exactly one well-formed function.
    pub open spec fn wf(&self) -> bool {
        node_ok(self@, FUN_ID)
    }

    /// The symbol of the function.
    pub open spec fn symbol(&self) -> Symbol {
        fun_symbol(self@)
    }

    /// The function of `id` without arguments, in `buffer`.
    pub fn new_into(id: Symbol, buffer: RawAtom) -> (r: Fun)
        ensures
            r.wf(),
            r@ == fun_node(fun_flags(id), fun_name_of(id) as nat, 0, Seq::empty()),
            r.symbol() == id.canonical(),
            children(r@) == Seq::<Seq<u8>>::empty(),
            !normalized(r@),
    {
        let mut f = Fun { data: buffer };
        f.set_from_symbol(id);
        f
    }

    /// A copy of the function under `a`, in `buffer`.
    pub fn from_view_into(a: &FunView<'_>, buffer: RawAtom) -> (r: Fun)
        ensures
            r@ == a@,
            r.wf() == a.wf(),
    {
        let mut buffer = buffer;
        buffer.clear();
        append(&mut buffer, a.get_data());
        assert(buffer@ =~= a@);
        Fun { data: buffer }
    }

    /// Makes this the function of `symbol` without arguments. It is marked
    /// as not normalized.
    pub fn set_from_symbol(&mut self, symbol: Symbol)
        ensures
            final(self).wf(),
            final(self)@ == fun_node(
                fun_flags(symbol),
                fun_name_of(symbol) as nat,
                0,
                Seq::empty(),
            ),
            final(self).symbol() == symbol.canonical(),
            children(final(self)@) == Seq::<Seq<u8>>::empty(),
            !normalized(final(self)@),
    {
        self.data.clear();
        let flags = FUN_ID | NOT_NORMALIZED | level_flag(symbol.wildcard_level) | flag_if(
            symbol.is_symmetric || symbol.is_cyclesymmetric,
            FUN_SYMMETRIC_FLAG,
        ) | flag_if(symbol.is_linear, FUN_LINEAR_FLAG);
        put_u8(&mut self.data, flags);
        put_u32_le(&mut self.data, 0);
        let buf_pos = self.data.len();
        let id = if symbol.is_antisymmetric || symbol.is_cyclesymmetric {
            symbol.id as u64 | crate::layout::FUN_ANTISYMMETRIC_FLAG
        } else {
            symbol.id as u64
        };
        write_packed(id, 0, &mut self.data);
        let new_buf_pos = self.data.len();
        proof {
            lemma_le_bytes_len(0, 4);
            lemma_packed_pair_parts(id as nat, 0);
        }
        write_u32_le_at(self.data.as_mut_slice(), 1, (new_buf_pos - buf_pos) as u32);
        proof {
            let node = fun_node(flags, id as nat, 0, Seq::empty());
            lemma_le_bytes_len(packed_size(id as nat, 0), 4);
            assert(self.data@ =~= node);
            lemma_fun_flags(symbol);
            lemma_sized_node(flags, id as nat, 0, Seq::empty(), 0);
        }
    }

    /// Marks the function as normalized or as not normalized.
    pub fn set_normalized(&mut self, normalized: bool)
        requires
            old(self).wf(),
        ensures
            final(self).wf(),
            final(self)@ == old(self)@.update(0, final(self)@[0]),
            crate::view::normalized(final(self)@) == normalized,
            final(self).symbol() == old(self).symbol(),
            children(final(self)@) == children(old(self)@),
    {
        proof {
            lemma_flag_update(self@[0], NOT_NORMALIZED);
            lemma_len_bounds(self@, 0);
        }
        set_flag(&mut self.data, NOT_NORMALIZED, !normalized);
        proof {
            lemma_set_flags(old(self)@, self@[0]);
        }
    }

    /// Appends the argument `other`. The function is then marked as not
    /// normalized.
    pub fn add_arg(&mut self, other: AtomView)
        requires
            old(self).wf(),
            other.wf(),
            fits_sized(old(self)@, other@),
        ensures
            final(self).wf(),
            final(self)@ == fun_node(
                old(self)@[0] | NOT_NORMALIZED,
                fun_name(old(self)@),
                sized_count(old(self)@) + 1,
                sized_args(old(self)@) + other@,
            ),
            children(final(self)@) == children(old(self)@).push(other@),
            final(self).symbol() == old(self).symbol(),
            !normalized(final(self)@),
    {
        let ghost before = self@;
        let ghost args = sized_args(before);
        let ghost count = sized_count(before);
        proof {
            lemma_first_len_by_kind(before);
            lemma_pair_bounds(before.skip(5));
            lemma_len_bounds(args, count);
            lemma_flag_update(before[0], NOT_NORMALIZED);
        }
        set_flag(&mut self.data, NOT_NORMALIZED, true);
        proof {
            lemma_set_flags(before, self@[0]);
            assert(self@.subrange(sized_args_start(self@), self@.len() as int) =~= args);
        }
        let (name, n_args) = read_pair(&self.data, 5);
        rebuild_sized(&mut self.data, name, n_args + 1, other.get_data());
        proof {
            lemma_run_push(args, count, other@);
            lemma_sized_node(
                before[0] | NOT_NORMALIZED,
                name as nat,
                (n_args + 1) as nat,
                args + other@,
                (n_args + 1) as nat,
            );
        }
    }

    /// A view of the function.
    pub fn to_fun_view(&self) -> (r: FunView<'_>)
        requires
            self.wf(),
        ensures
            r.wf(),
            r@ == self@,
    {
        FunView::from_bytes(self.data.as_slice())
    }

    /// Makes this a copy of the function under `view`.
    pub fn set_from_view(&mut self, view: &FunView)
        ensures
            final(self)@ == view@,
            final(self).wf() == view.wf(),
    {
        self.data.clear();
        append(&mut self.data, view.get_data());
        assert(self.data@ =~= view@);
    }

    /// A view of the function, as a view of a node of any kind.
    pub fn as_view(&self) -> (r: AtomView<'_>)
        requires
            self.wf(),
        ensures
            r.wf(),
            r@ == self@,
            r is Fun,
    {
        AtomView::Fun(self.to_fun_view())
    }

    /// The symbol of the function.
    pub fn get_symbol(&self) -> (r: Symbol)
        requires
            self.wf(),
        ensures
            r == self.symbol(),
    {
        self.to_fun_view().get_symbol()
    }

    /// The number of arguments.
    pub fn get_nargs(&self) -> (r: usize)
        requires
            self.wf(),
        ensures
            r == sized_count(self@),
            r == children(self@).len(),
    {
        self.to_fun_view().get_nargs()
    }

    /// The buffer of the function.
    pub fn into_raw(self) -> (r: RawAtom)
        ensures
            r@ == self@,
    {
        self.data
    }

    /// The bytes of the node.
    pub fn get_data(&self) -> (r: &[u8])
        ensures
            r@ == self@,
    {
        self.data.as_slice()
    }

    /// The capacity of the buffer: at least the number of bytes it holds.
    pub(crate) fn capacity(&self) -> (r: usize)
        ensures
            r >= self@.len(),
    {
        capacity(&self.data)
    }

    /// The function whose bytes `raw` holds.
    pub fn from_raw(raw: RawAtom) -> (r: Fun)
        requires
            node_ok(raw@, FUN_ID),
        ensures
            r.wf(),
            r@ == raw@,
    {
        Fun { data: raw }
    }
}

/// An expression raised to the power of another expression.
#[derive(Debug, Clone, Eq, Hash)]
pub struct Pow {
    data: RawAtom,
}

/// A product of expressions.
#[derive(Debug, Clone, Eq, Hash)]
pub struct Mul {
    data: RawAtom,
}

/// A sum of expressions.
#[derive(Debug, Clone, Eq, Hash)]
pub struct Add {
    data: RawAtom,
}

impl View for Pow {
    type V = Seq<u8>;

    closed spec fn view(&self) -> Seq<u8> {
        self.data@
    }
}

impl View for Mul {
    type V = Seq<u8>;

    closed spec fn view(&self) -> Seq<u8> {
        self.data@
    }
}

impl View for Add {
    type V = Seq<u8>;

    closed spec fn view(&self) -> Seq<u8> {
        self.data@
    }
}

impl PartialEq for Pow {
    fn eq(&self, other: &Pow) -> (r: bool) {
        same_bytes(self.data.as_slice(), other.data.as_slice())
    }
}

impl PartialEqSpecImpl for Pow {
    open spec fn obeys_eq_spec() -> bool {
        true
    }

    open spec fn eq_spec(&self, other: &Pow) -> bool {
        self@ == other@
    }
}

impl PartialEq for Mul {
    fn eq(&self, other: &Mul) -> (r: bool) {
        same_bytes(self.data.as_slice(), other.data.as_slice())
    }
}

impl PartialEqSpecImpl for Mul {
    open spec fn obeys_eq_spec() -> bool {
        true
    }

    open spec fn eq_spec(&self, other: &Mul) -> bool {
        self@ == other@
    }
}

impl PartialEq for Add {
    fn eq(&self, other: &Add) -> (r: bool) {
        same_bytes(self.data.as_slice(), other.data.as_slice())
    }
}

impl PartialEqSpecImpl for Add {
    open spec fn obeys_eq_spec() -> bool {
        true
    }

    open spec fn eq_spec(&self, other: &Add) -> bool {
        self@ == other@
    }
}

impl Default for Mul {
    fn default() -> (r: Mul)
        ensures
            r.wf(),
            r@ == mul_node(MUL_ID | NOT_NORMALIZED, 0, Seq::empty()),
    {
        Self::new()
    }
}

impl Default for Add {
    fn default() -> (r: Add)
        ensures
            r.wf(),
            r@ == add_node(ADD_ID | NOT_NORMALIZED, 0, Seq::empty()),
    {
        Self::new()
    }
}

impl Pow {
    /// Whether this is exactly one well-formed power.
    pub open spec fn wf(&self) -> bool {
        node_ok(self@, POW_ID)
    }

    /// The power of `base` to `exp`, in `buffer`.
    pub fn new_into(base: AtomView, exp: AtomView, buffer: RawAtom) -> (r: Pow)
        requires
            base.wf(),
            exp.wf(),
        ensures
            r.wf(),
            r@ == pow_node(POW_ID | NOT_NORMALIZED, base@, exp@),
            children(r@) == seq![base@, exp@],
            !normalized(r@),
    {
        let mut f = Pow { data: buffer };
        f.set_from_base_and_exp(base, exp);
        f
    }

    /// A copy of the power under `a`, in `buffer`.
    pub fn from_view_into(a: &PowView<'_>, buffer: RawAtom) -> (r: Pow)
        ensures
            r@ == a@,
            r.wf() == a.wf(),
    {
        let mut buffer = buffer;
        buffer.clear();
        append(&mut buffer, a.get_data());
        assert(buffer@ =~= a@);
        Pow { data: buffer }
    }

    /// Makes this the power of `base` to `exp`. It is marked as not
    /// normalized.
    pub fn set_from_base_and_exp(&mut self, base: AtomView, exp: AtomView)
        requires
            base.wf(),
            exp.wf(),
        ensures
            final(self).wf(),
            final(self)@ == pow_node(POW_ID | NOT_NORMALIZED, base@, exp@),
            children(final(self)@) == seq![base@, exp@],
            !normalized(final(self)@),
    {
        self.data.clear();
        put_u8(&mut self.data, POW_ID | NOT_NORMALIZED);
        append(&mut self.data, base.get_data());
        append(&mut self.data, exp.get_data());
        proof {
            assert(self.data@ =~= pow_node(POW_ID | NOT_NORMALIZED, base@, exp@));
            lemma_fresh_flags();
            lemma_pow_node(POW_ID | NOT_NORMALIZED, base@, exp@);
        }
    }

    /// Marks the power as normalized or as not normalized.
    pub fn set_normalized(&mut self, normalized: bool)
        requires
            old(self).wf(),
        ensures
            final(self).wf(),
            final(self)@ == old(self)@.update(0, final(self)@[0]),
            crate::view::normalized(final(self)@) == normalized,
            children(final(self)@) == children(old(self)@),
    {
        proof {
            lemma_flag_update(self@[0], NOT_NORMALIZED);
            lemma_len_bounds(self@, 0);
        }
        set_flag(&mut self.data, NOT_NORMALIZED, !normalized);
        proof {
            lemma_set_flags(old(self)@, self@[0]);
        }
    }

    /// A view of the power.
    pub fn to_pow_view(&self) -> (r: PowView<'_>)
        requires
            self.wf(),
        ensures
            r.wf(),
            r@ == self@,
    {
        PowView::from_bytes(self.data.as_slice())
    }

    /// Makes this a copy of the power under `view`.
    pub fn set_from_view(&mut self, view: &PowView)
        ensures
            final(self)@ == view@,
            final(self).wf() == view.wf(),
    {
        self.data.clear();
        append(&mut self.data, view.get_data());
        assert(self.data@ =~= view@);
    }

    /// A view of the power, as a view of a node of any kind.
    pub fn as_view(&self) -> (r: AtomView<'_>)
        requires
            self.wf(),
        ensures
            r.wf(),
            r@ == self@,
            r is Pow,
    {
        AtomView::Pow(self.to_pow_view())
    }

    /// The buffer of the power.
    pub fn into_raw(self) -> (r: RawAtom)
        ensures
            r@ == self@,
    {
        self.data
    }

    /// The bytes of the node.
    pub fn get_data(&self) -> (r: &[u8])
        ensures
            r@ == self@,
    {
        self.data.as_slice()
    }

    /// The capacity of the buffer: at least the number of bytes it holds.
    pub(crate) fn capacity(&self) -> (r: usize)
        ensures
            r >= self@.len(),
    {
        capacity(&self.data)
    }

    /// The power whose bytes `raw` holds.
    pub fn from_raw(raw: RawAtom) -> (r: Pow)
        requires
            node_ok(raw@, POW_ID),
        ensures
            r.wf(),
            r@ == raw@,
    {
        Pow { data: raw }
    }
}

/// How many arguments the node `other` adds to a container of the kind
/// `kind`: its own arguments if it is of that kind, else itself.
pub open spec fn spliced_count(other: Seq<u8>, kind: u8) -> nat {
    if tag_of(other[0]) != kind {
        1
    } else if kind == ADD_ID {
        add_count(other)
    } else {
        sized_count(other)
    }
}

/// The bytes that the node `other` adds to a container of the kind `kind`.
pub open spec fn spliced_args(other: Seq<u8>, kind: u8) -> Seq<u8> {
    if tag_of(other[0]) != kind {
        other
    } else if kind == ADD_ID {
        add_args(other)
    } else {
        sized_args(other)
    }
}

/// The arguments that the node `other` adds to a container of the kind
/// `kind`: a container takes the arguments of a container of its own kind
/// in place of the container, so that a product never holds a product, nor
/// a sum a sum, by being extended.
pub open spec fn spliced_items(other: Seq<u8>, kind: u8) -> Seq<Seq<u8>> {
    if tag_of(other[0]) != kind {
        seq![other]
    } else {
        children(other)
    }
}

/// What a node adds to a container is a complete run of as many nodes as
/// it counts for.
pub proof fn lemma_spliced(other: Seq<u8>, kind: u8)
    requires
        atom_ok(other),
        kind == MUL_ID || kind == ADD_ID,
    ensures
        run_ok(spliced_args(other, kind), spliced_count(other, kind)),
        run_items(spliced_args(other, kind), spliced_count(other, kind)) == spliced_items(
            other,
            kind,
        ),
        2 * spliced_count(other, kind) <= spliced_args(other, kind).len() <= other.len(),
{
    lemma_first_len_by_kind(other);
    if tag_of(other[0]) != kind {
        lemma_run_of_one(other);
        assert(other.subrange(0, other.len() as int) =~= other);
    }
    lemma_len_bounds(spliced_args(other, kind), spliced_count(other, kind));
}

/// The last node of a complete run ends the run, and what stands before
/// it is a complete run of the other nodes.
pub proof fn lemma_last_item(args: Seq<u8>, count: nat)
    requires
        run_ok(args, count),
        count >= 1,
    ensures
        run_items(args, count).len() == count,
        run_items(args, count).last().len() <= args.len(),
        run_ok(
            args.subrange(0, args.len() - run_items(args, count).last().len()),
            (count - 1) as nat,
        ),
        run_items(
            args.subrange(0, args.len() - run_items(args, count).last().len()),
            (count - 1) as nat,
        ) == run_items(args, count).drop_last(),
{
    let items = run_items(args, count);
    lemma_run_items(args, count);
    lemma_run_item_at(args, count, (count - 1) as nat);
    assert((count - 1) as nat + 1 == count);
    lemma_run_split(args, (count - 1) as nat, 1);
    let k = run_len(args, (count - 1) as nat).unwrap() as int;
    lemma_run_of_one(args.skip(k));
    assert(args.skip(k).subrange(0, args.len() - k) =~= args.skip(k));
    assert(items.last().len() == args.len() - k);
    let keep = args.subrange(0, k);
    assert(agree(args, keep, k)) by {
        assert(args.subrange(0, k) =~= keep.subrange(0, k));
    }
    lemma_run_prefix(args, keep, (count - 1) as nat);
    lemma_run_items(args, (count - 1) as nat);
    assert(run_items(args, (count - 1) as nat) =~= items.drop_last());
}

impl Mul {
    /// Whether this is exactly one well-formed product.
    pub open spec fn wf(&self) -> bool {
        node_ok(self@, MUL_ID)
    }

    /// The product without arguments.
    pub fn new() -> (r: Mul)
        ensures
            r.wf(),
            r@ == mul_node(MUL_ID | NOT_NORMALIZED, 0, Seq::empty()),
            children(r@) == Seq::<Seq<u8>>::empty(),
            !normalized(r@),
    {
        Self::new_into(RawAtom::new())
    }

    /// The product without arguments, in `buffer`. It is marked as not
    /// normalized.
    pub fn new_into(buffer: RawAtom) -> (r: Mul)
        ensures
            r.wf(),
            r@ == mul_node(MUL_ID | NOT_NORMALIZED, 0, Seq::empty()),
            children(r@) == Seq::<Seq<u8>>::empty(),
            !normalized(r@),
    {
        let mut buffer = buffer;
        buffer.clear();
        put_u8(&mut buffer, MUL_ID | NOT_NORMALIZED);
        put_u32_le(&mut buffer, 0);
        write_packed(0, 1, &mut buffer);
        proof {
            lemma_le_bytes_len(0, 4);
            lemma_packed_pair_parts(0, 1);
        }
        let len = (buffer.len() - 1 - 4) as u32;
        crate::buffer::set_u32_le(buffer.as_mut_slice(), 1, len);
        proof {
            let node = mul_node(MUL_ID | NOT_NORMALIZED, 0, Seq::empty());
            lemma_le_bytes_len(packed_size(0, 1), 4);
            assert(buffer@ =~= node);
            lemma_fresh_flags();
            lemma_sized_node(MUL_ID | NOT_NORMALIZED, 0, 1, Seq::empty(), 0);
        }
        Mul { data: buffer }
    }

    /// A copy of the product under `a`, in `buffer`.
    pub fn from_view_into(a: &MulView<'_>, buffer: RawAtom) -> (r: Mul)
        ensures
            r@ == a@,
            r.wf() == a.wf(),
    {
        let mut buffer = buffer;
        buffer.clear();
        append(&mut buffer, a.get_data());
        assert(buffer@ =~= a@);
        Mul { data: buffer }
    }

    /// Marks the product as normalized or as not normalized.
    pub fn set_normalized(&mut self, normalized: bool)
        requires
            old(self).wf(),
        ensures
            final(self).wf(),
            final(self)@ == old(self)@.update(0, final(self)@[0]),
            crate::view::normalized(final(self)@) == normalized,
            final(self)@[0] & MUL_HAS_COEFF_FLAG == old(self)@[0] & MUL_HAS_COEFF_FLAG,
            children(final(self)@) == children(old(self)@),
    {
        proof {
            lemma_flag_update(self@[0], NOT_NORMALIZED);
            lemma_len_bounds(self@, 0);
        }
        set_flag(&mut self.data, NOT_NORMALIZED, !normalized);
        proof {
            lemma_set_flags(old(self)@, self@[0]);
        }
    }

    /// Makes this a copy of the product under `view`.
    pub fn set_from_view(&mut self, view: &MulView)
        ensures
            final(self)@ == view@,
            final(self).wf() == view.wf(),
    {
        self.data.clear();
        append(&mut self.data, view.get_data());
        assert(self.data@ =~= view@);
    }

    /// Appends `other` as a factor; if `other` is itself a product, its
    /// factors are appended in its place. The product is then marked as not
    /// normalized.
    pub fn extend(&mut self, other: AtomView<'_>)
        requires
            old(self).wf(),
            other.wf(),
            fits_sized(old(self)@, other@),
        ensures
            final(self).wf(),
            final(self)@ == mul_node(
                old(self)@[0] | NOT_NORMALIZED,
                sized_count(old(self)@) + spliced_count(other@, MUL_ID),
                sized_args(old(self)@) + spliced_args(other@, MUL_ID),
            ),
            children(final(self)@) == children(old(self)@) + spliced_items(other@, MUL_ID),
            sized_count(final(self)@) == sized_count(old(self)@) + spliced_count(other@, MUL_ID),
            final(self)@[0] & MUL_HAS_COEFF_FLAG == old(self)@[0] & MUL_HAS_COEFF_FLAG,
            !normalized(final(self)@),
    {
        let ghost before = self@;
        let ghost args = sized_args(before);
        let ghost count = sized_count(before);
        let ghost more = spliced_args(other@, MUL_ID);
        let ghost more_count = spliced_count(other@, MUL_ID);
        proof {
            lemma_first_len_by_kind(before);
            lemma_pair_bounds(before.skip(5));
            lemma_len_bounds(args, count);
            lemma_flag_update(before[0], NOT_NORMALIZED);
            lemma_spliced(other@, MUL_ID);
        }
        set_flag(&mut self.data, NOT_NORMALIZED, true);
        proof {
            lemma_set_flags(before, self@[0]);
            assert(self@.subrange(sized_args_start(self@), self@.len() as int) =~= args);
        }
        let (n_args, _) = read_pair(&self.data, 5);
        let (sub_n_args, data_start) = mul_parts(other);
        rebuild_sized(&mut self.data, n_args + sub_n_args, 1, data_start);
        proof {
            lemma_run_concat(args, count, more, more_count);
            lemma_sized_node(
                before[0] | NOT_NORMALIZED,
                count + more_count,
                1,
                args + more,
                count + more_count,
            );
        }
    }

    /// The number of bytes of the last factor.
    fn last_size(&self) -> (r: usize)
        requires
            self.wf(),
            sized_count(self@) >= 1,
        ensures
            children(self@).len() == sized_count(self@),
            r == children(self@).last().len(),
    {
        proof {
            lemma_first_len_by_kind(self@);
            lemma_run_items(sized_args(self@), sized_count(self@));
        }
        let s = self.to_mul_view().to_slice();
        let n = s.len();
        s.get(n - 1).get_byte_size()
    }

    /// Puts `other` in the place of the last factor. The product is then
    /// marked as not normalized.
    pub fn replace_last(&mut self, other: AtomView)
        requires
            old(self).wf(),
            other.wf(),
            sized_count(old(self)@) >= 1,
            fits_sized(old(self)@, other@),
        ensures
            final(self).wf(),
            children(old(self)@).len() == sized_count(old(self)@),
            final(self)@ == mul_node(
                old(self)@[0] | NOT_NORMALIZED,
                sized_count(old(self)@),
                sized_args(old(self)@).subrange(
                    0,
                    sized_args(old(self)@).len() - children(old(self)@).last().len(),
                ) + other@,
            ),
            children(final(self)@) == children(old(self)@).drop_last().push(other@),
            !normalized(final(self)@),
    {
        let ghost before = self@;
        let ghost args = sized_args(before);
        let ghost count = sized_count(before);
        proof {
            lemma_first_len_by_kind(before);
            lemma_pair_bounds(before.skip(5));
            lemma_len_bounds(args, count);
            lemma_run_items(args, count);
            lemma_flag_update(before[0], NOT_NORMALIZED);
        }
        let last_len = self.last_size();
        let ghost keep = args.subrange(0, args.len() - last_len);
        proof {
            lemma_last_item(args, count);
        }
        cut_tail(&mut self.data, last_len);
        assert(self@.subrange(sized_args_start(self@), self@.len() as int) =~= keep);
        let (n_args, _) = read_pair(&self.data, 5);
        rebuild_sized(&mut self.data, n_args, 1, other.get_data());
        proof {
            lemma_run_push(keep, (count - 1) as nat, other@);
            assert(((count - 1) as nat + 1) as nat == count);
            lemma_sized_node(before[0] | NOT_NORMALIZED, count, 1, keep + other@, count);
        }
    }

    /// A view of the product.
    pub fn to_mul_view(&self) -> (r: MulView<'_>)
        requires
            self.wf(),
        ensures
            r.wf(),
            r@ == self@,
    {
        MulView::from_bytes(self.data.as_slice())
    }

    /// Marks the product as having a numeric coefficient, or as having
    /// none.
    pub fn set_has_coefficient(&mut self, has_coeff: bool)
        requires
            old(self).wf(),
        ensures
            final(self).wf(),
            final(self)@ == old(self)@.update(0, final(self)@[0]),
            (final(self)@[0] & MUL_HAS_COEFF_FLAG == MUL_HAS_COEFF_FLAG) == has_coeff,
            normalized(final(self)@) == normalized(old(self)@),
            children(final(self)@) == children(old(self)@),
    {
        proof {
            lemma_flag_update(self@[0], MUL_HAS_COEFF_FLAG);
            lemma_len_bounds(self@, 0);
        }
        set_flag(&mut self.data, MUL_HAS_COEFF_FLAG, has_coeff);
        proof {
            lemma_set_flags(old(self)@, self@[0]);
        }
    }

    /// A view of the product, as a view of a node of any kind.
    pub fn as_view(&self) -> (r: AtomView<'_>)
        requires
            self.wf(),
        ensures
            r.wf(),
            r@ == self@,
            r is Mul,
    {
        AtomView::Mul(self.to_mul_view())
    }

    /// The number of factors.
    pub fn get_nargs(&self) -> (r: usize)
        requires
            self.wf(),
        ensures
            r == sized_count(self@),
            r == children(self@).len(),
    {
        self.to_mul_view().get_nargs()
    }

    /// The buffer of the product.
    pub fn into_raw(self) -> (r: RawAtom)
        ensures
            r@ == self@,
    {
        self.data
    }

    /// The bytes of the node.
    pub fn get_data(&self) -> (r: &[u8])
        ensures
            r@ == self@,
    {
        self.data.as_slice()
    }

    /// The capacity of the buffer: at least the number of bytes it holds.
    pub(crate) fn capacity(&self) -> (r: usize)
        ensures
            r >= self@.len(),
    {
        capacity(&self.data)
    }

    /// The product whose bytes `raw` holds.
    pub fn from_raw(raw: RawAtom) -> (r: Mul)
        requires
            node_ok(raw@, MUL_ID),
        ensures
            r.wf(),
            r@ == raw@,
    {
        Mul { data: raw }
    }
}

impl Add {
    /// Whether this is exactly one well-formed sum.
    pub open spec fn wf(&self) -> bool {
        node_ok(self@, ADD_ID)
    }

    /// The sum without terms.
    pub fn new() -> (r: Add)
        ensures
            r.wf(),
            r@ == add_node(ADD_ID | NOT_NORMALIZED, 0, Seq::empty()),
            children(r@) == Seq::<Seq<u8>>::empty(),
            !normalized(r@),
    {
        Self::new_into(RawAtom::new())
    }

    /// The sum without terms, in `buffer`. It is marked as not normalized.
    pub fn new_into(buffer: RawAtom) -> (r: Add)
        ensures
            r.wf(),
            r@ == add_node(ADD_ID | NOT_NORMALIZED, 0, Seq::empty()),
            children(r@) == Seq::<Seq<u8>>::empty(),
            !normalized(r@),
    {
        let mut buffer = buffer;
        buffer.clear();
        put_u8(&mut buffer, ADD_ID | NOT_NORMALIZED);
        write_packed(0, 0, &mut buffer);
        proof {
            assert(buffer@ =~= add_node(ADD_ID | NOT_NORMALIZED, 0, Seq::empty()));
            lemma_fresh_flags();
            lemma_add_node(ADD_ID | NOT_NORMALIZED, 0, Seq::empty());
        }
        Add { data: buffer }
    }

    /// A copy of the sum under `a`, in `buffer`.
    pub fn from_view_into(a: &AddView<'_>, buffer: RawAtom) -> (r: Add)
        ensures
            r@ == a@,
            r.wf() == a.wf(),
    {
        let mut buffer = buffer;
        buffer.clear();
        append(&mut buffer, a.get_data());
        assert(buffer@ =~= a@);
        Add { data: buffer }
    }

    /// Marks the sum as normalized or as not normalized.
    pub fn set_normalized(&mut self, normalized: bool)
        requires
            old(self).wf(),
        ensures
            final(self).wf(),
            final(self)@ == old(self)@.update(0, final(self)@[0]),
            crate::view::normalized(final(self)@) == normalized,
            children(final(self)@) == children(old(self)@),
    {
        proof {
            lemma_flag_update(self@[0], NOT_NORMALIZED);
            lemma_len_bounds(self@, 0);
        }
        set_flag(&mut self.data, NOT_NORMALIZED, !normalized);
        proof {
            lemma_set_flags(old(self)@, self@[0]);
        }
    }

    /// Appends `other` as a term; if `other` is itself a sum, its terms are
    /// appended in its place. The sum is then marked as not normalized.
    pub fn extend(&mut self, other: AtomView<'_>)
        requires
            old(self).wf(),
            other.wf(),
            old(self)@.len() + other@.len() + 17 <= usize::MAX,
        ensures
            final(self).wf(),
            final(self)@ == add_node(
                old(self)@[0] | NOT_NORMALIZED,
                add_count(old(self)@) + spliced_count(other@, ADD_ID),
                add_args(old(self)@) + spliced_args(other@, ADD_ID),
            ),
            children(final(self)@) == children(old(self)@) + spliced_items(other@, ADD_ID),
            add_count(final(self)@) == add_count(old(self)@) + spliced_count(other@, ADD_ID),
            !normalized(final(self)@),
    {
        let ghost before = self@;
        let ghost args = add_args(before);
        let ghost count = add_count(before);
        let ghost more = spliced_args(other@, ADD_ID);
        let ghost more_count = spliced_count(other@, ADD_ID);
        proof {
            lemma_first_len_by_kind(before);
            lemma_pair_bounds(before.skip(1));
            lemma_len_bounds(args, count);
            lemma_flag_update(before[0], NOT_NORMALIZED);
            lemma_spliced(other@, ADD_ID);
        }
        set_flag(&mut self.data, NOT_NORMALIZED, true);
        proof {
            lemma_set_flags(before, self@[0]);
            assert(self@.subrange(add_args_start(self@), self@.len() as int) =~= args);
        }
        let (n_args, _) = read_pair(&self.data, 1);
        let (sub_n_args, data_start) = add_parts(other);
        rebuild_add(&mut self.data, n_args + sub_n_args, data_start);
        proof {
            lemma_run_concat(args, count, more, more_count);
            lemma_add_node(before[0] | NOT_NORMALIZED, count + more_count, args + more);
        }
    }

    /// A view of the sum.
    pub fn to_add_view(&self) -> (r: AddView<'_>)
        requires
            self.wf(),
        ensures
            r.wf(),
            r@ == self@,
    {
        AddView::from_bytes(self.data.as_slice())
    }

    /// Makes this a copy of the sum under `view`.
    pub fn set_from_view(&mut self, view: AddView)
        ensures
            final(self)@ == view@,
            final(self).wf() == view.wf(),
    {
        self.data.clear();
        append(&mut self.data, view.get_data());
        assert(self.data@ =~= view@);
    }

    /// A view of the sum, as a view of a node of any kind.
    pub fn as_view(&self) -> (r: AtomView<'_>)
        requires
            self.wf(),
        ensures
            r.wf(),
            r@ == self@,
            r is Add,
    {
        AtomView::Add(self.to_add_view())
    }

    /// The number of terms.
    pub fn get_nargs(&self) -> (r: usize)
        requires
            self.wf(),
        ensures
            r == add_count(self@),
            r == children(self@).len(),
    {
        self.to_add_view().get_nargs()
    }

    /// The buffer of the sum.
    pub fn into_raw(self) -> (r: RawAtom)
        ensures
            r@ == self@,
    {
        self.data
    }

    /// The bytes of the node.
    pub fn get_data(&self) -> (r: &[u8])
        ensures
            r@ == self@,
    {
        self.data.as_slice()
    }

    /// The capacity of the buffer: at least the number of bytes it holds.
    pub(crate) fn capacity(&self) -> (r: usize)
        ensures
            r >= self@.len(),
    {
        capacity(&self.data)
    }

    /// The sum whose bytes `raw` holds.
    pub fn from_raw(raw: RawAtom) -> (r: Add)
        requires
            node_ok(raw@, ADD_ID),
        ensures
            r.wf(),
            r@ == raw@,
    {
        Add { data: raw }
    }

    /// Makes room for `size` bytes in all; the sum stays as it is.
    pub fn grow_capacity(&mut self, size: usize)
        ensures
            final(self)@ == old(self)@,
    {
        let available = capacity(&self.data);
        if size > available {
            let additional = size - available;
            self.data.reserve(additional);
        }
    }
}

} // verus!
