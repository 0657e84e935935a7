//! Read-only views of encoded nodes, and navigation through lists of
//! nodes.
//!
//! A view borrows the bytes of exactly one well-formed node. Its model (`@`)
//! is that byte sequence. A list borrows the bytes of a run of nodes; its
//! model is the sequence of the nodes' encodings.

use crate::buffer::{advance, get_u32_le, get_u8, lex_less, lex_sign, same_bytes};
use crate::builder::{Add, Fun, Mul, Num, Pow, RawAtom, Var};
use crate::coefficient::{
    coeff_len, coeff_ok, coeff_value, CoefficientView, CoeffValue, get_coeff_view,
    lemma_coeff_bounds, skip_rational,
};
use crate::layout::{
    add_args, add_count, ADD_ID, atom_ok, children, first_len, FUN_ANTISYMMETRIC_FLAG, FUN_ID,
    FUN_LINEAR_FLAG, fun_name, FUN_SYMMETRIC_FLAG, lemma_first_len_by_kind, lemma_first_prefix,
    lemma_len_bounds, lemma_pow_parts, lemma_run_items, lemma_run_of_one, lemma_run_prefix,
    lemma_run_split, lemma_run_step, MUL_HAS_COEFF_FLAG, MUL_ID, NOT_NORMALIZED, NUM_ID, POW_ID,
    run_items, run_len, run_ok, sized_args, sized_count, tag_of, TYPE_MASK, VAR_ANTISYMMETRIC_FLAG,
    VAR_CYCLESYMMETRIC_FLAG, VAR_ID,
};
use crate::node::{lemma_num_node, lemma_zero_one_bytes};
use crate::packed::{agree, get_frac_u64};
use crate::symbol::{fun_symbol, level_from, level_of, Symbol, var_symbol};
use std::cmp::Ordering;
use std::hash::{Hash, Hasher};
use vstd::prelude::*;
use vstd::slice::slice_subrange;
use vstd::std_specs::cmp::PartialEqSpecImpl;

verus! {

/// Whether `s` is exactly one well-formed node of the kind `kind`.
pub open spec fn node_ok(s: Seq<u8>, kind: u8) -> bool {
    atom_ok(s) && tag_of(s[0]) == kind
}

/// How `a` stands to `b` in the order of byte strings.
pub open spec fn byte_order(a: Seq<u8>, b: Seq<u8>) -> Ordering {
    if a == b {
        Ordering::Equal
    } else if lex_less(a, b) {
        Ordering::Less
    } else {
        Ordering::Greater
    }
}

/// Whether the header byte of the node `s` says that it is normalized.
pub open spec fn normalized(s: Seq<u8>) -> bool {
    s[0] & NOT_NORMALIZED == 0
}

/// What a list of nodes is the argument list of.
#[derive(Debug, Copy, Clone, PartialEq, Eq, Hash, Structural)]
pub enum SliceType {
    Add,
    Mul,
    Arg,
    One,
    Pow,
    Empty,
}

/// The bytes of the number zero.
pub const ZERO_DATA: [u8; 3] = [1, 1, 0];

/// A view of a number.
#[derive(Debug, Copy, Clone, Eq, Hash)]
pub struct NumView<'a> {
    data: &'a [u8],
}

/// A view of a variable.
#[derive(Debug, Copy, Clone, Eq, Hash)]
pub struct VarView<'a> {
    data: &'a [u8],
}

/// A view of a function.
#[derive(Debug, Copy, Clone, Eq, Hash)]
pub struct FunView<'a> {
    data: &'a [u8],
}

/// A view of a power.
#[derive(Debug, Copy, Clone, Eq, Hash)]
pub struct PowView<'a> {
    data: &'a [u8],
}

/// A view of a product.
#[derive(Debug, Copy, Clone, Eq, Hash)]
pub struct MulView<'a> {
    data: &'a [u8],
}

/// A view of a sum.
#[derive(Debug, Copy, Clone, Eq, Hash)]
pub struct AddView<'a> {
    data: &'a [u8],
}

/// A view of a node of any kind.
#[derive(Debug, Copy, Clone, Eq)]
pub enum AtomView<'a> {
    Num(NumView<'a>),
    Var(VarView<'a>),
    Fun(FunView<'a>),
    Pow(PowView<'a>),
    Mul(MulView<'a>),
    Add(AddView<'a>),
}

/// A forward iterator over a list of nodes.
#[derive(Debug, Copy, Clone)]
pub struct ListIterator<'a> {
    data: &'a [u8],
    length: usize,
}

/// A list of nodes with access by index.
#[derive(Debug, Copy, Clone)]
pub struct ListSlice<'a> {
    data: &'a [u8],
    length: usize,
    slice_type: SliceType,
}

/// A forward iterator over a `ListSlice`.
#[derive(Debug, Copy, Clone)]
pub struct ListSliceIterator<'a> {
    data: ListSlice<'a>,
}

impl<'a> View for NumView<'a> {
    type V = Seq<u8>;

    closed spec fn view(&self) -> Seq<u8> {
        self.data@
    }
}

impl<'a> View for VarView<'a> {
    type V = Seq<u8>;

    closed spec fn view(&self) -> Seq<u8> {
        self.data@
    }
}

impl<'a> View for FunView<'a> {
    type V = Seq<u8>;

    closed spec fn view(&self) -> Seq<u8> {
        self.data@
    }
}

impl<'a> View for PowView<'a> {
    type V = Seq<u8>;

    closed spec fn view(&self) -> Seq<u8> {
        self.data@
    }
}

impl<'a> View for MulView<'a> {
    type V = Seq<u8>;

    closed spec fn view(&self) -> Seq<u8> {
        self.data@
    }
}

impl<'a> View for AddView<'a> {
    type V = Seq<u8>;

    closed spec fn view(&self) -> Seq<u8> {
        self.data@
    }
}

impl<'a> View for AtomView<'a> {
    type V = Seq<u8>;

    open spec fn view(&self) -> Seq<u8> {
        match self {
            AtomView::Num(n) => n@,
            AtomView::Var(v) => v@,
            AtomView::Fun(f) => f@,
            AtomView::Pow(p) => p@,
            AtomView::Mul(m) => m@,
            AtomView::Add(a) => a@,
        }
    }
}

impl<'a> View for ListIterator<'a> {
    type V = Seq<Seq<u8>>;

    /// The nodes that are still to come, in order.
    closed spec fn view(&self) -> Seq<Seq<u8>> {
        run_items(self.data@, self.length as nat)
    }
}

impl<'a> View for ListSlice<'a> {
    type V = Seq<Seq<u8>>;

    /// The nodes of the list, in order.
    closed spec fn view(&self) -> Seq<Seq<u8>> {
        run_items(self.data@, self.length as nat)
    }
}

impl<'a> View for ListSliceIterator<'a> {
    type V = Seq<Seq<u8>>;

    /// The nodes that are still to come, in order.
    closed spec fn view(&self) -> Seq<Seq<u8>> {
        self.data@
    }
}

impl<'a> PartialEq for NumView<'a> {
    fn eq(&self, other: &NumView<'a>) -> (r: bool) {
        same_bytes(self.data, other.data)
    }
}

impl<'a> PartialEqSpecImpl for NumView<'a> {
    open spec fn obeys_eq_spec() -> bool {
        true
    }

    open spec fn eq_spec(&self, other: &NumView<'a>) -> bool {
        self@ == other@
    }
}

impl<'a> PartialEq for VarView<'a> {
    fn eq(&self, other: &VarView<'a>) -> (r: bool) {
        same_bytes(self.data, other.data)
    }
}

impl<'a> PartialEqSpecImpl for VarView<'a> {
    open spec fn obeys_eq_spec() -> bool {
        true
    }

    open spec fn eq_spec(&self, other: &VarView<'a>) -> bool {
        self@ == other@
    }
}

impl<'a> PartialEq for FunView<'a> {
    fn eq(&self, other: &FunView<'a>) -> (r: bool) {
        same_bytes(self.data, other.data)
    }
}

impl<'a> PartialEqSpecImpl for FunView<'a> {
    open spec fn obeys_eq_spec() -> bool {
        true
    }

    open spec fn eq_spec(&self, other: &FunView<'a>) -> bool {
        self@ == other@
    }
}

impl<'a> PartialEq for PowView<'a> {
    fn eq(&self, other: &PowView<'a>) -> (r: bool) {
        same_bytes(self.data, other.data)
    }
}

impl<'a> PartialEqSpecImpl for PowView<'a> {
    open spec fn obeys_eq_spec() -> bool {
        true
    }

    open spec fn eq_spec(&self, other: &PowView<'a>) -> bool {
        self@ == other@
    }
}

impl<'a> PartialEq for MulView<'a> {
    fn eq(&self, other: &MulView<'a>) -> (r: bool) {
        same_bytes(self.data, other.data)
    }
}

impl<'a> PartialEqSpecImpl for MulView<'a> {
    open spec fn obeys_eq_spec() -> bool {
        true
    }

    open spec fn eq_spec(&self, other: &MulView<'a>) -> bool {
        self@ == other@
    }
}

impl<'a> PartialEq for AddView<'a> {
    fn eq(&self, other: &AddView<'a>) -> (r: bool) {
        same_bytes(self.data, other.data)
    }
}

impl<'a> PartialEqSpecImpl for AddView<'a> {
    open spec fn obeys_eq_spec() -> bool {
        true
    }

    open spec fn eq_spec(&self, other: &AddView<'a>) -> bool {
        self@ == other@
    }
}

impl<'a> Hash for AtomView<'a> {
    /// A view is hashed as its bytes are.
    fn hash<H: Hasher>(&self, state: &mut H) {
        self.get_data().hash(state)
    }
}

impl<'a> PartialEq for AtomView<'a> {
    /// Two views are equal when their encodings are the same bytes.
    fn eq(&self, other: &AtomView<'a>) -> (r: bool) {
        same_bytes(self.get_data(), other.get_data())
    }
}

impl<'a> PartialEqSpecImpl for AtomView<'a> {
    open spec fn obeys_eq_spec() -> bool {
        true
    }

    open spec fn eq_spec(&self, other: &AtomView<'a>) -> bool {
        self@ == other@
    }
}

impl<'a> AtomView<'a> {
    /// Whether the view is over exactly one well-formed node of the kind
    /// that its variant names.
    pub open spec fn wf(&self) -> bool {
        match self {
            AtomView::Num(n) => n.wf(),
            AtomView::Var(v) => v.wf(),
            AtomView::Fun(f) => f.wf(),
            AtomView::Pow(p) => p.wf(),
            AtomView::Mul(m) => m.wf(),
            AtomView::Add(a) => a.wf(),
        }
    }

    /// The view of the node that `source` holds; its kind is read from the
    /// header byte.
    pub fn from(source: &'a [u8]) -> (r: AtomView<'a>)
        requires
            atom_ok(source@),
        ensures
            r@ == source@,
            r.wf(),
            tag_of(source@[0]) == NUM_ID <==> r is Num,
            tag_of(source@[0]) == VAR_ID <==> r is Var,
            tag_of(source@[0]) == FUN_ID <==> r is Fun,
            tag_of(source@[0]) == POW_ID <==> r is Pow,
            tag_of(source@[0]) == MUL_ID <==> r is Mul,
            tag_of(source@[0]) == ADD_ID <==> r is Add,
    {
        let id = source[0] & TYPE_MASK;
        if id == VAR_ID {
            AtomView::Var(VarView { data: source })
        } else if id == FUN_ID {
            AtomView::Fun(FunView { data: source })
        } else if id == NUM_ID {
            AtomView::Num(NumView { data: source })
        } else if id == POW_ID {
            AtomView::Pow(PowView { data: source })
        } else if id == MUL_ID {
            AtomView::Mul(MulView { data: source })
        } else {
            AtomView::Add(AddView { data: source })
        }
    }

    /// A view of the number zero.
    pub fn zero() -> (r: AtomView<'static>)
        ensures
            r.wf(),
            r is Num,
            r@ == seq![1u8, 1u8, 0u8],
    {
        let data: &'static [u8; 3] = &ZERO_DATA;
        proof {
            lemma_zero_one_bytes();
            lemma_num_node(CoeffValue::Rational(0, 1));
            assert(data@ =~= seq![1u8, 1u8, 0u8]);
        }
        AtomView::Num(NumView { data: data.as_slice() })
    }

    /// The bytes of the node.
    pub fn get_data(&self) -> (r: &'a [u8])
        ensures
            r@ == self@,
    {
        match self {
            AtomView::Num(n) => n.data,
            AtomView::Var(v) => v.data,
            AtomView::Fun(f) => f.data,
            AtomView::Pow(p) => p.data,
            AtomView::Mul(t) => t.data,
            AtomView::Add(e) => e.data,
        }
    }

    /// The number of bytes of the node.
    pub fn get_byte_size(&self) -> (r: usize)
        ensures
            r == self@.len(),
    {
        self.get_data().len()
    }
}

impl<'a> NumView<'a> {
    /// An owned copy of the number.
    pub fn to_owned(&self) -> (r: Num)
        ensures
            r@ == self@,
            r.wf() == self.wf(),
    {
        Num::from_view_into(self, Vec::new())
    }

    /// Makes `target` a copy of the number.
    pub fn clone_into(&self, target: &mut Num)
        ensures
            final(target)@ == self@,
            final(target).wf() == self.wf(),
    {
        target.set_from_view(self);
    }

    /// An owned copy of the number, in `buffer`.
    pub fn clone_into_raw(&self, buffer: RawAtom) -> (r: Num)
        ensures
            r@ == self@,
            r.wf() == self.wf(),
    {
        Num::from_view_into(self, buffer)
    }

    /// Whether this is exactly one well-formed number.
    pub open spec fn wf(&self) -> bool {
        node_ok(self@, NUM_ID)
    }

    /// The coefficient that the number holds.
    pub open spec fn value(&self) -> CoeffValue {
        coeff_value(self@.skip(1))
    }

    pub(crate) fn from_bytes(data: &'a [u8]) -> (r: NumView<'a>)
        requires
            node_ok(data@, NUM_ID),
        ensures
            r@ == data@,
            r.wf(),
    {
        NumView { data }
    }

    /// The bytes of the number.
    pub fn get_data(&self) -> (r: &'a [u8])
        ensures
            r@ == self@,
    {
        self.data
    }

    /// Whether the number is stored as the canonical zero.
    pub fn is_zero(&self) -> (r: bool)
        requires
            self.wf(),
        ensures
            r == (self@.skip(1) == seq![1u8, 0u8]),
            r ==> self.value() == CoeffValue::Rational(0, 1),
    {
        proof {
            lemma_coeff_bounds(self@.skip(1));
            lemma_small_coeff(self@.skip(1));
            let body = self@.skip(1);
            if body[0] == 1 && body[1] == 0 {
                assert(body =~= seq![1u8, 0u8]);
            }
        }
        self.data[1] == 1 && self.data[2] == 0
    }

    /// Whether the number is stored as the canonical one.
    pub fn is_one(&self) -> (r: bool)
        requires
            self.wf(),
        ensures
            r == (self@.skip(1) == seq![1u8, 1u8]),
            r ==> self.value() == CoeffValue::Rational(1, 1),
    {
        proof {
            lemma_coeff_bounds(self@.skip(1));
            lemma_small_coeff(self@.skip(1));
            let body = self@.skip(1);
            if body[0] == 1 && body[1] == 1 {
                assert(body =~= seq![1u8, 1u8]);
            }
        }
        self.data[1] == 1 && self.data[2] == 1
    }

    /// The coefficient that the number holds.
    pub fn get_coeff_view(&self) -> (r: CoefficientView<'a>)
        requires
            self.wf(),
        ensures
            r@ == self.value(),
    {
        let (_, body) = get_u8(self.data);
        get_coeff_view(body).0
    }

    /// A view of the number, as a view of a node of any kind.
    pub fn as_view(&self) -> (r: AtomView<'a>)
        ensures
            r == AtomView::Num(*self),
    {
        AtomView::Num(*self)
    }

    /// The number of bytes of the number.
    pub fn get_byte_size(&self) -> (r: usize)
        ensures
            r == self@.len(),
    {
        self.data.len()
    }
}

/// A coefficient whose first two bytes are 1 and a byte below 2 is that
/// byte as a whole number, stored in two bytes.
proof fn lemma_small_coeff(body: Seq<u8>)
    requires
        coeff_ok(body),
        body.len() >= 2,
    ensures
        body[0] == 1 && body[1] < 2 ==> coeff_len(body) == 2 && coeff_value(body)
            == CoeffValue::Rational(body[1] as i64, 1),
{
    if body[0] == 1 && body[1] < 2 {
        assert(1u8 & 0x0f == 1 && (1u8 & 0x70) >> 4 == 0 && 1u8 & 0x80 == 0) by (bit_vector);
        crate::packed::lemma_le_value_one(body.subrange(1, 2));
    }
}

impl<'a> VarView<'a> {
    /// An owned copy of the variable.
    pub fn to_owned(&self) -> (r: Var)
        ensures
            r@ == self@,
            r.wf() == self.wf(),
    {
        Var::from_view_into(self, Vec::new())
    }

    /// Makes `target` a copy of the variable.
    pub fn clone_into(&self, target: &mut Var)
        ensures
            final(target)@ == self@,
            final(target).wf() == self.wf(),
    {
        target.set_from_view(self);
    }

    /// An owned copy of the variable, in `buffer`.
    pub fn clone_into_raw(&self, buffer: RawAtom) -> (r: Var)
        ensures
            r@ == self@,
            r.wf() == self.wf(),
    {
        Var::from_view_into(self, buffer)
    }

    /// Whether this is exactly one well-formed variable.
    pub open spec fn wf(&self) -> bool {
        node_ok(self@, VAR_ID)
    }

    /// The symbol of the variable.
    pub open spec fn symbol(&self) -> Symbol {
        var_symbol(self@)
    }

    pub(crate) fn from_bytes(data: &'a [u8]) -> (r: VarView<'a>)
        requires
            node_ok(data@, VAR_ID),
        ensures
            r@ == data@,
            r.wf(),
    {
        VarView { data }
    }

    /// The bytes of the variable.
    pub fn get_data(&self) -> (r: &'a [u8])
        ensures
            r@ == self@,
    {
        self.data
    }

    /// The symbol of the variable.
    pub fn get_symbol(&self) -> (r: Symbol)
        requires
            self.wf(),
        ensures
            r == self.symbol(),
    {
        let flags = self.data[0];
        let is_cyclesymmetric = flags & VAR_CYCLESYMMETRIC_FLAG == VAR_CYCLESYMMETRIC_FLAG;
        let (_, body) = get_u8(self.data);
        let (id, _, _) = get_frac_u64(body);
        Symbol::raw_fn(
            id as u32,
            self.get_wildcard_level(),
            !is_cyclesymmetric && flags & FUN_SYMMETRIC_FLAG == FUN_SYMMETRIC_FLAG,
            !is_cyclesymmetric && flags & VAR_ANTISYMMETRIC_FLAG == VAR_ANTISYMMETRIC_FLAG,
            is_cyclesymmetric,
            flags & FUN_LINEAR_FLAG == FUN_LINEAR_FLAG,
        )
    }

    /// The wildcard level of the variable's symbol.
    pub fn get_wildcard_level(&self) -> (r: u8)
        requires
            self.wf(),
        ensures
            r == level_of(self@[0]),
            r == self.symbol().wildcard_level,
            r <= 3,
    {
        level_from(self.data[0])
    }

    /// A view of the variable, as a view of a node of any kind.
    pub fn as_view(&self) -> (r: AtomView<'a>)
        ensures
            r == AtomView::Var(*self),
    {
        AtomView::Var(*self)
    }

    /// The number of bytes of the variable.
    pub fn get_byte_size(&self) -> (r: usize)
        ensures
            r == self@.len(),
    {
        self.data.len()
    }
}

impl<'a> FunView<'a> {
    /// An owned copy of the function.
    pub fn to_owned(&self) -> (r: Fun)
        ensures
            r@ == self@,
            r.wf() == self.wf(),
    {
        Fun::from_view_into(self, Vec::new())
    }

    /// Makes `target` a copy of the function.
    pub fn clone_into(&self, target: &mut Fun)
        ensures
            final(target)@ == self@,
            final(target).wf() == self.wf(),
    {
        target.set_from_view(self);
    }

    /// An owned copy of the function, in `buffer`.
    pub fn clone_into_raw(&self, buffer: RawAtom) -> (r: Fun)
        ensures
            r@ == self@,
            r.wf() == self.wf(),
    {
        Fun::from_view_into(self, buffer)
    }

    /// Whether this is exactly one well-formed function.
    pub open spec fn wf(&self) -> bool {
        node_ok(self@, FUN_ID)
    }

    /// The symbol of the function.
    pub open spec fn symbol(&self) -> Symbol {
        fun_symbol(self@)
    }

    pub(crate) fn from_bytes(data: &'a [u8]) -> (r: FunView<'a>)
        requires
            node_ok(data@, FUN_ID),
        ensures
            r@ == data@,
            r.wf(),
    {
        FunView { data }
    }

    /// The bytes of the function.
    pub fn get_data(&self) -> (r: &'a [u8])
        ensures
            r@ == self@,
    {
        self.data
    }

    /// The name that the function stores, and its argument count.
    pub(crate) fn header(&self) -> (r: (u64, u64, &'a [u8]))
        requires
            self.wf(),
        ensures
            r.0 == fun_name(self@),
            r.1 == sized_count(self@),
            r.1 <= usize::MAX,
            r.2@ == sized_args(self@),
            run_ok(r.2@, r.1 as nat),
    {
        let (_, c) = get_u8(self.data);
        let (_, c) = get_u32_le(c);
        assert(c@ =~= self@.skip(5));
        let (name, n_args, c) = get_frac_u64(c);
        proof {
            assert(c@ =~= sized_args(self@));
            lemma_len_bounds(c@, n_args as nat);
            assert(n_args <= c.len());
        }
        (name, n_args, c)
    }

    /// The symbol of the function.
    pub fn get_symbol(&self) -> (r: Symbol)
        requires
            self.wf(),
        ensures
            r == self.symbol(),
    {
        let (id, _, _) = self.header();
        let flags = self.data[0];
        let is_cyclesymmetric = flags & FUN_SYMMETRIC_FLAG == FUN_SYMMETRIC_FLAG && id
            & FUN_ANTISYMMETRIC_FLAG == FUN_ANTISYMMETRIC_FLAG;
        Symbol::raw_fn(
            (id & 0xffff_ffff) as u32,
            self.get_wildcard_level(),
            !is_cyclesymmetric && flags & FUN_SYMMETRIC_FLAG == FUN_SYMMETRIC_FLAG,
            !is_cyclesymmetric && id & FUN_ANTISYMMETRIC_FLAG == FUN_ANTISYMMETRIC_FLAG,
            is_cyclesymmetric,
            self.is_linear(),
        )
    }

    /// Whether the function's symbol is symmetric.
    pub fn is_symmetric(&self) -> (r: bool)
        requires
            self.wf(),
        ensures
            r == self.symbol().is_symmetric,
    {
        if self.data[0] & FUN_SYMMETRIC_FLAG != FUN_SYMMETRIC_FLAG {
            return false;
        }
        let (id, _, _) = self.header();
        id & FUN_ANTISYMMETRIC_FLAG != FUN_ANTISYMMETRIC_FLAG
    }

    /// Whether the function's symbol is antisymmetric.
    pub fn is_antisymmetric(&self) -> (r: bool)
        requires
            self.wf(),
        ensures
            r == self.symbol().is_antisymmetric,
    {
        if self.data[0] & FUN_SYMMETRIC_FLAG == FUN_SYMMETRIC_FLAG {
            return false;
        }
        let (id, _, _) = self.header();
        id & FUN_ANTISYMMETRIC_FLAG == FUN_ANTISYMMETRIC_FLAG
    }

    /// Whether the function's symbol is cyclesymmetric.
    pub fn is_cyclesymmetric(&self) -> (r: bool)
        requires
            self.wf(),
        ensures
            r == self.symbol().is_cyclesymmetric,
    {
        if self.data[0] & FUN_SYMMETRIC_FLAG != FUN_SYMMETRIC_FLAG {
            return false;
        }
        let (id, _, _) = self.header();
        id & FUN_ANTISYMMETRIC_FLAG == FUN_ANTISYMMETRIC_FLAG
    }

    /// Whether the function's symbol is linear.
    pub fn is_linear(&self) -> (r: bool)
        requires
            self.wf(),
        ensures
            r == self.symbol().is_linear,
    {
        self.data[0] & FUN_LINEAR_FLAG == FUN_LINEAR_FLAG
    }

    /// The wildcard level of the function's symbol.
    pub fn get_wildcard_level(&self) -> (r: u8)
        requires
            self.wf(),
        ensures
            r == self.symbol().wildcard_level,
            r <= 3,
    {
        level_from(self.data[0])
    }

    /// The number of arguments.
    pub fn get_nargs(&self) -> (r: usize)
        requires
            self.wf(),
        ensures
            r == sized_count(self@),
            r == children(self@).len(),
    {
        let (_, n_args, c) = self.header();
        proof {
            lemma_run_items(c@, n_args as nat);
        }
        n_args as usize
    }

    /// Whether the function is marked as normalized.
    pub fn is_normalized(&self) -> (r: bool)
        requires
            self.wf(),
        ensures
            r == normalized(self@),
    {
        (self.data[0] & NOT_NORMALIZED) == 0
    }

    /// An iterator over the arguments.
    pub fn iter(&self) -> (r: ListIterator<'a>)
        requires
            self.wf(),
        ensures
            r.wf(),
            r@ == children(self@),
    {
        let (_, n_args, c) = self.header();
        ListIterator { data: c, length: n_args as usize }
    }

    /// A view of the function, as a view of a node of any kind.
    pub fn as_view(&self) -> (r: AtomView<'a>)
        ensures
            r == AtomView::Fun(*self),
    {
        AtomView::Fun(*self)
    }

    /// How the bytes of this function stand to those of `other` in the
    /// order of byte strings.
    pub fn fast_cmp(&self, other: FunView) -> (r: Ordering)
        ensures
            r == byte_order(self@, other@),
    {
        let sign = lex_sign(self.data, other.data);
        if sign < 0 {
            Ordering::Less
        } else if sign == 0 {
            Ordering::Equal
        } else {
            Ordering::Greater
        }
    }

    /// The arguments as a list with access by index.
    pub fn to_slice(&self) -> (r: ListSlice<'a>)
        requires
            self.wf(),
        ensures
            r.wf(),
            r@ == children(self@),
            r.spec_type() == SliceType::Arg,
    {
        let (_, n_args, c) = self.header();
        ListSlice { data: c, length: n_args as usize, slice_type: SliceType::Arg }
    }

    /// The number of bytes of the function.
    pub fn get_byte_size(&self) -> (r: usize)
        ensures
            r == self@.len(),
    {
        self.data.len()
    }
}

impl<'a> PowView<'a> {
    /// An owned copy of the power.
    pub fn to_owned(&self) -> (r: Pow)
        ensures
            r@ == self@,
            r.wf() == self.wf(),
    {
        Pow::from_view_into(self, Vec::new())
    }

    /// Makes `target` a copy of the power.
    pub fn clone_into(&self, target: &mut Pow)
        ensures
            final(target)@ == self@,
            final(target).wf() == self.wf(),
    {
        target.set_from_view(self);
    }

    /// An owned copy of the power, in `buffer`.
    pub fn clone_into_raw(&self, buffer: RawAtom) -> (r: Pow)
        ensures
            r@ == self@,
            r.wf() == self.wf(),
    {
        Pow::from_view_into(self, buffer)
    }

    /// Whether this is exactly one well-formed power.
    pub open spec fn wf(&self) -> bool {
        node_ok(self@, POW_ID)
    }

    pub(crate) fn from_bytes(data: &'a [u8]) -> (r: PowView<'a>)
        requires
            node_ok(data@, POW_ID),
        ensures
            r@ == data@,
            r.wf(),
    {
        PowView { data }
    }

    /// The bytes of the power.
    pub fn get_data(&self) -> (r: &'a [u8])
        ensures
            r@ == self@,
    {
        self.data
    }

    /// The base of the power.
    pub fn get_base(&self) -> (r: AtomView<'a>)
        requires
            self.wf(),
        ensures
            r.wf(),
            r@ == children(self@)[0],
    {
        let (b, _) = self.get_base_exp();
        b
    }

    /// The exponent of the power.
    pub fn get_exp(&self) -> (r: AtomView<'a>)
        requires
            self.wf(),
        ensures
            r.wf(),
            r@ == children(self@)[1],
    {
        let (_, e) = self.get_base_exp();
        e
    }

    /// Whether the power is marked as normalized.
    pub fn is_normalized(&self) -> (r: bool)
        requires
            self.wf(),
        ensures
            r == normalized(self@),
    {
        (self.data[0] & NOT_NORMALIZED) == 0
    }

    /// Base and exponent of the power.
    pub fn get_base_exp(&self) -> (r: (AtomView<'a>, AtomView<'a>))
        requires
            self.wf(),
        ensures
            r.0.wf(),
            r.1.wf(),
            children(self@).len() == 2,
            r.0@ == children(self@)[0],
            r.1@ == children(self@)[1],
            self@ == seq![self@[0]] + r.0@ + r.1@,
    {
        let (_, body) = get_u8(self.data);
        proof {
            lemma_pow_parts(self@);
        }
        let (b, rest) = ListSlice::get_entry(body);
        let (e, _) = ListSlice::get_entry(rest);
        (b, e)
    }

    /// A view of the power, as a view of a node of any kind.
    pub fn as_view(&self) -> (r: AtomView<'a>)
        ensures
            r == AtomView::Pow(*self),
    {
        AtomView::Pow(*self)
    }

    /// Base and exponent as a list with access by index: always two nodes.
    pub fn to_slice(&self) -> (r: ListSlice<'a>)
        requires
            self.wf(),
        ensures
            r.wf(),
            r@ == children(self@),
            r@.len() == 2,
            r.spec_type() == SliceType::Pow,
    {
        let (_, body) = get_u8(self.data);
        proof {
            lemma_run_items(body@, 2);
        }
        ListSlice { data: body, length: 2, slice_type: SliceType::Pow }
    }

    /// The number of bytes of the power.
    pub fn get_byte_size(&self) -> (r: usize)
        ensures
            r == self@.len(),
    {
        self.data.len()
    }
}

impl<'a> MulView<'a> {
    /// An owned copy of the product.
    pub fn to_owned(&self) -> (r: Mul)
        ensures
            r@ == self@,
            r.wf() == self.wf(),
    {
        Mul::from_view_into(self, Vec::new())
    }

    /// Makes `target` a copy of the product.
    pub fn clone_into(&self, target: &mut Mul)
        ensures
            final(target)@ == self@,
            final(target).wf() == self.wf(),
    {
        target.set_from_view(self);
    }

    /// An owned copy of the product, in `buffer`.
    pub fn clone_into_raw(&self, buffer: RawAtom) -> (r: Mul)
        ensures
            r@ == self@,
            r.wf() == self.wf(),
    {
        Mul::from_view_into(self, buffer)
    }

    /// Whether this is exactly one well-formed product.
    pub open spec fn wf(&self) -> bool {
        node_ok(self@, MUL_ID)
    }

    pub(crate) fn from_bytes(data: &'a [u8]) -> (r: MulView<'a>)
        requires
            node_ok(data@, MUL_ID),
        ensures
            r@ == data@,
            r.wf(),
    {
        MulView { data }
    }

    /// The bytes of the product.
    pub fn get_data(&self) -> (r: &'a [u8])
        ensures
            r@ == self@,
    {
        self.data
    }

    /// The argument count, and the bytes of the arguments.
    pub(crate) fn header(&self) -> (r: (u64, &'a [u8]))
        requires
            self.wf(),
        ensures
            r.0 == sized_count(self@),
            r.0 <= usize::MAX,
            r.1@ == sized_args(self@),
            run_ok(r.1@, r.0 as nat),
    {
        let (_, c) = get_u8(self.data);
        let (_, c) = get_u32_le(c);
        assert(c@ =~= self@.skip(5));
        let (n_args, _, c) = get_frac_u64(c);
        proof {
            assert(c@ =~= sized_args(self@));
            lemma_len_bounds(c@, n_args as nat);
            assert(n_args <= c.len());
        }
        (n_args, c)
    }

    /// Whether the product is marked as normalized.
    pub fn is_normalized(&self) -> (r: bool)
        requires
            self.wf(),
        ensures
            r == normalized(self@),
    {
        (self.data[0] & NOT_NORMALIZED) == 0
    }

    /// The number of arguments.
    pub fn get_nargs(&self) -> (r: usize)
        requires
            self.wf(),
        ensures
            r == sized_count(self@),
            r == children(self@).len(),
    {
        let (n_args, c) = self.header();
        proof {
            lemma_run_items(c@, n_args as nat);
        }
        n_args as usize
    }

    /// An iterator over the arguments.
    pub fn iter(&self) -> (r: ListIterator<'a>)
        requires
            self.wf(),
        ensures
            r.wf(),
            r@ == children(self@),
    {
        let (n_args, c) = self.header();
        ListIterator { data: c, length: n_args as usize }
    }

    /// A view of the product, as a view of a node of any kind.
    pub fn as_view(&self) -> (r: AtomView<'a>)
        ensures
            r == AtomView::Mul(*self),
    {
        AtomView::Mul(*self)
    }

    /// The arguments as a list with access by index.
    pub fn to_slice(&self) -> (r: ListSlice<'a>)
        requires
            self.wf(),
        ensures
            r.wf(),
            r@ == children(self@),
            r.spec_type() == SliceType::Mul,
    {
        let (n_args, c) = self.header();
        ListSlice { data: c, length: n_args as usize, slice_type: SliceType::Mul }
    }

    /// Whether the product is marked as having a numeric coefficient.
    pub fn has_coefficient(&self) -> (r: bool)
        requires
            self.wf(),
        ensures
            r == (self@[0] & MUL_HAS_COEFF_FLAG == MUL_HAS_COEFF_FLAG),
    {
        self.data[0] & MUL_HAS_COEFF_FLAG == MUL_HAS_COEFF_FLAG
    }

    /// The number of bytes of the product.
    pub fn get_byte_size(&self) -> (r: usize)
        ensures
            r == self@.len(),
    {
        self.data.len()
    }
}

impl<'a> AddView<'a> {
    /// An owned copy of the sum.
    pub fn to_owned(&self) -> (r: Add)
        ensures
            r@ == self@,
            r.wf() == self.wf(),
    {
        Add::from_view_into(self, Vec::new())
    }

    /// Makes `target` a copy of the sum.
    pub fn clone_into(&self, target: &mut Add)
        ensures
            final(target)@ == self@,
            final(target).wf() == self.wf(),
    {
        target.set_from_view(*self);
    }

    /// An owned copy of the sum, in `buffer`.
    pub fn clone_into_raw(&self, buffer: RawAtom) -> (r: Add)
        ensures
            r@ == self@,
            r.wf() == self.wf(),
    {
        Add::from_view_into(self, buffer)
    }

    /// Whether this is exactly one well-formed sum.
    pub open spec fn wf(&self) -> bool {
        node_ok(self@, ADD_ID)
    }

    pub(crate) fn from_bytes(data: &'a [u8]) -> (r: AddView<'a>)
        requires
            node_ok(data@, ADD_ID),
        ensures
            r@ == data@,
            r.wf(),
    {
        AddView { data }
    }

    /// The bytes of the sum.
    pub fn get_data(&self) -> (r: &'a [u8])
        ensures
            r@ == self@,
    {
        self.data
    }

    /// The argument count, and the bytes of the arguments.
    pub(crate) fn header(&self) -> (r: (u64, &'a [u8]))
        requires
            self.wf(),
        ensures
            r.0 == add_count(self@),
            r.0 <= usize::MAX,
            r.1@ == add_args(self@),
            run_ok(r.1@, r.0 as nat),
    {
        let (_, c) = get_u8(self.data);
        let (n_args, _, c) = get_frac_u64(c);
        proof {
            assert(c@ =~= add_args(self@));
            lemma_len_bounds(c@, n_args as nat);
            assert(n_args <= c.len());
        }
        (n_args, c)
    }

    /// Whether the sum is marked as normalized.
    pub fn is_normalized(&self) -> (r: bool)
        requires
            self.wf(),
        ensures
            r == normalized(self@),
    {
        (self.data[0] & NOT_NORMALIZED) == 0
    }

    /// The number of arguments.
    pub fn get_nargs(&self) -> (r: usize)
        requires
            self.wf(),
        ensures
            r == add_count(self@),
            r == children(self@).len(),
    {
        let (n_args, c) = self.header();
        proof {
            lemma_run_items(c@, n_args as nat);
        }
        n_args as usize
    }

    /// An iterator over the arguments.
    pub fn iter(&self) -> (r: ListIterator<'a>)
        requires
            self.wf(),
        ensures
            r.wf(),
            r@ == children(self@),
    {
        let (n_args, c) = self.header();
        ListIterator { data: c, length: n_args as usize }
    }

    /// A view of the sum, as a view of a node of any kind.
    pub fn as_view(&self) -> (r: AtomView<'a>)
        ensures
            r == AtomView::Add(*self),
    {
        AtomView::Add(*self)
    }

    /// The arguments as a list with access by index.
    pub fn to_slice(&self) -> (r: ListSlice<'a>)
        requires
            self.wf(),
        ensures
            r.wf(),
            r@ == children(self@),
            r.spec_type() == SliceType::Add,
    {
        let (n_args, c) = self.header();
        ListSlice { data: c, length: n_args as usize, slice_type: SliceType::Add }
    }

    /// The number of bytes of the sum.
    pub fn get_byte_size(&self) -> (r: usize)
        ensures
            r == self@.len(),
    {
        self.data.len()
    }
}

impl<'a> ListIterator<'a> {
    /// Whether the iterator is over exactly as many well-formed nodes as it
    /// counts.
    pub closed spec fn wf(&self) -> bool {
        run_ok(self.data@, self.length as nat)
    }

    /// The next node, if one is left; the iterator then stands behind it.
    pub fn next(&mut self) -> (r: Option<AtomView<'a>>)
        requires
            old(self).wf(),
        ensures
            final(self).wf(),
            old(self)@.len() == 0 ==> r is None && final(self)@ == old(self)@,
            old(self)@.len() > 0 ==> r is Some && r.unwrap().wf() && r.unwrap()@ == old(self)@[0]
                && final(self)@ == old(self)@.skip(1),
    {
        proof {
            lemma_run_items(self.data@, self.length as nat);
        }
        if self.length == 0 {
            return None;
        }
        proof {
            lemma_len_bounds(self.data@, self.length as nat);
        }
        let (entry, rest) = ListSlice::get_entry(self.data);
        proof {
            assert(run_items(rest@, (self.length - 1) as nat) =~= old(self)@.skip(1));
        }
        self.length -= 1;
        self.data = rest;
        Some(entry)
    }
}

impl<'a> ListSlice<'a> {
    /// Whether the list is over exactly as many well-formed nodes as it
    /// counts.
    pub closed spec fn wf(&self) -> bool {
        run_ok(self.data@, self.length as nat)
    }

    /// What the list is the argument list of.
    pub closed spec fn spec_type(&self) -> SliceType {
        self.slice_type
    }

    /// The bytes of the list: its nodes one after the other.
    pub closed spec fn bytes(&self) -> Seq<u8> {
        self.data@
    }

    /// Skips `n` nodes: gives the slice behind them. A power stores no
    /// size, so skipping one adds its two children to the count of nodes
    /// that are still to be skipped.
    pub(crate) fn skip<'b>(pos: &'b [u8], n: usize) -> (r: &'b [u8])
        requires
            run_len(pos@, n as nat) is Some,
        ensures
            run_len(pos@, n as nat).unwrap() <= pos@.len(),
            r@ == pos@.skip(run_len(pos@, n as nat).unwrap() as int),
    {
        let mut cur = pos;
        let mut skip_count: usize = n;
        let ghost total = run_len(pos@, n as nat).unwrap() as int;
        let ghost mut done: int = 0;
        proof {
            lemma_len_bounds(pos@, n as nat);
            assert(pos@.skip(0) =~= pos@);
        }
        while skip_count > 0
            invariant
                0 <= done <= total <= pos@.len(),
                cur@ == pos@.skip(done),
                run_len(cur@, skip_count as nat) == Some((total - done) as nat),
            decreases cur@.len(),
        {
            let ghost before = cur@;
            let ghost k = first_len(before).unwrap() as int;
            proof {
                lemma_run_step(before, skip_count as nat);
                lemma_first_len_by_kind(before);
            }
            let (head, body) = get_u8(cur);
            let id = head & TYPE_MASK;
            if id == NUM_ID || id == VAR_ID {
                cur = skip_rational(body);
                skip_count -= 1;
                proof {
                    assert(cur@ =~= before.skip(k));
                    done = done + k;
                }
            } else if id == FUN_ID || id == MUL_ID {
                let (n_size, rest) = get_u32_le(body);
                proof {
                    assert(body@.subrange(0, 4) =~= before.subrange(1, 5));
                    assert(n_size <= rest.len());
                }
                cur = advance(rest, n_size as usize);
                skip_count -= 1;
                proof {
                    assert(cur@ =~= before.skip(k));
                    done = done + k;
                }
            } else if id == ADD_ID {
                let (_, size, np) = get_frac_u64(body);
                proof {
                    assert(size <= np.len());
                }
                cur = advance(np, size as usize);
                skip_count -= 1;
                proof {
                    assert(cur@ =~= before.skip(k));
                    done = done + k;
                }
            } else {
                proof {
                    assert(skip_count + 2 <= body.len());
                    done = done + 1;
                }
                cur = body;
                skip_count += 2;
                skip_count -= 1;
            }
            proof {
                assert(cur@ =~= pos@.skip(done));
            }
        }
        cur
    }

    /// The list without its first `index` nodes.
    fn fast_forward(&self, index: usize) -> (r: ListSlice<'a>)
        requires
            self.wf(),
            index <= self@.len(),
        ensures
            r.wf(),
            r@ == self@.skip(index as int),
            r.spec_type() == self.spec_type(),
    {
        proof {
            lemma_run_items(self.data@, self.length as nat);
            assert(index + (self.length - index) as nat == self.length as nat);
            lemma_run_split(self.data@, index as nat, (self.length - index) as nat);
            lemma_run_items(self.data@, index as nat);
        }
        let pos = Self::skip(self.data, index);
        proof {
            assert(run_items(pos@, (self.length - index) as nat) =~= self@.skip(index as int));
        }
        ListSlice { data: pos, length: self.length - index, slice_type: self.slice_type }
    }

    /// The node that starts `start`, and the slice behind it.
    pub(crate) fn get_entry<'b>(start: &'b [u8]) -> (r: (AtomView<'b>, &'b [u8]))
        requires
            first_len(start@) is Some,
        ensures
            r.0.wf(),
            first_len(start@).unwrap() <= start@.len(),
            r.0@ == start@.subrange(0, first_len(start@).unwrap() as int),
            r.1@ == start@.skip(first_len(start@).unwrap() as int),
    {
        proof {
            lemma_run_of_one(start@);
            lemma_len_bounds(start@, 1);
        }
        let end = Self::skip(start, 1);
        let len = start.len() - end.len();
        let data = slice_subrange(start, 0, len);
        proof {
            assert(agree(start@, data@, len as int)) by {
                assert(start@.subrange(0, len as int) =~= data@.subrange(0, len as int));
            }
            lemma_first_prefix(start@, data@);
        }
        (AtomView::from(data), end)
    }

    /// The number of nodes in the list.
    pub fn len(&self) -> (r: usize)
        requires
            self.wf(),
        ensures
            r == self@.len(),
    {
        proof {
            lemma_run_items(self.data@, self.length as nat);
        }
        self.length
    }

    /// The node at `index`.
    pub fn get(&self, index: usize) -> (r: AtomView<'a>)
        requires
            self.wf(),
            index < self@.len(),
        ensures
            r.wf(),
            r@ == self@[index as int],
    {
        let start = self.fast_forward(index);
        proof {
            lemma_run_items(start.data@, start.length as nat);
            lemma_len_bounds(start.data@, start.length as nat);
            assert(start@[0] == self@[index as int]);
            assert(start@[0] == start.data@.subrange(0, first_len(start.data@).unwrap() as int));
        }
        Self::get_entry(start.data).0
    }

    /// The list of the nodes from `range.start` up to `range.end`.
    pub fn get_subslice(&self, range: std::ops::Range<usize>) -> (r: ListSlice<'a>)
        requires
            self.wf(),
            range.start <= range.end <= self@.len(),
        ensures
            r.wf(),
            r@ == self@.subrange(range.start as int, range.end as int),
            r.spec_type() == self.spec_type(),
    {
        let count = range.end - range.start;
        let start = self.fast_forward(range.start);
        proof {
            lemma_run_items(start.data@, start.length as nat);
            assert(count + (start.length - count) as nat == start.length as nat);
            lemma_run_split(start.data@, count as nat, (start.length - count) as nat);
            lemma_run_items(start.data@, count as nat);
        }
        let s = Self::skip(start.data, count);
        let len = start.data.len() - s.len();
        let data = slice_subrange(start.data, 0, len);
        proof {
            assert(agree(start.data@, data@, len as int)) by {
                assert(start.data@.subrange(0, len as int) =~= data@.subrange(0, len as int));
            }
            lemma_run_prefix(start.data@, data@, count as nat);
            assert(run_items(data@, count as nat) =~= self@.subrange(
                range.start as int,
                range.end as int,
            ));
        }
        ListSlice { data, length: count, slice_type: self.slice_type }
    }

    /// What the list is the argument list of.
    pub fn get_type(&self) -> (r: SliceType)
        ensures
            r == self.spec_type(),
    {
        self.slice_type
    }

    /// The list that holds the one node `view`.
    pub fn from_one(view: AtomView<'a>) -> (r: ListSlice<'a>)
        requires
            view.wf(),
        ensures
            r.wf(),
            r@ == seq![view@],
            r.spec_type() == SliceType::One,
    {
        let data = view.get_data();
        proof {
            lemma_run_of_one(data@);
            assert(data@.subrange(0, data@.len() as int) =~= data@);
        }
        ListSlice { data, length: 1, slice_type: SliceType::One }
    }

    /// The list without nodes.
    pub fn empty() -> (r: ListSlice<'a>)
        ensures
            r.wf(),
            r@ == Seq::<Seq<u8>>::empty(),
            r.spec_type() == SliceType::Empty,
    {
        let data = slice_subrange(&[0u8], 0, 0);
        ListSlice { data, length: 0, slice_type: SliceType::Empty }
    }

    /// An iterator over the nodes of the list.
    pub fn iter(&self) -> (r: ListSliceIterator<'a>)
        requires
            self.wf(),
        ensures
            r.wf(),
            r@ == self@,
    {
        ListSliceIterator { data: *self }
    }
}

impl<'a> ListSliceIterator<'a> {
    /// Whether the iterator is over a well-formed list.
    pub closed spec fn wf(&self) -> bool {
        self.data.wf()
    }

    /// The next node, if one is left; the iterator then stands behind it.
    pub fn next(&mut self) -> (r: Option<AtomView<'a>>)
        requires
            old(self).wf(),
        ensures
            final(self).wf(),
            old(self)@.len() == 0 ==> r is None && final(self)@ == old(self)@,
            old(self)@.len() > 0 ==> r is Some && r.unwrap().wf() && r.unwrap()@ == old(self)@[0]
                && final(self)@ == old(self)@.skip(1),
    {
        proof {
            lemma_run_items(self.data.data@, self.data.length as nat);
        }
        if self.data.length > 0 {
            proof {
                lemma_len_bounds(self.data.data@, self.data.length as nat);
            }
            let (res, end) = ListSlice::get_entry(self.data.data);
            proof {
                assert(run_items(end@, (self.data.length - 1) as nat) =~= old(self)@.skip(1));
            }
            self.data = ListSlice {
                data: end,
                length: self.data.length - 1,
                slice_type: self.data.slice_type,
            };
            Some(res)
        } else {
            None
        }
    }
}

/// What is left of a list after `i` steps of an iterator over it.
pub open spec fn after_steps(items: Seq<Seq<u8>>, i: nat) -> Seq<Seq<u8>>
    decreases i,
{
    if i == 0 {
        items
    } else {
        after_steps(items.skip(1), (i - 1) as nat)
    }
}

/// Access by index agrees with iteration: the node at `i` of a list is the
/// node that an iterator over the list gives after `i` steps.
pub proof fn lemma_index_is_iteration(items: Seq<Seq<u8>>, i: nat)
    requires
        i < items.len(),
    ensures
        after_steps(items, i).len() == items.len() - i,
        after_steps(items, i)[0] == items[i as int],
    decreases i,
{
    if i > 0 {
        lemma_index_is_iteration(items.skip(1), (i - 1) as nat);
    }
}

} // verus!
