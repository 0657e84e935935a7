//! An owned node of any kind, and small nodes that live on the stack.

use crate::buffer::{overwrite, same_bytes};
use crate::builder::{Add, Fun, Mul, Num, Pow, RawAtom, Var};
use crate::coefficient::{Coefficient, CoeffValue, get_frac_size, magnitude, write_frac_fixed};
use crate::layout::{
    ADD_ID, atom_ok, children, FUN_ID, MUL_ID, NOT_NORMALIZED, NUM_ID, POW_ID, VAR_ID,
};
use crate::node::{
    add_node, fun_node, lemma_num_node, lemma_var_node, mul_node, num_node, pow_node, var_node,
};
use crate::packed::{get_packed_size, lemma_packed_pair_parts, packed_pair, write_packed_fixed};
use crate::symbol::{fun_flags, fun_name_of, Symbol, var_header};
use crate::view::{AtomView, node_ok, NumView, VarView};
use std::borrow::Borrow;
use std::hash::{Hash, Hasher};
use vstd::prelude::*;
use vstd::slice::slice_subrange;
use vstd::std_specs::cmp::PartialEqSpecImpl;
use vstd::std_specs::convert::FromSpecImpl;

verus! {

/// An owned node of any kind. `Zero` is the number zero without a buffer of
/// its own.
#[derive(Debug, Clone, Eq)]
pub enum Atom {
    Num(Num),
    Var(Var),
    Fun(Fun),
    Pow(Pow),
    Mul(Mul),
    Add(Add),
    Zero,
}

impl View for Atom {
    type V = Seq<u8>;

    /// The bytes of the node; those of the number zero for `Zero`.
    open spec fn view(&self) -> Seq<u8> {
        match self {
            Atom::Num(n) => n@,
            Atom::Var(v) => v@,
            Atom::Fun(f) => f@,
            Atom::Pow(p) => p@,
            Atom::Mul(m) => m@,
            Atom::Add(a) => a@,
            Atom::Zero => seq![1u8, 1u8, 0u8],
        }
    }
}

impl PartialEq for Atom {
    /// Two nodes are equal when their encodings are the same bytes.
    fn eq(&self, other: &Atom) -> (r: bool) {
        same_bytes(self.get_data(), other.get_data())
    }
}

impl PartialEqSpecImpl for Atom {
    open spec fn obeys_eq_spec() -> bool {
        true
    }

    open spec fn eq_spec(&self, other: &Atom) -> bool {
        self@ == other@
    }
}

impl Hash for Atom {
    /// A node is hashed as its bytes are.
    fn hash<H: Hasher>(&self, state: &mut H) {
        self.get_data().hash(state)
    }
}

/// The bytes of a node, borrowed.
pub type BorrowedRawAtom = [u8];

impl Borrow<BorrowedRawAtom> for Atom {
    fn borrow(&self) -> (r: &BorrowedRawAtom)
        ensures
            bytes_of(r) == self@,
    {
        self.get_data()
    }
}

impl Borrow<BorrowedRawAtom> for AtomView<'_> {
    fn borrow(&self) -> (r: &BorrowedRawAtom)
        ensures
            bytes_of(r) == self@,
    {
        self.get_data()
    }
}

/// What can be looked up in a map by the bytes of its node.
pub trait KeyLookup: Borrow<BorrowedRawAtom> + Eq + Hash {

}

impl KeyLookup for Atom {

}

impl KeyLookup for AtomView<'_> {

}

/// The bytes that `raw` holds: what `borrow` gives for a node is the bytes
/// of the node.
pub open spec fn bytes_of(raw: &BorrowedRawAtom) -> Seq<u8> {
    raw@
}

impl Default for Atom {
    fn default() -> (r: Atom)
        ensures
            r is Zero,
    {
        Atom::Zero
    }
}

impl Atom {
    /// Whether the node is exactly one well-formed node of the kind that
    /// its variant names.
    pub open spec fn wf(&self) -> bool {
        match self {
            Atom::Num(n) => n.wf(),
            Atom::Var(v) => v.wf(),
            Atom::Fun(f) => f.wf(),
            Atom::Pow(p) => p.wf(),
            Atom::Mul(m) => m.wf(),
            Atom::Add(a) => a.wf(),
            Atom::Zero => true,
        }
    }

    /// The number zero, without a buffer.
    pub fn new() -> (r: Atom)
        ensures
            r is Zero,
            r.wf(),
    {
        Atom::Zero
    }

    /// The number with the coefficient `num`.
    pub fn new_num(num: Coefficient) -> (r: Atom)
        ensures
            r is Num,
            r.wf(),
            r@ == num_node(num@),
    {
        Atom::Num(Num::new(num))
    }

    /// The variable of `symbol`.
    pub fn new_var(symbol: Symbol) -> (r: Atom)
        ensures
            r is Var,
            r.wf(),
            r@ == var_node(symbol),
    {
        Atom::Var(Var::new(symbol))
    }

    /// The node whose bytes `raw` holds; its kind is read from the header
    /// byte.
    pub fn from_raw(raw: RawAtom) -> (r: Atom)
        requires
            atom_ok(raw@),
        ensures
            r.wf(),
            r@ == raw@,
            !(r is Zero),
    {
        let id = raw[0] & crate::layout::TYPE_MASK;
        if id == NUM_ID {
            Atom::Num(Num::from_raw(raw))
        } else if id == VAR_ID {
            Atom::Var(Var::from_raw(raw))
        } else if id == FUN_ID {
            Atom::Fun(Fun::from_raw(raw))
        } else if id == MUL_ID {
            Atom::Mul(Mul::from_raw(raw))
        } else if id == ADD_ID {
            Atom::Add(Add::from_raw(raw))
        } else {
            proof {
                crate::layout::lemma_first_len_by_kind(raw@);
            }
            Atom::Pow(Pow::from_raw(raw))
        }
    }

    /// A view of the node.
    pub fn as_view(&self) -> (r: AtomView<'_>)
        requires
            self.wf(),
        ensures
            r.wf(),
            r@ == self@,
    {
        match self {
            Atom::Num(n) => n.as_view(),
            Atom::Var(v) => v.as_view(),
            Atom::Fun(f) => f.as_view(),
            Atom::Pow(p) => p.as_view(),
            Atom::Mul(m) => m.as_view(),
            Atom::Add(a) => a.as_view(),
            Atom::Zero => AtomView::zero(),
        }
    }

    /// The bytes of the node; those of the number zero for `Zero`.
    pub fn get_data(&self) -> (r: &[u8])
        ensures
            r@ == self@,
    {
        match self {
            Atom::Num(n) => n.get_data(),
            Atom::Var(v) => v.get_data(),
            Atom::Fun(f) => f.get_data(),
            Atom::Pow(p) => p.get_data(),
            Atom::Mul(m) => m.get_data(),
            Atom::Add(a) => a.get_data(),
            Atom::Zero => AtomView::zero().get_data(),
        }
    }

    /// The buffer of the node; an empty one for `Zero`.
    pub fn into_raw(self) -> (r: RawAtom)
        ensures
            self is Zero ==> r@.len() == 0,
            !(self is Zero) ==> r@ == self@,
    {
        match self {
            Atom::Num(n) => n.into_raw(),
            Atom::Var(v) => v.into_raw(),
            Atom::Fun(f) => f.into_raw(),
            Atom::Pow(p) => p.into_raw(),
            Atom::Mul(m) => m.into_raw(),
            Atom::Add(a) => a.into_raw(),
            Atom::Zero => RawAtom::new(),
        }
    }

    /// Takes the buffer out of the node and leaves `Zero`.
    pub fn take_raw(&mut self) -> (r: RawAtom)
        ensures
            *final(self) is Zero,
            *old(self) is Zero ==> r@.len() == 0,
            !(*old(self) is Zero) ==> r@ == old(self)@,
    {
        let mut taken = Atom::Zero;
        std::mem::swap(self, &mut taken);
        taken.into_raw()
    }

    /// Makes this the number with the coefficient `coeff`; the buffer is
    /// used again.
    pub fn to_num(&mut self, coeff: Coefficient)
        ensures
            *final(self) is Num,
            final(self).wf(),
            final(self)@ == num_node(coeff@),
    {
        let buffer = self.take_raw();
        *self = Atom::Num(Num::new_into(coeff, buffer));
    }

    /// Makes this the variable of `symbol`; the buffer is used again.
    pub fn to_var(&mut self, symbol: Symbol)
        ensures
            *final(self) is Var,
            final(self).wf(),
            final(self)@ == var_node(symbol),
    {
        let buffer = self.take_raw();
        *self = Atom::Var(Var::new_into(symbol, buffer));
    }

    /// Makes this the function of `symbol` without arguments; the buffer
    /// is used again.
    pub fn to_fun(&mut self, symbol: Symbol)
        ensures
            *final(self) is Fun,
            final(self).wf(),
            final(self)@ == fun_node(
                fun_flags(symbol),
                fun_name_of(symbol) as nat,
                0,
                Seq::empty(),
            ),
            children(final(self)@) == Seq::<Seq<u8>>::empty(),
    {
        let buffer = self.take_raw();
        *self = Atom::Fun(Fun::new_into(symbol, buffer));
    }

    /// Makes this the power of `base` to `exp`; the buffer is used again.
    pub fn to_pow(&mut self, base: AtomView, exp: AtomView)
        requires
            base.wf(),
            exp.wf(),
        ensures
            *final(self) is Pow,
            final(self).wf(),
            final(self)@ == pow_node(POW_ID | NOT_NORMALIZED, base@, exp@),
            children(final(self)@) == seq![base@, exp@],
    {
        let buffer = self.take_raw();
        *self = Atom::Pow(Pow::new_into(base, exp, buffer));
    }

    /// Makes this the product without factors; the buffer is used again.
    pub fn to_mul(&mut self)
        ensures
            *final(self) is Mul,
            final(self).wf(),
            final(self)@ == mul_node(MUL_ID | NOT_NORMALIZED, 0, Seq::empty()),
            children(final(self)@) == Seq::<Seq<u8>>::empty(),
    {
        let buffer = self.take_raw();
        *self = Atom::Mul(Mul::new_into(buffer));
    }

    /// Makes this the sum without terms; the buffer is used again.
    pub fn to_add(&mut self)
        ensures
            *final(self) is Add,
            final(self).wf(),
            final(self)@ == add_node(ADD_ID | NOT_NORMALIZED, 0, Seq::empty()),
            children(final(self)@) == Seq::<Seq<u8>>::empty(),
    {
        let buffer = self.take_raw();
        *self = Atom::Add(Add::new_into(buffer));
    }

    /// Makes this a copy of the node under `view`; the buffer is used
    /// again.
    pub fn set_from_view(&mut self, view: &AtomView)
        ensures
            final(self)@ == view@,
            final(self).wf() == view.wf(),
            !(*final(self) is Zero),
            *final(self) is Num == view is Num,
            *final(self) is Var == view is Var,
            *final(self) is Fun == view is Fun,
            *final(self) is Pow == view is Pow,
            *final(self) is Mul == view is Mul,
            *final(self) is Add == view is Add,
    {
        let buffer = self.take_raw();
        match view {
            AtomView::Num(n) => {
                *self = Atom::Num(Num::from_view_into(n, buffer));
            },
            AtomView::Var(v) => {
                *self = Atom::Var(Var::from_view_into(v, buffer));
            },
            AtomView::Fun(f) => {
                *self = Atom::Fun(Fun::from_view_into(f, buffer));
            },
            AtomView::Pow(p) => {
                *self = Atom::Pow(Pow::from_view_into(p, buffer));
            },
            AtomView::Mul(m) => {
                *self = Atom::Mul(Mul::from_view_into(m, buffer));
            },
            AtomView::Add(a) => {
                *self = Atom::Add(Add::from_view_into(a, buffer));
            },
        }
    }

    /// The capacity of the node's buffer: at least the number of bytes of
    /// the node, and 0 for `Zero`, which has no buffer.
    pub fn get_capacity(&self) -> (r: usize)
        ensures
            self is Zero ==> r == 0,
            !(self is Zero) ==> r >= self@.len(),
    {
        match self {
            Atom::Num(n) => n.capacity(),
            Atom::Var(v) => v.capacity(),
            Atom::Fun(f) => f.capacity(),
            Atom::Pow(p) => p.capacity(),
            Atom::Mul(m) => m.capacity(),
            Atom::Add(a) => a.capacity(),
            Atom::Zero => 0,
        }
    }
}

/// A variable that lives on the stack.
#[derive(Copy, Clone)]
pub struct InlineVar {
    data: [u8; 16],
    size: u8,
}

/// A rational number with 64-bit components that lives on the stack.
#[derive(Copy, Clone)]
pub struct InlineNum {
    data: [u8; 24],
    size: u8,
}

impl View for InlineVar {
    type V = Seq<u8>;

    closed spec fn view(&self) -> Seq<u8> {
        self.data@.subrange(0, self.size as int)
    }
}

impl View for InlineNum {
    type V = Seq<u8>;

    closed spec fn view(&self) -> Seq<u8> {
        self.data@.subrange(0, self.size as int)
    }
}

impl InlineVar {
    /// Whether this holds exactly one well-formed variable.
    pub closed spec fn wf(&self) -> bool {
        self.size <= 16 && node_ok(self@, VAR_ID)
    }

    /// Whether this holds the bytes of the variable of `symbol`, and
    /// zeros behind them.
    pub closed spec fn holds(&self, symbol: Symbol) -> bool {
        &&& self.size == var_node(symbol).len()
        &&& forall|i: int|
            0 <= i < 16 ==> #[trigger] self.data@[i] == (if i < var_node(symbol).len() {
                var_node(symbol)[i]
            } else {
                0
            })
    }

    /// The variable of `symbol`.
    pub closed spec fn of(symbol: Symbol) -> InlineVar {
        choose|v: InlineVar| v.holds(symbol)
    }

    /// The variable of `symbol`.
    pub fn new(symbol: Symbol) -> (r: InlineVar)
        ensures
            r.wf(),
            r@ == var_node(symbol),
            r == InlineVar::of(symbol),
    {
        let mut data: [u8; 16] = [0;16];
        data[0] = var_header(symbol);
        let size = 1 + get_packed_size(symbol.id as u64, 1) as u8;
        let ghost start = data@;
        let (_, tail) = data.as_mut_slice().split_at_mut(1);
        write_packed_fixed(symbol.id as u64, 1, tail);
        let r = InlineVar { data, size };
        proof {
            lemma_packed_pair_parts(symbol.id as nat, 1);
            lemma_var_node(symbol);
            assert(r@ =~= var_node(symbol));
            assert(r.holds(symbol)) by {
                assert forall|i: int| 0 <= i < 16 implies #[trigger] r.data@[i] == (if i
                    < var_node(symbol).len() {
                    var_node(symbol)[i]
                } else {
                    0
                }) by {
                    if i >= 1 {
                        assert(start[i] == 0);
                        assert(r.data@[i] == overwrite(
                            start.subrange(1, 16),
                            0,
                            packed_pair(symbol.id as nat, 1),
                        )[i - 1]);
                    }
                }
            }
            let other = InlineVar::of(symbol);
            assert(other.holds(symbol));
            assert(other.data =~= r.data);
        }
        r
    }

    /// The bytes of the variable.
    pub fn get_data(&self) -> (r: &[u8])
        requires
            self.wf(),
        ensures
            r@ == self@,
    {
        slice_subrange(self.data.as_slice(), 0, self.size as usize)
    }

    /// A view of the variable.
    pub fn as_var_view(&self) -> (r: VarView<'_>)
        requires
            self.wf(),
        ensures
            r.wf(),
            r@ == self@,
    {
        VarView::from_bytes(self.get_data())
    }

    /// A view of the variable, as a view of a node of any kind.
    pub fn as_view(&self) -> (r: AtomView<'_>)
        requires
            self.wf(),
        ensures
            r.wf(),
            r@ == self@,
            r is Var,
    {
        AtomView::Var(self.as_var_view())
    }
}

impl From<Symbol> for InlineVar {
    /// The variable of `symbol`.
    fn from(symbol: Symbol) -> (r: InlineVar) {
        InlineVar::new(symbol)
    }
}

impl FromSpecImpl<Symbol> for InlineVar {
    open spec fn obeys_from_spec() -> bool {
        true
    }

    open spec fn from_spec(symbol: Symbol) -> InlineVar {
        InlineVar::of(symbol)
    }
}

impl InlineNum {
    /// Whether this holds exactly one well-formed number.
    pub closed spec fn wf(&self) -> bool {
        self.size <= 24 && node_ok(self@, NUM_ID)
    }

    /// The number `num / den`. The fraction is stored as it is given: it
    /// should be in lowest terms.
    pub fn new(num: i64, den: u64) -> (r: InlineNum)
        ensures
            r.wf(),
            r@ == num_node(CoeffValue::Rational(num, den)),
    {
        let mut data: [u8; 24] = [0;24];
        data[0] = NUM_ID;
        let size = 1 + get_frac_size(num, den) as u8;
        let (_, tail) = data.as_mut_slice().split_at_mut(1);
        write_frac_fixed(num, den, tail);
        let r = InlineNum { data, size };
        proof {
            lemma_packed_pair_parts(magnitude(num), den as nat);
            lemma_num_node(CoeffValue::Rational(num, den));
            assert(r@ =~= num_node(CoeffValue::Rational(num, den)));
        }
        r
    }

    /// The bytes of the number.
    pub fn get_data(&self) -> (r: &[u8])
        requires
            self.wf(),
        ensures
            r@ == self@,
    {
        slice_subrange(self.data.as_slice(), 0, self.size as usize)
    }

    /// A view of the number.
    pub fn as_num_view(&self) -> (r: NumView<'_>)
        requires
            self.wf(),
        ensures
            r.wf(),
            r@ == self@,
    {
        NumView::from_bytes(self.get_data())
    }

    /// A view of the number, as a view of a node of any kind.
    pub fn as_view(&self) -> (r: AtomView<'_>)
        requires
            self.wf(),
        ensures
            r.wf(),
            r@ == self@,
            r is Num,
    {
        AtomView::Num(self.as_num_view())
    }
}

} // verus!
