//! The encodings of nodes put together from their parts, and what a reader
//! finds in them.

use crate::buffer::{le_bytes, lemma_le_bytes_len, lemma_le_value_of_bytes, lemma_radix_values};
use crate::coefficient::{coeff_bytes, coeff_value, CoeffValue, lemma_coeff_bytes_reads};
use crate::layout::{
    add_args, add_count, ADD_ID, atom_ok, children, first_len, FUN_ANTISYMMETRIC_FLAG, FUN_ID,
    fun_name, lemma_first_len_by_kind, lemma_len_bounds, lemma_run_concat, lemma_run_of_one,
    MUL_ID, NOT_NORMALIZED, NUM_ID, POW_ID, run_items, run_ok, sized_args, sized_count,
    stored_size, tag_of, VAR_ID,
};
use crate::packed::{
    agree, lemma_packed_pair_parts, lemma_packed_pair_reads, packed_pair, packed_size,
};
use crate::symbol::{lemma_var_flags, Symbol, var_flags, var_symbol};
use crate::view::node_ok;
use vstd::prelude::*;

verus! {

/// The encoding of the number with coefficient `c`.
pub open spec fn num_node(c: CoeffValue) -> Seq<u8> {
    seq![NUM_ID] + coeff_bytes(c)
}

/// The encoding of the variable of `symbol`.
pub open spec fn var_node(symbol: Symbol) -> Seq<u8> {
    seq![var_flags(symbol)] + packed_pair(symbol.id as nat, 1)
}

/// The encoding of a node that stores its size: the header byte, the size
/// of what follows, the pair `(a, b)` and the arguments.
pub open spec fn sized_node(flags: u8, a: nat, b: nat, args: Seq<u8>) -> Seq<u8> {
    seq![flags] + le_bytes(packed_size(a, b) + args.len(), 4) + packed_pair(a, b) + args
}

/// The encoding of the function with the stored name `name` and `count`
/// arguments, whose encodings are `args`.
pub open spec fn fun_node(flags: u8, name: nat, count: nat, args: Seq<u8>) -> Seq<u8> {
    sized_node(flags, name, count, args)
}

/// The encoding of the product of `count` arguments, whose encodings are
/// `args`.
pub open spec fn mul_node(flags: u8, count: nat, args: Seq<u8>) -> Seq<u8> {
    sized_node(flags, count, 1, args)
}

/// The encoding of the sum of `count` arguments, whose encodings are
/// `args`.
pub open spec fn add_node(flags: u8, count: nat, args: Seq<u8>) -> Seq<u8> {
    seq![flags] + packed_pair(count, args.len()) + args
}

/// The encoding of the power of `base` to `exp`.
pub open spec fn pow_node(flags: u8, base: Seq<u8>, exp: Seq<u8>) -> Seq<u8> {
    seq![flags] + base + exp
}

/// The bytes of the items of a list, one after the other.
pub open spec fn flatten(items: Seq<Seq<u8>>) -> Seq<u8>
    decreases items.len(),
{
    if items.len() == 0 {
        Seq::empty()
    } else {
        items[0] + flatten(items.skip(1))
    }
}

/// The encoding of a number is a well-formed number that holds the
/// coefficient.
pub proof fn lemma_num_node(c: CoeffValue)
    requires
        c matches CoeffValue::RationalPolynomial(_, body) ==> body.len() <= u64::MAX,
    ensures
        node_ok(num_node(c), NUM_ID),
        coeff_value(num_node(c).skip(1)) == c,
{
    let s = num_node(c);
    assert(s.skip(1) =~= coeff_bytes(c));
    assert(agree(coeff_bytes(c), s.skip(1), coeff_bytes(c).len() as int));
    lemma_coeff_bytes_reads(c, s.skip(1));
    assert(tag_of(NUM_ID) == NUM_ID) by (bit_vector);
}

/// The encoding of a variable is a well-formed variable whose symbol is the
/// given one in canonical form.
pub proof fn lemma_var_node(symbol: Symbol)
    ensures
        node_ok(var_node(symbol), VAR_ID),
        var_symbol(var_node(symbol)) == symbol.canonical(),
{
    let s = var_node(symbol);
    let p = packed_pair(symbol.id as nat, 1);
    assert(s.skip(1) =~= p);
    assert(agree(p, s.skip(1), p.len() as int));
    lemma_packed_pair_parts(symbol.id as nat, 1);
    lemma_packed_pair_reads(symbol.id as nat, 1, s.skip(1));
    lemma_var_flags(symbol);
}

/// What a reader finds in the encoding of a node that stores its size.
pub proof fn lemma_sized_node(flags: u8, a: nat, b: nat, args: Seq<u8>, count: nat)
    requires
        tag_of(flags) == FUN_ID || tag_of(flags) == MUL_ID,
        a <= u64::MAX,
        b <= u64::MAX,
        tag_of(flags) == FUN_ID ==> a < 2 * FUN_ANTISYMMETRIC_FLAG && b == count,
        tag_of(flags) == MUL_ID ==> a == count,
        packed_size(a, b) + args.len() <= u32::MAX,
        run_ok(args, count),
    ensures
        atom_ok(sized_node(flags, a, b, args)),
        sized_node(flags, a, b, args)[0] == flags,
        sized_node(flags, a, b, args).len() == 5 + packed_size(a, b) + args.len(),
        stored_size(sized_node(flags, a, b, args)) == packed_size(a, b) + args.len(),
        sized_args(sized_node(flags, a, b, args)) == args,
        sized_count(sized_node(flags, a, b, args)) == count,
        fun_name(sized_node(flags, a, b, args)) == a,
        children(sized_node(flags, a, b, args)) == run_items(args, count),
{
    let s = sized_node(flags, a, b, args);
    let p = packed_pair(a, b);
    let size = packed_size(a, b) + args.len();
    lemma_packed_pair_parts(a, b);
    lemma_le_bytes_len(size, 4);
    lemma_radix_values();
    lemma_le_value_of_bytes(size, 4);
    assert(s.len() == 5 + p.len() + args.len());
    assert(s.subrange(1, 5) =~= le_bytes(size, 4));
    assert(s.skip(5) =~= p + args);
    assert(agree(p, s.skip(5), p.len() as int)) by {
        assert(p.subrange(0, p.len() as int) =~= s.skip(5).subrange(0, p.len() as int));
    }
    lemma_packed_pair_reads(a, b, s.skip(5));
    assert(sized_args(s) =~= args);
}

/// What a reader finds in the encoding of a sum.
pub proof fn lemma_add_node(flags: u8, count: nat, args: Seq<u8>)
    requires
        tag_of(flags) == ADD_ID,
        count <= u64::MAX,
        args.len() <= u64::MAX,
        run_ok(args, count),
    ensures
        atom_ok(add_node(flags, count, args)),
        add_node(flags, count, args)[0] == flags,
        add_node(flags, count, args).len() == 1 + packed_size(count, args.len()) + args.len(),
        add_args(add_node(flags, count, args)) == args,
        add_count(add_node(flags, count, args)) == count,
        children(add_node(flags, count, args)) == run_items(args, count),
{
    let s = add_node(flags, count, args);
    let p = packed_pair(count, args.len());
    lemma_packed_pair_parts(count, args.len());
    assert(s.skip(1) =~= p + args);
    assert(agree(p, s.skip(1), p.len() as int)) by {
        assert(p.subrange(0, p.len() as int) =~= s.skip(1).subrange(0, p.len() as int));
    }
    lemma_packed_pair_reads(count, args.len(), s.skip(1));
    assert(add_args(s) =~= args);
}

/// What a reader finds in the encoding of a power.
pub proof fn lemma_pow_node(flags: u8, base: Seq<u8>, exp: Seq<u8>)
    requires
        tag_of(flags) == POW_ID,
        atom_ok(base),
        atom_ok(exp),
    ensures
        atom_ok(pow_node(flags, base, exp)),
        pow_node(flags, base, exp)[0] == flags,
        children(pow_node(flags, base, exp)) == seq![base, exp],
{
    let s = pow_node(flags, base, exp);
    lemma_run_of_one(base);
    lemma_run_of_one(exp);
    assert(base.subrange(0, base.len() as int) =~= base);
    assert(exp.subrange(0, exp.len() as int) =~= exp);
    lemma_run_concat(base, 1, exp, 1);
    assert(s.skip(1) =~= base + exp);
    assert(seq![base] + seq![exp] =~= seq![base, exp]);
}

/// The header bytes that the builders start from.
pub proof fn lemma_fresh_flags()
    ensures
        tag_of(MUL_ID | NOT_NORMALIZED) == MUL_ID,
        tag_of(ADD_ID | NOT_NORMALIZED) == ADD_ID,
        tag_of(POW_ID | NOT_NORMALIZED) == POW_ID,
        tag_of(NUM_ID) == NUM_ID,
        (MUL_ID | NOT_NORMALIZED) & NOT_NORMALIZED != 0,
        (ADD_ID | NOT_NORMALIZED) & NOT_NORMALIZED != 0,
        (POW_ID | NOT_NORMALIZED) & NOT_NORMALIZED != 0,
{
    assert((4u8 | 0x80) & 7 == 4 && (5u8 | 0x80) & 7 == 5 && (6u8 | 0x80) & 7 == 6 && 1u8 & 7
        == 1 && (4u8 | 0x80) & 0x80 != 0 && (5u8 | 0x80) & 0x80 != 0 && (6u8 | 0x80) & 0x80
        != 0) by (bit_vector);
}

/// The canonical zero and one: the bytes `1, 1, 0` and `1, 1, 1`.
pub proof fn lemma_zero_one_bytes()
    ensures
        num_node(CoeffValue::Rational(0, 1)) == seq![1u8, 1u8, 0u8],
        num_node(CoeffValue::Rational(1, 1)) == seq![1u8, 1u8, 1u8],
        packed_pair(0, 1) == seq![1u8, 0u8],
        packed_pair(0, 0) == seq![0x11u8, 0u8, 0u8],
{
    reveal_with_fuel(le_bytes, 2);
    assert(1u8 | (0u8 << 4) == 1 && 1u8 | (1u8 << 4) == 0x11) by (bit_vector);
    assert(packed_pair(0, 1) =~= seq![1u8, 0u8]);
    assert(packed_pair(1, 1) =~= seq![1u8, 1u8]);
    assert(packed_pair(0, 0) =~= seq![0x11u8, 0u8, 0u8]);
    assert(num_node(CoeffValue::Rational(0, 1)) =~= seq![1u8, 1u8, 0u8]);
    assert(num_node(CoeffValue::Rational(1, 1)) =~= seq![1u8, 1u8, 1u8]);
}

/// Changing flag bits in the header byte of a well-formed node, but not its
/// kind, leaves a well-formed node with the same arguments and the same
/// bytes behind the header byte.
pub proof fn lemma_set_flags(s: Seq<u8>, f: u8)
    requires
        atom_ok(s),
        tag_of(f) == tag_of(s[0]),
    ensures
        atom_ok(s.update(0, f)),
        children(s.update(0, f)) == children(s),
        s.update(0, f).skip(1) == s.skip(1),
        s.update(0, f).len() == s.len(),
        tag_of(f) == FUN_ID || tag_of(f) == MUL_ID ==> stored_size(s.update(0, f)) == stored_size(
            s,
        ) && s.update(0, f).skip(5) == s.skip(5) && sized_args(s.update(0, f)) == sized_args(s)
            && fun_name(s.update(0, f)) == fun_name(s) && sized_count(s.update(0, f))
            == sized_count(s),
        tag_of(f) == ADD_ID ==> add_args(s.update(0, f)) == add_args(s) && add_count(
            s.update(0, f),
        ) == add_count(s),
{
    let t = s.update(0, f);
    lemma_first_len_by_kind(s);
    assert(t.skip(1) =~= s.skip(1));
    if tag_of(f) == FUN_ID || tag_of(f) == MUL_ID {
        assert(t.subrange(1, 5) =~= s.subrange(1, 5));
        assert(t.skip(5) =~= s.skip(5));
        assert(sized_args(t) =~= sized_args(s));
    } else if tag_of(f) == ADD_ID {
        assert(add_args(t) =~= add_args(s));
    }
}

/// A complete run followed by a well-formed node is a complete run.
pub proof fn lemma_run_push(args: Seq<u8>, n: nat, item: Seq<u8>)
    requires
        run_ok(args, n),
        atom_ok(item),
    ensures
        run_ok(args + item, n + 1),
        run_items(args + item, n + 1) == run_items(args, n).push(item),
{
    lemma_run_of_one(item);
    assert(item.subrange(0, item.len() as int) =~= item);
    lemma_run_concat(args, n, item, 1);
    assert(run_items(args, n) + seq![item] =~= run_items(args, n).push(item));
}

/// The bytes of a complete run are the bytes of its items, one after the
/// other.
pub proof fn lemma_run_flatten(s: Seq<u8>, n: nat)
    requires
        run_ok(s, n),
    ensures
        flatten(run_items(s, n)) == s,
    decreases n,
{
    if n == 0 {
        assert(s =~= Seq::<u8>::empty());
    } else {
        let k = first_len(s).unwrap() as int;
        lemma_len_bounds(s, 0);
        lemma_run_flatten(s.skip(k), (n - 1) as nat);
        let items = run_items(s, n);
        assert(items.skip(1) =~= run_items(s.skip(k), (n - 1) as nat));
        assert(items[0] + s.skip(k) =~= s);
    }
}

} // verus!
