//! The byte layout of an encoded expression node, as a mathematical
//! description.
//!
//! Every node starts with a header byte: the three low bits are the node's
//! kind, the others are flags whose meaning depends on the kind.
//!
//! - A number is the header byte and a coefficient.
//! - A variable is the header byte and the packed pair `(symbol id, 1)`.
//! - A function is the header byte, the size of what follows as four
//!   little-endian bytes, the packed pair `(name, argument count)` and the
//!   arguments.
//! - A product is laid out like a function, with the packed pair
//!   `(argument count, 1)`.
//! - A sum is the header byte, the packed pair `(argument count, size of the
//!   arguments)` and the arguments.
//! - A power is the header byte, the base and the exponent; it stores
//!   neither a count nor a size.

use crate::buffer::le_value;
use crate::coefficient::{coeff_len, coeff_ok, lemma_coeff_bounds, lemma_coeff_prefix};
use crate::packed::{
    agree, lemma_agree_index, lemma_agree_shorter, lemma_agree_skip, lemma_pair_bounds,
    lemma_pair_prefix, lemma_sign_keeps_codes, num_code, pair_first, pair_len, pair_ok,
    pair_second,
};
use vstd::prelude::*;

verus! {

pub const NUM_ID: u8 = 1;

pub const VAR_ID: u8 = 2;

pub const FUN_ID: u8 = 3;

pub const MUL_ID: u8 = 4;

pub const ADD_ID: u8 = 5;

pub const POW_ID: u8 = 6;

pub const TYPE_MASK: u8 = 0b0000_0111;

pub const NOT_NORMALIZED: u8 = 0b1000_0000;

pub const VAR_WILDCARD_LEVEL_MASK: u8 = 0b0001_1000;

pub const VAR_WILDCARD_LEVEL_1: u8 = 0b0000_1000;

pub const VAR_WILDCARD_LEVEL_2: u8 = 0b0001_0000;

pub const VAR_WILDCARD_LEVEL_3: u8 = 0b0001_1000;

pub const FUN_SYMMETRIC_FLAG: u8 = 0b0010_0000;

pub const FUN_LINEAR_FLAG: u8 = 0b0100_0000;

pub const VAR_ANTISYMMETRIC_FLAG: u8 = 0b1000_0000;

pub const VAR_CYCLESYMMETRIC_FLAG: u8 = 0b1010_0000;

pub const FUN_ANTISYMMETRIC_FLAG: u64 = 0x1_0000_0000;

pub const MUL_HAS_COEFF_FLAG: u8 = 0b0100_0000;

/// The kind of node that a header byte announces.
pub open spec fn tag_of(b: u8) -> u8 {
    b & TYPE_MASK
}

/// The size that a function or a product stores behind its header byte: the
/// number of bytes that follow the size field.
pub open spec fn stored_size(s: Seq<u8>) -> nat {
    le_value(s.subrange(1, 5))
}

/// Whether `body` is what follows the header byte of a variable.
pub open spec fn var_body_ok(body: Seq<u8>) -> bool {
    pair_ok(body) && pair_first(body) <= u32::MAX
}

/// Whether `s` starts with the complete header of a function or product and
/// holds as many bytes as it announces.
pub open spec fn sized_ok(s: Seq<u8>) -> bool {
    &&& s.len() >= 5
    &&& pair_ok(s.skip(5))
    &&& pair_len(s.skip(5)) <= stored_size(s)
    &&& 5 + stored_size(s) <= s.len()
}

/// Where the arguments of a function or product start.
pub open spec fn sized_args_start(s: Seq<u8>) -> int {
    5 + pair_len(s.skip(5)) as int
}

/// The bytes of the arguments of a function or product.
pub open spec fn sized_args(s: Seq<u8>) -> Seq<u8> {
    s.subrange(sized_args_start(s), 5 + stored_size(s) as int)
}

/// The number of arguments that a function or product announces.
pub open spec fn sized_count(s: Seq<u8>) -> nat {
    if tag_of(s[0]) == FUN_ID {
        pair_second(s.skip(5))
    } else {
        pair_first(s.skip(5))
    }
}

/// The name that a function stores: the symbol's id, with the antisymmetry
/// flag above it.
pub open spec fn fun_name(s: Seq<u8>) -> nat {
    pair_first(s.skip(5))
}

/// Whether `s` starts with the complete header of a sum and holds as many
/// bytes as it announces.
pub open spec fn add_ok(s: Seq<u8>) -> bool {
    &&& s.len() >= 1
    &&& pair_ok(s.skip(1))
    &&& 1 + pair_len(s.skip(1)) + pair_second(s.skip(1)) <= s.len()
}

/// Where the arguments of a sum start.
pub open spec fn add_args_start(s: Seq<u8>) -> int {
    1 + pair_len(s.skip(1)) as int
}

/// The bytes of the arguments of a sum.
pub open spec fn add_args(s: Seq<u8>) -> Seq<u8> {
    s.subrange(add_args_start(s), add_args_start(s) + pair_second(s.skip(1)))
}

/// The number of arguments that a sum announces.
pub open spec fn add_count(s: Seq<u8>) -> nat {
    pair_first(s.skip(1))
}

/// The number of bytes of the node that starts `s`, if `s` starts with a
/// well-formed node: one whose header is complete, whose announced sizes
/// and counts are those of its arguments, and whose arguments are
/// well-formed in turn.
pub open spec fn first_len(s: Seq<u8>) -> Option<nat>
    decreases s.len(), 0nat,
{
    if s.len() == 0 {
        None
    } else {
        let t = tag_of(s[0]);
        if t == NUM_ID {
            if coeff_ok(s.skip(1)) {
                Some(1 + coeff_len(s.skip(1)))
            } else {
                None
            }
        } else if t == VAR_ID {
            if var_body_ok(s.skip(1)) {
                Some(1 + pair_len(s.skip(1)))
            } else {
                None
            }
        } else if t == FUN_ID || t == MUL_ID {
            if sized_ok(s) && (t == FUN_ID ==> fun_name(s) < 2 * FUN_ANTISYMMETRIC_FLAG) {
                if run_len(sized_args(s), sized_count(s)) == Some(sized_args(s).len()) {
                    Some(5 + stored_size(s))
                } else {
                    None
                }
            } else {
                None
            }
        } else if t == ADD_ID {
            if add_ok(s) {
                if run_len(add_args(s), add_count(s)) == Some(add_args(s).len()) {
                    Some((add_args_start(s) + pair_second(s.skip(1))) as nat)
                } else {
                    None
                }
            } else {
                None
            }
        } else if t == POW_ID {
            match run_len(s.skip(1), 2) {
                Some(k) => Some(1 + k),
                None => None,
            }
        } else {
            None
        }
    }
}

/// The number of bytes of the `n` nodes that start `s` one after the other,
/// if `s` starts with `n` well-formed nodes.
pub open spec fn run_len(s: Seq<u8>, n: nat) -> Option<nat>
    decreases s.len(), 1nat,
{
    if n == 0 {
        Some(0)
    } else {
        match first_len(s) {
            Some(k) => {
                if 1 <= k <= s.len() {
                    match run_len(s.skip(k as int), (n - 1) as nat) {
                        Some(r) => Some(k + r),
                        None => None,
                    }
                } else {
                    None
                }
            },
            None => None,
        }
    }
}

/// The encodings of the `n` nodes that start `s` one after the other.
pub open spec fn run_items(s: Seq<u8>, n: nat) -> Seq<Seq<u8>>
    decreases n,
{
    if n == 0 {
        Seq::empty()
    } else {
        let k = first_len(s).unwrap() as int;
        seq![s.subrange(0, k)] + run_items(s.skip(k), (n - 1) as nat)
    }
}

/// Whether `s` is exactly one well-formed node.
pub open spec fn atom_ok(s: Seq<u8>) -> bool {
    first_len(s) == Some(s.len())
}

/// Whether `s` is exactly `n` well-formed nodes, one after the other.
pub open spec fn run_ok(s: Seq<u8>, n: nat) -> bool {
    run_len(s, n) == Some(s.len())
}

/// The arguments of the node `s`: the encodings of its children, in order.
/// A number or a variable has none; a power has two, base and exponent.
pub open spec fn children(s: Seq<u8>) -> Seq<Seq<u8>> {
    let t = tag_of(s[0]);
    if t == FUN_ID || t == MUL_ID {
        run_items(sized_args(s), sized_count(s))
    } else if t == ADD_ID {
        run_items(add_args(s), add_count(s))
    } else if t == POW_ID {
        run_items(s.skip(1), 2)
    } else {
        Seq::empty()
    }
}

/// What follows the header byte of a variable reads as a coefficient of the
/// same length, so that numbers and variables are skipped alike.
pub proof fn lemma_var_body_is_coeff(body: Seq<u8>)
    requires
        var_body_ok(body),
    ensures
        coeff_ok(body),
        coeff_len(body) == pair_len(body),
{
    lemma_sign_keeps_codes(body[0]);
    assert(num_code(body[0]) == body[0] & 0x0f);
}

/// A well-formed node has at least two bytes and ends inside `s`; `n`
/// well-formed nodes take at least `2 * n` bytes.
pub proof fn lemma_len_bounds(s: Seq<u8>, n: nat)
    ensures
        first_len(s) matches Some(k) ==> 2 <= k <= s.len(),
        run_len(s, n) matches Some(k) ==> 2 * n <= k <= s.len(),
    decreases s.len(), n,
{
    if s.len() > 0 {
        let t = tag_of(s[0]);
        if first_len(s) is Some {
            if t == NUM_ID {
                lemma_coeff_bounds(s.skip(1));
            } else if t == VAR_ID {
                lemma_pair_bounds(s.skip(1));
            } else if t == FUN_ID || t == MUL_ID {
                lemma_pair_bounds(s.skip(5));
            } else if t == ADD_ID {
                lemma_pair_bounds(s.skip(1));
            } else {
                lemma_len_bounds(s.skip(1), 2);
            }
        }
    }
    if n > 0 {
        if let Some(k) = first_len(s) {
            if 1 <= k <= s.len() {
                lemma_len_bounds(s.skip(k as int), (n - 1) as nat);
            }
        }
    }
}

/// A node is read from its own bytes alone: a sequence that starts with the
/// same bytes starts with the same node.
pub proof fn lemma_first_prefix(s: Seq<u8>, t: Seq<u8>)
    requires
        first_len(s) is Some,
        agree(s, t, first_len(s).unwrap() as int),
    ensures
        first_len(t) == first_len(s),
    decreases s.len(), 0nat,
{
    let k = first_len(s).unwrap() as int;
    lemma_len_bounds(s, 0);
    lemma_agree_index(s, t, k);
    assert(s[0] == t[0]);
    let g = tag_of(s[0]);
    if g == NUM_ID {
        lemma_agree_skip(s, t, 1, k - 1);
        lemma_coeff_prefix(s.skip(1), t.skip(1));
    } else if g == VAR_ID {
        lemma_agree_skip(s, t, 1, k - 1);
        lemma_pair_prefix(s.skip(1), t.skip(1));
    } else if g == FUN_ID || g == MUL_ID {
        assert(s.subrange(1, 5) == t.subrange(1, 5));
        lemma_agree_skip(s, t, 5, k - 5);
        lemma_agree_shorter(s.skip(5), t.skip(5), k - 5, pair_len(s.skip(5)) as int);
        lemma_pair_prefix(s.skip(5), t.skip(5));
        assert(sized_args(s) == sized_args(t));
    } else if g == ADD_ID {
        lemma_agree_skip(s, t, 1, k - 1);
        lemma_agree_shorter(s.skip(1), t.skip(1), k - 1, pair_len(s.skip(1)) as int);
        lemma_pair_prefix(s.skip(1), t.skip(1));
        assert(add_args(s) == add_args(t));
    } else {
        lemma_agree_skip(s, t, 1, k - 1);
        lemma_run_prefix(s.skip(1), t.skip(1), 2);
    }
}

/// A run of nodes is read from its own bytes alone.
pub proof fn lemma_run_prefix(s: Seq<u8>, t: Seq<u8>, n: nat)
    requires
        run_len(s, n) is Some,
        agree(s, t, run_len(s, n).unwrap() as int),
    ensures
        run_len(t, n) == run_len(s, n),
        run_items(t, n) == run_items(s, n),
    decreases s.len(), 1nat, n,
{
    if n > 0 {
        let total = run_len(s, n).unwrap() as int;
        let k = first_len(s).unwrap() as int;
        lemma_agree_shorter(s, t, total, k);
        lemma_first_prefix(s, t);
        lemma_agree_skip(s, t, k, total - k);
        lemma_run_prefix(s.skip(k), t.skip(k), (n - 1) as nat);
    }
}

/// The lengths of a run of `a + b` nodes: that of a run of `a` nodes and
/// that of the run of `b` nodes behind it.
proof fn lemma_run_split_len(s: Seq<u8>, a: nat, b: nat)
    requires
        run_len(s, a + b) is Some,
    ensures
        run_len(s, a) is Some,
        run_len(s, a).unwrap() <= s.len(),
        run_len(s.skip(run_len(s, a).unwrap() as int), b) is Some,
        run_len(s, a + b).unwrap() == run_len(s, a).unwrap() + run_len(
            s.skip(run_len(s, a).unwrap() as int),
            b,
        ).unwrap(),
    decreases a,
{
    if a == 0 {
        assert(s.skip(0) =~= s);
    } else {
        let k = first_len(s).unwrap() as int;
        let rest = s.skip(k);
        assert((a + b - 1) as nat == (a - 1) as nat + b);
        lemma_run_split_len(rest, (a - 1) as nat, b);
        let m = run_len(rest, (a - 1) as nat).unwrap() as int;
        assert(rest.skip(m) =~= s.skip(k + m));
    }
}

/// A run of `a + b` nodes is a run of `a` nodes followed by a run of `b`.
#[verifier::rlimit(30)]
pub proof fn lemma_run_split(s: Seq<u8>, a: nat, b: nat)
    requires
        run_len(s, a + b) is Some,
    ensures
        run_len(s, a) is Some,
        run_len(s, a).unwrap() <= s.len(),
        run_len(s.skip(run_len(s, a).unwrap() as int), b) is Some,
        run_len(s, a + b).unwrap() == run_len(s, a).unwrap() + run_len(
            s.skip(run_len(s, a).unwrap() as int),
            b,
        ).unwrap(),
        run_items(s, a + b) == run_items(s, a) + run_items(
            s.skip(run_len(s, a).unwrap() as int),
            b,
        ),
    decreases a,
{
    lemma_run_split_len(s, a, b);
    if a == 0 {
        assert(s.skip(0) =~= s);
        assert(run_items(s, b) =~= run_items(s, 0) + run_items(s, b));
    } else {
        let k = first_len(s).unwrap() as int;
        let rest = s.skip(k);
        let head = seq![s.subrange(0, k)];
        assert((a + b - 1) as nat == (a - 1) as nat + b);
        lemma_run_split_len(rest, (a - 1) as nat, b);
        lemma_run_split(rest, (a - 1) as nat, b);
        let m = run_len(rest, (a - 1) as nat).unwrap() as int;
        let first = run_items(rest, (a - 1) as nat);
        let second = run_items(rest.skip(m), b);
        assert(rest.skip(m) =~= s.skip(k + m));
        assert(run_items(s, a) == head + first);
        assert(run_items(s, a + b) == head + (first + second));
        assert(head + (first + second) =~= (head + first) + second);
    }
}

/// The length of a run of `a` nodes followed by a run of `b` nodes.
proof fn lemma_run_join_len(s: Seq<u8>, a: nat, b: nat)
    requires
        run_len(s, a) is Some,
        run_len(s, a).unwrap() <= s.len(),
        run_len(s.skip(run_len(s, a).unwrap() as int), b) is Some,
    ensures
        run_len(s, a + b) == Some(
            run_len(s, a).unwrap() + run_len(s.skip(run_len(s, a).unwrap() as int), b).unwrap(),
        ),
    decreases a,
{
    if a == 0 {
        assert(s.skip(0) =~= s);
    } else {
        let k = first_len(s).unwrap() as int;
        let rest = s.skip(k);
        let m = run_len(rest, (a - 1) as nat).unwrap() as int;
        assert(rest.skip(m) =~= s.skip(k + m));
        lemma_run_join_len(rest, (a - 1) as nat, b);
        assert((a + b - 1) as nat == (a - 1) as nat + b);
    }
}

/// A run of `a` nodes followed by a run of `b` nodes is a run of `a + b`.
pub proof fn lemma_run_join(s: Seq<u8>, a: nat, b: nat)
    requires
        run_len(s, a) is Some,
        run_len(s, a).unwrap() <= s.len(),
        run_len(s.skip(run_len(s, a).unwrap() as int), b) is Some,
    ensures
        run_len(s, a + b) == Some(
            run_len(s, a).unwrap() + run_len(s.skip(run_len(s, a).unwrap() as int), b).unwrap(),
        ),
        run_items(s, a + b) == run_items(s, a) + run_items(
            s.skip(run_len(s, a).unwrap() as int),
            b,
        ),
{
    lemma_run_join_len(s, a, b);
    lemma_run_split(s, a, b);
}

/// Two complete runs, one after the other, are one complete run, and its
/// items are those of the first followed by those of the second.
pub proof fn lemma_run_concat(x: Seq<u8>, a: nat, y: Seq<u8>, b: nat)
    requires
        run_ok(x, a),
        run_ok(y, b),
    ensures
        run_ok(x + y, a + b),
        run_items(x + y, a + b) == run_items(x, a) + run_items(y, b),
{
    let z = x + y;
    assert(agree(x, z, x.len() as int)) by {
        assert(x.subrange(0, x.len() as int) =~= z.subrange(0, x.len() as int));
    }
    lemma_run_prefix(x, z, a);
    assert(z.skip(x.len() as int) =~= y);
    lemma_run_join(z, a, b);
}

/// One node is a run of one.
pub proof fn lemma_run_of_one(s: Seq<u8>)
    ensures
        run_len(s, 1) == first_len(s),
        first_len(s) is Some ==> run_items(s, 1) == seq![
            s.subrange(0, first_len(s).unwrap() as int),
        ],
{
    reveal_with_fuel(run_len, 2);
    reveal_with_fuel(run_items, 2);
    lemma_len_bounds(s, 0);
    if let Some(k) = first_len(s) {
        assert(run_len(s.skip(k as int), 0) == Some(0nat));
        assert(run_items(s, 1) =~= seq![s.subrange(0, k as int)]);
    }
}

/// A run has as many items as it has nodes, and each item is exactly one
/// well-formed node.
pub proof fn lemma_run_items(s: Seq<u8>, n: nat)
    requires
        run_len(s, n) is Some,
    ensures
        run_items(s, n).len() == n,
        forall|i: int| 0 <= i < n ==> atom_ok(#[trigger] run_items(s, n)[i]),
    decreases n,
{
    if n > 0 {
        let k = first_len(s).unwrap() as int;
        let head = s.subrange(0, k);
        lemma_len_bounds(s, 0);
        lemma_run_items(s.skip(k), (n - 1) as nat);
        assert(agree(s, head, k)) by {
            assert(s.subrange(0, k) =~= head.subrange(0, k));
        }
        lemma_first_prefix(s, head);
        let tail = run_items(s.skip(k), (n - 1) as nat);
        assert forall|i: int| 0 <= i < n implies atom_ok(#[trigger] run_items(s, n)[i]) by {
            if i > 0 {
                assert(run_items(s, n)[i] == tail[i - 1]);
            }
        }
    }
}

/// The item at `i` of a run starts where the first `i` nodes end, and is the
/// node found there.
pub proof fn lemma_run_item_at(s: Seq<u8>, n: nat, i: nat)
    requires
        run_len(s, n) is Some,
        i < n,
    ensures
        run_len(s, i) is Some,
        run_len(s, i).unwrap() <= s.len(),
        first_len(s.skip(run_len(s, i).unwrap() as int)) is Some,
        run_items(s, n)[i as int] == s.skip(run_len(s, i).unwrap() as int).subrange(
            0,
            first_len(s.skip(run_len(s, i).unwrap() as int)).unwrap() as int,
        ),
        run_len(s, i + 1) == Some(
            run_len(s, i).unwrap() + first_len(s.skip(run_len(s, i).unwrap() as int)).unwrap(),
        ),
{
    assert(i + (n - i) as nat == n);
    lemma_run_split(s, i, (n - i) as nat);
    lemma_run_items(s, i);
    let rest = s.skip(run_len(s, i).unwrap() as int);
    assert(run_items(rest, (n - i) as nat)[0] == rest.subrange(
        0,
        first_len(rest).unwrap() as int,
    ));
    lemma_run_of_one(rest);
    lemma_len_bounds(rest, 1);
    lemma_run_join(s, i, 1);
}

/// How a well-formed node is delimited, kind by kind.
pub proof fn lemma_first_len_by_kind(s: Seq<u8>)
    requires
        first_len(s) is Some,
    ensures
        s.len() >= 2,
        2 <= first_len(s).unwrap() <= s.len(),
        1 <= tag_of(s[0]) <= 6,
        tag_of(s[0]) == NUM_ID || tag_of(s[0]) == VAR_ID ==> coeff_ok(s.skip(1)) && first_len(s)
            == Some(1 + coeff_len(s.skip(1))),
        tag_of(s[0]) == VAR_ID ==> var_body_ok(s.skip(1)) && coeff_len(s.skip(1)) == pair_len(
            s.skip(1),
        ),
        tag_of(s[0]) == FUN_ID || tag_of(s[0]) == MUL_ID ==> sized_ok(s) && first_len(s) == Some(
            5 + stored_size(s),
        ) && run_ok(sized_args(s), sized_count(s)),
        tag_of(s[0]) == FUN_ID ==> fun_name(s) < 2 * FUN_ANTISYMMETRIC_FLAG,
        tag_of(s[0]) == ADD_ID ==> add_ok(s) && first_len(s) == Some(
            1 + pair_len(s.skip(1)) + pair_second(s.skip(1)),
        ) && run_ok(add_args(s), add_count(s)),
        tag_of(s[0]) == POW_ID ==> run_len(s.skip(1), 2) is Some && first_len(s) == Some(
            1 + run_len(s.skip(1), 2).unwrap(),
        ),
{
    lemma_len_bounds(s, 0);
    if tag_of(s[0]) == VAR_ID {
        lemma_var_body_is_coeff(s.skip(1));
    }
}

/// One step of skipping a run of `c` nodes. Behind a node that stores its
/// size, `c - 1` nodes are left. Behind the header byte of a power, which
/// stores none, `c + 1` nodes are left: its two children and the others.
pub proof fn lemma_run_step(s: Seq<u8>, c: nat)
    requires
        c >= 1,
        run_len(s, c) is Some,
    ensures
        first_len(s) is Some,
        2 <= first_len(s).unwrap() <= run_len(s, c).unwrap() <= s.len(),
        run_len(s.skip(first_len(s).unwrap() as int), (c - 1) as nat) == Some(
            (run_len(s, c).unwrap() - first_len(s).unwrap()) as nat,
        ),
        tag_of(s[0]) == POW_ID ==> run_len(s.skip(1), c + 1) == Some(
            (run_len(s, c).unwrap() - 1) as nat,
        ) && 2 * (c + 1) <= s.len() - 1,
{
    lemma_len_bounds(s, c);
    lemma_len_bounds(s, 0);
    let k = first_len(s).unwrap() as int;
    if tag_of(s[0]) == POW_ID {
        let body = s.skip(1);
        let inner = run_len(body, 2).unwrap() as int;
        lemma_len_bounds(body, 2);
        assert(body.skip(inner) =~= s.skip(k));
        lemma_run_join(body, 2, (c - 1) as nat);
        assert((2 + (c - 1)) as nat == c + 1);
        lemma_len_bounds(body, c + 1);
    }
}

/// The parts of a power: behind the header byte stand the base and, behind
/// the base, the exponent, and nothing else.
pub proof fn lemma_pow_parts(s: Seq<u8>)
    requires
        atom_ok(s),
        tag_of(s[0]) == POW_ID,
    ensures
        first_len(s.skip(1)) is Some,
        first_len(s.skip(1)).unwrap() <= s.skip(1).len(),
        first_len(s.skip(1).skip(first_len(s.skip(1)).unwrap() as int)) is Some,
        1 + first_len(s.skip(1)).unwrap() + first_len(
            s.skip(1).skip(first_len(s.skip(1)).unwrap() as int),
        ).unwrap() == s.len(),
        children(s).len() == 2,
        children(s)[0] == s.skip(1).subrange(0, first_len(s.skip(1)).unwrap() as int),
        children(s)[1] == s.skip(1).skip(first_len(s.skip(1)).unwrap() as int).subrange(
            0,
            first_len(s.skip(1).skip(first_len(s.skip(1)).unwrap() as int)).unwrap() as int,
        ),
        s == seq![s[0]] + children(s)[0] + children(s)[1],
{
    let body = s.skip(1);
    lemma_first_len_by_kind(s);
    lemma_run_items(body, 2);
    lemma_run_item_at(body, 2, 0);
    lemma_run_item_at(body, 2, 1);
    assert(body.skip(0) =~= body);
    lemma_run_of_one(body);
    let k = first_len(body).unwrap() as int;
    let rest = body.skip(k);
    lemma_len_bounds(rest, 0);
    let j = first_len(rest).unwrap() as int;
    assert(s =~= seq![s[0]] + body.subrange(0, k) + rest.subrange(0, j));
}

} // verus!
