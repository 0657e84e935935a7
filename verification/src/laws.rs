//! What holds of the encoding as a whole, proved from the contracts of the
//! operations.

use crate::buffer::{le_bytes, lemma_le_bytes_len, lemma_le_value_of_bytes, lemma_radix_values};
use crate::builder::{fits_sized, lemma_spliced, spliced_args, spliced_count, spliced_items};
use crate::layout::{
    add_args, add_count, ADD_ID, atom_ok, children, first_len, FUN_ID, fun_name,
    lemma_first_len_by_kind, lemma_len_bounds, lemma_run_concat, lemma_run_items,
    MUL_HAS_COEFF_FLAG, MUL_ID, NOT_NORMALIZED, NUM_ID, POW_ID, run_len, sized_args, sized_count,
    tag_of, VAR_ID,
};
use crate::merge::{agrees, merged};
use crate::node::{
    flatten, lemma_add_node, lemma_fresh_flags, lemma_run_flatten, lemma_run_push,
    lemma_sized_node,
};
use crate::packed::{lemma_packed_pair_parts, lemma_pair_bounds};
use crate::rename::{
    add_extended, fresh_add, fresh_fun, fresh_mul, fun_with_arg, lemma_rebuilt_by_kind,
    lemma_run_head, lemma_touched_by_kind, lemma_touched_run_step, mul_extended, renamed,
    renamed_run, renames_nothing, Renaming, room, touched, touched_run,
};
use crate::state::{lemma_section_reads, model_ok, section, StateModel, writable};
use crate::stream::{
    exported, frame, import_result, imported, ImportError, lemma_frame_reads, read_result,
    ReadError, with_read_error,
};
use crate::symbol::{fun_symbol, lemma_flag_update};
use crate::view::{after_steps, lemma_index_is_iteration, node_ok, normalized};
use vstd::prelude::*;

verus! {

/// Adding an argument to a well-formed function that has room for it gives
/// a well-formed function with that argument behind the others; it is
/// marked as not normalized.
pub proof fn lemma_fun_with_arg(acc: Seq<u8>, r: Seq<u8>)
    requires
        node_ok(acc, FUN_ID),
        atom_ok(r),
        fits_sized(acc, r),
    ensures
        node_ok(fun_with_arg(acc, r), FUN_ID),
        children(fun_with_arg(acc, r)) == children(acc).push(r),
        sized_count(fun_with_arg(acc, r)) == sized_count(acc) + 1,
        !normalized(fun_with_arg(acc, r)),
        fun_with_arg(acc, r).len() <= acc.len() + r.len() + 17,
{
    let args = sized_args(acc);
    let count = sized_count(acc);
    lemma_first_len_by_kind(acc);
    lemma_pair_bounds(acc.skip(5));
    lemma_len_bounds(args, count);
    lemma_flag_update(acc[0], NOT_NORMALIZED);
    lemma_run_push(args, count, r);
    lemma_packed_pair_parts(fun_name(acc), count + 1);
    lemma_sized_node(
        acc[0] | NOT_NORMALIZED,
        fun_name(acc),
        count + 1,
        args + r,
        count + 1,
    );
}

/// Extending a well-formed product that has room gives a well-formed
/// product whose factors are the old ones followed by the new one; the
/// factors of a product take its place. It is marked as not normalized.
pub proof fn lemma_mul_extended(acc: Seq<u8>, r: Seq<u8>)
    requires
        node_ok(acc, MUL_ID),
        atom_ok(r),
        fits_sized(acc, r),
    ensures
        node_ok(mul_extended(acc, r), MUL_ID),
        children(mul_extended(acc, r)) == children(acc) + spliced_items(r, MUL_ID),
        sized_count(mul_extended(acc, r)) == sized_count(acc) + spliced_count(r, MUL_ID),
        !normalized(mul_extended(acc, r)),
        mul_extended(acc, r)[0] == acc[0] | NOT_NORMALIZED,
        mul_extended(acc, r).len() <= acc.len() + r.len() + 17,
{
    let args = sized_args(acc);
    let count = sized_count(acc);
    let more = spliced_args(r, MUL_ID);
    let more_count = spliced_count(r, MUL_ID);
    lemma_first_len_by_kind(acc);
    lemma_pair_bounds(acc.skip(5));
    lemma_len_bounds(args, count);
    lemma_flag_update(acc[0], NOT_NORMALIZED);
    lemma_spliced(r, MUL_ID);
    lemma_run_concat(args, count, more, more_count);
    lemma_packed_pair_parts(count + more_count, 1);
    lemma_sized_node(acc[0] | NOT_NORMALIZED, count + more_count, 1, args + more, count + more_count);
}

/// Extending a well-formed sum gives a well-formed sum whose terms are the
/// old ones followed by the new one; the terms of a sum take its place. It
/// is marked as not normalized.
pub proof fn lemma_add_extended(acc: Seq<u8>, r: Seq<u8>)
    requires
        node_ok(acc, ADD_ID),
        atom_ok(r),
        acc.len() + r.len() + 17 <= u64::MAX,
    ensures
        node_ok(add_extended(acc, r), ADD_ID),
        children(add_extended(acc, r)) == children(acc) + spliced_items(r, ADD_ID),
        add_count(add_extended(acc, r)) == add_count(acc) + spliced_count(r, ADD_ID),
        !normalized(add_extended(acc, r)),
        add_extended(acc, r).len() <= acc.len() + r.len() + 17,
{
    let args = add_args(acc);
    let count = add_count(acc);
    let more = spliced_args(r, ADD_ID);
    let more_count = spliced_count(r, ADD_ID);
    lemma_first_len_by_kind(acc);
    lemma_pair_bounds(acc.skip(1));
    lemma_len_bounds(args, count);
    lemma_flag_update(acc[0], NOT_NORMALIZED);
    lemma_spliced(r, ADD_ID);
    lemma_run_concat(args, count, more, more_count);
    lemma_packed_pair_parts(count + more_count, (args + more).len());
    lemma_add_node(acc[0] | NOT_NORMALIZED, count + more_count, args + more);
}

/// The product `acc` extended by each of `others` in turn.
pub open spec fn mul_extended_by_all(acc: Seq<u8>, others: Seq<Seq<u8>>) -> Seq<u8>
    decreases others.len(),
{
    if others.len() == 0 {
        acc
    } else {
        mul_extended_by_all(mul_extended(acc, others[0]), others.skip(1))
    }
}

/// The sum `acc` extended by each of `others` in turn.
pub open spec fn add_extended_by_all(acc: Seq<u8>, others: Seq<Seq<u8>>) -> Seq<u8>
    decreases others.len(),
{
    if others.len() == 0 {
        acc
    } else {
        add_extended_by_all(add_extended(acc, others[0]), others.skip(1))
    }
}

/// What the nodes `others` add to a container of the kind `kind`, in order:
/// each adds itself, or its arguments if it is a container of that kind.
pub open spec fn spliced_all(others: Seq<Seq<u8>>, kind: u8) -> Seq<Seq<u8>>
    decreases others.len(),
{
    if others.len() == 0 {
        Seq::empty()
    } else {
        spliced_items(others[0], kind) + spliced_all(others.skip(1), kind)
    }
}

/// Whether the product `acc` can be extended by each of `others` in turn:
/// at each step the product and the node have room under a four-byte size
/// field.
pub open spec fn mul_calls_fit(acc: Seq<u8>, others: Seq<Seq<u8>>) -> bool
    decreases others.len(),
{
    others.len() == 0 || (fits_sized(acc, others[0]) && mul_calls_fit(
        mul_extended(acc, others[0]),
        others.skip(1),
    ))
}

/// Whether the sum `acc` can be extended by each of `others` in turn: at
/// each step the sum and the node have room in a buffer.
pub open spec fn add_calls_fit(acc: Seq<u8>, others: Seq<Seq<u8>>) -> bool
    decreases others.len(),
{
    others.len() == 0 || (acc.len() + others[0].len() + 17 <= usize::MAX && add_calls_fit(
        add_extended(acc, others[0]),
        others.skip(1),
    ))
}

/// Nodes that are no containers of the kind `kind` add themselves.
pub proof fn lemma_spliced_plain(others: Seq<Seq<u8>>, kind: u8)
    requires
        forall|i: int| 0 <= i < others.len() ==> tag_of((#[trigger] others[i])[0]) != kind,
    ensures
        spliced_all(others, kind) == others,
    decreases others.len(),
{
    if others.len() > 0 {
        assert forall|i: int| 0 <= i < others.skip(1).len() implies tag_of(
            (#[trigger] others.skip(1)[i])[0],
        ) != kind by {
            assert(others.skip(1)[i] == others[i + 1]);
        }
        lemma_spliced_plain(others.skip(1), kind);
        assert(seq![others[0]] + others.skip(1) =~= others);
    }
}

/// Appending is consistent for products: a product extended again and
/// again, as often as `extend` can be called, holds its old factors
/// followed by what was appended, in the order of appending, and counts
/// exactly those; its coefficient flag stays.
#[verifier::rlimit(30)]
pub proof fn lemma_mul_append_consistent(acc: Seq<u8>, others: Seq<Seq<u8>>)
    requires
        node_ok(acc, MUL_ID),
        forall|i: int| 0 <= i < others.len() ==> atom_ok(#[trigger] others[i]),
        mul_calls_fit(acc, others),
    ensures
        node_ok(mul_extended_by_all(acc, others), MUL_ID),
        mul_extended_by_all(acc, others)[0] & MUL_HAS_COEFF_FLAG == acc[0] & MUL_HAS_COEFF_FLAG,
        children(mul_extended_by_all(acc, others)) == children(acc) + spliced_all(
            others,
            MUL_ID,
        ),
        sized_count(mul_extended_by_all(acc, others)) == children(
            mul_extended_by_all(acc, others),
        ).len(),
    decreases others.len(),
{
    if others.len() == 0 {
        lemma_first_len_by_kind(acc);
        lemma_run_items(sized_args(acc), sized_count(acc));
        assert(children(acc) + spliced_all(others, MUL_ID) =~= children(acc));
    } else {
        let next = mul_extended(acc, others[0]);
        lemma_mul_extended(acc, others[0]);
        lemma_flag_update(acc[0], NOT_NORMALIZED);
        assert forall|i: int| 0 <= i < others.skip(1).len() implies atom_ok(
            #[trigger] others.skip(1)[i],
        ) by {
            assert(others.skip(1)[i] == others[i + 1]);
        }
        lemma_mul_append_consistent(next, others.skip(1));
        assert(children(acc) + spliced_items(others[0], MUL_ID) + spliced_all(
            others.skip(1),
            MUL_ID,
        ) =~= children(acc) + spliced_all(others, MUL_ID));
    }
}

/// Appending is consistent for sums: a sum extended again and again, as
/// often as `extend` can be called, holds its old terms followed by what
/// was appended, in the order of appending, and counts exactly those.
#[verifier::rlimit(30)]
pub proof fn lemma_add_append_consistent(acc: Seq<u8>, others: Seq<Seq<u8>>)
    requires
        node_ok(acc, ADD_ID),
        forall|i: int| 0 <= i < others.len() ==> atom_ok(#[trigger] others[i]),
        add_calls_fit(acc, others),
    ensures
        node_ok(add_extended_by_all(acc, others), ADD_ID),
        children(add_extended_by_all(acc, others)) == children(acc) + spliced_all(
            others,
            ADD_ID,
        ),
        add_count(add_extended_by_all(acc, others)) == children(
            add_extended_by_all(acc, others),
        ).len(),
    decreases others.len(),
{
    if others.len() == 0 {
        lemma_first_len_by_kind(acc);
        lemma_run_items(add_args(acc), add_count(acc));
        assert(children(acc) + spliced_all(others, ADD_ID) =~= children(acc));
    } else {
        let next = add_extended(acc, others[0]);
        lemma_add_extended(acc, others[0]);
        assert forall|i: int| 0 <= i < others.skip(1).len() implies atom_ok(
            #[trigger] others.skip(1)[i],
        ) by {
            assert(others.skip(1)[i] == others[i + 1]);
        }
        lemma_add_append_consistent(next, others.skip(1));
        assert(children(acc) + spliced_items(others[0], ADD_ID) + spliced_all(
            others.skip(1),
            ADD_ID,
        ) =~= children(acc) + spliced_all(others, ADD_ID));
    }
}

/// A product built by appending to the empty product holds what was
/// appended, in the order of appending, and counts exactly that: as many
/// factors as there were calls, where no product was appended.
pub proof fn lemma_mul_built_by_appending(others: Seq<Seq<u8>>)
    requires
        forall|i: int| 0 <= i < others.len() ==> atom_ok(#[trigger] others[i]),
        mul_calls_fit(fresh_mul(), others),
    ensures
        node_ok(mul_extended_by_all(fresh_mul(), others), MUL_ID),
        children(mul_extended_by_all(fresh_mul(), others)) == spliced_all(others, MUL_ID),
        sized_count(mul_extended_by_all(fresh_mul(), others)) == spliced_all(
            others,
            MUL_ID,
        ).len(),
        (forall|i: int| 0 <= i < others.len() ==> tag_of((#[trigger] others[i])[0]) != MUL_ID)
            ==> children(mul_extended_by_all(fresh_mul(), others)) == others,
{
    lemma_fresh_flags();
    lemma_run_items(Seq::empty(), 0);
    lemma_sized_node(MUL_ID | NOT_NORMALIZED, 0, 1, Seq::empty(), 0);
    lemma_mul_append_consistent(fresh_mul(), others);
    assert(children(fresh_mul()) + spliced_all(others, MUL_ID) =~= spliced_all(others, MUL_ID));
    if forall|i: int| 0 <= i < others.len() ==> tag_of((#[trigger] others[i])[0]) != MUL_ID {
        lemma_spliced_plain(others, MUL_ID);
    }
}

/// A sum built by appending to the empty sum holds what was appended, in
/// the order of appending, and counts exactly that: as many terms as there
/// were calls, where no sum was appended.
pub proof fn lemma_add_built_by_appending(others: Seq<Seq<u8>>)
    requires
        forall|i: int| 0 <= i < others.len() ==> atom_ok(#[trigger] others[i]),
        add_calls_fit(fresh_add(), others),
    ensures
        node_ok(add_extended_by_all(fresh_add(), others), ADD_ID),
        children(add_extended_by_all(fresh_add(), others)) == spliced_all(others, ADD_ID),
        add_count(add_extended_by_all(fresh_add(), others)) == spliced_all(
            others,
            ADD_ID,
        ).len(),
        (forall|i: int| 0 <= i < others.len() ==> tag_of((#[trigger] others[i])[0]) != ADD_ID)
            ==> children(add_extended_by_all(fresh_add(), others)) == others,
{
    lemma_fresh_flags();
    lemma_run_items(Seq::empty(), 0);
    lemma_add_node(ADD_ID | NOT_NORMALIZED, 0, Seq::empty());
    lemma_add_append_consistent(fresh_add(), others);
    assert(children(fresh_add()) + spliced_all(others, ADD_ID) =~= spliced_all(others, ADD_ID));
    if forall|i: int| 0 <= i < others.len() ==> tag_of((#[trigger] others[i])[0]) != ADD_ID {
        lemma_spliced_plain(others, ADD_ID);
    }
}

/// A power has exactly two arguments, whatever they are and however deep
/// powers are nested in them; both are well-formed nodes.
pub proof fn lemma_pow_has_two_children(s: Seq<u8>)
    requires
        node_ok(s, POW_ID),
    ensures
        children(s).len() == 2,
        atom_ok(children(s)[0]),
        atom_ok(children(s)[1]),
        s == seq![s[0]] + children(s)[0] + children(s)[1],
{
    lemma_first_len_by_kind(s);
    lemma_run_items(s.skip(1), 2);
    lemma_run_flatten(s.skip(1), 2);
    let items = children(s);
    reveal_with_fuel(flatten, 3);
    assert(items.skip(1).skip(1).len() == 0);
    assert(flatten(items) =~= items[0] + items[1]);
    assert(s =~= seq![s[0]] + s.skip(1));
}

/// The arguments of a well-formed node are well-formed nodes, and as many
/// as the node counts.
pub proof fn lemma_children_are_nodes(s: Seq<u8>)
    requires
        atom_ok(s),
    ensures
        forall|i: int| 0 <= i < children(s).len() ==> atom_ok(#[trigger] children(s)[i]),
        tag_of(s[0]) == FUN_ID || tag_of(s[0]) == MUL_ID ==> children(s).len() == sized_count(s),
        tag_of(s[0]) == ADD_ID ==> children(s).len() == add_count(s),
        tag_of(s[0]) == POW_ID ==> children(s).len() == 2,
        tag_of(s[0]) == NUM_ID || tag_of(s[0]) == VAR_ID ==> children(s).len() == 0,
{
    lemma_first_len_by_kind(s);
    let t = tag_of(s[0]);
    if t == FUN_ID || t == MUL_ID {
        lemma_run_items(sized_args(s), sized_count(s));
    } else if t == ADD_ID {
        lemma_run_items(add_args(s), add_count(s));
    } else if t == POW_ID {
        lemma_run_items(s.skip(1), 2);
    }
}

/// Access by index agrees with iteration, for every index: the node at
/// `i` of the arguments of a node is the node that stepping through the
/// arguments from the start reaches after `i` steps.
pub proof fn lemma_random_access_consistent(s: Seq<u8>, i: nat)
    requires
        atom_ok(s),
        i < children(s).len(),
    ensures
        after_steps(children(s), i)[0] == children(s)[i as int],
        after_steps(children(s), i).len() == children(s).len() - i,
{
    lemma_index_is_iteration(children(s), i);
}

/// Writing and reading back: whatever follows the frame of a well-formed
/// expression, reading the stream gives that expression, byte for byte.
pub proof fn lemma_round_trip(payload: Seq<u8>, rest: Seq<u8>)
    requires
        atom_ok(payload),
        payload.len() <= u64::MAX,
    ensures
        read_result(frame(payload) + rest) == Ok::<Seq<u8>, ReadError>(payload),
{
    lemma_frame_reads(payload, rest);
}

/// A table that has no entry touches no run of nodes.
proof fn lemma_nothing_touched_run(args: Seq<u8>, n: nat, m: Renaming)
    requires
        run_len(args, n) is Some,
        renames_nothing(m),
    ensures
        !touched_run(args, n, m),
    decreases args.len(), 1nat,
{
    lemma_touched_run_step(args, n, m);
    if n > 0 {
        lemma_run_head(args, n);
        let k = first_len(args).unwrap() as int;
        lemma_nothing_touched(args.subrange(0, k), m);
        lemma_nothing_touched_run(args.skip(k), (n - 1) as nat, m);
    }
}

/// A table that has no entry touches no expression.
pub proof fn lemma_nothing_touched(s: Seq<u8>, m: Renaming)
    requires
        atom_ok(s),
        renames_nothing(m),
    ensures
        !touched(s, m),
    decreases s.len(), 0nat,
{
    lemma_touched_by_kind(s, m);
    lemma_first_len_by_kind(s);
    let t = tag_of(s[0]);
    if t == FUN_ID || t == MUL_ID {
        lemma_nothing_touched_run(sized_args(s), sized_count(s), m);
    } else if t == ADD_ID {
        lemma_nothing_touched_run(add_args(s), add_count(s), m);
    } else if t == POW_ID {
        lemma_nothing_touched_run(s.skip(1), 2, m);
    }
}

/// Renaming changes nothing where it has nothing to change: an expression
/// that names nothing that the table has an entry for comes back byte for
/// byte, with its flags, whether it is marked as normalized or not.
pub proof fn lemma_untouched_stays(s: Seq<u8>, m: Renaming)
    requires
        !touched(s, m),
    ensures
        renamed(s, m) == Some(s),
{
}

/// Renaming by a table that has no entry gives every well-formed
/// expression back byte for byte.
pub proof fn lemma_rename_nothing(s: Seq<u8>, m: Renaming)
    requires
        atom_ok(s),
        renames_nothing(m),
    ensures
        renamed(s, m) == Some(s),
{
    lemma_nothing_touched(s, m);
}

/// Renaming reaches every depth: a function whose own symbol the table has
/// no entry for is built anew from its own symbol and its renamed
/// arguments as soon as the table has an entry for something in one of
/// its arguments.
pub proof fn lemma_rename_reaches_arguments(s: Seq<u8>, m: Renaming)
    requires
        node_ok(s, FUN_ID),
        !m.symbols.contains_key(fun_symbol(s).id),
        touched_run(sized_args(s), sized_count(s), m),
    ensures
        renamed(s, m) == renamed_run(
            sized_args(s),
            sized_count(s),
            m,
            fresh_fun(fun_symbol(s)),
            FUN_ID,
        ),
{
    lemma_touched_by_kind(s, m);
    lemma_rebuilt_by_kind(s, m);
}

/// Import is the inverse of export where the tables agree: importing what
/// was exported for a well-formed expression under the symbol table
/// `there` into a table `local` that holds all of `there` in the same
/// places changes nothing. The table stays as it is, and the expression
/// comes back byte for byte, flags included, whatever follows it in the
/// stream and whether a function to resolve conflicts is given or not.
#[verifier::rlimit(30)]
pub proof fn lemma_import_of_export<F: Fn(Vec<u8>) -> Vec<u8>>(
    local: StateModel,
    there: StateModel,
    s: Seq<u8>,
    rest: Seq<u8>,
    conflict_fn: Option<F>,
    new: StateModel,
    r: Result<Seq<u8>, ImportError>,
)
    requires
        model_ok(there),
        writable(there),
        agrees(local, there),
        atom_ok(s),
        s.len() <= u64::MAX,
        imported(exported(section(there), s) + rest, local, conflict_fn, new, r),
    ensures
        new == local,
        r == Ok::<Seq<u8>, ImportError>(s),
{
    let stream = exported(section(there), s) + rest;
    let behind = le_bytes(1, 8) + frame(s) + rest;
    assert(stream =~= section(there) + behind);
    lemma_section_reads(there, behind);
    assert(stream.skip(section(there).len() as int) =~= behind);
    let m = choose|m: Renaming|
        #[trigger] merged(local, there, conflict_fn, new, m) && r == with_read_error(
            import_result(behind, m),
        );
    lemma_nothing_touched(s, m);
    lemma_expressions_of_export(s, rest, m);
}

/// Behind the section of the symbol table, what was exported for one
/// expression is read back as that expression, under a table that has no
/// entry for anything that the expression names.
#[verifier::rlimit(30)]
pub proof fn lemma_expressions_of_export(s: Seq<u8>, rest: Seq<u8>, m: Renaming)
    requires
        atom_ok(s),
        s.len() <= u64::MAX,
        !touched(s, m),
    ensures
        import_result(le_bytes(1, 8) + frame(s) + rest, m) == Ok::<Seq<u8>, ReadError>(s),
{
    let count = le_bytes(1, 8);
    let stream = count + frame(s) + rest;
    lemma_le_bytes_len(1, 8);
    lemma_radix_values();
    lemma_le_value_of_bytes(1, 8);
    assert(stream.subrange(0, 8) =~= count);
    assert(stream.skip(8) =~= frame(s) + rest);
    lemma_frame_reads(s, rest);
}

} // verus!
