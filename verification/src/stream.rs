//! Expressions in a byte stream.
//!
//! An expression is framed as a reserved flags byte, the number of bytes of
//! the encoding as eight little-endian bytes, and the encoding itself.
//! Nothing is taken on trust from a stream: what is read is checked to be
//! exactly one well-formed node before it becomes an `Atom`.

use crate::atom::Atom;
use crate::buffer::{
    advance, append, get_u32_le, get_u64_le, get_u8, le_bytes, le_value, lemma_le_bytes_len,
    lemma_le_value_of_bytes, lemma_radix_values, write_u64_le, write_u8,
};
use crate::builder::Add;
use crate::coefficient::{has_coeff, lemma_coeff_bounds, skip_rational};
use crate::layout::{
    add_args, ADD_ID, atom_ok, first_len, FUN_ANTISYMMETRIC_FLAG, FUN_ID, lemma_len_bounds, MUL_ID,
    NUM_ID, POW_ID, run_len, sized_args, TYPE_MASK, VAR_ID,
};
use crate::merge::{agrees, clear_from, conflict_failed, extends, held_otherwise, merged};
use crate::packed::{get_frac_u64, get_pair_size, has_pair};
use crate::rename::{add_extended, fresh_add, renamed, Renaming, StateMap};
use crate::state::{model_ok, section, section_parsed, State, StateError, StateModel};
use crate::view::AtomView;
use vstd::prelude::*;
use vstd::slice::slice_subrange;

verus! {

/// Why importing an expression failed.
#[derive(Debug, Clone, Copy, PartialEq, Eq, Hash, Structural)]
pub enum ImportError {
    /// The stream could not be read.
    Read(ReadError),
    /// The symbol table of the stream could not be merged.
    State(StateError),
}

/// Why reading an expression from a stream failed.
#[derive(Debug, Clone, Copy, PartialEq, Eq, Hash, Structural)]
pub enum ReadError {
    /// The stream ends before the frame does.
    Truncated,
    /// The bytes in the frame are not exactly one well-formed node.
    Malformed,
    /// A function or a product would take more bytes than its size field
    /// can hold.
    TooLarge,
}

/// The frame of an encoding: a zero flags byte, the length as eight
/// little-endian bytes, and the encoding.
pub open spec fn frame(payload: Seq<u8>) -> Seq<u8> {
    seq![0u8] + le_bytes(payload.len(), 8) + payload
}

/// The length that the frame at the start of `s` announces.
pub open spec fn frame_size(s: Seq<u8>) -> nat {
    le_value(s.subrange(1, 9))
}

/// Whether `s` starts with a complete frame.
pub open spec fn frame_complete(s: Seq<u8>) -> bool {
    s.len() >= 9 && 9 + frame_size(s) <= s.len()
}

/// The bytes in the frame at the start of `s`.
pub open spec fn frame_payload(s: Seq<u8>) -> Seq<u8> {
    s.subrange(9, 9 + frame_size(s) as int)
}

/// What reading one expression from `s` gives: the encoding, or why there
/// is none.
pub open spec fn read_result(s: Seq<u8>) -> Result<Seq<u8>, ReadError> {
    if !frame_complete(s) {
        Err(ReadError::Truncated)
    } else if !atom_ok(frame_payload(s)) {
        Err(ReadError::Malformed)
    } else {
        Ok(frame_payload(s))
    }
}

/// A frame is read back as what was framed, whatever follows it.
pub proof fn lemma_frame_reads(payload: Seq<u8>, rest: Seq<u8>)
    requires
        payload.len() <= u64::MAX,
    ensures
        frame(payload).len() == 9 + payload.len(),
        frame_complete(frame(payload) + rest),
        frame_size(frame(payload) + rest) == payload.len(),
        frame_payload(frame(payload) + rest) == payload,
        (frame(payload) + rest).skip(9 + payload.len() as int) == rest,
{
    let s = frame(payload) + rest;
    lemma_le_bytes_len(payload.len(), 8);
    lemma_radix_values();
    lemma_le_value_of_bytes(payload.len(), 8);
    assert(s.subrange(1, 9) =~= le_bytes(payload.len(), 8));
    assert(s.subrange(9, 9 + payload.len() as int) =~= payload);
    assert(s.skip(9 + payload.len() as int) =~= rest);
}

/// The number of bytes of the node that starts `data`, if `data` starts with
/// a well-formed node.
pub fn node_size(data: &[u8]) -> (r: Option<usize>)
    ensures
        r is Some == first_len(data@) is Some,
        r is Some ==> r.unwrap() == first_len(data@).unwrap(),
    decreases data@.len(), 0nat,
{
    if data.len() == 0 {
        return None;
    }
    let t = data[0] & TYPE_MASK;
    let body = slice_subrange(data, 1, data.len());
    assert(body@ =~= data@.skip(1));
    if t == NUM_ID {
        if !has_coeff(body) {
            return None;
        }
        let rest = skip_rational(body);
        proof {
            lemma_coeff_bounds(body@);
        }
        Some(data.len() - rest.len())
    } else if t == VAR_ID {
        if !has_pair(body) {
            return None;
        }
        let (id, _, _) = get_frac_u64(body);
        if id > 0xffff_ffff {
            return None;
        }
        Some(1 + get_pair_size(body))
    } else if t == FUN_ID || t == MUL_ID {
        if data.len() < 5 {
            return None;
        }
        let (size, head) = get_u32_le(body);
        let size = size as usize;
        proof {
            assert(body@.subrange(0, 4) =~= data@.subrange(1, 5));
            assert(head@ =~= data@.skip(5));
        }
        if !has_pair(head) {
            return None;
        }
        let pl = get_pair_size(head);
        if pl > size || size > head.len() {
            return None;
        }
        let (a, b, _) = get_frac_u64(head);
        if t == FUN_ID && a >= 2 * FUN_ANTISYMMETRIC_FLAG {
            return None;
        }
        let count = if t == FUN_ID {
            b
        } else {
            a
        };
        let args = slice_subrange(head, pl, size);
        assert(args@ =~= sized_args(data@));
        match run_size(args, count) {
            Some(k) => {
                if k == args.len() {
                    Some(5 + size)
                } else {
                    None
                }
            },
            None => None,
        }
    } else if t == ADD_ID {
        if !has_pair(body) {
            return None;
        }
        let pl = get_pair_size(body);
        let (count, size, rest) = get_frac_u64(body);
        if size > rest.len() as u64 {
            return None;
        }
        let size = size as usize;
        let args = slice_subrange(rest, 0, size);
        assert(args@ =~= add_args(data@));
        match run_size(args, count) {
            Some(k) => {
                if k == args.len() {
                    Some(1 + pl + size)
                } else {
                    None
                }
            },
            None => None,
        }
    } else if t == POW_ID {
        match run_size(body, 2) {
            Some(k) => {
                proof {
                    lemma_len_bounds(body@, 2);
                    assert(1 + k <= data.len());
                }
                Some(1 + k)
            },
            None => None,
        }
    } else {
        None
    }
}

/// The number of bytes of the `n` nodes that start `data` one after the
/// other, if `data` starts with `n` well-formed nodes.
pub fn run_size(data: &[u8], n: u64) -> (r: Option<usize>)
    ensures
        r is Some == run_len(data@, n as nat) is Some,
        r is Some ==> r.unwrap() == run_len(data@, n as nat).unwrap(),
    decreases data@.len(), 1nat,
{
    let mut cur = data;
    let mut left: u64 = n;
    let mut done: usize = 0;
    proof {
        assert(data@.skip(0) =~= data@);
    }
    while left > 0
        invariant
            done <= data@.len(),
            cur@ == data@.skip(done as int),
            run_len(data@, n as nat) is Some == run_len(cur@, left as nat) is Some,
            run_len(data@, n as nat) is Some ==> run_len(data@, n as nat).unwrap() == done
                + run_len(cur@, left as nat).unwrap(),
        decreases left,
    {
        match node_size(cur) {
            None => {
                return None;
            },
            Some(k) => {
                proof {
                    lemma_len_bounds(cur@, 0);
                    assert(cur@.skip(k as int) =~= data@.skip(done + k));
                    assert(done + k <= data.len());
                }
                cur = advance(cur, k);
                done = done + k;
                left = left - 1;
            },
        }
    }
    Some(done)
}

/// Whether `data` is exactly one well-formed node.
pub fn is_atom(data: &[u8]) -> (r: bool)
    ensures
        r == atom_ok(data@),
{
    match node_size(data) {
        Some(k) => k == data.len(),
        None => false,
    }
}

impl<'a> AtomView<'a> {
    /// The view of the node that `source` holds, if `source` is exactly
    /// one well-formed node.
    pub fn from_checked(source: &'a [u8]) -> (r: Option<AtomView<'a>>)
        ensures
            r is Some == atom_ok(source@),
            r is Some ==> r.unwrap().wf() && r.unwrap()@ == source@,
    {
        if is_atom(source) {
            Some(AtomView::from(source))
        } else {
            None
        }
    }

    /// Appends the frame of the expression to `dest`: a zero flags byte,
    /// the number of bytes as eight little-endian bytes, and the bytes.
    pub fn write(&self, dest: &mut Vec<u8>)
        ensures
            final(dest)@ == old(dest)@ + frame(self@),
    {
        let d = self.get_data();
        write_u8(dest, 0);
        write_u64_le(dest, d.len() as u64);
        append(dest, d);
        assert(dest@ =~= old(dest)@ + frame(self@));
    }
}

impl Atom {
    /// Reads one framed expression from the start of `source` and makes
    /// this that expression; gives the slice behind the frame. On an error
    /// this is left as `Zero`.
    pub fn read<'b>(&mut self, source: &'b [u8]) -> (r: Result<&'b [u8], ReadError>)
        ensures
            final(self).wf(),
            match r {
                Ok(rest) => read_result(source@) == Ok::<Seq<u8>, ReadError>(final(self)@)
                    && !(*final(self) is Zero) && rest@ == source@.skip(
                    9 + frame_size(source@) as int,
                ),
                Err(e) => read_result(source@) == Err::<Seq<u8>, ReadError>(e) && *final(self)
                    is Zero,
            },
    {
        let mut dest = self.take_raw();
        if source.len() < 9 {
            return Err(ReadError::Truncated);
        }
        let (_, source1) = get_u8(source);
        let (n_size, body) = get_u64_le(source1);
        proof {
            assert(source1@.subrange(0, 8) =~= source@.subrange(1, 9));
            assert(body@ =~= source@.skip(9));
        }
        if n_size > body.len() as u64 {
            return Err(ReadError::Truncated);
        }
        let n = n_size as usize;
        let payload = slice_subrange(body, 0, n);
        assert(payload@ =~= frame_payload(source@));
        if !is_atom(payload) {
            return Err(ReadError::Malformed);
        }
        dest.clear();
        append(&mut dest, payload);
        assert(dest@ =~= payload@);
        *self = Atom::from_raw(dest);
        Ok(advance(body, n))
    }
}

/// What reading `n` framed expressions from `s` and adding each to the sum
/// `acc` gives: the sum, or the first error.
pub open spec fn summed(s: Seq<u8>, n: nat, acc: Seq<u8>) -> Result<Seq<u8>, ReadError>
    decreases n,
{
    if n == 0 {
        Ok(acc)
    } else {
        match read_result(s) {
            Err(e) => Err(e),
            Ok(p) => if acc.len() + p.len() + 17 > usize::MAX {
                Err(ReadError::TooLarge)
            } else {
                summed(s.skip(9 + frame_size(s) as int), (n - 1) as nat, add_extended(acc, p))
            },
        }
    }
}

/// The expression that was read, renamed by `m`.
pub open spec fn renamed_result(read: Result<Seq<u8>, ReadError>, m: Renaming) -> Result<
    Seq<u8>,
    ReadError,
> {
    match read {
        Err(e) => Err(e),
        Ok(p) => match renamed(p, m) {
            Some(r) => Ok(r),
            None => Err(ReadError::TooLarge),
        },
    }
}

/// The number of expressions that the stream `s` announces.
pub open spec fn announced(s: Seq<u8>) -> nat {
    le_value(s.subrange(0, 8))
}

/// What importing from `s` gives, where `s` starts with the number of
/// expressions: the one expression, or the sum of the expressions if their
/// number is not one, renamed by `m`; or why there is none.
pub open spec fn import_result(s: Seq<u8>, m: Renaming) -> Result<Seq<u8>, ReadError> {
    if s.len() < 8 {
        Err(ReadError::Truncated)
    } else if announced(s) == 1 {
        renamed_result(read_result(s.skip(8)), m)
    } else {
        renamed_result(summed(s.skip(8), announced(s), fresh_add()), m)
    }
}

/// What is exported for the expression `payload` under the symbol table
/// whose section is `state`: the section, the number of expressions, one,
/// and the frame of the expression.
pub open spec fn exported(state: Seq<u8>, payload: Seq<u8>) -> Seq<u8> {
    state + le_bytes(1, 8) + frame(payload)
}

/// Renames what was read into `a`.
fn rename_read(a: &Atom, state_map: &StateMap) -> (r: Result<Atom, ReadError>)
    requires
        a.wf(),
    ensures
        match r {
            Ok(atom) => atom.wf() && renamed_result(Ok(a@), state_map@) == Ok::<
                Seq<u8>,
                ReadError,
            >(atom@),
            Err(e) => renamed_result(Ok(a@), state_map@) == Err::<Seq<u8>, ReadError>(e),
        },
{
    match a.as_view().rename(state_map) {
        Some(atom) => Ok(atom),
        None => Err(ReadError::TooLarge),
    }
}

/// Reads `n` framed expressions from `source` and gives their sum.
fn read_sum(source: &[u8], n: u64) -> (r: Result<Add, ReadError>)
    ensures
        match r {
            Ok(sum) => sum.wf() && summed(source@, n as nat, fresh_add()) == Ok::<
                Seq<u8>,
                ReadError,
            >(sum@),
            Err(e) => summed(source@, n as nat, fresh_add()) == Err::<Seq<u8>, ReadError>(e),
        },
{
    let mut a = Add::new();
    let mut tmp = Atom::new();
    let mut cur = source;
    let mut left: u64 = n;
    while left > 0
        invariant
            a.wf(),
            summed(cur@, left as nat, a@) == summed(source@, n as nat, fresh_add()),
        decreases left,
    {
        match tmp.read(cur) {
            Err(e) => {
                return Err(e);
            },
            Ok(rest) => {
                let used = a.to_add_view().get_byte_size();
                let size = tmp.as_view().get_byte_size();
                if used > usize::MAX - 17 || size > usize::MAX - 17 - used {
                    return Err(ReadError::TooLarge);
                }
                a.extend(tmp.as_view());
                cur = rest;
                left -= 1;
            },
        }
    }
    Ok(a)
}

impl<'a> AtomView<'a> {
    /// Appends to `dest` the expression for another session: the section
    /// of the symbol table `state` that the expression was written under,
    /// the number of expressions, one, and the frame of the expression.
    pub fn export(&self, state: &State, dest: &mut Vec<u8>)
        ensures
            final(dest)@ == old(dest)@ + exported(section(state@), self@),
    {
        state.export(dest);
        write_u64_le(dest, 1);
        self.write(dest);
        assert(dest@ =~= old(dest)@ + exported(section(state@), self@));
    }
}

impl Atom {
    /// Reads the number of expressions and their frames from the start of
    /// `source`. Gives the expression, or the sum of the expressions if
    /// their number is not one, renamed by `state_map`.
    pub fn import_expressions(source: &[u8], state_map: &StateMap) -> (r: Result<Atom, ReadError>)
        ensures
            match r {
                Ok(atom) => atom.wf() && import_result(source@, state_map@) == Ok::<
                    Seq<u8>,
                    ReadError,
                >(atom@),
                Err(e) => import_result(source@, state_map@) == Err::<Seq<u8>, ReadError>(e),
            },
    {
        if source.len() < 8 {
            return Err(ReadError::Truncated);
        }
        let (n_terms, body) = get_u64_le(source);
        if n_terms == 1 {
            let mut a = Atom::new();
            match a.read(body) {
                Err(e) => Err(e),
                Ok(_) => rename_read(&a, state_map),
            }
        } else {
            match read_sum(body, n_terms) {
                Err(e) => Err(e),
                Ok(sum) => {
                    let res = Atom::Add(sum);
                    rename_read(&res, state_map)
                },
            }
        }
    }

    /// Reads one framed expression from the start of `source` and gives it
    /// renamed by `state_map`.
    pub fn import_with_map(source: &[u8], state_map: &StateMap) -> (r: Result<Atom, ReadError>)
        ensures
            match r {
                Ok(atom) => atom.wf() && renamed_result(read_result(source@), state_map@) == Ok::<
                    Seq<u8>,
                    ReadError,
                >(atom@),
                Err(e) => renamed_result(read_result(source@), state_map@) == Err::<
                    Seq<u8>,
                    ReadError,
                >(e),
            },
    {
        let mut a = Atom::new();
        match a.read(source) {
            Err(e) => Err(e),
            Ok(_) => rename_read(&a, state_map),
        }
    }
}

/// Whether `r` is what importing from the stream `s` into the table `old`
/// may give, where `new` is the table after it. If the section of the
/// symbol table cannot be read, that is the error, and the table stays as
/// it is. Else the table of the stream is merged into `old`. That
/// succeeds where there is room and either no function resolves conflicts
/// or no name of the stream's table is held with other attributes; it
/// fails on a conflict only where such a name is held. What follows the
/// section is then read and renamed by the renaming table of the merge.
/// Where the two tables agree, nothing is renamed and the table stays as
/// it is.
pub open spec fn imported<F: Fn(Vec<u8>) -> Vec<u8>>(
    s: Seq<u8>,
    old: StateModel,
    conflict_fn: Option<F>,
    new: StateModel,
    r: Result<Seq<u8>, ImportError>,
) -> bool {
    match section_parsed(s) {
        Err(e) => r == Err::<Seq<u8>, ImportError>(ImportError::Read(e)) && new == old,
        Ok((incoming, used)) => {
            &&& used <= s.len()
            &&& extends(old, new)
            &&& model_ok(new)
            &&& r matches Err(ImportError::State(_)) ==> !agrees(old, incoming)
            &&& r matches Err(ImportError::State(StateError::Full)) ==> new.symbols.len()
                == u32::MAX
            &&& r matches Err(ImportError::State(StateError::Conflict)) ==> conflict_fn is Some
                && exists|
                i: int,
            |
                0 <= i < incoming.symbols.len() && held_otherwise(
                    new,
                    (#[trigger] incoming.symbols[i]).name,
                    incoming.symbols[i].symbol,
                )
            &&& old.symbols.len() + incoming.symbols.len() <= u32::MAX && (conflict_fn is None
                || clear_from(old, incoming, 0)) ==> !(r matches Err(ImportError::State(_)))
            &&& !(r matches Err(ImportError::State(_))) ==> exists|m: Renaming|
                #[trigger] merged(old, incoming, conflict_fn, new, m) && r == with_read_error(
                    import_result(s.skip(used as int), m),
                )
        },
    }
}

/// A result of reading as a result of importing.
pub open spec fn with_read_error(r: Result<Seq<u8>, ReadError>) -> Result<Seq<u8>, ImportError> {
    match r {
        Ok(b) => Ok(b),
        Err(e) => Err(ImportError::Read(e)),
    }
}

impl Atom {
    /// Reads what was exported: merges the symbol table of the stream into
    /// `state`, and gives the expression of the stream, or the sum of its
    /// expressions if their number is not one, with the ids of `state`.
    /// `conflict_fn` picks another name for a symbol whose name is taken
    /// in `state` by a symbol with other attributes; if there is none, the
    /// symbol of `state` is taken.
    pub fn import<F: Fn(Vec<u8>) -> Vec<u8>>(
        source: &[u8],
        state: &mut State,
        conflict_fn: Option<F>,
    ) -> (r: Result<Atom, ImportError>)
        requires
            old(state).wf(),
            conflict_fn matches Some(f) ==> forall|n: Vec<u8>| call_requires(f, (n,)),
        ensures
            final(state).wf(),
            r matches Ok(atom) ==> atom.wf(),
            imported(
                source@,
                old(state)@,
                conflict_fn,
                final(state)@,
                match r {
                    Ok(atom) => Ok(atom@),
                    Err(e) => Err(e),
                },
            ),
    {
        let ghost pick = conflict_fn;
        let (incoming, rest) = match State::parse(source) {
            Err(e) => {
                return Err(ImportError::Read(e));
            },
            Ok(parsed) => parsed,
        };
        let state_map = match state.merge(&incoming, conflict_fn) {
            Err(e) => {
                proof {
                    if e == StateError::Conflict {
                        let i = choose|i: int|
                            0 <= i < incoming@.symbols.len() && conflict_failed(
                                state@,
                                #[trigger] incoming@.symbols[i],
                                conflict_fn,
                            );
                        assert(held_otherwise(
                            state@,
                            incoming@.symbols[i].name,
                            incoming@.symbols[i].symbol,
                        ));
                    }
                }
                return Err(ImportError::State(e));
            },
            Ok(map) => map,
        };
        proof {
            assert(merged(old(state)@, incoming@, pick, state@, state_map@));
        }
        match Atom::import_expressions(rest, &state_map) {
            Ok(atom) => Ok(atom),
            Err(e) => Err(ImportError::Read(e)),
        }
    }
}

} // verus!
