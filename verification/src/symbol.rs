//! Symbols, and how their attributes are laid out in the header of a
//! variable and of a function.
//!
//! The flag bits are shared between the kinds of node: the top bit of the
//! header marks an antisymmetric symbol on a variable, which is always
//! normalized, and a node that is not normalized on every other kind. A
//! function therefore keeps the antisymmetry of its symbol in the stored
//! name, one bit above the 32 bits of the id. A cyclesymmetric symbol is
//! stored as both symmetric and antisymmetric.

use crate::layout::{
    FUN_ANTISYMMETRIC_FLAG, FUN_ID, FUN_LINEAR_FLAG, fun_name, FUN_SYMMETRIC_FLAG, NOT_NORMALIZED,
    tag_of, VAR_ANTISYMMETRIC_FLAG, VAR_CYCLESYMMETRIC_FLAG, VAR_ID, VAR_WILDCARD_LEVEL_1,
    VAR_WILDCARD_LEVEL_2, VAR_WILDCARD_LEVEL_3, VAR_WILDCARD_LEVEL_MASK,
};
use crate::packed::pair_first;
use vstd::prelude::*;

verus! {

/// An identifier that the symbol table handed out, with the attributes it
/// was registered with.
#[derive(Debug, Clone, Copy, PartialEq, Eq, Hash, Structural)]
pub struct Symbol {
    pub id: u32,
    pub wildcard_level: u8,
    pub is_symmetric: bool,
    pub is_antisymmetric: bool,
    pub is_cyclesymmetric: bool,
    pub is_linear: bool,
}

/// The header bits of a wildcard level; levels above 3 count as 3.
pub open spec fn level_bits(level: u8) -> u8 {
    if level == 0 {
        0
    } else if level == 1 {
        VAR_WILDCARD_LEVEL_1
    } else if level == 2 {
        VAR_WILDCARD_LEVEL_2
    } else {
        VAR_WILDCARD_LEVEL_3
    }
}

/// The header bit `flag` if `on`, else none.
pub open spec fn bit_if(on: bool, flag: u8) -> u8 {
    if on {
        flag
    } else {
        0
    }
}

/// The header byte of the variable of `symbol`.
pub(crate) fn var_header(symbol: Symbol) -> (r: u8)
    ensures
        r == var_flags(symbol),
{
    VAR_ID | level_flag(symbol.wildcard_level) | flag_if(symbol.is_symmetric, FUN_SYMMETRIC_FLAG)
        | flag_if(symbol.is_linear, FUN_LINEAR_FLAG) | flag_if(
        symbol.is_antisymmetric,
        VAR_ANTISYMMETRIC_FLAG,
    ) | flag_if(symbol.is_cyclesymmetric, VAR_CYCLESYMMETRIC_FLAG)
}

/// The wildcard level in a header byte.
pub open spec fn level_of(flags: u8) -> u8 {
    let m = flags & VAR_WILDCARD_LEVEL_MASK;
    if m == VAR_WILDCARD_LEVEL_1 {
        1
    } else if m == VAR_WILDCARD_LEVEL_2 {
        2
    } else if m == VAR_WILDCARD_LEVEL_3 {
        3
    } else {
        0
    }
}

/// The header byte of the variable of a symbol.
pub open spec fn var_flags(symbol: Symbol) -> u8 {
    VAR_ID | level_bits(symbol.wildcard_level) | bit_if(symbol.is_symmetric, FUN_SYMMETRIC_FLAG)
        | bit_if(symbol.is_linear, FUN_LINEAR_FLAG) | bit_if(
        symbol.is_antisymmetric,
        VAR_ANTISYMMETRIC_FLAG,
    ) | bit_if(symbol.is_cyclesymmetric, VAR_CYCLESYMMETRIC_FLAG)
}

/// The header byte of a fresh function of a symbol: not normalized.
pub open spec fn fun_flags(symbol: Symbol) -> u8 {
    FUN_ID | NOT_NORMALIZED | level_bits(symbol.wildcard_level) | bit_if(
        symbol.is_symmetric || symbol.is_cyclesymmetric,
        FUN_SYMMETRIC_FLAG,
    ) | bit_if(symbol.is_linear, FUN_LINEAR_FLAG)
}

/// The name that a function of a symbol stores.
pub open spec fn fun_name_of(symbol: Symbol) -> u64 {
    if symbol.is_antisymmetric || symbol.is_cyclesymmetric {
        symbol.id as u64 | FUN_ANTISYMMETRIC_FLAG
    } else {
        symbol.id as u64
    }
}

/// The symbol of the variable encoded in `s`.
pub open spec fn var_symbol(s: Seq<u8>) -> Symbol {
    let f = s[0];
    let cyclesymmetric = f & VAR_CYCLESYMMETRIC_FLAG == VAR_CYCLESYMMETRIC_FLAG;
    Symbol {
        id: pair_first(s.skip(1)) as u32,
        wildcard_level: level_of(f),
        is_symmetric: !cyclesymmetric && f & FUN_SYMMETRIC_FLAG == FUN_SYMMETRIC_FLAG,
        is_antisymmetric: !cyclesymmetric && f & VAR_ANTISYMMETRIC_FLAG == VAR_ANTISYMMETRIC_FLAG,
        is_cyclesymmetric: cyclesymmetric,
        is_linear: f & FUN_LINEAR_FLAG == FUN_LINEAR_FLAG,
    }
}

/// Whether the function encoded in `s` stores the symmetry flag.
pub open spec fn fun_symmetric_bit(s: Seq<u8>) -> bool {
    s[0] & FUN_SYMMETRIC_FLAG == FUN_SYMMETRIC_FLAG
}

/// Whether the function encoded in `s` stores the antisymmetry flag.
pub open spec fn fun_antisymmetric_bit(s: Seq<u8>) -> bool {
    (fun_name(s) as u64) & FUN_ANTISYMMETRIC_FLAG == FUN_ANTISYMMETRIC_FLAG
}

/// The symbol of the function encoded in `s`.
pub open spec fn fun_symbol(s: Seq<u8>) -> Symbol {
    let cyclesymmetric = fun_symmetric_bit(s) && fun_antisymmetric_bit(s);
    Symbol {
        id: ((fun_name(s) as u64) & 0xffff_ffff) as u32,
        wildcard_level: level_of(s[0]),
        is_symmetric: !cyclesymmetric && fun_symmetric_bit(s),
        is_antisymmetric: !cyclesymmetric && fun_antisymmetric_bit(s),
        is_cyclesymmetric: cyclesymmetric,
        is_linear: s[0] & FUN_LINEAR_FLAG == FUN_LINEAR_FLAG,
    }
}

/// How flag bits above the kind combine in a header byte, and how each is
/// read back.
pub proof fn lemma_flag_bits(t: u8, a: u8, b: u8, c: u8, d: u8, e: u8)
    by (bit_vector)
    requires
        t <= 7,
        a == 0 || a == 0x08 || a == 0x10 || a == 0x18,
        b == 0 || b == 0x20,
        c == 0 || c == 0x40,
        d == 0 || d == 0x80,
        e == 0 || e == 0xA0,
    ensures
        (t | a | b | c | d | e) & 0x07 == t,
        (t | a | b | c | d | e) & 0x18 == a,
        ((t | a | b | c | d | e) & 0x20 == 0x20) == (b == 0x20 || e == 0xA0),
        ((t | a | b | c | d | e) & 0x40 == 0x40) == (c == 0x40),
        ((t | a | b | c | d | e) & 0x80 == 0x80) == (d == 0x80 || e == 0xA0),
        ((t | a | b | c | d | e) & 0xA0 == 0xA0) == (e == 0xA0 || (b == 0x20 && d == 0x80)),
        ((t | a | b | c | d | e) & 0x80 == 0) == !(d == 0x80 || e == 0xA0),
{
}

/// The header byte of a fresh function, bit by bit. (The kind goes first,
/// then the flag that marks the node as not normalized.)
pub proof fn lemma_fun_flag_bits(a: u8, b: u8, c: u8)
    by (bit_vector)
    requires
        a == 0 || a == 0x08 || a == 0x10 || a == 0x18,
        b == 0 || b == 0x20,
        c == 0 || c == 0x40,
    ensures
        (3u8 | 0x80 | a | b | c) & 0x07 == 3,
        (3u8 | 0x80 | a | b | c) & 0x18 == a,
        ((3u8 | 0x80 | a | b | c) & 0x20 == 0x20) == (b == 0x20),
        ((3u8 | 0x80 | a | b | c) & 0x40 == 0x40) == (c == 0x40),
        (3u8 | 0x80 | a | b | c) & 0x80 == 0x80,
{
}

/// The stored name of a function: the id and the antisymmetry flag are read
/// back apart.
pub proof fn lemma_name_bits(id: u32)
    by (bit_vector)
    ensures
        (id as u64) & 0xffff_ffff == id as u64,
        (id as u64) & 0x1_0000_0000 == 0,
        ((id as u64) | 0x1_0000_0000) & 0xffff_ffff == id as u64,
        ((id as u64) | 0x1_0000_0000) & 0x1_0000_0000 == 0x1_0000_0000,
        ((id as u64) | 0x1_0000_0000) < 0x2_0000_0000,
{
}

/// Setting or clearing one flag of a header byte keeps the kind and every
/// other bit.
pub proof fn lemma_flag_update(f: u8, flag: u8)
    by (bit_vector)
    requires
        flag == 0x80 || flag == 0x40,
    ensures
        (f | flag) & 0x07 == f & 0x07,
        (f & !flag) & 0x07 == f & 0x07,
        (f | flag) & flag == flag,
        (f & !flag) & flag == 0,
        (f | flag) & !flag == f & !flag,
        (f & !flag) & !flag == f & !flag,
        (f | flag) & 0x18 == f & 0x18,
        (f & !flag) & 0x18 == f & 0x18,
        (f | flag) & 0x20 == f & 0x20,
        (f & !flag) & 0x20 == f & 0x20,
        flag == 0x80 ==> (f | flag) & 0x40 == f & 0x40 && (f & !flag) & 0x40 == f & 0x40,
        flag == 0x40 ==> (f | flag) & 0x80 == f & 0x80 && (f & !flag) & 0x80 == f & 0x80,
        f & flag == flag ==> f | flag == f,
        f & flag == 0 ==> f & !flag == f,
{
}

impl Symbol {
    /// The symbol as it is read back from an encoding: a wildcard level of
    /// at most 3, and at most one of symmetric, antisymmetric and
    /// cyclesymmetric, where symmetric together with antisymmetric counts as
    /// cyclesymmetric.
    pub open spec fn canonical(self) -> Symbol {
        let cyclesymmetric = self.is_cyclesymmetric || (self.is_symmetric
            && self.is_antisymmetric);
        Symbol {
            id: self.id,
            wildcard_level: if self.wildcard_level > 3 {
                3
            } else {
                self.wildcard_level
            },
            is_symmetric: self.is_symmetric && !cyclesymmetric,
            is_antisymmetric: self.is_antisymmetric && !cyclesymmetric,
            is_cyclesymmetric: cyclesymmetric,
            is_linear: self.is_linear,
        }
    }

    /// A symbol without attributes.
    pub fn raw_var(id: u32, wildcard_level: u8) -> (r: Symbol)
        ensures
            r == (Symbol {
                id,
                wildcard_level,
                is_symmetric: false,
                is_antisymmetric: false,
                is_cyclesymmetric: false,
                is_linear: false,
            }),
    {
        Symbol {
            id,
            wildcard_level,
            is_symmetric: false,
            is_antisymmetric: false,
            is_cyclesymmetric: false,
            is_linear: false,
        }
    }

    /// A symbol with the given attributes.
    pub fn raw_fn(
        id: u32,
        wildcard_level: u8,
        is_symmetric: bool,
        is_antisymmetric: bool,
        is_cyclesymmetric: bool,
        is_linear: bool,
    ) -> (r: Symbol)
        ensures
            r == (Symbol {
                id,
                wildcard_level,
                is_symmetric,
                is_antisymmetric,
                is_cyclesymmetric,
                is_linear,
            }),
    {
        Symbol {
            id,
            wildcard_level,
            is_symmetric,
            is_antisymmetric,
            is_cyclesymmetric,
            is_linear,
        }
    }

    /// The id of the symbol.
    pub fn get_id(&self) -> (r: u32)
        ensures
            r == self.id,
    {
        self.id
    }

    /// The wildcard level of the symbol.
    pub fn get_wildcard_level(&self) -> (r: u8)
        ensures
            r == self.wildcard_level,
    {
        self.wildcard_level
    }

    /// Whether the symbol is symmetric.
    pub fn is_symmetric(&self) -> (r: bool)
        ensures
            r == self.is_symmetric,
    {
        self.is_symmetric
    }

    /// Whether the symbol is antisymmetric.
    pub fn is_antisymmetric(&self) -> (r: bool)
        ensures
            r == self.is_antisymmetric,
    {
        self.is_antisymmetric
    }

    /// Whether the symbol is cyclesymmetric.
    pub fn is_cyclesymmetric(&self) -> (r: bool)
        ensures
            r == self.is_cyclesymmetric,
    {
        self.is_cyclesymmetric
    }

    /// Whether the symbol is linear.
    pub fn is_linear(&self) -> (r: bool)
        ensures
            r == self.is_linear,
    {
        self.is_linear
    }
}

/// The header bits of a wildcard level.
pub(crate) fn level_flag(level: u8) -> (r: u8)
    ensures
        r == level_bits(level),
{
    if level == 0 {
        0
    } else if level == 1 {
        VAR_WILDCARD_LEVEL_1
    } else if level == 2 {
        VAR_WILDCARD_LEVEL_2
    } else {
        VAR_WILDCARD_LEVEL_3
    }
}

/// `flag` if `on`, else no bit.
pub(crate) fn flag_if(on: bool, flag: u8) -> (r: u8)
    ensures
        r == bit_if(on, flag),
{
    if on {
        flag
    } else {
        0
    }
}

/// The wildcard level in a header byte.
pub(crate) fn level_from(flags: u8) -> (r: u8)
    ensures
        r == level_of(flags),
{
    let m = flags & VAR_WILDCARD_LEVEL_MASK;
    if m == VAR_WILDCARD_LEVEL_1 {
        1
    } else if m == VAR_WILDCARD_LEVEL_2 {
        2
    } else if m == VAR_WILDCARD_LEVEL_3 {
        3
    } else {
        0
    }
}

/// What the header byte of a variable says of its symbol: read back, the
/// header of a symbol's variable gives the symbol in canonical form.
pub proof fn lemma_var_flags(symbol: Symbol)
    ensures
        tag_of(var_flags(symbol)) == VAR_ID,
        level_of(var_flags(symbol)) == symbol.canonical().wildcard_level,
        (var_flags(symbol) & VAR_CYCLESYMMETRIC_FLAG == VAR_CYCLESYMMETRIC_FLAG)
            == symbol.canonical().is_cyclesymmetric,
        (var_flags(symbol) & FUN_SYMMETRIC_FLAG == FUN_SYMMETRIC_FLAG) == (symbol.is_symmetric
            || symbol.is_cyclesymmetric),
        (var_flags(symbol) & VAR_ANTISYMMETRIC_FLAG == VAR_ANTISYMMETRIC_FLAG) == (
        symbol.is_antisymmetric || symbol.is_cyclesymmetric),
        (var_flags(symbol) & FUN_LINEAR_FLAG == FUN_LINEAR_FLAG) == symbol.is_linear,
{
    lemma_flag_bits(
        VAR_ID,
        level_bits(symbol.wildcard_level),
        bit_if(symbol.is_symmetric, FUN_SYMMETRIC_FLAG),
        bit_if(symbol.is_linear, FUN_LINEAR_FLAG),
        bit_if(symbol.is_antisymmetric, VAR_ANTISYMMETRIC_FLAG),
        bit_if(symbol.is_cyclesymmetric, VAR_CYCLESYMMETRIC_FLAG),
    );
}

/// What the header byte and the stored name of a fresh function say of its
/// symbol.
pub proof fn lemma_fun_flags(symbol: Symbol)
    ensures
        tag_of(fun_flags(symbol)) == FUN_ID,
        fun_flags(symbol) & NOT_NORMALIZED == NOT_NORMALIZED,
        level_of(fun_flags(symbol)) == symbol.canonical().wildcard_level,
        (fun_flags(symbol) & FUN_SYMMETRIC_FLAG == FUN_SYMMETRIC_FLAG) == (symbol.is_symmetric
            || symbol.is_cyclesymmetric),
        (fun_flags(symbol) & FUN_LINEAR_FLAG == FUN_LINEAR_FLAG) == symbol.is_linear,
        (fun_name_of(symbol) & FUN_ANTISYMMETRIC_FLAG == FUN_ANTISYMMETRIC_FLAG) == (
        symbol.is_antisymmetric || symbol.is_cyclesymmetric),
        fun_name_of(symbol) & 0xffff_ffff == symbol.id as u64,
        fun_name_of(symbol) < 2 * FUN_ANTISYMMETRIC_FLAG,
{
    lemma_fun_flag_bits(
        level_bits(symbol.wildcard_level),
        bit_if(symbol.is_symmetric || symbol.is_cyclesymmetric, FUN_SYMMETRIC_FLAG),
        bit_if(symbol.is_linear, FUN_LINEAR_FLAG),
    );
    lemma_name_bits(symbol.id);
}

} // verus!
