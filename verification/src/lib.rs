//! The packed byte representation of symbolic expressions.
//!
//! An expression is a tree of numbers, variables, functions, products, sums
//! and powers, stored as one run of bytes: a few bytes for a leaf, and for a
//! node with arguments a header, that lets a reader skip the node without
//! looking into it, followed by the arguments.
//!
//! - `buffer`, `packed`, `coefficient`: little-endian numbers, the packed
//!   pair of numbers that every header is made of, and the numbers at the
//!   leaves.
//! - `layout`, `node`, `symbol`: what the bytes of a well-formed node are.
//! - `view`: read-only views of nodes, and lists of nodes with iteration
//!   and access by index.
//! - `builder`, `atom`: owned nodes that grow in place.
//! - `rational`: sums and products of the rational numbers at the leaves.
//! - `stream`, `rename`: expressions in a byte stream, and renaming the
//!   symbols of an expression that was written under another symbol table.
//! - `state`, `merge`: the symbol table, its section in an export, and
//!   merging the table of an export into the table of this session.
//! - `intake`: how far an export reaches, for a reader that takes it
//!   from a stream and must not read past its end.
//! - `laws`: what holds of all of it.
//!
//! The model of a node, in every contract, is the sequence of its bytes;
//! the model of a list is the sequence of the encodings of its nodes.

pub mod atom;
pub mod buffer;
pub mod builder;
pub mod coefficient;
pub mod intake;
pub mod laws;
pub mod layout;
pub mod merge;
pub mod node;
pub mod packed;
pub mod rational;
pub mod rename;
pub mod state;
pub mod stream;
pub mod symbol;
pub mod view;
