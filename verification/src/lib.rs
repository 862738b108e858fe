//! A verifier of the connection identities of polynomial identity language
//! programs over the Goldilocks prime field.
//!
//! A program declares columns of field elements, expressions over them, and
//! connection identities: copy constraints between the cells of expression
//! columns. Given the decoded program ([`pil`]) and the two column stores
//! that hold its commitments and its constants ([`polarray`]), the verifier
//! ([`pil_verify`]) evaluates the expressions ([`evaluator`], [`columns`]),
//! builds the map of the cosets of the evaluation domain ([`domain`],
//! [`connection_map`]) and checks every row of every identity. What it
//! finds are violations ([`violation`]), or a fatal error ([`error`]).
//!
//! The arithmetic is that of [`field`]; [`traits`] says what a column store
//! asks of a field that it writes its values in, and [`pol_array`] holds the
//! descriptors of a store without its values. [`acyclic`] shows that the
//! check of a program without circular expressions never reports a cycle.

pub mod acyclic;
pub mod columns;
pub mod connection_map;
pub mod domain;
pub mod error;
pub mod evaluator;
pub mod field;
pub mod pil;
pub mod pil_verify;
pub mod pol_array;
pub mod polarray;
pub mod traits;
pub mod violation;
