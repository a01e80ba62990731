//! Projection pushdown for record readers: which fields of its input does a program use?
//!
//! Short scripts can spend a surprising amount of time slicing and escaping a string for each
//! field of each record. This library finds a conservative set of the fields that a program refers
//! to, so that a reader can skip the others. It can hold more fields than a run uses, but no field
//! that a run uses is missing.
//!
//! # Overview
//!
//! A column read takes the number of the column from a register, so the analysis has to know which
//! numbers a register can hold. It places registers and the other places where values live in a
//! graph, in which an edge from one place to another says that the second can take on at least any
//! value of the first:
//!
//! ```text
//! StoreConstInt(dst, [c])        : [c] => dst
//! Mov(dst, src)                  : src => dst
//! Phi(dst, ..., pred_i, ...)     : ... pred_i => dst ...
//! ```
//!
//! The graph stands for equations over sets of fields:
//!
//! ```text
//! Fields([c])  = {c}
//! Fields(node) = union of Fields(n) for every edge from n to node
//! ```
//!
//! Starting at the empty set and iterating the equations leads to their least solution. What
//! instructions write that the analysis does not look into can be any field.
//!
//! # Modules
//!
//! - [`field_set`]: sets of fields as lossy bitsets, and [`field_text`], their text.
//! - [`field_usage`]: the result, with the fields that are read as strings and as numbers.
//! - [`bytecode`]: registers, places and instructions, as far as the analyses see them.
//! - [`dataflow`]: the equations and their least solution; [`analysis`], the solver.
//! - [`used_fields`]: the whole-program analysis of used fields.
//! - [`soundness`]: why no field that a run uses is missing.
//! - [`laws`]: what each operation does, member by member and instruction by instruction.
//! - [`column_parse`]: the analysis of one function that turns string reads of columns into
//!   numeric ones.
pub mod analysis;
mod bits;
pub mod bytecode;
pub mod column_parse;
pub mod dataflow;
pub mod field_set;
pub mod field_text;
pub mod field_usage;
pub mod laws;
mod reg_tables;
pub mod soundness;
pub mod used_fields;

pub use column_parse::ColumnParseAnalysis;
pub use field_set::FieldSet;
pub use field_usage::FieldUsage;
pub use used_fields::UsedFieldAnalysis;
