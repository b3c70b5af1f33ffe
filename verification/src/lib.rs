//! Resolution of per-directory tag declarations into a queryable index.
//!
//! A directory may hold a declaration: a list of rules that give labels to
//! the directory itself or to the regular files in it whose name matches a
//! pattern. Given the declarations of a tree, the direct children of each
//! declared directory and a list of queries, which are regular expressions
//! over labels, the library finds every path that carries a matching label.
//!
//! - [`pattern`]: regular expressions, compiled and matched by the `regex`
//!   crate.
//! - [`declaration`]: rules, declarations, and their evaluation for one child.
//! - [`association`]: which directory has which declaration.
//! - [`resolver`]: the resolution of one tree.
//! - [`tagged`]: the index from labels to paths, merging and combining.
//! - [`string_set`], [`text`]: ordered sets of strings and the order itself.
//! - [`words`]: the queries in a line of input.
//!
//! Reading directories and files is left to the caller, who hands over what
//! was read as plain values.

pub mod association;
pub mod declaration;
pub mod pattern;
pub mod resolver;
pub mod string_set;
pub mod tagged;
pub mod text;
pub mod words;
