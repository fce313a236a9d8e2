//! Key expressions: hierarchical, slash-delimited patterns naming sets of
//! concrete keys, with a canonical textual form, a set algebra deciding
//! intersection and inclusion of the denoted key sets, and a prefix-stripping
//! operation that rebases a pattern onto a storage root.
#![verifier::loop_isolation(false)]

pub mod chunks;
pub mod algebra;
pub mod canon;
pub mod glob;
pub mod grammar;
pub mod key_expr;
pub mod laws;
pub mod strip;

pub use grammar::KeyExprError;
pub use key_expr::{keyexpr, SetIntersectionLevel};
