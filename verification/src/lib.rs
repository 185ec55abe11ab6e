//! Set-theoretic operations — intersection, union and difference — over
//! JSON-like tree values: objects, arrays, strings, numbers, booleans and
//! null.
//!
//! `value` holds the tree model: the executable [`Value`], its
//! mathematical abstraction, member equality and well-formedness.
//! `ops` holds the three operations and their left-to-right folds, each
//! pinned to a recursive definition over the abstraction. `laws` proves
//! the general properties: idempotence, commutativity of intersection up
//! to content equivalence, preservation of well-formedness, and the
//! behaviour of folds on empty and singleton lists.

pub mod laws;
pub mod ops;
pub mod value;

pub use ops::difference;
pub use ops::fold_difference;
pub use ops::fold_intersect;
pub use ops::fold_union;
pub use ops::intersect;
pub use ops::union;
pub use value::value_eq;
pub use value::Number;
pub use value::Value;
