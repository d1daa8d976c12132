//! An interactive disk-usage browser's verified core: a recursive size tree
//! with per-directory selection cursors, a stable size-descending child
//! ordering, a navigation engine over paths of name components, a bounded
//! admission counter for concurrent scan tasks, and the text helpers that
//! render sizes and proportion bars.

pub mod format;
pub mod nav;
pub mod order;
pub mod scan;
pub mod sort;
pub mod tree;
