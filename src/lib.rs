//! Numbered file names (`01-intro`, `02-setup`): their grammar, the ordered
//! listing of a directory's numbered entries, and the plans that renumber them.

pub mod name;
pub mod listing;
pub mod padding;
pub mod renumber;
pub mod ops;
