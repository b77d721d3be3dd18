//! Intermediate representations between the front end and the back ends.

pub mod hir;
pub mod lir;
pub mod lir_meaning;
pub mod lower;
pub mod lower_lir;
