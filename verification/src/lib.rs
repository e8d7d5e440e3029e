//! A component framework around a virtual tree of nodes: the tree model, the
//! reconciliation that turns one tree into the next with as few host
//! mutations as it can, the component runtime and the scheduler that
//! serialises updates.

pub mod app;
pub mod format;
pub mod html;
pub mod runtime;
pub mod scheduler;
pub mod virtual_dom;
