//! An in-process column store: typed tables held in locked slots, row ids kept in
//! run-compressed lists, logged column edits, and foreign-key cascades.
pub mod column;
pub mod event;
pub mod extract;
pub mod id;
pub mod idlist;
pub mod kernel;
pub mod linkage;
pub mod lock;
pub mod runlist;
pub mod selection;
pub mod universe;
