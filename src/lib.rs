use vstd::prelude::*;

pub mod basic_db;
pub mod batch_player;
pub mod command;
pub mod compacting_tree;
pub mod imp;
pub mod index;
pub mod key;
pub mod loader;
pub mod log;
pub mod tree;
pub mod types;

verus! {
}
