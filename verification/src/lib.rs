//! Boot-environment management for ZFS root pools.

use vstd::prelude::*;

pub mod be_arg;
pub mod boot;
pub mod cmd;
pub mod effects;
pub mod error;
pub mod facts;
pub mod model;
pub mod mounts;
pub mod order;
pub mod paths;
pub mod pools;
pub mod script;
pub mod state;
pub mod sub;
pub mod text;
pub mod tree;
pub mod version;
pub mod walk;
pub mod zfs_ops;

verus! {

} // verus!
