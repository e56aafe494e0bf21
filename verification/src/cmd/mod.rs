//! The verbs.

pub mod attach;
pub mod chroot;
pub mod cmdline;
pub mod default;
pub mod deploy;
pub mod drop;
pub mod efi;
pub mod esp;
pub mod factory;
pub mod fork;
pub mod live;
pub mod mirror;
pub mod overlay;
pub mod pair;
pub mod primary;
pub mod pull;
pub mod push;
pub mod rename;
pub mod rollback;
pub mod snapshot;
pub mod status;
pub mod tools;
