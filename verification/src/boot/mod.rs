//! The boot loader: it finds the boot environments, lets the operator choose,
//! and starts a kernel.

pub mod completion;
pub mod discover;
pub mod kexec;
pub mod menu;
pub mod preinit;
pub mod shell;

use vstd::prelude::*;

verus! {

} // verus!
