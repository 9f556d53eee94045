//! Core of a small x86_64 kernel: frame and heap allocators, the ELF segment
//! loader, the system-call dispatcher and the build tool's configuration
//! helpers, each with a machine-checked contract.

pub mod addr;
pub mod boot;
pub mod bump;
pub mod config;
pub mod elf;
pub mod frame;
pub mod linked_list;
pub mod loader;
pub mod paging;
pub mod setup;
pub mod syscall;

use vstd::prelude::*;

verus! {

} // verus!
