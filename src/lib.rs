//! Fault-resolution core of a small hypervisor and demand-paged host kernel:
//! a guest/host address space with eager and lazy regions, the virtual-CPU
//! exit dispatcher, the host trap dispatcher, the boot-image loader and the
//! firmware console writer.

pub mod addr;
pub mod aspace;
pub mod console;
pub mod loader;
pub mod trap;
pub mod vmexit;
