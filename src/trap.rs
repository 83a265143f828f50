//! Host-side trap handlers: system-call dispatch and demand paging for the
//! current task's address space.
use vstd::prelude::*;
use crate::aspace::AddrSpace;

verus! {

/// Number of the `exit` system call.
pub const SYS_EXIT: usize = 93;

/// Relies on `axerrno::LinuxError::code`: `ENOSYS` is declared with the value
/// 38 of `errno.h`, and `code` returns that value.
#[verifier::external_body]
fn enosys_code() -> (r: i32)
    ensures
        r == 38,
{
    axerrno::LinuxError::ENOSYS.code()
}

/// What the trap path does after a system call.
#[derive(Clone, Copy, Debug, PartialEq, Eq, Structural)]
pub enum SyscallAction {
    /// End the current task with this exit code; control never comes back.
    Exit { code: i32 },
    /// Return this value to the caller.
    Return { value: isize },
}

/// Dispatches system call `syscall_num`, whose first argument register holds
/// `arg0`. `exit` ends the task with the low 32 bits of `arg0` as its code;
/// every other number returns `-ENOSYS` (-38) and leaves the task running.
pub fn handle_syscall(syscall_num: usize, arg0: usize) -> (r: SyscallAction)
    ensures
        syscall_num == SYS_EXIT ==> r == (SyscallAction::Exit { code: arg0 as i32 }),
        syscall_num != SYS_EXIT ==> r == (SyscallAction::Return { value: -38isize }),
{
    if syscall_num == SYS_EXIT {
        SyscallAction::Exit { code: arg0 as i32 }
    } else {
        let code = enosys_code();
        SyscallAction::Return { value: -(code as isize) }
    }
}

/// What the trap path does after a page fault of a task.
#[derive(Clone, Copy, Debug, PartialEq, Eq, Structural)]
pub enum FaultOutcome {
    /// Resolved: return to the faulting instruction.
    Resume,
    /// Unresolved: fatal, with the faulting address and access.
    Fatal { addr: usize, access_flags: u8 },
}

/// Resolves a page fault of the current task at `vaddr`, for an access of
/// kind `access_flags`, in the task's address space `aspace`. Whether the
/// fault came from user mode does not change the decision. An unresolved
/// fault is fatal and reports the address and the access.
pub fn handle_page_fault(aspace: &mut AddrSpace, vaddr: usize, access_flags: u8, is_user: bool) -> (r: FaultOutcome)
    requires
        old(aspace).wf(),
    ensures
        final(aspace).wf(),
        old(aspace).fault_effect(final(aspace), vaddr as int, access_flags, r is Resume),
        r is Fatal ==> r == (FaultOutcome::Fatal { addr: vaddr, access_flags }),
{
    if aspace.handle_page_fault(vaddr, access_flags) {
        FaultOutcome::Resume
    } else {
        FaultOutcome::Fatal { addr: vaddr, access_flags }
    }
}

} // verus!
