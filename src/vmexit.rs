//! Decides what follows each exit of a virtual CPU: resume it, stop it, or
//! give up with the cause. Running the virtual CPU is the caller's part.
use vstd::prelude::*;
use crate::addr::{page_floor, FLAGS_ALL, PAGE_SIZE};
use crate::aspace::{lemma_same_page_backed, AddrSpace, AspaceError};

verus! {

/// Guest-physical address of the one emulated device: a flash bank whose
/// first word the guest reads.
pub const PFLASH_START: usize = 0x2200_0000;

/// Why a virtual CPU gave control back.
#[derive(Clone, Copy, Debug, PartialEq, Eq, Structural)]
pub enum ExitReason {
    /// A spurious exit: nothing to do.
    Nothing,
    /// A second-level page fault at guest-physical `addr`.
    NestedPageFault { addr: usize, access_flags: u8 },
    /// The guest halted or asked to shut down.
    Halt,
    /// Any other exit, by its raw code.
    Other { code: usize },
}

/// Why the dispatch loop gave up.
#[derive(Clone, Copy, Debug, PartialEq, Eq, Structural)]
pub enum DispatchError {
    /// A second-level fault outside the emulated device.
    UnsupportedAddress { addr: usize },
    /// An exit of a kind with no defined handling.
    UnhandledExit { code: usize },
    /// The device page could not be backed.
    Backing { err: AspaceError },
}

/// What the dispatch loop does after an exit.
#[derive(Clone, Copy, Debug, PartialEq, Eq, Structural)]
pub enum ExitAction {
    /// Run the virtual CPU again.
    Resume,
    /// Stop: the guest is done.
    Shutdown,
    /// Stop with a fatal error.
    Fatal { err: DispatchError },
}

/// What backing the device page gives: nothing to do when it is backed
/// already, else what `allocate_and_map` answers.
pub open spec fn device_backing(s: AddrSpace) -> Result<(), AspaceError> {
    if s.backed(PFLASH_START as int) {
        Ok(())
    } else {
        s.map_outcome(PFLASH_START as int, PAGE_SIZE as int, true)
    }
}

/// Handles one exit of a virtual CPU whose second-level translation is
/// `aspace`. `device_word` is the current content of the emulated device's
/// first word, as the host reads it from the device's real backing.
///
/// A no-op exit resumes at once and changes nothing. A second-level fault
/// is handled only at `PFLASH_START`: its page is backed (once, with every
/// access granted, zeroed), the device word is stored at the faulting
/// address, and the virtual CPU resumes. A later fault there stores the
/// device word afresh. A fault anywhere else, or an exit of an unknown
/// kind, is fatal and changes nothing.
pub fn handle_vm_exit(aspace: &mut AddrSpace, exit: ExitReason, device_word: [u8; 4]) -> (r: ExitAction)
    requires
        old(aspace).wf(),
    ensures
        final(aspace).wf(),
        exit is Nothing ==> r == ExitAction::Resume && *final(aspace) == *old(aspace),
        exit is Halt ==> r == ExitAction::Shutdown && *final(aspace) == *old(aspace),
        exit matches ExitReason::Other { code } ==> r == (ExitAction::Fatal { err: DispatchError::UnhandledExit { code } })
            && *final(aspace) == *old(aspace),
        exit matches ExitReason::NestedPageFault { addr, access_flags } ==> {
            if addr != PFLASH_START {
                &&& r == (ExitAction::Fatal { err: DispatchError::UnsupportedAddress { addr } })
                &&& *final(aspace) == *old(aspace)
            } else {
                match device_backing(*old(aspace)) {
                    Err(err) => {
                        &&& r == (ExitAction::Fatal { err: DispatchError::Backing { err } })
                        &&& *final(aspace) == *old(aspace)
                    },
                    Ok(_) => {
                        &&& r == ExitAction::Resume
                        &&& final(aspace).base() == old(aspace).base()
                        &&& final(aspace).size() == old(aspace).size()
                        &&& final(aspace).range_backed(PFLASH_START as int, PAGE_SIZE as int)
                        &&& final(aspace).bytes_at(PFLASH_START as int, 4) == device_word@
                        &&& forall|a: int| #[trigger] final(aspace).backed(a)
                            == (old(aspace).backed(a) || PFLASH_START <= a < PFLASH_START + PAGE_SIZE)
                        &&& forall|a: int| old(aspace).backed(a) && !(PFLASH_START <= a < PFLASH_START + 4)
                            ==> #[trigger] final(aspace).byte_at(a) == old(aspace).byte_at(a)
                    },
                }
            }
        },
{
    match exit {
        ExitReason::Nothing => ExitAction::Resume,
        ExitReason::Halt => ExitAction::Shutdown,
        ExitReason::Other { code } => ExitAction::Fatal { err: DispatchError::UnhandledExit { code } },
        ExitReason::NestedPageFault { addr, access_flags: _ } => {
            if addr != PFLASH_START {
                return ExitAction::Fatal { err: DispatchError::UnsupportedAddress { addr } };
            }
            let ghost s0 = *aspace;
            if !aspace.is_mapped(addr) {
                match aspace.allocate_and_map(addr, PAGE_SIZE, FLAGS_ALL, true) {
                    Ok(()) => {},
                    Err(err) => {
                        return ExitAction::Fatal { err: DispatchError::Backing { err } };
                    },
                }
            }
            proof {
                assert forall|a: int| addr <= a < addr + 4096 implies #[trigger] aspace.backed(a) by {
                    assert(page_floor(a) == PFLASH_START);
                    if s0.backed(PFLASH_START as int) {
                        lemma_same_page_backed(s0, a, PFLASH_START as int);
                    }
                }
            }
            let ghost s1 = *aspace;
            let _ = aspace.write(addr, &device_word);
            proof {
                crate::aspace::lemma_write_read_back(s1, *aspace, addr as int, device_word@);
                assert forall|a: int| addr <= a < addr + 4096 implies #[trigger] aspace.backed(a) by {
                    assert(s1.backed(a));
                }
            }
            ExitAction::Resume
        },
    }
}

} // verus!
