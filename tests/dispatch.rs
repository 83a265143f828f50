use hvcore::addr::{FLAGS_ALL, FLAG_READ, FLAG_WRITE};
use hvcore::aspace::{AddrSpace, AspaceError};
use hvcore::console::{chunk_len, next_offset, MAX_RW_SIZE};
use hvcore::trap::{handle_page_fault, handle_syscall, FaultOutcome, SyscallAction, SYS_EXIT};
use hvcore::vmexit::{handle_vm_exit, DispatchError, ExitAction, ExitReason, PFLASH_START};

fn guest() -> AddrSpace {
    let mut aspace = AddrSpace::new_empty(0, 0x7fff_ffff_f000, 0x9000_0000, 64).unwrap();
    aspace.allocate_and_map(0x8000_0000, 0x10000, FLAGS_ALL, true).unwrap();
    aspace
}

#[test]
fn no_op_exit_resumes_without_change() {
    let mut aspace = guest();
    aspace.write(0x8000_0000, &[1, 2, 3]).unwrap();
    assert_eq!(handle_vm_exit(&mut aspace, ExitReason::Nothing, [9, 9, 9, 9]), ExitAction::Resume);
    assert_eq!(aspace.read(0x8000_0000, 3).unwrap(), vec![1, 2, 3]);
    assert!(!aspace.is_mapped(PFLASH_START));
}

#[test]
fn device_fault_emulates_read_and_does_not_refault() {
    let mut aspace = guest();
    let word = 0x1234_5678u32.to_ne_bytes();
    let exit = ExitReason::NestedPageFault { addr: PFLASH_START, access_flags: FLAG_READ };
    assert_eq!(handle_vm_exit(&mut aspace, exit, word), ExitAction::Resume);
    assert_eq!(aspace.read(PFLASH_START, 4).unwrap(), word.to_vec());
    assert_eq!(aspace.read(PFLASH_START + 4, 4).unwrap(), vec![0, 0, 0, 0]);
    // The page is backed now: the same access resolves without a new frame.
    assert!(aspace.handle_page_fault(PFLASH_START, FLAG_READ));
    // A repeated exit there reads the device afresh.
    assert_eq!(handle_vm_exit(&mut aspace, exit, [4, 3, 2, 1]), ExitAction::Resume);
    assert_eq!(aspace.read(PFLASH_START, 4).unwrap(), vec![4, 3, 2, 1]);
}

#[test]
fn device_fault_without_frames_is_fatal() {
    let mut aspace = AddrSpace::new_empty(0, 0x7fff_ffff_f000, 0x9000_0000, 0).unwrap();
    let exit = ExitReason::NestedPageFault { addr: PFLASH_START, access_flags: FLAG_READ };
    assert_eq!(
        handle_vm_exit(&mut aspace, exit, [1, 2, 3, 4]),
        ExitAction::Fatal { err: DispatchError::Backing { err: AspaceError::OutOfMemory } }
    );
    assert!(!aspace.is_mapped(PFLASH_START));
}

#[test]
fn fault_at_other_address_is_unsupported() {
    let mut aspace = guest();
    for addr in [0usize, 0x2200_1000, 0x8000_0000, PFLASH_START + 4] {
        let exit = ExitReason::NestedPageFault { addr, access_flags: FLAG_READ };
        assert_eq!(
            handle_vm_exit(&mut aspace, exit, [1, 2, 3, 4]),
            ExitAction::Fatal { err: DispatchError::UnsupportedAddress { addr } }
        );
    }
    assert!(!aspace.is_mapped(0x2200_1000));
    assert_eq!(aspace.read(0x8000_0000, 4).unwrap(), vec![0, 0, 0, 0]);
}

#[test]
fn halt_and_unknown_exits_stop_the_loop() {
    let mut aspace = guest();
    assert_eq!(handle_vm_exit(&mut aspace, ExitReason::Halt, [0; 4]), ExitAction::Shutdown);
    assert_eq!(
        handle_vm_exit(&mut aspace, ExitReason::Other { code: 17 }, [0; 4]),
        ExitAction::Fatal { err: DispatchError::UnhandledExit { code: 17 } }
    );
}

#[test]
fn unknown_syscall_returns_enosys() {
    assert_eq!(handle_syscall(64, 1), SyscallAction::Return { value: -38 });
    assert_eq!(handle_syscall(0, 0), SyscallAction::Return { value: -38 });
}

#[test]
fn exit_syscall_ends_task_with_first_argument() {
    assert_eq!(SYS_EXIT, 93);
    assert_eq!(handle_syscall(SYS_EXIT, 0), SyscallAction::Exit { code: 0 });
    assert_eq!(handle_syscall(SYS_EXIT, 7), SyscallAction::Exit { code: 7 });
    assert_eq!(handle_syscall(SYS_EXIT, usize::MAX), SyscallAction::Exit { code: -1 });
}

#[test]
fn task_write_fault_on_read_only_region_is_fatal() {
    let mut aspace = AddrSpace::new_empty(0x1000, 0x10_0000, 0x9000_0000, 16).unwrap();
    aspace.allocate_and_map(0x4000, 0x2000, FLAG_READ, false).unwrap();
    assert_eq!(
        handle_page_fault(&mut aspace, 0x4100, FLAG_WRITE, true),
        FaultOutcome::Fatal { addr: 0x4100, access_flags: FLAG_WRITE }
    );
    assert!(!aspace.is_mapped(0x4100));
    assert_eq!(handle_page_fault(&mut aspace, 0x4100, FLAG_READ, true), FaultOutcome::Resume);
    assert!(aspace.is_mapped(0x4000));
    assert_eq!(
        handle_page_fault(&mut aspace, 0x4100, FLAG_WRITE, false),
        FaultOutcome::Fatal { addr: 0x4100, access_flags: FLAG_WRITE }
    );
}

#[test]
fn console_chunks_and_offsets() {
    assert_eq!(MAX_RW_SIZE, 256);
    assert_eq!(chunk_len(0), 0);
    assert_eq!(chunk_len(10), 10);
    assert_eq!(chunk_len(256), 256);
    assert_eq!(chunk_len(1000), 256);
    assert_eq!(next_offset(1000, 0, 256), Some(256));
    assert_eq!(next_offset(1000, 900, 100), Some(1000));
    assert_eq!(next_offset(1000, 900, 0), None);
    assert_eq!(next_offset(1000, 900, 101), None);
    assert_eq!(next_offset(1000, 0, 257), None);
}
