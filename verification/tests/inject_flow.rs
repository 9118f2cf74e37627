use tracectl::errors::TraceError;
use tracectl::inject::{commit, prepare_call};
use tracectl::memory::MemoryImage;
use tracectl::registers::RegisterSet;
use tracectl::session::{Phase, TraceeHandle, WaitStatus};
use tracectl::stack::push_word;
use tracectl::stack::StackCursor;

fn regs_at(rsp: u64, rip: u64, rbp: u64) -> RegisterSet {
    RegisterSet {
        rax: 0xaaaa,
        rbx: 1,
        rcx: 2,
        rdx: 3,
        rsi: 4,
        rdi: 5,
        rbp,
        rsp,
        r8: 8,
        r9: 9,
        r10: 10,
        r11: 11,
        r12: 12,
        r13: 13,
        r14: 14,
        r15: 15,
        rip,
    }
}

#[test]
fn prepare_lays_out_frame() {
    let rsp: u64 = 0x7fff_0000;
    let regs = regs_at(rsp, 0x40_1000, 0x7fff_0100);
    let mut m = MemoryImage::new(rsp - 0x100, 0x20);
    let args: Vec<Vec<u8>> = vec![b"ls".to_vec(), b"-l".to_vec()];
    let plan = prepare_call(&regs, &mut m, 0x7f00_0123_4567, &args).unwrap();

    assert_eq!(plan.target_address, 0x7f00_0123_4567);
    assert_eq!(plan.return_address, 0x40_1000);
    // Two linkage words, then the second argument, then the first: the
    // first argument ends at the lowest address.
    assert_eq!(plan.argument_addresses, vec![rsp - 32, rsp - 24]);

    let e = &plan.entry_registers;
    assert_eq!(e.rip, 0x7f00_0123_4567);
    assert_eq!(e.rsp, rsp - 32);
    assert_eq!(e.rbp, rsp - 16);
    assert_eq!(e.rax, rsp - 32);
    assert_eq!((e.rbx, e.rcx, e.rdx, e.rsi, e.rdi), (1, 2, 3, 4, 5));

    // The staged words: return linkage and both encoded arguments.
    assert_eq!(m.read_word(rsp - 8).unwrap(), 0x40_1000);
    assert_eq!(m.read_word(rsp - 16).unwrap(), 0x7fff_0100);
    assert_eq!(m.read_word(rsp - 24).unwrap(), 0x6c2d); // "-l"
    assert_eq!(m.read_word(rsp - 32).unwrap(), 0x736c); // "ls"
}

#[test]
fn prepare_without_arguments_keeps_primary_register() {
    let rsp: u64 = 0x7fff_0000;
    let regs = regs_at(rsp, 0x40_1000, 0x7fff_0100);
    let mut m = MemoryImage::new(rsp - 0x100, 0x20);
    let plan = prepare_call(&regs, &mut m, 0x5000, &Vec::new()).unwrap();
    assert!(plan.argument_addresses.is_empty());
    assert_eq!(plan.entry_registers.rsp, rsp - 16);
    assert_eq!(plan.entry_registers.rax, regs.rax);
}

#[test]
fn prepare_fails_without_room() {
    let rsp: u64 = 0x7fff_0000;
    let regs = regs_at(rsp, 0x40_1000, 0x7fff_0100);
    // Only two words mapped below the stack pointer: no room for linkage
    // plus one argument.
    let mut m = MemoryImage::new(rsp - 16, 2);
    let e = prepare_call(&regs, &mut m, 0x5000, &vec![b"x".to_vec()]).unwrap_err();
    assert_eq!(e, TraceError::MemoryAccessFailure);
}

#[test]
fn commit_needs_stopped_target() {
    let plan_regs = regs_at(0x7fff_0000, 0x40_1000, 0x7fff_0100);
    let mut m = MemoryImage::new(0x7ffe_ff00, 0x20);
    let plan = prepare_call(&plan_regs, &mut m, 0x5000, &Vec::new()).unwrap();

    let mut running = TraceeHandle::attach(1, true).unwrap();
    assert_eq!(commit(&mut running, &plan).unwrap_err(), TraceError::RegisterAccessFailure);
    assert!(matches!(running.phase, Phase::Running));

    let mut stopped = TraceeHandle::attach(2, true).unwrap();
    stopped.stop_request().unwrap();
    stopped.stop_complete(WaitStatus::Stopped(19)).unwrap();
    let to_write = commit(&mut stopped, &plan).unwrap();
    assert_eq!(to_write, plan.entry_registers);
    assert!(matches!(stopped.phase, Phase::Running));
}

#[test]
fn end_to_end_control_model() {
    // Attach, stop, inspect, push one word, confirm the stack pointer and
    // the pushed word, resume, and finally observe the target's own exit.
    let mut h = TraceeHandle::attach(4242, true).unwrap();
    h.stop_request().unwrap();
    let raw: i32 = 0x137f; // stopped by signal 19
    let status = tracectl::session::decode_wait_status(raw);
    h.stop_complete(status).unwrap();
    assert!(h.register_access().is_ok());
    assert!(h.memory_access().is_ok());

    let regs = regs_at(0x7fff_0000, 0x40_1000, 0x7fff_0100);
    let mut image = MemoryImage::new(regs.rsp - 0x80, 0x10);
    let mut cursor = StackCursor::new(regs.rsp);
    let a = push_word(&mut cursor, &mut image, 0x1122_3344_5566_7788).unwrap();
    assert_eq!(a, regs.rsp - 8);
    assert_eq!(cursor.sp, regs.rsp - 8);
    assert_eq!(image.read_word(a).unwrap(), 0x1122_3344_5566_7788);

    h.resume().unwrap();
    assert!(matches!(h.phase, Phase::Running));

    // The target later exits with its own code; the handle turns terminal.
    h.stop_request().unwrap();
    let e = h.stop_complete(WaitStatus::Exited(0)).unwrap_err();
    assert_eq!(e, TraceError::ProcessExitedDuringControl);
    assert_eq!(h.phase, Phase::Exited(0));
}
