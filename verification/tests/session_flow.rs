use tracectl::errors::TraceError;
use tracectl::session::{decode_wait_status, Phase, TraceeHandle, WaitStatus};

#[test]
fn attach_success_starts_running() {
    let h = TraceeHandle::attach(1234, true).unwrap();
    assert_eq!(h.pid, 1234);
    assert!(matches!(h.phase, Phase::Running));
}

#[test]
fn attach_failure_reported() {
    assert_eq!(TraceeHandle::attach(1234, false).unwrap_err(), TraceError::AttachFailure);
}

#[test]
fn decode_stop_status() {
    // Low byte 0x7f marks a stop; the signal sits in the second byte.
    assert_eq!(decode_wait_status(0x137f), WaitStatus::Stopped(0x13));
}

#[test]
fn decode_exit_status() {
    // Low seven bits zero mark an exit; the code sits in the second byte.
    assert_eq!(decode_wait_status(0x4200), WaitStatus::Exited(0x42));
    assert_eq!(decode_wait_status(0), WaitStatus::Exited(0));
}

#[test]
fn decode_signal_status() {
    assert_eq!(decode_wait_status(9), WaitStatus::Signaled(9));
}

#[test]
fn stop_then_resume_round() {
    let mut h = TraceeHandle::attach(1, true).unwrap();
    assert!(h.stop_request().is_ok());
    let st = h.stop_complete(WaitStatus::Stopped(19)).unwrap();
    assert_eq!(st, WaitStatus::Stopped(19));
    assert!(matches!(h.phase, Phase::Stopped));
    assert!(h.resume().is_ok());
    assert!(matches!(h.phase, Phase::Running));
}

#[test]
fn resume_not_stopped_is_state_error() {
    // A resume outside the stopped phase must fail with
    // InvalidStateTransition and leave the handle untouched; since the
    // request is refused, no operating-system call can follow from it.
    let mut h = TraceeHandle::attach(1, true).unwrap();
    assert_eq!(h.resume().unwrap_err(), TraceError::InvalidStateTransition);
    assert!(matches!(h.phase, Phase::Running));

    let mut d = TraceeHandle::attach(2, true).unwrap();
    d.detach().unwrap();
    assert_eq!(d.resume().unwrap_err(), TraceError::InvalidStateTransition);
    assert!(matches!(d.phase, Phase::Detached));

    let mut e = TraceeHandle::attach(3, true).unwrap();
    e.stop_request().unwrap();
    let _ = e.stop_complete(WaitStatus::Exited(0));
    assert_eq!(e.resume().unwrap_err(), TraceError::InvalidStateTransition);
}

#[test]
fn exit_during_stop_is_terminal() {
    let mut h = TraceeHandle::attach(1, true).unwrap();
    h.stop_request().unwrap();
    let e = h.stop_complete(WaitStatus::Exited(7)).unwrap_err();
    assert_eq!(e, TraceError::ProcessExitedDuringControl);
    assert_eq!(h.phase, Phase::Exited(7));
    // Every further control request reports the terminal state.
    assert_eq!(h.stop_request().unwrap_err(), TraceError::ProcessExitedDuringControl);
    assert_eq!(h.register_access().unwrap_err(), TraceError::ProcessExitedDuringControl);
    assert_eq!(h.memory_access().unwrap_err(), TraceError::ProcessExitedDuringControl);
    assert_eq!(h.detach().unwrap_err(), TraceError::ProcessExitedDuringControl);
}

#[test]
fn signal_during_stop_is_terminal() {
    let mut h = TraceeHandle::attach(1, true).unwrap();
    h.stop_request().unwrap();
    let e = h.stop_complete(WaitStatus::Signaled(9)).unwrap_err();
    assert_eq!(e, TraceError::ProcessSignaledDuringControl);
    assert_eq!(h.phase, Phase::Signaled(9));
    assert_eq!(h.stop_request().unwrap_err(), TraceError::ProcessSignaledDuringControl);
    assert_eq!(h.register_access().unwrap_err(), TraceError::ProcessSignaledDuringControl);
}

#[test]
fn register_access_needs_stopped() {
    let h = TraceeHandle::attach(1, true).unwrap();
    assert_eq!(h.register_access().unwrap_err(), TraceError::RegisterAccessFailure);
    assert_eq!(h.memory_access().unwrap_err(), TraceError::MemoryAccessFailure);
}

#[test]
fn stop_on_stopped_is_state_error() {
    let mut h = TraceeHandle::attach(1, true).unwrap();
    h.stop_request().unwrap();
    h.stop_complete(WaitStatus::Stopped(19)).unwrap();
    assert_eq!(h.stop_request().unwrap_err(), TraceError::InvalidStateTransition);
}

#[test]
fn detach_invalidates_handle() {
    let mut h = TraceeHandle::attach(1, true).unwrap();
    h.detach().unwrap();
    assert!(matches!(h.phase, Phase::Detached));
    assert_eq!(h.detach().unwrap_err(), TraceError::InvalidStateTransition);
    assert_eq!(h.stop_request().unwrap_err(), TraceError::InvalidStateTransition);
}
