use vsb::logging::{Level, LogRecord};
use vsb::termination::{KillOutcome, Signal, Termination, TerminationStep, WaitOutcome};

#[test]
fn termination_escalates_to_sigkill_after_the_timeout() {
    let mut t = Termination::new("a child gpg process");
    let mut log: Vec<LogRecord> = Vec::new();
    assert!(matches!(t.step(KillOutcome::Sent, false, WaitOutcome::NoChild, &mut log), TerminationStep::Retry));
    assert_eq!(t.signal, Signal::Term);
    assert!(log.is_empty());
    assert!(matches!(t.step(KillOutcome::Sent, true, WaitOutcome::NoChild, &mut log), TerminationStep::Retry));
    assert_eq!(t.signal, Signal::Kill);
    assert_eq!(log.len(), 1);
    assert_eq!(log[0].level, Level::Error);
    assert_eq!(log[0].message, "Failed to terminate a child gpg process using SIGTERM. Using SIGKILL...");
    assert!(matches!(t.step(KillOutcome::Sent, true, WaitOutcome::Ended, &mut log), TerminationStep::Done));
    assert_eq!(log.len(), 1);
}

#[test]
fn termination_ends_or_fails() {
    let mut t = Termination::new("gpg");
    let mut log: Vec<LogRecord> = Vec::new();
    assert!(matches!(t.step(KillOutcome::NoProcess, false, WaitOutcome::NoChild, &mut log), TerminationStep::Done));
    match t.step(KillOutcome::Failed("EPERM".to_owned()), false, WaitOutcome::NoChild, &mut log) {
        TerminationStep::Failed(m) => assert_eq!(m, "Failed to terminate gpg: EPERM"),
        _ => panic!("the termination fails"),
    }
    match t.step(KillOutcome::Sent, false, WaitOutcome::Failed("EINVAL".to_owned()), &mut log) {
        TerminationStep::Failed(m) => assert_eq!(m, "Failed to wait() gpg: EINVAL"),
        _ => panic!("the termination fails"),
    }
}
