use zor::pty::{
    exit_code, exit_status, signal_number, signal_steps, signal_target, transparent_status, Signal, Step,
};

#[test]
fn foreground_process_group_precedes_validated_child_fallback() {
    assert_eq!(signal_target(Some(42), Some(7)), Some(42));
    assert_eq!(signal_target(None, Some(7)), Some(7));
    assert_eq!(signal_target(Some(0), Some(-1)), None);
}

#[test]
fn signals_call_for_their_steps() {
    assert_eq!(signal_steps(Signal::Resize, Some(7), true), [Step::PassSize]);
    assert_eq!(signal_steps(Signal::Fixture, Some(7), true), [Step::Record]);
    assert_eq!(
        signal_steps(Signal::Suspend, Some(7), true),
        [
            Step::Forward(7),
            Step::ReleaseTerminal,
            Step::Stop,
            Step::TakeTerminal
        ]
    );
    assert_eq!(
        signal_steps(Signal::Continue, Some(7), false),
        [Step::TakeTerminal, Step::Forward(7)]
    );
    assert_eq!(signal_steps(Signal::Continue, Some(7), true), [Step::Forward(7)]);
    assert_eq!(signal_steps(Signal::Other, Some(7), true), [Step::Forward(7)]);
    assert!(signal_steps(Signal::Other, None, true).is_empty());
}

#[test]
fn signals_are_known_by_their_description() {
    for (name, number) in [
        ("Hangup", 1),
        ("Interrupt", 2),
        ("Quit (core dumped)", 3),
        ("Killed", 9),
        ("Terminated", 15),
        ("Terminated: 15", 15),
        ("Stopped", 19),
    ] {
        assert_eq!(signal_number(name), Some(number));
    }
    assert_eq!(signal_number("Segmentation fault"), Some(11));
}

#[test]
fn a_child_ends_with_its_code_or_its_signal() {
    assert_eq!(exit_code(None, 9), 9);
    assert_eq!(exit_code(Some("Terminated"), 1), 143);
    assert_eq!(exit_code(Some("Segmentation fault"), 1), 139);
    assert_eq!(exit_code(Some("Unknown"), 1), 1);
    assert_eq!(exit_code(None, u32::MAX), i32::MAX);
    assert_eq!(exit_status(143), 143);
    assert_eq!(exit_status(-1), 255);
    assert_eq!(exit_status(256), 255);
    assert_eq!(transparent_status(Some(9), None), 9);
    assert_eq!(transparent_status(None, Some(15)), 143);
    assert_eq!(transparent_status(None, None), 128);
    assert_eq!(transparent_status(None, Some(i32::MAX)), 255);
    assert_eq!(transparent_status(None, Some(-129)), 255);
}

#[test]
fn every_signal_gives_its_code() {
    for (name, number) in [
        ("Illegal instruction", 4),
        ("Trace/breakpoint trap", 5),
        ("Aborted", 6),
        ("Bus error", 7),
        ("Floating point exception", 8),
        ("User defined signal 1", 10),
        ("Segmentation fault (core dumped)", 11),
        ("User defined signal 2", 12),
        ("Broken pipe", 13),
        ("Alarm clock", 14),
        ("Stack fault", 16),
        ("CPU time limit exceeded", 24),
        ("File size limit exceeded", 25),
        ("Virtual timer expired", 26),
        ("Profiling timer expired", 27),
        ("I/O possible", 29),
        ("Power failure", 30),
        ("Bad system call", 31),
        ("User defined signal 1: 30", 30),
        ("Bus error: 10", 10),
        ("Unknown signal: 40", 40),
        ("Unknown signal 33", 33),
        ("Signal 42", 42),
        ("Real-time signal 0", 34),
        ("Real-time signal 30", 64),
    ] {
        assert_eq!(signal_number(name), Some(number), "{name}");
        assert_eq!(exit_code(Some(name), 1), 128 + number as i32);
    }
    for name in ["Signal 128", "Signal x", "Unknown", ""] {
        assert_eq!(signal_number(name), None);
    }
}
