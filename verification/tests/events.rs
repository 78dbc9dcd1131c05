use zor::emit::events::{
    agent_line, encode, exit_line, state_line, AgentLine, EventLine, ExitLine, Record, Sink,
    MAX_RECORD_BYTES, RETRY,
};
use zor::osc::{AgentId, Flags, State};

#[test]
fn partial_write_closes_the_target_before_another_json_line() {
    let mut bytes: Vec<u8> = Vec::new();
    let mut sink = Sink::new(0);
    assert!(sink.wants_target(0));
    sink.opened(true, 0);
    for line in [b"{\"one\":1}\n", b"{\"two\":2}\n"] {
        if sink.wants_target(1) {
            sink.opened(true, 1);
        }
        if sink.connected() {
            bytes.extend_from_slice(&line[..3]);
            sink.wrote(Some(3), line.len(), 1);
        }
    }
    assert_eq!(sink.dropped(), 1);
    assert!(!sink.connected());
    assert_eq!(bytes, b"{\"o");
}

#[test]
fn a_failed_sink_is_left_alone_for_a_second() {
    let mut sink = Sink::new(5);
    sink.opened(false, 5);
    assert!(!sink.connected());
    assert!(!sink.wants_target(5 + RETRY - 1));
    assert!(sink.wants_target(5 + RETRY));
    assert_eq!(sink.dropped(), 0);
    sink.opened(true, 5 + RETRY);
    assert!(!sink.wants_target(u64::MAX));
    sink.wrote(Some(10), 10, 6 + RETRY);
    assert!(sink.connected());
    sink.wrote(None, 10, 7 + RETRY);
    assert!(!sink.connected());
    assert_eq!(sink.dropped(), 1);
    assert!(!sink.wants_target(6 + 2 * RETRY));
    assert!(sink.wants_target(7 + 2 * RETRY));
}

#[test]
fn records_hold_what_was_announced() {
    let agent = AgentId::new("codex").expect("valid agent");
    let visible = Flags {
        idle: true,
        blocker: false,
        working: true,
    };
    assert_eq!(
        state_line(
            State::Blocked,
            Some(State::Working),
            &Some(agent.clone()),
            12,
            visible,
            true,
            "task"
        ),
        Record::State(EventLine {
            state: "blocked".to_owned(),
            previous: Some("working".to_owned()),
            agent: Some("codex".to_owned()),
            seq: 12,
            pid: None,
            code: None,
            title: Some("task".to_owned()),
            visible: vec!["idle".to_owned(), "working".to_owned()],
            exited: true,
        })
    );
    assert_eq!(
        agent_line(Some(&agent), Some(42)),
        Record::Agent(AgentLine {
            agent: Some("codex".to_owned()),
            pid: Some(42)
        })
    );
    assert_eq!(
        agent_line(None, None),
        Record::Agent(AgentLine {
            agent: None,
            pid: None
        })
    );
    assert_eq!(exit_line(143), Record::Exit(ExitLine { code: 143 }));
}

#[test]
fn a_record_is_one_line_within_the_limit() {
    assert_eq!(encode(b"{}".to_vec()), Some(b"{}\n".to_vec()));
    assert_eq!(
        encode(vec![b'x'; MAX_RECORD_BYTES - 1]).map(|line| line.len()),
        Some(MAX_RECORD_BYTES)
    );
    assert_eq!(encode(vec![b'x'; MAX_RECORD_BYTES]), None);
}
