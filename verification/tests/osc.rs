use zor::osc::{parse, state_name, AgentId, Error, Flags, Report, State};

fn report(state: State, flags: Flags) -> Report {
    let agent = (state != State::NoAgent)
        .then(|| AgentId::new("codex.code-1").expect("valid fixture"));
    Report::new(state, agent, 42, flags, true, Some("wait; 50% ✓".into())).expect("valid fixture")
}

#[test]
fn every_state_and_flag_combination_round_trips() {
    for state in [
        State::Working,
        State::Blocked,
        State::Idle,
        State::NoAgent,
    ] {
        for bits in 0_u8..8 {
            let flags = Flags {
                idle: bits & 1 != 0,
                blocker: bits & 2 != 0,
                working: bits & 4 != 0,
            };
            let value = report(state, flags);
            assert_eq!(parse(&zor::osc::format(&value)), Ok(value));
        }
    }
}

#[test]
fn complete_bel_frames_and_unknown_keys_are_accepted() {
    let input = b"\x1b]7877;state=idle;future=yes;agent=codex;seq=7;visible=;exited=0\x07";
    assert_eq!(parse(input).expect("valid report").state(), State::Idle);
}

#[test]
fn malformed_contract_inputs_are_rejected() {
    let cases: &[&[u8]] = &[
        b"7877;agent=x;seq=1",
        b"7877;state=idle;agent=x",
        b"7877;state=mystery;agent=x;seq=1",
        b"7877;state=idle;agent=x;seq=1;seq=2",
        b"7877;state=idle;agent=x;seq=1;visible=nope",
        b"7877;state=idle;agent=x;seq=1;message=%GG",
        b"7877;state=idle;agent=bad space;seq=1",
        b"7877;state=none;agent=x;seq=1",
        b"7877;state=idle;seq=1",
        b"\x1b]7877;state=none;seq=1\x1b\\junk",
        b"7877;state=none;seq=1\x07junk",
        b"7877;state=none;seq=1;message=%FF",
    ];
    for input in cases {
        assert!(parse(input).is_err(), "accepted {input:?}");
    }
    let long = format!("7877;state=none;seq=1;message={}", "x".repeat(129));
    assert!(parse(long.as_bytes()).is_err());
}

#[derive(Clone, Default)]
struct Capture(std::sync::Arc<std::sync::Mutex<Vec<Vec<u8>>>>);

impl vt100::Callbacks for Capture {
    fn unhandled_osc(&mut self, _: &mut vt100::Screen, params: &[&[u8]]) {
        let joined = params.to_vec().join(&b';');
        self.0.lock().expect("capture lock").push(joined);
    }
}

#[test]
fn vt100_callback_payload_parses_to_the_original_report() {
    let expected = report(
        State::Blocked,
        Flags {
            blocker: true,
            ..Flags::default()
        },
    );
    let capture = Capture::default();
    let seen = std::sync::Arc::clone(&capture.0);
    let mut parser = vt100::Parser::new_with_callbacks(24, 80, 0, capture);
    parser.process(&zor::osc::format(&expected));
    let reports = seen.lock().expect("capture lock");
    assert_eq!(reports.len(), 1);
    assert_eq!(parse(&reports[0]), Ok(expected));
}

#[test]
fn a_report_is_written_field_by_field() {
    let agent = AgentId::new("codex").expect("valid agent");
    let flags = Flags {
        idle: false,
        blocker: true,
        working: true,
    };
    let value = Report::new(State::Blocked, Some(agent), 12, flags, false, Some("a b;%\u{e9}".into()))
        .expect("consistent report");
    assert_eq!(
        String::from_utf8(zor::osc::format(&value)).expect("text"),
        "\x1b]7877;v=1;state=blocked;agent=codex;seq=12;visible=blocker,working;exited=0;message=a b%3B%25%C3%A9\x1b\\"
    );
    assert_eq!(zor::emit::osc::state(&value), zor::osc::format(&value));
    assert_eq!(zor::emit::osc::parse(&zor::osc::format(&value)), Ok(value));
}

#[test]
fn the_absence_of_an_agent_is_reported_without_one() {
    let value = Report::new(State::NoAgent, None, 3, Flags::default(), true, None)
        .expect("consistent report");
    assert_eq!(
        String::from_utf8(zor::osc::format(&value)).expect("text"),
        "\x1b]7877;v=1;state=none;seq=3;visible=;exited=1\x1b\\"
    );
    assert_eq!(value.agent(), None);
    assert_eq!(value.message(), None);
    assert_eq!(value.seq(), 3);
    assert!(value.exited());
    assert_eq!(value.visible(), Flags::default());
}

#[test]
fn inconsistent_parts_make_no_report() {
    let agent = AgentId::new("a").expect("valid agent");
    let flags = Flags::default();
    assert_eq!(
        Report::new(State::NoAgent, Some(agent.clone()), 1, flags, false, None),
        Err(Error)
    );
    assert_eq!(
        Report::new(State::Idle, None, 1, flags, false, None),
        Err(Error)
    );
    assert!(Report::new(State::Idle, Some(agent.clone()), 1, flags, false, Some("x".repeat(128))).is_ok());
    assert!(Report::new(State::Idle, Some(agent), 1, flags, false, Some("x".repeat(129))).is_err());
    assert_eq!(Error.message(), "invalid OSC 7877 report");
}

#[test]
fn agent_identifiers_are_bounded_and_plain() {
    assert_eq!(AgentId::new("A.b_c-9").map(|id| id.as_str().to_owned()), Ok("A.b_c-9".to_owned()));
    assert!(AgentId::new(&"x".repeat(64)).is_ok());
    for bad in ["", "a b", "a/b", "\u{e9}", "a;b"] {
        assert_eq!(AgentId::new(bad), Err(Error));
    }
    assert_eq!(AgentId::new(&"x".repeat(65)), Err(Error));
}

#[test]
fn reports_over_the_limit_are_rejected() {
    let padding = "p".repeat(1024 - "7877;state=none;seq=1;x=".len());
    let fits = format!("7877;state=none;seq=1;x={padding}");
    assert_eq!(fits.len(), 1024);
    assert!(parse(fits.as_bytes()).is_ok());
    let long = format!("{fits}p");
    assert_eq!(parse(long.as_bytes()), Err(Error));
}

#[test]
fn frames_and_payloads_parse_alike() {
    let payload = b"7877;state=working;agent=a;seq=18446744073709551615".as_slice();
    let value = parse(payload).expect("payload");
    assert_eq!(value.seq(), u64::MAX);
    for (start, end) in [
        (b"\x1b]".as_slice(), b"\x1b\\".as_slice()),
        (b"\x1b]", b"\x07"),
    ] {
        let frame = [start, payload, end].concat();
        assert_eq!(parse(&frame), parse(payload));
    }
    assert!(parse(b"7877;state=working;agent=a;seq=18446744073709551616").is_err());
    assert!(parse(b"7878;state=none;seq=1").is_err());
    assert!(parse(b"").is_err());
}

#[test]
fn states_have_names() {
    assert_eq!(state_name(State::Working), "working");
    assert_eq!(state_name(State::Blocked), "blocked");
    assert_eq!(state_name(State::Idle), "idle");
    assert_eq!(state_name(State::NoAgent), "none");
}

#[test]
fn reports_carry_the_version() {
    let agent = AgentId::new("example").expect("valid agent");
    let flags = Flags {
        blocker: true,
        ..Flags::default()
    };
    let value = Report::new(State::Blocked, Some(agent), 12, flags, false, None)
        .expect("consistent report");
    let bytes = zor::osc::format(&value);
    assert_eq!(
        bytes,
        b"\x1b]7877;v=1;state=blocked;agent=example;seq=12;visible=blocker;exited=0\x1b\\"
    );
    assert_eq!(zor::osc::PROTOCOL_VERSION, 1);
    assert_eq!(parse(&bytes), Ok(value));
}

#[test]
fn unknown_and_repeated_versions_are_rejected() {
    assert!(parse(b"7877;v=1;state=none;seq=1").is_ok());
    assert_eq!(parse(b"7877;state=none;seq=1"), parse(b"7877;v=1;state=none;seq=1"));
    for input in [
        b"7877;v=2;state=none;seq=1".as_slice(),
        b"7877;v=0;state=none;seq=1",
        b"7877;v=;state=none;seq=1",
        b"7877;v=one;state=none;seq=1",
        b"7877;v=1;state=none;seq=1;v=1",
    ] {
        assert_eq!(parse(input), Err(Error));
    }
}

#[test]
fn extensions_do_not_change_a_report() {
    let plain = b"7877;v=1;state=working;agent=a;seq=4".as_slice();
    let extended = b"7877;v=1;state=working;agent=a;seq=4;model=x%ZZ".as_slice();
    assert!(parse(plain).is_ok());
    assert_eq!(parse(extended), parse(plain));
}
