use zor::boundary::BoundaryTracker;
use zor::emit::events::Record;
use zor::emit::title::Mode;
use zor::osc::AgentId;
use zor::platform::{Job, Pid, Process};
use zor::pty::Options;
use zor::rules::schema::{Gate, Region, Rule};
use zor::rules::{RuleSet, RuleState};
use zor::session::{has_shell, Note, Session};
use zor::state::Nanos;

const MS: Nanos = 1_000_000;

fn rule(id: &str, state: RuleState, needle: &str) -> Rule {
    Rule {
        id: id.to_owned(),
        state,
        priority: 0,
        region: Region::Whole,
        visible_idle: false,
        visible_blocker: false,
        visible_working: false,
        gate: Gate {
            contains: vec![needle.to_owned()],
            regex: vec![],
            line_regex: vec![],
            all: vec![],
            any: vec![],
            not: vec![],
        },
    }
}

fn sets() -> Vec<RuleSet> {
    vec![RuleSet {
        id: "test".to_owned(),
        aliases: vec![],
        process_names: vec!["test-agent".to_owned()],
        prompt_marker: Some(">".to_owned()),
        block_markers: vec![],
        rules: vec![rule("ready", RuleState::Working, "ready")],
    }]
}

fn options(agent: Option<&str>, title: Mode) -> Options {
    Options {
        rule_sets: sets(),
        agent: agent.map(|id| AgentId::new(id).expect("valid agent")),
        no_osc: false,
        title,
        events: Some("-".to_owned()),
        debug: false,
    }
}

fn session(options: Options, command: &str) -> Session {
    Session::new(options, 4, 40, Some(10), command, 0)
}

fn texts(chunks: Vec<Vec<u8>>) -> Vec<String> {
    chunks
        .into_iter()
        .map(|bytes| String::from_utf8(bytes).expect("text"))
        .collect()
}

fn process(pid: Pid, comm: &str) -> Process {
    Process {
        pid,
        ppid: 1,
        comm: comm.to_owned(),
        argv0: None,
        argv: vec![comm.to_owned()],
        env_agent: None,
    }
}

fn job(leader: Pid, processes: Vec<Process>) -> Job {
    Job { leader, processes }
}

#[test]
fn a_given_agent_is_announced_in_every_way() {
    let mut session = session(options(Some("test"), Mode::Prefix), "/bin/sh");
    session.output(b"READY", 5 * MS);
    assert_eq!(
        texts(session.drain()),
        [
            "\x1b]7877;v=1;state=working;agent=test;seq=1;visible=;exited=0\x1b\\",
            "\x1b]2;\u{25cf} \x1b\\"
        ]
    );
    assert!(session.drain().is_empty());
    let records = session.take_records();
    assert_eq!(records.len(), 2);
    assert!(matches!(&records[0], Record::Agent(line)
        if line.agent.as_deref() == Some("test") && line.pid == Some(10)));
    assert!(matches!(&records[1], Record::State(line)
        if line.state == "working" && line.previous.as_deref() == Some("none") && line.seq == 1));
    assert!(session.take_records().is_empty());
    assert_eq!(session.wants_look(60_000 * MS), None);
}

#[test]
fn insertions_wait_for_the_end_of_a_sequence() {
    let mut session = session(options(Some("test"), Mode::Never), "/bin/sh");
    session.output(b"ready\x1bPfirst", 5 * MS);
    assert!(session.drain().is_empty());
    session.output(b"second\x1b", 6 * MS);
    assert!(session.drain().is_empty());
    session.output(b"\\", 7 * MS);
    assert_eq!(
        texts(session.drain()),
        ["\x1b]7877;v=1;state=working;agent=test;seq=1;visible=;exited=0\x1b\\"]
    );
}

#[test]
fn a_command_names_its_agent() {
    let mut named = session(options(None, Mode::Never), "/opt/test-agent");
    named.output(b"ready", MS);
    assert_eq!(named.drain().len(), 1);
    let mut by_id = session(options(None, Mode::Never), "test");
    by_id.output(b"ready", MS);
    assert_eq!(by_id.drain().len(), 1);
    let mut shell = session(options(None, Mode::Never), "/bin/sh");
    shell.output(b"ready", MS);
    assert!(shell.drain().is_empty());
    assert!(shell.take_records().is_empty());
}

#[test]
fn the_childs_title_is_prefixed_and_restored() {
    let mut session = session(options(Some("test"), Mode::Prefix), "/bin/sh");
    assert_eq!(session.restore(), None);
    session.output(b"\x1b]2;task\x07ready", MS);
    assert_eq!(
        texts(session.drain()),
        [
            "\x1b]2;task\x1b\\",
            "\x1b]7877;v=1;state=working;agent=test;seq=1;visible=;exited=0\x1b\\",
            "\x1b]2;\u{25cf} task\x1b\\"
        ]
    );
    assert_eq!(session.restore(), Some(b"\x1b]2;task\x1b\\".to_vec()));
}

#[test]
fn without_reports_only_the_title_is_written() {
    let quiet = Options {
        no_osc: true,
        ..options(Some("test"), Mode::Replace)
    };
    let mut session = session(quiet, "/bin/sh");
    session.output(b"ready", MS);
    assert_eq!(texts(session.drain()), ["\x1b]2;\u{25cf} test\x1b\\"]);
}

#[test]
fn nothing_is_recorded_without_a_sink() {
    let unrecorded = Options {
        events: None,
        ..options(Some("test"), Mode::Never)
    };
    let mut session = session(unrecorded, "/bin/sh");
    session.output(b"ready", MS);
    session.tick(2_000 * MS);
    assert!(session.take_records().is_empty());
}

#[test]
fn a_held_idle_is_confirmed_in_silence() {
    let mut session = session(options(Some("test"), Mode::Never), "/bin/sh");
    session.output(b"ready", 0);
    session.drain();
    session.tick(3_900 * MS);
    session.output(b"\x1b[2J\x1b[Hdone", 4_000 * MS);
    session.silence(4_050 * MS);
    assert!(session.drain().is_empty());
    for at in [4_100, 4_200, 4_300] {
        assert!(session.drain().is_empty());
        session.silence(at * MS);
    }
    assert_eq!(
        texts(session.drain()),
        ["\x1b]7877;v=1;state=idle;agent=test;seq=2;visible=;exited=0\x1b\\"]
    );
}

#[test]
fn a_stable_state_is_repeated_to_the_sink_alone() {
    let mut session = session(options(Some("test"), Mode::Never), "/bin/sh");
    session.output(b"ready", 0);
    session.drain();
    session.take_records();
    session.tick(800 * MS);
    assert!(session.drain().is_empty());
    let records = session.take_records();
    assert!(matches!(records.as_slice(), [Record::State(line)]
        if line.seq == 1 && line.previous.is_none() && line.state == "working"));
}

#[test]
fn an_agent_comes_and_goes_with_the_foreground_job() {
    let mut session = session(options(None, Mode::Never), "/bin/sh");
    session.output(b"\x1b]2;old\x07ready", 0);
    assert_eq!(session.wants_look(0), Some(10));
    assert!(session.looked(Some(20), 0));
    assert_eq!(session.last_pgid(), Some(20));
    session.listed(&job(20, vec![process(20, "test-agent")]), &[None], 0);
    assert_eq!(
        texts(session.drain()),
        ["\x1b]7877;v=1;state=working;agent=test;seq=1;visible=;exited=0\x1b\\"]
    );
    assert!(session.looked(Some(20), 300 * MS));
    assert!(session.looked(Some(10), 600 * MS));
    let shell = job(10, vec![process(10, "sh")]);
    session.listed(&shell, &[None], 600 * MS);
    assert_eq!(
        texts(session.drain()),
        ["\x1b]7877;v=1;state=idle;agent=test;seq=2;visible=;exited=1\x1b\\"]
    );
    session.listed(&shell, &[None], 900 * MS);
    assert_eq!(
        texts(session.drain()),
        ["\x1b]7877;v=1;state=none;seq=3;visible=;exited=0\x1b\\"]
    );
    let records = session.take_records();
    assert!(matches!(&records[0], Record::Agent(line) if line.pid == Some(20)));
    assert!(matches!(&records[2], Record::State(line) if line.exited && line.state == "idle"));
    assert!(matches!(&records[3], Record::Agent(line) if line.agent.is_none()));
}

#[test]
fn notes_are_taken_for_whoever_debugs() {
    let debugged = Options {
        debug: true,
        ..options(Some("test"), Mode::Never)
    };
    let mut session = session(debugged, "/bin/sh");
    session.output(b"\x1b]7877;state=none;seq=1\x07ready", 0);
    let notes = session.take_notes();
    assert!(matches!(&notes[0], Note::Report(bytes) if bytes == b"7877;state=none;seq=1"));
    assert!(matches!(&notes[1], Note::Verdict(RuleState::Working, Some(rule)) if rule == "ready"));
    assert!(matches!(&notes[2], Note::Event(_)));
    assert_eq!(notes.len(), 4);
}

#[test]
fn the_screen_is_recorded_as_a_fixture() {
    let mut session = session(options(Some("test"), Mode::Never), "/bin/sh");
    session.output(b"observed", 0);
    session.resize(10, 80);
    assert_eq!(
        session.fixture(),
        "# agent: test\n# title: \n# progress: \n# expect: idle\n# matched: none\nobserved\n"
    );
}

#[test]
fn a_shell_is_found_among_the_processes() {
    let listed = job(20, vec![process(20, "x"), process(10, "sh")]);
    assert!(has_shell(&listed, Some(10)));
    assert!(!has_shell(&listed, Some(11)));
    assert!(!has_shell(&listed, None));
}

#[test]
fn a_silent_session_adds_nothing() {
    let quiet = Options {
        no_osc: true,
        ..options(Some("test"), Mode::Never)
    };
    let mut session = session(quiet, "/bin/sh");
    for (step, chunk) in [b"\x1b]2;task\x07".as_slice(), b"ready", b"\x1b[2J", b"ready"]
        .into_iter()
        .enumerate()
    {
        let now = step as Nanos * 1_000 * MS;
        session.output(chunk, now);
        session.tick(now);
        assert!(session.drain().is_empty());
    }
    assert_eq!(session.restore(), None);
    assert!(!session.take_records().is_empty());
}

#[test]
fn the_terminal_stays_where_the_child_left_it() {
    let mut session = session(options(Some("test"), Mode::Prefix), "/bin/sh");
    let mut child = BoundaryTracker::default();
    let mut terminal = BoundaryTracker::default();
    let stream = b"\x1b[31mready\x1b]2;one\x07\x1bPdata\x1b\\\x1b[2J\x1b[Hdone\x1b]2;two\x1b\\ready";
    for (step, chunk) in stream.chunks(3).enumerate() {
        child.feed(chunk);
        terminal.feed(chunk);
        session.output(chunk, step as Nanos * 400 * MS);
        session.tick(step as Nanos * 400 * MS);
        for bytes in session.drain() {
            assert!(child.ground());
            terminal.feed(&bytes);
        }
        assert_eq!(child.ground(), terminal.ground());
    }
}

#[test]
fn the_agent_of_the_command_is_announced_once() {
    let mut session = session(options(None, Mode::Never), "test-agent");
    session.output(b"ready", 0);
    session.drain();
    assert_eq!(session.take_records().len(), 2);
    assert!(session.looked(Some(20), 100 * MS));
    session.listed(&job(20, vec![process(20, "test-agent")]), &[None], 100 * MS);
    assert!(session.take_records().is_empty());
    session.listed(&job(21, vec![process(21, "test-agent")]), &[None], 400 * MS);
    let records = session.take_records();
    assert!(matches!(records.as_slice(), [Record::Agent(line)] if line.pid == Some(21)));
}

#[test]
fn a_session_goes_on_after_its_terminal_was_narrowed() {
    let mut session = session(options(Some("test"), Mode::Never), "/bin/sh");
    session.output("\u{754c} ready".as_bytes(), 0);
    assert_eq!(session.drain().len(), 1);
    session.resize(4, 20);
    session.output(b" more", 4_000 * MS);
    session.silence(4_200 * MS);
    assert!(session.drain().is_empty());
}
