use zor::observe::{
    after_listing, capture_text, find_pane, preface_matches, same_process, Next, Observer, Pane,
    Reply, ReplyError, MAX_REPLY,
};
use zor::osc::AgentId;
use zor::platform::{Job, Process};
use zor::rules::schema::{Gate, Region, Rule};
use zor::rules::view::Progress;
use zor::rules::{RuleSet, RuleState};
use zor::state::Nanos;

const MS: Nanos = 1_000_000;

const LISTING: &str = r#"{"status":"completed","result":{"value":{"workspaces":[
    {"tabs":[{"panes":[{"id":1,"pid":5}]},{}]},
    {"name":"no tabs"},
    {"tabs":[{"panes":[
        {"id":2,"pid":77,"title":"task","progress":[1,42],
         "geometry":{"height":42,"width":122}},
        {"id":2,"pid":78},
        {"id":3,"geometry":{"height":1,"width":5000},"progress":[9,1],"title":7}
    ]}]}
]}}}"#;

fn reply(text: &str) -> Reply {
    let mut reply = Reply::new();
    assert_eq!(reply.push(text.as_bytes()), Ok(text.contains('\n')));
    reply
}

#[test]
fn the_preface_is_compared_byte_by_byte() {
    assert!(preface_matches(b"FUXCTL1\n"));
    assert!(!preface_matches(b"FUXCTL2\n"));
    assert!(!preface_matches(b"FUXCTL1"));
}

#[test]
fn replies_are_collected_up_to_a_line_feed() {
    let mut reply = Reply::new();
    assert_eq!(reply.push(b"{\"status\":"), Ok(false));
    assert_eq!(reply.push(b"\"completed\"}\n"), Ok(true));
    assert!(reply.read().is_ok());
    assert_eq!(reply.push(b""), Err(ReplyError::Closed));
}

#[test]
fn replies_are_bounded() {
    let mut reply = Reply::new();
    let chunk = vec![b'x'; 8192];
    for _ in 0..MAX_REPLY / 8192 {
        assert_eq!(reply.push(&chunk), Ok(false));
    }
    assert_eq!(reply.push(b"\n"), Err(ReplyError::TooLong));
    assert_eq!(reply.push(&vec![b'x'; MAX_REPLY + 1]), Err(ReplyError::TooLong));
}

#[test]
fn only_completed_requests_are_read() {
    assert_eq!(reply("{\n").read(), Err(ReplyError::Malformed));
    assert_eq!(reply("{}\n").read(), Err(ReplyError::Failed));
    assert_eq!(reply("{\"status\":\"failed\"}\n").read(), Err(ReplyError::Failed));
    assert_eq!(reply("{\"status\":1}\n").read(), Err(ReplyError::Failed));
    assert_eq!(reply("[\"status\"]\n").read(), Err(ReplyError::Failed));
}

#[test]
fn the_first_pane_with_the_id_is_summarized() {
    let listing = reply(LISTING).read().expect("listing");
    assert_eq!(
        find_pane(&listing, 2),
        Some(Pane {
            pid: Some(77),
            rows: 40,
            cols: 120,
            title: "task".to_owned(),
            progress: Some(Progress {
                state: 1,
                percent: 42
            }),
        })
    );
    assert_eq!(
        find_pane(&listing, 1),
        Some(Pane {
            pid: Some(5),
            rows: 24,
            cols: 80,
            title: String::new(),
            progress: None,
        })
    );
    assert_eq!(
        find_pane(&listing, 3),
        Some(Pane {
            pid: None,
            rows: 2,
            cols: 1000,
            title: String::new(),
            progress: None,
        })
    );
    assert_eq!(find_pane(&listing, 4), None);
    let pane = find_pane(&listing, 2).expect("pane");
    assert!(same_process(&pane, 77));
    assert!(!same_process(&pane, 78));
}

#[test]
fn a_removed_or_replaced_pane_ends_the_observation() {
    let listing = reply(LISTING).read().expect("listing");
    assert!(matches!(after_listing(Some(&listing), 2, 77, false), Next::Capture(pane) if pane.rows == 40));
    assert_eq!(after_listing(Some(&listing), 2, 78, true), Next::End);
    assert_eq!(after_listing(Some(&listing), 9, 77, true), Next::End);
    assert_eq!(after_listing(None, 2, 77, true), Next::Retry);
    assert_eq!(after_listing(None, 2, 77, false), Next::Fail);
}

#[test]
fn a_capture_holds_a_text() {
    let capture = reply("{\"status\":\"completed\",\"result\":{\"value\":{\"text\":\"a\\u001b[1m\"}}}\n")
        .read()
        .expect("capture");
    assert_eq!(capture_text(&capture), Some("a\u{1b}[1m"));
    let other = reply("{\"status\":\"completed\",\"result\":{\"value\":{\"text\":[]}}}\n")
        .read()
        .expect("capture");
    assert_eq!(capture_text(&other), None);
}

fn sets() -> Vec<RuleSet> {
    vec![RuleSet {
        id: "test".to_owned(),
        aliases: vec![],
        process_names: vec!["test".to_owned()],
        prompt_marker: None,
        block_markers: vec![],
        rules: vec![Rule {
            id: "busy".to_owned(),
            state: RuleState::Working,
            priority: 0,
            region: Region::Title,
            visible_idle: false,
            visible_blocker: false,
            visible_working: true,
            gate: Gate {
                contains: vec!["busy".to_owned()],
                regex: vec![],
                line_regex: vec![],
                all: vec![],
                any: vec![],
                not: vec![],
            },
        }],
    }]
}

fn pane(title: &str) -> Pane {
    Pane {
        pid: Some(10),
        rows: 4,
        cols: 20,
        title: title.to_owned(),
        progress: None,
    }
}

fn job(leader: i32, comm: &str) -> Job {
    Job {
        leader,
        processes: vec![Process {
            pid: leader,
            ppid: 1,
            comm: comm.to_owned(),
            argv0: None,
            argv: vec![comm.to_owned()],
            env_agent: None,
        }],
    }
}

fn texts(lines: Vec<Vec<u8>>) -> Vec<String> {
    lines
        .into_iter()
        .map(|line| String::from_utf8(line).expect("text"))
        .collect()
}

#[test]
fn an_observer_reports_what_it_samples() {
    let mut observer = Observer::new(sets(), None);
    let nobody = job(10, "sh");
    assert!(observer.sample(&pane("Busy"), "text", 10, &nobody, &[], 0).is_empty());
    let found = job(20, "test");
    assert_eq!(
        texts(observer.sample(&pane("Busy"), "text", 10, &found, &[], 100 * MS)),
        ["\x1b]7877;v=1;state=working;agent=test;seq=1;visible=working;exited=0\x1b\\\n"]
    );
    assert!(observer.sample(&pane("Busy"), "text", 10, &found, &[], 200 * MS).is_empty());
    assert_eq!(
        texts(observer.sample(&pane("Busy"), "text", 10, &found, &[], 900 * MS)),
        ["\x1b]7877;v=1;state=working;agent=test;seq=1;visible=working;exited=0\x1b\\\n"]
    );
    assert_eq!(
        texts(observer.sample(&pane("Busy"), "text", 10, &nobody, &[], 1_000 * MS)),
        ["\x1b]7877;v=1;state=idle;agent=test;seq=2;visible=;exited=1\x1b\\\n"]
    );
    assert_eq!(
        texts(observer.sample(&pane("Busy"), "text", 10, &nobody, &[], 1_100 * MS)),
        ["\x1b]7877;v=1;state=none;seq=3;visible=;exited=0\x1b\\\n"]
    );
}

#[test]
fn a_given_agent_needs_no_job() {
    let forced = AgentId::new("test").expect("valid agent");
    let mut observer = Observer::new(sets(), Some(forced));
    let empty = Job {
        leader: 0,
        processes: vec![],
    };
    assert_eq!(
        texts(observer.sample(&pane("busy"), "", 10, &empty, &[], 0)),
        ["\x1b]7877;v=1;state=working;agent=test;seq=1;visible=working;exited=0\x1b\\\n"]
    );
    for step in 1..9 {
        let lines = observer.sample(&pane("busy"), "", 10, &empty, &[], step * 10 * MS);
        assert!(lines.is_empty());
    }
}
