use zor::fixture::{check, write_fixture, CheckError, Fixture, Outcome};
use zor::rules::schema::{Gate, Region, Rule};
use zor::rules::view::{Progress, ScreenView};
use zor::rules::{RuleSet, RuleState};
use zor::screen::Screen;

fn sets() -> Vec<RuleSet> {
    vec![RuleSet {
        id: "agent".to_owned(),
        aliases: vec![],
        process_names: vec!["agent".to_owned()],
        prompt_marker: Some(">".to_owned()),
        block_markers: vec![],
        rules: vec![Rule {
            id: "working".to_owned(),
            state: RuleState::Working,
            priority: 0,
            region: Region::Whole,
            visible_idle: false,
            visible_blocker: false,
            visible_working: false,
            gate: Gate {
                contains: vec!["busy".to_owned()],
                regex: vec![],
                line_regex: vec![],
                all: vec![],
                any: vec![],
                not: vec![],
            },
        }],
    }]
}

const BUSY: &str =
    "# agent: agent\n# title: test\n# progress: 3:0\n# expect: working\n# matched: working\nbusy\n";

#[test]
fn check_evaluates_fixture_expectation_and_rule() {
    assert_eq!(
        check(BUSY, None, &sets()),
        Ok(Outcome {
            line: "working working".to_owned(),
            expected: true
        })
    );
}

#[test]
fn an_unexpected_verdict_is_told_apart() {
    let idle = BUSY.replace("busy", "done");
    assert_eq!(
        check(&idle, None, &sets()),
        Ok(Outcome {
            line: "idle none".to_owned(),
            expected: false
        })
    );
    let other = BUSY.replace("matched: working", "matched: other");
    assert_eq!(check(&other, None, &sets()).map(|outcome| outcome.expected), Ok(false));
}

#[test]
fn the_agent_that_is_asked_for_is_checked() {
    let foreign = BUSY.replace("# agent: agent", "# agent: foreign");
    assert_eq!(
        check(&foreign, None, &sets()),
        Err(CheckError::UnknownAgent("foreign".to_owned()))
    );
    assert!(check(&foreign, Some("agent"), &sets()).is_ok());
    assert_eq!(
        check(BUSY, Some("other"), &sets()),
        Err(CheckError::UnknownAgent("other".to_owned()))
    );
}

#[test]
fn malformed_fixtures_are_refused() {
    for text in [
        "",
        "# agent: a\n# title: t\n# progress: \n# expect: idle\n# matched: none",
        "# agent: a\n# title: t\n# progress: 3\n# expect: idle\n# matched: none\n",
        "# agent: a\n# title: t\n# progress: 1:256\n# expect: idle\n# matched: none\n",
        "# title: t\n# agent: a\n# progress: \n# expect: idle\n# matched: none\n",
    ] {
        assert_eq!(check(text, None, &sets()), Err(CheckError::Malformed));
    }
}

#[test]
fn a_fixture_shows_its_screen() {
    let fixture = Fixture::parse(
        "# agent: a\n# title: My title\n# progress: 1:42\n# expect: idle\n# matched: none\none  \n\ntwo\n\n",
    )
    .expect("fixture");
    assert_eq!(fixture.agent(), "a");
    assert_eq!(fixture.title(), "My title");
    assert_eq!(
        fixture.progress(),
        Some(Progress {
            state: 1,
            percent: 42
        })
    );
    assert_eq!(fixture.lines(), ["one", "", "two"]);
    assert_eq!(fixture.text(), "one\n\ntwo\n");
}

#[test]
fn a_written_fixture_reads_back() {
    let mut screen = Screen::new(4, 20);
    screen.process(b"\x1b]2;task\x07\x1b]9;4;2;7\x07observed\r\ntext");
    let text = write_fixture(Some("agent"), &screen);
    assert_eq!(
        text,
        "# agent: agent\n# title: task\n# progress: 2:7\n# expect: idle\n# matched: none\nobserved\ntext\n"
    );
    let fixture = Fixture::parse(&text).expect("fixture");
    assert_eq!(fixture.lines(), screen.lines());
    assert_eq!(fixture.text(), screen.text());
    assert_eq!(fixture.title(), screen.title());
    assert_eq!(fixture.progress(), screen.progress());
    assert!(write_fixture(None, &screen).starts_with("# agent: unknown\n"));
}
