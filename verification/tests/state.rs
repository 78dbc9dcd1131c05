use zor::osc::{AgentId, Flags, State};
use zor::rules::schema::{Region, RuleState};
use zor::rules::Verdict;
use zor::state::{Config, Event, Machine, Nanos};

const MS: Nanos = 1_000_000;

fn agent(name: &str) -> AgentId {
    AgentId::new(name).expect("valid agent")
}

fn verdict(state: RuleState) -> Option<Verdict> {
    flagged(state, Flags::default())
}

fn flagged(state: RuleState, visible: Flags) -> Option<Verdict> {
    Some(Verdict {
        state,
        visible,
        rule: None,
        region: Region::Whole,
    })
}

fn changed(state: State, previous: State, seq: u64) -> Event {
    Event::Changed {
        state,
        previous,
        agent: Some(agent("a")),
        seq,
        visible: Flags::default(),
        exited: false,
    }
}

fn working(now: Nanos) -> Machine {
    let mut machine = Machine::new(Config::default());
    let events = machine.observe(
        verdict(RuleState::Working),
        Some(agent("a")),
        Some(7),
        false,
        now,
    );
    assert_eq!(
        events,
        vec![
            Event::AgentFound {
                id: agent("a"),
                pid: 7
            },
            changed(State::Working, State::NoAgent, 1)
        ]
    );
    machine
}

fn see(machine: &mut Machine, state: RuleState, now: Nanos) -> Vec<Event> {
    machine.observe(verdict(state), Some(agent("a")), Some(7), false, now)
}

#[test]
fn the_standard_spans_are_the_documented_ones() {
    let config = Config::default();
    assert_eq!(config.confirmation, 100 * MS);
    assert_eq!(config.hold_cap, 700 * MS);
    assert_eq!(config.startup_grace, 3_000 * MS);
    assert_eq!(config.heartbeat, 800 * MS);
    assert_eq!(config.confirmations, 3);
}

#[test]
fn the_fourth_plain_idle_is_published() {
    let mut machine = working(0);
    for step in 0..3 {
        assert_eq!(see(&mut machine, RuleState::Idle, (4_000 + step * 100) * MS), vec![]);
        assert!(machine.hold_pending());
    }
    assert_eq!(
        see(&mut machine, RuleState::Idle, 4_300 * MS),
        vec![changed(State::Idle, State::Working, 2)]
    );
    assert!(!machine.hold_pending());
    assert_eq!(machine.current(), (State::Idle, 2, Flags::default()));
}

#[test]
fn the_cap_forces_a_held_idle_out() {
    let mut machine = working(0);
    assert_eq!(see(&mut machine, RuleState::Idle, 4_000 * MS), vec![]);
    assert_eq!(machine.next_deadline(), Some(800 * MS));
    assert!(matches!(
        machine.tick(4_699 * MS).as_slice(),
        [Event::Heartbeat { seq: 1, .. }]
    ));
    assert_eq!(machine.next_deadline(), Some(4_100 * MS));
    assert_eq!(
        machine.tick(4_700 * MS),
        vec![changed(State::Idle, State::Working, 2)]
    );
}

#[test]
fn any_other_verdict_ends_a_hold() {
    for other in [RuleState::Working, RuleState::Skip] {
        let mut machine = working(0);
        see(&mut machine, RuleState::Idle, 4_000 * MS);
        assert!(machine.hold_pending());
        assert_eq!(see(&mut machine, other, 4_100 * MS), vec![]);
        assert!(!machine.hold_pending());
    }
    let mut machine = working(0);
    see(&mut machine, RuleState::Idle, 4_000 * MS);
    assert_eq!(
        see(&mut machine, RuleState::Blocked, 4_100 * MS),
        vec![changed(State::Blocked, State::Working, 2)]
    );
}

#[test]
fn an_unmistakable_idle_is_not_held() {
    let mut machine = working(0);
    let visible = Flags {
        idle: true,
        ..Flags::default()
    };
    let events = machine.observe(
        flagged(RuleState::Idle, visible),
        Some(agent("a")),
        Some(7),
        false,
        4_000 * MS,
    );
    assert_eq!(
        events,
        vec![Event::Changed {
            state: State::Idle,
            previous: State::Working,
            agent: Some(agent("a")),
            seq: 2,
            visible,
            exited: false,
        }]
    );
}

#[test]
fn blocked_becomes_idle_at_once() {
    let mut machine = working(0);
    see(&mut machine, RuleState::Blocked, 4_000 * MS);
    assert_eq!(
        see(&mut machine, RuleState::Idle, 4_001 * MS),
        vec![changed(State::Idle, State::Blocked, 3)]
    );
}

#[test]
fn new_evidence_is_published_with_the_state_unchanged() {
    let mut machine = working(0);
    let visible = Flags {
        working: true,
        ..Flags::default()
    };
    let events = machine.observe(
        flagged(RuleState::Working, visible),
        Some(agent("a")),
        Some(7),
        false,
        10 * MS,
    );
    assert_eq!(
        events,
        vec![Event::Changed {
            state: State::Working,
            previous: State::Working,
            agent: Some(agent("a")),
            seq: 2,
            visible,
            exited: false,
        }]
    );
    assert_eq!(see(&mut machine, RuleState::Skip, 20 * MS), vec![]);
    assert_eq!(machine.current(), (State::Working, 2, visible));
}

#[test]
fn the_grace_ignores_idle_and_nothing_else() {
    let mut machine = Machine::new(Config::default());
    assert_eq!(
        see(&mut machine, RuleState::Idle, 0),
        vec![Event::AgentFound {
            id: agent("a"),
            pid: 7
        }]
    );
    assert_eq!(see(&mut machine, RuleState::Idle, 2_999 * MS), vec![]);
    assert_eq!(
        see(&mut machine, RuleState::Blocked, 2_999 * MS),
        vec![changed(State::Blocked, State::NoAgent, 1)]
    );
    let mut late = Machine::new(Config::default());
    see(&mut late, RuleState::Idle, 0);
    assert_eq!(
        see(&mut late, RuleState::Idle, 3_000 * MS),
        vec![changed(State::Idle, State::NoAgent, 1)]
    );
}

#[test]
fn a_relaunch_restarts_the_grace() {
    let mut machine = working(0);
    assert_eq!(
        machine.replace(verdict(RuleState::Working), agent("a"), 9, 5_000 * MS),
        vec![Event::AgentFound {
            id: agent("a"),
            pid: 9
        }]
    );
    assert_eq!(see(&mut machine, RuleState::Idle, 6_000 * MS), vec![]);
    assert!(!machine.hold_pending());
}

#[test]
fn an_exit_is_an_idle_and_the_absence_is_none() {
    let mut machine = working(0);
    assert_eq!(
        machine.observe(None, Some(agent("a")), None, true, 100 * MS),
        vec![Event::Changed {
            state: State::Idle,
            previous: State::Working,
            agent: Some(agent("a")),
            seq: 2,
            visible: Flags::default(),
            exited: true,
        }]
    );
    assert_eq!(
        machine.observe(None, None, None, false, 200 * MS),
        vec![
            Event::AgentLost,
            Event::Changed {
                state: State::NoAgent,
                previous: State::Idle,
                agent: None,
                seq: 3,
                visible: Flags::default(),
                exited: false,
            }
        ]
    );
}

#[test]
fn an_unidentified_pane_is_left_alone() {
    let mut machine = Machine::new(Config::default());
    assert_eq!(machine.observe(None, None, Some(7), false, 0), vec![]);
    assert_eq!(machine.tick(10_000 * MS), vec![]);
    assert_eq!(machine.next_deadline(), None);
    assert_eq!(machine.current(), (State::NoAgent, 0, Flags::default()));
}

#[test]
fn a_stable_state_is_repeated_with_the_same_number() {
    let mut machine = working(0);
    assert_eq!(machine.next_deadline(), Some(800 * MS));
    assert_eq!(machine.tick(799 * MS), vec![]);
    for at in [800, 1_600] {
        assert_eq!(
            machine.tick(at * MS),
            vec![Event::Heartbeat {
                state: State::Working,
                agent: Some(agent("a")),
                seq: 1,
                visible: Flags::default(),
            }]
        );
    }
    assert_eq!(machine.next_deadline(), Some(2_400 * MS));
}

#[test]
fn times_at_the_end_of_the_clock_do_not_wrap() {
    let mut machine = working(Nanos::MAX);
    assert_eq!(machine.next_deadline(), Some(Nanos::MAX));
    assert_eq!(see(&mut machine, RuleState::Idle, Nanos::MAX), vec![]);
    assert!(machine.hold_pending());
}

#[test]
fn changes_are_numbered_and_linked() {
    let mut machine = Machine::new(Config::default());
    let mut changes = Vec::new();
    let states = [RuleState::Working, RuleState::Blocked, RuleState::Working, RuleState::Blocked];
    for (index, state) in states.into_iter().enumerate() {
        let now = (index as u64 + 1) * 1_000 * MS;
        let events = see(&mut machine, state, now);
        assert!(events.iter().filter(|event| matches!(event, Event::Changed { .. })).count() <= 1);
        changes.extend(events);
        changes.extend(machine.tick(now + 900 * MS));
    }
    let mut before = State::NoAgent;
    let mut number = 0;
    for event in changes {
        match event {
            Event::Changed { state, previous, seq, .. } => {
                number += 1;
                assert_eq!((previous, seq), (before, number));
                before = state;
            }
            Event::Heartbeat { state, seq, .. } => assert_eq!((state, seq), (before, number)),
            _ => {}
        }
    }
    assert_eq!(number, 4);
}

#[test]
fn the_deadline_is_the_next_thing_to_do() {
    assert_eq!(Machine::new(Config::default()).next_deadline(), None);
    let mut machine = working(0);
    assert_eq!(machine.next_deadline(), Some(800 * MS));
    assert!(machine.tick(800 * MS - 1).is_empty());
    assert_eq!(machine.tick(800 * MS).len(), 1);
    assert_eq!(machine.next_deadline(), Some(1_600 * MS));
    machine.tick(4_000 * MS);
    assert!(see(&mut machine, RuleState::Idle, 4_100 * MS).is_empty());
    assert_eq!(machine.next_deadline(), Some(4_200 * MS));
    assert!(see(&mut machine, RuleState::Idle, 4_200 * MS).is_empty());
    assert_eq!(machine.next_deadline(), Some(4_200 * MS));
}
