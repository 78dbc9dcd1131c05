//! What the hysteresis machine promises.
use crate::osc::{no_flags, Flags, State};
use crate::rules::eval::VerdictView;
use crate::rules::schema::RuleState;
use crate::state::{asserted_state, fresh, later, EventView, MachineView, Nanos};
use vstd::prelude::*;

verus! {

/// Every observation keeps the machine consistent.
pub proof fn observation_keeps_consistency(
    machine: MachineView,
    verdict: Option<VerdictView>,
    agent: Option<Seq<char>>,
    replaced: bool,
    pid: Option<i32>,
    exited: bool,
    now: Nanos,
)
    requires
        machine.consistent(),
    ensures
        machine.observed(verdict, agent, replaced, pid, exited, now).0.consistent(),
{
}

/// The passing of time keeps the machine consistent.
pub proof fn tick_keeps_consistency(machine: MachineView, now: Nanos)
    requires
        machine.consistent(),
    ensures
        machine.ticked(now).0.consistent(),
{
}

/// A verdict of an agent at rest without an unmistakable prompt on the screen.
pub open spec fn plain_idle(verdict: VerdictView) -> bool {
    verdict.state is Idle && verdict.visible == no_flags()
}

/// The machine after plain idle verdicts on its agent at the given times.
pub open spec fn idled(machine: MachineView, verdict: VerdictView, times: Seq<Nanos>) -> MachineView
    decreases times.len(),
{
    if times.len() == 0 {
        machine
    } else {
        idled(machine, verdict, times.drop_last()).observed(
            Some(verdict),
            machine.agent,
            false,
            None,
            false,
            times.last(),
        ).0
    }
}

/// What the last of the plain idle verdicts makes the machine announce.
pub open spec fn idle_events(
    machine: MachineView,
    verdict: VerdictView,
    times: Seq<Nanos>,
) -> Seq<EventView> {
    idled(machine, verdict, times.drop_last()).observed(
        Some(verdict),
        machine.agent,
        false,
        None,
        false,
        times.last(),
    ).1
}

/// A machine that publishes an agent at work, past its grace, with no idle held back.
pub open spec fn at_work(machine: MachineView, since: Nanos) -> bool {
    &&& machine.consistent()
    &&& machine.current is Working
    &&& machine.hold is None
    &&& !machine.in_grace(since)
}

proof fn lemma_idle_is_counted(machine: MachineView, verdict: VerdictView, times: Seq<Nanos>)
    requires
        times.len() > 0,
        at_work(machine, times[0]),
        plain_idle(verdict),
        forall|index: int| 0 <= index < times.len() ==> times[0] <= #[trigger] times[index],
        times.len() <= machine.config.confirmations || times.len() == 1,
    ensures
        idled(machine, verdict, times) == (MachineView {
            hold: Some(crate::state::Hold { opened: times[0], confirmations: times.len() as u8 }),
            ..machine
        }),
        idle_events(machine, verdict, times) == Seq::<EventView>::empty(),
    decreases times.len(),
{
    let before = times.drop_last();
    if times.len() == 1 {
        assert(idled(machine, verdict, before) == machine);
    } else {
        assert forall|index: int| 0 <= index < before.len() implies before[0]
            <= #[trigger] before[index] by {
            assert(times[0] <= times[index]);
        }
        lemma_idle_is_counted(machine, verdict, before);
        assert(times[0] <= times[times.len() - 1]);
    }
}

/// Working to plain idle is held: an agent at work that is seen at rest without an unmistakable
/// prompt stays published as working until it has been seen so once more than the number of
/// confirmations, without anything else in between. Only then the idle is published, and once.
pub proof fn plain_idle_is_held(machine: MachineView, verdict: VerdictView, times: Seq<Nanos>)
    requires
        0 < times.len() <= machine.config.confirmations + 1,
        0 < machine.config.confirmations < u8::MAX,
        at_work(machine, times[0]),
        plain_idle(verdict),
        forall|index: int| 0 <= index < times.len() ==> times[0] <= #[trigger] times[index],
    ensures
        times.len() <= machine.config.confirmations ==> {
            &&& idled(machine, verdict, times).current is Working
            &&& idled(machine, verdict, times).hold is Some
            &&& idle_events(machine, verdict, times) == Seq::<EventView>::empty()
        },
        times.len() == machine.config.confirmations + 1 ==> {
            &&& idled(machine, verdict, times).current is Idle
            &&& idled(machine, verdict, times).hold is None
            &&& idle_events(machine, verdict, times) == seq![
                machine.publication(State::Idle, no_flags(), false),
            ]
        },
{
    if times.len() <= machine.config.confirmations {
        lemma_idle_is_counted(machine, verdict, times);
    } else {
        let before = times.drop_last();
        assert forall|index: int| 0 <= index < before.len() implies before[0]
            <= #[trigger] before[index] by {
            assert(times[0] <= times[index]);
        }
        lemma_idle_is_counted(machine, verdict, before);
        assert(times[0] <= times[times.len() - 1]);
    }
}

/// With the standard settings the fourth plain idle verdict in a row is published.
pub proof fn fourth_idle_is_published(
    machine: MachineView,
    verdict: VerdictView,
    times: Seq<Nanos>,
)
    requires
        machine.config == crate::state::standard_config(),
        times.len() == 4,
        at_work(machine, times[0]),
        plain_idle(verdict),
        times[0] <= times[1] <= times[2] <= times[3],
    ensures
        idle_events(machine, verdict, times.take(1)) == Seq::<EventView>::empty(),
        idle_events(machine, verdict, times.take(2)) == Seq::<EventView>::empty(),
        idle_events(machine, verdict, times.take(3)) == Seq::<EventView>::empty(),
        idle_events(machine, verdict, times) == seq![
            machine.publication(State::Idle, no_flags(), false),
        ],
{
    plain_idle_is_held(machine, verdict, times.take(1));
    plain_idle_is_held(machine, verdict, times.take(2));
    plain_idle_is_held(machine, verdict, times.take(3));
    plain_idle_is_held(machine, verdict, times);
}

/// A hold that is still open when its longest span is over forces publication: it is not
/// cancelled.
pub proof fn cap_forces_publication(machine: MachineView, now: Nanos)
    requires
        machine.consistent(),
        machine.hold is Some,
        now >= machine.hold->0.opened + machine.config.hold_cap,
    ensures
        machine.ticked(now).0.current is Idle,
        machine.ticked(now).0.hold is None,
        machine.ticked(now).1 == seq![machine.publication(State::Idle, no_flags(), false)],
{
}

/// Any verdict other than a plain idle ends a hold.
pub proof fn other_verdicts_end_a_hold(
    machine: MachineView,
    verdict: Option<VerdictView>,
    pid: Option<i32>,
    now: Nanos,
)
    requires
        machine.consistent(),
        verdict is None || !(verdict->0.state is Idle) || verdict->0.visible.idle,
    ensures
        machine.observed(verdict, machine.agent, false, pid, false, now).0.hold is None,
{
}

/// A verdict of work or of a block is published at once, grace or not, where it changes the state
/// or its evidence.
pub proof fn work_and_block_are_immediate(
    machine: MachineView,
    verdict: VerdictView,
    pid: Option<i32>,
    now: Nanos,
)
    requires
        machine.consistent(),
        machine.agent is Some,
        verdict.state is Working || verdict.state is Blocked,
        asserted_state(verdict.state)->0 != machine.current || verdict.visible != machine.visible,
    ensures
        ({
            let (next, events) = machine.observed(
                Some(verdict),
                machine.agent,
                false,
                pid,
                false,
                now,
            );
            let state = asserted_state(verdict.state)->0;
            &&& next.current == state
            &&& next.visible == verdict.visible
            &&& events == seq![machine.publication(state, verdict.visible, false)]
        }),
{
    let (_, events) = machine.observed(Some(verdict), machine.agent, false, pid, false, now);
    assert(events =~= seq![
        machine.publication(asserted_state(verdict.state)->0, verdict.visible, false),
    ]);
}

/// Past the grace, an idle is published at once where the agent was blocked, or where the screen
/// shows an unmistakable prompt.
pub proof fn certain_idle_is_immediate(
    machine: MachineView,
    verdict: VerdictView,
    pid: Option<i32>,
    now: Nanos,
)
    requires
        machine.consistent(),
        machine.agent is Some,
        !machine.in_grace(now),
        verdict.state is Idle,
        machine.current is Blocked || (machine.current is Working && verdict.visible.idle),
    ensures
        ({
            let (next, events) = machine.observed(
                Some(verdict),
                machine.agent,
                false,
                pid,
                false,
                now,
            );
            &&& next.current is Idle
            &&& events == seq![machine.publication(State::Idle, verdict.visible, false)]
        }),
{
    let (_, events) = machine.observed(Some(verdict), machine.agent, false, pid, false, now);
    assert(events =~= seq![machine.publication(State::Idle, verdict.visible, false)]);
}

/// A change of the evidence alone is published like a change of the state.
pub proof fn evidence_is_published(
    machine: MachineView,
    verdict: VerdictView,
    pid: Option<i32>,
    now: Nanos,
)
    requires
        machine.consistent(),
        machine.agent is Some,
        !machine.in_grace(now),
        asserted_state(verdict.state) == Some(machine.current),
        verdict.visible != machine.visible,
    ensures
        machine.observed(Some(verdict), machine.agent, false, pid, false, now).1 == seq![
            machine.publication(machine.current, verdict.visible, false),
        ],
{
    let (_, events) = machine.observed(Some(verdict), machine.agent, false, pid, false, now);
    assert(events =~= seq![machine.publication(machine.current, verdict.visible, false)]);
}

/// An agent that is found starts its grace, and every idle verdict within it is ignored.
pub proof fn grace_ignores_idle(
    machine: MachineView,
    agent: Seq<char>,
    replaced: bool,
    pid: Option<i32>,
    found: Nanos,
    verdict: VerdictView,
    now: Nanos,
)
    requires
        machine.consistent(),
        replaced || machine.agent != Some(agent),
        verdict.state is Idle,
        found <= now < later(found, machine.config.startup_grace),
    ensures
        ({
            let (started, first) = machine.observed(
                Some(verdict),
                Some(agent),
                replaced,
                pid,
                false,
                found,
            );
            let (next, events) = started.observed(
                Some(verdict),
                Some(agent),
                false,
                pid,
                false,
                now,
            );
            &&& first == machine.agent_events(Some(agent), replaced, pid)
            &&& started.current == machine.current
            &&& started.seq == machine.seq
            &&& events == Seq::<EventView>::empty()
            &&& next.current == machine.current
            &&& next.seq == machine.seq
        }),
{
    let (started, first) = machine.observed(
        Some(verdict),
        Some(agent),
        replaced,
        pid,
        false,
        found,
    );
    assert(first =~= machine.agent_events(Some(agent), replaced, pid));
    assert(started.in_grace(found));
    assert(started.in_grace(now));
    let (_, events) = started.observed(Some(verdict), Some(agent), false, pid, false, now);
    assert(events =~= Seq::empty());
}

/// A skip, and the absence of a verdict, leave the state alone and end a hold.
pub proof fn skip_leaves_the_state(
    machine: MachineView,
    verdict: Option<VerdictView>,
    pid: Option<i32>,
    now: Nanos,
)
    requires
        machine.consistent(),
        machine.agent is Some,
        verdict is None || verdict->0.state is Skip,
    ensures
        machine.observed(verdict, machine.agent, false, pid, false, now) == (
            MachineView { hold: None, ..machine },
            Seq::<EventView>::empty(),
        ),
{
    let (_, events) = machine.observed(verdict, machine.agent, false, pid, false, now);
    assert(events =~= Seq::empty());
}

/// Without an agent nothing is announced, whatever the verdict.
pub proof fn unidentified_pane_is_silent(
    machine: MachineView,
    verdict: Option<VerdictView>,
    pid: Option<i32>,
    exited: bool,
    now: Nanos,
)
    requires
        machine.consistent(),
        machine.agent is None,
    ensures
        machine.observed(verdict, None, false, pid, exited, now) == (
            machine,
            Seq::<EventView>::empty(),
        ),
{
    let (next, events) = machine.observed(verdict, None, false, pid, exited, now);
    assert(events =~= Seq::empty());
    assert(next =~= machine);
}

/// An agent that exits is announced as idle with an exit marker, and once it is gone, as none.
pub proof fn exit_is_idle_and_absence_is_none(
    machine: MachineView,
    verdict: Option<VerdictView>,
    exited_at: Nanos,
    lost_at: Nanos,
)
    requires
        machine.consistent(),
        machine.agent is Some,
    ensures
        ({
            let (gone, exit) = machine.observed(
                verdict,
                machine.agent,
                false,
                None,
                true,
                exited_at,
            );
            let (cleared, loss) = gone.observed(None, None, false, None, false, lost_at);
            &&& exit == seq![machine.publication(State::Idle, no_flags(), true)]
            &&& gone.current is Idle
            &&& loss == seq![
                EventView::AgentLost,
                EventView::Changed {
                    state: State::NoAgent,
                    previous: State::Idle,
                    agent: None,
                    seq: gone.next_seq(),
                    visible: no_flags(),
                    exited: false,
                },
            ]
            &&& cleared.current is NoAgent
            &&& cleared.agent is None
        }),
{
    let (gone, exit) = machine.observed(verdict, machine.agent, false, None, true, exited_at);
    assert(exit =~= seq![machine.publication(State::Idle, no_flags(), true)]);
    let (_, loss) = gone.observed(None, None, false, None, false, lost_at);
    assert(loss =~= seq![
        EventView::AgentLost,
        EventView::Changed {
            state: State::NoAgent,
            previous: State::Idle,
            agent: None,
            seq: gone.next_seq(),
            visible: no_flags(),
            exited: false,
        },
    ]);
}

/// A heartbeat repeats the state, its evidence and its number, and changes none of them.
pub proof fn heartbeat_repeats(machine: MachineView, now: Nanos)
    requires
        machine.consistent(),
        machine.heartbeat_due(now),
        !machine.hold_expired(now),
    ensures
        ({
            let (next, events) = machine.ticked(now);
            &&& events.len() == 1
            &&& events[0] matches EventView::Heartbeat { state, agent, seq, visible } && state
                == machine.current && seq == machine.seq && visible == machine.visible && (
            !(state is NoAgent) ==> agent == machine.agent)
            &&& next.current == machine.current
            &&& next.seq == machine.seq
            &&& next.visible == machine.visible
            &&& next.agent == machine.agent
            &&& next.heartbeat_at == Some(later(now, machine.config.heartbeat))
        }),
{
}

/// A stable state is repeated one heartbeat after it was published, and not before.
pub proof fn heartbeat_follows_publication(
    machine: MachineView,
    state: State,
    visible: Flags,
    published: Nanos,
    now: Nanos,
)
    requires
        machine.consistent(),
    ensures
        machine.after_publish(state, visible, published).ticked(now).1 == if now >= later(
            published,
            machine.config.heartbeat,
        ) {
            seq![
                EventView::Heartbeat {
                    state,
                    agent: if state is NoAgent {
                        None
                    } else {
                        machine.agent
                    },
                    seq: machine.next_seq(),
                    visible,
                },
            ]
        } else {
            Seq::<EventView>::empty()
        },
{
}

/// The event makes a well-formed report: it names an agent unless the state is none.
pub open spec fn reportable(event: EventView) -> bool {
    match event {
        EventView::Changed { state, agent, .. } => (state is NoAgent) == (agent is None),
        EventView::Heartbeat { state, agent, .. } => (state is NoAgent) == (agent is None),
        _ => true,
    }
}

/// The event announces something that was not published before.
pub open spec fn news(machine: MachineView, event: EventView) -> bool {
    match event {
        EventView::Changed { state, previous, seq, visible, exited, .. } => {
            &&& previous == machine.current
            &&& seq == machine.next_seq()
            &&& state != machine.current || visible != machine.visible || exited
        },
        EventView::Heartbeat { .. } => false,
        _ => true,
    }
}

/// Whatever is observed makes well-formed reports, at most one change among them, and a change
/// only where there is one, with the next number.
pub proof fn observations_announce_changes(
    machine: MachineView,
    verdict: Option<VerdictView>,
    agent: Option<Seq<char>>,
    replaced: bool,
    pid: Option<i32>,
    exited: bool,
    now: Nanos,
)
    requires
        machine.consistent(),
    ensures
        ({
            let (next, events) = machine.observed(verdict, agent, replaced, pid, exited, now);
            &&& events.len() <= 2
            &&& forall|index: int|
                0 <= index < events.len() ==> reportable(#[trigger] events[index]) && news(
                    machine,
                    events[index],
                )
            &&& forall|left: int, right: int|
                0 <= left < right < events.len() ==> !(#[trigger] events[left] is Changed
                    && #[trigger] events[right] is Changed)
            &&& next.seq == machine.seq || next.seq == machine.next_seq()
            &&& (forall|index: int|
                0 <= index < events.len() ==> !(#[trigger] events[index] is Changed))
                ==> next.seq == machine.seq && next.current == machine.current && next.visible
                == machine.visible
        }),
{
    let noted = machine.after_agent(agent, replaced, now);
    let (next, events) = machine.observed(verdict, agent, replaced, pid, exited, now);
    let found = machine.agent_events(agent, replaced, pid);
    let said = noted.judged(verdict, exited, now).1;
    assert(events == found + said);
    assert(found.len() <= 1);
    assert(said.len() <= 1);
    if said.len() == 1 {
        assert(events[found.len() as int] == said[0]);
        assert(said[0] is Changed);
    }
    assert forall|index: int| 0 <= index < events.len() implies reportable(#[trigger] events[index])
        && news(machine, events[index]) by {
        if index < found.len() {
            assert(events[index] == found[index]);
        } else {
            assert(events[index] == said[index - found.len()]);
        }
    }
    assert forall|left: int, right: int| 0 <= left < right < events.len() implies !(
    #[trigger] events[left] is Changed && #[trigger] events[right] is Changed) by {
        assert(events[left] == found[left]);
    }
}

/// The passing of time makes well-formed reports too: at most one, a heartbeat or the change that
/// ends a hold.
pub proof fn ticks_announce_changes(machine: MachineView, now: Nanos)
    requires
        machine.consistent(),
    ensures
        ({
            let (next, events) = machine.ticked(now);
            &&& events.len() <= 1
            &&& events.len() == 1 ==> reportable(events[0])
            &&& events.len() == 1 && events[0] is Changed ==> news(machine, events[0])
            &&& !(events.len() == 1 && events[0] is Changed) ==> next.seq == machine.seq
                && next.current == machine.current
        }),
{
}

/// A machine that has seen nothing has nothing to say.
pub proof fn fresh_machine_is_silent(config: crate::state::Config, now: Nanos)
    ensures
        fresh(config).consistent(),
        fresh(config).ticked(now) == (fresh(config), Seq::<EventView>::empty()),
        fresh(config).deadline() is None,
{
}

/// What an observation publishes is what was observed: of the given agent, with the asserted state
/// and its evidence, or an idle without evidence where the agent has exited, and none where there
/// is no agent; after the state that was published before.
pub proof fn changes_say_what_was_seen(
    machine: MachineView,
    verdict: Option<VerdictView>,
    agent: Option<Seq<char>>,
    replaced: bool,
    pid: Option<i32>,
    exited: bool,
    now: Nanos,
    index: int,
)
    requires
        machine.consistent(),
        0 <= index < machine.observed(verdict, agent, replaced, pid, exited, now).1.len(),
    ensures
        ({
            let events = machine.observed(verdict, agent, replaced, pid, exited, now).1;
            events[index] matches EventView::Changed {
                state,
                previous,
                agent: named,
                visible,
                exited: gone,
                ..
            } ==> {
                &&& named == agent
                &&& previous == machine.current
                &&& agent is None ==> state is NoAgent && visible == no_flags() && !gone
                &&& agent is Some && exited ==> state is Idle && visible == no_flags() && gone
                &&& agent is Some && !exited ==> !gone && verdict is Some && visible
                    == verdict->0.visible && match verdict->0.state {
                    RuleState::Working => state is Working,
                    RuleState::Blocked => state is Blocked,
                    RuleState::Idle => state is Idle,
                    RuleState::Skip => false,
                }
            }
        }),
{
    let noted = machine.after_agent(agent, replaced, now);
    let events = machine.observed(verdict, agent, replaced, pid, exited, now).1;
    let found = machine.agent_events(agent, replaced, pid);
    let said = noted.judged(verdict, exited, now).1;
    assert(events == found + said);
    assert(said.len() <= 1);
    if index < found.len() {
        assert(events[index] == found[index]);
    } else {
        assert(events[index] == said[0]);
    }
}

/// An agent that comes is announced once, with its process, or with none as zero; one that goes is
/// announced as lost; one that stays is not announced.
pub proof fn comings_and_goings_are_announced(
    machine: MachineView,
    verdict: Option<VerdictView>,
    agent: Option<Seq<char>>,
    replaced: bool,
    pid: Option<i32>,
    exited: bool,
    now: Nanos,
)
    ensures
        ({
            let events = machine.observed(verdict, agent, replaced, pid, exited, now).1;
            let first = events.len() > 0;
            &&& agent == machine.agent && !replaced ==> forall|index: int|
                0 <= index < events.len() ==> #[trigger] events[index] is Changed
            &&& agent is Some && (agent != machine.agent || replaced) ==> first && events[0]
                == (EventView::AgentFound {
                id: agent->0,
                pid: if pid is Some {
                    pid->0
                } else {
                    0
                },
            })
            &&& agent is None && machine.agent is Some ==> first && events[0] is AgentLost
            &&& machine.observed(verdict, agent, replaced, pid, exited, now).0.agent == agent
        }),
{
    let noted = machine.after_agent(agent, replaced, now);
    let events = machine.observed(verdict, agent, replaced, pid, exited, now).1;
    let found = machine.agent_events(agent, replaced, pid);
    let said = noted.judged(verdict, exited, now).1;
    assert(events == found + said);
    if found.len() > 0 {
        assert(events[0] == found[0]);
    } else {
        assert(events =~= said);
    }
}

/// The grace of an agent ends with its span: an idle from then on is published, where nothing else
/// was published of it before.
pub proof fn the_grace_ends(
    machine: MachineView,
    agent: Seq<char>,
    pid: Option<i32>,
    found: Nanos,
    verdict: VerdictView,
    now: Nanos,
)
    requires
        machine.consistent(),
        machine.agent is None,
        verdict.state is Idle,
        now >= found + machine.config.startup_grace,
    ensures
        ({
            let started = machine.observed(None, Some(agent), false, pid, false, found).0;
            let (next, events) = started.observed(
                Some(verdict),
                Some(agent),
                false,
                pid,
                false,
                now,
            );
            &&& next.current is Idle
            &&& next.visible == verdict.visible
            &&& events.len() == 1
            &&& events[0] is Changed
        }),
{
    let started = machine.observed(None, Some(agent), false, pid, false, found).0;
    let events = started.observed(Some(verdict), Some(agent), false, pid, false, now).1;
    assert(started.current is NoAgent);
    assert(events =~= seq![started.publication(State::Idle, verdict.visible, false)]);
}

/// Time alone forces no publication before the longest span of a hold is over.
pub proof fn holds_last_until_the_cap(machine: MachineView, now: Nanos)
    requires
        machine.hold is Some,
        machine.config.hold_cap > 0,
        now < machine.hold->0.opened + machine.config.hold_cap,
    ensures
        ({
            let (next, events) = machine.ticked(now);
            &&& next.current == machine.current
            &&& next.hold == machine.hold
            &&& next.seq == machine.seq
            &&& forall|index: int| 0 <= index < events.len() ==> !(#[trigger] events[index] is Changed)
        }),
{
}

} // verus!
