//! What a machine promises over everything that it is told from its start on.
use crate::osc::{no_flags, State};
use crate::rules::eval::VerdictView;
use crate::state::{earlier, fresh, later, Config, EventView, MachineView, Nanos};
use vstd::prelude::*;

verus! {

/// Something that a machine is told: an observation, or that time has passed.
pub enum Told {
    Observation {
        verdict: Option<VerdictView>,
        agent: Option<Seq<char>>,
        replaced: bool,
        pid: Option<i32>,
        exited: bool,
        now: Nanos,
    },
    Tick { now: Nanos },
}

impl Told {
    pub open spec fn time(self) -> Nanos {
        match self {
            Told::Observation { now, .. } => now,
            Told::Tick { now } => now,
        }
    }

    /// The agent is another than that of the machine, or another run of it.
    pub open spec fn renews_agent(self, machine: MachineView) -> bool {
        match self {
            Told::Observation { agent, replaced, .. } => replaced || agent != machine.agent,
            Told::Tick { .. } => false,
        }
    }
}

/// What a machine makes of something, and what it announces.
pub open spec fn answered(machine: MachineView, told: Told) -> (MachineView, Seq<EventView>) {
    match told {
        Told::Observation { verdict, agent, replaced, pid, exited, now } => machine.observed(
            verdict,
            agent,
            replaced,
            pid,
            exited,
            now,
        ),
        Told::Tick { now } => machine.ticked(now),
    }
}

/// A machine that was told one thing after the other.
pub open spec fn machine_after(config: Config, history: Seq<Told>) -> MachineView
    decreases history.len(),
{
    if history.len() == 0 {
        fresh(config)
    } else {
        answered(machine_after(config, history.drop_last()), history.last()).0
    }
}

/// What the last thing that a machine was told made it announce.
pub open spec fn last_answer(config: Config, history: Seq<Told>) -> Seq<EventView> {
    answered(machine_after(config, history.drop_last()), history.last()).1
}

/// The changes among the events.
pub open spec fn only_changes(events: Seq<EventView>) -> Seq<EventView>
    decreases events.len(),
{
    if events.len() == 0 {
        Seq::empty()
    } else if events.last() is Changed {
        only_changes(events.drop_last()).push(events.last())
    } else {
        only_changes(events.drop_last())
    }
}

/// The changes that a machine has announced, in their order.
pub open spec fn changes(config: Config, history: Seq<Told>) -> Seq<EventView>
    decreases history.len(),
{
    if history.len() == 0 {
        Seq::empty()
    } else {
        changes(config, history.drop_last()) + only_changes(last_answer(config, history))
    }
}

/// The events tell the state: one of them is a change or a heartbeat.
pub open spec fn tells_state(events: Seq<EventView>) -> bool {
    exists|index: int|
        0 <= index < events.len() && (#[trigger] events[index] is Changed
            || events[index] is Heartbeat)
}

/// When a machine last announced a change or a heartbeat.
pub open spec fn last_told(config: Config, history: Seq<Told>) -> Option<Nanos>
    decreases history.len(),
{
    if history.len() == 0 {
        None
    } else if tells_state(last_answer(config, history)) {
        Some(history.last().time())
    } else {
        last_told(config, history.drop_last())
    }
}

/// Since when a machine has held back the idle that it holds back.
pub open spec fn held_since(config: Config, history: Seq<Told>) -> Option<Nanos>
    decreases history.len(),
{
    if history.len() == 0 || machine_after(config, history).hold is None {
        None
    } else {
        let before = machine_after(config, history.drop_last());
        if before.hold is Some && !history.last().renews_agent(before) {
            held_since(config, history.drop_last())
        } else {
            Some(history.last().time())
        }
    }
}

/// The state that was published last.
pub open spec fn published(changes: Seq<EventView>) -> State {
    if changes.len() == 0 {
        State::NoAgent
    } else {
        match changes.last() {
            EventView::Changed { state, .. } => state,
            _ => State::NoAgent,
        }
    }
}

/// The event is the change with the given number, counted from one, after the given ones.
pub open spec fn is_next_change(earlier: Seq<EventView>, event: EventView) -> bool {
    event matches EventView::Changed { previous, seq, .. } && previous == published(earlier) && seq
        == earlier.len() + 1
}

proof fn lemma_tells_state(events: Seq<EventView>, index: int)
    requires
        0 <= index < events.len(),
        events[index] is Changed || events[index] is Heartbeat,
    ensures
        tells_state(events),
{
}

/// What one thing makes of a machine: at most one change, which the machine then stands for, and
/// the next heartbeat counted from whatever tells the state.
proof fn lemma_answer(machine: MachineView, told: Told)
    requires
        machine.consistent(),
    ensures
        ({
            let (next, events) = answered(machine, told);
            let said = only_changes(events);
            &&& next.consistent()
            &&& next.config == machine.config
            &&& said.len() <= 1
            &&& said.len() == 0 ==> next.seq == machine.seq && next.current == machine.current
                && next.visible == machine.visible
            &&& said.len() == 1 ==> {
                &&& said[0] matches EventView::Changed { state, previous, seq, visible, .. }
                    && state == next.current && previous == machine.current && seq
                    == machine.next_seq() && visible == next.visible
                &&& next.seq == machine.next_seq()
                &&& tells_state(events)
            }
            &&& tells_state(events) ==> next.heartbeat_at == Some(
                later(told.time(), machine.config.heartbeat),
            )
            &&& tells_state(events) && said.len() == 0 ==> machine.heartbeat_at is Some
            &&& !tells_state(events) ==> next.heartbeat_at == machine.heartbeat_at
            &&& next.hold is Some ==> next.hold->0.opened == if machine.hold is Some
                && !told.renews_agent(machine) {
                machine.hold->0.opened
            } else {
                told.time()
            }
        }),
{
    reveal_with_fuel(only_changes, 3);
    let (next, events) = answered(machine, told);
    match told {
        Told::Observation { verdict, agent, replaced, pid, exited, now } => {
            let noted = machine.after_agent(agent, replaced, now);
            let found = machine.agent_events(agent, replaced, pid);
            let said = noted.judged(verdict, exited, now).1;
            assert(events == found + said);
            if said.len() == 1 {
                assert(events.last() == said[0]);
                assert(events.drop_last() =~= found);
                lemma_tells_state(events, events.len() - 1);
            } else {
                assert(events =~= found);
            }
        },
        Told::Tick { now } => {
            if events.len() == 1 {
                lemma_tells_state(events, 0);
            }
        },
    }
}

/// The machine stands for the changes that it has announced.
proof fn lemma_history(config: Config, history: Seq<Told>)
    ensures
        ({
            let machine = machine_after(config, history);
            let said = changes(config, history);
            &&& machine.consistent()
            &&& machine.config == config
            &&& machine.current == published(said)
            &&& said.len() == 0 ==> machine.visible == no_flags()
            &&& said.len() > 0 ==> (said.last() matches EventView::Changed { seq, visible, .. }
                && visible == machine.visible && seq == machine.seq)
            &&& machine.seq == if said.len() <= u64::MAX {
                said.len() as u64
            } else {
                u64::MAX
            }
            &&& machine.heartbeat_at == match last_told(config, history) {
                Some(point) => Some(later(point, config.heartbeat)),
                None => None,
            }
            &&& last_told(config, history) is Some <==> said.len() > 0
            &&& machine.hold is Some ==> held_since(config, history) == Some(
                machine.hold->0.opened,
            )
        }),
    decreases history.len(),
{
    if history.len() > 0 {
        let earlier = history.drop_last();
        lemma_history(config, earlier);
        let before = machine_after(config, earlier);
        lemma_answer(before, history.last());
        let said = only_changes(last_answer(config, history));
        if said.len() == 0 {
            assert(changes(config, history) =~= changes(config, earlier));
        } else {
            assert(changes(config, history) =~= changes(config, earlier).push(said[0]));
        }
    }
}

/// Nothing makes a machine announce more than one change.
pub proof fn changes_come_one_at_a_time(config: Config, history: Seq<Told>)
    requires
        history.len() > 0,
    ensures
        only_changes(last_answer(config, history)).len() <= 1,
{
    lemma_history(config, history.drop_last());
    lemma_answer(machine_after(config, history.drop_last()), history.last());
}

/// The changes are numbered from one on without a gap, and each tells the state of the one before
/// it, the first one none.
pub proof fn changes_are_numbered(config: Config, history: Seq<Told>, index: int)
    requires
        0 <= index < changes(config, history).len(),
        index < u64::MAX,
    ensures
        is_next_change(changes(config, history).take(index), changes(config, history)[index]),
    decreases history.len(),
{
    let earlier = history.drop_last();
    lemma_history(config, earlier);
    lemma_answer(machine_after(config, earlier), history.last());
    let before = changes(config, earlier);
    let said = only_changes(last_answer(config, history));
    let all = changes(config, history);
    if index < before.len() {
        changes_are_numbered(config, earlier, index);
        assert(all.take(index) =~= before.take(index));
    } else {
        assert(all =~= before.push(said[0]));
        assert(all.take(index) =~= before);
    }
}

/// The heartbeat of a machine that was told the given things.
pub open spec fn heartbeat_of(config: Config, history: Seq<Told>) -> EventView {
    let said = changes(config, history);
    EventView::Heartbeat {
        state: published(said),
        agent: if published(said) is NoAgent {
            None
        } else {
            machine_after(config, history).agent
        },
        seq: match said.last() {
            EventView::Changed { seq, .. } => seq,
            _ => 0,
        },
        visible: match said.last() {
            EventView::Changed { visible, .. } => visible,
            _ => no_flags(),
        },
    }
}

/// While no idle is held back, time makes a machine repeat the last change, with its number and
/// its evidence, once a heartbeat has passed since it last told its state, and announce nothing
/// before that, nor if there was no change yet. The repetition is no change, and the next one is
/// counted from it. The last point in time is left out where the heartbeat would come after it.
pub proof fn stable_states_are_repeated(config: Config, history: Seq<Told>, now: Nanos)
    requires
        machine_after(config, history).hold is None,
        now < u64::MAX || last_told(config, history) is None || last_told(config, history)->0
            + config.heartbeat <= u64::MAX,
    ensures
        ({
            let longer = history.push(Told::Tick { now });
            let due = match last_told(config, history) {
                Some(point) => now >= point + config.heartbeat,
                None => false,
            };
            &&& last_told(config, history) is Some <==> changes(config, history).len() > 0
            &&& last_answer(config, longer) == if due {
                seq![heartbeat_of(config, history)]
            } else {
                Seq::<EventView>::empty()
            }
            &&& changes(config, longer) == changes(config, history)
            &&& last_told(config, longer) == if due {
                Some(now)
            } else {
                last_told(config, history)
            }
        }),
{
    reveal_with_fuel(only_changes, 2);
    lemma_history(config, history);
    let longer = history.push(Told::Tick { now });
    assert(longer.drop_last() =~= history);
    let answer = last_answer(config, longer);
    assert(changes(config, longer) =~= changes(config, history));
    if answer.len() == 1 {
        lemma_tells_state(answer, 0);
    }
}

/// When a machine has something to do next: nothing before its first change; after it, the next
/// heartbeat, or while an idle is held back what comes first of that, the next confirmation and the
/// end of the hold. Until then time makes it announce nothing. A hold that may not last at all is
/// left out: it ends whenever time passes.
pub proof fn nothing_happens_before_the_deadline(config: Config, history: Seq<Told>)
    ensures
        ({
            let machine = machine_after(config, history);
            &&& machine.deadline() is None <==> changes(config, history).len() == 0
            &&& machine.deadline() is Some ==> {
                let beat = later(last_told(config, history)->0, config.heartbeat);
                machine.deadline() == Some(
                    if machine.hold is Some {
                        let since = held_since(config, history)->0;
                        earlier(
                            earlier(later(since, config.confirmation), later(since, config.hold_cap)),
                            beat,
                        )
                    } else {
                        beat
                    },
                )
            }
            &&& machine.hold is None || config.hold_cap > 0 ==> forall|now: Nanos|
                machine.deadline() is None || now < machine.deadline()->0
                    ==> #[trigger] machine.ticked(now) == (machine, Seq::<EventView>::empty())
        }),
{
    lemma_history(config, history);
}

} // verus!
