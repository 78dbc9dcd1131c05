//! The machine between raw verdicts and published states: it holds back an idle that may be a
//! flicker, ignores the idle of an agent that has just started, and repeats a stable state.
use crate::osc::{agent_view, no_flags, AgentId, Flags, State};
use crate::rules::eval::{Verdict, VerdictView};
use crate::rules::schema::RuleState;
use crate::text::same_text;
use vstd::prelude::*;

verus! {

/// A point in time or a span of it, in nanoseconds. Points are counted from a start of the
/// caller's choosing.
pub type Nanos = u64;

/// The spans of time that the machine goes by, and the number of confirmations that a held idle
/// needs.
#[derive(Clone, Copy, Debug, PartialEq, Eq, Structural)]
pub struct Config {
    pub confirmation: Nanos,
    pub hold_cap: Nanos,
    pub startup_grace: Nanos,
    pub heartbeat: Nanos,
    pub confirmations: u8,
}

/// A hundred milliseconds between confirmations, 700 for the longest hold, three seconds of grace,
/// 800 milliseconds between heartbeats, and three confirmations.
pub open spec fn standard_config() -> Config {
    Config {
        confirmation: 100_000_000,
        hold_cap: 700_000_000,
        startup_grace: 3_000_000_000,
        heartbeat: 800_000_000,
        confirmations: 3,
    }
}

impl Default for Config {
    fn default() -> (config: Self)
        ensures
            config == standard_config(),
    {
        Config {
            confirmation: 100_000_000,
            hold_cap: 700_000_000,
            startup_grace: 3_000_000_000,
            heartbeat: 800_000_000,
            confirmations: 3,
        }
    }
}

/// What the machine announces.
#[derive(Debug, PartialEq, Eq)]
pub enum Event {
    Changed {
        state: State,
        previous: State,
        agent: Option<AgentId>,
        seq: u64,
        visible: Flags,
        exited: bool,
    },
    Heartbeat { state: State, agent: Option<AgentId>, seq: u64, visible: Flags },
    AgentFound { id: AgentId, pid: i32 },
    AgentLost,
}

/// An event in mathematical terms.
#[verifier::ext_equal]
pub enum EventView {
    Changed {
        state: State,
        previous: State,
        agent: Option<Seq<char>>,
        seq: u64,
        visible: Flags,
        exited: bool,
    },
    Heartbeat { state: State, agent: Option<Seq<char>>, seq: u64, visible: Flags },
    AgentFound { id: Seq<char>, pid: i32 },
    AgentLost,
}

impl View for Event {
    type V = EventView;

    open spec fn view(&self) -> EventView {
        match *self {
            Event::Changed { state, previous, agent, seq, visible, exited } => EventView::Changed {
                state,
                previous,
                agent: agent_view(agent),
                seq,
                visible,
                exited,
            },
            Event::Heartbeat { state, agent, seq, visible } => EventView::Heartbeat {
                state,
                agent: agent_view(agent),
                seq,
                visible,
            },
            Event::AgentFound { id, pid } => EventView::AgentFound { id: id@, pid },
            Event::AgentLost => EventView::AgentLost,
        }
    }
}

impl Clone for Event {
    fn clone(&self) -> (copy: Self)
        ensures
            copy@ == self@,
    {
        match self {
            Event::Changed { state, previous, agent, seq, visible, exited } => Event::Changed {
                state: *state,
                previous: *previous,
                agent: copied_agent(agent),
                seq: *seq,
                visible: *visible,
                exited: *exited,
            },
            Event::Heartbeat { state, agent, seq, visible } => Event::Heartbeat {
                state: *state,
                agent: copied_agent(agent),
                seq: *seq,
                visible: *visible,
            },
            Event::AgentFound { id, pid } => Event::AgentFound { id: id.clone(), pid: *pid },
            Event::AgentLost => Event::AgentLost,
        }
    }
}

/// Events in mathematical terms.
pub open spec fn event_views(events: Seq<Event>) -> Seq<EventView> {
    Seq::new(events.len(), |index: int| events[index]@)
}

/// An idle that is held back: since when, and how often it was seen.
#[derive(Clone, Copy, Debug, PartialEq, Eq, Structural)]
pub struct Hold {
    pub opened: Nanos,
    pub confirmations: u8,
}

/// The machine in mathematical terms.
#[verifier::ext_equal]
pub struct MachineView {
    pub config: Config,
    pub current: State,
    pub agent: Option<Seq<char>>,
    pub visible: Flags,
    pub seq: u64,
    pub hold: Option<Hold>,
    pub grace_until: Option<Nanos>,
    pub heartbeat_at: Option<Nanos>,
}

/// A later point in time, as far as it can be told.
pub open spec fn later(point: Nanos, span: Nanos) -> Nanos {
    if point + span > u64::MAX {
        u64::MAX
    } else {
        (point + span) as u64
    }
}

/// A count with one more, as far as it can be told.
pub open spec fn once_more(count: u8) -> u8 {
    if count == u8::MAX {
        count
    } else {
        (count + 1) as u8
    }
}

impl MachineView {
    /// An idle is held back only while an agent works; without an agent the state is none; and
    /// that state has no evidence.
    pub open spec fn consistent(self) -> bool {
        &&& self.hold is Some ==> self.current is Working && self.agent is Some
        &&& self.agent is None ==> self.current is NoAgent
        &&& self.current is NoAgent ==> self.visible == no_flags()
        &&& self.heartbeat_at is None ==> self.current is NoAgent
    }

    /// The number that the next change gets.
    pub open spec fn next_seq(self) -> u64 {
        if self.seq == u64::MAX {
            self.seq
        } else {
            (self.seq + 1) as u64
        }
    }

    /// The machine after it published a state.
    pub open spec fn after_publish(self, state: State, visible: Flags, now: Nanos) -> MachineView {
        MachineView {
            current: state,
            visible,
            seq: self.next_seq(),
            hold: None,
            heartbeat_at: Some(later(now, self.config.heartbeat)),
            ..self
        }
    }

    /// The event of a publication.
    pub open spec fn publication(self, state: State, visible: Flags, exited: bool) -> EventView {
        EventView::Changed {
            state,
            previous: self.current,
            agent: self.agent,
            seq: self.next_seq(),
            visible,
            exited,
        }
    }

    /// The machine after it took note of the agent.
    pub open spec fn after_agent(
        self,
        agent: Option<Seq<char>>,
        replaced: bool,
        now: Nanos,
    ) -> MachineView {
        if agent == self.agent && !replaced {
            self
        } else {
            MachineView {
                agent,
                hold: None,
                grace_until: if agent is Some {
                    Some(later(now, self.config.startup_grace))
                } else {
                    self.grace_until
                },
                ..self
            }
        }
    }

    /// The event of an agent that came or went.
    pub open spec fn agent_events(
        self,
        agent: Option<Seq<char>>,
        replaced: bool,
        pid: Option<i32>,
    ) -> Seq<EventView> {
        if agent == self.agent && !replaced {
            Seq::empty()
        } else {
            match agent {
                Some(id) => seq![
                    EventView::AgentFound {
                        id,
                        pid: match pid {
                            Some(value) => value,
                            None => 0,
                        },
                    },
                ],
                None => if self.agent is Some {
                    seq![EventView::AgentLost]
                } else {
                    Seq::empty()
                },
            }
        }
    }

    /// The machine is within the grace of an agent that has just started.
    pub open spec fn in_grace(self, now: Nanos) -> bool {
        match self.grace_until {
            Some(end) => now < end,
            None => false,
        }
    }

    /// The machine after a verdict on the agent that it knows.
    pub open spec fn after_verdict(
        self,
        state: State,
        visible: Flags,
        now: Nanos,
    ) -> MachineView {
        if state is Idle && self.in_grace(now) {
            MachineView { hold: None, ..self }
        } else if self.current is Working && state is Idle && !visible.idle {
            match self.hold {
                Some(hold) => if once_more(hold.confirmations) > self.config.confirmations {
                    self.after_publish(state, visible, now)
                } else {
                    MachineView {
                        hold: Some(
                            Hold {
                                opened: hold.opened,
                                confirmations: once_more(hold.confirmations),
                            },
                        ),
                        ..self
                    }
                },
                None => MachineView {
                    hold: Some(Hold { opened: now, confirmations: 1 }),
                    ..self
                },
            }
        } else if state != self.current || visible != self.visible {
            self.after_publish(state, visible, now)
        } else {
            MachineView { hold: None, ..self }
        }
    }

    /// A verdict on the agent that the machine knows is published.
    pub open spec fn publishes(self, state: State, visible: Flags, now: Nanos) -> bool {
        if state is Idle && self.in_grace(now) {
            false
        } else if self.current is Working && state is Idle && !visible.idle {
            self.hold is Some && once_more(self.hold->0.confirmations) > self.config.confirmations
        } else {
            state != self.current || visible != self.visible
        }
    }

    /// What a machine that has taken note of the agent makes of a verdict, and what it announces.
    pub open spec fn judged(
        self,
        verdict: Option<VerdictView>,
        exited: bool,
        now: Nanos,
    ) -> (MachineView, Seq<EventView>) {
        if self.agent is None {
            if self.current is NoAgent {
                (MachineView { hold: None, ..self }, Seq::empty())
            } else {
                (
                    self.after_publish(State::NoAgent, no_flags(), now),
                    seq![self.publication(State::NoAgent, no_flags(), false)],
                )
            }
        } else if exited {
            (
                self.after_publish(State::Idle, no_flags(), now),
                seq![self.publication(State::Idle, no_flags(), true)],
            )
        } else {
            match verdict {
                Some(value) => match asserted_state(value.state) {
                    Some(state) => (
                        self.after_verdict(state, value.visible, now),
                        if self.publishes(state, value.visible, now) {
                            seq![self.publication(state, value.visible, false)]
                        } else {
                            Seq::empty()
                        },
                    ),
                    None => (MachineView { hold: None, ..self }, Seq::empty()),
                },
                None => (MachineView { hold: None, ..self }, Seq::empty()),
            }
        }
    }

    /// What the machine makes of an observation, and what it announces.
    pub open spec fn observed(
        self,
        verdict: Option<VerdictView>,
        agent: Option<Seq<char>>,
        replaced: bool,
        pid: Option<i32>,
        exited: bool,
        now: Nanos,
    ) -> (MachineView, Seq<EventView>) {
        let (machine, events) = self.after_agent(agent, replaced, now).judged(
            verdict,
            exited,
            now,
        );
        (machine, self.agent_events(agent, replaced, pid) + events)
    }

    /// A hold has been open for as long as it may.
    pub open spec fn hold_expired(self, now: Nanos) -> bool {
        match self.hold {
            Some(hold) => now >= hold.opened && now - hold.opened >= self.config.hold_cap
                || self.config.hold_cap == 0,
            None => false,
        }
    }

    /// A heartbeat is due.
    pub open spec fn heartbeat_due(self, now: Nanos) -> bool {
        match self.heartbeat_at {
            Some(at) => now >= at,
            None => false,
        }
    }

    /// What the machine makes of the passing of time, and what it announces.
    pub open spec fn ticked(self, now: Nanos) -> (MachineView, Seq<EventView>) {
        if self.hold_expired(now) {
            (
                self.after_publish(State::Idle, no_flags(), now),
                seq![self.publication(State::Idle, no_flags(), false)],
            )
        } else if self.heartbeat_due(now) {
            (
                MachineView { heartbeat_at: Some(later(now, self.config.heartbeat)), ..self },
                seq![
                    EventView::Heartbeat {
                        state: self.current,
                        agent: if self.current is NoAgent {
                            None
                        } else {
                            self.agent
                        },
                        seq: self.seq,
                        visible: self.visible,
                    },
                ],
            )
        } else {
            (self, Seq::empty())
        }
    }

    /// The next point in time at which the machine has something to do.
    pub open spec fn deadline(self) -> Option<Nanos> {
        let held = match self.hold {
            Some(hold) => Some(
                earlier(
                    later(hold.opened, self.config.confirmation),
                    later(hold.opened, self.config.hold_cap),
                ),
            ),
            None => None,
        };
        match (held, self.heartbeat_at) {
            (Some(left), Some(right)) => Some(earlier(left, right)),
            (Some(point), None) => Some(point),
            (None, other) => other,
        }
    }
}

/// The earlier of two points in time.
pub open spec fn earlier(left: Nanos, right: Nanos) -> Nanos {
    if left < right {
        left
    } else {
        right
    }
}

/// The state that a verdict asserts. A skip asserts none.
pub open spec fn asserted_state(state: RuleState) -> Option<State> {
    match state {
        RuleState::Working => Some(State::Working),
        RuleState::Blocked => Some(State::Blocked),
        RuleState::Idle => Some(State::Idle),
        RuleState::Skip => None,
    }
}

/// A machine that has seen nothing.
pub open spec fn fresh(config: Config) -> MachineView {
    MachineView {
        config,
        current: State::NoAgent,
        agent: None,
        visible: no_flags(),
        seq: 0,
        hold: None,
        grace_until: None,
        heartbeat_at: None,
    }
}

/// The verdict in mathematical terms.
pub open spec fn verdict_view(verdict: Option<Verdict>) -> Option<VerdictView> {
    match verdict {
        Some(value) => Some(value@),
        None => None,
    }
}

fn after(point: Nanos, span: Nanos) -> (end: Nanos)
    ensures
        end == later(point, span),
{
    if span > u64::MAX - point {
        u64::MAX
    } else {
        point + span
    }
}

fn same_agent(left: &Option<AgentId>, right: &Option<AgentId>) -> (same: bool)
    ensures
        same == (agent_view(*left) == agent_view(*right)),
{
    match (left, right) {
        (Some(one), Some(other)) => same_text(one.as_str(), other.as_str()),
        (None, None) => true,
        _ => false,
    }
}

/// A copy of an agent.
pub fn copied_agent(agent: &Option<AgentId>) -> (copy: Option<AgentId>)
    ensures
        agent_view(copy) == agent_view(*agent),
{
    match agent {
        Some(id) => Some(id.clone()),
        None => None,
    }
}

struct Core {
    config: Config,
    current: State,
    agent: Option<AgentId>,
    visible: Flags,
    seq: u64,
    hold: Option<Hold>,
    grace_until: Option<Nanos>,
    heartbeat_at: Option<Nanos>,
}

impl View for Core {
    type V = MachineView;

    closed spec fn view(&self) -> MachineView {
        MachineView {
            config: self.config,
            current: self.current,
            agent: agent_view(self.agent),
            visible: self.visible,
            seq: self.seq,
            hold: self.hold,
            grace_until: self.grace_until,
            heartbeat_at: self.heartbeat_at,
        }
    }
}

impl Core {
    fn new(config: Config) -> (core: Self)
        ensures
            core@ == fresh(config),
    {
        Core {
            config,
            current: State::NoAgent,
            agent: None,
            visible: Flags::default(),
            seq: 0,
            hold: None,
            grace_until: None,
            heartbeat_at: None,
        }
    }

    fn publish(&mut self, state: State, visible: Flags, exited: bool, now: Nanos) -> (event: Event)
        ensures
            final(self)@ == old(self)@.after_publish(state, visible, now),
            event@ == old(self)@.publication(state, visible, exited),
    {
        let previous = self.current;
        self.current = state;
        self.visible = visible;
        if self.seq < u64::MAX {
            self.seq = self.seq + 1;
        }
        self.hold = None;
        self.heartbeat_at = Some(after(now, self.config.heartbeat));
        Event::Changed {
            state,
            previous,
            agent: copied_agent(&self.agent),
            seq: self.seq,
            visible,
            exited,
        }
    }

    fn judge(&mut self, verdict: Option<Verdict>, exited: bool, now: Nanos) -> (event: Option<Event>)
        ensures
            final(self)@ == old(self)@.judged(verdict_view(verdict), exited, now).0,
            match event {
                Some(value) => old(self)@.judged(verdict_view(verdict), exited, now).1 == seq![
                    value@,
                ],
                None => old(self)@.judged(verdict_view(verdict), exited, now).1.len() == 0,
            },
    {
        if self.agent.is_none() {
            if self.current == State::NoAgent {
                self.hold = None;
                return None;
            }
            return Some(self.publish(State::NoAgent, Flags::default(), false, now));
        }
        if exited {
            return Some(self.publish(State::Idle, Flags::default(), true, now));
        }
        let verdict = match verdict {
            Some(value) => value,
            None => {
                self.hold = None;
                return None;
            },
        };
        let state = match verdict.state {
            RuleState::Working => State::Working,
            RuleState::Blocked => State::Blocked,
            RuleState::Idle => State::Idle,
            RuleState::Skip => {
                self.hold = None;
                return None;
            },
        };
        let graced = match self.grace_until {
            Some(end) => now < end,
            None => false,
        };
        if state == State::Idle && graced {
            self.hold = None;
            return None;
        }
        if self.current == State::Working && state == State::Idle && !verdict.visible.idle {
            match self.hold {
                Some(hold) => {
                    let count: u8 = if hold.confirmations == u8::MAX {
                        hold.confirmations
                    } else {
                        hold.confirmations + 1
                    };
                    if count > self.config.confirmations {
                        return Some(self.publish(state, verdict.visible, false, now));
                    }
                    self.hold = Some(Hold { opened: hold.opened, confirmations: count });
                },
                None => {
                    self.hold = Some(Hold { opened: now, confirmations: 1 });
                },
            }
            return None;
        }
        if state != self.current || verdict.visible != self.visible {
            return Some(self.publish(state, verdict.visible, false, now));
        }
        self.hold = None;
        None
    }

    fn observe(
        &mut self,
        verdict: Option<Verdict>,
        agent: Option<AgentId>,
        replaced: bool,
        pid: Option<i32>,
        exited: bool,
        now: Nanos,
    ) -> (events: Vec<Event>)
        ensures
            (final(self)@, event_views(events@)) == old(self)@.observed(
                verdict_view(verdict),
                agent_view(agent),
                replaced,
                pid,
                exited,
                now,
            ),
    {
        let ghost start = self@;
        let mut events: Vec<Event> = Vec::new();
        if replaced || !same_agent(&agent, &self.agent) {
            self.hold = None;
            match &agent {
                Some(id) => {
                    self.grace_until = Some(after(now, self.config.startup_grace));
                    let pid: i32 = match pid {
                        Some(value) => value,
                        None => 0,
                    };
                    events.push(Event::AgentFound { id: id.clone(), pid });
                },
                None => if self.agent.is_some() {
                    events.push(Event::AgentLost);
                },
            }
            self.agent = copied_agent(&agent);
        }
        let ghost found = start.agent_events(agent_view(agent), replaced, pid);
        let ghost noted = self@;
        assert(noted =~= start.after_agent(agent_view(agent), replaced, now));
        assert(event_views(events@) =~= found);
        let ghost before = events@;
        match self.judge(verdict, exited, now) {
            Some(event) => {
                events.push(event);
                assert(event_views(events@) =~= found + seq![event@]);
            },
            None => {
                assert(event_views(events@) =~= found + noted.judged(
                    verdict_view(verdict),
                    exited,
                    now,
                ).1);
            },
        }
        events
    }

    fn tick(&mut self, now: Nanos) -> (events: Vec<Event>)
        ensures
            (final(self)@, event_views(events@)) == old(self)@.ticked(now),
    {
        let ghost start = self@;
        let mut events: Vec<Event> = Vec::new();
        let expired = match self.hold {
            Some(hold) => {
                let open: u64 = if now >= hold.opened {
                    now - hold.opened
                } else {
                    0
                };
                open >= self.config.hold_cap
            },
            None => false,
        };
        if expired {
            events.push(self.publish(State::Idle, Flags::default(), false, now));
            assert(event_views(events@) =~= start.ticked(now).1);
            return events;
        }
        let due = match self.heartbeat_at {
            Some(at) => now >= at,
            None => false,
        };
        if due {
            self.heartbeat_at = Some(after(now, self.config.heartbeat));
            let agent = if self.current == State::NoAgent {
                None
            } else {
                copied_agent(&self.agent)
            };
            events.push(
                Event::Heartbeat {
                    state: self.current,
                    agent,
                    seq: self.seq,
                    visible: self.visible,
                },
            );
        }
        assert(event_views(events@) =~= start.ticked(now).1);
        events
    }
}

/// The hysteresis machine.
pub struct Machine {
    core: Core,
}

impl View for Machine {
    type V = MachineView;

    closed spec fn view(&self) -> MachineView {
        self.core@
    }
}

impl Machine {
    #[verifier::type_invariant]
    spec fn well_formed(self) -> bool {
        self.core@.consistent()
    }

    #[must_use]
    pub fn new(config: Config) -> (machine: Self)
        ensures
            machine@ == fresh(config),
    {
        Machine { core: Core::new(config) }
    }

    /// Takes note of a verdict, of the agent it is about, and of whether that agent has exited.
    pub fn observe(
        &mut self,
        verdict: Option<Verdict>,
        agent: Option<AgentId>,
        pid: Option<i32>,
        exited: bool,
        now: Nanos,
    ) -> (events: Vec<Event>)
        ensures
            (final(self)@, event_views(events@)) == old(self)@.observed(
                verdict_view(verdict),
                agent_view(agent),
                false,
                pid,
                exited,
                now,
            ),
            old(self)@.consistent(),
            final(self)@.consistent(),
    {
        proof {
            use_type_invariant(&*self);
        }
        let mut core = Core::new(self.core.config);
        std::mem::swap(&mut core, &mut self.core);
        let events = core.observe(verdict, agent, false, pid, exited, now);
        self.core = core;
        events
    }

    /// Takes note of an agent that was found in a new process. Even one that is known already
    /// counts as new.
    pub fn replace(
        &mut self,
        verdict: Option<Verdict>,
        agent: AgentId,
        pid: i32,
        now: Nanos,
    ) -> (events: Vec<Event>)
        ensures
            (final(self)@, event_views(events@)) == old(self)@.observed(
                verdict_view(verdict),
                Some(agent@),
                true,
                Some(pid),
                false,
                now,
            ),
            old(self)@.consistent(),
            final(self)@.consistent(),
    {
        proof {
            use_type_invariant(&*self);
        }
        let mut core = Core::new(self.core.config);
        std::mem::swap(&mut core, &mut self.core);
        let events = core.observe(verdict, Some(agent), true, Some(pid), false, now);
        self.core = core;
        events
    }

    /// Takes note of the time.
    pub fn tick(&mut self, now: Nanos) -> (events: Vec<Event>)
        ensures
            (final(self)@, event_views(events@)) == old(self)@.ticked(now),
            old(self)@.consistent(),
            final(self)@.consistent(),
    {
        proof {
            use_type_invariant(&*self);
        }
        let mut core = Core::new(self.core.config);
        std::mem::swap(&mut core, &mut self.core);
        let events = core.tick(now);
        self.core = core;
        events
    }

    /// The next point in time at which there is something to do.
    #[must_use]
    pub fn next_deadline(&self) -> (deadline: Option<Nanos>)
        ensures
            deadline == self@.deadline(),
    {
        let held: Option<Nanos> = match self.core.hold {
            Some(hold) => {
                let confirmed: u64 = after(hold.opened, self.core.config.confirmation);
                let capped: u64 = after(hold.opened, self.core.config.hold_cap);
                Some(
                    if confirmed < capped {
                        confirmed
                    } else {
                        capped
                    },
                )
            },
            None => None,
        };
        match (held, self.core.heartbeat_at) {
            (Some(left), Some(right)) => Some(
                if left < right {
                    left
                } else {
                    right
                },
            ),
            (Some(point), None) => Some(point),
            (None, other) => other,
        }
    }

    /// Whether an idle is held back.
    #[must_use]
    pub fn hold_pending(&self) -> (pending: bool)
        ensures
            pending == (self@.hold is Some),
    {
        self.core.hold.is_some()
    }

    /// The state that was published last, with its number and its evidence.
    #[must_use]
    pub fn current(&self) -> (current: (State, u64, Flags))
        ensures
            current == (self@.current, self@.seq, self@.visible),
    {
        (self.core.current, self.core.seq, self.core.visible)
    }
}

} // verus!
