//! What a session promises of what it adds to the stream of its child.
use crate::boundary::{advanced, followed, stretches_compose, Sequence};
use crate::emit::title::title_frame;
use crate::osc::{formatted, ReportView, State};
use crate::platform::probe::DetectionView;
use crate::platform::Pid;
use crate::session::{NoteView, SessionView};
use crate::state::{EventView, Nanos};
use vstd::prelude::*;

verus! {

/// The bytes end with the string terminator.
pub open spec fn terminated(bytes: Seq<u8>) -> bool {
    &&& bytes.len() >= 2
    &&& bytes[bytes.len() - 2] == 0x1b
    &&& bytes[bytes.len() - 1] == 0x5c
}

/// A string terminator leads back to the ground from wherever a stream is.
pub proof fn terminators_lead_to_the_ground(state: Sequence, bytes: Seq<u8>)
    requires
        terminated(bytes),
    ensures
        followed(state, bytes) is Ground,
{
    let before = bytes.take(bytes.len() - 2);
    let first = bytes.drop_last();
    assert(first.drop_last() =~= before);
    assert(first.last() == 0x1b);
    assert(bytes.last() == 0x5c);
    let inside = followed(state, before);
    assert(followed(state, first) == advanced(inside, 0x1b));
    assert(followed(state, bytes) == advanced(followed(state, first), 0x5c));
}

/// Everything that waits to be written to the terminal is a control string with its end.
pub open spec fn queue_is_whole(session: SessionView) -> bool {
    forall|index: int|
        0 <= index < session.queued.len() ==> terminated(#[trigger] session.queued[index])
}

/// Nothing is to be added to the stream: reports are switched off, and titles are left alone.
pub open spec fn silent(session: SessionView) -> bool {
    session.no_osc && session.titles.mode is Never && session.queued.len() == 0
}

proof fn lemma_report_is_terminated(report: ReportView)
    ensures
        terminated(formatted(report)),
{
}

proof fn lemma_title_is_terminated(title: Seq<char>)
    ensures
        terminated(title_frame(title)),
{
}

proof fn lemma_retitling(session: SessionView, state: State, agent: Option<Seq<char>>)
    requires
        queue_is_whole(session),
    ensures
        queue_is_whole(session.retitled(state, agent)),
        silent(session) ==> silent(session.retitled(state, agent)),
{
    match crate::emit::title::shown_title(
        session.titles.mode,
        session.screen.heard.title,
        state,
        agent,
    ) {
        Some(title) => {
            lemma_title_is_terminated(title);
        },
        None => {},
    }
}

proof fn lemma_announcing(session: SessionView, event: EventView)
    requires
        queue_is_whole(session),
    ensures
        queue_is_whole(session.announced(event)),
        silent(session) ==> silent(session.announced(event)),
{
    let noted = session.noted(NoteView::Event(event));
    match event {
        EventView::Changed { state, previous, agent, seq, visible, exited } => {
            let report = ReportView { state, agent, seq, visible, exited, message: None };
            lemma_report_is_terminated(report);
            lemma_retitling(noted.reported(report), state, agent);
        },
        _ => {},
    }
}

proof fn lemma_announcing_all(session: SessionView, events: Seq<EventView>)
    requires
        queue_is_whole(session),
    ensures
        queue_is_whole(session.announced_all(events)),
        silent(session) ==> silent(session.announced_all(events)),
    decreases events.len(),
{
    if events.len() > 0 {
        lemma_announcing_all(session, events.drop_last());
        lemma_announcing(session.announced_all(events.drop_last()), events.last());
    }
}

proof fn lemma_observing(
    session: SessionView,
    verdict: Option<crate::rules::eval::VerdictView>,
    replaced: bool,
    pid: Option<Pid>,
    exited: bool,
    now: Nanos,
)
    requires
        queue_is_whole(session),
    ensures
        queue_is_whole(session.observed(verdict, replaced, pid, exited, now)),
        silent(session) ==> silent(session.observed(verdict, replaced, pid, exited, now)),
{
    let (machine, events) = session.machine.observed(
        verdict,
        session.active,
        replaced,
        pid,
        exited,
        now,
    );
    lemma_announcing_all(SessionView { machine, ..session }, events);
}

/// Whatever happens in a session, only whole control strings wait to be written to the terminal; and
/// where nothing is to be added, nothing waits.
pub proof fn queues_stay_whole(
    session: SessionView,
    chunk: Seq<u8>,
    detected: Option<(Seq<char>, Pid)>,
    shell: bool,
    now: Nanos,
)
    requires
        queue_is_whole(session),
    ensures
        queue_is_whole(session.after_output(chunk, now)),
        queue_is_whole(session.after_silence(now)),
        queue_is_whole(session.after_listing(detected, shell, now)),
        queue_is_whole(session.after_tick(now)),
        queue_is_whole(session.drained()),
        silent(session) ==> silent(session.after_output(chunk, now)),
        silent(session) ==> silent(session.after_silence(now)),
        silent(session) ==> silent(session.after_listing(detected, shell, now)),
        silent(session) ==> silent(session.after_tick(now)),
{
    let shown = session.shown(chunk);
    let marked = SessionView { last_title: shown.screen.heard.title, ..shown };
    lemma_retitling(marked, shown.machine.current, shown.active);
    lemma_judging(shown.titled(), now);
    lemma_observing(session, session.verdict(), false, session.child, false, now);
    let (machine, events) = session.machine.ticked(now);
    lemma_announcing_all(SessionView { machine, ..session }, events);
    lemma_listing(session, detected, shell, now);
}

proof fn lemma_judging(session: SessionView, now: Nanos)
    requires
        queue_is_whole(session),
    ensures
        queue_is_whole(session.judged(now)),
        silent(session) ==> silent(session.judged(now)),
{
    let waiting = if session.active is None {
        SessionView {
            schedule: crate::platform::probe::ScheduleView {
                next: now,
                acquisition: Some(now),
                ..session.schedule
            },
            ..session
        }
    } else {
        session
    };
    let told = match waiting.verdict() {
        Some(value) => waiting.noted(NoteView::Verdict(value.state, value.rule)),
        None => waiting,
    };
    lemma_observing(told, waiting.verdict(), false, session.child, false, now);
}

proof fn lemma_listing(
    session: SessionView,
    detected: Option<(Seq<char>, Pid)>,
    shell: bool,
    now: Nanos,
)
    requires
        queue_is_whole(session),
    ensures
        queue_is_whole(session.after_listing(detected, shell, now)),
        silent(session) ==> silent(session.after_listing(detected, shell, now)),
{
    let (loss, detection) = session.loss.updated(detected, shell);
    let noted = SessionView { loss, ..session };
    match detection {
        None => {},
        Some(DetectionView::AgentFound { id, pid }) => {
            let found = noted.with_agent(id);
            let replaced = session.replaced_by(id);
            lemma_observing(found, found.verdict(), replaced, Some(pid), false, now);
        },
        Some(DetectionView::Exited { agent }) => {
            lemma_observing(
                SessionView { active: Some(agent), ..noted },
                None,
                false,
                None,
                true,
                now,
            );
        },
        Some(DetectionView::AgentLost) => {
            lemma_observing(
                SessionView { active: None, ..noted },
                None,
                false,
                None,
                false,
                now,
            );
        },
    }
}

/// What a session adds to the stream of its child stands between the child's own sequences, and
/// leaves the stream there: the child's sequences are never split, and the terminal reads the rest
/// of its stream as if nothing had been added.
pub proof fn insertions_leave_the_stream_alone(session: SessionView, index: int)
    requires
        queue_is_whole(session),
        0 <= index < session.writable().len(),
    ensures
        session.screen.boundary is Ground,
        followed(session.screen.boundary, session.writable()[index]) == session.screen.boundary,
{
    assert(session.writable() == session.queued);
    terminators_lead_to_the_ground(session.screen.boundary, session.queued[index]);
}

/// While the stream of the child is inside a sequence, nothing is written, and nothing is lost.
pub proof fn sequences_are_not_interrupted(session: SessionView)
    requires
        !(session.screen.boundary is Ground),
    ensures
        session.writable().len() == 0,
        session.drained() == session,
{
}

/// Something that happens in a session.
pub enum Turn {
    Output { chunk: Seq<u8>, now: Nanos },
    Silence { now: Nanos },
    Look { pgid: Option<Pid>, now: Nanos },
    Listing { detected: Option<(Seq<char>, Pid)>, shell: bool, now: Nanos },
    Tick { now: Nanos },
    Resize { rows: u16, cols: u16 },
    /// What may be written to the terminal is taken.
    Drain,
}

/// The session after something has happened.
#[verifier::opaque]
pub open spec fn after_turn(session: SessionView, turn: Turn) -> SessionView {
    match turn {
        Turn::Output { chunk, now } => session.after_output(chunk, now),
        Turn::Silence { now } => session.after_silence(now),
        Turn::Look { pgid, now } => session.after_look(pgid, now),
        Turn::Listing { detected, shell, now } => session.after_listing(detected, shell, now),
        Turn::Tick { now } => session.after_tick(now),
        Turn::Resize { rows, cols } => SessionView {
            screen: session.screen.resized(rows, cols),
            ..session
        },
        Turn::Drain => session.drained(),
    }
}

/// The session after all that has happened.
pub open spec fn after_turns(session: SessionView, turns: Seq<Turn>) -> SessionView
    decreases turns.len(),
{
    if turns.len() == 0 {
        session
    } else {
        after_turn(after_turns(session, turns.drop_last()), turns.last())
    }
}

/// The byte strings one after the other.
pub open spec fn strung(parts: Seq<Seq<u8>>) -> Seq<u8>
    decreases parts.len(),
{
    if parts.len() == 0 {
        Seq::empty()
    } else {
        strung(parts.drop_last()) + parts.last()
    }
}

/// What the child has written.
pub open spec fn child_stream(turns: Seq<Turn>) -> Seq<u8>
    decreases turns.len(),
{
    if turns.len() == 0 {
        Seq::empty()
    } else {
        let before = child_stream(turns.drop_last());
        match turns.last() {
            Turn::Output { chunk, .. } => before + chunk,
            _ => before,
        }
    }
}

/// What reaches the terminal: every chunk of the child as it comes, and what the session adds when
/// it is drained.
pub open spec fn terminal_stream(session: SessionView, turns: Seq<Turn>) -> Seq<u8>
    decreases turns.len(),
{
    if turns.len() == 0 {
        Seq::empty()
    } else {
        let before = terminal_stream(session, turns.drop_last());
        match turns.last() {
            Turn::Output { chunk, .. } => before + chunk,
            Turn::Drain => before + strung(after_turns(session, turns.drop_last()).writable()),
            _ => before,
        }
    }
}

proof fn lemma_turn(session: SessionView, turn: Turn)
    requires
        queue_is_whole(session),
    ensures
        queue_is_whole(after_turn(session, turn)),
        after_turn(session, turn).screen.boundary == match turn {
            Turn::Output { chunk, .. } => followed(session.screen.boundary, chunk),
            _ => session.screen.boundary,
        },
        silent(session) ==> silent(after_turn(session, turn)),
{
    reveal(after_turn);
    match turn {
        Turn::Output { chunk, now } => {
            queues_stay_whole(session, chunk, None, false, now);
            session.shown(chunk).titled().judging_keeps_the_screen(now);
        },
        Turn::Silence { now } => {
            queues_stay_whole(session, Seq::empty(), None, false, now);
            lemma_observing_keeps_the_screen(
                session,
                session.verdict(),
                false,
                session.child,
                false,
                now,
            );
        },
        Turn::Listing { detected, shell, now } => {
            queues_stay_whole(session, Seq::empty(), detected, shell, now);
            lemma_listing_keeps_the_boundary(session, detected, shell, now);
        },
        Turn::Tick { now } => {
            queues_stay_whole(session, Seq::empty(), None, false, now);
            let (machine, events) = session.machine.ticked(now);
            SessionView { machine, ..session }.announcing_keeps_the_rest(events);
        },
        _ => {},
    }
}

proof fn lemma_observing_keeps_the_screen(
    session: SessionView,
    verdict: Option<crate::rules::eval::VerdictView>,
    replaced: bool,
    pid: Option<Pid>,
    exited: bool,
    now: Nanos,
)
    ensures
        session.observed(verdict, replaced, pid, exited, now).screen == session.screen,
{
    let (machine, events) = session.machine.observed(
        verdict,
        session.active,
        replaced,
        pid,
        exited,
        now,
    );
    SessionView { machine, ..session }.announcing_keeps_the_rest(events);
}

proof fn lemma_listing_keeps_the_boundary(
    session: SessionView,
    detected: Option<(Seq<char>, Pid)>,
    shell: bool,
    now: Nanos,
)
    ensures
        session.after_listing(detected, shell, now).screen.boundary == session.screen.boundary,
{
    let (loss, detection) = session.loss.updated(detected, shell);
    let noted = SessionView { loss, ..session };
    match detection {
        None => {},
        Some(DetectionView::AgentFound { id, pid }) => {
            let found = noted.with_agent(id);
            let replaced = session.replaced_by(id);
            lemma_observing_keeps_the_screen(
                found,
                found.verdict(),
                replaced,
                Some(pid),
                false,
                now,
            );
        },
        Some(DetectionView::Exited { agent }) => {
            lemma_observing_keeps_the_screen(
                SessionView { active: Some(agent), ..noted },
                None,
                false,
                None,
                true,
                now,
            );
        },
        Some(DetectionView::AgentLost) => {
            lemma_observing_keeps_the_screen(
                SessionView { active: None, ..noted },
                None,
                false,
                None,
                false,
                now,
            );
        },
    }
}

proof fn lemma_strings_keep_the_ground(parts: Seq<Seq<u8>>)
    requires
        forall|index: int| 0 <= index < parts.len() ==> terminated(#[trigger] parts[index]),
    ensures
        followed(Sequence::Ground, strung(parts)) is Ground,
    decreases parts.len(),
{
    if parts.len() > 0 {
        let before = parts.drop_last();
        assert forall|index: int| 0 <= index < before.len() implies terminated(
            #[trigger] before[index],
        ) by {
            assert(before[index] == parts[index]);
        }
        lemma_strings_keep_the_ground(before);
        stretches_compose(Sequence::Ground, strung(before), parts.last());
        terminators_lead_to_the_ground(
            followed(Sequence::Ground, strung(before)),
            parts[parts.len() - 1],
        );
    }
}

/// Passing on is the invariant. However a session goes, at every moment the terminal is in the same
/// place as if the child alone had written to it, and the session knows that place; what is added
/// is added only where the child is between its sequences.
pub proof fn the_stream_is_passed_on(session: SessionView, turns: Seq<Turn>)
    requires
        queue_is_whole(session),
        session.screen.boundary is Ground,
    ensures
        queue_is_whole(after_turns(session, turns)),
        after_turns(session, turns).screen.boundary == followed(
            Sequence::Ground,
            child_stream(turns),
        ),
        followed(Sequence::Ground, terminal_stream(session, turns)) == followed(
            Sequence::Ground,
            child_stream(turns),
        ),
        after_turns(session, turns).writable().len() > 0 ==> followed(
            Sequence::Ground,
            child_stream(turns),
        ) is Ground,
    decreases turns.len(),
{
    if turns.len() > 0 {
        let earlier = turns.drop_last();
        let before = after_turns(session, earlier);
        the_stream_is_passed_on(session, earlier);
        lemma_turn(before, turns.last());
        match turns.last() {
            Turn::Output { chunk, .. } => {
                stretches_compose(Sequence::Ground, child_stream(earlier), chunk);
                stretches_compose(Sequence::Ground, terminal_stream(session, earlier), chunk);
            },
            Turn::Drain => {
                let added = before.writable();
                stretches_compose(
                    Sequence::Ground,
                    terminal_stream(session, earlier),
                    strung(added),
                );
                if before.screen.boundary is Ground {
                    lemma_strings_keep_the_ground(added);
                } else {
                    assert(strung(added) =~= Seq::empty());
                }
            },
            _ => {},
        }
    }
}

/// Without reports and with titles left alone, the terminal gets what the child has written, byte
/// for byte.
pub proof fn silent_sessions_add_nothing(session: SessionView, turns: Seq<Turn>)
    requires
        silent(session),
        queue_is_whole(session),
    ensures
        terminal_stream(session, turns) == child_stream(turns),
        silent(after_turns(session, turns)),
        queue_is_whole(after_turns(session, turns)),
    decreases turns.len(),
{
    if turns.len() > 0 {
        let earlier = turns.drop_last();
        silent_sessions_add_nothing(session, earlier);
        lemma_turn(after_turns(session, earlier), turns.last());
        assert(strung(after_turns(session, earlier).writable()) =~= Seq::empty());
        assert(terminal_stream(session, turns) =~= child_stream(turns));
    }
}

/// Only changes reach the terminal: an agent that comes or goes and a heartbeat are recorded, and
/// nothing else.
pub proof fn only_changes_reach_the_terminal(session: SessionView, event: EventView)
    requires
        !(event is Changed),
    ensures
        session.announced(event).queued == session.queued,
        session.announced(event).titles == session.titles,
{
}

/// A change reaches the terminal once: as one report, unless reports are switched off, and as one
/// title, unless titles are left alone.
pub proof fn changes_reach_the_terminal_once(
    session: SessionView,
    state: State,
    previous: State,
    agent: Option<Seq<char>>,
    seq: u64,
    visible: crate::osc::Flags,
    exited: bool,
)
    requires
        (state is NoAgent) == (agent is None),
    ensures
        ({
            let event = EventView::Changed { state, previous, agent, seq, visible, exited };
            let report = ReportView { state, agent, seq, visible, exited, message: None };
            let shown = session.titles.observed(session.screen.heard.title, state, agent).1;
            session.announced(event).queued == session.queued + (if session.no_osc {
                Seq::empty()
            } else {
                seq![formatted(report)]
            }) + (match shown {
                Some(bytes) => seq![bytes],
                None => Seq::empty(),
            })
        }),
{
    let event = EventView::Changed { state, previous, agent, seq, visible, exited };
    let report = ReportView { state, agent, seq, visible, exited, message: None };
    let shown = session.titles.observed(session.screen.heard.title, state, agent).1;
    let first = session.queued + (if session.no_osc {
        Seq::empty()
    } else {
        seq![formatted(report)]
    });
    assert(report.consistent());
    assert(session.announced(event).queued =~= first + (match shown {
        Some(bytes) => seq![bytes],
        None => Seq::empty(),
    }));
}

/// Without a sink nothing is recorded.
pub proof fn nothing_is_recorded_without_a_sink(session: SessionView, events: Seq<EventView>)
    requires
        !session.recording,
    ensures
        session.announced_all(events).records == session.records,
    decreases events.len(),
{
    if events.len() > 0 {
        nothing_is_recorded_without_a_sink(session, events.drop_last());
        session.announcing_keeps_the_rest(events.drop_last());
    }
}

/// An agent that was given is not looked for.
pub proof fn given_agents_are_not_looked_for(session: SessionView, now: Nanos)
    requires
        session.forced is Some,
    ensures
        !session.look_due(now),
{
}

} // verus!
