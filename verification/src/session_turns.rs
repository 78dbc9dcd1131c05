//! What each turn of a session makes of the agent, of the title and of what is announced.
use crate::callbacks::HeardView;
use crate::emit::events::{flag_words, state_record, RecordView};
use crate::emit::title::Mode;
use crate::osc::{formatted, no_flags, parsed, valid_agent, Flags, ReportView, State};
use crate::osc_laws::report_round_trip;
use crate::platform::probe::{DetectionView, LossView, ScheduleView};
use crate::platform::Pid;
use crate::pty::Options;
use crate::rules::eval::{verdict_of, Picture, VerdictView};
use crate::rules::ident::{first_with_id, last_part};
use crate::rules::schema::RuleSet;
use crate::screen::ScreenModel;
use crate::session::{command_agent, command_set, new_session, NoteView, SessionView};
use crate::session_laws::{after_turn, Turn};
use crate::state::{EventView, MachineView, Nanos};
use crate::text::{lemma_split_after_separator, lemma_split_plain, split, texts};
use vstd::prelude::*;
use vstd::utf8::encode_utf8;

verus! {

/// Two sessions that differ only in the title and the progress that their children have set, and in
/// what was made of those.
pub open spec fn same_but_told(session: SessionView, other: SessionView) -> bool {
    other == (SessionView {
        screen: ScreenModel {
            heard: HeardView {
                title: other.screen.heard.title,
                progress: other.screen.heard.progress,
                event: other.screen.heard.event,
                ..session.screen.heard
            },
            changed: other.screen.changed,
            ..session.screen
        },
        last_title: other.last_title,
        ..session
    })
}

/// The listing finds an agent: another than was known, another process of it, or one that had
/// exited.
pub open spec fn finds(loss: LossView, id: Seq<char>, pid: Pid) -> bool {
    loss.current != Some((id, pid)) || loss.exited
}

/// An agent that a listing finds starts afresh. The title and the progress that were set before it
/// are gone, and nothing about the session depends on them any more: neither the verdict, nor what
/// is announced. What the screen shows stays.
pub proof fn found_agents_start_afresh(
    session: SessionView,
    other: SessionView,
    id: Seq<char>,
    pid: Pid,
    shell: bool,
    now: Nanos,
)
    requires
        finds(session.loss, id, pid),
        same_but_told(session, other),
    ensures
        session.after_listing(Some((id, pid)), shell, now) == other.after_listing(
            Some((id, pid)),
            shell,
            now,
        ),
        ({
            let after = session.after_listing(Some((id, pid)), shell, now);
            &&& after.active == Some(id)
            &&& after.loss.current == Some((id, pid))
            &&& !after.loss.exited
            &&& after.screen.heard.title.len() == 0
            &&& after.screen.heard.progress is None
            &&& after.last_title.len() == 0
            &&& after.screen.changed
            &&& after.screen.lines == session.screen.lines
            &&& after.screen.text == session.screen.text
            &&& after.screen.heard.reports == session.screen.heard.reports
            &&& after.screen.heard.bells == session.screen.heard.bells
            &&& after.screen.boundary == session.screen.boundary
            &&& after.screen.steps == session.screen.steps
            &&& after.schedule == session.schedule
            &&& after.last_pgid == session.last_pgid
        }),
{
    let detected = Some((id, pid));
    let (loss, detection) = session.loss.updated(detected, shell);
    let found = SessionView { loss, ..session }.with_agent(id);
    let others = SessionView { loss, ..other }.with_agent(id);
    assert(found =~= others);
    lemma_observed_rest(
        found,
        found.verdict(),
        session.replaced_by(id),
        Some(pid),
        false,
        now,
    );
}

proof fn lemma_observed_rest(
    session: SessionView,
    verdict: Option<VerdictView>,
    replaced: bool,
    pid: Option<Pid>,
    exited: bool,
    now: Nanos,
)
    ensures
        ({
            let after = session.observed(verdict, replaced, pid, exited, now);
            after == (SessionView {
                machine: session.machine.observed(
                    verdict,
                    session.active,
                    replaced,
                    pid,
                    exited,
                    now,
                ).0,
                titles: after.titles,
                queued: after.queued,
                records: after.records,
                notes: after.notes,
                ..session
            })
        }),
{
    let (machine, events) = session.machine.observed(
        verdict,
        session.active,
        replaced,
        pid,
        exited,
        now,
    );
    SessionView { machine, ..session }.announcing_keeps_the_rest(events);
}

/// An agent that was found is judged at once, by the rules of its set, on the lines that the screen
/// shows, with no title and no progress.
pub proof fn found_agents_are_judged(
    session: SessionView,
    id: Seq<char>,
    pid: Pid,
    shell: bool,
    now: Nanos,
    set: int,
)
    requires
        finds(session.loss, id, pid),
        first_with_id(session.sets, id) == Some(set),
    ensures
        ({
            let picture = Picture {
                lines: session.screen.lines,
                text: session.screen.text,
                title: Seq::empty(),
                progress: None,
            };
            session.after_listing(Some((id, pid)), shell, now).machine == session.machine.observed(
                Some(verdict_of(session.sets[set], picture)),
                Some(id),
                session.loss.current is Some || session.active != Some(id),
                Some(pid),
                false,
                now,
            ).0
        }),
{
    let (loss, detection) = session.loss.updated(Some((id, pid)), shell);
    let found = SessionView { loss, ..session }.with_agent(id);
    lemma_observed_rest(
        found,
        found.verdict(),
        session.replaced_by(id),
        Some(pid),
        false,
        now,
    );
}

/// A listing that shows the agent where it was known to be changes nothing, but that it counts as
/// seen.
pub proof fn known_agents_stay(
    session: SessionView,
    id: Seq<char>,
    pid: Pid,
    shell: bool,
    now: Nanos,
)
    requires
        session.loss.current == Some((id, pid)),
        !session.loss.exited,
    ensures
        session.after_listing(Some((id, pid)), shell, now) == (SessionView {
            loss: LossView { misses: 0, ..session.loss },
            ..session
        }),
{
}

/// Whatever is on the screen, a known agent whose shell is back in the foreground is published as
/// idle and exited, and at the next listing without it, as gone.
pub proof fn exits_are_published(
    session: SessionView,
    id: Seq<char>,
    pid: Pid,
    now: Nanos,
    shell: bool,
    later: Nanos,
)
    requires
        session.loss.current == Some((id, pid)),
        !session.loss.exited,
    ensures
        ({
            let exited = session.after_listing(None, true, now);
            let gone = exited.after_listing(None, shell, later);
            &&& exited.active == Some(id)
            &&& exited.machine.current is Idle
            &&& exited.machine.visible == no_flags()
            &&& exited.machine.agent == Some(id)
            &&& exited.loss.exited
            &&& !session.no_osc ==> exited.queued.contains(
                formatted(
                    ReportView {
                        state: State::Idle,
                        agent: Some(id),
                        seq: exited.machine.seq,
                        visible: no_flags(),
                        exited: true,
                        message: None,
                    },
                ),
            )
            &&& gone.active is None
            &&& gone.machine.current is NoAgent
            &&& gone.machine.agent is None
            &&& gone.loss.current is None
        }),
{
    let (loss, detection) = session.loss.updated(None, true);
    let before = SessionView { active: Some(id), loss, ..session };
    lemma_observed_rest(before, None, false, None, true, now);
    let exited = session.after_listing(None, true, now);
    let (machine, events) = before.machine.observed(None, before.active, false, None, true, now);
    let noted = before.machine.after_agent(Some(id), false, now);
    assert(events == before.machine.agent_events(Some(id), false, None) + noted.judged(
        None,
        true,
        now,
    ).1);
    assert(events.last() == noted.publication(State::Idle, no_flags(), true));
    if !session.no_osc {
        lemma_change_is_queued(SessionView { machine, ..before }, events);
    }
    let (lost, second) = exited.loss.updated(None, shell);
    let without = SessionView { active: None, loss: lost, ..exited };
    lemma_observed_rest(without, None, false, None, false, later);
}

proof fn lemma_change_is_queued(session: SessionView, events: Seq<EventView>)
    requires
        events.len() > 0,
        events.last() is Changed,
        !session.no_osc,
    ensures
        events.last() matches EventView::Changed { state, agent, seq, visible, exited, .. } && ((
        state is NoAgent) == (agent is None) ==> session.announced_all(events).queued.contains(
            formatted(ReportView { state, agent, seq, visible, exited, message: None }),
        )),
{
    let before = session.announced_all(events.drop_last());
    session.announcing_keeps_the_rest(events.drop_last());
    match events.last() {
        EventView::Changed { state, previous, agent, seq, visible, exited } => {
            let report = ReportView { state, agent, seq, visible, exited, message: None };
            if report.consistent() {
                let noted = before.noted(NoteView::Event(events.last()));
                let reported = noted.reported(report);
                assert(reported.queued.last() == formatted(report));
                let after = before.announced(events.last());
                assert(after.queued[reported.queued.len() - 1] == formatted(report));
            }
        },
        _ => {},
    }
}

/// A title that a state marks: its sign and a space before the label, and the label alone where
/// there is no agent.
pub open spec fn marked(state: State, label: Seq<char>) -> Seq<char> {
    match state {
        State::Working => "● "@ + label,
        State::Blocked => "◐ "@ + label,
        State::Idle => "○ "@ + label,
        State::NoAgent => label,
    }
}

/// What the title is made of in a mode: the child's own title, or the agent.
pub open spec fn label_of(mode: Mode, title: Seq<char>, agent: Option<Seq<char>>) -> Seq<char> {
    match (mode, agent) {
        (Mode::Replace, Some(id)) => id,
        (Mode::Replace, None) => Seq::empty(),
        _ => title,
    }
}

/// The bytes set the title to the text: `ESC ] 2 ;`, the text, `ESC \`.
pub open spec fn sets_title(bytes: Seq<u8>, text: Seq<char>) -> bool {
    bytes == seq![0x1bu8, 0x5d, 0x32, 0x3b] + encode_utf8(text) + seq![0x1bu8, 0x5c]
}

/// The bytes set some title.
pub open spec fn is_title(bytes: Seq<u8>) -> bool {
    bytes.len() >= 4 && bytes[0] == 0x1b && bytes[1] == 0x5d && bytes[2] == 0x32 && bytes[3] == 0x3b
}

pub(crate) proof fn lemma_marks(state: State, label: Seq<char>)
    ensures
        crate::emit::title::labelled(state, label) == marked(state, label),
{
    reveal_strlit(" ");
    reveal_strlit("●");
    reveal_strlit("◐");
    reveal_strlit("○");
    reveal_strlit("● ");
    reveal_strlit("◐ ");
    reveal_strlit("○ ");
    assert("●"@ + " "@ =~= "● "@);
    assert("◐"@ + " "@ =~= "◐ "@);
    assert("○"@ + " "@ =~= "○ "@);
    assert(crate::emit::title::labelled(state, label) =~= marked(state, label));
}

/// A title that is shown is queued last, is made of the label of its mode, and carries the sign of
/// the state; where titles are left alone nothing is queued.
proof fn lemma_retitled(session: SessionView, state: State, agent: Option<Seq<char>>)
    ensures
        session.titles.mode is Never ==> session.retitled(state, agent).queued == session.queued,
        session.titles.mode !is Never ==> {
            let after = session.retitled(state, agent);
            &&& after.queued.len() == session.queued.len() + 1
            &&& after.queued.drop_last() == session.queued
            &&& sets_title(
                after.queued.last(),
                marked(state, label_of(session.titles.mode, session.screen.heard.title, agent)),
            )
        },
        session.retitled(state, agent).titles.mode == session.titles.mode,
{
    let title = session.screen.heard.title;
    lemma_marks(state, label_of(session.titles.mode, title, agent));
    let after = session.retitled(state, agent);
    if session.titles.mode !is Never {
        assert(after.queued.drop_last() =~= session.queued);
    }
}

/// A new title of the child is shown at once with the sign of the published state: before the
/// child's own title, or in its place with the active agent, as the mode says. Where titles are
/// left alone nothing is written; and a title that is not new makes nothing.
pub proof fn new_titles_are_shown(session: SessionView)
    ensures
        session.screen.heard.title == session.last_title ==> session.titled() == session,
        session.screen.heard.title != session.last_title && session.titles.mode is Never
            ==> session.titled().queued == session.queued,
        session.screen.heard.title != session.last_title && session.titles.mode !is Never ==> {
            let after = session.titled();
            &&& after.queued.len() == session.queued.len() + 1
            &&& after.queued.drop_last() == session.queued
            &&& sets_title(
                after.queued.last(),
                marked(
                    session.machine.current,
                    label_of(session.titles.mode, session.screen.heard.title, session.active),
                ),
            )
        },
        session.titled().last_title == session.screen.heard.title,
{
    let noted = SessionView { last_title: session.screen.heard.title, ..session };
    lemma_retitled(noted, session.machine.current, session.active);
}

/// The machine of a session knows no other agent than the session does.
pub open spec fn linked(session: SessionView) -> bool {
    &&& session.machine.consistent()
    &&& session.machine.agent is Some ==> session.machine.agent == session.active
}

/// Every title among the items behind the first so many is that of some state, with the given
/// label.
#[verifier::opaque]
pub open spec fn labelled_alike(items: Seq<Seq<u8>>, since: nat, label: Seq<char>) -> bool {
    forall|index: int|
        since <= index < items.len() && is_title(#[trigger] items[index]) ==> exists|state: State|
            #[trigger]
            sets_title(items[index], marked(state, label))
}

/// What the titles of a session are made of: the child's title or the active agent, as the mode
/// says.
pub open spec fn session_label(session: SessionView) -> Seq<char> {
    label_of(session.titles.mode, session.screen.heard.title, session.active)
}

proof fn lemma_nothing_behind(items: Seq<Seq<u8>>, label: Seq<char>)
    ensures
        labelled_alike(items, items.len(), label),
{
    reveal(labelled_alike);
}

proof fn lemma_one_more_item(
    items: Seq<Seq<u8>>,
    since: nat,
    label: Seq<char>,
    item: Seq<u8>,
    state: State,
)
    requires
        since <= items.len(),
        labelled_alike(items, since, label),
        is_title(item) ==> sets_title(item, marked(state, label)),
    ensures
        labelled_alike(items.push(item), since, label),
{
    reveal(labelled_alike);
    let longer = items.push(item);
    assert forall|index: int|
        since <= index < longer.len() && is_title(#[trigger] longer[index]) implies exists|
        sign: State,
    |
        #[trigger]
        sets_title(longer[index], marked(sign, label)) by {
        if index < items.len() {
            assert(longer[index] == items[index]);
        } else {
            assert(sets_title(longer[index], marked(state, label)));
        }
    }
}

/// The events speak of the active agent.
spec fn about(agent: Option<Seq<char>>, events: Seq<EventView>) -> bool {
    forall|index: int|
        0 <= index < events.len() ==> (#[trigger] events[index] matches EventView::Changed {
            agent: named,
            ..
        } ==> named == agent)
}

proof fn lemma_reports_are_no_titles(report: ReportView)
    ensures
        !is_title(formatted(report)),
{
    crate::osc_laws::reports_start_with_the_code(report);
    assert(formatted(report)[2] == formatted(report).take(7)[2]);
}

/// What a change adds to the queue: nothing, a report, a title, or both.
proof fn lemma_announced_titles(session: SessionView, event: EventView, since: nat)
    requires
        since <= session.queued.len(),
        labelled_alike(session.queued, since, session_label(session)),
        event matches EventView::Changed { agent, .. } ==> agent == session.active,
    ensures
        session.queued.is_prefix_of(session.announced(event).queued),
        labelled_alike(session.announced(event).queued, since, session_label(session)),
        session.announced(event).titles.mode == session.titles.mode,
{
    let label = session_label(session);
    let after = session.announced(event);
    let noted = session.noted(NoteView::Event(event));
    match event {
        EventView::Changed { state, previous, agent, seq, visible, exited } => {
            let report = ReportView { state, agent, seq, visible, exited, message: None };
            let reported = noted.reported(report);
            lemma_reports_are_no_titles(report);
            lemma_retitled(reported, state, agent);
            if report.consistent() {
                if !session.no_osc {
                    lemma_one_more_item(session.queued, since, label, formatted(report), state);
                }
                assert(labelled_alike(reported.queued, since, label));
                let titled = reported.retitled(state, agent);
                if session.titles.mode !is Never {
                    lemma_one_more_item(
                        reported.queued,
                        since,
                        label,
                        titled.queued.last(),
                        state,
                    );
                    assert(titled.queued =~= reported.queued.push(titled.queued.last()));
                }
                assert(after.queued == titled.queued);
            }
        },
        _ => {},
    }
    assert(session.queued =~= after.queued.subrange(0, session.queued.len() as int));
}

proof fn lemma_announced_all_titles(session: SessionView, events: Seq<EventView>, since: nat)
    requires
        since <= session.queued.len(),
        labelled_alike(session.queued, since, session_label(session)),
        about(session.active, events),
    ensures
        session.queued.is_prefix_of(session.announced_all(events).queued),
        labelled_alike(session.announced_all(events).queued, since, session_label(session)),
        session.announced_all(events).titles.mode == session.titles.mode,
    decreases events.len(),
{
    if events.len() > 0 {
        let earlier = events.drop_last();
        let before = session.announced_all(earlier);
        assert(about(session.active, earlier)) by {
            assert forall|index: int| 0 <= index < earlier.len() implies (
            #[trigger] earlier[index] matches EventView::Changed { agent, .. } ==> agent
                == session.active) by {
                assert(earlier[index] == events[index]);
            }
        }
        lemma_announced_all_titles(session, earlier, since);
        session.announcing_keeps_the_rest(earlier);
        assert(events.last() == events[events.len() - 1]);
        lemma_announced_titles(before, events.last(), since);
        let queued = session.announced_all(events).queued;
        assert(session.queued =~= queued.subrange(0, session.queued.len() as int));
    } else {
        assert(session.queued =~= session.queued.subrange(0, session.queued.len() as int));
    }
}

proof fn lemma_events_are_about_the_agent(
    machine: MachineView,
    verdict: Option<VerdictView>,
    agent: Option<Seq<char>>,
    replaced: bool,
    pid: Option<Pid>,
    exited: bool,
    now: Nanos,
)
    ensures
        about(agent, machine.observed(verdict, agent, replaced, pid, exited, now).1),
        machine.observed(verdict, agent, replaced, pid, exited, now).0.agent == agent,
{
    let events = machine.observed(verdict, agent, replaced, pid, exited, now).1;
    let noted = machine.after_agent(agent, replaced, now);
    let found = machine.agent_events(agent, replaced, pid);
    let said = noted.judged(verdict, exited, now).1;
    assert(events == found + said);
    assert(said.len() <= 1);
    assert(said.len() == 1 ==> (said[0] matches EventView::Changed { agent: named, .. } && named
        == agent));
    assert forall|index: int| 0 <= index < events.len() implies (
    #[trigger] events[index] matches EventView::Changed { agent: named, .. } ==> named == agent) by {
        if index < found.len() {
            assert(events[index] == found[index]);
        } else {
            assert(events[index] == said[index - found.len()]);
        }
    }
}

proof fn lemma_observed_titles(
    session: SessionView,
    verdict: Option<VerdictView>,
    replaced: bool,
    pid: Option<Pid>,
    exited: bool,
    now: Nanos,
    since: nat,
)
    requires
        since <= session.queued.len(),
        labelled_alike(session.queued, since, session_label(session)),
        session.machine.consistent(),
    ensures
        ({
            let after = session.observed(verdict, replaced, pid, exited, now);
            &&& session.queued.is_prefix_of(after.queued)
            &&& labelled_alike(after.queued, since, session_label(session))
            &&& linked(after)
            &&& after.titles.mode == session.titles.mode
            &&& after.active == session.active
            &&& after.screen == session.screen
        }),
{
    let (machine, events) = session.machine.observed(
        verdict,
        session.active,
        replaced,
        pid,
        exited,
        now,
    );
    lemma_events_are_about_the_agent(
        session.machine,
        verdict,
        session.active,
        replaced,
        pid,
        exited,
        now,
    );
    lemma_announced_all_titles(SessionView { machine, ..session }, events, since);
    crate::state_laws::observation_keeps_consistency(
        session.machine,
        verdict,
        session.active,
        replaced,
        pid,
        exited,
        now,
    );
    lemma_observed_rest(session, verdict, replaced, pid, exited, now);
}

/// Whatever happens in a session, every title that it writes carries the active agent where titles
/// are replaced, and the child's own title where they are prefixed, each behind the sign of a
/// state.
pub proof fn titles_name_the_agent(session: SessionView, turn: Turn)
    requires
        linked(session),
        !(turn is Drain),
    ensures
        linked(after_turn(session, turn)),
        after_turn(session, turn).titles.mode == session.titles.mode,
        session.queued.is_prefix_of(after_turn(session, turn).queued),
        labelled_alike(
            after_turn(session, turn).queued,
            session.queued.len(),
            session_label(after_turn(session, turn)),
        ),
{
    reveal(after_turn);
    let since = session.queued.len();
    assert(session.queued =~= session.queued.subrange(0, since as int));
    lemma_nothing_behind(session.queued, session_label(session));
    match turn {
        Turn::Output { chunk, now } => {
            lemma_shown_titles(session, chunk, now);
        },
        Turn::Silence { now } => {
            lemma_observed_titles(
                session,
                session.verdict(),
                false,
                session.child,
                false,
                now,
                since,
            );
        },
        Turn::Listing { detected, shell, now } => {
            lemma_listed_titles(session, detected, shell, now);
        },
        Turn::Tick { now } => {
            lemma_ticked_titles(session, now);
        },
        _ => {},
    }
}

proof fn lemma_ticked_titles(session: SessionView, now: Nanos)
    requires
        linked(session),
    ensures
        ({
            let after = session.after_tick(now);
            &&& session.queued.is_prefix_of(after.queued)
            &&& labelled_alike(after.queued, session.queued.len(), session_label(after))
            &&& linked(after)
            &&& after.titles.mode == session.titles.mode
        }),
{
    let since = session.queued.len();
    let (machine, events) = session.machine.ticked(now);
    let holder = SessionView { machine, ..session };
    lemma_nothing_behind(session.queued, session_label(session));
    assert(events.len() <= 1);
    assert(events.len() == 1 && events[0] is Changed ==> session.machine.hold is Some);
    assert(about(session.active, events));
    lemma_announced_all_titles(holder, events, since);
    holder.announcing_keeps_the_rest(events);
    crate::state_laws::tick_keeps_consistency(session.machine, now);
}

proof fn lemma_shown_titles(session: SessionView, chunk: Seq<u8>, now: Nanos)
    requires
        linked(session),
    ensures
        ({
            let after = session.after_output(chunk, now);
            &&& session.queued.is_prefix_of(after.queued)
            &&& labelled_alike(after.queued, session.queued.len(), session_label(after))
            &&& linked(after)
            &&& after.titles.mode == session.titles.mode
        }),
{
    let since = session.queued.len();
    let shown = session.shown(chunk);
    let titled = shown.titled();
    let label = session_label(shown);
    let noted = SessionView { last_title: shown.screen.heard.title, ..shown };
    lemma_nothing_behind(session.queued, label);
    lemma_retitled(noted, shown.machine.current, shown.active);
    if shown.screen.heard.title != shown.last_title && shown.titles.mode !is Never {
        lemma_one_more_item(
            session.queued,
            since,
            label,
            titled.queued.last(),
            shown.machine.current,
        );
        assert(titled.queued =~= session.queued.push(titled.queued.last()));
    }
    assert(labelled_alike(titled.queued, since, label));
    assert(session.queued =~= titled.queued.subrange(0, since as int));
    lemma_judged_titles(titled, now, since);
    let queued = titled.judged(now).queued;
    assert(session.queued =~= queued.subrange(0, since as int));
}

proof fn lemma_judged_titles(session: SessionView, now: Nanos, since: nat)
    requires
        since <= session.queued.len(),
        labelled_alike(session.queued, since, session_label(session)),
        linked(session),
    ensures
        session.queued.is_prefix_of(session.judged(now).queued),
        labelled_alike(session.judged(now).queued, since, session_label(session.judged(now))),
        linked(session.judged(now)),
        session.judged(now).titles.mode == session.titles.mode,
{
    assert(session.queued =~= session.queued.subrange(0, session.queued.len() as int));
    if session.screen.changed {
        let waiting = if session.active is None {
            SessionView {
                schedule: ScheduleView { next: now, acquisition: Some(now), ..session.schedule },
                ..session
            }
        } else {
            session
        };
        let told = match waiting.verdict() {
            Some(value) => waiting.noted(NoteView::Verdict(value.state, value.rule)),
            None => waiting,
        };
        lemma_observed_titles(told, waiting.verdict(), false, session.child, false, now, since);
    }
}

proof fn lemma_listed_titles(
    session: SessionView,
    detected: Option<(Seq<char>, Pid)>,
    shell: bool,
    now: Nanos,
)
    requires
        linked(session),
        labelled_alike(session.queued, session.queued.len(), session_label(session)),
    ensures
        ({
            let after = session.after_listing(detected, shell, now);
            &&& session.queued.is_prefix_of(after.queued)
            &&& labelled_alike(after.queued, session.queued.len(), session_label(after))
            &&& linked(after)
            &&& after.titles.mode == session.titles.mode
        }),
{
    let since = session.queued.len();
    assert(session.queued =~= session.queued.subrange(0, since as int));
    let (loss, detection) = session.loss.updated(detected, shell);
    let noted = SessionView { loss, ..session };
    match detection {
        None => {},
        Some(DetectionView::AgentFound { id, pid }) => {
            let found = noted.with_agent(id);
            lemma_nothing_behind(session.queued, session_label(found));
            lemma_observed_titles(
                found,
                found.verdict(),
                session.replaced_by(id),
                Some(pid),
                false,
                now,
                since,
            );
        },
        Some(DetectionView::Exited { agent }) => {
            let before = SessionView { active: Some(agent), ..noted };
            lemma_nothing_behind(session.queued, session_label(before));
            lemma_observed_titles(before, None, false, None, true, now, since);
        },
        Some(DetectionView::AgentLost) => {
            let before = SessionView { active: None, ..noted };
            lemma_nothing_behind(session.queued, session_label(before));
            lemma_observed_titles(before, None, false, None, false, now, since);
        },
    }
}

/// Output that changes what the rules could read is judged by the rules of the active agent, on what
/// the screen then shows, and on the title and the progress that were set last. Output that changes
/// nothing of it leaves the machine alone.
pub proof fn output_is_judged(
    session: SessionView,
    chunk: Seq<u8>,
    now: Nanos,
    id: Seq<char>,
    set: int,
)
    requires
        session.active == Some(id),
        first_with_id(session.sets, id) == Some(set),
    ensures
        ({
            let screen = session.screen.processed(chunk);
            let picture = Picture {
                lines: screen.lines,
                text: screen.text,
                title: screen.heard.title,
                progress: screen.heard.progress,
            };
            session.after_output(chunk, now).machine == if screen.changed {
                session.machine.observed(
                    Some(verdict_of(session.sets[set], picture)),
                    Some(id),
                    false,
                    session.child,
                    false,
                    now,
                ).0
            } else {
                session.machine
            }
        }),
{
    let titled = session.shown(chunk).titled();
    let told = match titled.verdict() {
        Some(value) => titled.noted(NoteView::Verdict(value.state, value.rule)),
        None => titled,
    };
    lemma_observed_rest(told, titled.verdict(), false, session.child, false, now);
}

/// Output on a screen without an agent calls for a look at the foreground job at once.
pub proof fn output_calls_for_a_look(session: SessionView, chunk: Seq<u8>, now: Nanos)
    requires
        session.active is None,
        session.screen.processed(chunk).changed,
        session.forced is None,
        session.child is Some,
    ensures
        session.after_output(chunk, now).look_due(now),
        session.after_output(chunk, now).schedule.acquisition == Some(now),
{
    let titled = session.shown(chunk).titled();
    let waiting = SessionView {
        schedule: ScheduleView { next: now, acquisition: Some(now), ..titled.schedule },
        ..titled
    };
    lemma_observed_rest(waiting, None, false, session.child, false, now);
}

/// Silence is judged only while an idle is held back, once it is due, on what the screen shows.
pub proof fn silence_confirms_an_idle(session: SessionView, now: Nanos, id: Seq<char>, set: int)
    requires
        session.active == Some(id),
        first_with_id(session.sets, id) == Some(set),
    ensures
        session.machine.hold is None ==> session.after_silence(now) == session,
        session.machine.hold is Some && now < session.machine.deadline()->0
            ==> session.after_silence(now) == session,
        session.machine.hold is Some && now >= session.machine.deadline()->0 ==> {
            let picture = Picture {
                lines: session.screen.lines,
                text: session.screen.text,
                title: session.screen.heard.title,
                progress: session.screen.heard.progress,
            };
            session.after_silence(now).machine == session.machine.observed(
                Some(verdict_of(session.sets[set], picture)),
                Some(id),
                false,
                session.child,
                false,
                now,
            ).0
        },
{
    lemma_observed_rest(session, session.verdict(), false, session.child, false, now);
}

/// A look at the foreground job remembers its group, and puts the next look off: to a tenth of a
/// second while an idle is held back, else to three tenths with an agent and five without one.
pub proof fn looks_are_spaced(session: SessionView, pgid: Option<Pid>, now: Nanos)
    requires
        now <= u64::MAX - 500_000_000,
        session.child is Some,
        session.forced is None,
    ensures
        ({
            let after = session.after_look(pgid, now);
            let next = now + (if session.machine.hold is Some {
                100_000_000int
            } else if session.active is Some {
                300_000_000
            } else {
                500_000_000
            });
            &&& after.last_pgid == pgid
            &&& forall|at: Nanos| #[trigger] after.look_due(at) <==> at >= next
            &&& after.machine == session.machine
            &&& after.screen == session.screen
            &&& after.queued == session.queued
            &&& session.last_pgid != pgid ==> session.listing_due(pgid, now)
        }),
{
}

/// A change is announced in this order: as a report that reads back as what changed, unless reports
/// are switched off; and as a title with the sign of the new state, unless titles are left alone.
pub proof fn changes_are_announced(
    session: SessionView,
    state: State,
    previous: State,
    agent: Option<Seq<char>>,
    seq: u64,
    visible: Flags,
    exited: bool,
)
    requires
        (state is NoAgent) == (agent is None),
        agent matches Some(id) ==> valid_agent(id),
    ensures
        ({
            let after = session.announced(
                EventView::Changed { state, previous, agent, seq, visible, exited },
            );
            let first = session.queued.len() as int;
            let titled = session.titles.mode !is Never;
            &&& session.queued == after.queued.take(first)
            &&& after.queued.len() == first + (if session.no_osc {
                0int
            } else {
                1
            }) + (if titled {
                1int
            } else {
                0
            })
            &&& !session.no_osc ==> parsed(after.queued[first]) == Some(
                ReportView { state, agent, seq, visible, exited, message: None },
            )
            &&& titled ==> sets_title(
                after.queued.last(),
                marked(state, label_of(session.titles.mode, session.screen.heard.title, agent)),
            )
        }),
{
    let event = EventView::Changed { state, previous, agent, seq, visible, exited };
    let report = ReportView { state, agent, seq, visible, exited, message: None };
    let noted = session.noted(NoteView::Event(event));
    let reported = noted.reported(report);
    assert(report.valid());
    report_round_trip(report);
    lemma_retitled(reported, state, agent);
    let after = session.announced(event);
    let titled = reported.retitled(state, agent);
    assert(after.queued == titled.queued);
    let first = session.queued.len() as int;
    if session.titles.mode !is Never {
        assert(titled.queued =~= reported.queued.push(titled.queued.last()));
    }
    assert(session.queued =~= after.queued.take(first));
    if !session.no_osc {
        assert(after.queued[first] == reported.queued[first]);
    }
}

/// The name of a state.
pub open spec fn name_of(state: State) -> Seq<char> {
    match state {
        State::Working => "working"@,
        State::Blocked => "blocked"@,
        State::Idle => "idle"@,
        State::NoAgent => "none"@,
    }
}

/// With a sink every event makes one record, and nothing else does. The record of a change names the
/// state and the one before it; that of a heartbeat names no state before; both carry the agent,
/// the number and the title on the screen. An agent that came is recorded with its process, and
/// one that went as none.
pub proof fn events_are_recorded(session: SessionView, event: EventView)
    requires
        session.recording,
    ensures
        ({
            let after = session.announced(event);
            let record = after.records.last();
            &&& after.records.len() == session.records.len() + 1
            &&& after.records.drop_last() == session.records
            &&& match event {
                EventView::Changed { state, previous, agent, seq, visible, exited } => {
                    record matches RecordView::State {
                        state: named,
                        previous: before,
                        agent: who,
                        seq: number,
                        pid,
                        code,
                        title,
                        exited: gone,
                        ..
                    } && named == name_of(state) && before == Some(name_of(previous)) && who == agent
                        && number == seq && pid is None && code is None && title == Some(
                        session.screen.heard.title,
                    ) && gone == exited
                },
                EventView::Heartbeat { state, agent, seq, visible } => {
                    record matches RecordView::State {
                        state: named,
                        previous: before,
                        agent: who,
                        seq: number,
                        pid,
                        code,
                        title,
                        exited: gone,
                        ..
                    } && named == name_of(state) && before is None && who == agent && number == seq
                        && pid is None && code is None && title == Some(session.screen.heard.title)
                        && !gone
                },
                EventView::AgentFound { id, pid } => record == (RecordView::Agent {
                    agent: Some(id),
                    pid: Some(pid),
                }),
                EventView::AgentLost => record == (RecordView::Agent { agent: None, pid: None }),
            }
        }),
{
    let after = session.announced(event);
    assert(after.records.drop_last() =~= session.records);
}

/// The evidence that is recorded with a state is listed by name: each flag that is set once, and no
/// other.
pub proof fn evidence_is_listed_by_name(
    state: State,
    previous: Option<State>,
    agent: Option<Seq<char>>,
    seq: u64,
    visible: Flags,
    exited: bool,
    title: Seq<char>,
)
    ensures
        state_record(state, previous, agent, seq, visible, exited, title) matches RecordView::State {
            visible: listed,
            ..
        } && listed.no_duplicates() && forall|name: Seq<char>| #[trigger]
            listed.contains(name) <==> {
                ||| visible.idle && name == "idle"@
                ||| visible.blocker && name == "blocker"@
                ||| visible.working && name == "working"@
            },
{
    reveal_strlit("idle");
    reveal_strlit("blocker");
    reveal_strlit("working");
    let listed = flag_words(visible);
    assert("blocker"@[0] != "working"@[0]);
    assert forall|name: Seq<char>| #[trigger] listed.contains(name) <==> {
        ||| visible.idle && name == "idle"@
        ||| visible.blocker && name == "blocker"@
        ||| visible.working && name == "working"@
    } by {
        let first: int = if visible.idle {
            1
        } else {
            0
        };
        let second: int = if visible.blocker {
            1
        } else {
            0
        };
        if visible.idle {
            assert(listed[0] == "idle"@);
        }
        if visible.blocker {
            assert(listed[first] == "blocker"@);
        }
        if visible.working {
            assert(listed[first + second] == "working"@);
        }
    }
}

/// The name of a command is the last part of its path. A session around it starts with the agent
/// that was given, or else with the first rule set that has the name for its id or lists it among
/// its processes; and with nothing else.
pub proof fn commands_name_their_agent(
    sets: Seq<RuleSet>,
    directory: Seq<char>,
    name: Seq<char>,
    index: int,
)
    requires
        !name.contains('/'),
        name != ""@,
        name != "."@,
        name != ".."@,
        0 <= index < sets.len(),
    ensures
        ({
            let named = command_agent(sets, directory.push('/') + name);
            &&& command_agent(sets, name) == named
            &&& goes_by(sets[index], name) && valid_agent(sets[index].id@) && (forall|earlier: int|
                0 <= earlier < index ==> !goes_by(#[trigger] sets[earlier], name)) ==> named
                == Some(sets[index].id@)
            &&& (forall|other: int| 0 <= other < sets.len() ==> !goes_by(#[trigger] sets[other], name))
                ==> named is None
        }),
{
    lemma_split_after_separator(directory, '/', name);
    lemma_split_plain(name, '/');
    assert(last_part(split(directory.push('/') + name, '/')) == Some(name));
    assert(last_part(split(name, '/')) == Some(name));
    lemma_command_set_is_first(sets, name);
}

/// The rule set has the name for its id, or lists it among its processes.
pub open spec fn goes_by(set: RuleSet, name: Seq<char>) -> bool {
    set.id@ == name || exists|index: int|
        0 <= index < set.process_names@.len() && #[trigger] set.process_names@[index]@ == name
}

proof fn lemma_command_set_is_first(sets: Seq<RuleSet>, name: Seq<char>)
    ensures
        match command_set(sets, name) {
            Some(index) => {
                &&& 0 <= index < sets.len()
                &&& goes_by(sets[index], name)
                &&& forall|earlier: int| 0 <= earlier < index ==> !goes_by(
                    #[trigger] sets[earlier],
                    name,
                )
            },
            None => forall|index: int| 0 <= index < sets.len() ==> !goes_by(
                #[trigger] sets[index],
                name,
            ),
        },
    decreases sets.len(),
{
    if sets.len() > 0 {
        let before = sets.drop_last();
        let set = sets.last();
        lemma_command_set_is_first(before, name);
        assert forall|index: int| 0 <= index < before.len() implies #[trigger] sets[index]
            == before[index] by {}
        let all = texts(set.process_names@);
        if all.contains(name) {
            let index = choose|index: int| 0 <= index < all.len() && all[index] == name;
            assert(set.process_names@[index]@ == name);
        }
        if exists|index: int|
            0 <= index < set.process_names@.len() && #[trigger] set.process_names@[index]@
                == name {
            let index = choose|index: int|
                0 <= index < set.process_names@.len() && #[trigger] set.process_names@[index]@
                    == name;
            assert(all[index] == name);
        }
    }
}

/// A session starts with the given agent, or with the one that its command names, on a blank screen,
/// with nothing announced, and with a look at the foreground job due at once unless the agent was
/// given.
pub proof fn sessions_start_silent(
    options: Options,
    rows: u16,
    cols: u16,
    child: Pid,
    command: Seq<char>,
    now: Nanos,
)
    ensures
        ({
            let session = new_session(options, rows, cols, Some(child), command, now);
            &&& session.active == match options.agent {
                Some(id) => Some(id@),
                None => command_agent(options.rule_sets@, command),
            }
            &&& session.queued.len() == 0
            &&& session.records.len() == 0
            &&& session.notes.len() == 0
            &&& session.machine.current is NoAgent
            &&& session.machine.seq == 0
            &&& session.screen.rows == rows
            &&& session.screen.cols == cols
            &&& session.screen.boundary is Ground
            &&& linked(session)
            &&& session.look_due(now) == options.agent is None
            &&& session.titles.mode == options.title
            &&& session.titles.restoring() is None
            &&& session.no_osc == options.no_osc
            &&& session.recording == options.events is Some
        }),
{
}

/// Output that brings a new title writes it at once, before anything that is announced of the
/// output.
pub proof fn output_shows_new_titles(session: SessionView, chunk: Seq<u8>, now: Nanos)
    requires
        linked(session),
        session.titles.mode !is Never,
        session.screen.processed(chunk).heard.title != session.last_title,
    ensures
        ({
            let after = session.after_output(chunk, now);
            let title = session.screen.processed(chunk).heard.title;
            let first = session.queued.len() as int;
            &&& first < after.queued.len()
            &&& sets_title(
                after.queued[first],
                marked(
                    session.machine.current,
                    label_of(session.titles.mode, title, session.active),
                ),
            )
            &&& after.last_title == title
        }),
{
    let shown = session.shown(chunk);
    let titled = shown.titled();
    new_titles_are_shown(shown);
    lemma_nothing_behind(titled.queued, session_label(titled));
    lemma_judged_titles(titled, now, titled.queued.len());
    lemma_judged_rest(titled, now);
    let after = titled.judged(now);
    let first = session.queued.len() as int;
    assert(titled.queued =~= after.queued.subrange(0, titled.queued.len() as int));
    assert(after.queued[first] == titled.queued[first]);
}

proof fn lemma_judged_rest(session: SessionView, now: Nanos)
    ensures
        session.judged(now).last_title == session.last_title,
        session.judged(now).active == session.active,
        session.judged(now).screen.heard == session.screen.heard,
{
    let waiting = if session.active is None {
        SessionView {
            schedule: ScheduleView { next: now, acquisition: Some(now), ..session.schedule },
            ..session
        }
    } else {
        session
    };
    let told = match waiting.verdict() {
        Some(value) => waiting.noted(NoteView::Verdict(value.state, value.rule)),
        None => waiting,
    };
    lemma_observed_rest(told, waiting.verdict(), false, session.child, false, now);
}

/// Output is shown as the screen shows it, and what the child reports of itself goes no further: it
/// is noted where the session is debugged, and then forgotten.
pub proof fn output_is_shown(session: SessionView, chunk: Seq<u8>, now: Nanos)
    ensures
        ({
            let after = session.after_output(chunk, now);
            let screen = session.screen.processed(chunk);
            &&& after.screen.lines == screen.lines
            &&& after.screen.text == screen.text
            &&& after.screen.heard.title == screen.heard.title
            &&& after.screen.heard.progress == screen.heard.progress
            &&& after.screen.heard.bells == screen.heard.bells
            &&& after.screen.heard.reports.len() == 0
            &&& after.screen.boundary == screen.boundary
            &&& !after.screen.changed
            &&& after.active == session.active
            &&& after.loss == session.loss
            &&& after.last_pgid == session.last_pgid
        }),
{
    let titled = session.shown(chunk).titled();
    titled.judging_keeps_the_screen(now);
    lemma_judged_rest(titled, now);
    let waiting = if titled.active is None {
        SessionView {
            schedule: ScheduleView { next: now, acquisition: Some(now), ..titled.schedule },
            ..titled
        }
    } else {
        titled
    };
    let told = match waiting.verdict() {
        Some(value) => waiting.noted(NoteView::Verdict(value.state, value.rule)),
        None => waiting,
    };
    lemma_observed_rest(told, waiting.verdict(), false, session.child, false, now);
}

/// Between sequences everything that waits is written, in its order and once; inside one nothing is
/// written, and everything goes on waiting.
pub proof fn what_waits_is_written_once(session: SessionView)
    ensures
        session.screen.boundary is Ground ==> session.writable() == session.queued
            && session.drained().queued.len() == 0,
        !(session.screen.boundary is Ground) ==> session.writable().len() == 0
            && session.drained().queued == session.queued,
        session.drained().machine == session.machine,
        session.drained().screen == session.screen,
        session.drained().records == session.records,
        session.drained().titles == session.titles,
{
}

/// The job of a known agent in an unchanged group is listed once five seconds have passed since the
/// last listing, and not before, unless something has changed while no agent was known.
pub proof fn listings_are_spaced(session: SessionView, last: Nanos, now: Nanos)
    requires
        session.active is Some,
        session.schedule.last_full == Some(last),
        session.schedule.acquisition is None,
        last <= now,
    ensures
        session.listing_due(session.last_pgid, now) <==> now - last >= 5_000_000_000,
{
}

/// The shell is in a job exactly where one of its processes has the identifier of the child.
pub proof fn the_child_is_the_shell(job: crate::platform::Job, child: Pid)
    ensures
        crate::session::shell_listed(job, Some(child)) <==> exists|index: int|
            0 <= index < job.processes@.len() && #[trigger] job.processes@[index].pid == child,
        !crate::session::shell_listed(job, None),
{
    if exists|index: int|
        0 <= index < job.processes@.len() && #[trigger] job.processes@[index].pid == child {
        let index = choose|index: int|
            0 <= index < job.processes@.len() && #[trigger] job.processes@[index].pid == child;
        assert(Some(job.processes@[index].pid) == Some(child));
    }
}

/// Whoever debugs a session is told of every event, and nobody else is; it makes no other
/// difference.
pub proof fn debugging_only_takes_notes(session: SessionView, event: EventView)
    requires
        !session.debug,
    ensures
        ({
            let debugged = SessionView { debug: true, ..session };
            &&& session.announced(event).notes == session.notes
            &&& debugged.announced(event).notes == session.notes.push(NoteView::Event(event))
            &&& debugged.announced(event).queued == session.announced(event).queued
            &&& debugged.announced(event).records == session.announced(event).records
            &&& debugged.announced(event).titles == session.announced(event).titles
        }),
{
}

/// The passing of time is told to the machine, and everything that the machine says of it is
/// announced: a heartbeat is recorded where records are wanted.
pub proof fn time_is_told_to_the_machine(session: SessionView, now: Nanos)
    ensures
        session.after_tick(now).machine == session.machine.ticked(now).0,
        session.recording ==> session.after_tick(now).records.len() == session.records.len()
            + session.machine.ticked(now).1.len(),
        session.after_tick(now).screen == session.screen,
        session.after_tick(now).active == session.active,
        session.after_tick(now).loss == session.loss,
{
    let (machine, events) = session.machine.ticked(now);
    let holder = SessionView { machine, ..session };
    holder.announcing_keeps_the_rest(events);
    lemma_records_counted(holder, events);
}

proof fn lemma_records_counted(session: SessionView, events: Seq<EventView>)
    ensures
        session.recording ==> session.announced_all(events).records.len() == session.records.len()
            + events.len(),
        session.recording ==> session.records.is_prefix_of(session.announced_all(events).records),
    decreases events.len(),
{
    if events.len() > 0 {
        let before = session.announced_all(events.drop_last());
        lemma_records_counted(session, events.drop_last());
        session.announcing_keeps_the_rest(events.drop_last());
        if session.recording {
            events_are_recorded(before, events.last());
            let after = session.announced_all(events).records;
            assert(after =~= before.records.push(after.last()));
            assert(session.records =~= after.subrange(0, session.records.len() as int));
        }
    } else {
        assert(session.records =~= session.records.subrange(0, session.records.len() as int));
    }
}

/// A listing that misses a known agent, with another job in the foreground, is only counted until
/// the sixth in a row; that one ends it.
pub proof fn misses_are_counted(session: SessionView, id: Seq<char>, pid: Pid, now: Nanos)
    requires
        session.loss.current == Some((id, pid)),
        !session.loss.exited,
    ensures
        session.loss.misses < 5 ==> session.after_listing(None, false, now) == (SessionView {
            loss: LossView { misses: (session.loss.misses + 1) as u8, ..session.loss },
            ..session
        }),
        session.loss.misses == 5 ==> {
            let after = session.after_listing(None, false, now);
            &&& after.active is None
            &&& after.loss.current is None
            &&& after.machine.current is NoAgent
            &&& after.machine.agent is None
        },
{
    if session.loss.misses == 5 {
        let (loss, detection) = session.loss.updated(None, false);
        let without = SessionView { active: None, loss, ..session };
        lemma_observed_rest(without, None, false, None, false, now);
    }
}

/// An agent that takes the place of what ran before is recorded at once, with its process.
pub proof fn found_agents_are_recorded(
    session: SessionView,
    id: Seq<char>,
    pid: Pid,
    shell: bool,
    now: Nanos,
)
    requires
        finds(session.loss, id, pid),
        session.loss.current is Some || session.active != Some(id),
        session.recording,
    ensures
        ({
            let after = session.after_listing(Some((id, pid)), shell, now);
            let first = session.records.len() as int;
            &&& after.records.len() > first
            &&& after.records[first] == (RecordView::Agent { agent: Some(id), pid: Some(pid) })
        }),
{
    let (loss, detection) = session.loss.updated(Some((id, pid)), shell);
    let found = SessionView { loss, ..session }.with_agent(id);
    let verdict = found.verdict();
    let (machine, events) = found.machine.observed(verdict, Some(id), true, Some(pid), false, now);
    let holder = SessionView { machine, ..found };
    let said = found.machine.after_agent(Some(id), true, now).judged(verdict, false, now).1;
    let event = EventView::AgentFound { id, pid };
    assert(events == seq![event] + said);
    assert(said.len() <= 1);
    let one = seq![event];
    assert(one.drop_last() =~= Seq::empty());
    assert(holder.announced_all(one.drop_last()) == holder);
    events_are_recorded(holder, event);
    let first = holder.announced(event);
    assert(holder.announced_all(one) == first);
    if said.len() == 0 {
        assert(events =~= one);
    } else {
        assert(events.drop_last() =~= one);
        events_are_recorded(first, events.last());
        let after = first.announced(events.last());
        assert(after.records.drop_last() == first.records);
        assert(after.records[session.records.len() as int]
            == first.records[session.records.len() as int]);
    }
}

/// Some report that waits to be written says the published state: its agent, its number and its
/// evidence.
pub open spec fn state_is_reported(session: SessionView) -> bool {
    exists|exited: bool|
        session.queued.contains(
            #[trigger] formatted(
                ReportView {
                    state: session.machine.current,
                    agent: session.machine.agent,
                    seq: session.machine.seq,
                    visible: session.machine.visible,
                    exited,
                    message: None,
                },
            ),
        )
}

/// The last of the events is the change that the machine stands for.
spec fn ends_with_change(machine: MachineView, events: Seq<EventView>) -> bool {
    events.len() > 0 && (events.last() matches EventView::Changed {
        state,
        agent,
        seq,
        visible,
        ..
    } && state == machine.current && agent == machine.agent && seq == machine.seq && visible
        == machine.visible && (state is NoAgent) == (agent is None))
}

proof fn lemma_change_is_last(
    machine: MachineView,
    verdict: Option<VerdictView>,
    agent: Option<Seq<char>>,
    replaced: bool,
    pid: Option<Pid>,
    exited: bool,
    now: Nanos,
)
    requires
        machine.consistent(),
    ensures
        ({
            let (next, events) = machine.observed(verdict, agent, replaced, pid, exited, now);
            next.seq != machine.seq ==> ends_with_change(next, events)
        }),
{
    let (next, events) = machine.observed(verdict, agent, replaced, pid, exited, now);
    let noted = machine.after_agent(agent, replaced, now);
    let found = machine.agent_events(agent, replaced, pid);
    let said = noted.judged(verdict, exited, now).1;
    assert(events == found + said);
    if next.seq != machine.seq {
        assert(said.len() == 1);
        assert(events.last() == said[0]);
    }
}

proof fn lemma_change_is_reported(session: SessionView, events: Seq<EventView>)
    requires
        ends_with_change(session.machine, events),
        !session.no_osc,
    ensures
        state_is_reported(session.announced_all(events)),
{
    lemma_change_is_queued(session, events);
    session.announcing_keeps_the_rest(events);
    match events.last() {
        EventView::Changed { state, agent, seq, visible, exited, .. } => {
            let report = ReportView { state, agent, seq, visible, exited, message: None };
            assert((state is NoAgent) == (agent is None));
            assert(session.announced_all(events).queued.contains(formatted(report)));
        },
        _ => {},
    }
}

proof fn lemma_observed_is_reported(
    session: SessionView,
    verdict: Option<VerdictView>,
    replaced: bool,
    pid: Option<Pid>,
    exited: bool,
    now: Nanos,
)
    requires
        session.machine.consistent(),
        !session.no_osc,
    ensures
        ({
            let after = session.observed(verdict, replaced, pid, exited, now);
            after.machine.seq != session.machine.seq ==> state_is_reported(after)
        }),
{
    let (machine, events) = session.machine.observed(
        verdict,
        session.active,
        replaced,
        pid,
        exited,
        now,
    );
    lemma_change_is_last(session.machine, verdict, session.active, replaced, pid, exited, now);
    crate::state_laws::observation_keeps_consistency(
        session.machine,
        verdict,
        session.active,
        replaced,
        pid,
        exited,
        now,
    );
    lemma_observed_rest(session, verdict, replaced, pid, exited, now);
    if machine.seq != session.machine.seq {
        lemma_change_is_reported(SessionView { machine, ..session }, events);
    }
}

proof fn lemma_output_is_reported(session: SessionView, now: Nanos)
    requires
        session.machine.consistent(),
        !session.no_osc,
    ensures
        session.judged(now).machine.seq != session.machine.seq ==> state_is_reported(
            session.judged(now),
        ),
{
    if session.screen.changed {
        let waiting = if session.active is None {
            SessionView {
                schedule: ScheduleView { next: now, acquisition: Some(now), ..session.schedule },
                ..session
            }
        } else {
            session
        };
        let told = match waiting.verdict() {
            Some(value) => waiting.noted(NoteView::Verdict(value.state, value.rule)),
            None => waiting,
        };
        lemma_observed_is_reported(told, waiting.verdict(), false, session.child, false, now);
        let judged = told.observed(waiting.verdict(), false, session.child, false, now);
        if judged.machine.seq != session.machine.seq {
            lemma_same_reports(judged, session.judged(now));
        }
    }
}

proof fn lemma_listing_is_reported(
    session: SessionView,
    detected: Option<(Seq<char>, Pid)>,
    shell: bool,
    now: Nanos,
)
    requires
        session.machine.consistent(),
        !session.no_osc,
    ensures
        session.after_listing(detected, shell, now).machine.seq != session.machine.seq
            ==> state_is_reported(session.after_listing(detected, shell, now)),
{
    let (loss, detection) = session.loss.updated(detected, shell);
    let noted = SessionView { loss, ..session };
    match detection {
        Some(DetectionView::AgentFound { id, pid }) => {
            let found = noted.with_agent(id);
            lemma_observed_is_reported(
                found,
                found.verdict(),
                session.replaced_by(id),
                Some(pid),
                false,
                now,
            );
        },
        Some(DetectionView::Exited { agent }) => {
            let before = SessionView { active: Some(agent), ..noted };
            lemma_observed_is_reported(before, None, false, None, true, now);
        },
        Some(DetectionView::AgentLost) => {
            let before = SessionView { active: None, ..noted };
            lemma_observed_is_reported(before, None, false, None, false, now);
        },
        None => {},
    }
}

proof fn lemma_tick_is_reported(session: SessionView, now: Nanos)
    requires
        session.machine.consistent(),
        !session.no_osc,
    ensures
        session.after_tick(now).machine.seq != session.machine.seq ==> state_is_reported(
            session.after_tick(now),
        ),
{
    let (machine, events) = session.machine.ticked(now);
    let holder = SessionView { machine, ..session };
    holder.announcing_keeps_the_rest(events);
    if machine.seq != session.machine.seq {
        assert(session.machine.hold is Some);
        assert(ends_with_change(machine, events));
        lemma_change_is_reported(holder, events);
    }
}

/// Whatever changes the published state puts a report of it on its way to the terminal, unless
/// reports are switched off.
pub proof fn every_change_is_reported(session: SessionView, turn: Turn)
    requires
        session.machine.consistent(),
        !session.no_osc,
        !(turn is Drain),
    ensures
        after_turn(session, turn).machine.seq != session.machine.seq ==> state_is_reported(
            after_turn(session, turn),
        ),
{
    reveal(after_turn);
    match turn {
        Turn::Output { chunk, now } => {
            lemma_output_is_reported(session.shown(chunk).titled(), now);
        },
        Turn::Silence { now } => {
            lemma_observed_is_reported(
                session,
                session.verdict(),
                false,
                session.child,
                false,
                now,
            );
        },
        Turn::Listing { detected, shell, now } => {
            lemma_listing_is_reported(session, detected, shell, now);
        },
        Turn::Tick { now } => {
            lemma_tick_is_reported(session, now);
        },
        _ => {},
    }
}

proof fn lemma_same_reports(session: SessionView, other: SessionView)
    requires
        state_is_reported(session),
        other.queued == session.queued,
        other.machine == session.machine,
    ensures
        state_is_reported(other),
{
    let exited = choose|exited: bool|
        session.queued.contains(
            #[trigger] formatted(
                ReportView {
                    state: session.machine.current,
                    agent: session.machine.agent,
                    seq: session.machine.seq,
                    visible: session.machine.visible,
                    exited,
                    message: None,
                },
            ),
        );
    assert(other.queued.contains(
        formatted(
            ReportView {
                state: other.machine.current,
                agent: other.machine.agent,
                seq: other.machine.seq,
                visible: other.machine.visible,
                exited,
                message: None,
            },
        ),
    ));
}

/// Where a session is debugged, what the child reports of itself is noted, report by report.
pub proof fn reports_are_noted(session: SessionView, chunk: Seq<u8>)
    ensures
        ({
            let reports = session.screen.processed(chunk).heard.reports;
            let after = session.shown(chunk);
            &&& !session.debug ==> after.notes == session.notes
            &&& session.debug ==> after.notes.len() == session.notes.len() + reports.len()
                && session.notes.is_prefix_of(after.notes)
            &&& session.debug ==> forall|index: int|
                0 <= index < reports.len() ==> #[trigger] after.notes[session.notes.len() + index]
                    == NoteView::Report(reports[index])
        }),
{
    let after = session.shown(chunk);
    assert(session.notes =~= after.notes.subrange(0, session.notes.len() as int));
}

} // verus!
