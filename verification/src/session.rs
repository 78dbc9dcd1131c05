//! A session around a wrapped command: what each chunk of output, each look at the processes and
//! each moment calls for.
use crate::callbacks::{byte_views, HeardView};
use crate::emit::events::{agent_line, record_views, state_line, state_record, Record, RecordView};
use crate::emit::title::{bytes_view, Titles, TitlesView};
use crate::fixture::{fixture_text, write_fixture};
use crate::osc::{agent_view, formatted, valid_agent, AgentId, Flags, Report, ReportView, State};
use crate::platform::probe::{
    unknown_agent, Detection, DetectionView, LossTracker, LossView, ScheduleView, Scheduler,
};
use crate::platform::{Job, Pid};
use crate::pty::Options;
use crate::rules::eval::{evaluate, picture_of, verdict_of, Picture, Verdict, VerdictView};
use crate::rules::ident::{
    file_name, find_set, first_with_id, identified, identify, last_part, lists, set_lists,
};
use crate::rules::schema::{RuleSet, RuleState};
use crate::rules::view::ScreenView;
use crate::screen::{blank_screen, Screen, ScreenModel};
use crate::state::{
    copied_agent, event_views, fresh, standard_config, verdict_view, Config, Event, EventView,
    Machine, MachineView, Nanos,
};
use crate::terminal::sound_size;
use crate::text::{chars_of, same_text, split, string_of};
use vstd::prelude::*;

verus! {

/// Something to tell whoever debugs a session.
#[derive(Debug)]
pub enum Note {
    /// The child made a report of itself.
    Report(Vec<u8>),
    /// The rules gave a verdict.
    Verdict(RuleState, Option<String>),
    /// The machine announced something.
    Event(Event),
}

/// Something to tell whoever debugs a session, in mathematical terms.
#[verifier::ext_equal]
pub enum NoteView {
    Report(Seq<u8>),
    Verdict(RuleState, Option<Seq<char>>),
    Event(EventView),
}

impl View for Note {
    type V = NoteView;

    open spec fn view(&self) -> NoteView {
        match *self {
            Note::Report(bytes) => NoteView::Report(bytes@),
            Note::Verdict(state, rule) => NoteView::Verdict(state, crate::osc::text_view(rule)),
            Note::Event(event) => NoteView::Event(event@),
        }
    }
}

/// Notes in mathematical terms.
pub open spec fn note_views(notes: Seq<Note>) -> Seq<NoteView> {
    Seq::new(notes.len(), |index: int| notes[index]@)
}

/// What the rules read of a screen.
pub open spec fn screen_picture(screen: ScreenModel) -> Picture {
    Picture {
        lines: screen.lines,
        text: screen.text,
        title: screen.heard.title,
        progress: screen.heard.progress,
    }
}

/// The first rule set for a command of that name.
pub open spec fn command_set(sets: Seq<RuleSet>, name: Seq<char>) -> Option<int>
    decreases sets.len(),
{
    if sets.len() == 0 {
        None
    } else if command_set(sets.drop_last(), name) is Some {
        command_set(sets.drop_last(), name)
    } else if sets.last().id@ == name || lists(sets.last(), name) {
        Some(sets.len() - 1)
    } else {
        None
    }
}

/// The agent that a command runs, by its name alone.
pub open spec fn command_agent(sets: Seq<RuleSet>, command: Seq<char>) -> Option<Seq<char>> {
    match last_part(split(command, '/')) {
        Some(name) => match command_set(sets, name) {
            Some(set) => if valid_agent(sets[set].id@) {
                Some(sets[set].id@)
            } else {
                None
            },
            None => None,
        },
        None => None,
    }
}

/// A session in mathematical terms.
#[verifier::ext_equal]
pub struct SessionView {
    pub sets: Seq<RuleSet>,
    /// The agent that was given, and is not looked for.
    pub forced: Option<Seq<char>>,
    pub no_osc: bool,
    /// Records are wanted.
    pub recording: bool,
    pub debug: bool,
    pub titles: TitlesView,
    pub screen: ScreenModel,
    pub machine: MachineView,
    /// What is to be written to the terminal as soon as its stream is between sequences.
    pub queued: Seq<Seq<u8>>,
    /// What is to be written to the sink.
    pub records: Seq<RecordView>,
    pub notes: Seq<NoteView>,
    pub child: Option<Pid>,
    pub active: Option<Seq<char>>,
    pub schedule: ScheduleView,
    pub last_pgid: Option<Pid>,
    pub loss: LossView,
    pub last_title: Seq<char>,
}

/// Reports as notes.
pub open spec fn report_notes(reports: Seq<Seq<u8>>) -> Seq<NoteView> {
    Seq::new(reports.len(), |index: int| NoteView::Report(reports[index]))
}

impl SessionView {
    pub open spec fn noted(self, note: NoteView) -> SessionView {
        if self.debug {
            SessionView { notes: self.notes.push(note), ..self }
        } else {
            self
        }
    }

    pub open spec fn recorded(self, record: RecordView) -> SessionView {
        if self.recording {
            SessionView { records: self.records.push(record), ..self }
        } else {
            self
        }
    }

    /// The session with the title shown as it is to be with a state.
    pub open spec fn retitled(self, state: State, agent: Option<Seq<char>>) -> SessionView {
        let (titles, shown) = self.titles.observed(self.screen.heard.title, state, agent);
        SessionView {
            titles,
            queued: match shown {
                Some(bytes) => self.queued.push(bytes),
                None => self.queued,
            },
            ..self
        }
    }

    /// The session with a report on its way to the terminal.
    pub open spec fn reported(self, report: ReportView) -> SessionView {
        if self.no_osc {
            self
        } else {
            SessionView { queued: self.queued.push(formatted(report)), ..self }
        }
    }

    /// The session after it has announced an event of its machine: a change to the terminal, in
    /// the title and in a record; everything else in a record alone.
    pub open spec fn announced(self, event: EventView) -> SessionView {
        let session = self.noted(NoteView::Event(event));
        let title = self.screen.heard.title;
        match event {
            EventView::AgentFound { id, pid } => session.recorded(
                RecordView::Agent { agent: Some(id), pid: Some(pid) },
            ),
            EventView::AgentLost => session.recorded(RecordView::Agent { agent: None, pid: None }),
            EventView::Heartbeat { state, agent, seq, visible } => session.recorded(
                state_record(state, None, agent, seq, visible, false, title),
            ),
            EventView::Changed { state, previous, agent, seq, visible, exited } => {
                let report = ReportView { state, agent, seq, visible, exited, message: None };
                let shown = if report.consistent() {
                    session.reported(report).retitled(state, agent)
                } else {
                    session
                };
                shown.recorded(
                    state_record(state, Some(previous), agent, seq, visible, exited, title),
                )
            },
        }
    }

    /// The session after it has announced events in order.
    pub open spec fn announced_all(self, events: Seq<EventView>) -> SessionView
        decreases events.len(),
    {
        if events.len() == 0 {
            self
        } else {
            self.announced_all(events.drop_last()).announced(events.last())
        }
    }

    /// What the rules say of the active agent.
    pub open spec fn verdict(self) -> Option<VerdictView> {
        match self.active {
            Some(id) => match first_with_id(self.sets, id) {
                Some(set) => Some(verdict_of(self.sets[set], screen_picture(self.screen))),
                None => None,
            },
            None => None,
        }
    }

    /// The session after its machine has taken note of a verdict on the active agent.
    pub open spec fn observed(
        self,
        verdict: Option<VerdictView>,
        replaced: bool,
        pid: Option<Pid>,
        exited: bool,
        now: Nanos,
    ) -> SessionView {
        let (machine, events) = self.machine.observed(
            verdict,
            self.active,
            replaced,
            pid,
            exited,
            now,
        );
        SessionView { machine, ..self }.announced_all(events)
    }

    /// The session after a chunk was shown on its screen.
    pub open spec fn shown(self, chunk: Seq<u8>) -> SessionView {
        let screen = self.screen.processed(chunk);
        SessionView {
            screen: ScreenModel {
                heard: HeardView { reports: Seq::empty(), ..screen.heard },
                ..screen
            },
            notes: if self.debug {
                self.notes + report_notes(screen.heard.reports)
            } else {
                self.notes
            },
            ..self
        }
    }

    /// The session after a look at the title.
    pub open spec fn titled(self) -> SessionView {
        if self.screen.heard.title == self.last_title {
            self
        } else {
            SessionView { last_title: self.screen.heard.title, ..self }.retitled(
                self.machine.current,
                self.active,
            )
        }
    }

    /// The session after a look at the screen, where there is something new on it.
    pub open spec fn judged(self, now: Nanos) -> SessionView {
        if !self.screen.changed {
            self
        } else {
            let waiting = if self.active is None {
                SessionView {
                    schedule: ScheduleView {
                        next: now,
                        acquisition: Some(now),
                        ..self.schedule
                    },
                    ..self
                }
            } else {
                self
            };
            let verdict = waiting.verdict();
            let told = match verdict {
                Some(value) => waiting.noted(NoteView::Verdict(value.state, value.rule)),
                None => waiting,
            };
            let after = told.observed(verdict, false, self.child, false, now);
            SessionView { screen: ScreenModel { changed: false, ..after.screen }, ..after }
        }
    }

    /// The session after a chunk of output.
    pub open spec fn after_output(self, chunk: Seq<u8>, now: Nanos) -> SessionView {
        self.shown(chunk).titled().judged(now)
    }

    /// It is time to look at a held idle again.
    pub open spec fn hold_due(self, now: Nanos) -> bool {
        &&& self.machine.hold is Some
        &&& self.machine.deadline() matches Some(at) && now >= at
    }

    /// The session after a moment without output.
    pub open spec fn after_silence(self, now: Nanos) -> SessionView {
        if self.hold_due(now) {
            self.observed(self.verdict(), false, self.child, false, now)
        } else {
            self
        }
    }

    /// It is time to look at the foreground group.
    pub open spec fn look_due(self, now: Nanos) -> bool {
        self.forced is None && now >= self.schedule.next && self.child is Some
    }

    /// The session after a look at the foreground group.
    pub open spec fn after_look(self, pgid: Option<Pid>, now: Nanos) -> SessionView {
        SessionView {
            schedule: self.schedule.completed(
                now,
                self.active is Some,
                self.machine.hold is Some,
                pgid != self.last_pgid,
            ),
            last_pgid: pgid,
            ..self
        }
    }

    /// The look at the foreground group calls for a listing of the job.
    pub open spec fn listing_due(self, pgid: Option<Pid>, now: Nanos) -> bool {
        self.schedule.lists(now, self.active is Some, pgid != self.last_pgid)
    }

    /// An agent that was found takes the place of what ran before: of another agent, or of an
    /// earlier run of the same one. The agent that the session was started with, when it is first
    /// listed, takes the place of nothing.
    pub open spec fn replaced_by(self, id: Seq<char>) -> bool {
        self.loss.current is Some || self.active != Some(id)
    }

    /// The session with an agent that was found, which is not judged by a title or a progress that
    /// was set before it.
    pub open spec fn with_agent(self, id: Seq<char>) -> SessionView {
        SessionView {
            active: Some(id),
            screen: ScreenModel {
                heard: HeardView {
                    title: Seq::empty(),
                    progress: None,
                    event: true,
                    ..self.screen.heard
                },
                changed: true,
                ..self.screen
            },
            last_title: Seq::empty(),
            ..self
        }
    }

    /// The session after a listing of the job, with an agent in it or not, and the shell in it or
    /// not.
    pub open spec fn after_listing(
        self,
        detected: Option<(Seq<char>, Pid)>,
        shell: bool,
        now: Nanos,
    ) -> SessionView {
        let (loss, detection) = self.loss.updated(detected, shell);
        let session = SessionView { loss, ..self };
        match detection {
            None => session,
            Some(DetectionView::AgentFound { id, pid }) => {
                let found = session.with_agent(id);
                found.observed(found.verdict(), self.replaced_by(id), Some(pid), false, now)
            },
            Some(DetectionView::Exited { agent }) => SessionView {
                active: Some(agent),
                ..session
            }.observed(None, false, None, true, now),
            Some(DetectionView::AgentLost) => SessionView { active: None, ..session }.observed(
                None,
                false,
                None,
                false,
                now,
            ),
        }
    }

    /// The session after a moment.
    pub open spec fn after_tick(self, now: Nanos) -> SessionView {
        let (machine, events) = self.machine.ticked(now);
        SessionView { machine, ..self }.announced_all(events)
    }

    /// What may be written to the terminal now.
    pub open spec fn writable(self) -> Seq<Seq<u8>> {
        if self.screen.boundary is Ground {
            self.queued
        } else {
            Seq::empty()
        }
    }

    /// The session after what may be written was taken.
    pub open spec fn drained(self) -> SessionView {
        if self.screen.boundary is Ground {
            SessionView { queued: Seq::empty(), ..self }
        } else {
            self
        }
    }
}

impl SessionView {
    /// Announcing leaves everything alone but what is on its way out: what is queued, the records,
    /// the notes and the title.
    pub proof fn announcing_keeps_the_rest(self, events: Seq<EventView>)
        ensures
            self.announced_all(events) == (SessionView {
                titles: self.announced_all(events).titles,
                queued: self.announced_all(events).queued,
                records: self.announced_all(events).records,
                notes: self.announced_all(events).notes,
                ..self
            }),
        decreases events.len(),
    {
        if events.len() > 0 {
            self.announcing_keeps_the_rest(events.drop_last());
        }
    }

    /// A look at the screen leaves it as it is, but for the mark that there is something new.
    pub proof fn judging_keeps_the_screen(self, now: Nanos)
        ensures
            self.judged(now).screen == (ScreenModel { changed: false, ..self.screen }),
    {
        let waiting = if self.active is None {
            SessionView {
                schedule: ScheduleView { next: now, acquisition: Some(now), ..self.schedule },
                ..self
            }
        } else {
            self
        };
        let told = match waiting.verdict() {
            Some(value) => waiting.noted(NoteView::Verdict(value.state, value.rule)),
            None => waiting,
        };
        let (machine, events) = told.machine.observed(
            waiting.verdict(),
            told.active,
            false,
            self.child,
            false,
            now,
        );
        SessionView { machine, ..told }.announcing_keeps_the_rest(events);
    }
}

/// The shell is among the processes of a job.
pub open spec fn shell_listed(job: Job, child: Option<Pid>) -> bool {
    exists|index: int|
        0 <= index < job.processes@.len() && Some(#[trigger] job.processes@[index].pid) == child
}

/// A session that has seen nothing.
pub open spec fn new_session(
    options: Options,
    rows: u16,
    cols: u16,
    child: Option<Pid>,
    command: Seq<char>,
    now: Nanos,
) -> SessionView {
    SessionView {
        sets: options.rule_sets@,
        forced: agent_view(options.agent),
        no_osc: options.no_osc,
        recording: options.events is Some,
        debug: options.debug,
        titles: TitlesView { mode: options.title, original: Seq::empty(), changed: false },
        screen: blank_screen(rows, cols),
        machine: fresh(standard_config()),
        queued: Seq::empty(),
        records: Seq::empty(),
        notes: Seq::empty(),
        child,
        active: match agent_view(options.agent) {
            Some(id) => Some(id),
            None => command_agent(options.rule_sets@, command),
        },
        schedule: ScheduleView { next: now, last_full: None, acquisition: None },
        last_pgid: None,
        loss: unknown_agent(),
        last_title: Seq::empty(),
    }
}

/// The set found among the leading sets is the one found among all.
proof fn lemma_command_set(sets: Seq<RuleSet>, name: Seq<char>, count: int)
    requires
        0 <= count <= sets.len(),
        command_set(sets.take(count), name) is Some,
    ensures
        command_set(sets, name) == command_set(sets.take(count), name),
    decreases sets.len() - count,
{
    if count == sets.len() {
        assert(sets.take(count) =~= sets);
    } else {
        assert(sets.take(count + 1).drop_last() =~= sets.take(count));
        lemma_command_set(sets, name, count + 1);
    }
}

fn find_command_agent(sets: &Vec<RuleSet>, command: &str) -> (agent: Option<AgentId>)
    ensures
        agent_view(agent) == command_agent(sets@, command@),
{
    let chars = chars_of(command);
    let name = match file_name(chars.as_slice()) {
        Some(name) => string_of(name),
        None => {
            return None;
        },
    };
    for index in 0..sets.len()
        invariant
            last_part(split(command@, '/')) == Some(name@),
            command_set(sets@.take(index as int), name@) is None,
    {
        assert(sets@.take(index + 1).drop_last() =~= sets@.take(index as int));
        let set = &sets[index];
        if same_text(set.id.as_str(), name.as_str()) || set_lists(set, name.as_str()) {
            proof {
                lemma_command_set(sets@, name@, index + 1);
            }
            return match AgentId::new(set.id.as_str()) {
                Ok(agent) => Some(agent),
                Err(_) => None,
            };
        }
    }
    assert(sets@.take(sets@.len() as int) =~= sets@);
    None
}

/// Whether the shell is among the processes of a job.
pub fn has_shell(job: &Job, child: Option<Pid>) -> (found: bool)
    ensures
        found == shell_listed(*job, child),
{
    let pid: Pid = match child {
        Some(pid) => pid,
        None => {
            return false;
        },
    };
    for index in 0..job.processes.len()
        invariant
            child == Some(pid),
            forall|earlier: int|
                0 <= earlier < index ==> Some(#[trigger] job.processes@[earlier].pid) != child,
    {
        if job.processes[index].pid == pid {
            assert(Some(job.processes@[index as int].pid) == child);
            return true;
        }
    }
    false
}

fn agent_text(agent: &Option<AgentId>) -> (text: Option<&str>)
    ensures
        match text {
            Some(name) => agent_view(*agent) == Some(name@),
            None => agent_view(*agent) is None,
        },
{
    match agent {
        Some(id) => Some(id.as_str()),
        None => None,
    }
}

/// A session around a wrapped command.
pub struct Session {
    options: Options,
    titles: Titles,
    screen: Screen,
    machine: Machine,
    queued: Vec<Vec<u8>>,
    records: Vec<Record>,
    notes: Vec<Note>,
    child: Option<Pid>,
    active: Option<AgentId>,
    scheduler: Scheduler,
    last_pgid: Option<Pid>,
    loss: LossTracker,
    last_title: String,
}

impl View for Session {
    type V = SessionView;

    closed spec fn view(&self) -> SessionView {
        SessionView {
            sets: self.options.rule_sets@,
            forced: agent_view(self.options.agent),
            no_osc: self.options.no_osc,
            recording: self.options.events is Some,
            debug: self.options.debug,
            titles: self.titles@,
            screen: self.screen@,
            machine: self.machine@,
            queued: byte_views(self.queued@),
            records: record_views(self.records@),
            notes: note_views(self.notes@),
            child: self.child,
            active: agent_view(self.active),
            schedule: self.scheduler@,
            last_pgid: self.last_pgid,
            loss: self.loss@,
            last_title: self.last_title@,
        }
    }
}

impl Session {
    /// A session around a command that was started as the given child, on a terminal of the given
    /// size.
    pub fn new(
        options: Options,
        rows: u16,
        cols: u16,
        child: Option<Pid>,
        command: &str,
        now: Nanos,
    ) -> (session: Self)
        requires
            sound_size(rows, cols),
        ensures
            session@ == new_session(options, rows, cols, child, command@, now),
            session@.screen.sound(),
    {
        let active = match &options.agent {
            Some(id) => Some(id.clone()),
            None => find_command_agent(&options.rule_sets, command),
        };
        let titles = Titles::new(options.title);
        let session = Session {
            options,
            titles,
            screen: Screen::new(rows, cols),
            machine: Machine::new(Config::default()),
            queued: Vec::new(),
            records: Vec::new(),
            notes: Vec::new(),
            child,
            active,
            scheduler: Scheduler::new(now),
            last_pgid: None,
            loss: LossTracker::new(),
            last_title: String::new(),
        };
        assert(session@ =~= new_session(options, rows, cols, child, command@, now));
        session
    }

    fn note(&mut self, note: Note)
        ensures
            final(self)@ == old(self)@.noted(note@),
    {
        if self.options.debug {
            let ghost before = self.notes@;
            self.notes.push(note);
            assert(note_views(self.notes@) =~= note_views(before).push(note@));
        }
    }

    fn record(&mut self, record: Record)
        ensures
            final(self)@ == old(self)@.recorded(record@),
    {
        if self.options.events.is_some() {
            let ghost before = self.records@;
            self.records.push(record);
            assert(record_views(self.records@) =~= record_views(before).push(record@));
        }
    }

    fn queue(&mut self, bytes: Vec<u8>)
        ensures
            final(self)@ == (SessionView {
                queued: old(self)@.queued.push(bytes@),
                ..old(self)@
            }),
    {
        let ghost before = self.queued@;
        self.queued.push(bytes);
        assert(byte_views(self.queued@) =~= byte_views(before).push(bytes@));
    }

    fn retitle(&mut self, state: State, agent: &Option<AgentId>)
        ensures
            final(self)@ == old(self)@.retitled(state, agent_view(*agent)),
    {
        match self.titles.observe(self.screen.title(), state, agent_text(agent)) {
            Some(bytes) => {
                self.queue(bytes);
            },
            None => {},
        }
    }

    fn announce(&mut self, event: &Event)
        ensures
            final(self)@ == old(self)@.announced(event@),
    {
        if self.options.debug {
            self.note(Note::Event(event.clone()));
        }
        match event {
            Event::AgentFound { id, pid } => {
                self.record(agent_line(Some(id), Some(*pid)));
            },
            Event::AgentLost => {
                self.record(agent_line(None, None));
            },
            Event::Heartbeat { state, agent, seq, visible } => {
                let line = state_line(
                    *state,
                    None,
                    agent,
                    *seq,
                    *visible,
                    false,
                    self.screen.title(),
                );
                self.record(line);
            },
            Event::Changed { state, previous, agent, seq, visible, exited } => {
                match Report::new(*state, copied_agent(agent), *seq, *visible, *exited, None) {
                    Ok(report) => {
                        if !self.options.no_osc {
                            self.queue(crate::osc::format(&report));
                        }
                        self.retitle(*state, agent);
                    },
                    Err(_) => {},
                }
                let line = state_line(
                    *state,
                    Some(*previous),
                    agent,
                    *seq,
                    *visible,
                    *exited,
                    self.screen.title(),
                );
                self.record(line);
            },
        }
    }

    fn announce_all(&mut self, events: &Vec<Event>)
        ensures
            final(self)@ == old(self)@.announced_all(event_views(events@)),
    {
        let ghost start = self@;
        let ghost all = event_views(events@);
        for index in 0..events.len()
            invariant
                all == event_views(events@),
                self@ == start.announced_all(all.take(index as int)),
        {
            assert(all.take(index + 1).drop_last() =~= all.take(index as int));
            assert(all.take(index + 1).last() == events@[index as int]@);
            self.announce(&events[index]);
        }
        assert(all.take(events@.len() as int) =~= all);
    }

    fn judge(&self) -> (verdict: Option<Verdict>)
        ensures
            verdict_view(verdict) == self@.verdict(),
    {
        match &self.active {
            Some(id) => match find_set(self.options.rule_sets.as_slice(), id.as_str()) {
                Some(index) => {
                    assert(picture_of(&self.screen) =~= screen_picture(self.screen@));
                    Some(evaluate(&self.options.rule_sets[index], &self.screen))
                },
                None => None,
            },
            None => None,
        }
    }

    fn observe(&mut self, verdict: Option<Verdict>, pid: Option<Pid>, exited: bool, now: Nanos)
        ensures
            final(self)@ == old(self)@.observed(verdict_view(verdict), false, pid, exited, now),
            final(self)@.screen == old(self)@.screen,
    {
        let events = self.machine.observe(verdict, copied_agent(&self.active), pid, exited, now);
        proof {
            self@.announcing_keeps_the_rest(event_views(events@));
        }
        self.announce_all(&events);
    }

    fn show(&mut self, chunk: &[u8])
        requires
            old(self)@.screen.sound(),
        ensures
            final(self)@ == old(self)@.shown(chunk@),
            final(self)@.screen.sound(),
    {
        let ghost start = self@;
        let _ground = self.screen.process(chunk);
        let ghost given = self.screen@.heard.reports;
        let reports = self.screen.take_observed_reports();
        let ghost before = self@;
        if self.options.debug {
            for report in it: reports
                invariant
                    it.seq() == reports@,
                    given == byte_views(reports@),
                    before.debug,
                    self@ == (SessionView {
                        notes: before.notes + report_notes(given.take(it.index() as int)),
                        ..before
                    }),
            {
                assert(report@ == given[it.index() as int]);
                self.note(Note::Report(report));
                assert(self@.notes =~= before.notes + report_notes(given.take(it.index() + 1)));
            }
            assert(given.take(given.len() as int) =~= given);
        }
        assert(self@ =~= start.shown(chunk@));
    }

    fn look_at_title(&mut self)
        ensures
            final(self)@ == old(self)@.titled(),
    {
        if !same_text(self.screen.title(), self.last_title.as_str()) {
            self.last_title = self.screen.title().to_owned();
            let current: (State, u64, Flags) = self.machine.current();
            let agent = copied_agent(&self.active);
            self.retitle(current.0, &agent);
        }
    }

    fn tell_verdict(&mut self, verdict: &Option<Verdict>)
        ensures
            final(self)@ == match verdict_view(*verdict) {
                Some(value) => old(self)@.noted(NoteView::Verdict(value.state, value.rule)),
                None => old(self)@,
            },
    {
        match verdict {
            Some(value) => {
                let rule = match &value.rule {
                    Some(id) => Some(id.clone()),
                    None => None,
                };
                self.note(Note::Verdict(value.state, rule));
            },
            None => {},
        }
    }

    fn look_at_screen(&mut self, now: Nanos)
        ensures
            final(self)@ == old(self)@.judged(now),
    {
        if self.screen.changed() {
            if self.active.is_none() {
                self.scheduler.screen_changed_without_agent(now);
            }
            let verdict = self.judge();
            self.tell_verdict(&verdict);
            let child: Option<Pid> = self.child;
            self.observe(verdict, child, false, now);
            self.screen.clear_changed();
        }
    }

    /// Takes note of a chunk of output, which has already been written to the terminal.
    pub fn output(&mut self, chunk: &[u8], now: Nanos)
        requires
            old(self)@.screen.sound(),
        ensures
            final(self)@ == old(self)@.after_output(chunk@, now),
            final(self)@.screen.sound(),
    {
        self.show(chunk);
        self.look_at_title();
        proof {
            self@.judging_keeps_the_screen(now);
        }
        self.look_at_screen(now);
    }

    /// Takes note of a moment without output: an idle that is held back is looked at again.
    pub fn silence(&mut self, now: Nanos)
        ensures
            final(self)@ == old(self)@.after_silence(now),
            final(self)@.screen == old(self)@.screen,
    {
        if self.machine.hold_pending() {
            let due = match self.machine.next_deadline() {
                Some(at) => now >= at,
                None => false,
            };
            if due {
                let verdict = self.judge();
                let child: Option<Pid> = self.child;
                self.observe(verdict, child, false, now);
            }
        }
    }

    /// The child whose foreground group is to be looked at, if it is time to.
    pub fn wants_look(&self, now: Nanos) -> (child: Option<Pid>)
        ensures
            child == if self@.look_due(now) {
                self@.child
            } else {
                None
            },
    {
        if self.options.agent.is_none() && self.scheduler.due(now) {
            self.child
        } else {
            None
        }
    }

    /// Takes note of the foreground group, and tells whether its job is to be listed.
    pub fn looked(&mut self, pgid: Option<Pid>, now: Nanos) -> (list: bool)
        ensures
            final(self)@ == old(self)@.after_look(pgid, now),
            list == old(self)@.listing_due(pgid, now),
    {
        let changed = match (pgid, self.last_pgid) {
            (Some(new), Some(old_pgid)) => new != old_pgid,
            (None, None) => false,
            _ => true,
        };
        self.last_pgid = pgid;
        self.scheduler.completed(
            now,
            self.active.is_some(),
            self.machine.hold_pending(),
            changed,
        )
    }

    fn find(&mut self, id: AgentId, pid: Pid, replaced: bool, now: Nanos)
        ensures
            final(self)@ == old(self)@.with_agent(id@).observed(
                old(self)@.with_agent(id@).verdict(),
                replaced,
                Some(pid),
                false,
                now,
            ),
            old(self)@.screen.sound() ==> final(self)@.screen.sound(),
    {
        let ghost found = self@.with_agent(id@);
        self.active = Some(id.clone());
        self.screen.clear_detection_evidence();
        self.last_title = String::new();
        assert(self.last_title@ =~= Seq::empty());
        assert(self@ == found);
        let verdict = self.judge();
        if replaced {
            let events = self.machine.replace(verdict, id, pid, now);
            proof {
                self@.announcing_keeps_the_rest(event_views(events@));
            }
            self.announce_all(&events);
        } else {
            self.observe(verdict, Some(pid), false, now);
        }
    }

    /// Takes note of a listing of the job. `targets` holds, for each process, the file that the
    /// path it is recognised by leads to, where it leads to one.
    pub fn listed(&mut self, job: &Job, targets: &[Option<String>], now: Nanos)
        ensures
            final(self)@ == old(self)@.after_listing(
                identified(*job, targets@, old(self)@.sets),
                shell_listed(*job, old(self)@.child),
                now,
            ),
            old(self)@.screen.sound() ==> final(self)@.screen.sound(),
    {
        let detected = identify(job, self.options.rule_sets.as_slice(), targets);
        let shell = has_shell(job, self.child);
        let known = self.loss.known();
        match self.loss.update(detected, shell) {
            Some(Detection::AgentFound { id, pid }) => {
                let same = match &self.active {
                    Some(active) => same_text(active.as_str(), id.as_str()),
                    None => false,
                };
                self.find(id, pid, known || !same, now);
            },
            Some(Detection::Exited { agent }) => {
                self.active = Some(agent);
                self.observe(None, None, true, now);
            },
            Some(Detection::AgentLost) => {
                self.active = None;
                self.observe(None, None, false, now);
            },
            None => {},
        }
    }

    /// Takes note of the time.
    pub fn tick(&mut self, now: Nanos)
        ensures
            final(self)@ == old(self)@.after_tick(now),
            final(self)@.screen == old(self)@.screen,
    {
        let events = self.machine.tick(now);
        proof {
            self@.announcing_keeps_the_rest(event_views(events@));
        }
        self.announce_all(&events);
    }

    /// What may be written to the terminal now: everything that is queued, if its stream is
    /// between sequences, and else nothing.
    pub fn drain(&mut self) -> (bytes: Vec<Vec<u8>>)
        ensures
            byte_views(bytes@) == old(self)@.writable(),
            final(self)@ == old(self)@.drained(),
    {
        let mut bytes: Vec<Vec<u8>> = Vec::new();
        assert(byte_views(bytes@) =~= Seq::empty());
        if self.screen.ground() {
            std::mem::swap(&mut bytes, &mut self.queued);
        }
        bytes
    }

    /// The records that are to be written to the sink.
    pub fn take_records(&mut self) -> (records: Vec<Record>)
        ensures
            record_views(records@) == old(self)@.records,
            final(self)@ == (SessionView { records: Seq::empty(), ..old(self)@ }),
    {
        let mut records: Vec<Record> = Vec::new();
        assert(record_views(records@) =~= Seq::empty());
        std::mem::swap(&mut records, &mut self.records);
        records
    }

    /// What there is to tell whoever debugs the session.
    pub fn take_notes(&mut self) -> (notes: Vec<Note>)
        ensures
            note_views(notes@) == old(self)@.notes,
            final(self)@ == (SessionView { notes: Seq::empty(), ..old(self)@ }),
    {
        let mut notes: Vec<Note> = Vec::new();
        assert(note_views(notes@) =~= Seq::empty());
        std::mem::swap(&mut notes, &mut self.notes);
        notes
    }

    /// Takes note of a new size of the terminal.
    pub fn resize(&mut self, rows: u16, cols: u16)
        requires
            old(self)@.screen.sound(),
            sound_size(rows, cols),
        ensures
            final(self)@ == (SessionView {
                screen: old(self)@.screen.resized(rows, cols),
                ..old(self)@
            }),
            final(self)@.screen.sound(),
    {
        self.screen.resize(rows, cols);
    }

    /// The foreground group at the last look.
    pub fn last_pgid(&self) -> (pgid: Option<Pid>)
        ensures
            pgid == self@.last_pgid,
    {
        self.last_pgid
    }

    /// The file that records the screen as it is.
    pub fn fixture(&self) -> (text: String)
        ensures
            text@ == fixture_text(
                self@.forced,
                self@.screen.heard.title,
                self@.screen.heard.progress,
                self@.screen.text,
            ),
    {
        write_fixture(agent_text(&self.options.agent), &self.screen)
    }

    /// The bytes that bring the child's title back, if another was written.
    pub fn restore(&self) -> (bytes: Option<Vec<u8>>)
        ensures
            bytes_view(bytes) == self@.titles.restoring(),
    {
        self.titles.restore()
    }
}

} // verus!
