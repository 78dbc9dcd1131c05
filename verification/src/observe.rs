//! Observation of a pane that a multiplexer owns, through what its control interface tells.
use crate::callbacks::{byte_views, clean_title, HeardView};
use crate::emit::title::bytes_view;
use crate::json::{
    found_view, json_items, json_member, json_number_of, json_parsed, json_step, json_text_of,
    json_view, json_views, number_of, parse, step, Json,
};
use crate::osc::{agent_view, formatted, AgentId, Report, ReportView};
use crate::platform::probe::{
    sighting_view, unknown_agent, Detection, DetectionView, LossTracker, LossView,
};
use crate::platform::{Job, Pid};
use crate::rules::eval::{evaluate, picture_of, verdict_of, Verdict, VerdictView};
use crate::rules::ident::{find_set, first_with_id, identified, identify};
use crate::rules::schema::RuleSet;
use crate::rules::view::Progress;
use crate::screen::{blank_screen, Screen, ScreenModel};
use crate::session::{has_shell, screen_picture, shell_listed};
use crate::state::{
    copied_agent, event_views, fresh, standard_config, verdict_view, Config, Event, EventView,
    Machine, MachineView, Nanos,
};
use crate::state_laws::{observations_announce_changes, reportable, ticks_announce_changes};
use crate::terminal::sound_size;
use crate::text::{same_bytes, same_text};
use vstd::prelude::*;
use vstd::utf8::encode_utf8;

verus! {

/// The longest reply.
pub const MAX_REPLY: usize = 1048576;

/// The longest capture that is asked for.
pub const MAX_CAPTURE: usize = 131072;

/// The line that both sides of the control interface start with.
pub open spec fn preface() -> Seq<u8> {
    encode_utf8("FUXCTL1\n"@)
}

/// Whether the other side has started with the right line.
pub fn preface_matches(line: &[u8]) -> (matched: bool)
    ensures
        matched == (line@ == preface()),
{
    same_bytes(line, "FUXCTL1\n".as_bytes())
}

/// Why a reply is not taken.
#[derive(Clone, Copy, Debug, PartialEq, Eq, Structural)]
pub enum ReplyError {
    /// The other side has closed.
    Closed,
    /// The reply is too long.
    TooLong,
    /// The reply is no JSON.
    Malformed,
    /// The request has failed.
    Failed,
}

/// A reply on its way in.
pub struct Reply {
    bytes: Vec<u8>,
}

impl View for Reply {
    type V = Seq<u8>;

    closed spec fn view(&self) -> Seq<u8> {
        self.bytes@
    }
}

fn holds_feed(bytes: &[u8]) -> (found: bool)
    ensures
        found == bytes@.contains(0x0a),
{
    for index in 0..bytes.len()
        invariant
            forall|earlier: int| 0 <= earlier < index ==> bytes@[earlier] != 0x0a,
    {
        if bytes[index] == 0x0a {
            assert(bytes@[index as int] == 0x0a);
            return true;
        }
    }
    false
}

impl Reply {
    pub fn new() -> (reply: Self)
        ensures
            reply@ == Seq::<u8>::empty(),
    {
        Reply { bytes: Vec::new() }
    }

    /// Takes one more stretch of the reply, and tells whether it is complete.
    pub fn push(&mut self, chunk: &[u8]) -> (complete: Result<bool, ReplyError>)
        ensures
            match complete {
                Ok(whole) => {
                    &&& chunk@.len() > 0
                    &&& final(self)@ == old(self)@ + chunk@
                    &&& final(self)@.len() <= MAX_REPLY
                    &&& whole == final(self)@.contains(0x0a)
                },
                Err(ReplyError::Closed) => chunk@.len() == 0 && final(self)@ == old(self)@,
                Err(ReplyError::TooLong) => {
                    &&& chunk@.len() > 0
                    &&& old(self)@.len() + chunk@.len() > MAX_REPLY
                    &&& final(self)@ == old(self)@
                },
                Err(_) => false,
            },
    {
        if chunk.len() == 0 {
            return Err(ReplyError::Closed);
        }
        if chunk.len() > MAX_REPLY || self.bytes.len() > MAX_REPLY - chunk.len() {
            return Err(ReplyError::TooLong);
        }
        self.bytes.extend_from_slice(chunk);
        Ok(holds_feed(self.bytes.as_slice()))
    }

    /// Reads the reply.
    pub fn read(&self) -> (value: Result<serde_json::Value, ReplyError>)
        ensures
            match value {
                Ok(found) => accepted(self@) == Some(json_view(found)),
                Err(ReplyError::Malformed) => json_parsed(self@) is None,
                Err(ReplyError::Failed) => json_parsed(self@) is Some && accepted(self@) is None,
                Err(_) => false,
            },
    {
        match parse(self.bytes.as_slice()) {
            Some(value) => {
                let completed = match step(Some(&value), "status") {
                    Some(status) => match status.as_str() {
                        Some(text) => same_text(text, "completed"),
                        None => false,
                    },
                    None => false,
                };
                if completed {
                    Ok(value)
                } else {
                    Err(ReplyError::Failed)
                }
            },
            None => Err(ReplyError::Malformed),
        }
    }
}

/// The value that a reply holds, where the request has been completed.
pub open spec fn accepted(bytes: Seq<u8>) -> Option<Json> {
    match json_parsed(bytes) {
        Some(value) => if json_text_of(json_step(Some(value), "status"@)) == Some("completed"@) {
            Some(value)
        } else {
            None
        },
        None => None,
    }
}

/// The items of the arrays that the values have under a key, in order.
pub open spec fn gathered(values: Seq<Json>, key: Seq<char>) -> Seq<Json>
    decreases values.len(),
{
    if values.len() == 0 {
        Seq::empty()
    } else {
        gathered(values.drop_last(), key) + json_items(json_member(values.last(), key))
    }
}

/// All panes of a listing, workspace by workspace and tab by tab.
pub open spec fn panes_of(listing: Json) -> Seq<Json> {
    let value = json_step(json_step(Some(listing), "result"@), "value"@);
    let workspaces = json_items(json_step(value, "workspaces"@));
    gathered(gathered(workspaces, "tabs"@), "panes"@)
}

/// The first of the panes with the given id.
pub open spec fn pane_with_id(panes: Seq<Json>, id: u64) -> Option<Json>
    decreases panes.len(),
{
    if panes.len() == 0 {
        None
    } else if pane_with_id(panes.drop_last(), id) is Some {
        pane_with_id(panes.drop_last(), id)
    } else if json_number_of(json_member(panes.last(), "id"@)) == Some(id) {
        Some(panes.last())
    } else {
        None
    }
}

/// A side of a pane without its frame, within what can be observed.
pub open spec fn inner_side(side: Option<u64>, standard: u64, least: u16) -> u16 {
    let outer = match side {
        Some(value) => value,
        None => standard,
    };
    if outer < least + 2 {
        least
    } else if outer > 1002 {
        1000
    } else {
        (outer - 2) as u16
    }
}

/// The progress that two numbers stand for.
pub open spec fn pane_progress(values: Seq<Json>) -> Option<Progress> {
    if values.len() < 2 {
        None
    } else {
        match (json_number_of(Some(values[0])), json_number_of(Some(values[1]))) {
            (Some(state), Some(percent)) => if state <= 4 && percent <= 100 {
                Some(Progress { state: state as u8, percent: percent as u8 })
            } else {
                None
            },
            _ => None,
        }
    }
}

/// What is read of a pane.
#[derive(Debug, PartialEq, Eq)]
pub struct Pane {
    pub pid: Option<u64>,
    pub rows: u16,
    pub cols: u16,
    pub title: String,
    pub progress: Option<Progress>,
}

/// What is read of a pane, in mathematical terms.
#[verifier::ext_equal]
pub struct PaneView {
    pub pid: Option<u64>,
    pub rows: u16,
    pub cols: u16,
    pub title: Seq<char>,
    pub progress: Option<Progress>,
}

impl View for Pane {
    type V = PaneView;

    open spec fn view(&self) -> PaneView {
        PaneView {
            pid: self.pid,
            rows: self.rows,
            cols: self.cols,
            title: self.title@,
            progress: self.progress,
        }
    }
}

/// What a summary of a pane says.
pub open spec fn pane_summary(pane: Json) -> PaneView {
    let geometry = json_member(pane, "geometry"@);
    PaneView {
        pid: json_number_of(json_member(pane, "pid"@)),
        rows: inner_side(json_number_of(json_step(geometry, "height"@)), 26, 2),
        cols: inner_side(json_number_of(json_step(geometry, "width"@)), 82, 3),
        title: match json_text_of(json_member(pane, "title"@)) {
            Some(title) => title,
            None => Seq::empty(),
        },
        progress: pane_progress(json_items(json_member(pane, "progress"@))),
    }
}

/// What values hold.
pub open spec fn ref_views(values: Seq<&serde_json::Value>) -> Seq<Json> {
    Seq::new(values.len(), |index: int| json_view(*values[index]))
}

fn push_items<'a>(found: &mut Vec<&'a serde_json::Value>, value: Option<&'a serde_json::Value>)
    ensures
        ref_views(final(found)@) == ref_views(old(found)@) + json_items(found_view(value)),
{
    let ghost before = ref_views(found@);
    match value {
        Some(array) => match array.as_array() {
            Some(items) => {
                let ghost all = json_views(items@);
                for index in 0..items.len()
                    invariant
                        all == json_views(items@),
                        ref_views(found@) == before + all.take(index as int),
                {
                    let ghost sofar = found@;
                    found.push(&items[index]);
                    assert(ref_views(found@) =~= ref_views(sofar).push(all[index as int]));
                    assert(ref_views(found@) =~= before + all.take(index + 1));
                }
                assert(all.take(items@.len() as int) =~= all);
            },
            None => {
                assert(ref_views(found@) =~= before + json_items(found_view(value)));
            },
        },
        None => {
            assert(ref_views(found@) =~= before + json_items(found_view(value)));
        },
    }
}

fn gather<'a>(values: &Vec<&'a serde_json::Value>, key: &str) -> (found: Vec<
    &'a serde_json::Value,
>)
    ensures
        ref_views(found@) == gathered(ref_views(values@), key@),
{
    let ghost all = ref_views(values@);
    let mut found: Vec<&'a serde_json::Value> = Vec::new();
    assert(ref_views(found@) =~= gathered(all.take(0), key@));
    for index in 0..values.len()
        invariant
            all == ref_views(values@),
            ref_views(found@) == gathered(all.take(index as int), key@),
    {
        assert(all.take(index + 1).drop_last() =~= all.take(index as int));
        assert(all.take(index + 1).last() == json_view(*values@[index as int]));
        push_items(&mut found, step(Some(values[index]), key));
    }
    assert(all.take(values@.len() as int) =~= all);
    found
}

proof fn lemma_pane_found(panes: Seq<Json>, id: u64, count: int)
    requires
        0 <= count <= panes.len(),
        pane_with_id(panes.take(count), id) is Some,
    ensures
        pane_with_id(panes, id) == pane_with_id(panes.take(count), id),
    decreases panes.len() - count,
{
    if count == panes.len() {
        assert(panes.take(count) =~= panes);
    } else {
        assert(panes.take(count + 1).drop_last() =~= panes.take(count));
        lemma_pane_found(panes, id, count + 1);
    }
}

fn side_of(side: Option<u64>, standard: u64, least: u16) -> (inner: u16)
    requires
        least <= 1000,
    ensures
        inner == inner_side(side, standard, least),
        least <= inner <= 1000,
{
    let outer: u64 = match side {
        Some(value) => value,
        None => standard,
    };
    if outer < least as u64 + 2 {
        least
    } else if outer > 1002 {
        1000
    } else {
        (outer - 2) as u16
    }
}

fn read_progress(value: Option<&serde_json::Value>) -> (progress: Option<Progress>)
    ensures
        progress == pane_progress(json_items(found_view(value))),
{
    let mut items: Vec<&serde_json::Value> = Vec::new();
    assert(ref_views(items@) =~= Seq::empty());
    push_items(&mut items, value);
    let ghost all = json_items(found_view(value));
    assert(ref_views(items@) =~= all);
    if items.len() < 2 {
        return None;
    }
    assert(all[0] == json_view(*items@[0]));
    assert(all[1] == json_view(*items@[1]));
    match (number_of(Some(items[0])), number_of(Some(items[1]))) {
        (Some(state), Some(percent)) => if state <= 4 && percent <= 100 {
            Some(Progress { state: state as u8, percent: percent as u8 })
        } else {
            None
        },
        _ => None,
    }
}

fn summarize(pane: &serde_json::Value) -> (summary: Pane)
    ensures
        summary@ == pane_summary(json_view(*pane)),
        sound_size(summary.rows, summary.cols),
{
    let geometry = step(Some(pane), "geometry");
    let title = match step(Some(pane), "title") {
        Some(value) => match value.as_str() {
            Some(text) => text.to_owned(),
            None => String::new(),
        },
        None => String::new(),
    };
    let summary = Pane {
        pid: number_of(step(Some(pane), "pid")),
        rows: side_of(number_of(step(geometry, "height")), 26, 2),
        cols: side_of(number_of(step(geometry, "width")), 82, 3),
        title,
        progress: read_progress(step(Some(pane), "progress")),
    };
    assert(summary@ =~= pane_summary(json_view(*pane)));
    summary
}

/// The pane with the given id in a listing.
pub fn find_pane(listing: &serde_json::Value, id: u32) -> (pane: Option<Pane>)
    ensures
        match (pane_with_id(panes_of(json_view(*listing)), id as u64), pane) {
            (Some(found), Some(summary)) => summary@ == pane_summary(found) && sound_size(
                summary.rows,
                summary.cols,
            ),
            (None, None) => true,
            _ => false,
        },
{
    let value = step(step(Some(listing), "result"), "value");
    let mut workspaces: Vec<&serde_json::Value> = Vec::new();
    assert(ref_views(workspaces@) =~= Seq::empty());
    push_items(&mut workspaces, step(value, "workspaces"));
    assert(ref_views(workspaces@) =~= json_items(
        json_step(found_view(value), "workspaces"@),
    ));
    let tabs = gather(&workspaces, "tabs");
    let panes = gather(&tabs, "panes");
    let ghost all = panes_of(json_view(*listing));
    assert(ref_views(panes@) == all);
    for index in 0..panes.len()
        invariant
            ref_views(panes@) == all,
            all == panes_of(json_view(*listing)),
            pane_with_id(all.take(index as int), id as u64) is None,
    {
        assert(all.take(index + 1).drop_last() =~= all.take(index as int));
        assert(all.take(index + 1).last() == json_view(*panes@[index as int]));
        let found = match number_of(step(Some(panes[index]), "id")) {
            Some(value) => value == id as u64,
            None => false,
        };
        if found {
            proof {
                lemma_pane_found(all, id as u64, index + 1);
            }
            return Some(summarize(panes[index]));
        }
    }
    assert(all.take(panes@.len() as int) =~= all);
    None
}

/// The text of a capture.
pub open spec fn captured_text(capture: Json) -> Option<Seq<char>> {
    json_text_of(json_step(json_step(json_step(Some(capture), "result"@), "value"@), "text"@))
}

/// The text of a capture.
pub fn capture_text(capture: &serde_json::Value) -> (text: Option<&str>)
    ensures
        match text {
            Some(found) => captured_text(json_view(*capture)) == Some(found@),
            None => captured_text(json_view(*capture)) is None,
        },
{
    match step(step(step(Some(capture), "result"), "value"), "text") {
        Some(value) => value.as_str(),
        None => None,
    }
}

/// Whether a pane still runs the process that it is observed for.
pub fn same_process(pane: &Pane, pid: u32) -> (same: bool)
    ensures
        same == (pane.pid == Some(pid as u64)),
{
    match pane.pid {
        Some(found) => found == pid as u64,
        None => false,
    }
}

/// What is to be done after the panes were asked for.
#[derive(Debug, PartialEq, Eq)]
pub enum Next {
    /// Ask again: the other side may not be ready yet.
    Retry,
    /// Give up.
    Fail,
    /// End, because the pane is gone or runs another process.
    End,
    /// Ask for a capture of the pane.
    Capture(Pane),
}

/// Decides what is to be done after the panes were asked for, given what was listed, if anything
/// was, and whether the observation is still starting.
pub fn after_listing(
    listing: Option<&serde_json::Value>,
    pane: u32,
    pid: u32,
    starting: bool,
) -> (next: Next)
    ensures
        match listing {
            None => next == if starting {
                Next::Retry
            } else {
                Next::Fail
            },
            Some(value) => match pane_with_id(panes_of(json_view(*value)), pane as u64) {
                Some(found) => if pane_summary(found).pid == Some(pid as u64) {
                    &&& next matches Next::Capture(summary)
                    &&& summary@ == pane_summary(found)
                    &&& sound_size(summary.rows, summary.cols)
                } else {
                    next == Next::End
                },
                None => next == Next::End,
            },
        },
{
    match listing {
        Some(value) => match find_pane(value, pane) {
            Some(found) => if same_process(&found, pid) {
                Next::Capture(found)
            } else {
                Next::End
            },
            None => Next::End,
        },
        None => if starting {
            Next::Retry
        } else {
            Next::Fail
        },
    }
}

/// The screen that a pane shows, by its capture and its summary.
pub open spec fn pane_screen(pane: PaneView, capture: Seq<u8>) -> ScreenModel {
    let screen = blank_screen(pane.rows, pane.cols).processed(capture);
    ScreenModel {
        heard: HeardView {
            title: clean_title(pane.title),
            progress: pane.progress,
            ..screen.heard
        },
        ..screen
    }
}

/// An observer in mathematical terms.
#[verifier::ext_equal]
pub struct ObserverView {
    pub sets: Seq<RuleSet>,
    /// The agent that was given, and is not looked for.
    pub forced: Option<Seq<char>>,
    pub active: Option<Seq<char>>,
    pub machine: MachineView,
    pub loss: LossView,
}

impl ObserverView {
    /// What a listing of the job says.
    pub open spec fn listed(
        self,
        detected: Option<(Seq<char>, Pid)>,
        shell: bool,
    ) -> (LossView, Option<DetectionView>) {
        if self.forced is Some {
            (self.loss, None)
        } else {
            self.loss.updated(detected, shell)
        }
    }

    /// What the rules say of an agent.
    pub open spec fn verdict(self, agent: Option<Seq<char>>, screen: ScreenModel) -> Option<
        VerdictView,
    > {
        match agent {
            Some(id) => match first_with_id(self.sets, id) {
                Some(set) => Some(verdict_of(self.sets[set], screen_picture(screen))),
                None => None,
            },
            None => None,
        }
    }

    /// The agent after a detection.
    pub open spec fn active_after(self, detection: Option<DetectionView>) -> Option<Seq<char>> {
        match detection {
            Some(DetectionView::AgentFound { id, .. }) => Some(id),
            Some(DetectionView::Exited { agent }) => Some(agent),
            Some(DetectionView::AgentLost) => None,
            None => self.active,
        }
    }

    /// What the machine makes of a verdict on the active agent and of the time.
    pub open spec fn settled(
        self,
        verdict: Option<VerdictView>,
        replaced: bool,
        pid: Option<Pid>,
        exited: bool,
        now: Nanos,
    ) -> (ObserverView, Seq<EventView>) {
        let (noted, events) = self.machine.observed(
            verdict,
            self.active,
            replaced,
            pid,
            exited,
            now,
        );
        let (machine, more) = noted.ticked(now);
        (ObserverView { machine, ..self }, events + more)
    }

    /// What the observer makes of a sample, and what its machine announces.
    pub open spec fn sampled(
        self,
        screen: ScreenModel,
        detected: Option<(Seq<char>, Pid)>,
        shell: bool,
        now: Nanos,
    ) -> (ObserverView, Seq<EventView>) {
        let (loss, detection) = self.listed(detected, shell);
        let looked = ObserverView { active: self.active_after(detection), loss, ..self };
        looked.settled(
            looked.verdict(looked.active, screen),
            detection matches Some(DetectionView::AgentFound { .. }),
            match detected {
                Some((_, pid)) => Some(pid),
                None => None,
            },
            detection matches Some(DetectionView::Exited { .. }),
            now,
        )
    }
}

/// The line that an event makes, if it makes one: a report and a line feed.
pub open spec fn report_line(event: EventView) -> Option<Seq<u8>> {
    match event {
        EventView::Changed { state, agent, seq, visible, exited, .. } => Some(
            formatted(
                ReportView { state, agent, seq, visible, exited, message: None },
            ).push(0x0a),
        ),
        EventView::Heartbeat { state, agent, seq, visible } => Some(
            formatted(
                ReportView { state, agent, seq, visible, exited: false, message: None },
            ).push(0x0a),
        ),
        _ => None,
    }
}

/// The lines that events make, in order.
pub open spec fn report_lines(events: Seq<EventView>) -> Seq<Seq<u8>>
    decreases events.len(),
{
    if events.len() == 0 {
        Seq::empty()
    } else {
        match report_line(events.last()) {
            Some(line) => report_lines(events.drop_last()).push(line),
            None => report_lines(events.drop_last()),
        }
    }
}

/// Every event makes a well-formed report, if it makes one.
pub open spec fn all_reportable(events: Seq<EventView>) -> bool {
    forall|index: int| 0 <= index < events.len() ==> reportable(#[trigger] events[index])
}

fn write_line(event: &Event) -> (line: Option<Vec<u8>>)
    requires
        reportable(event@),
    ensures
        bytes_view(line) == report_line(event@),
{
    let report = match event {
        Event::Changed { state, agent, seq, visible, exited, .. } => Report::new(
            *state,
            copied_agent(agent),
            *seq,
            *visible,
            *exited,
            None,
        ),
        Event::Heartbeat { state, agent, seq, visible } => Report::new(
            *state,
            copied_agent(agent),
            *seq,
            *visible,
            false,
            None,
        ),
        _ => {
            return None;
        },
    };
    match report {
        Ok(value) => {
            let mut line = crate::osc::format(&value);
            line.push(0x0a);
            Some(line)
        },
        Err(_) => None,
    }
}

fn write_lines(events: &Vec<Event>) -> (lines: Vec<Vec<u8>>)
    requires
        all_reportable(event_views(events@)),
    ensures
        byte_views(lines@) == report_lines(event_views(events@)),
{
    let ghost all = event_views(events@);
    let mut lines: Vec<Vec<u8>> = Vec::new();
    assert(byte_views(lines@) =~= report_lines(all.take(0)));
    for index in 0..events.len()
        invariant
            all == event_views(events@),
            all_reportable(all),
            byte_views(lines@) == report_lines(all.take(index as int)),
    {
        let ghost longer = all.take(index + 1);
        assert(longer.drop_last() =~= all.take(index as int));
        assert(longer.last() == events@[index as int]@);
        assert(reportable(all[index as int]));
        match write_line(&events[index]) {
            Some(line) => {
                let ghost before = lines@;
                lines.push(line);
                assert(byte_views(lines@) =~= byte_views(before).push(line@));
            },
            None => {},
        }
    }
    assert(all.take(events@.len() as int) =~= all);
    lines
}

/// Observes a pane from sample to sample.
pub struct Observer {
    sets: Vec<RuleSet>,
    forced: Option<AgentId>,
    active: Option<AgentId>,
    machine: Machine,
    loss: LossTracker,
}

impl View for Observer {
    type V = ObserverView;

    closed spec fn view(&self) -> ObserverView {
        ObserverView {
            sets: self.sets@,
            forced: agent_view(self.forced),
            active: agent_view(self.active),
            machine: self.machine@,
            loss: self.loss@,
        }
    }
}

impl Observer {
    /// An observer that has seen nothing.
    pub fn new(sets: Vec<RuleSet>, forced: Option<AgentId>) -> (observer: Self)
        ensures
            observer@ == (ObserverView {
                sets: sets@,
                forced: agent_view(forced),
                active: agent_view(forced),
                machine: fresh(standard_config()),
                loss: unknown_agent(),
            }),
    {
        Observer {
            sets,
            active: copied_agent(&forced),
            forced,
            machine: Machine::new(Config::default()),
            loss: LossTracker::new(),
        }
    }

    fn look(&mut self, detected: Option<(AgentId, Pid)>, shell: bool) -> (seen: (Option<Pid>, bool))
        ensures
            ({
                let (loss, detection) = old(self)@.listed(sighting_view(detected), shell);
                &&& final(self)@ == (ObserverView {
                    active: old(self)@.active_after(detection),
                    loss,
                    ..old(self)@
                })
                &&& seen.0 == match detection {
                    Some(DetectionView::AgentFound { pid, .. }) => Some(pid),
                    _ => None,
                }
                &&& seen.1 == (detection matches Some(DetectionView::Exited { .. }))
            }),
    {
        if self.forced.is_some() {
            return (None, false);
        }
        match self.loss.update(detected, shell) {
            Some(Detection::AgentFound { id, pid }) => {
                self.active = Some(id);
                (Some(pid), false)
            },
            Some(Detection::Exited { agent }) => {
                self.active = Some(agent);
                (None, true)
            },
            Some(Detection::AgentLost) => {
                self.active = None;
                (None, false)
            },
            None => (None, false),
        }
    }

    fn judge(&self, screen: &Screen) -> (verdict: Option<Verdict>)
        ensures
            verdict_view(verdict) == self@.verdict(self@.active, screen@),
    {
        match &self.active {
            Some(id) => match find_set(self.sets.as_slice(), id.as_str()) {
                Some(index) => {
                    assert(picture_of(screen) =~= screen_picture(screen@));
                    Some(evaluate(&self.sets[index], screen))
                },
                None => None,
            },
            None => None,
        }
    }

    fn settle(
        &mut self,
        verdict: Option<Verdict>,
        pid: Option<Pid>,
        found: Option<Pid>,
        exited: bool,
        now: Nanos,
    ) -> (events: Vec<Event>)
        requires
            found is Some ==> found == pid && old(self)@.active is Some && !exited,
        ensures
            (final(self)@, event_views(events@)) == old(self)@.settled(
                verdict_view(verdict),
                found is Some,
                pid,
                exited,
                now,
            ),
            all_reportable(event_views(events@)),
    {
        let ghost start = self@;
        let ghost judged = verdict_view(verdict);
        let mut events = match (found, copied_agent(&self.active)) {
            (Some(process), Some(agent)) => self.machine.replace(verdict, agent, process, now),
            (_, agent) => self.machine.observe(verdict, agent, pid, exited, now),
        };
        let ghost noted = self.machine@;
        let ghost first = event_views(events@);
        let mut more = self.machine.tick(now);
        let ghost second = event_views(more@);
        proof {
            observations_announce_changes(
                start.machine,
                judged,
                start.active,
                found is Some,
                pid,
                exited,
                now,
            );
            ticks_announce_changes(noted, now);
        }
        events.append(&mut more);
        assert(event_views(events@) =~= first + second);
        assert forall|index: int| 0 <= index < (first + second).len() implies reportable(
            #[trigger] (first + second)[index],
        ) by {
            if index < first.len() {
                assert((first + second)[index] == first[index]);
            } else {
                assert((first + second)[index] == second[index - first.len()]);
            }
        }
        events
    }

    /// Takes note of a sample of the pane: its summary, its capture and its foreground job, and
    /// gives the lines to be written. `targets` holds, for each process of the job, the file that
    /// the path it is recognised by leads to, where it leads to one.
    pub fn sample(
        &mut self,
        pane: &Pane,
        capture: &str,
        child: Pid,
        job: &Job,
        targets: &[Option<String>],
        now: Nanos,
    ) -> (lines: Vec<Vec<u8>>)
        requires
            sound_size(pane.rows, pane.cols),
        ensures
            ({
                let (after, events) = old(self)@.sampled(
                    pane_screen(pane@, encode_utf8(capture@)),
                    identified(*job, targets@, old(self)@.sets),
                    shell_listed(*job, Some(child)),
                    now,
                );
                &&& final(self)@ == after
                &&& all_reportable(events)
                &&& byte_views(lines@) == report_lines(events)
            }),
    {
        let screen = show_pane(pane, capture);
        let detected = identify(job, self.sets.as_slice(), targets);
        let pid: Option<Pid> = match &detected {
            Some((_, pid)) => Some(*pid),
            None => None,
        };
        let shell = has_shell(job, Some(child));
        let seen: (Option<Pid>, bool) = self.look(detected, shell);
        let verdict = self.judge(&screen);
        let events = self.settle(verdict, pid, seen.0, seen.1, now);
        write_lines(&events)
    }
}

fn show_pane(pane: &Pane, capture: &str) -> (screen: Screen)
    requires
        sound_size(pane.rows, pane.cols),
    ensures
        screen@ == pane_screen(pane@, encode_utf8(capture@)),
{
    let mut screen = Screen::new(pane.rows, pane.cols);
    let _ground = screen.process(capture.as_bytes());
    screen.set_observed_title(pane.title.as_str());
    screen.set_observed_progress(pane.progress);
    assert(screen@ =~= pane_screen(pane@, encode_utf8(capture@)));
    screen
}

} // verus!
