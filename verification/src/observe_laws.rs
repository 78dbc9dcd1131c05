//! What an observer makes of the panes that it samples.
use crate::callbacks::clean_title;
use crate::json::{json_items, json_member, json_number_of, json_parsed, Json};
use crate::observe::{
    accepted, captured_text, gathered, inner_side, pane_progress, pane_screen, pane_summary,
    pane_with_id, panes_of, preface, report_line, report_lines, ObserverView, PaneView,
};
use crate::osc::{parsed, valid_agent, Flags, ReportView, State};
use crate::osc_laws::report_round_trip;
use crate::platform::Pid;
use crate::rules::eval::{gate_holds, verdict_of, Picture};
use crate::rules::gate_laws::a_single_rule_decides;
use crate::rules::ident::first_with_id;
use crate::rules::view::Progress;
use crate::screen::{blank_screen, terminal_window};
use crate::screen_laws::{presentable, presentable_titles_are_kept};
use crate::session::screen_picture;
use crate::state::{fresh, standard_config, EventView, Nanos};
use crate::terminal::{fed, Step};
use crate::text::joined_lines;
use crate::window_laws::{differs, new_screens_show_nothing, screens_show_what_was_given, unbroken};
use vstd::prelude::*;

verus! {

/// A terminal that has just been made.
pub open spec fn made(rows: u16, cols: u16) -> Seq<Step> {
    seq![Step::Start { rows, cols, history: 65535 }]
}

/// What the rules read of a pane is what a terminal of its size shows that was given exactly the
/// capture, with the title and the progress of its summary: the window of that terminal where the
/// capture makes it look different from a new one, and that of the new one else.
pub proof fn panes_show_their_capture(pane: PaneView, capture: Seq<u8>)
    requires
        unbroken(blank_screen(pane.rows, pane.cols), capture),
    ensures
        ({
            let picture = screen_picture(pane_screen(pane, capture));
            &&& picture.lines == terminal_window(
                if differs(blank_screen(pane.rows, pane.cols), capture) {
                    fed(made(pane.rows, pane.cols), capture)
                } else {
                    made(pane.rows, pane.cols)
                },
                pane.rows,
                pane.cols,
            )
            &&& picture.text == joined_lines(picture.lines)
            &&& presentable(pane.title) ==> picture.title == pane.title
            &&& picture.title == clean_title(pane.title)
            &&& picture.progress == pane.progress
        }),
{
    let screen = blank_screen(pane.rows, pane.cols);
    new_screens_show_nothing(pane.rows, pane.cols);
    screens_show_what_was_given(screen, capture);
    if presentable(pane.title) {
        presentable_titles_are_kept(pane.title);
    }
}

/// Captures that make a terminal of the pane's size show different windows are different to the
/// rules, line by line.
pub proof fn different_captures_look_different(pane: PaneView, first: Seq<u8>, second: Seq<u8>)
    requires
        unbroken(blank_screen(pane.rows, pane.cols), first),
        unbroken(blank_screen(pane.rows, pane.cols), second),
        differs(blank_screen(pane.rows, pane.cols), first),
        differs(blank_screen(pane.rows, pane.cols), second),
        terminal_window(fed(made(pane.rows, pane.cols), first), pane.rows, pane.cols)
            != terminal_window(fed(made(pane.rows, pane.cols), second), pane.rows, pane.cols),
    ensures
        screen_picture(pane_screen(pane, first)).lines != screen_picture(
            pane_screen(pane, second),
        ).lines,
{
    panes_show_their_capture(pane, first);
    panes_show_their_capture(pane, second);
}

/// The active agent of a pane is judged by the rules of its set on what the pane shows, and the
/// machine of the observer takes note of that verdict and then of the time.
pub proof fn panes_are_judged(
    observer: ObserverView,
    pane: PaneView,
    capture: Seq<u8>,
    id: Seq<char>,
    set: int,
    now: Nanos,
)
    requires
        observer.forced == Some(id),
        observer.active == Some(id),
        first_with_id(observer.sets, id) == Some(set),
        unbroken(blank_screen(pane.rows, pane.cols), capture),
        differs(blank_screen(pane.rows, pane.cols), capture),
    ensures
        ({
            let lines = terminal_window(
                fed(made(pane.rows, pane.cols), capture),
                pane.rows,
                pane.cols,
            );
            let picture = Picture {
                lines,
                text: joined_lines(lines),
                title: clean_title(pane.title),
                progress: pane.progress,
            };
            let (noted, events) = observer.machine.observed(
                Some(verdict_of(observer.sets[set], picture)),
                Some(id),
                false,
                None,
                false,
                now,
            );
            let (after, told) = observer.sampled(pane_screen(pane, capture), None, false, now);
            &&& after.machine == noted.ticked(now).0
            &&& told == events + noted.ticked(now).1
            &&& after.active == Some(id)
        }),
{
    panes_show_their_capture(pane, capture);
    let lines = terminal_window(fed(made(pane.rows, pane.cols), capture), pane.rows, pane.cols);
    assert(screen_picture(pane_screen(pane, capture)) =~= (Picture {
        lines,
        text: joined_lines(lines),
        title: clean_title(pane.title),
        progress: pane.progress,
    }));
}

/// The observer follows the agent that its listings show.
pub open spec fn follows(observer: ObserverView) -> bool {
    observer.forced is None ==> observer.active == match observer.loss.current {
        Some((id, _)) => Some(id),
        None => None,
    }
}

/// An agent that was given stays, whatever is listed. Else the agent is the one that the last
/// listing showed; it is kept over listings that miss it until it has exited or was missed too
/// often.
pub proof fn observers_follow_the_agent(
    observer: ObserverView,
    screen: crate::screen::ScreenModel,
    detected: Option<(Seq<char>, Pid)>,
    shell: bool,
    now: Nanos,
)
    requires
        follows(observer),
    ensures
        ({
            let after = observer.sampled(screen, detected, shell, now).0;
            &&& follows(after)
            &&& observer.forced is Some ==> after.active == observer.active && after.loss
                == observer.loss
            &&& observer.forced is None && detected is Some ==> after.loss.current == detected
            &&& observer.forced is None ==> (detected matches Some((id, _)) ==> after.active
                == Some(id))
            &&& observer.forced is None && detected is None && shell && observer.loss.current is Some
                && !observer.loss.exited ==> after.active == observer.active
                && after.machine.current is Idle
            &&& observer.forced is None && detected is None && observer.loss.exited
                && observer.loss.current is Some ==> after.active is None
            &&& after.sets == observer.sets
            &&& after.forced == observer.forced
        }),
{
    let (loss, detection) = observer.listed(detected, shell);
    let looked = ObserverView { active: observer.active_after(detection), loss, ..observer };
    if observer.forced is None && detected is None && shell && observer.loss.current is Some
        && !observer.loss.exited {
        let (noted, events) = looked.machine.observed(
            looked.verdict(looked.active, screen),
            looked.active,
            false,
            None,
            true,
            now,
        );
        assert(noted.current is Idle);
        assert(noted.hold is None);
    }
}

/// A line reads back as what it reports: a change with its exit mark, a heartbeat without one.
pub proof fn lines_read_back(event: EventView)
    ensures
        match event {
            EventView::Changed { state, agent, seq, visible, exited, .. } => {
                (state is NoAgent) == (agent is None) && (agent matches Some(id) ==> valid_agent(
                    id,
                )) ==> reads_as(
                    report_line(event),
                    ReportView { state, agent, seq, visible, exited, message: None },
                )
            },
            EventView::Heartbeat { state, agent, seq, visible } => {
                (state is NoAgent) == (agent is None) && (agent matches Some(id) ==> valid_agent(
                    id,
                )) ==> reads_as(
                    report_line(event),
                    ReportView { state, agent, seq, visible, exited: false, message: None },
                )
            },
            _ => report_line(event) is None,
        },
{
    match event {
        EventView::Changed { state, agent, seq, visible, exited, .. } => {
            let report = ReportView { state, agent, seq, visible, exited, message: None };
            if report.valid() {
                report_round_trip(report);
                let line = report_line(event)->0;
                assert(line.drop_last() =~= crate::osc::formatted(report));
            }
        },
        EventView::Heartbeat { state, agent, seq, visible } => {
            let report = ReportView {
                state,
                agent,
                seq,
                visible,
                exited: false,
                message: None,
            };
            if report.valid() {
                report_round_trip(report);
                let line = report_line(event)->0;
                assert(line.drop_last() =~= crate::osc::formatted(report));
            }
        },
        _ => {},
    }
}

/// The line ends with a line feed, and what is before it is the report.
pub open spec fn reads_as(line: Option<Seq<u8>>, report: ReportView) -> bool {
    line matches Some(bytes) && bytes.len() > 0 && bytes.last() == 0x0a && parsed(bytes.drop_last())
        == Some(report)
}

/// The lines of events are those of the first of them and then those of the rest; one event makes
/// its own line or none.
pub proof fn lines_keep_the_order(first: Seq<EventView>, second: Seq<EventView>, event: EventView)
    ensures
        report_lines(first + second) == report_lines(first) + report_lines(second),
        report_lines(seq![event]) == match report_line(event) {
            Some(line) => seq![line],
            None => Seq::<Seq<u8>>::empty(),
        },
    decreases second.len(),
{
    let one = seq![event];
    assert(one.drop_last() =~= Seq::empty());
    assert(report_lines(one.drop_last()) =~= Seq::empty());
    assert(report_lines(one) =~= match report_line(event) {
        Some(line) => seq![line],
        None => Seq::<Seq<u8>>::empty(),
    });
    if second.len() == 0 {
        assert(first + second =~= first);
        assert(report_lines(first) + report_lines(second) =~= report_lines(first));
    } else {
        let before = second.drop_last();
        assert((first + second).drop_last() =~= first + before);
        lines_keep_the_order(first, before, event);
        assert(report_lines(first + second) =~= report_lines(first) + report_lines(second));
    }
}

/// A side of a pane is observed without its frame of two, but not smaller than the least size and
/// not larger than a thousand.
pub proof fn frames_are_taken_off(side: u64, standard: u64, least: u16)
    requires
        least <= 1000,
    ensures
        least + 2 <= side <= 1002 ==> inner_side(Some(side), standard, least) + 2 == side,
        side < least + 2 ==> inner_side(Some(side), standard, least) == least,
        side > 1002 ==> inner_side(Some(side), standard, least) == 1000,
        inner_side(None, standard, least) == inner_side(Some(standard), standard, least),
{
}

/// What is read of a pane: each part of its summary from its own place, with 26 and 82 for sides
/// that are missing and nothing for a title that is.
pub proof fn summaries_are_read(
    pane: Map<Seq<char>, Json>,
    geometry: Map<Seq<char>, Json>,
    height: u64,
    width: u64,
    title: Seq<char>,
    pid: u64,
    progress: Seq<Json>,
)
    requires
        pane.dom().contains("geometry"@),
        pane["geometry"@] == Json::Object(geometry),
    ensures
        ({
            let summary = pane_summary(Json::Object(pane));
            &&& geometry.dom().contains("height"@) && geometry["height"@] == Json::Number(
                Some(height),
            ) && 4 <= height <= 1002 ==> summary.rows + 2 == height
            &&& geometry.dom().contains("width"@) && geometry["width"@] == Json::Number(Some(width))
                && 5 <= width <= 1002 ==> summary.cols + 2 == width
            &&& !geometry.dom().contains("height"@) ==> summary.rows == 24
            &&& !geometry.dom().contains("width"@) ==> summary.cols == 80
            &&& pane.dom().contains("title"@) && pane["title"@] == Json::Text(title)
                ==> summary.title == title
            &&& !pane.dom().contains("title"@) ==> summary.title.len() == 0
            &&& pane.dom().contains("pid"@) && pane["pid"@] == Json::Number(Some(pid))
                ==> summary.pid == Some(pid)
            &&& !pane.dom().contains("pid"@) ==> summary.pid is None
            &&& pane.dom().contains("progress"@) && pane["progress"@] == Json::Array(progress)
                ==> summary.progress == pane_progress(progress)
            &&& !pane.dom().contains("progress"@) ==> summary.progress is None
        }),
{
}

/// A progress is two numbers, the first up to four and the second up to a hundred; what follows them
/// does not count, and anything else is none.
pub proof fn pane_progress_is_two_numbers(state: u64, percent: u64, rest: Seq<Json>)
    ensures
        pane_progress(seq![Json::Number(Some(state)), Json::Number(Some(percent))] + rest) == if state
            <= 4 && percent <= 100 {
            Some(Progress { state: state as u8, percent: percent as u8 })
        } else {
            None
        },
        pane_progress(Seq::empty()) is None,
        pane_progress(seq![Json::Number(Some(state))]) is None,
{
    let values = seq![Json::Number(Some(state)), Json::Number(Some(percent))] + rest;
    assert(values[0] == Json::Number(Some(state)));
    assert(values[1] == Json::Number(Some(percent)));
}

/// The value is a pane with the given id.
pub open spec fn has_id(pane: Json, id: u64) -> bool {
    pane matches Json::Object(members) && members.dom().contains("id"@) && members["id"@]
        == Json::Number(Some(id))
}

/// The pane that is observed is the first with its id.
pub proof fn the_first_pane_with_the_id(panes: Seq<Json>, id: u64)
    ensures
        match pane_with_id(panes, id) {
            Some(pane) => exists|index: int|
                0 <= index < panes.len() && #[trigger] panes[index] == pane && has_id(pane, id)
                    && forall|earlier: int|
                    0 <= earlier < index ==> !has_id(#[trigger] panes[earlier], id),
            None => forall|index: int| 0 <= index < panes.len() ==> !has_id(
                #[trigger] panes[index],
                id,
            ),
        },
    decreases panes.len(),
{
    if panes.len() > 0 {
        let before = panes.drop_last();
        the_first_pane_with_the_id(before, id);
        assert(has_id(panes.last(), id) == (json_number_of(json_member(panes.last(), "id"@))
            == Some(id)));
        match pane_with_id(before, id) {
            Some(pane) => {
                let index = choose|index: int|
                    0 <= index < before.len() && #[trigger] before[index] == pane && has_id(
                        pane,
                        id,
                    ) && forall|earlier: int|
                        0 <= earlier < index ==> !has_id(#[trigger] before[earlier], id);
                assert(panes[index] == pane);
                assert forall|earlier: int| 0 <= earlier < index implies !has_id(
                    #[trigger] panes[earlier],
                    id,
                ) by {
                    assert(before[earlier] == panes[earlier]);
                }
            },
            None => {
                assert forall|earlier: int| 0 <= earlier < before.len() implies !has_id(
                    #[trigger] panes[earlier],
                    id,
                ) by {
                    assert(before[earlier] == panes[earlier]);
                }
                let last = panes.len() - 1;
                assert(panes[last] == panes.last());
            },
        }
    }
}

/// The arrays that values have under a key are strung together in the order of the values; a value
/// without such an array adds nothing.
pub proof fn arrays_are_strung_together(
    first: Seq<Json>,
    second: Seq<Json>,
    members: Map<Seq<char>, Json>,
    items: Seq<Json>,
    key: Seq<char>,
)
    ensures
        gathered(first + second, key) == gathered(first, key) + gathered(second, key),
        members.dom().contains(key) && members[key] == Json::Array(items) ==> gathered(
            seq![Json::Object(members)],
            key,
        ) == items,
        !members.dom().contains(key) ==> gathered(seq![Json::Object(members)], key).len() == 0,
    decreases second.len(),
{
    let one = seq![Json::Object(members)];
    assert(one.drop_last() =~= Seq::empty());
    assert(gathered(one.drop_last(), key) =~= Seq::empty());
    assert(gathered(one, key) =~= json_items(json_member(Json::Object(members), key)));
    if second.len() == 0 {
        assert(first + second =~= first);
        assert(gathered(first, key) + gathered(second, key) =~= gathered(first, key));
    } else {
        let before = second.drop_last();
        assert((first + second).drop_last() =~= first + before);
        arrays_are_strung_together(first, before, members, items, key);
        assert(gathered(first + second, key) =~= gathered(first, key) + gathered(second, key));
    }
}

/// A listing of one workspace with one tab lists the panes of that tab.
pub proof fn listings_hold_the_panes(
    listing: Map<Seq<char>, Json>,
    result: Map<Seq<char>, Json>,
    value: Map<Seq<char>, Json>,
    workspace: Map<Seq<char>, Json>,
    tab: Map<Seq<char>, Json>,
    panes: Seq<Json>,
)
    requires
        listing.dom().contains("result"@) && listing["result"@] == Json::Object(result),
        result.dom().contains("value"@) && result["value"@] == Json::Object(value),
        value.dom().contains("workspaces"@) && value["workspaces"@] == Json::Array(
            seq![Json::Object(workspace)],
        ),
        workspace.dom().contains("tabs"@) && workspace["tabs"@] == Json::Array(
            seq![Json::Object(tab)],
        ),
        tab.dom().contains("panes"@) && tab["panes"@] == Json::Array(panes),
    ensures
        panes_of(Json::Object(listing)) == panes,
{
    let none = Seq::<Json>::empty();
    arrays_are_strung_together(none, none, workspace, seq![Json::Object(tab)], "tabs"@);
    arrays_are_strung_together(none, none, tab, panes, "panes"@);
}

/// The text of a capture is what stands under `result`, `value` and `text`.
pub proof fn captures_hold_the_text(
    capture: Map<Seq<char>, Json>,
    result: Map<Seq<char>, Json>,
    value: Map<Seq<char>, Json>,
    text: Seq<char>,
)
    requires
        capture.dom().contains("result"@) && capture["result"@] == Json::Object(result),
        result.dom().contains("value"@) && result["value"@] == Json::Object(value),
    ensures
        value.dom().contains("text"@) && value["text"@] == Json::Text(text) ==> captured_text(
            Json::Object(capture),
        ) == Some(text),
        !value.dom().contains("text"@) ==> captured_text(Json::Object(capture)) is None,
{
}

/// A reply is accepted exactly where it is an object whose status says that the request was
/// completed; its value is then the whole of it.
pub proof fn completed_replies_are_accepted(bytes: Seq<u8>)
    ensures
        match json_parsed(bytes) {
            Some(Json::Object(members)) => accepted(bytes) == if members.dom().contains("status"@)
                && members["status"@] == Json::Text("completed"@) {
                Some(Json::Object(members))
            } else {
                None
            },
            _ => accepted(bytes) is None,
        },
{
}

/// An agent that a listing shows is judged on what the pane shows, by the rules of its set, and as
/// a new one where the listing finds it.
pub proof fn listed_agents_are_judged(
    observer: ObserverView,
    screen: crate::screen::ScreenModel,
    id: Seq<char>,
    pid: Pid,
    set: int,
    shell: bool,
    now: Nanos,
)
    requires
        observer.forced is None,
        follows(observer),
        first_with_id(observer.sets, id) == Some(set),
    ensures
        ({
            let picture = Picture {
                lines: screen.lines,
                text: screen.text,
                title: screen.heard.title,
                progress: screen.heard.progress,
            };
            let (noted, events) = observer.machine.observed(
                Some(verdict_of(observer.sets[set], picture)),
                Some(id),
                observer.loss.current != Some((id, pid)) || observer.loss.exited,
                Some(pid),
                false,
                now,
            );
            let (after, told) = observer.sampled(screen, Some((id, pid)), shell, now);
            &&& after.machine == noted.ticked(now).0
            &&& told == events + noted.ticked(now).1
            &&& after.active == Some(id)
        }),
{
    assert(screen_picture(screen) =~= (Picture {
        lines: screen.lines,
        text: screen.text,
        title: screen.heard.title,
        progress: screen.heard.progress,
    }));
}

/// Both sides of the control interface start with the eight bytes of `FUXCTL1` and a line feed.
pub proof fn the_preface_names_the_version()
    ensures
        preface() == seq![0x46u8, 0x55, 0x58, 0x43, 0x54, 0x4c, 0x31, 0x0a],
{
    reveal_strlit("FUXCTL1\n");
    vstd::utf8::is_ascii_chars_encode_utf8("FUXCTL1\n"@);
    assert(preface() =~= seq![0x46u8, 0x55, 0x58, 0x43, 0x54, 0x4c, 0x31, 0x0a]);
}

/// The first sample of a pane whose rules find its given agent at work or blocked, by what a
/// terminal of the pane's size shows of the capture, makes one line: a report of that state, with
/// the evidence of the rule and the first number.
pub proof fn the_first_sight_is_reported(
    observer: ObserverView,
    pane: PaneView,
    capture: Seq<u8>,
    id: Seq<char>,
    set: int,
    now: Nanos,
)
    requires
        observer.forced == Some(id),
        observer.active == Some(id),
        observer.machine == fresh(standard_config()),
        valid_agent(id),
        first_with_id(observer.sets, id) == Some(set),
        0 <= set < observer.sets.len(),
        observer.sets[set].rules@.len() == 1,
        observer.sets[set].rules@[0].region is Whole,
        observer.sets[set].rules@[0].state is Working || observer.sets[set].rules@[0].state is Blocked,
        unbroken(blank_screen(pane.rows, pane.cols), capture),
        differs(blank_screen(pane.rows, pane.cols), capture),
        gate_holds(
            observer.sets[set].rules@[0].gate,
            joined_lines(
                terminal_window(
                    fed(made(pane.rows, pane.cols), capture),
                    pane.rows,
                    pane.cols,
                ),
            ),
        ),
        now < u64::MAX,
    ensures
        ({
            let rule = observer.sets[set].rules@[0];
            let told = observer.sampled(pane_screen(pane, capture), None, false, now).1;
            &&& report_lines(told).len() == 1
            &&& reads_as(
                Some(report_lines(told)[0]),
                ReportView {
                    state: if rule.state is Working {
                        State::Working
                    } else {
                        State::Blocked
                    },
                    agent: Some(id),
                    seq: 1,
                    visible: Flags {
                        idle: rule.visible_idle,
                        blocker: rule.visible_blocker,
                        working: rule.visible_working,
                    },
                    exited: false,
                    message: None,
                },
            )
        }),
{
    let rule = observer.sets[set].rules@[0];
    let lines = terminal_window(fed(made(pane.rows, pane.cols), capture), pane.rows, pane.cols);
    let picture = Picture {
        lines,
        text: joined_lines(lines),
        title: clean_title(pane.title),
        progress: pane.progress,
    };
    panes_are_judged(observer, pane, capture, id, set, now);
    a_single_rule_decides(observer.sets[set], picture);
    let verdict = verdict_of(observer.sets[set], picture);
    let machine = observer.machine;
    let (noted, events) = machine.observed(Some(verdict), Some(id), false, None, false, now);
    let found = EventView::AgentFound { id, pid: 0 };
    let state = if rule.state is Working {
        State::Working
    } else {
        State::Blocked
    };
    let changed = EventView::Changed {
        state,
        previous: State::NoAgent,
        agent: Some(id),
        seq: 1,
        visible: verdict.visible,
        exited: false,
    };
    assert(events =~= seq![found] + seq![changed]);
    assert(noted.ticked(now).1 =~= Seq::empty());
    let told = observer.sampled(pane_screen(pane, capture), None, false, now).1;
    assert(told =~= seq![found] + seq![changed]);
    lines_keep_the_order(seq![found], seq![changed], found);
    lines_keep_the_order(seq![found], seq![changed], changed);
    lines_read_back(changed);
    assert(report_lines(told) =~= seq![report_line(changed)->0]);
}

} // verus!
