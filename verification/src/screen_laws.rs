//! What holds of every observed screen.
use crate::boundary::{
    followed, gives_up, giving_up, passed_on, short_strings_are_passed_on, Sequence,
};
use crate::callbacks::{
    clean_title, control, heard, heard_all, silence, without_controls, Call, HeardView,
    MAX_TITLE_CHARS,
};
use crate::mending::whole_characters_are_left_alone;
use crate::rules::view::Progress;
use crate::screen::{
    blank_screen, last_filled, terminal_window, window_bottom, window_lines, without_trailing,
    ScreenModel,
};
use crate::terminal::{
    calls_while_fed, fed, feeding_keeps_the_size, fewer, shown_alternate, shown_contents,
    shown_cursor, sound_size, uncut, Step,
};
use crate::text::{joined_lines, lossy_text};
use vstd::prelude::*;

verus! {

/// A title that may be shown: bounded, and without control characters.
pub open spec fn presentable(title: Seq<char>) -> bool {
    &&& title.len() <= MAX_TITLE_CHARS
    &&& forall|index: int| 0 <= index < title.len() ==> !control(#[trigger] title[index])
}

/// A progress that can be reported.
pub open spec fn plausible(progress: Option<Progress>) -> bool {
    progress matches Some(value) ==> value.state <= 3 && value.percent <= 100 && (value.state == 0
        ==> value.percent == 0)
}

proof fn lemma_without_controls(text: Seq<char>)
    ensures
        forall|index: int|
            0 <= index < without_controls(text).len() ==> !control(
                #[trigger] without_controls(text)[index],
            ),
    decreases text.len(),
{
    if text.len() > 0 {
        let before = without_controls(text.drop_last());
        lemma_without_controls(text.drop_last());
        assert forall|index: int| 0 <= index < without_controls(text).len() implies !control(
            #[trigger] without_controls(text)[index],
        ) by {
            if index < before.len() {
                assert(without_controls(text)[index] == before[index]);
            }
        }
    }
}

/// Titles are stripped of control characters and cut to their limit.
pub proof fn titles_are_presentable(text: Seq<char>)
    ensures
        presentable(clean_title(text)),
{
    lemma_without_controls(text);
}

proof fn lemma_nothing_to_strip(text: Seq<char>)
    requires
        forall|index: int| 0 <= index < text.len() ==> !control(#[trigger] text[index]),
    ensures
        without_controls(text) == text,
    decreases text.len(),
{
    if text.len() > 0 {
        assert(text.last() == text[text.len() - 1]);
        assert forall|index: int| 0 <= index < text.len() - 1 implies !control(
            #[trigger] text.drop_last()[index],
        ) by {
            assert(text.drop_last()[index] == text[index]);
        }
        lemma_nothing_to_strip(text.drop_last());
        assert(text.drop_last().push(text.last()) =~= text);
    } else {
        assert(without_controls(text) =~= text);
    }
}

/// A title that may be shown is kept as it is.
pub proof fn presentable_titles_are_kept(title: Seq<char>)
    requires
        presentable(title),
    ensures
        clean_title(title) == title,
{
    lemma_nothing_to_strip(title);
}

/// Whatever a terminal says, the title stays presentable and the progress plausible, bells are
/// only added, and no report is lost.
pub proof fn hearing_keeps_bounds(before: HeardView, calls: Seq<Call>)
    requires
        presentable(before.title),
        plausible(before.progress),
    ensures
        presentable(heard_all(before, calls).title),
        plausible(heard_all(before, calls).progress),
        before.bells <= heard_all(before, calls).bells,
        before.reports.is_prefix_of(heard_all(before, calls).reports),
    decreases calls.len(),
{
    if calls.len() > 0 {
        hearing_keeps_bounds(before, calls.drop_last());
        let middle = heard_all(before, calls.drop_last());
        match calls.last() {
            Call::Title(title) => {
                titles_are_presentable(lossy_text(title));
            },
            _ => {},
        }
        let after = heard(middle, calls.last());
        assert(before.reports =~= after.reports.subrange(0, before.reports.len() as int));
    } else {
        assert(before.reports =~= before.reports.subrange(0, before.reports.len() as int));
    }
}

/// A malformed progress report leaves the last good one in place.
pub proof fn malformed_progress_is_ignored(before: HeardView, parameters: Seq<Seq<u8>>)
    requires
        !crate::callbacks::is_progress(parameters),
    ensures
        heard(before, Call::Osc(parameters)).progress == before.progress,
        heard(before, Call::Osc(parameters)).event == before.event,
{
}

/// Whatever is shown, the title of a screen stays presentable and its progress plausible.
pub proof fn processing_keeps_bounds(screen: ScreenModel, bytes: Seq<u8>)
    requires
        presentable(screen.heard.title),
        plausible(screen.heard.progress),
    ensures
        presentable(screen.processed(bytes).heard.title),
        plausible(screen.processed(bytes).heard.progress),
{
    let quiet = HeardView { event: false, ..screen.heard };
    hearing_keeps_bounds(quiet, calls_while_fed(screen.steps, passed_on(screen.boundary, bytes)));
}

/// A blank screen has a presentable title and a plausible progress, and stands between sequences.
pub proof fn blank_screens_are_bounded(rows: u16, cols: u16)
    ensures
        presentable(blank_screen(rows, cols).heard.title),
        plausible(blank_screen(rows, cols).heard.progress),
        blank_screen(rows, cols).boundary is Ground,
{
    assert(silence().title.len() == 0);
}

/// A stretch that leaves the text, the cursor and the choice of the screen as they were, and in
/// which nothing is said, changes nothing that the rules read.
pub proof fn repainting_is_no_change(screen: ScreenModel, bytes: Seq<u8>)
    requires
        ({
            let given = passed_on(screen.boundary, bytes);
            let steps = fed(screen.steps, given);
            &&& calls_while_fed(screen.steps, given).len() == 0
            &&& shown_contents(steps, 0) == shown_contents(screen.steps, 0)
            &&& shown_cursor(steps) == shown_cursor(screen.steps)
            &&& shown_alternate(steps) == shown_alternate(screen.steps)
        }),
    ensures
        !screen.processed(bytes).changed,
        screen.processed(bytes).lines == screen.lines,
        screen.processed(bytes).text == screen.text,
{
}

proof fn lemma_given_up(state: Sequence, bytes: Seq<u8>, count: int)
    requires
        !giving_up(state),
        0 <= count <= bytes.len(),
        giving_up(followed(state, bytes.take(count))),
    ensures
        gives_up(state, bytes),
    decreases bytes.len(),
{
    if bytes.len() == 0 {
        assert(bytes.take(count) =~= bytes);
    } else {
        let before = bytes.drop_last();
        if count < bytes.len() {
            assert(before.take(count) =~= bytes.take(count));
            lemma_given_up(state, before, count);
        } else {
            assert(bytes.take(count) =~= bytes);
            if giving_up(followed(state, before)) {
                assert(before.take(before.len() as int) =~= before);
                lemma_given_up(state, before, before.len() as int);
            }
        }
    }
}

/// A stretch in which a control string is given up for its length leaves no trace in what was
/// heard: neither a title, nor a bell, nor a progress, nor a report.
pub proof fn overlong_strings_are_not_heard(screen: ScreenModel, bytes: Seq<u8>, count: int)
    requires
        !giving_up(screen.boundary),
        0 <= count <= bytes.len(),
        giving_up(followed(screen.boundary, bytes.take(count))),
    ensures
        screen.processed(bytes).heard == (HeardView { event: false, ..screen.heard }),
{
    lemma_given_up(screen.boundary, bytes, count);
}

/// Nothing else undoes what was heard: a cancel that the child sends least of all.
pub proof fn everything_else_is_heard(screen: ScreenModel, bytes: Seq<u8>)
    requires
        forall|count: int|
            0 <= count <= bytes.len() ==> !giving_up(
                #[trigger] followed(screen.boundary, bytes.take(count)),
            ),
    ensures
        screen.processed(bytes).heard == heard_all(
            HeardView { event: false, ..screen.heard },
            calls_while_fed(screen.steps, bytes),
        ),
{
    lemma_not_given_up(screen.boundary, bytes);
    short_strings_are_passed_on(screen.boundary, bytes);
}

pub(crate) proof fn lemma_not_given_up(state: Sequence, bytes: Seq<u8>)
    requires
        forall|count: int|
            0 <= count <= bytes.len() ==> !giving_up(#[trigger] followed(state, bytes.take(count))),
    ensures
        !gives_up(state, bytes),
    decreases bytes.len(),
{
    assert(bytes.take(bytes.len() as int) =~= bytes);
    assert(!giving_up(followed(state, bytes.take(bytes.len() as int))));
    if bytes.len() > 0 {
        let before = bytes.drop_last();
        assert forall|count: int| 0 <= count <= before.len() implies !giving_up(
            #[trigger] followed(state, before.take(count)),
        ) by {
            assert(before.take(count) =~= bytes.take(count));
        }
        lemma_not_given_up(state, before);
    }
}

/// Whatever happens to a screen, it takes the rest of its stream. That it does so too after a resize
/// that has to erase a wide character is what `Screen::resize` ensures.
pub proof fn screens_stay_sound(screen: ScreenModel, bytes: Seq<u8>, rows: u16, cols: u16)
    requires
        screen.sound(),
        sound_size(rows, cols),
    ensures
        screen.processed(bytes).sound(),
        cols >= screen.cols || uncut(screen.steps, fewer(rows, screen.rows), cols)
            ==> screen.resized(rows, cols).sound(),
        blank_screen(rows, cols).sound(),
{
    if uncut(screen.steps, fewer(rows, screen.rows), cols) {
        whole_characters_are_left_alone(screen.steps, fewer(rows, screen.rows), cols);
    }
    let given = passed_on(screen.boundary, bytes);
    feeding_keeps_the_size(screen.steps, given);
    assert(screen.steps.push(Step::Size { rows, cols }).drop_last() =~= screen.steps);
}

/// A resize leaves what was heard and the stream alone. Where it cuts no wide character in two, the
/// terminal is resized and nothing else is done to it.
pub proof fn resizing_only_resizes(screen: ScreenModel, rows: u16, cols: u16)
    requires
        cols >= screen.cols || uncut(screen.steps, fewer(rows, screen.rows), cols),
    ensures
        screen.resized(rows, cols) == (ScreenModel {
            steps: screen.steps.push(Step::Size { rows, cols }),
            changed: true,
            rows,
            cols,
            lines: terminal_window(screen.steps.push(Step::Size { rows, cols }), rows, cols),
            text: joined_lines(
                terminal_window(screen.steps.push(Step::Size { rows, cols }), rows, cols),
            ),
            ..screen
        }),
{
    if cols < screen.cols {
        whole_characters_are_left_alone(screen.steps, fewer(rows, screen.rows), cols);
    }
}

pub(crate) proof fn lemma_without_trailing(lines: Seq<Seq<char>>)
    ensures
        without_trailing(lines).len() <= lines.len(),
        without_trailing(lines) == lines.take(without_trailing(lines).len() as int),
        without_trailing(lines).len() > 0 ==> without_trailing(lines).last().len() > 0,
        match last_filled(lines) {
            Some(index) => 0 <= index < lines.len() && without_trailing(lines).len() == index + 1,
            None => without_trailing(lines).len() == 0,
        },
    decreases lines.len(),
{
    if lines.len() > 0 && lines.last().len() == 0 {
        lemma_without_trailing(lines.drop_last());
        let kept = without_trailing(lines);
        assert(lines.drop_last().take(kept.len() as int) =~= lines.take(kept.len() as int));
    } else {
        assert(lines.take(lines.len() as int) =~= lines);
    }
}

/// The window ends with a line that is not empty, or is empty; its text ends with a line feed, or
/// is empty.
pub proof fn windows_end_with_text(
    alternate: bool,
    above: Seq<Seq<char>>,
    live: Seq<Seq<char>>,
    cursor: int,
    rows: int,
)
    ensures
        ({
            let lines = window_lines(alternate, above, live, cursor, rows);
            &&& lines.len() > 0 ==> lines.last().len() > 0
            &&& lines.len() > 0 ==> joined_lines(lines).last() == '\n'
            &&& lines.len() == 0 ==> joined_lines(lines).len() == 0
        }),
{
    if alternate {
        lemma_without_trailing(live);
    } else {
        let all = above + live;
        let wanted = above.len() + window_bottom(live, cursor, rows) + 1;
        let end = if wanted < all.len() {
            wanted
        } else {
            all.len() as int
        };
        let start = if end > rows {
            end - rows
        } else {
            0
        };
        lemma_without_trailing(all.subrange(start, end));
    }
}

pub(crate) proof fn lemma_last_filled(lines: Seq<Seq<char>>)
    ensures
        match last_filled(lines) {
            Some(index) => {
                &&& 0 <= index < lines.len()
                &&& lines[index].len() > 0
                &&& forall|after: int| index < after < lines.len() ==> (#[trigger] lines[after]).len()
                    == 0
            },
            None => forall|index: int| 0 <= index < lines.len() ==> (#[trigger] lines[index]).len()
                == 0,
        },
    decreases lines.len(),
{
    if lines.len() > 0 && lines.last().len() == 0 {
        lemma_last_filled(lines.drop_last());
        assert forall|index: int| 0 <= index < lines.len() - 1 implies lines[index]
            == lines.drop_last()[index] by {}
    }
}

/// On the primary screen the window is at most as long as the screen, it is a stretch of the
/// history and the screen, and its last line is the last line of the screen that is not blank.
pub proof fn windows_show_the_last_text(
    above: Seq<Seq<char>>,
    live: Seq<Seq<char>>,
    cursor: int,
    rows: int,
    last: int,
)
    requires
        live.len() == rows,
        0 <= cursor < rows,
        last_filled(live) == Some(last),
    ensures
        ({
            let lines = window_lines(false, above, live, cursor, rows);
            let end = above.len() + last + 1;
            &&& 0 < lines.len() <= rows
            &&& lines == (above + live).subrange(end - lines.len(), end)
            &&& lines.last() == live[last]
        }),
{
    lemma_last_filled(live);
    let all = above + live;
    let bottom = window_bottom(live, cursor, rows);
    let wanted = above.len() + bottom + 1;
    let end = if wanted < all.len() {
        wanted
    } else {
        all.len() as int
    };
    assert(end == wanted);
    let start = if end > rows {
        end - rows
    } else {
        0
    };
    let part = all.subrange(start, end);
    lemma_without_trailing(part);
    lemma_last_filled(part);
    let at = above.len() + last - start;
    assert(0 <= at < part.len());
    assert(part[at] == live[last]);
    assert forall|index: int| at < index < part.len() implies (#[trigger] part[index]).len() == 0 by {
        assert(part[index] == live[start + index - above.len()]);
    }
    match last_filled(part) {
        Some(found) => {
            if found < at {
                assert(part[at].len() == 0);
            }
            if found > at {
                assert(part[found].len() == 0);
            }
        },
        None => {
            assert(part[at].len() == 0);
        },
    }
    let lines = without_trailing(part);
    assert(lines =~= all.subrange(start, start + at + 1));
}

} // verus!
