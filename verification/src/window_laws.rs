//! What an observed screen shows of what it was given.
use crate::boundary::{followed, gives_up, giving_up, passed_on, short_strings_are_passed_on};
use crate::callback_laws::{telling_calls_are_noted, tells};
use crate::callbacks::HeardView;
use crate::screen::{
    above_screen, blank_screen, last_filled, lines_above, terminal_window, trimmed_lines,
    window_lines, without_trailing, ScreenModel,
};
use crate::screen_laws::{
    everything_else_is_heard, lemma_last_filled, lemma_not_given_up, lemma_without_trailing,
    windows_show_the_last_text,
};
use crate::terminal::{
    calls_while_fed, fed, history_lines, shown_alternate, shown_contents, shown_cursor, shown_rows,
    Step, PIECE_BYTES,
};
use crate::text::{joined_lines, trim_end};
use vstd::prelude::*;

verus! {

/// All bytes that a terminal was given, one after the other.
pub open spec fn bytes_given(steps: Seq<Step>) -> Seq<u8>
    decreases steps.len(),
{
    if steps.len() == 0 {
        Seq::empty()
    } else {
        match steps.last() {
            Step::Bytes(bytes) => bytes_given(steps.drop_last()) + bytes,
            _ => bytes_given(steps.drop_last()),
        }
    }
}

/// A terminal that is fed is given every byte in its order, in pieces of at most 8192, and nothing
/// else is done to it.
pub proof fn every_byte_is_given(steps: Seq<Step>, bytes: Seq<u8>)
    ensures
        bytes_given(fed(steps, bytes)) == bytes_given(steps) + bytes,
        steps.is_prefix_of(fed(steps, bytes)),
        forall|index: int|
            steps.len() <= index < fed(steps, bytes).len() ==> (#[trigger] fed(
                steps,
                bytes,
            )[index] matches Step::Bytes(piece) && piece.len() <= 8192),
    decreases bytes.len(),
{
    let after = fed(steps, bytes);
    if bytes.len() < PIECE_BYTES {
        assert(after.drop_last() =~= steps);
        assert(steps =~= after.subrange(0, steps.len() as int));
    } else {
        let piece = bytes.take(PIECE_BYTES as int);
        let rest = bytes.skip(PIECE_BYTES as int);
        let longer = steps.push(Step::Bytes(piece));
        every_byte_is_given(longer, rest);
        assert(longer.drop_last() =~= steps);
        assert(bytes_given(steps) + piece + rest =~= bytes_given(steps) + bytes);
        assert(steps =~= after.subrange(0, steps.len() as int));
        assert(after[steps.len() as int] == longer[steps.len() as int]);
    }
}

/// No control string of the stretch is so long that it is given up.
pub open spec fn unbroken(screen: ScreenModel, bytes: Seq<u8>) -> bool {
    forall|count: int|
        0 <= count <= bytes.len() ==> !giving_up(
            #[trigger] followed(screen.boundary, bytes.take(count)),
        )
}

/// The terminal looks different after a stretch, or has said something that the rules could read.
pub open spec fn differs(screen: ScreenModel, bytes: Seq<u8>) -> bool {
    let after = fed(screen.steps, bytes);
    ||| shown_contents(screen.steps, 0) != shown_contents(after, 0)
    ||| shown_cursor(screen.steps) != shown_cursor(after)
    ||| shown_alternate(screen.steps) != shown_alternate(after)
    ||| exists|index: int|
        0 <= index < calls_while_fed(screen.steps, bytes).len() && tells(
            #[trigger] calls_while_fed(screen.steps, bytes)[index],
        )
}

/// The terminal behind a screen is given exactly the bytes of the stretch. Where it then looks
/// different, or has said something, the screen shows the window of the terminal as it is now;
/// else it shows what it showed.
pub proof fn screens_show_what_was_given(screen: ScreenModel, bytes: Seq<u8>)
    requires
        unbroken(screen, bytes),
    ensures
        ({
            let after = screen.processed(bytes);
            &&& after.steps == fed(screen.steps, bytes)
            &&& after.changed == differs(screen, bytes)
            &&& after.changed ==> after.lines == terminal_window(
                fed(screen.steps, bytes),
                screen.rows,
                screen.cols,
            )
            &&& after.changed ==> after.text == joined_lines(after.lines)
            &&& !after.changed ==> after.lines == screen.lines && after.text == screen.text
            &&& after.rows == screen.rows
            &&& after.cols == screen.cols
            &&& after.boundary == followed(screen.boundary, bytes)
        }),
{
    short_strings_are_passed_on(screen.boundary, bytes);
    lemma_not_given_up(screen.boundary, bytes);
    let quiet = HeardView { event: false, ..screen.heard };
    telling_calls_are_noted(quiet, calls_while_fed(screen.steps, bytes));
    everything_else_is_heard(screen, bytes);
}

/// The text of a screen is its lines, each with a line feed; whatever is shown, whatever the size.
pub proof fn the_text_is_the_lines(screen: ScreenModel, bytes: Seq<u8>, rows: u16, cols: u16)
    requires
        screen.text == joined_lines(screen.lines),
    ensures
        screen.processed(bytes).text == joined_lines(screen.processed(bytes).lines),
        screen.resized(rows, cols).text == joined_lines(screen.resized(rows, cols).lines),
        blank_screen(rows, cols).text == joined_lines(blank_screen(rows, cols).lines),
{
}

/// A new screen shows the window of a terminal of its size that was given nothing.
pub proof fn new_screens_show_nothing(rows: u16, cols: u16)
    ensures
        ({
            let steps = seq![Step::Start { rows, cols, history: 65535 }];
            let screen = blank_screen(rows, cols);
            &&& screen.steps == steps
            &&& screen.lines == terminal_window(steps, rows, cols)
            &&& screen.rows == rows
            &&& screen.cols == cols
            &&& screen.changed
            &&& screen.boundary is Ground
            &&& screen.heard.title.len() == 0
            &&& screen.heard.bells == 0
            &&& screen.heard.progress is None
            &&& screen.heard.reports.len() == 0
        }),
{
}

/// A row is blank: nothing is left of it without the whitespace at its end.
pub open spec fn blank_rows(rows: Seq<Seq<char>>, start: int) -> bool {
    forall|index: int| start <= index < rows.len() ==> trim_end(#[trigger] rows[index]).len() == 0
}

proof fn lemma_last_row(rows: Seq<Seq<char>>, last: int)
    requires
        0 <= last < rows.len(),
        trim_end(rows[last]).len() > 0,
        blank_rows(rows, last + 1),
    ensures
        last_filled(trimmed_lines(rows)) == Some(last),
{
    let lines = trimmed_lines(rows);
    lemma_last_filled(lines);
    assert(lines[last].len() > 0);
    assert forall|index: int| last < index < lines.len() implies (#[trigger] lines[index]).len()
        == 0 by {
        assert(trim_end(rows[index]).len() == 0);
    }
}

/// On the alternate screen the window is the rows of the screen without the whitespace at their
/// ends, down to the last one that is not blank.
pub proof fn alternate_screens_are_shown_whole(steps: Seq<Step>, rows: u16, cols: u16, last: int)
    requires
        shown_alternate(steps),
        -1 <= last < shown_rows(steps, 0, 0, cols).len(),
        last >= 0 ==> trim_end(shown_rows(steps, 0, 0, cols)[last]).len() > 0,
        blank_rows(shown_rows(steps, 0, 0, cols), last + 1),
    ensures
        terminal_window(steps, rows, cols).len() == last + 1,
        forall|index: int|
            0 <= index <= last ==> #[trigger] terminal_window(steps, rows, cols)[index] == trim_end(
                shown_rows(steps, 0, 0, cols)[index],
            ),
{
    let live = trimmed_lines(shown_rows(steps, 0, 0, cols));
    lemma_without_trailing(live);
    if last >= 0 {
        lemma_last_row(shown_rows(steps, 0, 0, cols), last);
    } else {
        lemma_last_filled(live);
        match last_filled(live) {
            Some(index) => {
                assert(trim_end(shown_rows(steps, 0, 0, cols)[index]).len() == 0);
            },
            None => {},
        }
    }
}

/// The later of two rows.
pub open spec fn lower(left: int, right: int) -> int {
    if left > right {
        left
    } else {
        right
    }
}

/// On the primary screen the window has as many lines as the screen has rows, up to the last row
/// that is not blank or the cursor, whichever is lower; it reaches into the history where the
/// screen alone does not fill it, and ends with the last row that is not blank. Each line is a row
/// without the whitespace at its end.
pub proof fn primary_screens_reach_back(
    steps: Seq<Step>,
    rows: u16,
    cols: u16,
    back: int,
    last: int,
)
    requires
        !shown_alternate(steps),
        back == if history_lines(steps) < rows {
            history_lines(steps) as int
        } else {
            rows as int
        },
        shown_rows(steps, 0, 0, cols).len() == rows,
        shown_rows(steps, back as nat, 0, cols).len() == rows,
        shown_cursor(steps).0 < rows,
        0 <= last < rows,
        trim_end(shown_rows(steps, 0, 0, cols)[last]).len() > 0,
        blank_rows(shown_rows(steps, 0, 0, cols), last + 1),
    ensures
        ({
            let all = shown_rows(steps, back as nat, 0, cols).take(back) + shown_rows(
                steps,
                0,
                0,
                cols,
            );
            let bottom = back + lower(last, shown_cursor(steps).0 as int) + 1;
            let start = lower(bottom - rows, 0);
            let lines = terminal_window(steps, rows, cols);
            &&& lines.len() == back + last + 1 - start
            &&& forall|index: int|
                0 <= index < lines.len() ==> #[trigger] lines[index] == trim_end(all[start + index])
        }),
{
    let live = trimmed_lines(shown_rows(steps, 0, 0, cols));
    let above = above_screen(steps, rows as int, cols);
    let behind = shown_rows(steps, back as nat, 0, cols);
    assert(lines_above(steps, rows as int) == back);
    assert(behind.take(behind.len() as int) =~= behind);
    assert(above =~= trimmed_lines(behind.take(back)));
    let cursor = shown_cursor(steps).0 as int;
    lemma_last_row(shown_rows(steps, 0, 0, cols), last);
    windows_show_the_last_text(above, live, cursor, rows as int, last);
    let all = above + live;
    let bottom = back + lower(last, cursor) + 1;
    let start = lower(bottom - rows, 0);
    let part = all.subrange(start, bottom);
    lemma_without_trailing(part);
    lemma_last_filled(part);
    lemma_last_filled(live);
    let at = back + last - start;
    assert(part[at] == live[last]);
    assert forall|index: int| at < index < part.len() implies (#[trigger] part[index]).len() == 0 by {
        assert(part[index] == live[start + index - back]);
    }
    let lines = window_lines(false, above, live, cursor, rows as int);
    assert(lines == without_trailing(part));
    match last_filled(part) {
        Some(found) => {
            if found < at {
                assert(part[at].len() == 0);
            }
            if found > at {
                assert(part[found].len() == 0);
            }
        },
        None => {
            assert(part[at].len() == 0);
        },
    }
    let raw = behind.take(back) + shown_rows(steps, 0, 0, cols);
    assert forall|index: int| 0 <= index < lines.len() implies #[trigger] lines[index] == trim_end(
        raw[start + index],
    ) by {
        assert(lines[index] == part[index]);
        assert(part[index] == all[start + index]);
    }
}

/// A primary screen with blank rows alone shows no line, whatever its history holds.
pub proof fn blank_screens_show_nothing(steps: Seq<Step>, rows: u16, cols: u16)
    requires
        shown_rows(steps, 0, 0, cols).len() == rows,
        blank_rows(shown_rows(steps, 0, 0, cols), 0),
    ensures
        terminal_window(steps, rows, cols).len() == 0,
{
    let live = trimmed_lines(shown_rows(steps, 0, 0, cols));
    lemma_last_filled(live);
    match last_filled(live) {
        Some(index) => {
            assert(trim_end(shown_rows(steps, 0, 0, cols)[index]).len() == 0);
        },
        None => {},
    }
    lemma_without_trailing(live);
    let above = above_screen(steps, rows as int, cols);
    assert((above + live).subrange(above.len() as int, (above + live).len() as int) =~= live);
    if rows == 0 {
        assert(live =~= Seq::empty());
    }
}

/// The terminal is given what the boundaries pass on, whether or not a control string was given up.
/// Where one was, only what the terminal looks like counts, and not what it has said.
pub proof fn given_up_strings_are_shown_as_given(screen: ScreenModel, bytes: Seq<u8>)
    ensures
        ({
            let after = screen.processed(bytes);
            let steps = fed(screen.steps, passed_on(screen.boundary, bytes));
            &&& after.steps == steps
            &&& after.lines == if after.changed {
                terminal_window(steps, screen.rows, screen.cols)
            } else {
                screen.lines
            }
            &&& gives_up(screen.boundary, bytes) ==> (after.changed <==> {
                ||| shown_contents(screen.steps, 0) != shown_contents(steps, 0)
                ||| shown_cursor(screen.steps) != shown_cursor(steps)
                ||| shown_alternate(screen.steps) != shown_alternate(steps)
            })
            &&& gives_up(screen.boundary, bytes) ==> after.heard == (HeardView {
                event: false,
                ..screen.heard
            })
        }),
{
}

} // verus!
