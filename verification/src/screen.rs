//! The observed screen: a terminal model, the boundaries of its stream, and the window of text
//! that the rules read.
use crate::boundary::{followed, gives_up, passed_on, BoundaryTracker, Sequence};
use crate::callbacks::{byte_views, clean_title, cleaned, heard_all, silence, Callbacks, HeardView};
use crate::mending::{mend, mended};
use crate::rules::view::{Progress, ScreenView};
use crate::terminal::{
    calls_while_fed, fed, feeding_keeps_the_size, fewer, history_lines, row_texts, shown_alternate,
    shown_contents, shown_cursor, shown_rows, size_after, snapshot, sound_size, terminal_heard,
    terminal_steps, whole, Step, Terminal,
};
use crate::text::{
    chars_of, copied_texts, join_lines, joined_lines, lemma_texts_push, same_text, string_of, texts,
    trim_end, trimmed_end,
};
use vstd::prelude::*;

verus! {

/// The lines of history that a terminal keeps.
pub const SCROLLBACK_LINES: usize = 65535;

/// The last of the lines that is not empty.
pub open spec fn last_filled(lines: Seq<Seq<char>>) -> Option<int>
    decreases lines.len(),
{
    if lines.len() == 0 {
        None
    } else if lines.last().len() > 0 {
        Some(lines.len() - 1)
    } else {
        last_filled(lines.drop_last())
    }
}

/// The lines without the empty ones at their end.
pub open spec fn without_trailing(lines: Seq<Seq<char>>) -> Seq<Seq<char>>
    decreases lines.len(),
{
    if lines.len() > 0 && lines.last().len() == 0 {
        without_trailing(lines.drop_last())
    } else {
        lines
    }
}

/// Each line without the whitespace at its end.
pub open spec fn trimmed_lines(lines: Seq<Seq<char>>) -> Seq<Seq<char>> {
    Seq::new(lines.len(), |index: int| trim_end(lines[index]))
}

/// The row at which the window on a primary screen ends: the later of the last row that is not
/// blank and the cursor, or the last row where all are blank.
pub open spec fn window_bottom(live: Seq<Seq<char>>, cursor: int, rows: int) -> int {
    match last_filled(live) {
        Some(row) => if row > cursor {
            row
        } else {
            cursor
        },
        None => if rows > 0 {
            rows - 1
        } else {
            0
        },
    }
}

/// The detection window: on the primary screen the `rows` lines up to the bottom, which may reach
/// into the history above the screen; on the alternate screen the screen. Empty lines at the end
/// are dropped.
pub open spec fn window_lines(
    alternate: bool,
    above: Seq<Seq<char>>,
    live: Seq<Seq<char>>,
    cursor: int,
    rows: int,
) -> Seq<Seq<char>> {
    if alternate {
        without_trailing(live)
    } else {
        let all = above + live;
        let wanted = above.len() + window_bottom(live, cursor, rows) + 1;
        let end = if wanted < all.len() {
            wanted
        } else {
            all.len() as int
        };
        let start = if end > rows {
            end - rows
        } else {
            0
        };
        without_trailing(all.subrange(start, end))
    }
}

/// How many lines of history the window may reach into.
pub open spec fn lines_above(steps: Seq<Step>, rows: int) -> nat {
    if rows <= history_lines(steps) {
        rows as nat
    } else {
        history_lines(steps)
    }
}

/// The lines right above the screen.
pub open spec fn above_screen(steps: Seq<Step>, rows: int, cols: u16) -> Seq<Seq<char>> {
    let count = lines_above(steps, rows);
    let shown = shown_rows(steps, count, 0, cols);
    trimmed_lines(
        if count < shown.len() {
            shown.take(count as int)
        } else {
            shown
        },
    )
}

/// The detection window of a terminal.
pub open spec fn terminal_window(steps: Seq<Step>, rows: u16, cols: u16) -> Seq<Seq<char>> {
    window_lines(
        shown_alternate(steps),
        above_screen(steps, rows as int, cols),
        trimmed_lines(shown_rows(steps, 0, 0, cols)),
        shown_cursor(steps).0 as int,
        rows as int,
    )
}

/// A screen in mathematical terms.
#[verifier::ext_equal]
pub struct ScreenModel {
    /// What was done to the terminal.
    pub steps: Seq<Step>,
    /// What was heard of it.
    pub heard: HeardView,
    /// Where its stream is.
    pub boundary: Sequence,
    /// Something has changed that the rules could read.
    pub changed: bool,
    pub rows: u16,
    pub cols: u16,
    /// The detection window when it was last read, by lines and as one text.
    pub lines: Seq<Seq<char>>,
    pub text: Seq<char>,
}

impl ScreenModel {
    /// The size is one that the terminal model can take, it has been given to it, and the model is
    /// in a state in which it takes every stream.
    pub open spec fn sound(self) -> bool {
        &&& sound_size(self.rows, self.cols)
        &&& size_after(self.steps) == (self.rows, self.cols)
        &&& whole(self.steps)
    }

    /// The screen with its window read again.
    pub open spec fn refreshed(self) -> ScreenModel {
        let lines = terminal_window(self.steps, self.rows, self.cols);
        ScreenModel { lines, text: joined_lines(lines), ..self }
    }

    /// The screen after a stretch of the stream. A stretch in which a control string is given up
    /// for its length leaves no trace in what was heard.
    pub open spec fn processed(self, bytes: Seq<u8>) -> ScreenModel {
        let given = passed_on(self.boundary, bytes);
        let steps = fed(self.steps, given);
        let quiet = HeardView { event: false, ..self.heard };
        let heard = if gives_up(self.boundary, bytes) {
            quiet
        } else {
            heard_all(quiet, calls_while_fed(self.steps, given))
        };
        let changed = heard.event || shown_contents(self.steps, 0) != shown_contents(steps, 0)
            || shown_cursor(self.steps) != shown_cursor(steps) || shown_alternate(self.steps)
            != shown_alternate(steps);
        let next = ScreenModel {
            steps,
            heard,
            boundary: followed(self.boundary, bytes),
            changed,
            ..self
        };
        if changed {
            next.refreshed()
        } else {
            next
        }
    }

    /// The screen after a change of its size. A wide character that would be cut in two is erased
    /// first; where there is none, the terminal is resized and nothing else.
    pub open spec fn resized(self, rows: u16, cols: u16) -> ScreenModel {
        let kept = if cols < self.cols {
            mended(self.steps, fewer(rows, self.rows), cols)
        } else {
            self.steps
        };
        ScreenModel {
            steps: kept.push(Step::Size { rows, cols }),
            changed: true,
            rows,
            cols,
            ..self
        }.refreshed()
    }
}

/// A screen on which nothing was shown.
pub open spec fn blank_screen(rows: u16, cols: u16) -> ScreenModel {
    ScreenModel {
        steps: seq![Step::Start { rows, cols, history: SCROLLBACK_LINES }],
        heard: silence(),
        boundary: Sequence::Ground,
        changed: true,
        rows,
        cols,
        lines: Seq::empty(),
        text: Seq::empty(),
    }.refreshed()
}

fn trimmed_copy(line: &str) -> (trimmed: String)
    ensures
        trimmed@ == trim_end(line@),
{
    let chars = chars_of(line);
    string_of(trimmed_end(chars.as_slice()))
}

/// The first lines, each without the whitespace at its end.
fn trimmed_first(lines: &Vec<String>, count: usize) -> (first: Vec<String>)
    requires
        count <= lines@.len(),
    ensures
        texts(first@) == trimmed_lines(texts(lines@).take(count as int)),
{
    let mut first: Vec<String> = Vec::new();
    for index in 0..count
        invariant
            count <= lines@.len(),
            texts(first@) == trimmed_lines(texts(lines@).take(index as int)),
    {
        let line = trimmed_copy(lines[index].as_str());
        proof {
            lemma_texts_push(first@, line);
        }
        first.push(line);
        assert(texts(first@) =~= trimmed_lines(texts(lines@).take(index + 1)));
    }
    first
}

fn find_last_filled(lines: &Vec<String>) -> (index: Option<usize>)
    ensures
        match index {
            Some(found) => found < lines@.len() && last_filled(texts(lines@)) == Some(found as int),
            None => last_filled(texts(lines@)) is None,
        },
{
    let ghost all = texts(lines@);
    let mut count: usize = lines.len();
    assert(all.take(count as int) =~= all);
    while count > 0
        invariant
            count <= lines@.len(),
            all == texts(lines@),
            last_filled(all) == last_filled(all.take(count as int)),
        decreases count,
    {
        assert(all.take(count as int).drop_last() =~= all.take(count - 1));
        assert(all.take(count as int).last() == lines@[count - 1]@);
        if chars_of(lines[count - 1].as_str()).len() > 0 {
            return Some(count - 1);
        }
        count = count - 1;
    }
    None
}

/// The lines from `start` up to `end`, without the empty ones at their end.
fn copy_window(lines: &Vec<String>, start: usize, end: usize) -> (window: Vec<String>)
    requires
        start <= end <= lines@.len(),
    ensures
        texts(window@) == without_trailing(texts(lines@).subrange(start as int, end as int)),
{
    let ghost all = texts(lines@);
    let mut last: usize = end;
    while last > start && chars_of(lines[last - 1].as_str()).len() == 0
        invariant
            start <= last <= end <= lines@.len(),
            all == texts(lines@),
            without_trailing(all.subrange(start as int, end as int)) == without_trailing(
                all.subrange(start as int, last as int),
            ),
        ensures
            start <= last <= end,
            without_trailing(all.subrange(start as int, end as int)) == all.subrange(
                start as int,
                last as int,
            ),
        decreases last,
    {
        assert(all.subrange(start as int, last as int).drop_last() =~= all.subrange(
            start as int,
            last - 1,
        ));
        assert(all.subrange(start as int, last as int).last() == lines@[last - 1]@);
        last = last - 1;
    }
    let mut window: Vec<String> = Vec::new();
    for index in start..last
        invariant
            start <= last <= lines@.len(),
            all == texts(lines@),
            texts(window@) == all.subrange(start as int, index as int),
    {
        proof {
            lemma_texts_push(window@, lines@[index as int]);
        }
        window.push(lines[index].clone());
        assert(texts(window@) =~= all.subrange(start as int, index + 1));
    }
    window
}

/// The detection window of a screen, given the lines above it, its rows and its cursor.
pub fn window(
    alternate: bool,
    above: Vec<String>,
    live: Vec<String>,
    cursor: u16,
    rows: u16,
) -> (lines: Vec<String>)
    ensures
        texts(lines@) == window_lines(
            alternate,
            texts(above@),
            texts(live@),
            cursor as int,
            rows as int,
        ),
{
    if alternate {
        assert(texts(live@).subrange(0, live@.len() as int) =~= texts(live@));
        return copy_window(&live, 0, live.len());
    }
    let bottom: usize = match find_last_filled(&live) {
        Some(row) => if row > cursor as usize {
            row
        } else {
            cursor as usize
        },
        None => if rows > 0 {
            rows as usize - 1
        } else {
            0
        },
    };
    let ghost whole = texts(above@) + texts(live@);
    let skipped: usize = above.len();
    let mut all = above;
    let mut index: usize = 0;
    let ghost before = texts(all@);
    while index < live.len()
        invariant
            index <= live@.len(),
            texts(all@) == before + texts(live@).take(index as int),
        decreases live@.len() - index,
    {
        proof {
            lemma_texts_push(all@, live@[index as int]);
        }
        all.push(live[index].clone());
        assert(texts(all@) =~= before + texts(live@).take(index + 1));
        index = index + 1;
    }
    assert(texts(all@) =~= whole);
    let end: usize = if bottom < all.len() - skipped {
        skipped + bottom + 1
    } else {
        all.len()
    };
    let start: usize = if end > rows as usize {
        end - rows as usize
    } else {
        0
    };
    copy_window(&all, start, end)
}

/// Nothing that is heard takes a report back.
proof fn lemma_reports_grow(before: HeardView, calls: Seq<crate::callbacks::Call>)
    ensures
        before.reports.len() <= heard_all(before, calls).reports.len(),
        heard_all(before, calls).reports.take(before.reports.len() as int) == before.reports,
    decreases calls.len(),
{
    if calls.len() == 0 {
        assert(before.reports.take(before.reports.len() as int) =~= before.reports);
    } else {
        lemma_reports_grow(before, calls.drop_last());
        let middle = heard_all(before, calls.drop_last()).reports;
        let after = heard_all(before, calls).reports;
        assert(after.take(before.reports.len() as int) =~= middle.take(
            before.reports.len() as int,
        ));
    }
}

/// An observed screen.
pub struct Screen {
    terminal: Terminal,
    boundary: BoundaryTracker,
    changed: bool,
    rows: u16,
    cols: u16,
    lines: Vec<String>,
    text: String,
}

impl View for Screen {
    type V = ScreenModel;

    closed spec fn view(&self) -> ScreenModel {
        ScreenModel {
            steps: terminal_steps(self.terminal),
            heard: terminal_heard(self.terminal),
            boundary: self.boundary@,
            changed: self.changed,
            rows: self.rows,
            cols: self.cols,
            lines: texts(self.lines@),
            text: self.text@,
        }
    }
}

impl Screen {
    /// A blank screen.
    #[must_use]
    pub fn new(rows: u16, cols: u16) -> (screen: Self)
        requires
            sound_size(rows, cols),
        ensures
            screen@ == blank_screen(rows, cols),
            screen@.sound(),
    {
        let mut screen = Screen {
            terminal: Terminal::new(rows, cols, SCROLLBACK_LINES, Callbacks::default()),
            boundary: BoundaryTracker::default(),
            changed: true,
            rows,
            cols,
            lines: Vec::new(),
            text: String::new(),
        };
        screen.refresh_window();
        screen
    }

    /// Shows a stretch of the stream, and tells whether the stream is then between sequences.
    pub fn process(&mut self, bytes: &[u8]) -> (ground: bool)
        requires
            old(self)@.sound(),
        ensures
            final(self)@ == old(self)@.processed(bytes@),
            final(self)@.sound(),
            ground == (final(self)@.boundary is Ground),
    {
        let ghost start = self@;
        let contents = self.terminal.screen().contents();
        let cursor: (u16, u16) = self.terminal.screen().cursor_position();
        let alternate = self.terminal.screen().alternate_screen();
        let callbacks = self.terminal.callbacks_mut();
        let title = callbacks.title.clone();
        let bells: u64 = callbacks.bells;
        let progress = callbacks.progress;
        let reports: usize = callbacks.observed_reports.len();
        callbacks.event = false;
        let ghost quiet = HeardView { event: false, ..start.heard };
        assert(terminal_heard(self.terminal) =~= quiet);
        let mut given: Vec<u8> = Vec::new();
        let mut discarded = false;
        for index in 0..bytes.len()
            invariant
                self.boundary@ == followed(start.boundary, bytes@.take(index as int)),
                given@ == passed_on(start.boundary, bytes@.take(index as int)),
                discarded == gives_up(start.boundary, bytes@.take(index as int)),
                terminal_heard(self.terminal) == quiet,
                terminal_steps(self.terminal) == start.steps,
                self.rows == start.rows,
                self.cols == start.cols,
                texts(self.lines@) == start.lines,
                self.text@ == start.text,
        {
            assert(bytes@.take(index + 1).drop_last() =~= bytes@.take(index as int));
            let was_discarding = self.boundary.discarding();
            match self.boundary.parser_byte(bytes[index]) {
                Some(byte) => {
                    given.push(byte);
                },
                None => {},
            }
            discarded = discarded || (!was_discarding && self.boundary.discarding());
        }
        assert(bytes@.take(bytes@.len() as int) =~= bytes@);
        self.terminal.feed(given.as_slice());
        proof {
            feeding_keeps_the_size(start.steps, given@);
        }
        if discarded {
            let callbacks = self.terminal.callbacks_mut();
            proof {
                lemma_reports_grow(quiet, calls_while_fed(start.steps, given@));
            }
            let ghost kept = callbacks.observed_reports@;
            callbacks.title = title;
            callbacks.bells = bells;
            callbacks.progress = progress;
            callbacks.observed_reports.truncate(reports);
            callbacks.event = false;
            assert(byte_views(callbacks.observed_reports@) =~= byte_views(kept).take(
                reports as int,
            ));
            assert(callbacks@ =~= quiet);
        }
        let screen = self.terminal.screen();
        let shown = screen.contents();
        let moved: (u16, u16) = screen.cursor_position();
        self.changed = !same_text(contents.as_str(), shown.as_str()) || cursor.0 != moved.0
            || cursor.1 != moved.1 || alternate != screen.alternate_screen()
            || self.terminal.callbacks().event;
        if self.changed {
            self.refresh_window();
        }
        self.boundary.ground()
    }

    /// Changes the size.
    pub fn resize(&mut self, rows: u16, cols: u16)
        requires
            old(self)@.sound(),
            sound_size(rows, cols),
        ensures
            final(self)@ == old(self)@.resized(rows, cols),
            final(self)@.sound(),
    {
        if cols < self.cols {
            let mut screen = snapshot(self.terminal.screen());
            let kept: u16 = if rows < self.rows {
                rows
            } else {
                self.rows
            };
            mend(&mut screen, kept, cols);
            self.terminal.put_back(screen);
        }
        let ghost kept = terminal_steps(self.terminal);
        self.rows = rows;
        self.cols = cols;
        self.terminal.set_size(rows, cols);
        self.changed = true;
        assert(terminal_steps(self.terminal).drop_last() =~= kept);
        self.refresh_window();
    }

    /// Whether something has changed that the rules could read.
    #[must_use]
    pub fn changed(&self) -> (changed: bool)
        ensures
            changed == self@.changed,
    {
        self.changed
    }

    /// Whether the stream is between sequences.
    #[must_use]
    pub fn ground(&self) -> (ground: bool)
        ensures
            ground == (self@.boundary is Ground),
    {
        self.boundary.ground()
    }

    pub fn clear_changed(&mut self)
        ensures
            final(self)@ == (ScreenModel { changed: false, ..old(self)@ }),
    {
        self.changed = false;
    }

    /// The reports that the child has made since they were last taken.
    pub fn take_observed_reports(&mut self) -> (reports: Vec<Vec<u8>>)
        ensures
            byte_views(reports@) == old(self)@.heard.reports,
            final(self)@ == (ScreenModel {
                heard: HeardView { reports: Seq::empty(), ..old(self)@.heard },
                ..old(self)@
            }),
    {
        let callbacks = self.terminal.callbacks_mut();
        let mut reports: Vec<Vec<u8>> = Vec::new();
        std::mem::swap(&mut reports, &mut callbacks.observed_reports);
        assert(byte_views(callbacks.observed_reports@) =~= Seq::empty());
        reports
    }

    /// Forgets the title and the progress.
    pub fn clear_detection_evidence(&mut self)
        ensures
            final(self)@ == (ScreenModel {
                heard: HeardView {
                    title: Seq::empty(),
                    progress: None,
                    event: true,
                    ..old(self)@.heard
                },
                changed: true,
                ..old(self)@
            }),
    {
        let callbacks = self.terminal.callbacks_mut();
        callbacks.title = String::new();
        callbacks.progress = None;
        callbacks.event = true;
        self.changed = true;
    }

    /// Sets the title to one that was observed elsewhere.
    pub fn set_observed_title(&mut self, title: &str)
        ensures
            final(self)@ == (ScreenModel {
                heard: HeardView { title: clean_title(title@), ..old(self)@.heard },
                ..old(self)@
            }),
    {
        let callbacks = self.terminal.callbacks_mut();
        callbacks.title = cleaned(title);
    }

    /// Sets the progress to one that was observed elsewhere.
    pub fn set_observed_progress(&mut self, progress: Option<Progress>)
        ensures
            final(self)@ == (ScreenModel {
                heard: HeardView { progress, ..old(self)@.heard },
                ..old(self)@
            }),
    {
        let callbacks = self.terminal.callbacks_mut();
        callbacks.progress = progress;
    }

    /// How often the bell was rung.
    #[must_use]
    pub fn bell_count(&self) -> (count: u64)
        ensures
            count == self@.heard.bells,
    {
        self.terminal.callbacks().bells
    }

    fn refresh_window(&mut self)
        requires
            sound_size(old(self)@.rows, old(self)@.cols),
            size_after(old(self)@.steps) == (old(self)@.rows, old(self)@.cols),
        ensures
            final(self)@ == old(self)@.refreshed(),
    {
        let ghost start = self@;
        let mut screen = snapshot(self.terminal.screen());
        let alternate = screen.alternate_screen();
        let cursor: (u16, u16) = screen.cursor_position();
        let shown = row_texts(&screen, 0, self.cols);
        let live = trimmed_first(&shown, shown.len());
        assert(texts(shown@).take(shown@.len() as int) =~= texts(shown@));
        screen.set_scrollback(self.rows as usize);
        let count: usize = screen.scrollback();
        let back = row_texts(&screen, 0, self.cols);
        let kept: usize = if count < back.len() {
            count
        } else {
            back.len()
        };
        let above = trimmed_first(&back, kept);
        assert(texts(back@).take(back@.len() as int) =~= texts(back@));
        let lines = window(alternate, above, live, cursor.0, self.rows);
        assert(texts(lines@).subrange(0, lines@.len() as int) =~= texts(lines@));
        self.text = join_lines(&lines, 0, lines.len());
        self.lines = lines;
    }
}

impl ScreenView for Screen {
    open spec fn view_lines(&self) -> Seq<Seq<char>> {
        self@.lines
    }

    open spec fn view_text(&self) -> Seq<char> {
        self@.text
    }

    open spec fn view_title(&self) -> Seq<char> {
        self@.heard.title
    }

    open spec fn view_progress(&self) -> Option<Progress> {
        self@.heard.progress
    }

    open spec fn view_size(&self) -> (u16, u16) {
        (self@.rows, self@.cols)
    }

    fn lines(&self) -> (lines: Vec<String>) {
        copied_texts(&self.lines)
    }

    fn text(&self) -> (text: &str) {
        self.text.as_str()
    }

    fn title(&self) -> (title: &str) {
        self.terminal.callbacks().title.as_str()
    }

    fn progress(&self) -> (progress: Option<Progress>) {
        self.terminal.callbacks().progress
    }

    fn size(&self) -> (size: (u16, u16)) {
        (self.rows, self.cols)
    }
}

} // verus!
