//! The terminal model of `vt100`.
use crate::callbacks::{
    byte_texts, heard, heard_all, lemma_heard_in_turn, Call, Callbacks, HeardView,
};
use crate::numeral::decimal_bytes;
use crate::text::texts;
use vstd::prelude::*;
use vt100::Screen as VtScreen;

verus! {

/// The state of a terminal's screen.
#[verifier::external_type_specification]
#[verifier::external_body]
pub struct ExScreen(VtScreen);

/// What was done to a terminal.
#[verifier::ext_equal]
pub enum Step {
    /// It was made, with a size in rows and columns and room for so many lines of history.
    Start { rows: u16, cols: u16, history: usize },
    /// It was given bytes.
    Bytes(Seq<u8>),
    /// It was resized.
    Size { rows: u16, cols: u16 },
    /// Its screen was given bytes apart from its stream.
    Apart(Seq<u8>),
}

/// What was done to the terminal that a screen belongs to.
pub uninterp spec fn screen_steps(screen: VtScreen) -> Seq<Step>;

/// How many lines of history a screen is scrolled back.
pub uninterp spec fn screen_offset(screen: VtScreen) -> nat;

/// What `vt100::Screen::contents` shows of a terminal, by what was done to it and how far it is
/// scrolled back.
pub uninterp spec fn shown_contents(steps: Seq<Step>, offset: nat) -> Seq<char>;

/// Where `vt100::Screen::cursor_position` finds the cursor, as row and column.
pub uninterp spec fn shown_cursor(steps: Seq<Step>) -> (u16, u16);

/// Whether `vt100::Screen::alternate_screen` finds the alternate screen in use.
pub uninterp spec fn shown_alternate(steps: Seq<Step>) -> bool;

/// What `vt100::Screen::rows` shows of the given columns, row by row.
pub uninterp spec fn shown_rows(
    steps: Seq<Step>,
    offset: nat,
    start: u16,
    width: u16,
) -> Seq<Seq<char>>;

/// Whether `vt100::Cell::is_wide` finds that a wide character begins in the cell at a row and a
/// column.
pub uninterp spec fn shown_wide(steps: Seq<Step>, offset: nat, row: u16, col: u16) -> bool;

/// How many lines of history `vt100::Screen::set_scrollback` can go back.
pub uninterp spec fn history_lines(steps: Seq<Step>) -> nat;

/// The calls that `vt100::Parser::process` makes while it is given bytes, in order.
pub uninterp spec fn calls_made(steps: Seq<Step>, bytes: Seq<u8>) -> Seq<Call>;

/// A size at which the model takes every stream of bytes. With a single row a line that wraps, with
/// fewer than three columns a character of that width, and close to the widest size a tab would
/// leave the screen.
pub open spec fn sound_size(rows: u16, cols: u16) -> bool {
    2 <= rows && 3 <= cols < 65528
}

/// The size that a terminal was given last.
pub open spec fn size_after(steps: Seq<Step>) -> (u16, u16)
    decreases steps.len(),
{
    if steps.len() == 0 {
        (0, 0)
    } else {
        match steps.last() {
            Step::Start { rows, cols, .. } => (rows, cols),
            Step::Size { rows, cols } => (rows, cols),
            Step::Bytes(_) => size_after(steps.drop_last()),
            Step::Apart(_) => size_after(steps.drop_last()),
        }
    }
}

/// The bytes that make a terminal show its alternate screen, or its normal one, as it is.
pub open spec fn selecting(alternate: bool) -> Seq<u8> {
    let last: u8 = if alternate {
        0x68
    } else {
        0x6c
    };
    seq![0x1b, 0x5b, 0x3f, 0x34, 0x37, last]
}

/// The bytes that place the cursor.
pub open spec fn placing(row: u16, col: u16) -> Seq<u8> {
    seq![0x1bu8, 0x5b] + decimal_bytes((row + 1) as nat) + seq![0x64u8, 0x1b, 0x5b] + decimal_bytes(
        (col + 1) as nat,
    ) + seq![0x47u8]
}

/// The bytes that erase a cell of the alternate screen, or of the normal one, place the cursor of
/// that screen, and then show the one screen or the other.
pub open spec fn erasing(
    alternate: bool,
    row: u16,
    col: u16,
    cursor: (u16, u16),
    shown: bool,
) -> Seq<u8> {
    selecting(alternate) + placing(row, col) + seq![0x1bu8, 0x5b, 0x58] + placing(
        cursor.0,
        cursor.1,
    ) + selecting(shown)
}

/// The terminal as it would be if it showed its alternate screen, or its normal one.
pub open spec fn selected(steps: Seq<Step>, alternate: bool) -> Seq<Step> {
    steps.push(Step::Apart(selecting(alternate)))
}

/// A wide character begins in the cell, on the alternate screen or on the normal one.
pub open spec fn wide_on(steps: Seq<Step>, alternate: bool, row: u16, col: u16) -> bool {
    shown_wide(selected(steps, alternate), 0, row, col)
}

/// Every wide character in the first rows, on either screen, would be kept or lost as a whole if
/// the terminal had so many columns.
pub open spec fn uncut(steps: Seq<Step>, rows: u16, cols: u16) -> bool {
    forall|alternate: bool, row: u16|
        row < rows ==> !#[trigger] wide_on(steps, alternate, row, (cols - 1) as u16)
}

/// A cell of the one screen or the other was erased: no wide character begins in it any more, and
/// in all other rows they begin where they did.
pub open spec fn erased(
    before: Seq<Step>,
    after: Seq<Step>,
    alternate: bool,
    row: u16,
    col: u16,
) -> bool {
    &&& !wide_on(after, alternate, row, col)
    &&& forall|screen: bool, other: u16, place: u16|
        screen != alternate || other != row ==> #[trigger] wide_on(after, screen, other, place)
            == wide_on(before, screen, other, place)
}

/// The smaller of two numbers of rows.
pub open spec fn fewer(left: u16, right: u16) -> u16 {
    if left < right {
        left
    } else {
        right
    }
}

/// No wide character was ever cut in two by a resize.
pub open spec fn whole(steps: Seq<Step>) -> bool
    decreases steps.len(),
{
    if steps.len() == 0 {
        true
    } else {
        let before = steps.drop_last();
        match steps.last() {
            Step::Start { .. } => true,
            Step::Size { rows, cols } => whole(before) && (cols >= size_after(before).1 || uncut(
                before,
                fewer(rows, size_after(before).0),
                cols,
            )),
            _ => whole(before),
        }
    }
}

/// The terminal takes every stream of bytes.
pub open spec fn ready(steps: Seq<Step>) -> bool {
    sound_size(size_after(steps).0, size_after(steps).1) && whole(steps)
}

/// The most bytes that a terminal is given at a time.
pub const PIECE_BYTES: usize = 8192;

/// A terminal that was given bytes piece by piece. The last piece is shorter than the others.
pub open spec fn fed(steps: Seq<Step>, bytes: Seq<u8>) -> Seq<Step>
    decreases bytes.len(),
{
    if bytes.len() < PIECE_BYTES {
        steps.push(Step::Bytes(bytes))
    } else {
        let piece = bytes.take(PIECE_BYTES as int);
        fed(steps.push(Step::Bytes(piece)), bytes.skip(PIECE_BYTES as int))
    }
}

/// The calls that a terminal makes while it is given bytes piece by piece, in order.
pub open spec fn calls_while_fed(steps: Seq<Step>, bytes: Seq<u8>) -> Seq<Call>
    decreases bytes.len(),
{
    if bytes.len() < PIECE_BYTES {
        calls_made(steps, bytes)
    } else {
        let piece = bytes.take(PIECE_BYTES as int);
        calls_made(steps, piece) + calls_while_fed(
            steps.push(Step::Bytes(piece)),
            bytes.skip(PIECE_BYTES as int),
        )
    }
}

/// Whatever a terminal is given, it keeps its size, and stays whole if it was.
pub proof fn feeding_keeps_the_size(steps: Seq<Step>, bytes: Seq<u8>)
    ensures
        size_after(fed(steps, bytes)) == size_after(steps),
        whole(fed(steps, bytes)) == whole(steps),
    decreases bytes.len(),
{
    if bytes.len() < PIECE_BYTES {
        assert(fed(steps, bytes).drop_last() =~= steps);
    } else {
        let longer = steps.push(Step::Bytes(bytes.take(PIECE_BYTES as int)));
        assert(longer.drop_last() =~= steps);
        feeding_keeps_the_size(longer, bytes.skip(PIECE_BYTES as int));
    }
}

/// Nothing was done to a terminal but that its screen was given bytes apart from its stream.
pub open spec fn only_apart(before: Seq<Step>, after: Seq<Step>) -> bool {
    &&& before.is_prefix_of(after)
    &&& forall|index: int|
        before.len() <= index < after.len() ==> #[trigger] after[index] is Apart
}

/// `vt100::Screen::contents`: the text on the screen. It depends on what was done to the terminal
/// and on how far it is scrolled back.
pub assume_specification[ VtScreen::contents ](screen: &VtScreen) -> (contents: String)
    ensures
        contents@ == shown_contents(screen_steps(*screen), screen_offset(*screen)),
;

/// `vt100::Screen::cursor_position`: the row and the column of the cursor.
pub assume_specification[ VtScreen::cursor_position ](screen: &VtScreen) -> (position: (
    u16,
    u16,
))
    ensures
        position == shown_cursor(screen_steps(*screen)),
;

/// `vt100::Screen::alternate_screen`: whether the alternate screen is in use.
pub assume_specification[ VtScreen::alternate_screen ](screen: &VtScreen) -> (alternate:
    bool)
    ensures
        alternate == shown_alternate(screen_steps(*screen)),
;

/// `vt100::Screen::set_scrollback`: scrolls back, as far as there is history.
pub assume_specification[ VtScreen::set_scrollback ](screen: &mut VtScreen, rows: usize)
    ensures
        screen_steps(*final(screen)) == screen_steps(*old(screen)),
        screen_offset(*final(screen)) == if rows <= history_lines(screen_steps(*old(screen))) {
            rows as nat
        } else {
            history_lines(screen_steps(*old(screen)))
        },
;

/// `vt100::Screen::scrollback`: how far the screen is scrolled back.
pub assume_specification[ VtScreen::scrollback ](screen: &VtScreen) -> (offset: usize)
    ensures
        offset == screen_offset(*screen),
;

/// `vt100::Screen::clone`: a screen in the same state.
#[verifier::external_body]
pub(crate) fn snapshot(screen: &VtScreen) -> (copy: VtScreen)
    ensures
        screen_steps(copy) == screen_steps(*screen),
        screen_offset(copy) == screen_offset(*screen),
{
    screen.clone()
}

/// `vt100::Screen::rows`: the text of the given columns of each row. There are as many as the
/// terminal has rows, as long as it is not scrolled back by more than that.
#[verifier::external_body]
pub(crate) fn row_texts(screen: &VtScreen, start: u16, width: u16) -> (rows: Vec<String>)
    ensures
        texts(rows@) == shown_rows(screen_steps(*screen), screen_offset(*screen), start, width),
        screen_offset(*screen) <= size_after(screen_steps(*screen)).0 ==> rows@.len() == size_after(
            screen_steps(*screen),
        ).0,
{
    screen.rows(start, width).collect()
}

/// `vt100::Screen::cell` and `vt100::Cell::is_wide`: whether a wide character begins in a cell.
#[verifier::external_body]
pub(crate) fn wide_at(screen: &VtScreen, row: u16, col: u16) -> (wide: bool)
    ensures
        wide == shown_wide(screen_steps(*screen), screen_offset(*screen), row, col),
{
    screen.cell(row, col).is_some_and(vt100::Cell::is_wide)
}

/// `vt100::Parser::process`, of a parser that holds the screen for the time of the call: gives a
/// screen bytes that are no part of the stream of its terminal. Of the bytes that erase a cell it
/// is said what becomes of the wide characters.
#[verifier::external_body]
pub(crate) fn give_apart(screen: &mut VtScreen, bytes: &[u8])
    requires
        screen_offset(*old(screen)) == 0,
        ready(screen_steps(*old(screen))),
    ensures
        screen_steps(*final(screen)) == screen_steps(*old(screen)).push(Step::Apart(bytes@)),
        screen_offset(*final(screen)) == 0,
        forall|alternate: bool, row: u16, col: u16, cursor: (u16, u16), shown: bool|
            bytes@ == #[trigger] erasing(alternate, row, col, cursor, shown) && row < size_after(
                screen_steps(*old(screen)),
            ).0 && col < size_after(screen_steps(*old(screen))).1 ==> erased(
                screen_steps(*old(screen)),
                screen_steps(*final(screen)),
                alternate,
                row,
                col,
            ),
{
    let mut parser = vt100::Parser::default();
    std::mem::swap(parser.screen_mut(), screen);
    parser.process(bytes);
    std::mem::swap(parser.screen_mut(), screen);
}

impl vt100::Callbacks for Callbacks {
    fn audible_bell(&mut self, screen: &mut VtScreen)
        ensures
            final(self)@ == heard(old(self)@, Call::Bell),
            *final(screen) == *old(screen),
    {
        self.hear_bell();
    }

    fn set_window_title(&mut self, screen: &mut VtScreen, title: &[u8])
        ensures
            final(self)@ == heard(old(self)@, Call::Title(title@)),
            *final(screen) == *old(screen),
    {
        self.hear_title(title);
    }

    fn unhandled_osc(&mut self, screen: &mut VtScreen, params: &[&[u8]])
        ensures
            final(self)@ == heard(old(self)@, Call::Osc(byte_texts(params@))),
            *final(screen) == *old(screen),
    {
        self.hear_osc(params);
    }
}

/// A terminal, and what was heard of it.
#[verifier::external_body]
pub struct Terminal {
    parser: vt100::Parser<Callbacks>,
}

/// What was done to a terminal.
pub uninterp spec fn terminal_steps(terminal: Terminal) -> Seq<Step>;

/// What was heard of a terminal.
pub uninterp spec fn terminal_heard(terminal: Terminal) -> HeardView;

impl Terminal {
    /// `vt100::Parser::new_with_callbacks`: a terminal of the given size, with room for so many
    /// lines of history.
    #[verifier::external_body]
    pub(crate) fn new(rows: u16, cols: u16, history: usize, callbacks: Callbacks) -> (terminal: Self)
        requires
            sound_size(rows, cols),
        ensures
            terminal_steps(terminal) == seq![Step::Start { rows, cols, history }],
            terminal_heard(terminal) == callbacks@,
    {
        Terminal { parser: vt100::Parser::new_with_callbacks(rows, cols, history, callbacks) }
    }

    /// `vt100::Parser::process`: hands bytes to the terminal, which makes its calls one after the
    /// other. It takes every stream, as long as its size is sound and no wide character on it was
    /// cut in two.
    #[verifier::external_body]
    pub(crate) fn process(&mut self, bytes: &[u8])
        requires
            ready(terminal_steps(*old(self))),
        ensures
            terminal_steps(*final(self)) == terminal_steps(*old(self)).push(Step::Bytes(bytes@)),
            terminal_heard(*final(self)) == heard_all(
                terminal_heard(*old(self)),
                calls_made(terminal_steps(*old(self)), bytes@),
            ),
    {
        self.parser.process(bytes)
    }

    /// Hands bytes to the terminal piece by piece.
    pub(crate) fn feed(&mut self, bytes: &[u8])
        requires
            ready(terminal_steps(*old(self))),
        ensures
            terminal_steps(*final(self)) == fed(terminal_steps(*old(self)), bytes@),
            terminal_heard(*final(self)) == heard_all(
                terminal_heard(*old(self)),
                calls_while_fed(terminal_steps(*old(self)), bytes@),
            ),
    {
        let ghost start = terminal_steps(*self);
        let ghost heard_before = terminal_heard(*self);
        let mut at: usize = 0;
        assert(bytes@.skip(0) =~= bytes@);
        while bytes.len() - at >= PIECE_BYTES
            invariant
                at <= bytes@.len(),
                ready(terminal_steps(*self)),
                fed(start, bytes@) == fed(terminal_steps(*self), bytes@.skip(at as int)),
                heard_all(heard_before, calls_while_fed(start, bytes@)) == heard_all(
                    terminal_heard(*self),
                    calls_while_fed(terminal_steps(*self), bytes@.skip(at as int)),
                ),
            decreases bytes@.len() - at,
        {
            let ghost before = terminal_steps(*self);
            let ghost rest = bytes@.skip(at as int);
            let piece = &bytes[at..at + PIECE_BYTES];
            assert(piece@ =~= rest.take(PIECE_BYTES as int));
            proof {
                lemma_heard_in_turn(
                    terminal_heard(*self),
                    calls_made(before, piece@),
                    calls_while_fed(
                        before.push(Step::Bytes(piece@)),
                        rest.skip(PIECE_BYTES as int),
                    ),
                );
            }
            self.process(piece);
            assert(terminal_steps(*self).drop_last() =~= before);
            at = at + PIECE_BYTES;
            assert(rest.skip(PIECE_BYTES as int) =~= bytes@.skip(at as int));
        }
        let last = &bytes[at..bytes.len()];
        assert(last@ =~= bytes@.skip(at as int));
        self.process(last);
    }

    /// `vt100::Parser::screen_mut` and `vt100::Screen::set_size`: resizes the terminal.
    #[verifier::external_body]
    pub(crate) fn set_size(&mut self, rows: u16, cols: u16)
        requires
            sound_size(rows, cols),
        ensures
            terminal_steps(*final(self)) == terminal_steps(*old(self)).push(
                Step::Size { rows, cols },
            ),
            terminal_heard(*final(self)) == terminal_heard(*old(self)),
    {
        self.parser.screen_mut().set_size(rows, cols)
    }

    /// `vt100::Parser::screen_mut`: gives the terminal a copy of its screen back that was given
    /// bytes apart, wherever its stream is.
    #[verifier::external_body]
    pub(crate) fn put_back(&mut self, screen: VtScreen)
        requires
            only_apart(terminal_steps(*old(self)), screen_steps(screen)),
            screen_offset(screen) == 0,
        ensures
            terminal_steps(*final(self)) == screen_steps(screen),
            terminal_heard(*final(self)) == terminal_heard(*old(self)),
    {
        *self.parser.screen_mut() = screen;
    }

    /// `vt100::Parser::screen`: the screen, not scrolled back.
    #[verifier::external_body]
    pub(crate) fn screen(&self) -> (screen: &VtScreen)
        ensures
            screen_steps(*screen) == terminal_steps(*self),
            screen_offset(*screen) == 0,
    {
        self.parser.screen()
    }

    /// `vt100::Parser::callbacks`: what was heard.
    #[verifier::external_body]
    pub(crate) fn callbacks(&self) -> (callbacks: &Callbacks)
        ensures
            callbacks@ == terminal_heard(*self),
    {
        self.parser.callbacks()
    }

    /// `vt100::Parser::callbacks_mut`: what was heard, to be changed.
    #[verifier::external_body]
    pub(crate) fn callbacks_mut(&mut self) -> (callbacks: &mut Callbacks)
        ensures
            callbacks@ == terminal_heard(*old(self)),
            terminal_heard(*final(self)) == final(callbacks)@,
            terminal_steps(*final(self)) == terminal_steps(*old(self)),
    {
        self.parser.callbacks_mut()
    }
}

} // verus!
