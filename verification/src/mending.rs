//! Keeping wide characters whole where a terminal is to be made narrower.
use crate::numeral::push_decimal;
use crate::terminal::{
    erasing, give_apart, only_apart, placing, ready, screen_offset, screen_steps, selected,
    selecting, shown_alternate, shown_cursor, size_after, snapshot, uncut, wide_at, wide_on, Step,
};
use vstd::prelude::*;
use vt100::Screen as VtScreen;

verus! {

/// A terminal in whose first rows, on the alternate screen or on the normal one, the wide
/// characters that begin in the given column were erased. The cursor is where it was.
pub open spec fn cleared(steps: Seq<Step>, alternate: bool, rows: int, col: u16) -> Seq<Step>
    decreases rows,
{
    if rows <= 0 {
        steps
    } else {
        let before = cleared(steps, alternate, rows - 1, col);
        if wide_on(steps, alternate, (rows - 1) as u16, col) {
            before.push(
                Step::Apart(
                    erasing(
                        alternate,
                        (rows - 1) as u16,
                        col,
                        shown_cursor(selected(steps, alternate)),
                        shown_alternate(steps),
                    ),
                ),
            )
        } else {
            before
        }
    }
}

/// A terminal in whose first rows, on both screens, the wide characters were erased that would be
/// cut in two if it had so many columns.
pub open spec fn mended(steps: Seq<Step>, rows: u16, cols: u16) -> Seq<Step> {
    let col = (cols - 1) as u16;
    cleared(cleared(steps, false, rows as int, col), true, rows as int, col)
}

proof fn lemma_nothing_to_clear(steps: Seq<Step>, alternate: bool, rows: int, col: u16)
    requires
        rows <= u16::MAX,
        forall|row: u16| row < rows ==> !#[trigger] wide_on(steps, alternate, row, col),
    ensures
        cleared(steps, alternate, rows, col) == steps,
    decreases rows,
{
    if rows > 0 {
        lemma_nothing_to_clear(steps, alternate, rows - 1, col);
        assert(!wide_on(steps, alternate, (rows - 1) as u16, col));
    }
}

/// Where no wide character would be cut in two, nothing is erased.
pub proof fn whole_characters_are_left_alone(steps: Seq<Step>, rows: u16, cols: u16)
    requires
        uncut(steps, rows, cols),
    ensures
        mended(steps, rows, cols) == steps,
{
    let col = (cols - 1) as u16;
    lemma_nothing_to_clear(steps, false, rows as int, col);
    lemma_nothing_to_clear(steps, true, rows as int, col);
}

fn push_selection(bytes: &mut Vec<u8>, alternate: bool)
    ensures
        final(bytes)@ == old(bytes)@ + selecting(alternate),
{
    let ghost before = bytes@;
    bytes.push(0x1b);
    bytes.push(0x5b);
    bytes.push(0x3f);
    bytes.push(0x34);
    bytes.push(0x37);
    if alternate {
        bytes.push(0x68);
    } else {
        bytes.push(0x6c);
    }
    assert(bytes@ =~= before + selecting(alternate));
}

fn push_place(bytes: &mut Vec<u8>, row: u16, col: u16)
    ensures
        final(bytes)@ == old(bytes)@ + placing(row, col),
{
    let ghost before = bytes@;
    bytes.push(0x1b);
    bytes.push(0x5b);
    push_decimal(bytes, row as u64 + 1);
    bytes.push(0x64);
    bytes.push(0x1b);
    bytes.push(0x5b);
    push_decimal(bytes, col as u64 + 1);
    bytes.push(0x47);
    assert(bytes@ =~= before + placing(row, col));
}

fn erasure(alternate: bool, row: u16, col: u16, cursor: (u16, u16), shown: bool) -> (bytes: Vec<u8>)
    ensures
        bytes@ == erasing(alternate, row, col, cursor, shown),
{
    let mut bytes: Vec<u8> = Vec::new();
    push_selection(&mut bytes, alternate);
    push_place(&mut bytes, row, col);
    bytes.push(0x1b);
    bytes.push(0x5b);
    bytes.push(0x58);
    push_place(&mut bytes, cursor.0, cursor.1);
    push_selection(&mut bytes, shown);
    assert(bytes@ =~= erasing(alternate, row, col, cursor, shown));
    bytes
}

/// Erases the wide characters that begin in the given column, in the first rows of the alternate
/// screen or of the normal one.
fn clear(screen: &mut VtScreen, alternate: bool, rows: u16, col: u16)
    requires
        screen_offset(*old(screen)) == 0,
        ready(screen_steps(*old(screen))),
        rows <= size_after(screen_steps(*old(screen))).0,
        col < size_after(screen_steps(*old(screen))).1,
    ensures
        screen_offset(*final(screen)) == 0,
        ready(screen_steps(*final(screen))),
        size_after(screen_steps(*final(screen))) == size_after(screen_steps(*old(screen))),
        screen_steps(*final(screen)) == cleared(
            screen_steps(*old(screen)),
            alternate,
            rows as int,
            col,
        ),
        only_apart(screen_steps(*old(screen)), screen_steps(*final(screen))),
        forall|row: u16|
            row < rows ==> !#[trigger] wide_on(screen_steps(*final(screen)), alternate, row, col),
        forall|other: bool, row: u16, place: u16|
            other != alternate ==> #[trigger] wide_on(
                screen_steps(*final(screen)),
                other,
                row,
                place,
            ) == wide_on(screen_steps(*old(screen)), other, row, place),
{
    let ghost start = screen_steps(*screen);
    let shown = screen.alternate_screen();
    let mut copy = snapshot(screen);
    let mut selection: Vec<u8> = Vec::new();
    push_selection(&mut selection, alternate);
    assert(selection@ =~= selecting(alternate));
    give_apart(&mut copy, selection.as_slice());
    let cursor: (u16, u16) = copy.cursor_position();
    for row in 0..rows
        invariant
            start == screen_steps(*old(screen)),
            shown == shown_alternate(start),
            cursor == shown_cursor(selected(start, alternate)),
            screen_steps(copy) == selected(start, alternate),
            screen_offset(copy) == 0,
            screen_offset(*screen) == 0,
            ready(screen_steps(*screen)),
            rows <= size_after(start).0,
            col < size_after(start).1,
            size_after(screen_steps(*screen)) == size_after(start),
            screen_steps(*screen) == cleared(start, alternate, row as int, col),
            only_apart(start, screen_steps(*screen)),
            forall|earlier: u16|
                earlier < row ==> !#[trigger] wide_on(
                    screen_steps(*screen),
                    alternate,
                    earlier,
                    col,
                ),
            forall|other: bool, line: u16, place: u16|
                other != alternate || line >= row ==> #[trigger] wide_on(
                    screen_steps(*screen),
                    other,
                    line,
                    place,
                ) == wide_on(start, other, line, place),
    {
        if wide_at(&copy, row, col) {
            let ghost before = screen_steps(*screen);
            let bytes = erasure(alternate, row, col, cursor, shown);
            give_apart(screen, bytes.as_slice());
            assert(screen_steps(*screen).drop_last() =~= before);
        }
    }
}

/// Erases the wide characters in the first rows, on both screens, that would be cut in two if the
/// terminal had so many columns.
pub(crate) fn mend(screen: &mut VtScreen, rows: u16, cols: u16)
    requires
        screen_offset(*old(screen)) == 0,
        ready(screen_steps(*old(screen))),
        rows <= size_after(screen_steps(*old(screen))).0,
        0 < cols < size_after(screen_steps(*old(screen))).1,
    ensures
        screen_offset(*final(screen)) == 0,
        ready(screen_steps(*final(screen))),
        size_after(screen_steps(*final(screen))) == size_after(screen_steps(*old(screen))),
        screen_steps(*final(screen)) == mended(screen_steps(*old(screen)), rows, cols),
        only_apart(screen_steps(*old(screen)), screen_steps(*final(screen))),
        uncut(screen_steps(*final(screen)), rows, cols),
{
    let ghost start = screen_steps(*screen);
    clear(screen, false, rows, cols - 1);
    let ghost middle = screen_steps(*screen);
    clear(screen, true, rows, cols - 1);
    let ghost end = screen_steps(*screen);
    assert forall|index: int|
        start.len() <= index < end.len() implies #[trigger] end[index] is Apart by {
        if index < middle.len() {
            assert(end[index] == middle[index]);
        }
    }
    assert(start =~= end.take(start.len() as int));
    assert forall|alternate: bool, row: u16| row < rows implies !#[trigger] wide_on(
        end,
        alternate,
        row,
        (cols - 1) as u16,
    ) by {
        if !alternate {
            assert(!wide_on(middle, alternate, row, (cols - 1) as u16));
        }
    }
}

} // verus!
