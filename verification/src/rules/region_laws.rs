//! Which part of a screen each region is.
use crate::numeral::decimal_chars;
use crate::rules::eval::{
    at_marker, filled, horizontal, last_marker, last_rule, nth_filled, nth_filled_up, region_text,
    some_block, Picture,
};
use crate::rules::laws::{last_marker_is_last, lemma_last_rule, top_holds_n_lines};
use crate::rules::schema::Region;
use crate::text::{joined_lines, leading_run, trim, whitespace};
use crate::text_laws::{
    a_line_ends_with_a_feed, blank, both_ends_are_trimmed, leading_characters_are_counted,
    one_more_line, stretches_of_lines_are_joined,
};
use vstd::prelude::*;

verus! {

/// `top(n)` starts empty, grows by one line at a time from the first on, and is all lines once
/// there are no more.
pub proof fn top_grows_line_by_line(
    marker: Option<Seq<char>>,
    blocks: Seq<Seq<char>>,
    picture: Picture,
    count: usize,
)
    ensures
        region_text(Region::Top(0), marker, blocks, picture) == Seq::<char>::empty(),
        count < picture.lines.len() && count < usize::MAX ==> region_text(
            Region::Top((count + 1) as usize),
            marker,
            blocks,
            picture,
        ) == (region_text(Region::Top(count), marker, blocks, picture)
            + picture.lines[count as int]).push('\n'),
        count >= picture.lines.len() ==> region_text(Region::Top(count), marker, blocks, picture)
            == joined_lines(picture.lines),
{
    let lines = picture.lines;
    assert(lines.take(0) =~= Seq::empty());
    assert(lines.take(lines.len() as int) =~= lines);
    if count < lines.len() && count < usize::MAX {
        one_more_line(lines.take(count as int), lines[count as int]);
        assert(lines.take(count as int).push(lines[count as int]) =~= lines.take(count + 1));
    }
}

/// `bottom(n)` starts empty, grows by one line at a time from the last on, and is all lines once
/// there are no more.
pub proof fn bottom_grows_line_by_line(
    marker: Option<Seq<char>>,
    blocks: Seq<Seq<char>>,
    picture: Picture,
    count: usize,
)
    ensures
        region_text(Region::Bottom(0), marker, blocks, picture) == Seq::<char>::empty(),
        count < picture.lines.len() && count < usize::MAX ==> region_text(
            Region::Bottom((count + 1) as usize),
            marker,
            blocks,
            picture,
        ) == picture.lines[picture.lines.len() - 1 - count].push('\n') + region_text(
            Region::Bottom(count),
            marker,
            blocks,
            picture,
        ),
        count >= picture.lines.len() ==> region_text(
            Region::Bottom(count),
            marker,
            blocks,
            picture,
        ) == joined_lines(picture.lines),
{
    let lines = picture.lines;
    assert(lines.skip(lines.len() as int) =~= Seq::empty());
    assert(lines.skip(0) =~= lines);
    if count < lines.len() && count < usize::MAX {
        let line = lines[lines.len() - 1 - count];
        let rest = lines.skip(lines.len() - count);
        a_line_ends_with_a_feed(line);
        stretches_of_lines_are_joined(seq![line], rest);
        assert(seq![line] + rest =~= lines.skip(lines.len() - count - 1));
    }
}

/// The top of a screen and the rest of it below make the whole of it.
pub proof fn top_and_bottom_make_the_whole(
    marker: Option<Seq<char>>,
    blocks: Seq<Seq<char>>,
    picture: Picture,
    above: usize,
    below: usize,
)
    requires
        above + below == picture.lines.len(),
    ensures
        region_text(Region::Top(above), marker, blocks, picture) + region_text(
            Region::Bottom(below),
            marker,
            blocks,
            picture,
        ) == joined_lines(picture.lines),
{
    let lines = picture.lines;
    assert(lines.take(above as int) + lines.skip(above as int) =~= lines);
    assert(lines.take(lines.len() as int) =~= lines);
    assert(lines.skip(0) =~= lines);
    stretches_of_lines_are_joined(lines.take(above as int), lines.skip(above as int));
}

/// The number of lines that are not empty.
pub open spec fn texts_in(lines: Seq<Seq<char>>) -> nat {
    lines.filter(|line: Seq<char>| line.len() > 0).len()
}

proof fn lemma_filled(lines: Seq<Seq<char>>)
    ensures
        filled(lines) == texts_in(lines),
    decreases lines.len(),
{
    reveal(Seq::filter);
    if lines.len() > 0 {
        lemma_filled(lines.drop_last());
    }
}

proof fn lemma_filled_grows(lines: Seq<Seq<char>>, count: int)
    requires
        0 <= count <= lines.len(),
    ensures
        filled(lines.take(count)) <= filled(lines),
    decreases lines.len() - count,
{
    if count == lines.len() {
        assert(lines.take(count) =~= lines);
    } else {
        assert(lines.take(count + 1).drop_last() =~= lines.take(count));
        lemma_filled_grows(lines, count + 1);
    }
}

proof fn lemma_bottom_start(above: Seq<Seq<char>>, below: Seq<Seq<char>>, nth: nat)
    requires
        below.len() > 0,
        below[0].len() > 0,
        filled(below) == if nth == 0 {
            1
        } else {
            nth
        },
    ensures
        nth_filled_up(above + below, nth) == Some(above.len() as int),
    decreases below.len(),
{
    let lines = above + below;
    let before = below.drop_last();
    assert(lines.drop_last() =~= above + before);
    assert(lines.last() == below.last());
    if below.len() == 1 {
        assert(before =~= Seq::empty());
        assert(filled(before) == 0);
    } else {
        assert(before[0] == below[0]);
        if below.last().len() == 0 {
            lemma_bottom_start(above, before, nth);
        } else {
            lemma_some_filled(before);
            lemma_bottom_start(above, before, (nth - 1) as nat);
        }
    }
}

proof fn lemma_some_filled(lines: Seq<Seq<char>>)
    requires
        lines.len() > 0,
        lines[0].len() > 0,
    ensures
        filled(lines) > 0,
    decreases lines.len(),
{
    if lines.len() > 1 {
        lemma_some_filled(lines.drop_last());
    } else {
        assert(lines.last() == lines[0]);
    }
}

proof fn lemma_nothing_up(lines: Seq<Seq<char>>, nth: nat)
    requires
        filled(lines) < if nth == 0 {
            1
        } else {
            nth
        },
    ensures
        nth_filled_up(lines, nth) is None,
    decreases lines.len(),
{
    if lines.len() > 0 {
        if lines.last().len() == 0 {
            lemma_nothing_up(lines.drop_last(), nth);
        } else {
            lemma_nothing_up(lines.drop_last(), (nth - 1) as nat);
        }
    }
}

/// `bottom_non_empty(n)` is the end of the screen that starts with a line that is not empty and
/// holds `n` of those, at least one; and nothing where there are not so many.
pub proof fn the_bottom_holds_its_texts(
    marker: Option<Seq<char>>,
    blocks: Seq<Seq<char>>,
    picture: Picture,
    above: Seq<Seq<char>>,
    below: Seq<Seq<char>>,
    count: usize,
)
    requires
        picture.lines == above + below,
    ensures
        below.len() > 0 && below[0].len() > 0 && (texts_in(below) == count || count == 0
            && texts_in(below) == 1) ==> region_text(
            Region::BottomNonEmpty(count),
            marker,
            blocks,
            picture,
        ) == joined_lines(below),
        texts_in(picture.lines) < count || texts_in(picture.lines) == 0 ==> region_text(
            Region::BottomNonEmpty(count),
            marker,
            blocks,
            picture,
        ) == Seq::<char>::empty(),
{
    lemma_filled(below);
    lemma_filled(picture.lines);
    if below.len() > 0 && below[0].len() > 0 && (texts_in(below) == count || count == 0
        && texts_in(below) == 1) {
        lemma_some_filled(below);
        lemma_bottom_start(above, below, count as nat);
        assert(picture.lines.skip(above.len() as int) =~= below);
    }
    if texts_in(picture.lines) < count || texts_in(picture.lines) == 0 {
        lemma_nothing_up(picture.lines, count as nat);
    }
}

proof fn lemma_top_end(above: Seq<Seq<char>>, below: Seq<Seq<char>>, nth: nat)
    requires
        above.len() > 0,
        above.last().len() > 0,
        filled(above) == if nth == 0 {
            1
        } else {
            nth
        },
    ensures
        nth_filled(above + below, nth) == Some(above.len() - 1),
    decreases below.len(),
{
    if below.len() == 0 {
        let before = above.drop_last();
        assert(above + below =~= above);
        top_holds_n_lines(before, nth);
        match nth_filled(before, nth) {
            Some(index) => {
                lemma_filled_grows(before, index + 1);
            },
            None => {},
        }
    } else {
        assert((above + below).drop_last() =~= above + below.drop_last());
        lemma_top_end(above, below.drop_last(), nth);
    }
}

/// `top_non_empty(n)` is the start of the screen that ends with a line that is not empty and holds
/// `n` of those, at least one; and nothing where there are not so many.
pub proof fn the_top_holds_its_texts(
    marker: Option<Seq<char>>,
    blocks: Seq<Seq<char>>,
    picture: Picture,
    above: Seq<Seq<char>>,
    below: Seq<Seq<char>>,
    count: usize,
)
    requires
        picture.lines == above + below,
    ensures
        above.len() > 0 && above.last().len() > 0 && (texts_in(above) == count || count == 0
            && texts_in(above) == 1) ==> region_text(
            Region::TopNonEmpty(count),
            marker,
            blocks,
            picture,
        ) == joined_lines(above),
        texts_in(picture.lines) < count || texts_in(picture.lines) == 0 ==> region_text(
            Region::TopNonEmpty(count),
            marker,
            blocks,
            picture,
        ) == Seq::<char>::empty(),
{
    let lines = picture.lines;
    lemma_filled(above);
    lemma_filled(lines);
    if above.len() > 0 && above.last().len() > 0 && (texts_in(above) == count || count == 0
        && texts_in(above) == 1) {
        if texts_in(above) == 0 {
            assert(filled(above) > 0);
        }
        lemma_top_end(above, below, count as nat);
        assert(lines.take(above.len() as int) =~= above);
    }
    if texts_in(lines) < count || texts_in(lines) == 0 {
        top_holds_n_lines(lines, count as nat);
        match nth_filled(lines, count as nat) {
            Some(index) => {
                lemma_filled_grows(lines, index + 1);
            },
            None => {},
        }
    }
}

/// None of the lines is a horizontal rule.
pub open spec fn unruled(lines: Seq<Seq<char>>) -> bool {
    forall|index: int| 0 <= index < lines.len() ==> !horizontal(#[trigger] lines[index])
}

proof fn lemma_rule_found(above: Seq<Seq<char>>, rule: Seq<char>, below: Seq<Seq<char>>)
    requires
        horizontal(rule),
        unruled(below),
    ensures
        last_rule(above.push(rule) + below) == Some(above.len() as int),
{
    let lines = above.push(rule) + below;
    lemma_last_rule(lines);
    assert(lines[above.len() as int] == rule);
    assert forall|index: int| above.len() < index < lines.len() implies !horizontal(
        #[trigger] lines[index],
    ) by {
        assert(lines[index] == below[index - above.len() - 1]);
    }
}

/// Between the last two horizontal rules of a screen stands the prompt box, above the upper of them
/// what is above it, and below the lower what is after the last rule.
pub proof fn rules_part_the_screen(
    marker: Option<Seq<char>>,
    blocks: Seq<Seq<char>>,
    picture: Picture,
    above: Seq<Seq<char>>,
    upper: Seq<char>,
    inside: Seq<Seq<char>>,
    lower: Seq<char>,
    below: Seq<Seq<char>>,
)
    requires
        picture.lines == above.push(upper) + inside.push(lower) + below,
        horizontal(upper),
        horizontal(lower),
        unruled(inside),
        unruled(below),
    ensures
        region_text(Region::PromptBox, marker, blocks, picture) == joined_lines(inside),
        region_text(Region::AbovePromptBox, marker, blocks, picture) == joined_lines(above),
        region_text(Region::AfterLastRule, marker, blocks, picture) == joined_lines(below),
{
    let lines = picture.lines;
    let before = above.push(upper) + inside;
    assert(lines =~= before.push(lower) + below);
    lemma_rule_found(before, lower, below);
    let place = before.len() as int;
    assert(lines.take(place) =~= before);
    lemma_rule_found(above, upper, inside);
    assert(lines.subrange(above.len() as int + 1, place) =~= inside);
    assert(lines.take(above.len() as int) =~= above);
    assert(lines.skip(place + 1) =~= below);
}

/// With a single horizontal rule there is no prompt box, and everything counts as above it.
pub proof fn one_rule_makes_no_box(
    marker: Option<Seq<char>>,
    blocks: Seq<Seq<char>>,
    picture: Picture,
    above: Seq<Seq<char>>,
    rule: Seq<char>,
    below: Seq<Seq<char>>,
)
    requires
        picture.lines == above.push(rule) + below,
        unruled(above),
        horizontal(rule),
        unruled(below),
    ensures
        region_text(Region::PromptBox, marker, blocks, picture) == Seq::<char>::empty(),
        region_text(Region::AbovePromptBox, marker, blocks, picture) == picture.text,
        region_text(Region::AfterLastRule, marker, blocks, picture) == joined_lines(below),
{
    let lines = picture.lines;
    lemma_rule_found(above, rule, below);
    assert(lines.take(above.len() as int) =~= above);
    lemma_last_rule(above);
    assert(lines.skip(above.len() as int + 1) =~= below);
}

/// Without a horizontal rule there is no prompt box and nothing after a rule, and everything counts
/// as above the box.
pub proof fn no_rule_makes_no_box(
    marker: Option<Seq<char>>,
    blocks: Seq<Seq<char>>,
    picture: Picture,
)
    requires
        unruled(picture.lines),
    ensures
        region_text(Region::PromptBox, marker, blocks, picture) == Seq::<char>::empty(),
        region_text(Region::AbovePromptBox, marker, blocks, picture) == picture.text,
        region_text(Region::AfterLastRule, marker, blocks, picture) == Seq::<char>::empty(),
{
    lemma_last_rule(picture.lines);
}

/// All of the lines are empty.
pub open spec fn all_empty(lines: Seq<Seq<char>>) -> bool {
    forall|index: int| 0 <= index < lines.len() ==> (#[trigger] lines[index]).len() == 0
}

proof fn lemma_last_text(above: Seq<Seq<char>>, line: Seq<char>, empty: Seq<Seq<char>>)
    requires
        line.len() > 0,
        all_empty(empty),
    ensures
        nth_filled_up(above.push(line) + empty, 1) == Some(above.len() as int),
    decreases empty.len(),
{
    let lines = above.push(line) + empty;
    if empty.len() == 0 {
        assert(lines =~= above.push(line));
    } else {
        assert(lines.drop_last() =~= above.push(line) + empty.drop_last());
        assert(lines.last() == empty[empty.len() - 1]);
        assert forall|index: int| 0 <= index < empty.drop_last().len() implies (
        #[trigger] empty.drop_last()[index]).len() == 0 by {
            assert(empty[index].len() == 0);
        }
        lemma_last_text(above, line, empty.drop_last());
    }
}

proof fn lemma_no_text(lines: Seq<Seq<char>>)
    requires
        all_empty(lines),
    ensures
        nth_filled_up(lines, 1) is None,
    decreases lines.len(),
{
    if lines.len() > 0 {
        assert(lines[lines.len() - 1].len() == 0);
        assert forall|index: int| 0 <= index < lines.drop_last().len() implies (
        #[trigger] lines.drop_last()[index]).len() == 0 by {
            assert(lines[index].len() == 0);
        }
        lemma_no_text(lines.drop_last());
    }
}

/// The last line above the prompt box is the last one there that is not empty.
pub proof fn the_last_line_above_the_box(
    marker: Option<Seq<char>>,
    blocks: Seq<Seq<char>>,
    picture: Picture,
    above: Seq<Seq<char>>,
    line: Seq<char>,
    empty: Seq<Seq<char>>,
    upper: Seq<char>,
    inside: Seq<Seq<char>>,
    lower: Seq<char>,
    below: Seq<Seq<char>>,
)
    requires
        picture.lines == (above.push(line) + empty).push(upper) + inside.push(lower) + below,
        line.len() > 0,
        all_empty(empty),
        horizontal(upper),
        horizontal(lower),
        unruled(inside),
        unruled(below),
    ensures
        region_text(Region::LastLineAbovePromptBox, marker, blocks, picture) == line.push('\n'),
{
    let top = above.push(line) + empty;
    let lines = picture.lines;
    let before = top.push(upper) + inside;
    assert(lines =~= before.push(lower) + below);
    lemma_rule_found(before, lower, below);
    assert(lines.take(before.len() as int) =~= before);
    lemma_rule_found(top, upper, inside);
    assert(lines.take(top.len() as int) =~= top);
    lemma_last_text(above, line, empty);
    assert(top[above.len() as int] == line);
    a_line_ends_with_a_feed(line);
}

/// Without a prompt box it is the last line of the screen that is not empty. Where nothing but
/// empty lines stands there, it is nothing.
pub proof fn the_last_line_without_a_box(
    marker: Option<Seq<char>>,
    blocks: Seq<Seq<char>>,
    picture: Picture,
    above: Seq<Seq<char>>,
    line: Seq<char>,
    empty: Seq<Seq<char>>,
)
    requires
        unruled(picture.lines),
        all_empty(empty),
        line.len() > 0,
    ensures
        picture.lines == above.push(line) + empty ==> region_text(
            Region::LastLineAbovePromptBox,
            marker,
            blocks,
            picture,
        ) == line.push('\n'),
        picture.lines == empty ==> region_text(
            Region::LastLineAbovePromptBox,
            marker,
            blocks,
            picture,
        ) == Seq::<char>::empty(),
{
    lemma_last_rule(picture.lines);
    lemma_last_text(above, line, empty);
    lemma_no_text(empty);
    a_line_ends_with_a_feed(line);
    assert((above.push(line) + empty)[above.len() as int] == line);
}

/// A horizontal rule is a run of `─` between whitespace, alone, or at least three long before
/// anything else. A line that starts with another character is none.
pub proof fn rules_are_runs(
    before: Seq<char>,
    count: nat,
    rest: Seq<char>,
    after: Seq<char>,
)
    requires
        blank(before),
        blank(after),
        rest.len() > 0 ==> rest[0] != '─' && !whitespace(rest.last()),
        count == 0 && rest.len() > 0 ==> !whitespace(rest[0]),
    ensures
        horizontal(before + (Seq::new(count, |index: int| '─') + rest) + after) <==> count >= 3
            || count >= 1 && rest.len() == 0,
{
    let run = Seq::new(count, |index: int| '─');
    let text = run + rest;
    if text.len() > 0 {
        if count > 0 {
            assert(text[0] == '─');
        } else {
            assert(text[0] == rest[0]);
        }
        if rest.len() > 0 {
            assert(text.last() == rest.last());
        } else {
            assert(text.last() == '─');
        }
    }
    both_ends_are_trimmed(before, text, after);
    leading_characters_are_counted(count, '─', rest);
    assert(trim(before + text + after) == text);
    assert(leading_run(text, '─') == count);
}

/// None of the lines shows the prompt marker.
pub open spec fn unmarked(lines: Seq<Seq<char>>, marker: Seq<char>) -> bool {
    forall|index: int|
        0 <= index < lines.len() ==> (#[trigger] lines[index]) != marker && !marker.push(
            ' ',
        ).is_prefix_of(lines[index])
}

/// One of the lines starts with one of the block markers.
pub open spec fn blocked_in(lines: Seq<Seq<char>>, blocks: Seq<Seq<char>>) -> bool {
    exists|line: int, block: int, rest: Seq<char>|
        0 <= line < lines.len() && 0 <= block < blocks.len() && #[trigger] lines[line]
            == #[trigger] (blocks[block] + rest)
}

proof fn lemma_blocked(lines: Seq<Seq<char>>, blocks: Seq<Seq<char>>)
    ensures
        some_block(lines, blocks) == blocked_in(lines, blocks),
{
    if some_block(lines, blocks) {
        let (line, block) = choose|line: int, block: int|
            0 <= line < lines.len() && 0 <= block < blocks.len()
                && #[trigger] blocks[block].is_prefix_of(#[trigger] lines[line]);
        let rest = lines[line].skip(blocks[block].len() as int);
        assert(lines[line] =~= blocks[block] + rest);
    }
    if blocked_in(lines, blocks) {
        let (line, block, rest) = choose|line: int, block: int, rest: Seq<char>|
            0 <= line < lines.len() && 0 <= block < blocks.len() && #[trigger] lines[line]
                == #[trigger] (blocks[block] + rest);
        assert(lines[line].subrange(0, blocks[block].len() as int) =~= blocks[block]);
        assert(blocks[block].is_prefix_of(lines[line]));
    }
}

/// Behind the last line that is the prompt marker, alone or before a space, stands what is after
/// it. With a block marker at the start of a line there the agent is not at its prompt, and the
/// whole screen counts; else nothing does.
pub proof fn the_last_marker_counts(
    marker: Seq<char>,
    blocks: Seq<Seq<char>>,
    picture: Picture,
    above: Seq<Seq<char>>,
    rest: Option<Seq<char>>,
    below: Seq<Seq<char>>,
)
    requires
        picture.lines == above.push(
            match rest {
                Some(text) => marker.push(' ') + text,
                None => marker,
            },
        ) + below,
        unmarked(below, marker),
    ensures
        region_text(Region::AfterLastPromptMarker, Some(marker), blocks, picture) == joined_lines(
            below,
        ),
        region_text(Region::WholeUnlessAtPrompt, Some(marker), blocks, picture) == if blocked_in(
            below,
            blocks,
        ) {
            picture.text
        } else {
            Seq::<char>::empty()
        },
{
    let lines = picture.lines;
    let line = match rest {
        Some(text) => marker.push(' ') + text,
        None => marker,
    };
    if rest is Some {
        assert(line.subrange(0, marker.len() as int + 1) =~= marker.push(' '));
    }
    assert(at_marker(line, marker));
    last_marker_is_last(lines, marker);
    assert(lines[above.len() as int] == line);
    assert forall|index: int| above.len() < index < lines.len() implies !at_marker(
        #[trigger] lines[index],
        marker,
    ) by {
        assert(lines[index] == below[index - above.len() - 1]);
    }
    assert(last_marker(lines, Some(marker)) == Some(above.len() as int));
    assert(lines.skip(above.len() as int + 1) =~= below);
    lemma_blocked(below, blocks);
}

/// Where no line shows the prompt marker, or the rule set has none, nothing is after it and the
/// whole screen counts.
pub proof fn unmarked_screens_count(
    marker: Option<Seq<char>>,
    blocks: Seq<Seq<char>>,
    picture: Picture,
)
    requires
        marker is None || unmarked(picture.lines, marker->0),
    ensures
        region_text(Region::AfterLastPromptMarker, marker, blocks, picture) == Seq::<char>::empty(),
        region_text(Region::WholeUnlessAtPrompt, marker, blocks, picture) == picture.text,
{
    match marker {
        Some(text) => {
            last_marker_is_last(picture.lines, text);
            match last_marker(picture.lines, marker) {
                Some(index) => {
                    assert(picture.lines[index] != text);
                },
                None => {},
            }
        },
        None => {},
    }
}

/// The whole screen, the title and the progress are read from nothing else: a screen that has the
/// same of the one has the same region.
pub proof fn plain_regions_are_what_they_say(
    marker: Option<Seq<char>>,
    blocks: Seq<Seq<char>>,
    picture: Picture,
    other: Picture,
)
    ensures
        region_text(Region::Whole, marker, blocks, picture) == picture.text,
        region_text(Region::Title, marker, blocks, picture) == picture.title,
        picture.progress == other.progress ==> region_text(
            Region::Progress,
            marker,
            blocks,
            picture,
        ) == region_text(Region::Progress, marker, blocks, other),
        picture.progress is None ==> region_text(Region::Progress, marker, blocks, picture)
            == Seq::<char>::empty(),
{
}

/// The progress is written with its state first, then a colon, then its percentage.
pub proof fn progress_is_written_state_first(
    marker: Option<Seq<char>>,
    blocks: Seq<Seq<char>>,
    picture: Picture,
)
    requires
        picture.progress is Some,
    ensures
        region_text(Region::Progress, marker, blocks, picture) == decimal_chars(
            picture.progress->0.state as nat,
        ) + seq![':'] + decimal_chars(picture.progress->0.percent as nat),
{
    reveal_strlit(":");
    assert(":"@ =~= seq![':']);
}

} // verus!
