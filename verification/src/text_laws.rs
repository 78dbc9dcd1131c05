//! What holds of texts, their lines and their words.
use crate::text::{
    joined, joined_lines, leading_run, lemma_split_after_separator, lemma_split_plain, occurs,
    occurs_at, split, split_of_joined, text_lines, trim, trim_end, trim_start, whitespace,
    without_return, words,
};
use vstd::prelude::*;

verus! {

/// Every character is whitespace.
pub open spec fn blank(text: Seq<char>) -> bool {
    forall|index: int| 0 <= index < text.len() ==> whitespace(#[trigger] text[index])
}

/// No character is whitespace.
pub open spec fn unspaced(text: Seq<char>) -> bool {
    forall|index: int| 0 <= index < text.len() ==> !whitespace(#[trigger] text[index])
}

/// The text of one more line ends with that line and a line feed.
pub proof fn one_more_line(lines: Seq<Seq<char>>, line: Seq<char>)
    ensures
        joined_lines(Seq::<Seq<char>>::empty()) == Seq::<char>::empty(),
        joined_lines(lines.push(line)) == (joined_lines(lines) + line).push('\n'),
{
    let longer = lines.push(line);
    assert(longer.drop_last() =~= lines);
    if lines.len() == 0 {
        assert(joined_lines(longer) =~= (joined_lines(lines) + line).push('\n'));
    } else {
        assert(joined(longer, '\n') == joined(lines, '\n').push('\n') + line);
    }
}

/// The lines of two stretches make one text after the other.
pub proof fn stretches_of_lines_are_joined(first: Seq<Seq<char>>, second: Seq<Seq<char>>)
    ensures
        joined_lines(first + second) == joined_lines(first) + joined_lines(second),
    decreases second.len(),
{
    if second.len() == 0 {
        assert(first + second =~= first);
        assert(joined_lines(first) + joined_lines(second) =~= joined_lines(first));
    } else {
        let before = second.drop_last();
        let line = second.last();
        assert(before.push(line) =~= second);
        assert((first + before).push(line) =~= first + second);
        stretches_of_lines_are_joined(first, before);
        one_more_line(before, line);
        one_more_line(first + before, line);
        assert(joined_lines(first + second) =~= joined_lines(first) + joined_lines(second));
    }
}

/// A single line makes that line and a line feed.
pub proof fn a_line_ends_with_a_feed(line: Seq<char>)
    ensures
        joined_lines(seq![line]) == line.push('\n'),
{
    let none = Seq::<Seq<char>>::empty();
    one_more_line(none, line);
    assert(none.push(line) =~= seq![line]);
    assert(joined_lines(none) + line =~= line);
}

/// Lines come back from the text that they make, unless one holds a line feed or ends with a
/// carriage return.
pub proof fn lines_come_back(lines: Seq<Seq<char>>)
    requires
        forall|index: int|
            0 <= index < lines.len() ==> !(#[trigger] lines[index]).contains('\n') && (
            lines[index].len() == 0 || lines[index].last() != '\r'),
    ensures
        text_lines(joined_lines(lines)) == lines,
{
    let parts = lines.push(Seq::empty());
    if lines.len() == 0 {
        assert(split(Seq::<char>::empty(), '\n') == seq![Seq::<char>::empty()]);
        assert(text_lines(joined_lines(lines)) =~= lines);
    } else {
        assert(parts.drop_last() =~= lines);
        assert(joined(parts, '\n') == joined(lines, '\n').push('\n') + Seq::<char>::empty());
        assert(joined(parts, '\n') =~= joined_lines(lines));
        assert forall|index: int| 0 <= index < parts.len() implies !(
        #[trigger] parts[index]).contains('\n') by {
            if index < lines.len() {
                assert(parts[index] == lines[index]);
            }
        }
        split_of_joined(parts, '\n');
        let found = text_lines(joined_lines(lines));
        assert forall|index: int| 0 <= index < lines.len() implies #[trigger] found[index]
            == lines[index] by {
            assert(parts[index] == lines[index]);
            assert(without_return(lines[index]) == lines[index]);
        }
        assert(found =~= lines);
    }
}

/// A text is found exactly where the other is made of something before it, it, and something
/// behind it.
pub proof fn found_texts_stand_between(text: Seq<char>, needle: Seq<char>)
    ensures
        occurs(text, needle) <==> exists|before: Seq<char>, after: Seq<char>|
            text == #[trigger] (before + needle + after),
{
    if occurs(text, needle) {
        let position = choose|position: int| occurs_at(text, needle, position);
        let before = text.take(position);
        let after = text.skip(position + needle.len());
        assert(text =~= before + needle + after);
    }
    if exists|before: Seq<char>, after: Seq<char>| text == #[trigger] (before + needle + after) {
        let (before, after) = choose|before: Seq<char>, after: Seq<char>|
            text == #[trigger] (before + needle + after);
        let position = before.len() as int;
        assert(text.subrange(position, position + needle.len()) =~= needle);
        assert(occurs_at(text, needle, position));
    }
}

/// Trimming the end of a text takes whitespace off it, and nothing but, until none is left there.
pub proof fn only_whitespace_is_trimmed(text: Seq<char>, white: Seq<char>)
    requires
        blank(white),
        text.len() > 0 ==> !whitespace(text.last()),
    ensures
        trim_end(text + white) == text,
    decreases white.len(),
{
    if white.len() == 0 {
        assert(text + white =~= text);
    } else {
        assert((text + white).drop_last() =~= text + white.drop_last());
        assert(whitespace(white[white.len() - 1]));
        only_whitespace_is_trimmed(text, white.drop_last());
    }
}

proof fn lemma_trim_start(white: Seq<char>, text: Seq<char>)
    requires
        blank(white),
        text.len() > 0 ==> !whitespace(text[0]),
    ensures
        trim_start(white + text) == text,
    decreases white.len(),
{
    if white.len() == 0 {
        assert(white + text =~= text);
    } else {
        assert((white + text).skip(1) =~= white.skip(1) + text);
        assert(whitespace(white[0]));
        lemma_trim_start(white.skip(1), text);
    }
}

/// Trimming a text takes the whitespace off both its ends, and leaves what stands between.
pub proof fn both_ends_are_trimmed(before: Seq<char>, text: Seq<char>, after: Seq<char>)
    requires
        blank(before),
        blank(after),
        text.len() > 0 ==> !whitespace(text[0]) && !whitespace(text.last()),
    ensures
        trim(before + text + after) == text,
{
    if text.len() == 0 {
        let white = before + after;
        assert(before + text + after =~= text + white);
        assert forall|index: int| 0 <= index < white.len() implies whitespace(
            #[trigger] white[index],
        ) by {
            if index < before.len() {
                assert(white[index] == before[index]);
            } else {
                assert(white[index] == after[index - before.len()]);
            }
        }
        only_whitespace_is_trimmed(text, white);
        assert(trim_start(text) == text);
    } else {
        only_whitespace_is_trimmed(before + text, after);
        lemma_trim_start(before, text);
    }
}

/// A text starts with as many of a character as are put before one that starts with another.
pub proof fn leading_characters_are_counted(count: nat, character: char, rest: Seq<char>)
    requires
        rest.len() > 0 ==> rest[0] != character,
    ensures
        leading_run(Seq::new(count, |index: int| character) + rest, character) == count,
    decreases count,
{
    let text = Seq::new(count, |index: int| character) + rest;
    if count == 0 {
        assert(text =~= rest);
    } else {
        assert(text.skip(1) =~= Seq::new((count - 1) as nat, |index: int| character) + rest);
        leading_characters_are_counted((count - 1) as nat, character, rest);
    }
}

/// A stretch without whitespace is one word, and whitespace is none.
pub proof fn unspaced_texts_are_words(text: Seq<char>)
    ensures
        unspaced(text) && text.len() > 0 ==> words(text) == seq![text],
        blank(text) ==> words(text) == Seq::<Seq<char>>::empty(),
    decreases text.len(),
{
    if text.len() > 0 {
        let before = text.drop_last();
        unspaced_texts_are_words(before);
        if unspaced(text) {
            assert(!whitespace(text[text.len() - 1]));
            assert forall|index: int| 0 <= index < before.len() implies !whitespace(
                #[trigger] before[index],
            ) by {
                assert(before[index] == text[index]);
            }
            if text.len() > 1 {
                assert(!whitespace(text[text.len() - 2]));
                assert(before.push(text.last()) =~= text);
                assert(words(text) =~= seq![text]);
            } else {
                assert(words(before) =~= Seq::<Seq<char>>::empty());
                assert(seq![text.last()] =~= text);
                assert(words(text) =~= seq![text]);
            }
        }
        if blank(text) {
            assert(whitespace(text[text.len() - 1]));
            assert forall|index: int| 0 <= index < before.len() implies whitespace(
                #[trigger] before[index],
            ) by {
                assert(before[index] == text[index]);
            }
        }
    }
}

/// The words of two texts with whitespace between them are those of the one and those of the other.
pub proof fn whitespace_parts_words(first: Seq<char>, white: char, second: Seq<char>)
    requires
        whitespace(white),
    ensures
        words(first.push(white) + second) == words(first) + words(second),
    decreases second.len(),
{
    let start = first.push(white);
    let text = start + second;
    if second.len() == 0 {
        assert(text =~= start);
        assert(start.drop_last() =~= first);
        assert(words(first) + words(second) =~= words(first));
    } else {
        let before = second.drop_last();
        assert(text.drop_last() =~= start + before);
        assert(text.last() == second.last());
        whitespace_parts_words(first, white, before);
        if !whitespace(second.last()) {
            if second.len() > 1 {
                assert(text[text.len() - 2] == second[second.len() - 2]);
                if !whitespace(second[second.len() - 2]) {
                    lemma_words_nonempty(before);
                    assert(words(text) =~= words(first) + words(second));
                } else {
                    assert(words(text) =~= words(first) + words(second));
                }
            } else {
                assert(text[text.len() - 2] == white);
                assert(words(text) =~= words(first) + words(second));
            }
        }
    }
}

proof fn lemma_words_nonempty(text: Seq<char>)
    requires
        text.len() > 0,
        !whitespace(text.last()),
    ensures
        words(text).len() > 0,
    decreases text.len(),
{
    if text.len() > 1 && !whitespace(text[text.len() - 2]) {
        lemma_words_nonempty(text.drop_last());
    }
}

/// The ASCII whitespace is the space and the five controls from the tab to the carriage return, and
/// no other ASCII character is any.
pub proof fn ascii_whitespace(character: char)
    requires
        character as u32 <= 0x7f,
    ensures
        whitespace(character) <==> character == ' ' || 0x09 <= character as u32 <= 0x0d,
{
}

/// A carriage return before a line feed is part of the end of the line; the last line may have no
/// end.
pub proof fn lines_end_in_either_way(line: Seq<char>, last: Seq<char>)
    requires
        !line.contains('\n'),
        line.len() == 0 || line.last() != '\r',
        !last.contains('\n'),
        last.len() > 0,
    ensures
        text_lines(line.push('\r').push('\n') + last) == seq![line, last],
        text_lines(line.push('\n') + last) == seq![line, last],
{
    let returned = line.push('\r');
    assert forall|index: int| 0 <= index < returned.len() implies returned[index] != '\n' by {
        if index < line.len() {
            assert(line.contains(line[index]));
        }
    }
    lemma_split_plain(line, '\n');
    lemma_split_plain(returned, '\n');
    lemma_split_after_separator(line, '\n', last);
    lemma_split_after_separator(returned, '\n', last);
    assert(returned.drop_last() =~= line);
    assert(text_lines(returned.push('\n') + last) =~= seq![line, last]);
    assert(text_lines(line.push('\n') + last) =~= seq![line, last]);
}

/// Beyond ASCII the whitespace is that of the Unicode property: the next line, the no-break space,
/// the Ogham space, the spaces from the en quad to the hair space, the two separators, the narrow
/// and the medium space, and the ideographic one.
pub proof fn unicode_whitespace(character: char)
    requires
        character as u32 > 0x7f,
    ensures
        whitespace(character) <==> {
            let code = character as u32;
            ||| code == 0x85
            ||| code == 0xa0
            ||| code == 0x1680
            ||| 0x2000 <= code <= 0x200a
            ||| 0x2028 <= code <= 0x2029
            ||| code == 0x202f
            ||| code == 0x205f
            ||| code == 0x3000
        },
{
}

} // verus!
