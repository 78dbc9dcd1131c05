//! Sequences of characters and bytes: comparing, splitting, joining and trimming.
use vstd::prelude::*;
use vstd::utf8::{decode_utf8, encode_utf8, valid_utf8};

verus! {

/// `String::push` appends one character.
pub assume_specification[ String::push ](text: &mut String, character: char)
    ensures
        final(text)@ == old(text)@.push(character),
;

/// The error of `String::from_utf8`, carried but never inspected.
#[verifier::external_type_specification]
#[verifier::external_body]
pub struct ExFromUtf8Error(std::string::FromUtf8Error);

/// `String::from_utf8` succeeds exactly on valid UTF-8, and the string then encodes to the bytes
/// it was given.
pub assume_specification[ String::from_utf8 ](bytes: Vec<u8>) -> (text: Result<
    String,
    std::string::FromUtf8Error,
>)
    ensures
        text is Ok <==> valid_utf8(bytes@),
        text matches Ok(value) ==> encode_utf8(value@) == bytes@,
;

/// What `String::from_utf8_lossy` makes of a byte string.
pub uninterp spec fn lossy_text(bytes: Seq<u8>) -> Seq<char>;

/// `String::from_utf8_lossy`: the text that the bytes stand for, with replacement characters
/// where they are no UTF-8. Valid bytes are decoded as they are; which bytes a replacement
/// character stands for is left to the name.
#[verifier::external_body]
pub(crate) fn from_utf8_lossy(bytes: &[u8]) -> (text: String)
    ensures
        text@ == lossy_text(bytes@),
        valid_utf8(bytes@) ==> text@ == decode_utf8(bytes@),
{
    String::from_utf8_lossy(bytes).into_owned()
}

/// What `str::to_lowercase` makes of a text.
pub uninterp spec fn lowercase(text: Seq<char>) -> Seq<char>;

/// `str::to_lowercase`: the lowercase equivalent of a text, by the Unicode properties.
#[verifier::external_body]
pub(crate) fn to_lowercase(text: &str) -> (lower: String)
    ensures
        lower@ == lowercase(text@),
{
    text.to_lowercase()
}

/// A character with the Unicode property `White_Space`.
pub open spec fn whitespace(character: char) -> bool {
    let code = character as u32;
    ||| 0x09 <= code <= 0x0d
    ||| code == 0x20
    ||| code == 0x85
    ||| code == 0xa0
    ||| code == 0x1680
    ||| 0x2000 <= code <= 0x200a
    ||| code == 0x2028
    ||| code == 0x2029
    ||| code == 0x202f
    ||| code == 0x205f
    ||| code == 0x3000
}

/// Whether a character has the Unicode property `White_Space`.
pub fn is_whitespace(character: char) -> (white: bool)
    ensures
        white == whitespace(character),
{
    let code: u32 = character as u32;
    (0x09 <= code && code <= 0x0d) || code == 0x20 || code == 0x85 || code == 0xa0 || code == 0x1680
        || (0x2000 <= code && code <= 0x200a) || code == 0x2028 || code == 0x2029 || code == 0x202f
        || code == 0x205f || code == 0x3000
}

/// The characters of a string, in order.
pub fn chars_of(text: &str) -> (chars: Vec<char>)
    ensures
        chars@ == text@,
{
    let mut chars: Vec<char> = Vec::new();
    for character in it: text.chars()
        invariant
            chars@ == it.seq().take(it.index() as int),
            it.seq() == text@,
    {
        chars.push(character);
    }
    chars
}

/// The string made of the given characters.
pub fn string_of(chars: &[char]) -> (text: String)
    ensures
        text@ == chars@,
{
    let mut text = String::new();
    for index in 0..chars.len()
        invariant
            text@ == chars@.take(index as int),
    {
        text.push(chars[index]);
    }
    text
}

/// The characters of each string.
pub open spec fn texts(strings: Seq<String>) -> Seq<Seq<char>> {
    Seq::new(strings.len(), |index: int| strings[index]@)
}

pub proof fn lemma_texts_push(strings: Seq<String>, last: String)
    ensures
        texts(strings.push(last)) == texts(strings).push(last@),
{
    assert(texts(strings.push(last)) =~= texts(strings).push(last@));
}

/// A copy of the strings.
pub fn copied_texts(strings: &Vec<String>) -> (copy: Vec<String>)
    ensures
        texts(copy@) == texts(strings@),
{
    let mut copy: Vec<String> = Vec::new();
    for index in 0..strings.len()
        invariant
            texts(copy@) == texts(strings@).take(index as int),
    {
        proof {
            lemma_texts_push(copy@, strings@[index as int]);
        }
        copy.push(strings[index].clone());
        assert(texts(copy@) =~= texts(strings@).take(index + 1));
    }
    assert(texts(strings@).take(strings@.len() as int) =~= texts(strings@));
    copy
}

/// Whether two strings hold the same characters.
pub fn same_text(left: &str, right: &str) -> (same: bool)
    ensures
        same == (left@ == right@),
{
    let left_chars = chars_of(left);
    let right_chars = chars_of(right);
    same_chars(left_chars.as_slice(), right_chars.as_slice())
}

/// Whether two slices hold the same characters.
pub fn same_chars(left: &[char], right: &[char]) -> (same: bool)
    ensures
        same == (left@ == right@),
{
    if left.len() != right.len() {
        return false;
    }
    for index in 0..left.len()
        invariant
            left@.len() == right@.len(),
            left@.take(index as int) == right@.take(index as int),
    {
        if left[index] != right[index] {
            assert(left@[index as int] != right@[index as int]);
            return false;
        }
        assert(left@.take(index + 1) =~= left@.take(index as int).push(left@[index as int]));
        assert(right@.take(index + 1) =~= right@.take(index as int).push(right@[index as int]));
    }
    assert(left@.take(left@.len() as int) =~= left@);
    assert(right@.take(right@.len() as int) =~= right@);
    true
}

/// Whether two slices hold the same bytes.
pub fn same_bytes(left: &[u8], right: &[u8]) -> (same: bool)
    ensures
        same == (left@ == right@),
{
    if left.len() != right.len() {
        return false;
    }
    for index in 0..left.len()
        invariant
            left@.len() == right@.len(),
            left@.take(index as int) == right@.take(index as int),
    {
        if left[index] != right[index] {
            assert(left@[index as int] != right@[index as int]);
            return false;
        }
        assert(left@.take(index + 1) =~= left@.take(index as int).push(left@[index as int]));
        assert(right@.take(index + 1) =~= right@.take(index as int).push(right@[index as int]));
    }
    assert(left@.take(left@.len() as int) =~= left@);
    assert(right@.take(right@.len() as int) =~= right@);
    true
}

/// Whether `bytes` holds the UTF-8 encoding of `text`.
pub fn bytes_are(bytes: &[u8], text: &str) -> (same: bool)
    ensures
        same == (bytes@ == encode_utf8(text@)),
{
    same_bytes(bytes, text.as_bytes())
}

/// Appends the UTF-8 encoding of `text`.
pub fn push_text(output: &mut Vec<u8>, text: &str)
    ensures
        final(output)@ == old(output)@ + encode_utf8(text@),
{
    output.extend_from_slice(text.as_bytes());
}

/// Whether `prefix` is how `text` begins.
pub fn starts_with(text: &[char], prefix: &[char]) -> (starts: bool)
    ensures
        starts == prefix@.is_prefix_of(text@),
{
    if prefix.len() > text.len() {
        return false;
    }
    same_chars(&text[0..prefix.len()], prefix)
}

/// Whether `suffix` is how `text` ends.
pub fn ends_with(text: &[char], suffix: &[char]) -> (ends: bool)
    ensures
        ends == suffix@.is_suffix_of(text@),
{
    if suffix.len() > text.len() {
        return false;
    }
    same_chars(&text[text.len() - suffix.len()..text.len()], suffix)
}

/// `needle` stands in `text` at `position`.
pub open spec fn occurs_at<T>(text: Seq<T>, needle: Seq<T>, position: int) -> bool {
    &&& 0 <= position
    &&& position + needle.len() <= text.len()
    &&& text.subrange(position, position + needle.len()) == needle
}

/// `needle` stands somewhere in `text`.
pub open spec fn occurs<T>(text: Seq<T>, needle: Seq<T>) -> bool {
    exists|position: int| occurs_at(text, needle, position)
}

/// Whether `needle` stands somewhere in `text`.
pub fn contains_text(text: &[char], needle: &[char]) -> (found: bool)
    ensures
        found == occurs(text@, needle@),
{
    if needle.len() > text.len() {
        return false;
    }
    let last: usize = text.len() - needle.len();
    let mut position: usize = 0;
    while position <= last
        invariant
            position <= last + 1,
            last + needle@.len() == text@.len(),
            last + needle@.len() <= usize::MAX,
            forall|earlier: int| 0 <= earlier < position ==> !occurs_at(text@, needle@, earlier),
        decreases last + 1 - position,
    {
        if same_chars(&text[position..position + needle.len()], needle) {
            assert(occurs_at(text@, needle@, position as int));
            return true;
        }
        if position == last {
            return false;
        }
        position = position + 1;
    }
    false
}

/// The parts of `text` between its separators: one more than there are separators.
pub open spec fn split<T>(text: Seq<T>, separator: T) -> Seq<Seq<T>>
    decreases text.len(),
{
    if text.len() == 0 {
        seq![Seq::empty()]
    } else {
        let before = split(text.drop_last(), separator);
        if text.last() == separator {
            before.push(Seq::empty())
        } else {
            before.update(before.len() - 1, before.last().push(text.last()))
        }
    }
}

/// The parts with a separator between each two of them.
pub open spec fn joined<T>(parts: Seq<Seq<T>>, separator: T) -> Seq<T>
    decreases parts.len(),
{
    if parts.len() == 0 {
        Seq::empty()
    } else if parts.len() == 1 {
        parts[0]
    } else {
        joined(parts.drop_last(), separator).push(separator) + parts.last()
    }
}

pub proof fn lemma_split_nonempty<T>(text: Seq<T>, separator: T)
    ensures
        split(text, separator).len() > 0,
    decreases text.len(),
{
    if text.len() > 0 {
        lemma_split_nonempty(text.drop_last(), separator);
    }
}

pub(crate) proof fn lemma_split_after_separator<T>(before: Seq<T>, separator: T, part: Seq<T>)
    requires
        !part.contains(separator),
    ensures
        split(before.push(separator) + part, separator) == split(before, separator).push(part),
    decreases part.len(),
{
    let whole = before.push(separator) + part;
    if part.len() == 0 {
        assert(whole =~= before.push(separator));
        assert(whole.drop_last() =~= before);
        assert(part =~= Seq::empty());
    } else {
        assert(part.last() == part[part.len() - 1]);
        assert forall|item: T| part.drop_last().contains(item) implies part.contains(item) by {
            let index = choose|index: int|
                0 <= index < part.drop_last().len() && part.drop_last()[index] == item;
            assert(part[index] == item);
        }
        lemma_split_after_separator(before, separator, part.drop_last());
        assert(whole.drop_last() =~= before.push(separator) + part.drop_last());
        assert(whole.last() == part.last());
        assert(part.drop_last().push(part.last()) =~= part);
        assert(split(whole, separator) =~= split(before, separator).push(part));
    }
}

pub(crate) proof fn lemma_split_plain<T>(part: Seq<T>, separator: T)
    requires
        !part.contains(separator),
    ensures
        split(part, separator) == seq![part],
    decreases part.len(),
{
    if part.len() == 0 {
        assert(part =~= Seq::empty());
    } else {
        assert forall|item: T| part.drop_last().contains(item) implies part.contains(item) by {
            let index = choose|index: int|
                0 <= index < part.drop_last().len() && part.drop_last()[index] == item;
            assert(part[index] == item);
        }
        lemma_split_plain(part.drop_last(), separator);
        assert(part.last() == part[part.len() - 1]);
        assert(part.drop_last().push(part.last()) =~= part);
        assert(split(part, separator) =~= seq![part]);
    }
}

/// Splitting undoes joining, as long as no part holds the separator.
pub proof fn split_of_joined<T>(parts: Seq<Seq<T>>, separator: T)
    requires
        parts.len() > 0,
        forall|index: int| 0 <= index < parts.len() ==> !(#[trigger] parts[index]).contains(separator),
    ensures
        split(joined(parts, separator), separator) == parts,
    decreases parts.len(),
{
    if parts.len() == 1 {
        lemma_split_plain(parts[0], separator);
        assert(parts =~= seq![parts[0]]);
    } else {
        split_of_joined(parts.drop_last(), separator);
        lemma_split_after_separator(
            joined(parts.drop_last(), separator),
            separator,
            parts.last(),
        );
        assert(parts.drop_last().push(parts.last()) =~= parts);
    }
}

/// Joining undoes splitting.
pub proof fn joined_of_split<T>(text: Seq<T>, separator: T)
    ensures
        joined(split(text, separator), separator) == text,
    decreases text.len(),
{
    if text.len() == 0 {
        assert(joined(split(text, separator), separator) =~= text);
    } else {
        let before = split(text.drop_last(), separator);
        lemma_split_nonempty(text.drop_last(), separator);
        joined_of_split(text.drop_last(), separator);
        let parts = split(text, separator);
        if text.last() == separator {
            assert(parts.drop_last() =~= before);
            assert(joined(parts, separator) =~= text);
        } else {
            assert(parts.drop_last() =~= before.drop_last());
            assert(joined(parts, separator) =~= joined(before, separator).push(text.last()));
            assert(text.drop_last().push(text.last()) =~= text);
        }
    }
}

/// The byte strings between the separators.
pub fn split_bytes(bytes: &[u8], separator: u8) -> (parts: Vec<&[u8]>)
    ensures
        parts@.len() == split(bytes@, separator).len(),
        forall|index: int|
            0 <= index < parts@.len() ==> (#[trigger] parts@[index])@ == split(
                bytes@,
                separator,
            )[index],
{
    let mut parts: Vec<&[u8]> = Vec::new();
    let mut start: usize = 0;
    let mut position: usize = 0;
    while position < bytes.len()
        invariant
            start <= position <= bytes@.len(),
            split(bytes@.take(position as int), separator).len() == parts@.len() + 1,
            forall|index: int|
                0 <= index < parts@.len() ==> (#[trigger] parts@[index])@ == split(
                    bytes@.take(position as int),
                    separator,
                )[index],
            split(bytes@.take(position as int), separator).last() == bytes@.subrange(
                start as int,
                position as int,
            ),
        decreases bytes@.len() - position,
    {
        assert(bytes@.take(position + 1).drop_last() =~= bytes@.take(position as int));
        if bytes[position] == separator {
            parts.push(&bytes[start..position]);
            start = position + 1;
            assert(bytes@.subrange(start as int, position + 1) =~= Seq::empty());
        } else {
            assert(bytes@.subrange(start as int, position + 1) =~= bytes@.subrange(
                start as int,
                position as int,
            ).push(bytes@[position as int]));
        }
        position = position + 1;
    }
    assert(bytes@.take(bytes@.len() as int) =~= bytes@);
    parts.push(&bytes[start..bytes.len()]);
    parts
}

/// The character strings between the separators.
pub fn split_chars(chars: &[char], separator: char) -> (parts: Vec<&[char]>)
    ensures
        parts@.len() == split(chars@, separator).len(),
        forall|index: int|
            0 <= index < parts@.len() ==> (#[trigger] parts@[index])@ == split(
                chars@,
                separator,
            )[index],
{
    let mut parts: Vec<&[char]> = Vec::new();
    let mut start: usize = 0;
    let mut position: usize = 0;
    while position < chars.len()
        invariant
            start <= position <= chars@.len(),
            split(chars@.take(position as int), separator).len() == parts@.len() + 1,
            forall|index: int|
                0 <= index < parts@.len() ==> (#[trigger] parts@[index])@ == split(
                    chars@.take(position as int),
                    separator,
                )[index],
            split(chars@.take(position as int), separator).last() == chars@.subrange(
                start as int,
                position as int,
            ),
        decreases chars@.len() - position,
    {
        assert(chars@.take(position + 1).drop_last() =~= chars@.take(position as int));
        if chars[position] == separator {
            parts.push(&chars[start..position]);
            start = position + 1;
            assert(chars@.subrange(start as int, position + 1) =~= Seq::empty());
        } else {
            assert(chars@.subrange(start as int, position + 1) =~= chars@.subrange(
                start as int,
                position as int,
            ).push(chars@[position as int]));
        }
        position = position + 1;
    }
    assert(chars@.take(chars@.len() as int) =~= chars@);
    parts.push(&chars[start..chars.len()]);
    parts
}

/// A line without the carriage return at its end.
pub open spec fn without_return(line: Seq<char>) -> Seq<char> {
    if line.len() > 0 && line.last() == '\r' {
        line.drop_last()
    } else {
        line
    }
}

/// The lines that the parts between line feeds stand for. A carriage return before a line feed
/// belongs to the end of the line, and nothing behind the last line feed is no line.
pub open spec fn lines_between(parts: Seq<Seq<char>>) -> Seq<Seq<char>> {
    Seq::new(
        if parts.last().len() == 0 {
            (parts.len() - 1) as nat
        } else {
            parts.len()
        },
        |index: int|
            if index < parts.len() - 1 {
                without_return(parts[index])
            } else {
                parts[index]
            },
    )
}

/// The lines of a text. A line ends with a line feed, or with a carriage return and a line feed;
/// the last one may have no end.
pub open spec fn text_lines(text: Seq<char>) -> Seq<Seq<char>> {
    lines_between(split(text, '\n'))
}

/// The parts by their characters.
pub open spec fn char_texts(parts: Seq<&[char]>) -> Seq<Seq<char>> {
    Seq::new(parts.len(), |index: int| parts[index]@)
}

/// The lines that the parts from `start` on stand for.
pub fn lines_of_parts<'a>(parts: &Vec<&'a [char]>, start: usize) -> (lines: Vec<&'a [char]>)
    requires
        start < parts@.len(),
    ensures
        char_texts(lines@) == lines_between(char_texts(parts@).skip(start as int)),
{
    let last: usize = parts.len() - 1;
    let ghost given = char_texts(parts@).skip(start as int);
    let mut lines: Vec<&[char]> = Vec::new();
    for index in start..last
        invariant
            start <= last,
            last + 1 == parts@.len(),
            given == char_texts(parts@).skip(start as int),
            lines@.len() == index - start,
            forall|earlier: int|
                0 <= earlier < index - start ==> (#[trigger] lines@[earlier])@ == without_return(
                    given[earlier],
                ),
    {
        let line = parts[index];
        assert(given[index - start] == line@);
        if line.len() > 0 && line[line.len() - 1] == '\r' {
            lines.push(&line[0..line.len() - 1]);
        } else {
            lines.push(line);
        }
        assert(lines@[index - start]@ =~= without_return(given[index - start]));
    }
    assert(given.last() == parts@[last as int]@);
    if parts[last].len() > 0 {
        lines.push(parts[last]);
    }
    assert(char_texts(lines@) =~= lines_between(given));
    lines
}

/// The lines of a text.
pub fn lines_of(text: &[char]) -> (lines: Vec<&[char]>)
    ensures
        char_texts(lines@) == text_lines(text@),
{
    let parts = split_chars(text, '\n');
    proof {
        lemma_split_nonempty(text@, '\n');
        assert(char_texts(parts@) =~= split(text@, '\n'));
        assert(char_texts(parts@).skip(0) =~= split(text@, '\n'));
    }
    lines_of_parts(&parts, 0)
}

/// The lines as one text, each with a line feed behind it.
pub open spec fn joined_lines(lines: Seq<Seq<char>>) -> Seq<char> {
    if lines.len() == 0 {
        Seq::empty()
    } else {
        joined(lines, '\n').push('\n')
    }
}

/// The strings from `start` up to `end` as one text, each with a line feed behind it.
pub fn join_lines(lines: &Vec<String>, start: usize, end: usize) -> (text: String)
    requires
        start <= end <= lines@.len(),
    ensures
        text@ == joined_lines(texts(lines@).subrange(start as int, end as int)),
{
    let mut text = String::new();
    let ghost all = texts(lines@);
    for index in start..end
        invariant
            start <= end <= lines@.len(),
            all == texts(lines@),
            text@ == joined_lines(all.subrange(start as int, index as int)),
    {
        let ghost before = all.subrange(start as int, index as int);
        let ghost longer = all.subrange(start as int, index + 1);
        text.append(lines[index].as_str());
        text.push('\n');
        assert(longer.drop_last() =~= before);
        assert(longer.last() == lines@[index as int]@);
        assert(text@ =~= joined_lines(longer));
    }
    text
}

/// A text without the whitespace at its end.
pub open spec fn trim_end(text: Seq<char>) -> Seq<char>
    decreases text.len(),
{
    if text.len() > 0 && whitespace(text.last()) {
        trim_end(text.drop_last())
    } else {
        text
    }
}

/// A text without the whitespace at its start.
pub open spec fn trim_start(text: Seq<char>) -> Seq<char>
    decreases text.len(),
{
    if text.len() > 0 && whitespace(text[0]) {
        trim_start(text.skip(1))
    } else {
        text
    }
}

/// A text without the whitespace at its ends.
pub open spec fn trim(text: Seq<char>) -> Seq<char> {
    trim_start(trim_end(text))
}

/// The characters without the whitespace at their end.
pub fn trimmed_end(text: &[char]) -> (trimmed: &[char])
    ensures
        trimmed@ == trim_end(text@),
{
    let mut length: usize = text.len();
    assert(text@.take(length as int) =~= text@);
    while length > 0 && is_whitespace(text[length - 1])
        invariant
            length <= text@.len(),
            trim_end(text@) == trim_end(text@.take(length as int)),
        ensures
            length <= text@.len(),
            trim_end(text@) == text@.take(length as int),
        decreases length,
    {
        assert(text@.take(length as int).drop_last() =~= text@.take(length - 1));
        length = length - 1;
    }
    &text[0..length]
}

/// The characters without the whitespace at their ends.
pub fn trimmed(text: &[char]) -> (trimmed: &[char])
    ensures
        trimmed@ == trim(text@),
{
    let text = trimmed_end(text);
    let mut start: usize = 0;
    assert(text@.skip(0) =~= text@);
    while start < text.len() && is_whitespace(text[start])
        invariant
            start <= text@.len(),
            trim_start(text@) == trim_start(text@.skip(start as int)),
        ensures
            start <= text@.len(),
            trim_start(text@) == text@.skip(start as int),
        decreases text@.len() - start,
    {
        assert(text@.skip(start as int).skip(1) =~= text@.skip(start + 1));
        start = start + 1;
    }
    &text[start..text.len()]
}

/// The number of times that a character stands at the start of a text.
pub open spec fn leading_run(text: Seq<char>, character: char) -> nat
    decreases text.len(),
{
    if text.len() > 0 && text[0] == character {
        1 + leading_run(text.skip(1), character)
    } else {
        0
    }
}

/// The number of times that a character stands at the start of a text.
pub fn count_leading(text: &[char], character: char) -> (count: usize)
    ensures
        count == leading_run(text@, character),
        count <= text@.len(),
{
    let mut count: usize = 0;
    assert(text@.skip(0) =~= text@);
    while count < text.len() && text[count] == character
        invariant
            count <= text@.len(),
            leading_run(text@, character) == count + leading_run(
                text@.skip(count as int),
                character,
            ),
        ensures
            count <= text@.len(),
            leading_run(text@, character) == count,
        decreases text@.len() - count,
    {
        assert(text@.skip(count as int).skip(1) =~= text@.skip(count + 1));
        count = count + 1;
    }
    count
}

/// The words of a text: its longest parts without whitespace.
pub open spec fn words(text: Seq<char>) -> Seq<Seq<char>>
    decreases text.len(),
{
    if text.len() == 0 {
        Seq::empty()
    } else {
        let before = words(text.drop_last());
        if whitespace(text.last()) {
            before
        } else if text.len() > 1 && !whitespace(text[text.len() - 2]) {
            before.update(before.len() - 1, before.last().push(text.last()))
        } else {
            before.push(seq![text.last()])
        }
    }
}

/// The words of a text.
pub fn words_of(text: &[char]) -> (found: Vec<&[char]>)
    ensures
        found@.len() == words(text@).len(),
        forall|index: int|
            0 <= index < found@.len() ==> (#[trigger] found@[index])@ == words(text@)[index],
{
    let mut found: Vec<&[char]> = Vec::new();
    let mut start: usize = 0;
    let mut position: usize = 0;
    while position < text.len()
        invariant
            start <= position <= text@.len(),
            start < position ==> {
                &&& !whitespace(text@[position - 1])
                &&& words(text@.take(position as int)).len() == found@.len() + 1
                &&& words(text@.take(position as int)).last() == text@.subrange(
                    start as int,
                    position as int,
                )
            },
            start == position ==> {
                &&& position == 0 || whitespace(text@[position - 1])
                &&& words(text@.take(position as int)).len() == found@.len()
            },
            forall|index: int|
                0 <= index < found@.len() ==> (#[trigger] found@[index])@ == words(
                    text@.take(position as int),
                )[index],
        decreases text@.len() - position,
    {
        let ghost before = words(text@.take(position as int));
        assert(text@.take(position + 1).drop_last() =~= text@.take(position as int));
        assert(text@.take(position + 1).last() == text@[position as int]);
        if position > 0 {
            assert(text@.take(position + 1)[position - 1] == text@[position - 1]);
        }
        if is_whitespace(text[position]) {
            if start < position {
                found.push(&text[start..position]);
            }
            start = position + 1;
        } else {
            assert(text@.subrange(start as int, position + 1) =~= text@.subrange(
                start as int,
                position as int,
            ).push(text@[position as int]));
        }
        position = position + 1;
    }
    assert(text@.take(text@.len() as int) =~= text@);
    if start < position {
        found.push(&text[start..position]);
    }
    found
}

} // verus!
