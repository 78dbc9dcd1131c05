//! Evaluation of a rule set on a screen.
use crate::numeral::{append_decimal, decimal_chars};
use crate::osc::{no_flags, text_view, Flags};
use crate::rules::pattern::{compile, matches_pattern, regex_finds, regex_source};
use crate::rules::schema::{Gate, Region, Rule, RuleSet, RuleState};
use crate::rules::view::{Progress, ScreenView};
use crate::text::{
    char_texts, chars_of, contains_text, count_leading, join_lines, joined_lines, leading_run,
    lines_of, lowercase, occurs, same_chars, same_text, starts_with, string_of, text_lines, texts,
    to_lowercase, trim, trimmed,
};
use vstd::prelude::*;

verus! {

/// What a rule set says of a screen.
#[derive(Clone, Debug, PartialEq, Eq)]
pub struct Verdict {
    pub state: RuleState,
    pub visible: Flags,
    /// The rule that decided, if one did.
    pub rule: Option<String>,
    pub region: Region,
}

/// A verdict in mathematical terms.
#[verifier::ext_equal]
pub struct VerdictView {
    pub state: RuleState,
    pub visible: Flags,
    pub rule: Option<Seq<char>>,
    pub region: Region,
}

impl View for Verdict {
    type V = VerdictView;

    open spec fn view(&self) -> VerdictView {
        VerdictView {
            state: self.state,
            visible: self.visible,
            rule: text_view(self.rule),
            region: self.region,
        }
    }
}

/// What the rules read of a screen.
#[verifier::ext_equal]
pub struct Picture {
    pub lines: Seq<Seq<char>>,
    pub text: Seq<char>,
    pub title: Seq<char>,
    pub progress: Option<Progress>,
}

/// What the rules read of the given screen.
pub open spec fn picture_of<V: ScreenView>(view: &V) -> Picture {
    Picture {
        lines: view.view_lines(),
        text: view.view_text(),
        title: view.view_title(),
        progress: view.view_progress(),
    }
}

/// A condition holds of a text.
pub open spec fn gate_holds(gate: Gate, text: Seq<char>) -> bool
    decreases gate,
{
    &&& forall|index: int|
        0 <= index < gate.contains@.len() ==> occurs(
            lowercase(text),
            #[trigger] gate.contains@[index]@,
        )
    &&& forall|index: int|
        0 <= index < gate.regex@.len() ==> matches_pattern(#[trigger] gate.regex@[index]@, text)
    &&& forall|index: int|
        0 <= index < gate.line_regex@.len() ==> some_line_matches(
            #[trigger] gate.line_regex@[index]@,
            text_lines(text),
        )
    &&& forall|index: int|
        0 <= index < gate.all@.len() ==> gate_holds(#[trigger] gate.all@[index], text)
    &&& gate.any@.len() == 0 || exists|index: int|
        0 <= index < gate.any@.len() && gate_holds(#[trigger] gate.any@[index], text)
    &&& forall|index: int|
        0 <= index < gate.not@.len() ==> !gate_holds(#[trigger] gate.not@[index], text)
}

/// The pattern matches one of the lines.
pub open spec fn some_line_matches(pattern: Seq<char>, lines: Seq<Seq<char>>) -> bool {
    exists|index: int| 0 <= index < lines.len() && matches_pattern(pattern, #[trigger] lines[index])
}

/// The line is a horizontal rule: its trimmed text starts with `─`, and goes on with anything
/// else only after three of them.
pub open spec fn horizontal(line: Seq<char>) -> bool {
    let text = trim(line);
    let run = leading_run(text, '─');
    run > 0 && (run == text.len() || run >= 3)
}

/// The last of the lines that is a horizontal rule.
pub open spec fn last_rule(lines: Seq<Seq<char>>) -> Option<int>
    decreases lines.len(),
{
    if lines.len() == 0 {
        None
    } else if horizontal(lines.last()) {
        Some(lines.len() - 1)
    } else {
        last_rule(lines.drop_last())
    }
}

/// The rules above and below the prompt: the second and the first counting up.
pub open spec fn prompt_box(lines: Seq<Seq<char>>) -> Option<(int, int)> {
    match last_rule(lines) {
        Some(lower) => match last_rule(lines.take(lower)) {
            Some(upper) => Some((upper, lower)),
            None => None,
        },
        None => None,
    }
}

/// The line is the marker, alone or followed by a space.
pub open spec fn at_marker(line: Seq<char>, marker: Seq<char>) -> bool {
    line == marker || marker.push(' ').is_prefix_of(line)
}

/// The last of the lines that shows the prompt marker.
pub open spec fn last_marker(lines: Seq<Seq<char>>, marker: Option<Seq<char>>) -> Option<int>
    decreases lines.len(),
{
    if marker is None || lines.len() == 0 {
        None
    } else if at_marker(lines.last(), marker->0) {
        Some(lines.len() - 1)
    } else {
        last_marker(lines.drop_last(), marker)
    }
}

/// One of the lines starts with one of the markers.
pub open spec fn some_block(lines: Seq<Seq<char>>, markers: Seq<Seq<char>>) -> bool {
    exists|line: int, marker: int|
        0 <= line < lines.len() && 0 <= marker < markers.len()
            && #[trigger] markers[marker].is_prefix_of(#[trigger] lines[line])
}

/// The number of lines that are not empty.
pub open spec fn filled(lines: Seq<Seq<char>>) -> nat
    decreases lines.len(),
{
    if lines.len() == 0 {
        0
    } else if lines.last().len() > 0 {
        filled(lines.drop_last()) + 1
    } else {
        filled(lines.drop_last())
    }
}

/// The non-empty line that is the `nth` counting down, where the zeroth is the first.
pub open spec fn nth_filled(lines: Seq<Seq<char>>, nth: nat) -> Option<int>
    decreases lines.len(),
{
    if lines.len() == 0 {
        None
    } else if nth_filled(lines.drop_last(), nth) is Some {
        nth_filled(lines.drop_last(), nth)
    } else if lines.last().len() > 0 && (filled(lines) == nth || (nth == 0 && filled(lines) == 1)) {
        Some(lines.len() - 1)
    } else {
        None
    }
}

/// The non-empty line that is the `nth` counting up, where the zeroth is the first.
pub open spec fn nth_filled_up(lines: Seq<Seq<char>>, nth: nat) -> Option<int>
    decreases lines.len(),
{
    if lines.len() == 0 {
        None
    } else if lines.last().len() == 0 {
        nth_filled_up(lines.drop_last(), nth)
    } else if nth <= 1 {
        Some(lines.len() - 1)
    } else {
        nth_filled_up(lines.drop_last(), (nth - 1) as nat)
    }
}

/// How progress is written: `<state>:<percent>`, and nothing before the first report.
pub open spec fn progress_text(progress: Option<Progress>) -> Seq<char> {
    match progress {
        Some(value) => decimal_chars(value.state as nat) + ":"@ + decimal_chars(
            value.percent as nat,
        ),
        None => Seq::empty(),
    }
}

/// The text of a region, given the prompt marker and the block markers of the rule set.
pub open spec fn region_text(
    region: Region,
    marker: Option<Seq<char>>,
    blocks: Seq<Seq<char>>,
    picture: Picture,
) -> Seq<char> {
    let lines = picture.lines;
    match region {
        Region::Whole => picture.text,
        Region::Title => picture.title,
        Region::Progress => progress_text(picture.progress),
        Region::Bottom(count) => joined_lines(
            if count < lines.len() {
                lines.skip(lines.len() - count)
            } else {
                lines
            },
        ),
        Region::Top(count) => joined_lines(
            if count < lines.len() {
                lines.take(count as int)
            } else {
                lines
            },
        ),
        Region::BottomNonEmpty(count) => match nth_filled_up(lines, count as nat) {
            Some(index) => joined_lines(lines.skip(index)),
            None => Seq::empty(),
        },
        Region::TopNonEmpty(count) => match nth_filled(lines, count as nat) {
            Some(index) => joined_lines(lines.take(index + 1)),
            None => Seq::empty(),
        },
        Region::PromptBox => match prompt_box(lines) {
            Some((upper, lower)) => joined_lines(lines.subrange(upper + 1, lower)),
            None => Seq::empty(),
        },
        Region::AbovePromptBox => match prompt_box(lines) {
            Some((upper, _)) => joined_lines(lines.take(upper)),
            None => picture.text,
        },
        Region::LastLineAbovePromptBox => {
            let above = match prompt_box(lines) {
                Some((upper, _)) => lines.take(upper),
                None => lines,
            };
            match nth_filled_up(above, 1) {
                Some(index) => joined_lines(seq![above[index]]),
                None => Seq::empty(),
            }
        },
        Region::AfterLastRule => match last_rule(lines) {
            Some(index) => joined_lines(lines.skip(index + 1)),
            None => Seq::empty(),
        },
        Region::AfterLastPromptMarker => match last_marker(lines, marker) {
            Some(index) => joined_lines(lines.skip(index + 1)),
            None => Seq::empty(),
        },
        Region::WholeUnlessAtPrompt => match last_marker(lines, marker) {
            Some(index) => if some_block(lines.skip(index + 1), blocks) {
                picture.text
            } else {
                Seq::empty()
            },
            None => picture.text,
        },
    }
}

/// The condition of the rule at `index` holds of its region.
pub open spec fn rule_holds(set: RuleSet, picture: Picture, index: int) -> bool {
    gate_holds(
        set.rules@[index].gate,
        region_text(
            set.rules@[index].region,
            text_view(set.prompt_marker),
            texts(set.block_markers@),
            picture,
        ),
    )
}

/// The rule that decides: of those that hold, one of the highest priority, and the earliest of
/// those.
pub open spec fn decides(set: RuleSet, picture: Picture, index: int) -> bool {
    &&& 0 <= index < set.rules@.len()
    &&& rule_holds(set, picture, index)
    &&& forall|other: int|
        0 <= other < set.rules@.len() && #[trigger] rule_holds(set, picture, other) ==> {
            ||| set.rules@[other].priority < set.rules@[index].priority
            ||| set.rules@[other].priority == set.rules@[index].priority && index <= other
        }
}

/// The first rule with the given id.
pub open spec fn first_with_id(rules: Seq<Rule>, id: Seq<char>, index: int) -> bool {
    &&& 0 <= index < rules.len()
    &&& rules[index].id@ == id
    &&& forall|earlier: int| 0 <= earlier < index ==> #[trigger] rules[earlier].id@ != id
}

/// The verdict of a rule.
pub open spec fn rule_verdict(rule: Rule) -> VerdictView {
    VerdictView {
        state: rule.state,
        visible: Flags {
            idle: rule.visible_idle,
            blocker: rule.visible_blocker,
            working: rule.visible_working,
        },
        rule: Some(rule.id@),
        region: rule.region,
    }
}

/// The verdict where no rule holds.
pub open spec fn idle_verdict() -> VerdictView {
    VerdictView {
        state: RuleState::Idle,
        visible: no_flags(),
        rule: None,
        region: Region::Whole,
    }
}

/// The verdict of a rule set on a screen: that of the rule that decides, found by its id.
pub open spec fn verdict_of(set: RuleSet, picture: Picture) -> VerdictView {
    if exists|index: int| decides(set, picture, index) {
        let winner = choose|index: int| decides(set, picture, index);
        let named = choose|index: int|
            first_with_id(set.rules@, set.rules@[winner].id@, index);
        rule_verdict(set.rules@[named])
    } else {
        idle_verdict()
    }
}

fn line_matches(pattern: &regex::Regex, lines: &Vec<&[char]>) -> (found: bool)
    ensures
        found == exists|index: int|
            0 <= index < lines@.len() && regex_finds(
                regex_source(*pattern),
                (#[trigger] lines@[index])@,
            ),
{
    for index in 0..lines.len()
        invariant
            forall|earlier: int|
                0 <= earlier < index ==> !regex_finds(
                    regex_source(*pattern),
                    (#[trigger] lines@[earlier])@,
                ),
    {
        let line = string_of(lines[index]);
        if pattern.is_match(line.as_str()) {
            assert(regex_finds(regex_source(*pattern), lines@[index as int]@));
            return true;
        }
    }
    false
}

fn all_occur(needles: &Vec<String>, lower: &[char]) -> (all: bool)
    ensures
        all == forall|index: int|
            0 <= index < needles@.len() ==> occurs(lower@, #[trigger] needles@[index]@),
{
    for index in 0..needles.len()
        invariant
            forall|earlier: int|
                0 <= earlier < index ==> occurs(lower@, #[trigger] needles@[earlier]@),
    {
        let needle = chars_of(needles[index].as_str());
        if !contains_text(lower, needle.as_slice()) {
            assert(!occurs(lower@, needles@[index as int]@));
            return false;
        }
    }
    true
}

fn all_match(patterns: &Vec<String>, text: &str) -> (all: bool)
    ensures
        all == forall|index: int|
            0 <= index < patterns@.len() ==> matches_pattern(#[trigger] patterns@[index]@, text@),
{
    for index in 0..patterns.len()
        invariant
            forall|earlier: int|
                0 <= earlier < index ==> matches_pattern(#[trigger] patterns@[earlier]@, text@),
    {
        let matched = match compile(patterns[index].as_str()) {
            Some(pattern) => pattern.is_match(text),
            None => false,
        };
        if !matched {
            assert(!matches_pattern(patterns@[index as int]@, text@));
            return false;
        }
    }
    true
}

fn all_match_lines(patterns: &Vec<String>, lines: &Vec<&[char]>, Ghost(text): Ghost<Seq<char>>) -> (all:
    bool)
    requires
        char_texts(lines@) == text_lines(text),
    ensures
        all == forall|index: int|
            0 <= index < patterns@.len() ==> some_line_matches(
                #[trigger] patterns@[index]@,
                text_lines(text),
            ),
{
    for index in 0..patterns.len()
        invariant
            char_texts(lines@) == text_lines(text),
            forall|earlier: int|
                0 <= earlier < index ==> some_line_matches(
                    #[trigger] patterns@[earlier]@,
                    text_lines(text),
                ),
    {
        match compile(patterns[index].as_str()) {
            Some(pattern) => {
                let ghost wanted = patterns@[index as int]@;
                if !line_matches(&pattern, lines) {
                    proof {
                        if some_line_matches(wanted, text_lines(text)) {
                            let line = choose|line: int|
                                0 <= line < text_lines(text).len() && matches_pattern(
                                    wanted,
                                    #[trigger] text_lines(text)[line],
                                );
                            assert(lines@[line]@ == char_texts(lines@)[line]);
                        }
                        assert(!some_line_matches(wanted, text_lines(text)));
                    }
                    return false;
                }
                proof {
                    let line = choose|line: int|
                        0 <= line < lines@.len() && regex_finds(
                            regex_source(pattern),
                            (#[trigger] lines@[line])@,
                        );
                    assert(lines@[line]@ == char_texts(lines@)[line]);
                    assert(matches_pattern(wanted, text_lines(text)[line]));
                }
            },
            None => {
                assert(!some_line_matches(patterns@[index as int]@, text_lines(text)));
                return false;
            },
        }
    }
    true
}

/// Whether a condition holds of a text.
pub fn gate_matches(gate: &Gate, text: &str) -> (holds: bool)
    ensures
        holds == gate_holds(*gate, text@),
    decreases gate,
{
    let lower = to_lowercase(text);
    let lower_chars = chars_of(lower.as_str());
    if !all_occur(&gate.contains, lower_chars.as_slice()) {
        return false;
    }
    if !all_match(&gate.regex, text) {
        return false;
    }
    let chars = chars_of(text);
    let lines = lines_of(chars.as_slice());
    if !all_match_lines(&gate.line_regex, &lines, Ghost(text@)) {
        return false;
    }
    for index in 0..gate.all.len()
        invariant
            forall|earlier: int|
                0 <= earlier < index ==> gate_holds(#[trigger] gate.all@[earlier], text@),
    {
        if !gate_matches(&gate.all[index], text) {
            assert(!gate_holds(gate.all@[index as int], text@));
            return false;
        }
    }
    let mut some = gate.any.len() == 0;
    let mut index: usize = 0;
    while index < gate.any.len()
        invariant
            index <= gate.any@.len(),
            some == (gate.any@.len() == 0 || exists|earlier: int|
                0 <= earlier < index && gate_holds(#[trigger] gate.any@[earlier], text@)),
        decreases gate.any@.len() - index,
    {
        if gate_matches(&gate.any[index], text) {
            assert(gate_holds(gate.any@[index as int], text@));
            some = true;
        }
        index = index + 1;
    }
    if !some {
        return false;
    }
    for index in 0..gate.not.len()
        invariant
            forall|earlier: int|
                0 <= earlier < index ==> !gate_holds(#[trigger] gate.not@[earlier], text@),
    {
        if gate_matches(&gate.not[index], text) {
            assert(gate_holds(gate.not@[index as int], text@));
            return false;
        }
    }
    true
}

/// Whether a line is a horizontal rule.
pub fn horizontal_rule(line: &str) -> (rule: bool)
    ensures
        rule == horizontal(line@),
{
    let chars = chars_of(line);
    let text = trimmed(chars.as_slice());
    let run: usize = count_leading(text, '─');
    run > 0 && (run == text.len() || run >= 3)
}

fn find_last_rule(lines: &Vec<String>, end: usize) -> (index: Option<usize>)
    requires
        end <= lines@.len(),
    ensures
        match index {
            Some(found) => found < end && last_rule(texts(lines@).take(end as int)) == Some(
                found as int,
            ),
            None => last_rule(texts(lines@).take(end as int)) is None,
        },
{
    let ghost all = texts(lines@);
    let mut count: usize = end;
    while count > 0
        invariant
            count <= end <= lines@.len(),
            all == texts(lines@),
            last_rule(all.take(end as int)) == last_rule(all.take(count as int)),
        decreases count,
    {
        assert(all.take(count as int).drop_last() =~= all.take(count - 1));
        if horizontal_rule(lines[count - 1].as_str()) {
            return Some(count - 1);
        }
        count = count - 1;
    }
    None
}

fn find_prompt_box(lines: &Vec<String>) -> (found: Option<(usize, usize)>)
    ensures
        match found {
            Some((upper, lower)) => {
                &&& upper < lower < lines@.len()
                &&& prompt_box(texts(lines@)) == Some((upper as int, lower as int))
            },
            None => prompt_box(texts(lines@)) is None,
        },
{
    assert(texts(lines@).take(lines@.len() as int) =~= texts(lines@));
    match find_last_rule(lines, lines.len()) {
        Some(lower) => match find_last_rule(lines, lower) {
            Some(upper) => Some((upper, lower)),
            None => None,
        },
        None => None,
    }
}

fn shows_marker(line: &[char], marker: &[char]) -> (shows: bool)
    ensures
        shows == at_marker(line@, marker@),
{
    if same_chars(line, marker) {
        return true;
    }
    let starts = line.len() > marker.len() && starts_with(line, marker) && line[marker.len()]
        == ' ';
    proof {
        let wanted = marker@.push(' ');
        if wanted.is_prefix_of(line@) {
            assert(wanted == line@.subrange(0, wanted.len() as int));
            assert(marker@ =~= line@.subrange(0, marker@.len() as int));
            assert(line@[marker@.len() as int] == wanted[marker@.len() as int]);
        }
        if starts {
            assert(wanted =~= line@.subrange(0, wanted.len() as int));
        }
    }
    starts
}

fn marker_index(lines: &Vec<String>, marker: &Option<String>) -> (index: Option<usize>)
    ensures
        match index {
            Some(found) => found < lines@.len() && last_marker(
                texts(lines@),
                text_view(*marker),
            ) == Some(found as int),
            None => last_marker(texts(lines@), text_view(*marker)) is None,
        },
{
    let text = match marker {
        Some(text) => text,
        None => {
            return None;
        },
    };
    let wanted = chars_of(text.as_str());
    let ghost all = texts(lines@);
    let mut count: usize = lines.len();
    assert(all.take(count as int) =~= all);
    while count > 0
        invariant
            count <= lines@.len(),
            all == texts(lines@),
            *marker == Some(*text),
            wanted@ == text@,
            last_marker(all, text_view(*marker)) == last_marker(
                all.take(count as int),
                text_view(*marker),
            ),
        decreases count,
    {
        assert(all.take(count as int).drop_last() =~= all.take(count - 1));
        let line = chars_of(lines[count - 1].as_str());
        if shows_marker(line.as_slice(), wanted.as_slice()) {
            return Some(count - 1);
        }
        count = count - 1;
    }
    None
}

fn starts_with_one(line: &[char], markers: &Vec<String>) -> (found: bool)
    ensures
        found == exists|marker: int|
            0 <= marker < markers@.len() && (#[trigger] texts(markers@)[marker]).is_prefix_of(
                line@,
            ),
{
    for index in 0..markers.len()
        invariant
            forall|earlier: int|
                0 <= earlier < index ==> !(#[trigger] texts(markers@)[earlier]).is_prefix_of(line@),
    {
        let marker = chars_of(markers[index].as_str());
        assert(texts(markers@)[index as int] == marker@);
        if starts_with(line, marker.as_slice()) {
            return true;
        }
    }
    false
}

fn has_block(lines: &Vec<String>, start: usize, markers: &Vec<String>) -> (found: bool)
    requires
        start <= lines@.len(),
    ensures
        found == some_block(texts(lines@).skip(start as int), texts(markers@)),
{
    let ghost after = texts(lines@).skip(start as int);
    let ghost wanted = texts(markers@);
    for index in start..lines.len()
        invariant
            start <= lines@.len(),
            after == texts(lines@).skip(start as int),
            wanted == texts(markers@),
            forall|line: int, marker: int|
                0 <= line < index - start && 0 <= marker < wanted.len()
                    ==> !(#[trigger] wanted[marker].is_prefix_of(#[trigger] after[line])),
    {
        let line = chars_of(lines[index].as_str());
        assert(after[index - start] == line@);
        if starts_with_one(line.as_slice(), markers) {
            proof {
                let marker = choose|marker: int|
                    0 <= marker < markers@.len()
                        && (#[trigger] texts(markers@)[marker]).is_prefix_of(line@);
                assert(wanted[marker].is_prefix_of(after[index - start]));
            }
            return true;
        }
        assert forall|marker: int| 0 <= marker < wanted.len() implies !(
        #[trigger] wanted[marker]).is_prefix_of(after[index - start]) by {
            assert(texts(markers@)[marker] == wanted[marker]);
        }
    }
    false
}

fn find_filled(lines: &Vec<String>, nth: usize) -> (index: Option<usize>)
    ensures
        match index {
            Some(found) => found < lines@.len() && nth_filled(texts(lines@), nth as nat) == Some(
                found as int,
            ),
            None => nth_filled(texts(lines@), nth as nat) is None,
        },
{
    let ghost all = texts(lines@);
    let mut seen: usize = 0;
    let mut index: usize = 0;
    while index < lines.len()
        invariant
            index <= lines@.len(),
            all == texts(lines@),
            seen <= index,
            seen == filled(all.take(index as int)),
            nth_filled(all.take(index as int), nth as nat) is None,
        decreases lines@.len() - index,
    {
        let ghost longer = all.take(index + 1);
        assert(longer.drop_last() =~= all.take(index as int));
        assert(longer.last() == lines@[index as int]@);
        if chars_of(lines[index].as_str()).len() > 0 {
            seen = seen + 1;
            if seen == nth || (nth == 0 && seen == 1) {
                proof {
                    lemma_filled_found(all, nth as nat, index + 1);
                }
                return Some(index);
            }
        }
        index = index + 1;
    }
    assert(all.take(lines@.len() as int) =~= all);
    None
}

/// A line found among the leading lines is the one found among all.
proof fn lemma_filled_found(lines: Seq<Seq<char>>, nth: nat, count: int)
    requires
        0 <= count <= lines.len(),
        nth_filled(lines.take(count), nth) is Some,
    ensures
        nth_filled(lines, nth) == nth_filled(lines.take(count), nth),
    decreases lines.len() - count,
{
    if count == lines.len() {
        assert(lines.take(count) =~= lines);
    } else {
        assert(lines.take(count + 1).drop_last() =~= lines.take(count));
        lemma_filled_found(lines, nth, count + 1);
    }
}

fn find_filled_up(lines: &Vec<String>, end: usize, nth: usize) -> (index: Option<usize>)
    requires
        end <= lines@.len(),
    ensures
        match index {
            Some(found) => found < end && nth_filled_up(
                texts(lines@).take(end as int),
                nth as nat,
            ) == Some(found as int),
            None => nth_filled_up(texts(lines@).take(end as int), nth as nat) is None,
        },
{
    let ghost all = texts(lines@);
    let mut left: usize = nth;
    let mut count: usize = end;
    while count > 0
        invariant
            count <= end <= lines@.len(),
            all == texts(lines@),
            nth_filled_up(all.take(end as int), nth as nat) == nth_filled_up(
                all.take(count as int),
                left as nat,
            ),
        decreases count,
    {
        assert(all.take(count as int).drop_last() =~= all.take(count - 1));
        assert(all.take(count as int).last() == lines@[count - 1]@);
        if chars_of(lines[count - 1].as_str()).len() > 0 {
            if left <= 1 {
                return Some(count - 1);
            }
            left = left - 1;
        }
        count = count - 1;
    }
    None
}

/// Writes a progress: `<state>:<percent>`.
pub fn write_progress(progress: Option<Progress>) -> (text: String)
    ensures
        text@ == progress_text(progress),
{
    let mut text = String::new();
    match progress {
        Some(value) => {
            append_decimal(&mut text, value.state as u64);
            text.append(":");
            append_decimal(&mut text, value.percent as u64);
            assert(text@ =~= progress_text(progress));
        },
        None => {
            assert(text@ =~= progress_text(progress));
        },
    }
    text
}

fn read_region<V: ScreenView>(
    region: Region,
    set: &RuleSet,
    view: &V,
    lines: &Vec<String>,
) -> (text: String)
    requires
        texts(lines@) == view.view_lines(),
    ensures
        text@ == region_text(
            region,
            text_view(set.prompt_marker),
            texts(set.block_markers@),
            picture_of(view),
        ),
{
    let ghost all = texts(lines@);
    let length: usize = lines.len();
    assert(all.subrange(0, length as int) =~= all);
    assert(all.take(length as int) =~= all);
    match region {
        Region::Whole => view.text().to_owned(),
        Region::Title => view.title().to_owned(),
        Region::Progress => write_progress(view.progress()),
        Region::Bottom(count) => {
            let start: usize = if count < length {
                length - count
            } else {
                0
            };
            assert(all.subrange(start as int, length as int) =~= all.skip(start as int));
            join_lines(lines, start, length)
        },
        Region::Top(count) => {
            let end: usize = if count < length {
                count
            } else {
                length
            };
            assert(all.subrange(0, end as int) =~= all.take(end as int));
            join_lines(lines, 0, end)
        },
        Region::BottomNonEmpty(count) => match find_filled_up(lines, length, count) {
            Some(index) => {
                assert(all.subrange(index as int, length as int) =~= all.skip(index as int));
                join_lines(lines, index, length)
            },
            None => String::new(),
        },
        Region::TopNonEmpty(count) => match find_filled(lines, count) {
            Some(index) => {
                assert(all.subrange(0, index + 1) =~= all.take(index + 1));
                join_lines(lines, 0, index + 1)
            },
            None => String::new(),
        },
        Region::PromptBox => match find_prompt_box(lines) {
            Some((upper, lower)) => join_lines(lines, upper + 1, lower),
            None => String::new(),
        },
        Region::AbovePromptBox => match find_prompt_box(lines) {
            Some((upper, _)) => {
                assert(all.subrange(0, upper as int) =~= all.take(upper as int));
                join_lines(lines, 0, upper)
            },
            None => view.text().to_owned(),
        },
        Region::LastLineAbovePromptBox => {
            let end: usize = match find_prompt_box(lines) {
                Some((upper, _)) => upper,
                None => length,
            };
            match find_filled_up(lines, end, 1) {
                Some(index) => {
                    assert(all.subrange(index as int, index + 1) =~= seq![
                        all.take(end as int)[index as int],
                    ]);
                    join_lines(lines, index, index + 1)
                },
                None => String::new(),
            }
        },
        Region::AfterLastRule => match find_last_rule(lines, length) {
            Some(index) => {
                assert(all.subrange(index + 1, length as int) =~= all.skip(index + 1));
                join_lines(lines, index + 1, length)
            },
            None => String::new(),
        },
        Region::AfterLastPromptMarker => match marker_index(lines, &set.prompt_marker) {
            Some(index) => {
                assert(all.subrange(index + 1, length as int) =~= all.skip(index + 1));
                join_lines(lines, index + 1, length)
            },
            None => String::new(),
        },
        Region::WholeUnlessAtPrompt => match marker_index(lines, &set.prompt_marker) {
            Some(index) => if has_block(lines, index + 1, &set.block_markers) {
                view.text().to_owned()
            } else {
                String::new()
            },
            None => view.text().to_owned(),
        },
    }
}

/// The verdict of a rule set on a screen.
pub fn evaluate<V: ScreenView>(set: &RuleSet, view: &V) -> (verdict: Verdict)
    ensures
        verdict@ == verdict_of(*set, picture_of(view)),
{
    let lines = view.lines();
    let ghost picture = picture_of(view);
    let mut winner: Option<usize> = None;
    for index in 0..set.rules.len()
        invariant
            picture == picture_of(view),
            texts(lines@) == view.view_lines(),
            match winner {
                Some(best) => {
                    &&& best < index
                    &&& rule_holds(*set, picture, best as int)
                    &&& forall|other: int|
                        0 <= other < index && #[trigger] rule_holds(*set, picture, other) ==> {
                            ||| set.rules@[other].priority < set.rules@[best as int].priority
                            ||| set.rules@[other].priority == set.rules@[best as int].priority
                                && best <= other
                        }
                },
                None => forall|other: int|
                    0 <= other < index ==> !#[trigger] rule_holds(*set, picture, other),
            },
    {
        let rule = &set.rules[index];
        let text = read_region(rule.region, set, view, &lines);
        if gate_matches(&rule.gate, text.as_str()) {
            assert(rule_holds(*set, picture, index as int));
            let better = match winner {
                Some(best) => rule.priority > set.rules[best].priority,
                None => true,
            };
            if better {
                winner = Some(index);
            }
        } else {
            assert(!rule_holds(*set, picture, index as int));
        }
    }
    match winner {
        Some(best) => {
            assert(decides(*set, picture, best as int));
            let named: usize = find_id(set, best);
            let rule = &set.rules[named];
            let verdict = Verdict {
                state: rule.state,
                visible: Flags {
                    idle: rule.visible_idle,
                    blocker: rule.visible_blocker,
                    working: rule.visible_working,
                },
                rule: Some(rule.id.clone()),
                region: rule.region,
            };
            proof {
                let chosen = choose|index: int| decides(*set, picture, index);
                assert(rule_holds(*set, picture, chosen));
                assert(chosen == best);
                let other = choose|index: int|
                    first_with_id(set.rules@, set.rules@[chosen].id@, index);
                assert(first_with_id(set.rules@, set.rules@[best as int].id@, named as int));
                assert(other == named) by {
                    if other < named {
                        assert(set.rules@[other].id@ != set.rules@[best as int].id@);
                    }
                    if named < other {
                        assert(set.rules@[named as int].id@ != set.rules@[best as int].id@);
                    }
                }
            }
            verdict
        },
        None => {
            assert forall|index: int| !decides(*set, picture, index) by {
                if decides(*set, picture, index) {
                    assert(rule_holds(*set, picture, index));
                }
            }
            Verdict {
                state: RuleState::Idle,
                visible: Flags::default(),
                rule: None,
                region: Region::Whole,
            }
        },
    }
}

/// The first rule that has the id of the given one.
fn find_id(set: &RuleSet, wanted: usize) -> (index: usize)
    requires
        wanted < set.rules@.len(),
    ensures
        first_with_id(set.rules@, set.rules@[wanted as int].id@, index as int),
{
    let mut index: usize = 0;
    while index < wanted
        invariant
            index <= wanted < set.rules@.len(),
            forall|earlier: int|
                0 <= earlier < index ==> #[trigger] set.rules@[earlier].id@
                    != set.rules@[wanted as int].id@,
        decreases wanted - index,
    {
        if same_text(set.rules[index].id.as_str(), set.rules[wanted].id.as_str()) {
            return index;
        }
        index = index + 1;
    }
    wanted
}

} // verus!
