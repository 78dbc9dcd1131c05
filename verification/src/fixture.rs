//! Fixtures: captured screens with the verdict that is expected of them.
use crate::numeral::{codes_of_chars, parse_unsigned, unsigned};
use crate::osc::text_view;
use crate::rules::eval::{evaluate, picture_of, progress_text, verdict_of, Picture, VerdictView};
use crate::rules::ident::{find_set, first_with_id};
use crate::rules::schema::{RuleSet, RuleState};
use crate::rules::view::{Progress, ScreenView};
use crate::screen::{trimmed_lines, without_trailing};
use crate::text::{
    char_texts, chars_of, copied_texts, join_lines, joined_lines, lemma_texts_push, lines_between,
    lines_of_parts, same_text, split, split_chars, starts_with, string_of, texts, trimmed_end,
};
use vstd::prelude::*;

verus! {

/// The value of a header line, `# key: value`.
pub open spec fn header_value(line: Seq<char>, key: Seq<char>) -> Option<Seq<char>> {
    let start = "# "@ + key + ":"@;
    if start.is_prefix_of(line) {
        let rest = line.skip(start.len() as int);
        if rest.len() > 0 && rest[0] == ' ' {
            Some(rest.skip(1))
        } else {
            Some(rest)
        }
    } else {
        None
    }
}

/// A number from 0 to 255.
pub open spec fn small_value(text: Seq<char>) -> Option<u8> {
    match unsigned(codes_of_chars(text)) {
        Some(value) => if value <= 255 {
            Some(value as u8)
        } else {
            None
        },
        None => None,
    }
}

/// The progress that a text stands for: none for no text, and else `<state>:<percent>`.
pub open spec fn progress_of(text: Seq<char>) -> Option<Option<Progress>> {
    if text.len() == 0 {
        Some(None)
    } else {
        let parts = split(text, ':');
        if parts.len() == 2 && small_value(parts[0]) is Some && small_value(parts[1]) is Some {
            Some(
                Some(
                    Progress {
                        state: small_value(parts[0])->0,
                        percent: small_value(parts[1])->0,
                    },
                ),
            )
        } else {
            None
        }
    }
}

/// A fixture in mathematical terms.
#[verifier::ext_equal]
pub struct FixtureView {
    pub agent: Seq<char>,
    pub title: Seq<char>,
    pub progress: Option<Progress>,
    pub expect: Seq<char>,
    pub matched: Seq<char>,
    pub lines: Seq<Seq<char>>,
}

/// The fixture that a file holds: five header lines, and the screen.
pub open spec fn fixture_of(text: Seq<char>) -> Option<FixtureView> {
    let parts = split(text, '\n');
    if parts.len() < 6 {
        None
    } else {
        let agent = header_value(parts[0], "agent"@);
        let title = header_value(parts[1], "title"@);
        let progress = header_value(parts[2], "progress"@);
        let expect = header_value(parts[3], "expect"@);
        let matched = header_value(parts[4], "matched"@);
        if agent is Some && title is Some && progress is Some && expect is Some && matched is Some
            && progress_of(progress->0) is Some {
            Some(
                FixtureView {
                    agent: agent->0,
                    title: title->0,
                    progress: progress_of(progress->0)->0,
                    expect: expect->0,
                    matched: matched->0,
                    lines: without_trailing(trimmed_lines(lines_between(parts.skip(5)))),
                },
            )
        } else {
            None
        }
    }
}

/// What the rules read of a fixture.
pub open spec fn fixture_picture(fixture: FixtureView) -> Picture {
    Picture {
        lines: fixture.lines,
        text: joined_lines(fixture.lines),
        title: fixture.title,
        progress: fixture.progress,
    }
}

/// A fixture.
#[derive(Debug)]
pub struct Fixture {
    agent: String,
    title: String,
    progress: Option<Progress>,
    expect: String,
    matched: String,
    lines: Vec<String>,
    text: String,
}

impl View for Fixture {
    type V = FixtureView;

    closed spec fn view(&self) -> FixtureView {
        FixtureView {
            agent: self.agent@,
            title: self.title@,
            progress: self.progress,
            expect: self.expect@,
            matched: self.matched@,
            lines: texts(self.lines@),
        }
    }
}

fn read_header(line: &[char], key: &str) -> (value: Option<String>)
    ensures
        text_view(value) == header_value(line@, key@),
{
    let mut start = "# ".to_owned();
    start.append(key);
    start.append(":");
    let start_chars = chars_of(start.as_str());
    if !starts_with(line, start_chars.as_slice()) {
        return None;
    }
    let rest = &line[start_chars.len()..line.len()];
    assert(rest@ =~= line@.skip(start@.len() as int));
    if rest.len() > 0 && rest[0] == ' ' {
        let value = &rest[1..rest.len()];
        assert(value@ =~= rest@.skip(1));
        Some(string_of(value))
    } else {
        Some(string_of(rest))
    }
}

fn read_small(text: &[char]) -> (value: Option<u8>)
    ensures
        value == small_value(text@),
{
    match parse_unsigned(text, 255) {
        Some(value) => Some(value as u8),
        None => None,
    }
}

fn read_progress(text: &str) -> (progress: Option<Option<Progress>>)
    ensures
        progress == progress_of(text@),
{
    let chars = chars_of(text);
    if chars.len() == 0 {
        return Some(None);
    }
    let parts = split_chars(chars.as_slice(), ':');
    if parts.len() != 2 {
        return None;
    }
    assert(parts@[0]@ == split(text@, ':')[0]);
    assert(parts@[1]@ == split(text@, ':')[1]);
    match (read_small(parts[0]), read_small(parts[1])) {
        (Some(state), Some(percent)) => Some(Some(Progress { state, percent })),
        _ => None,
    }
}

fn window_of(lines: &Vec<&[char]>) -> (window: Vec<String>)
    ensures
        texts(window@) == without_trailing(trimmed_lines(char_texts(lines@))),
{
    let ghost all = trimmed_lines(char_texts(lines@));
    let mut trimmed: Vec<String> = Vec::new();
    for index in 0..lines.len()
        invariant
            all == trimmed_lines(char_texts(lines@)),
            texts(trimmed@) == all.take(index as int),
    {
        let line = string_of(trimmed_end(lines[index]));
        proof {
            lemma_texts_push(trimmed@, line);
        }
        trimmed.push(line);
        assert(texts(trimmed@) =~= all.take(index + 1));
    }
    assert(all.take(lines@.len() as int) =~= all);
    while trimmed.len() > 0 && chars_of(trimmed[trimmed.len() - 1].as_str()).len() == 0
        invariant
            without_trailing(all) == without_trailing(texts(trimmed@)),
        ensures
            without_trailing(all) == texts(trimmed@),
        decreases trimmed@.len(),
    {
        let ghost before = trimmed@;
        trimmed.pop();
        assert(texts(trimmed@) =~= texts(before).drop_last());
    }
    trimmed
}

impl Fixture {
    /// Reads a fixture.
    pub fn parse(text: &str) -> (fixture: Option<Self>)
        ensures
            match fixture {
                Some(found) => fixture_of(text@) == Some(found@) && picture_of(&found)
                    == fixture_picture(found@),
                None => fixture_of(text@) is None,
            },
    {
        let chars = chars_of(text);
        let parts = split_chars(chars.as_slice(), '\n');
        let ghost all = split(text@, '\n');
        if parts.len() < 6 {
            return None;
        }
        assert(char_texts(parts@) =~= all);
        assert(parts@[0]@ == all[0]);
        assert(parts@[1]@ == all[1]);
        assert(parts@[2]@ == all[2]);
        assert(parts@[3]@ == all[3]);
        assert(parts@[4]@ == all[4]);
        let agent = match read_header(parts[0], "agent") {
            Some(value) => value,
            None => {
                return None;
            },
        };
        let title = match read_header(parts[1], "title") {
            Some(value) => value,
            None => {
                return None;
            },
        };
        let progress = match read_header(parts[2], "progress") {
            Some(value) => match read_progress(value.as_str()) {
                Some(progress) => progress,
                None => {
                    return None;
                },
            },
            None => {
                return None;
            },
        };
        let expect = match read_header(parts[3], "expect") {
            Some(value) => value,
            None => {
                return None;
            },
        };
        let matched = match read_header(parts[4], "matched") {
            Some(value) => value,
            None => {
                return None;
            },
        };
        let body = lines_of_parts(&parts, 5);
        let lines = window_of(&body);
        assert(texts(lines@).subrange(0, lines@.len() as int) =~= texts(lines@));
        let text = join_lines(&lines, 0, lines.len());
        Some(Fixture { agent, title, progress, expect, matched, lines, text })
    }

    /// The agent that the fixture was captured of.
    pub fn agent(&self) -> (agent: &str)
        ensures
            agent@ == self@.agent,
    {
        self.agent.as_str()
    }
}

impl ScreenView for Fixture {
    closed spec fn view_lines(&self) -> Seq<Seq<char>> {
        self@.lines
    }

    closed spec fn view_text(&self) -> Seq<char> {
        self.text@
    }

    closed spec fn view_title(&self) -> Seq<char> {
        self@.title
    }

    closed spec fn view_progress(&self) -> Option<Progress> {
        self@.progress
    }

    /// A fixture records no size.
    open spec fn view_size(&self) -> (u16, u16) {
        (0, 0)
    }

    fn lines(&self) -> (lines: Vec<String>) {
        copied_texts(&self.lines)
    }

    fn text(&self) -> (text: &str) {
        self.text.as_str()
    }

    fn title(&self) -> (title: &str) {
        self.title.as_str()
    }

    fn progress(&self) -> (progress: Option<Progress>) {
        self.progress
    }

    fn size(&self) -> (size: (u16, u16)) {
        (0, 0)
    }
}

/// The name of the state of a verdict.
pub open spec fn verdict_word(state: RuleState) -> Seq<char> {
    match state {
        RuleState::Working => "working"@,
        RuleState::Blocked => "blocked"@,
        RuleState::Idle => "idle"@,
        RuleState::Skip => "skip"@,
    }
}

/// The name of the rule of a verdict.
pub open spec fn rule_word(rule: Option<Seq<char>>) -> Seq<char> {
    match rule {
        Some(id) => id,
        None => "none"@,
    }
}

fn verdict_name(state: RuleState) -> (name: &'static str)
    ensures
        name@ == verdict_word(state),
{
    match state {
        RuleState::Working => "working",
        RuleState::Blocked => "blocked",
        RuleState::Idle => "idle",
        RuleState::Skip => "skip",
    }
}

/// The outcome of a check: the verdict as it is printed, and whether it is the expected one.
#[derive(Debug, PartialEq, Eq)]
pub struct Outcome {
    pub line: String,
    pub expected: bool,
}

/// What speaks against a check.
#[derive(Debug, PartialEq, Eq)]
pub enum CheckError {
    /// The text is no fixture.
    Malformed,
    /// There is no rule set for the agent.
    UnknownAgent(String),
}

/// The agent whose rules are checked: the one that is asked for, or else that of the fixture.
pub open spec fn checked_agent(fixture: FixtureView, agent: Option<Seq<char>>) -> Seq<char> {
    match agent {
        Some(id) => id,
        None => fixture.agent,
    }
}

/// The verdict is the one that the fixture expects.
pub open spec fn as_expected(fixture: FixtureView, verdict: VerdictView) -> bool {
    fixture.expect == verdict_word(verdict.state) && fixture.matched == rule_word(verdict.rule)
}

/// Evaluates a fixture by the rules for its agent, or for the agent that is asked for.
pub fn check(text: &str, agent: Option<&str>, sets: &[RuleSet]) -> (outcome: Result<
    Outcome,
    CheckError,
>)
    ensures
        ({
            let asked = match agent {
                Some(id) => Some(id@),
                None => None,
            };
            match (fixture_of(text@), outcome) {
                (None, result) => result is Err && result->Err_0 is Malformed,
                (Some(fixture), Ok(value)) => {
                    let set = first_with_id(sets@, checked_agent(fixture, asked));
                    let verdict = verdict_of(sets@[set->0], fixture_picture(fixture));
                    &&& set is Some
                    &&& value.line@ == verdict_word(verdict.state) + " "@ + rule_word(
                        verdict.rule,
                    )
                    &&& value.expected == as_expected(fixture, verdict)
                },
                (Some(fixture), Err(error)) => {
                    let id = checked_agent(fixture, asked);
                    &&& first_with_id(sets@, id) is None
                    &&& error matches CheckError::UnknownAgent(name) && name@ == id
                },
            }
        }),
{
    let fixture = match Fixture::parse(text) {
        Some(fixture) => fixture,
        None => {
            return Err(CheckError::Malformed);
        },
    };
    let id = match agent {
        Some(id) => id,
        None => fixture.agent(),
    };
    let index: usize = match find_set(sets, id) {
        Some(index) => index,
        None => {
            return Err(CheckError::UnknownAgent(id.to_owned()));
        },
    };
    let verdict = evaluate(&sets[index], &fixture);
    let rule = match &verdict.rule {
        Some(id) => id.as_str(),
        None => "none",
    };
    let state = verdict_name(verdict.state);
    let mut line = state.to_owned();
    line.append(" ");
    line.append(rule);
    let expected = same_text(fixture.expect.as_str(), state) && same_text(
        fixture.matched.as_str(),
        rule,
    );
    Ok(Outcome { line, expected })
}

/// The file that records a screen, as that of an idle agent by no rule.
pub open spec fn fixture_text(
    agent: Option<Seq<char>>,
    title: Seq<char>,
    progress: Option<Progress>,
    text: Seq<char>,
) -> Seq<char> {
    "# agent: "@ + (match agent {
        Some(id) => id,
        None => "unknown"@,
    }) + "\n# title: "@ + title + "\n# progress: "@ + progress_text(progress)
        + "\n# expect: idle\n# matched: none\n"@ + text
}

/// Writes the file that records a screen.
pub fn write_fixture<V: ScreenView>(agent: Option<&str>, view: &V) -> (text: String)
    ensures
        text@ == fixture_text(
            match agent {
                Some(id) => Some(id@),
                None => None,
            },
            view.view_title(),
            view.view_progress(),
            view.view_text(),
        ),
{
    let mut text = "# agent: ".to_owned();
    match agent {
        Some(id) => {
            text.append(id);
        },
        None => {
            text.append("unknown");
        },
    }
    text.append("\n# title: ");
    text.append(view.title());
    text.append("\n# progress: ");
    text.append(crate::rules::eval::write_progress(view.progress()).as_str());
    text.append("\n# expect: idle\n# matched: none\n");
    text.append(view.text());
    text
}

} // verus!
