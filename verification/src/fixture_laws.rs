//! What writing and reading fixtures owe each other.
use crate::fixture::{
    fixture_of, fixture_picture, fixture_text, header_value, progress_of, small_value, FixtureView,
};
use crate::numeral::{codes_of_chars, decimal, decimal_chars, decimal_round_trip, digit};
use crate::rules::eval::{progress_text, verdict_of, Picture};
use crate::rules::schema::RuleSet;
use crate::rules::view::Progress;
use crate::screen::{last_filled, trimmed_lines, without_trailing};
use crate::screen_laws::{lemma_last_filled, lemma_without_trailing};
use crate::text::{joined, joined_lines, lines_between, split, split_of_joined, trim_end};
use vstd::prelude::*;

verus! {

proof fn lemma_small_value(value: u8)
    ensures
        small_value(decimal_chars(value as nat)) == Some(value),
        !decimal_chars(value as nat).contains(':'),
        !decimal_chars(value as nat).contains('\n'),
{
    decimal_round_trip(value as nat);
    let text = decimal_chars(value as nat);
    assert(codes_of_chars(text) =~= decimal(value as nat));
    assert forall|index: int| 0 <= index < text.len() implies text[index] != ':' && text[index]
        != '\n' by {
        assert(digit(decimal(value as nat)[index]) is Some);
    }
}

/// A progress comes back from its text.
pub proof fn progress_round_trip(progress: Option<Progress>)
    ensures
        progress_of(progress_text(progress)) == Some(progress),
        !progress_text(progress).contains('\n'),
{
    match progress {
        Some(value) => {
            lemma_small_value(value.state);
            lemma_small_value(value.percent);
            reveal_strlit(":");
            let left = decimal_chars(value.state as nat);
            let right = decimal_chars(value.percent as nat);
            let parts = seq![left, right];
            let text = progress_text(progress);
            reveal_with_fuel(joined, 3);
            assert(parts.drop_last() =~= seq![left]);
            assert(text =~= joined(parts, ':'));
            assert forall|index: int| 0 <= index < parts.len() implies !(
            #[trigger] parts[index]).contains(':') by {}
            split_of_joined(parts, ':');
            assert(text.len() > 0);
            assert forall|index: int| 0 <= index < text.len() implies text[index] != '\n' by {
                if index < left.len() {
                    assert(text[index] == left[index]);
                } else if index > left.len() {
                    assert(text[index] == right[index - left.len() - 1]);
                }
            }
        },
        None => {},
    }
}

proof fn lemma_joined_pair<T>(first: Seq<Seq<T>>, second: Seq<Seq<T>>, separator: T)
    requires
        first.len() > 0,
        second.len() > 0,
    ensures
        joined(first + second, separator) == joined(first, separator).push(separator) + joined(
            second,
            separator,
        ),
    decreases second.len(),
{
    let all = first + second;
    if second.len() == 1 {
        assert(all.drop_last() =~= first);
        assert(all.last() == second[0]);
    } else {
        lemma_joined_pair(first, second.drop_last(), separator);
        assert(all.drop_last() =~= first + second.drop_last());
        assert(all.last() == second.last());
        assert(joined(all, separator) =~= joined(first, separator).push(separator) + joined(
            second,
            separator,
        ));
    }
}

/// The lines of a screen, as a fixture can hold them: in one piece each, without whitespace at
/// their ends, and the last one not empty.
pub open spec fn recordable(lines: Seq<Seq<char>>) -> bool {
    &&& forall|index: int|
        0 <= index < lines.len() ==> {
            &&& !(#[trigger] lines[index]).contains('\n')
            &&& trim_end(lines[index]) == lines[index]
            &&& lines[index].len() > 0 ==> lines[index].last() != '\r'
        }
    &&& lines.len() > 0 ==> lines.last().len() > 0
}

proof fn lemma_body(lines: Seq<Seq<char>>)
    requires
        recordable(lines),
    ensures
        ({
            let parts = lines.push(Seq::empty());
            &&& joined_lines(lines) == joined(parts, '\n')
            &&& without_trailing(trimmed_lines(lines_between(parts))) == lines
        }),
{
    let parts = lines.push(Seq::empty());
    assert(parts.drop_last() =~= lines);
    assert(joined_lines(lines) =~= joined(parts, '\n'));
    assert(lines_between(parts) =~= lines);
    assert(trimmed_lines(lines) =~= lines);
}

/// The five header lines.
spec fn headers(agent: Seq<char>, title: Seq<char>, progress: Seq<char>) -> Seq<Seq<char>> {
    seq![
        "# agent: "@ + agent,
        "# title: "@ + title,
        "# progress: "@ + progress,
        "# expect: idle"@,
        "# matched: none"@,
    ]
}

proof fn lemma_header(key: Seq<char>, value: Seq<char>, line: Seq<char>)
    requires
        line == "# "@ + key + ": "@ + value,
    ensures
        header_value(line, key) == Some(value),
{
    reveal_strlit(": ");
    reveal_strlit(":");
    let start = "# "@ + key + ":"@;
    assert(start =~= line.subrange(0, start.len() as int));
    let rest = line.skip(start.len() as int);
    assert(rest[0] == ' ');
    assert(rest.skip(1) =~= value);
}

proof fn lemma_headers(agent: Seq<char>, title: Seq<char>, progress: Seq<char>)
    requires
        !agent.contains('\n'),
        !title.contains('\n'),
        !progress.contains('\n'),
    ensures
        header_value(headers(agent, title, progress)[0], "agent"@) == Some(agent),
        header_value(headers(agent, title, progress)[1], "title"@) == Some(title),
        header_value(headers(agent, title, progress)[2], "progress"@) == Some(progress),
        header_value(headers(agent, title, progress)[3], "expect"@) == Some("idle"@),
        header_value(headers(agent, title, progress)[4], "matched"@) == Some("none"@),
        forall|index: int|
            0 <= index < 5 ==> !(#[trigger] headers(agent, title, progress)[index]).contains('\n'),
{
    reveal_strlit("# ");
    reveal_strlit(": ");
    reveal_strlit("agent");
    reveal_strlit("title");
    reveal_strlit("progress");
    reveal_strlit("expect");
    reveal_strlit("matched");
    reveal_strlit("idle");
    reveal_strlit("none");
    reveal_strlit("# agent: ");
    reveal_strlit("# title: ");
    reveal_strlit("# progress: ");
    reveal_strlit("# expect: idle");
    reveal_strlit("# matched: none");
    let lines = headers(agent, title, progress);
    assert(lines[0] =~= "# "@ + "agent"@ + ": "@ + agent);
    lemma_header("agent"@, agent, lines[0]);
    assert(lines[1] =~= "# "@ + "title"@ + ": "@ + title);
    lemma_header("title"@, title, lines[1]);
    assert(lines[2] =~= "# "@ + "progress"@ + ": "@ + progress);
    lemma_header("progress"@, progress, lines[2]);
    assert(lines[3] =~= "# "@ + "expect"@ + ": "@ + "idle"@);
    lemma_header("expect"@, "idle"@, lines[3]);
    assert(lines[4] =~= "# "@ + "matched"@ + ": "@ + "none"@);
    lemma_header("matched"@, "none"@, lines[4]);
    lemma_no_break("# agent: "@, agent);
    lemma_no_break("# title: "@, title);
    lemma_no_break("# progress: "@, progress);
}

proof fn lemma_no_break(start: Seq<char>, value: Seq<char>)
    requires
        !value.contains('\n'),
        forall|index: int| 0 <= index < start.len() ==> start[index] != '\n',
    ensures
        !(start + value).contains('\n'),
{
    assert forall|index: int| 0 <= index < (start + value).len() implies (start + value)[index]
        != '\n' by {
        if index >= start.len() {
            assert((start + value)[index] == value[index - start.len()]);
        }
    }
}

proof fn lemma_breaks()
    ensures
        "\n# title: "@ == seq!['\n'] + "# title: "@,
        "\n# progress: "@ == seq!['\n'] + "# progress: "@,
        "\n# expect: idle\n# matched: none\n"@ == seq!['\n'] + "# expect: idle"@ + seq!['\n']
            + "# matched: none"@ + seq!['\n'],
{
    reveal_strlit("# title: ");
    reveal_strlit("\n# title: ");
    reveal_strlit("# progress: ");
    reveal_strlit("\n# progress: ");
    reveal_strlit("# expect: idle");
    reveal_strlit("# matched: none");
    reveal_strlit("\n# expect: idle\n# matched: none\n");
    assert("\n# title: "@ =~= seq!['\n'] + "# title: "@);
    assert("\n# progress: "@ =~= seq!['\n'] + "# progress: "@);
    assert("\n# expect: idle\n# matched: none\n"@ =~= seq!['\n'] + "# expect: idle"@ + seq!['\n']
        + "# matched: none"@ + seq!['\n']);
}

proof fn lemma_joined_five(parts: Seq<Seq<char>>)
    requires
        parts.len() == 5,
    ensures
        joined(parts, '\n').push('\n') == parts[0] + seq!['\n'] + parts[1] + seq!['\n'] + parts[2]
            + seq!['\n'] + parts[3] + seq!['\n'] + parts[4] + seq!['\n'],
{
    reveal_with_fuel(joined, 6);
    let four = parts.drop_last();
    let three = four.drop_last();
    let two = three.drop_last();
    let one = two.drop_last();
    assert(joined(one, '\n') == parts[0]);
    assert(joined(two, '\n') =~= parts[0] + seq!['\n'] + parts[1]);
    assert(joined(three, '\n') =~= joined(two, '\n') + seq!['\n'] + parts[2]);
    assert(joined(four, '\n') =~= joined(three, '\n') + seq!['\n'] + parts[3]);
    assert(joined(parts, '\n') =~= joined(four, '\n') + seq!['\n'] + parts[4]);
    assert(joined(parts, '\n').push('\n') =~= joined(parts, '\n') + seq!['\n']);
}

proof fn lemma_text(
    agent: Seq<char>,
    title: Seq<char>,
    progress: Option<Progress>,
    lines: Seq<Seq<char>>,
)
    requires
        recordable(lines),
    ensures
        fixture_text(Some(agent), title, progress, joined_lines(lines)) == joined(
            headers(agent, title, progress_text(progress)) + lines.push(Seq::empty()),
            '\n',
        ),
{
    let head = headers(agent, title, progress_text(progress));
    let body = lines.push(Seq::empty());
    lemma_body(lines);
    lemma_joined_pair(head, body, '\n');
    lemma_breaks();
    lemma_joined_five(head);
    let feed = seq!['\n'];
    let shown = progress_text(progress);
    let expected = "# expect: idle"@;
    let matched = "# matched: none"@;
    let tail = joined(body, '\n');
    let text = fixture_text(Some(agent), title, progress, joined_lines(lines));
    assert(text == "# agent: "@ + agent + (feed + "# title: "@) + title + (feed
        + "# progress: "@) + shown + (feed + expected + feed + matched + feed) + tail);
    assert(text =~= ("# agent: "@ + agent) + feed + ("# title: "@ + title) + feed + (
    "# progress: "@ + shown) + feed + expected + feed + matched + feed + tail);
}

/// A screen comes back from the file that records it, with its title and its progress, for the
/// agent it is of, as that of an idle agent by no rule.
pub proof fn fixture_round_trip(
    agent: Option<Seq<char>>,
    title: Seq<char>,
    progress: Option<Progress>,
    lines: Seq<Seq<char>>,
)
    requires
        agent matches Some(id) ==> !id.contains('\n'),
        !title.contains('\n'),
        recordable(lines),
    ensures
        fixture_of(fixture_text(agent, title, progress, joined_lines(lines))) == Some(
            FixtureView {
                agent: match agent {
                    Some(id) => id,
                    None => "unknown"@,
                },
                title,
                progress,
                expect: "idle"@,
                matched: "none"@,
                lines,
            },
        ),
{
    let id = match agent {
        Some(id) => id,
        None => "unknown"@,
    };
    assert(!id.contains('\n')) by {
        reveal_strlit("unknown");
    }
    progress_round_trip(progress);
    let text = fixture_text(agent, title, progress, joined_lines(lines));
    assert(text == fixture_text(Some(id), title, progress, joined_lines(lines)));
    lemma_text(id, title, progress, lines);
    let head = headers(id, title, progress_text(progress));
    let body = lines.push(Seq::empty());
    let parts = head + body;
    lemma_headers(id, title, progress_text(progress));
    assert forall|index: int| 0 <= index < parts.len() implies !(#[trigger] parts[index]).contains(
        '\n',
    ) by {
        if index < head.len() {
            assert(parts[index] == head[index]);
        } else if index < head.len() + lines.len() {
            assert(parts[index] == lines[index - head.len()]);
        }
    }
    split_of_joined(parts, '\n');
    assert(split(text, '\n') == parts);
    assert(parts.skip(5) =~= body);
    lemma_body(lines);
    assert(parts[0] == head[0]);
    assert(parts[1] == head[1]);
    assert(parts[2] == head[2]);
    assert(parts[3] == head[3]);
    assert(parts[4] == head[4]);
}

/// A fixture is read header by header, whatever each of them says, and its screen from the lines
/// behind them.
pub proof fn fixtures_are_read(
    agent: Seq<char>,
    title: Seq<char>,
    progress: Option<Progress>,
    expect: Seq<char>,
    matched: Seq<char>,
    lines: Seq<Seq<char>>,
)
    requires
        !agent.contains('\n'),
        !title.contains('\n'),
        !expect.contains('\n'),
        !matched.contains('\n'),
        recordable(lines),
    ensures
        fixture_of(
            joined(
                seq![
                    "# agent: "@ + agent,
                    "# title: "@ + title,
                    "# progress: "@ + progress_text(progress),
                    "# expect: "@ + expect,
                    "# matched: "@ + matched,
                ] + lines.push(Seq::empty()),
                '\n',
            ),
        ) == Some(FixtureView { agent, title, progress, expect, matched, lines }),
{
    let head = seq![
        "# agent: "@ + agent,
        "# title: "@ + title,
        "# progress: "@ + progress_text(progress),
        "# expect: "@ + expect,
        "# matched: "@ + matched,
    ];
    let body = lines.push(Seq::empty());
    let parts = head + body;
    progress_round_trip(progress);
    lemma_opening("# agent: "@, "agent"@, agent);
    lemma_opening("# title: "@, "title"@, title);
    lemma_opening("# progress: "@, "progress"@, progress_text(progress));
    lemma_opening("# expect: "@, "expect"@, expect);
    lemma_opening("# matched: "@, "matched"@, matched);
    assert forall|index: int| 0 <= index < parts.len() implies !(#[trigger] parts[index]).contains(
        '\n',
    ) by {
        if index < head.len() {
            assert(parts[index] == head[index]);
        } else if index < head.len() + lines.len() {
            assert(parts[index] == lines[index - head.len()]);
        }
    }
    split_of_joined(parts, '\n');
    assert(parts.skip(5) =~= body);
    lemma_body(lines);
    assert(parts[0] == head[0]);
    assert(parts[1] == head[1]);
    assert(parts[2] == head[2]);
    assert(parts[3] == head[3]);
    assert(parts[4] == head[4]);
}

proof fn lemma_opening(start: Seq<char>, key: Seq<char>, value: Seq<char>)
    requires
        start == "# agent: "@ && key == "agent"@ || start == "# title: "@ && key == "title"@ || start
            == "# progress: "@ && key == "progress"@ || start == "# expect: "@ && key == "expect"@
            || start == "# matched: "@ && key == "matched"@,
        !value.contains('\n'),
    ensures
        header_value(start + value, key) == Some(value),
        !(start + value).contains('\n'),
{
    reveal_strlit("# agent: ");
    reveal_strlit("# title: ");
    reveal_strlit("# progress: ");
    reveal_strlit("# expect: ");
    reveal_strlit("# matched: ");
    reveal_strlit("agent");
    reveal_strlit("title");
    reveal_strlit("progress");
    reveal_strlit("expect");
    reveal_strlit("matched");
    reveal_strlit("# ");
    reveal_strlit(": ");
    crate::program_laws::headers_read_back(key, value);
    assert(start =~= "# "@ + key + ": "@);
    assert forall|index: int| 0 <= index < (start + value).len() implies (start + value)[index]
        != '\n' by {
        if index >= start.len() {
            assert((start + value)[index] == value[index - start.len()]);
            assert(value.contains(value[index - start.len()]));
        }
    }
}

/// Whatever is read as a fixture starts with the five header lines, each in its place.
pub proof fn fixtures_start_with_headers(text: Seq<char>)
    requires
        fixture_of(text) is Some,
    ensures
        split(text, '\n').len() >= 6,
        ("# agent:"@).is_prefix_of(split(text, '\n')[0]),
        ("# title:"@).is_prefix_of(split(text, '\n')[1]),
        ("# progress:"@).is_prefix_of(split(text, '\n')[2]),
        ("# expect:"@).is_prefix_of(split(text, '\n')[3]),
        ("# matched:"@).is_prefix_of(split(text, '\n')[4]),
{
    reveal_strlit("# agent:");
    reveal_strlit("# title:");
    reveal_strlit("# progress:");
    reveal_strlit("# expect:");
    reveal_strlit("# matched:");
    reveal_strlit("agent");
    reveal_strlit("title");
    reveal_strlit("progress");
    reveal_strlit("expect");
    reveal_strlit("matched");
    reveal_strlit("# ");
    reveal_strlit(":");
    assert("# "@ + "agent"@ + ":"@ =~= "# agent:"@);
    assert("# "@ + "title"@ + ":"@ =~= "# title:"@);
    assert("# "@ + "progress"@ + ":"@ =~= "# progress:"@);
    assert("# "@ + "expect"@ + ":"@ =~= "# expect:"@);
    assert("# "@ + "matched"@ + ":"@ =~= "# matched:"@);
}

/// Whitespace at the end of a recorded line does not count, nor do blank lines at the end.
pub proof fn recorded_lines_are_trimmed(body: Seq<Seq<char>>, blank: nat)
    requires
        body.len() > 0,
        forall|index: int|
            0 <= index < body.len() ==> (#[trigger] body[index]).len() == 0 || body[index].last()
                != '\r',
        trim_end(body.last()).len() > 0,
    ensures
        ({
            let parts = body + Seq::new(blank + 1, |index: int| Seq::<char>::empty());
            let lines = without_trailing(trimmed_lines(lines_between(parts)));
            &&& lines.len() == body.len()
            &&& forall|index: int|
                0 <= index < body.len() ==> #[trigger] lines[index] == trim_end(body[index])
        }),
{
    let empty = Seq::<char>::empty();
    let parts = body + Seq::new(blank + 1, |index: int| empty);
    let between = lines_between(parts);
    assert(parts.last() == empty);
    assert(between.len() == body.len() + blank);
    let lines = trimmed_lines(between);
    assert forall|index: int| 0 <= index < lines.len() implies #[trigger] lines[index] == if index
        < body.len() {
        trim_end(body[index])
    } else {
        empty
    } by {
        if index < body.len() {
            assert(parts[index] == body[index]);
            assert(between[index] == body[index]);
        } else {
            assert(parts[index] == empty);
            assert(between[index] == empty);
            assert(trim_end(empty) == empty);
        }
    }
    lemma_without_trailing(lines);
    lemma_last_filled(lines);
    let last = body.len() - 1;
    assert(lines[last].len() > 0);
    match last_filled(lines) {
        Some(index) => {
            if index > last {
                assert(lines[index] == empty);
            }
        },
        None => {},
    }
}

/// The rules read the same of a recorded screen as of the screen itself: its lines, its text, its
/// title and its progress.
pub proof fn recorded_screens_are_read_alike(
    agent: Option<Seq<char>>,
    picture: Picture,
    set: RuleSet,
)
    requires
        agent matches Some(id) ==> !id.contains('\n'),
        !picture.title.contains('\n'),
        recordable(picture.lines),
        picture.text == joined_lines(picture.lines),
    ensures
        ({
            let recorded = fixture_of(
                fixture_text(agent, picture.title, picture.progress, picture.text),
            );
            &&& recorded is Some
            &&& fixture_picture(recorded->0) == picture
            &&& verdict_of(set, fixture_picture(recorded->0)) == verdict_of(set, picture)
        }),
{
    fixture_round_trip(agent, picture.title, picture.progress, picture.lines);
    let recorded = fixture_of(fixture_text(agent, picture.title, picture.progress, picture.text));
    assert(fixture_picture(recorded->0) =~= picture);
}

} // verus!
