//! What is read of processes, line by line and byte by byte.
use crate::numeral::{
    all_digits, codes_of_chars, decimal, decimal_chars, decimal_round_trip, signed, unsigned,
};
use crate::platform::fields::{agent_key, declared_agent, filled_parts};
use crate::platform::linux::{
    arguments_of, children_of, first_place, last_place, pid_of, stat_of, StatView,
};
use crate::platform::macos::{block_arguments, members, ArgumentsView};
use crate::platform::walk::{next_unseen, WalkView};
use crate::platform::{live_group, Pid, Process};
use crate::text::{lemma_split_nonempty, lossy_text, split, whitespace, words};
use crate::text_laws::{unspaced, unspaced_texts_are_words, whitespace_parts_words};
use vstd::prelude::*;
use vstd::utf8::is_ascii_chars_encode_utf8;

verus! {

proof fn lemma_codes(value: nat)
    ensures
        codes_of_chars(decimal_chars(value)) == decimal(value),
        decimal_chars(value).len() > 0,
        forall|index: int|
            0 <= index < decimal_chars(value).len() ==> '0' <= #[trigger] decimal_chars(value)[index]
                <= '9',
{
    decimal_round_trip(value);
    let text = decimal_chars(value);
    assert forall|index: int| 0 <= index < text.len() implies codes_of_chars(text)[index]
        == #[trigger] decimal(value)[index] && '0' <= text[index] <= '9' by {
        assert(0x30 <= decimal(value)[index] <= 0x39);
    }
    assert(codes_of_chars(text) =~= decimal(value));
}

/// A word is the identifier that its digits say, with a minus sign before a negative one, as far as
/// it fits.
pub proof fn identifiers_are_read(value: nat)
    ensures
        pid_of(decimal_chars(value)) == if value <= i32::MAX {
            Some(value as i32)
        } else {
            None
        },
        pid_of(seq!['-'] + decimal_chars(value)) == if value <= 0x8000_0000 {
            Some((-(value as int)) as i32)
        } else {
            None
        },
        pid_of(Seq::<char>::empty()) is None,
{
    lemma_codes(value);
    decimal_round_trip(value);
    let digits = decimal(value);
    assert(0x30 <= digits[0] <= 0x39);
    assert(unsigned(digits) == Some(value));
    let negative = codes_of_chars(seq!['-'] + decimal_chars(value));
    assert(negative[0] == 0x2d);
    assert(negative.drop_first() =~= codes_of_chars(decimal_chars(value)));
    assert(signed(negative) == Some(-(value as int)));
    let none = codes_of_chars(Seq::<char>::empty());
    assert(none.len() == 0);
    assert(!all_digits(none));
}

proof fn lemma_first_place(before: Seq<char>, character: char, after: Seq<char>)
    requires
        !before.contains(character),
    ensures
        first_place(before.push(character) + after, character) == Some(before.len() as int),
    decreases after.len(),
{
    let text = before.push(character) + after;
    if after.len() == 0 {
        assert(text =~= before.push(character));
        assert(text.drop_last() =~= before);
        lemma_no_place(before, character);
    } else {
        assert(text.drop_last() =~= before.push(character) + after.drop_last());
        lemma_first_place(before, character, after.drop_last());
    }
}

proof fn lemma_no_place(text: Seq<char>, character: char)
    requires
        !text.contains(character),
    ensures
        first_place(text, character) is None,
    decreases text.len(),
{
    if text.len() > 0 {
        let before = text.drop_last();
        assert forall|index: int| 0 <= index < before.len() implies before[index] != character by {
            assert(text[index] == before[index]);
            assert(text.contains(text[index]));
        }
        assert(text[text.len() - 1] == text.last());
        assert(text.contains(text.last()));
        lemma_no_place(before, character);
    }
}

proof fn lemma_last_place(before: Seq<char>, character: char, after: Seq<char>)
    requires
        !after.contains(character),
    ensures
        last_place(before.push(character) + after, character) == Some(before.len() as int),
    decreases after.len(),
{
    let text = before.push(character) + after;
    if after.len() == 0 {
        assert(text =~= before.push(character));
    } else {
        let fewer = after.drop_last();
        assert forall|index: int| 0 <= index < fewer.len() implies fewer[index] != character by {
            assert(after[index] == fewer[index]);
            assert(after.contains(after[index]));
        }
        assert(after[after.len() - 1] == after.last());
        assert(after.contains(after.last()));
        assert(text.drop_last() =~= before.push(character) + fewer);
        lemma_last_place(before, character, fewer);
    }
}

/// The text is one word.
pub open spec fn word(text: Seq<char>) -> bool {
    text.len() > 0 && unspaced(text)
}

/// Six words with a space between each two, and more behind them.
pub open spec fn six_words(
    first: Seq<char>,
    second: Seq<char>,
    third: Seq<char>,
    fourth: Seq<char>,
    fifth: Seq<char>,
    sixth: Seq<char>,
    rest: Seq<char>,
) -> Seq<char> {
    first.push(' ') + (second.push(' ') + (third.push(' ') + (fourth.push(' ') + (fifth.push(' ') + (
    sixth.push(' ') + rest)))))
}

/// A status line says, behind the name in brackets, the state, the parent, the group, the session,
/// the terminal and the foreground group. The name may hold brackets and spaces itself.
pub proof fn status_lines_are_read(
    before: Seq<char>,
    comm: Seq<char>,
    state: Seq<char>,
    parent: Seq<char>,
    group: Seq<char>,
    session: Seq<char>,
    terminal: Seq<char>,
    foreground: Seq<char>,
    rest: Seq<char>,
)
    requires
        !before.contains('('),
        word(state) && word(parent) && word(group) && word(session) && word(terminal) && word(
            foreground,
        ),
        !six_words(state, parent, group, session, terminal, foreground, rest).contains(')'),
    ensures
        ({
            let line = before.push('(') + comm.push(')') + seq![' '] + six_words(
                state,
                parent,
                group,
                session,
                terminal,
                foreground,
                rest,
            );
            let read = stat_of(line);
            &&& read is Some <==> pid_of(parent) is Some && pid_of(group) is Some && pid_of(
                foreground,
            ) is Some
            &&& read is Some ==> read == Some(
                StatView {
                    ppid: pid_of(parent)->0,
                    pgrp: pid_of(group)->0,
                    tpgid: pid_of(foreground)->0,
                    comm,
                },
            )
        }),
{
    let tail = six_words(state, parent, group, session, terminal, foreground, rest);
    let line = before.push('(') + comm.push(')') + seq![' '] + tail;
    let after = seq![' '] + tail;
    assert forall|index: int| 0 <= index < after.len() implies after[index] != ')' by {
        if index > 0 {
            assert(after[index] == tail[index - 1]);
            assert(tail.contains(tail[index - 1]));
        }
    }
    assert(line =~= before.push('(') + (comm.push(')') + after));
    lemma_first_place(before, '(', comm.push(')') + after);
    assert(line =~= (before.push('(') + comm).push(')') + after);
    lemma_last_place(before.push('(') + comm, ')', after);
    let close = before.len() as int + 1 + comm.len();
    assert(line[close + 1] == ' ');
    assert(line.skip(close + 2) =~= tail);
    assert(line.subrange(before.len() as int + 1, close) =~= comm);
    lemma_six_words(state, parent, group, session, terminal, foreground, rest);
}

proof fn lemma_six_words(
    first: Seq<char>,
    second: Seq<char>,
    third: Seq<char>,
    fourth: Seq<char>,
    fifth: Seq<char>,
    sixth: Seq<char>,
    rest: Seq<char>,
)
    requires
        word(first) && word(second) && word(third) && word(fourth) && word(fifth) && word(sixth),
    ensures
        ({
            let found = words(six_words(first, second, third, fourth, fifth, sixth, rest));
            &&& found.len() >= 6
            &&& found[1] == second
            &&& found[2] == third
            &&& found[5] == sixth
        }),
{
    assert(whitespace(' '));
    let f = sixth.push(' ') + rest;
    let e = fifth.push(' ') + f;
    let d = fourth.push(' ') + e;
    let c = third.push(' ') + d;
    let b = second.push(' ') + c;
    whitespace_parts_words(first, ' ', b);
    whitespace_parts_words(second, ' ', c);
    whitespace_parts_words(third, ' ', d);
    whitespace_parts_words(fourth, ' ', e);
    whitespace_parts_words(fifth, ' ', f);
    whitespace_parts_words(sixth, ' ', rest);
    unspaced_texts_are_words(first);
    unspaced_texts_are_words(second);
    unspaced_texts_are_words(third);
    unspaced_texts_are_words(fourth);
    unspaced_texts_are_words(fifth);
    unspaced_texts_are_words(sixth);
}

/// The children in a list are its words that are identifiers, in their order; other words are
/// passed over.
pub proof fn children_are_read_in_order(
    first: Seq<Seq<char>>,
    second: Seq<Seq<char>>,
    word: Seq<char>,
)
    ensures
        children_of(first + second) == children_of(first) + children_of(second),
        children_of(seq![word]) == match pid_of(word) {
            Some(pid) => seq![pid],
            None => Seq::<Pid>::empty(),
        },
    decreases second.len(),
{
    let one = seq![word];
    assert(one.drop_last() =~= Seq::empty());
    assert(children_of(one.drop_last()) =~= Seq::empty());
    assert(children_of(one) =~= match pid_of(word) {
        Some(pid) => seq![pid],
        None => Seq::<Pid>::empty(),
    });
    if second.len() == 0 {
        assert(first + second =~= first);
        assert(children_of(first) + children_of(second) =~= children_of(first));
    } else {
        let before = second.drop_last();
        assert((first + second).drop_last() =~= first + before);
        children_are_read_in_order(first, before, word);
        assert(children_of(first + second) =~= children_of(first) + children_of(second));
    }
}

/// The parts, each with a zero behind it.
pub open spec fn zero_ended(parts: Seq<Seq<u8>>) -> Seq<u8>
    decreases parts.len(),
{
    if parts.len() == 0 {
        Seq::empty()
    } else {
        zero_ended(parts.drop_last()) + parts.last().push(0)
    }
}

proof fn lemma_zero_ended(parts: Seq<Seq<u8>>)
    requires
        forall|index: int|
            0 <= index < parts.len() ==> !(#[trigger] parts[index]).contains(0) && parts[index].len()
                > 0,
    ensures
        filled_parts(split(zero_ended(parts), 0)) == parts,
        split(zero_ended(parts), 0).last().len() == 0,
        split(zero_ended(parts), 0).len() == parts.len() + 1,
    decreases parts.len(),
{
    let text = zero_ended(parts);
    if parts.len() == 0 {
        let none = Seq::<u8>::empty();
        let all = split(none, 0u8);
        assert(all =~= seq![none]);
        assert(all.drop_last() =~= Seq::empty());
        assert(filled_parts(all.drop_last()) =~= Seq::empty());
        assert(filled_parts(all) =~= parts);
    } else {
        let fewer = parts.drop_last();
        let last = parts.last();
        assert(last == parts[parts.len() - 1]);
        assert forall|index: int| 0 <= index < fewer.len() implies !(
        #[trigger] fewer[index]).contains(0) && fewer[index].len() > 0 by {
            assert(fewer[index] == parts[index]);
        }
        lemma_zero_ended(fewer);
        let before = zero_ended(fewer);
        let all = split(before, 0u8);
        assert(text =~= (before + last).push(0));
        assert(text.drop_last() =~= before + last);
        lemma_split_tail(before, last);
        let longer = split(before + last, 0u8);
        assert(longer == all.drop_last().push(last));
        assert(split(text, 0u8) == longer.push(Seq::empty()));
        assert(split(text, 0u8).drop_last() =~= longer);
        assert(longer.drop_last() =~= all.drop_last());
        assert(filled_parts(all) == filled_parts(all.drop_last()));
        assert(filled_parts(longer) =~= fewer.push(last));
        assert(filled_parts(split(text, 0u8)) =~= parts);
    }
}

proof fn lemma_split_tail(before: Seq<u8>, part: Seq<u8>)
    requires
        !part.contains(0),
        split(before, 0).last().len() == 0,
    ensures
        split(before + part, 0) == split(before, 0).drop_last().push(part),
    decreases part.len(),
{
    lemma_split_nonempty(before, 0u8);
    let all = split(before, 0u8);
    if part.len() == 0 {
        assert(before + part =~= before);
        assert(all.last() =~= part);
        assert(all =~= all.drop_last().push(part));
    } else {
        let fewer = part.drop_last();
        assert forall|index: int| 0 <= index < fewer.len() implies fewer[index] != 0 by {
            assert(part[index] == fewer[index]);
            assert(part.contains(part[index]));
        }
        assert(part[part.len() - 1] == part.last());
        assert(part.contains(part.last()));
        lemma_split_tail(before, fewer);
        assert((before + part).drop_last() =~= before + fewer);
        assert(fewer.push(part.last()) =~= part);
        assert(split(before + part, 0u8) =~= all.drop_last().push(part));
    }
}

/// A command line holds its arguments, each ended by a zero; empty ones do not count.
pub proof fn command_lines_are_read(arguments: Seq<Seq<u8>>)
    requires
        forall|index: int|
            0 <= index < arguments.len() ==> !(#[trigger] arguments[index]).contains(0)
                && arguments[index].len() > 0,
    ensures
        arguments_of(zero_ended(arguments)) == Seq::new(
            arguments.len(),
            |index: int| lossy_text(arguments[index]),
        ),
{
    lemma_zero_ended(arguments);
    assert(arguments_of(zero_ended(arguments)) =~= Seq::new(
        arguments.len(),
        |index: int| lossy_text(arguments[index]),
    ));
}

/// The bytes of `ZOR_AGENT=`.
pub open spec fn declaration() -> Seq<u8> {
    seq![0x5au8, 0x4f, 0x52, 0x5f, 0x41, 0x47, 0x45, 0x4e, 0x54, 0x3d]
}

/// The agent that an environment declares is what stands behind the first `ZOR_AGENT=`; without one
/// it declares none.
pub proof fn the_first_declaration_counts(
    before: Seq<Seq<u8>>,
    name: Seq<u8>,
    after: Seq<Seq<u8>>,
)
    requires
        forall|index: int|
            0 <= index < before.len() ==> !declaration().is_prefix_of(#[trigger] before[index]),
    ensures
        declared_agent(before) is None,
        declared_agent(before.push(declaration() + name) + after) == Some(lossy_text(name)),
    decreases before.len() + after.len(),
{
    reveal_strlit("ZOR_AGENT=");
    is_ascii_chars_encode_utf8("ZOR_AGENT="@);
    assert(agent_key() =~= declaration());
    let parts = before.push(declaration() + name) + after;
    if before.len() > 0 {
        let fewer = before.drop_last();
        assert forall|index: int| 0 <= index < fewer.len() implies !declaration().is_prefix_of(
            #[trigger] fewer[index],
        ) by {
            assert(fewer[index] == before[index]);
        }
        the_first_declaration_counts(fewer, name, Seq::empty());
        assert(!declaration().is_prefix_of(before[before.len() - 1]));
    }
    if after.len() > 0 {
        the_first_declaration_counts(before, name, after.drop_last());
        assert(parts.drop_last() =~= before.push(declaration() + name) + after.drop_last());
    } else {
        assert(parts =~= before.push(declaration() + name));
        assert(parts.drop_last() =~= before);
        let text = declaration() + name;
        assert(parts.last() == text);
        assert(text.subrange(0, declaration().len() as int) =~= declaration());
        assert(text.skip(declaration().len() as int) =~= name);
    }
}

/// An argument block holds the executable, the arguments and the environment, each ended by a zero,
/// behind the four bytes of their number.
pub proof fn argument_blocks_are_read(
    count: Seq<u8>,
    executable: Seq<u8>,
    arguments: Seq<Seq<u8>>,
    environment: Seq<Seq<u8>>,
)
    requires
        count.len() == 4,
        arguments.len() <= i32::MAX,
        forall|index: int|
            0 <= index < (seq![executable] + arguments + environment).len() ==> !(#[trigger] (seq![
                executable,
            ] + arguments + environment)[index]).contains(0) && (seq![executable] + arguments
                + environment)[index].len() > 0,
    ensures
        block_arguments(
            count + zero_ended(seq![executable] + arguments + environment),
            arguments.len() as i32,
        ) == Some(
            ArgumentsView {
                argv0: if arguments.len() > 0 {
                    Some(lossy_text(arguments[0]))
                } else {
                    None
                },
                argv: Seq::new(arguments.len(), |index: int| lossy_text(arguments[index])),
                env_agent: declared_agent(environment),
            },
        ),
{
    let fields = seq![executable] + arguments + environment;
    let block = count + zero_ended(fields);
    assert(block.skip(4) =~= zero_ended(fields));
    lemma_zero_ended(fields);
    assert(fields.skip(1 + arguments.len() as int) =~= environment);
    assert forall|index: int| 0 <= index < arguments.len() implies fields[index + 1]
        == #[trigger] arguments[index] by {}
    let read = block_arguments(block, arguments.len() as i32);
    assert(read->0.argv =~= Seq::new(arguments.len(), |index: int| lossy_text(arguments[index])));
}

/// A job holds the processes of its group, all of them and in their order, and no other.
pub proof fn jobs_hold_their_group(
    first: Seq<(Process, Pid)>,
    second: Seq<(Process, Pid)>,
    process: Process,
    group: Pid,
    pgid: Pid,
)
    ensures
        members(first + second, pgid) == members(first, pgid) + members(second, pgid),
        members(seq![(process, group)], pgid) == if group == pgid {
            seq![process]
        } else {
            Seq::<Process>::empty()
        },
    decreases second.len(),
{
    let one = seq![(process, group)];
    assert(one.drop_last() =~= Seq::empty());
    assert(members(one.drop_last(), pgid) =~= Seq::empty());
    assert(members(one, pgid) =~= if group == pgid {
        seq![process]
    } else {
        Seq::<Process>::empty()
    });
    if second.len() == 0 {
        assert(first + second =~= first);
        assert(members(first, pgid) + members(second, pgid) =~= members(first, pgid));
    } else {
        let before = second.drop_last();
        assert((first + second).drop_last() =~= first + before);
        jobs_hold_their_group(first, before, process, group, pgid);
        assert(members(first + second, pgid) =~= members(first, pgid) + members(second, pgid));
    }
}

/// A walk visits the first process before it that it has not seen, and keeps those behind it in
/// their order.
pub proof fn walks_go_in_order(seen: Seq<Pid>, passed: Seq<Pid>, pid: Pid, rest: Seq<Pid>)
    requires
        forall|index: int| 0 <= index < passed.len() ==> seen.contains(#[trigger] passed[index]),
        !seen.contains(pid),
    ensures
        next_unseen(passed.push(pid) + rest, seen) == (Some(pid), rest),
        next_unseen(passed, seen).0 is None,
    decreases passed.len(),
{
    let queue = passed.push(pid) + rest;
    if passed.len() == 0 {
        assert(queue.skip(1) =~= rest);
    } else {
        let fewer = passed.skip(1);
        assert(queue[0] == passed[0]);
        assert(queue.skip(1) =~= fewer.push(pid) + rest);
        assert forall|index: int| 0 <= index < fewer.len() implies seen.contains(
            #[trigger] fewer[index],
        ) by {
            assert(fewer[index] == passed[index + 1]);
        }
        walks_go_in_order(seen, fewer, pid, rest);
    }
}

/// A visit puts the children of a process behind everything that waits, and lists the process where
/// it is in the group.
pub proof fn visits_go_breadth_first(
    walk: WalkView,
    pgrp: Option<Pid>,
    process: Process,
    children: Seq<Pid>,
)
    ensures
        ({
            let after = walk.visited(pgrp, Some(process), children);
            &&& after.queue == walk.queue + children
            &&& after.seen == walk.seen
            &&& after.pgid == walk.pgid
            &&& after.processes == if pgrp == Some(walk.pgid) {
                walk.processes.push(process)
            } else {
                walk.processes
            }
        }),
        walk.visited(pgrp, None, children).processes == walk.processes,
        walk.visited(pgrp, None, children).queue == walk.queue + children,
{
}

/// A group is one that signals can be passed on to exactly where its identifier is positive.
pub proof fn groups_are_positive(group: Pid)
    ensures
        live_group(Some(group)) == if group > 0 {
            Some(group)
        } else {
            None
        },
        live_group(None) is None,
{
}

/// A walk that goes on remembers whom it visits, and only whom it visits.
pub proof fn visits_are_remembered(walk: WalkView)
    ensures
        ({
            let after = walk.advanced();
            &&& next_unseen(walk.queue, walk.seen).0 matches Some(pid) ==> after.seen
                == walk.seen.push(pid)
            &&& next_unseen(walk.queue, walk.seen).0 is None ==> after.seen == walk.seen
            &&& after.queue == next_unseen(walk.queue, walk.seen).1
            &&& after.processes == walk.processes
            &&& after.pgid == walk.pgid
        }),
{
}

} // verus!
