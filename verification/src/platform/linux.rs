//! Processes as the proc file system shows them.
use crate::callbacks::byte_texts;
use crate::numeral::{codes_of_chars, parse_i32, signed};
use crate::osc::text_view;
use crate::platform::fields::{declared_agent, filled_parts, find_declared, zero_parts};
use crate::platform::{live_group, Pid, Process};
use crate::text::{
    chars_of, from_utf8_lossy, lemma_texts_push, lossy_text, split, split_bytes, string_of, texts,
    words, words_of,
};
use vstd::prelude::*;

verus! {

/// What is read of the status line of a process.
#[derive(Debug, PartialEq, Eq)]
pub struct Stat {
    pub ppid: Pid,
    pub pgrp: Pid,
    pub tpgid: Pid,
    pub comm: String,
}

/// What is read of the status line of a process, in mathematical terms.
#[verifier::ext_equal]
pub struct StatView {
    pub ppid: Pid,
    pub pgrp: Pid,
    pub tpgid: Pid,
    pub comm: Seq<char>,
}

impl View for Stat {
    type V = StatView;

    open spec fn view(&self) -> StatView {
        StatView { ppid: self.ppid, pgrp: self.pgrp, tpgid: self.tpgid, comm: self.comm@ }
    }
}

/// A status, where there is one, in mathematical terms.
pub open spec fn stat_view(stat: Option<Stat>) -> Option<StatView> {
    match stat {
        Some(value) => Some(value@),
        None => None,
    }
}

/// The first place of a character in a text.
pub open spec fn first_place(text: Seq<char>, character: char) -> Option<int>
    decreases text.len(),
{
    if text.len() == 0 {
        None
    } else if first_place(text.drop_last(), character) is Some {
        first_place(text.drop_last(), character)
    } else if text.last() == character {
        Some(text.len() - 1)
    } else {
        None
    }
}

/// The last place of a character in a text.
pub open spec fn last_place(text: Seq<char>, character: char) -> Option<int>
    decreases text.len(),
{
    if text.len() == 0 {
        None
    } else if text.last() == character {
        Some(text.len() - 1)
    } else {
        last_place(text.drop_last(), character)
    }
}

/// The identifier that a word stands for.
pub open spec fn pid_of(word: Seq<char>) -> Option<Pid> {
    match signed(codes_of_chars(word)) {
        Some(number) => if i32::MIN <= number <= i32::MAX {
            Some(number as i32)
        } else {
            None
        },
        None => None,
    }
}

/// What a status line says. The name stands between the first opening and the last closing
/// bracket, so that it may hold brackets and spaces; the numbers follow it.
pub open spec fn stat_of(line: Seq<char>) -> Option<StatView> {
    match (first_place(line, '('), last_place(line, ')')) {
        (Some(open), Some(close)) => {
            if open < close && close + 1 < line.len() && line[close + 1] as u32 <= 0x7f {
                let fields = words(line.skip(close + 2));
                if fields.len() > 5 && pid_of(fields[1]) is Some && pid_of(fields[2]) is Some
                    && pid_of(fields[5]) is Some {
                    Some(
                        StatView {
                            ppid: pid_of(fields[1])->0,
                            pgrp: pid_of(fields[2])->0,
                            tpgid: pid_of(fields[5])->0,
                            comm: line.subrange(open + 1, close),
                        },
                    )
                } else {
                    None
                }
            } else {
                None
            }
        },
        _ => None,
    }
}

/// A place found among the leading characters is the one found among all.
proof fn lemma_first_place(text: Seq<char>, character: char, count: int)
    requires
        0 <= count <= text.len(),
        first_place(text.take(count), character) is Some,
    ensures
        first_place(text, character) == first_place(text.take(count), character),
    decreases text.len() - count,
{
    if count == text.len() {
        assert(text.take(count) =~= text);
    } else {
        assert(text.take(count + 1).drop_last() =~= text.take(count));
        lemma_first_place(text, character, count + 1);
    }
}

fn find_first(text: &[char], character: char) -> (place: Option<usize>)
    ensures
        match place {
            Some(found) => found < text@.len() && first_place(text@, character) == Some(
                found as int,
            ),
            None => first_place(text@, character) is None,
        },
{
    for index in 0..text.len()
        invariant
            first_place(text@.take(index as int), character) is None,
    {
        assert(text@.take(index + 1).drop_last() =~= text@.take(index as int));
        if text[index] == character {
            proof {
                lemma_first_place(text@, character, index + 1);
            }
            return Some(index);
        }
    }
    assert(text@.take(text@.len() as int) =~= text@);
    None
}

fn find_last(text: &[char], character: char) -> (place: Option<usize>)
    ensures
        match place {
            Some(found) => found < text@.len() && last_place(text@, character) == Some(
                found as int,
            ),
            None => last_place(text@, character) is None,
        },
{
    let mut count: usize = text.len();
    assert(text@.take(count as int) =~= text@);
    while count > 0
        invariant
            count <= text@.len(),
            last_place(text@, character) == last_place(text@.take(count as int), character),
        decreases count,
    {
        assert(text@.take(count as int).drop_last() =~= text@.take(count - 1));
        if text[count - 1] == character {
            return Some(count - 1);
        }
        count = count - 1;
    }
    None
}

/// Reads a status line.
pub fn parse_stat(line: &str) -> (stat: Option<Stat>)
    ensures
        stat_view(stat) == stat_of(line@),
{
    let chars = chars_of(line);
    let text = chars.as_slice();
    let (open, close) = match (find_first(text, '('), find_last(text, ')')) {
        (Some(open), Some(close)) => (open, close),
        _ => {
            return None;
        },
    };
    if open >= close || close >= text.len() - 1 || text[close + 1] as u32 > 0x7f {
        return None;
    }
    let rest = &text[close + 2..text.len()];
    assert(rest@ =~= line@.skip(close + 2));
    let fields = words_of(rest);
    if fields.len() <= 5 {
        return None;
    }
    assert(fields@[1]@ == words(rest@)[1]);
    assert(fields@[2]@ == words(rest@)[2]);
    assert(fields@[5]@ == words(rest@)[5]);
    match (parse_i32(fields[1]), parse_i32(fields[2]), parse_i32(fields[5])) {
        (Some(ppid), Some(pgrp), Some(tpgid)) => Some(
            Stat { ppid, pgrp, tpgid, comm: string_of(&text[open + 1..close]) },
        ),
        _ => None,
    }
}

/// The identifiers among the words of a list of children.
pub open spec fn children_of(list: Seq<Seq<char>>) -> Seq<Pid>
    decreases list.len(),
{
    if list.len() == 0 {
        Seq::empty()
    } else {
        match pid_of(list.last()) {
            Some(pid) => children_of(list.drop_last()).push(pid),
            None => children_of(list.drop_last()),
        }
    }
}

/// Reads a list of children.
pub fn parse_children(list: &str) -> (children: Vec<Pid>)
    ensures
        children@ == children_of(words(list@)),
{
    let chars = chars_of(list);
    let found = words_of(chars.as_slice());
    let ghost all = words(list@);
    let mut children: Vec<Pid> = Vec::new();
    for index in 0..found.len()
        invariant
            found@.len() == all.len(),
            forall|word: int| 0 <= word < found@.len() ==> (#[trigger] found@[word])@ == all[word],
            children@ == children_of(all.take(index as int)),
    {
        assert(all.take(index + 1).drop_last() =~= all.take(index as int));
        assert(found@[index as int]@ == all[index as int]);
        match parse_i32(found[index]) {
            Some(pid) => {
                children.push(pid);
            },
            None => {},
        }
    }
    assert(all.take(found@.len() as int) =~= all);
    children
}

/// The arguments that a command line holds, each followed by a zero.
pub open spec fn arguments_of(command_line: Seq<u8>) -> Seq<Seq<char>> {
    let parts = filled_parts(split(command_line, 0));
    Seq::new(parts.len(), |index: int| lossy_text(parts[index]))
}

/// Reads a command line.
pub fn parse_arguments(command_line: &[u8]) -> (arguments: Vec<String>)
    ensures
        texts(arguments@) == arguments_of(command_line@),
{
    let parts = zero_parts(command_line);
    let ghost all = arguments_of(command_line@);
    let ghost views = byte_texts(parts@);
    let mut arguments: Vec<String> = Vec::new();
    for index in 0..parts.len()
        invariant
            all == arguments_of(command_line@),
            views == byte_texts(parts@),
            views == filled_parts(split(command_line@, 0)),
            texts(arguments@) == all.take(index as int),
    {
        assert(views[index as int] == parts@[index as int]@);
        let argument = from_utf8_lossy(parts[index]);
        proof {
            lemma_texts_push(arguments@, argument);
        }
        arguments.push(argument);
        assert(texts(arguments@) =~= all.take(index + 1));
    }
    assert(all.take(parts@.len() as int) =~= all);
    arguments
}

/// The agent that an environment declares, whatever else it holds.
pub fn parse_environment(environment: &[u8]) -> (agent: Option<String>)
    ensures
        text_view(agent) == declared_agent(split(environment@, 0)),
{
    let parts = split_bytes(environment, 0);
    let agent = find_declared(&parts, 0);
    assert(byte_texts(parts@).skip(0) =~= split(environment@, 0));
    agent
}

/// What was read of a process.
pub fn process(pid: Pid, stat: Option<Stat>, command_line: &[u8], environment: &[u8]) -> (found:
    Option<Process>)
    ensures
        found is Some <==> stat is Some,
        found matches Some(process) ==> {
            &&& process.pid == pid
            &&& process.ppid == (stat->0).ppid
            &&& process.comm@ == (stat->0).comm@
            &&& process.argv0 is None
            &&& texts(process.argv@) == arguments_of(command_line@)
            &&& text_view(process.env_agent) == declared_agent(split(environment@, 0))
        },
{
    match stat {
        Some(stat) => Some(
            Process {
                pid,
                ppid: stat.ppid,
                comm: stat.comm,
                argv0: None,
                argv: parse_arguments(command_line),
                env_agent: parse_environment(environment),
            },
        ),
        None => None,
    }
}

/// The foreground group of a terminal: the one that the status of the child names, or else the one
/// that the terminal itself does.
pub fn foreground_pgid(child: Option<&Stat>, terminal: Option<Pid>) -> (pgid: Option<Pid>)
    ensures
        pgid == match live_group(
            match child {
                Some(stat) => Some(stat.tpgid),
                None => None,
            },
        ) {
            Some(group) => Some(group),
            None => live_group(terminal),
        },
{
    match child {
        Some(stat) => if stat.tpgid > 0 {
            return Some(stat.tpgid);
        },
        None => {},
    }
    match terminal {
        Some(group) => if group > 0 {
            Some(group)
        } else {
            None
        },
        None => None,
    }
}

} // verus!
