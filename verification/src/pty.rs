//! The wrapper around a command: its options, its signals and its exit status.
use crate::emit::title::Mode;
use crate::numeral::{codes_of_chars, parse_unsigned, unsigned};
use crate::osc::AgentId;
use crate::platform::live_group;
use crate::rules::schema::RuleSet;
use crate::text::{chars_of, contains_text, lemma_split_nonempty, occurs, split, split_chars};
use vstd::prelude::*;

verus! {

/// How a command is wrapped.
#[derive(Debug)]
pub struct Options {
    pub rule_sets: Vec<RuleSet>,
    /// The agent, where it is not to be looked for.
    pub agent: Option<AgentId>,
    /// No reports are written to the terminal.
    pub no_osc: bool,
    pub title: Mode,
    /// Where records go.
    pub events: Option<String>,
    pub debug: bool,
}

/// The process group that a signal is passed on to: the foreground group, or else the child's.
#[must_use]
pub fn signal_target(foreground_pgid: Option<i32>, child_pgid: Option<i32>) -> (target: Option<i32>)
    ensures
        target == match live_group(foreground_pgid) {
            Some(pgid) => Some(pgid),
            None => live_group(child_pgid),
        },
{
    match foreground_pgid {
        Some(pgid) => if pgid > 0 {
            return Some(pgid);
        },
        None => {},
    }
    match child_pgid {
        Some(pgid) => if pgid > 0 {
            Some(pgid)
        } else {
            None
        },
        None => None,
    }
}

/// A signal that reaches the wrapper.
#[derive(Clone, Copy, Debug, PartialEq, Eq, Structural)]
pub enum Signal {
    /// The terminal has another size.
    Resize,
    /// The screen is to be recorded.
    Fixture,
    /// The job is to be stopped.
    Suspend,
    /// The job is to go on.
    Continue,
    /// Anything else, which is the child's.
    Other,
}

/// What a signal calls for.
#[derive(Clone, Copy, Debug, PartialEq, Eq, Structural)]
pub enum Step {
    /// Pass the size of the terminal on.
    PassSize,
    /// Record the screen.
    Record,
    /// Pass the signal on to a process group.
    Forward(i32),
    /// Give the terminal its old mode back.
    ReleaseTerminal,
    /// Stop.
    Stop,
    /// Put the terminal into raw mode.
    TakeTerminal,
}

/// The signal is passed on, if there is a group to pass it on to.
pub open spec fn forwarding(target: Option<i32>) -> Seq<Step> {
    match target {
        Some(pgid) => seq![Step::Forward(pgid)],
        None => Seq::empty(),
    }
}

/// What a signal calls for, given the group that it would be passed on to and whether the terminal
/// is in raw mode.
pub open spec fn signal_plan(signal: Signal, target: Option<i32>, raw: bool) -> Seq<Step> {
    match signal {
        Signal::Resize => seq![Step::PassSize],
        Signal::Fixture => seq![Step::Record],
        Signal::Suspend => forwarding(target) + seq![
            Step::ReleaseTerminal,
            Step::Stop,
            Step::TakeTerminal,
        ],
        Signal::Continue => (if raw {
            Seq::empty()
        } else {
            seq![Step::TakeTerminal]
        }) + forwarding(target),
        Signal::Other => forwarding(target),
    }
}

/// Plans what a signal calls for.
pub fn signal_steps(signal: Signal, target: Option<i32>, raw: bool) -> (steps: Vec<Step>)
    ensures
        steps@ == signal_plan(signal, target, raw),
{
    let mut steps: Vec<Step> = Vec::new();
    match signal {
        Signal::Resize => {
            steps.push(Step::PassSize);
        },
        Signal::Fixture => {
            steps.push(Step::Record);
        },
        Signal::Suspend => {
            match target {
                Some(pgid) => {
                    steps.push(Step::Forward(pgid));
                },
                None => {},
            }
            steps.push(Step::ReleaseTerminal);
            steps.push(Step::Stop);
            steps.push(Step::TakeTerminal);
        },
        Signal::Continue => {
            if !raw {
                steps.push(Step::TakeTerminal);
            }
            match target {
                Some(pgid) => {
                    steps.push(Step::Forward(pgid));
                },
                None => {},
            }
        },
        Signal::Other => {
            match target {
                Some(pgid) => {
                    steps.push(Step::Forward(pgid));
                },
                None => {},
            }
        },
    }
    assert(steps@ =~= signal_plan(signal, target, raw));
    steps
}

/// The number at the end of a description, where its last word is one.
pub open spec fn last_number(name: Seq<char>) -> Option<u32> {
    match unsigned(codes_of_chars(split(name, ' ').last())) {
        Some(value) => if value <= 127 {
            Some(value as u32)
        } else {
            None
        },
        None => None,
    }
}

/// The number of the signal that has the given description.
pub open spec fn described_signal(name: Seq<char>) -> Option<u32> {
    if occurs(name, "Hangup"@) {
        Some(1)
    } else if occurs(name, "Interrupt"@) {
        Some(2)
    } else if occurs(name, "Quit"@) {
        Some(3)
    } else if occurs(name, "Killed"@) {
        Some(9)
    } else if occurs(name, "Terminated"@) {
        Some(15)
    } else if occurs(name, "Stopped"@) {
        Some(19)
    } else if occurs(name, "Illegal instruction"@) {
        Some(4)
    } else if occurs(name, "Trace/breakpoint trap"@) {
        Some(5)
    } else if occurs(name, "Aborted"@) {
        Some(6)
    } else if occurs(name, "Bus error"@) {
        Some(7)
    } else if occurs(name, "Floating point exception"@) {
        Some(8)
    } else if occurs(name, "User defined signal 1"@) {
        Some(10)
    } else if occurs(name, "Segmentation fault"@) {
        Some(11)
    } else if occurs(name, "User defined signal 2"@) {
        Some(12)
    } else if occurs(name, "Broken pipe"@) {
        Some(13)
    } else if occurs(name, "Alarm clock"@) {
        Some(14)
    } else if occurs(name, "Stack fault"@) {
        Some(16)
    } else if occurs(name, "CPU time limit exceeded"@) {
        Some(24)
    } else if occurs(name, "File size limit exceeded"@) {
        Some(25)
    } else if occurs(name, "Virtual timer expired"@) {
        Some(26)
    } else if occurs(name, "Profiling timer expired"@) {
        Some(27)
    } else if occurs(name, "I/O possible"@) {
        Some(29)
    } else if occurs(name, "Power failure"@) {
        Some(30)
    } else if occurs(name, "Bad system call"@) {
        Some(31)
    } else {
        None
    }
}

/// The number of the signal that a description names. Where the description gives the number
/// itself, behind a colon or in place of a name, it is that; real-time signals are counted from the
/// first of them, which is 34.
pub open spec fn named_signal(name: Seq<char>) -> Option<u32> {
    match last_number(name) {
        Some(number) => if occurs(name, ": "@) || occurs(name, "Signal "@) || occurs(
            name,
            "Unknown signal "@,
        ) {
            Some(number)
        } else if occurs(name, "Real-time signal "@) {
            Some((34 + number) as u32)
        } else {
            described_signal(name)
        },
        None => described_signal(name),
    }
}

fn mentions(name: &[char], label: &str) -> (mentioned: bool)
    ensures
        mentioned == occurs(name@, label@),
{
    let wanted = chars_of(label);
    contains_text(name, wanted.as_slice())
}

fn number_at_end(name: &[char]) -> (number: Option<u32>)
    ensures
        number == last_number(name@),
        number is Some ==> number->0 <= 127,
{
    let parts = split_chars(name, ' ');
    proof {
        lemma_split_nonempty(name@, ' ');
    }
    let last = parts[parts.len() - 1];
    match parse_unsigned(last, 127) {
        Some(value) => Some(value as u32),
        None => None,
    }
}

fn signal_described(text: &[char]) -> (number: Option<u32>)
    ensures
        number == described_signal(text@),
        number is Some ==> number->0 <= 31,
{
    if mentions(text, "Hangup") {
        Some(1)
    } else if mentions(text, "Interrupt") {
        Some(2)
    } else if mentions(text, "Quit") {
        Some(3)
    } else if mentions(text, "Killed") {
        Some(9)
    } else if mentions(text, "Terminated") {
        Some(15)
    } else if mentions(text, "Stopped") {
        Some(19)
    } else if mentions(text, "Illegal instruction") {
        Some(4)
    } else if mentions(text, "Trace/breakpoint trap") {
        Some(5)
    } else if mentions(text, "Aborted") {
        Some(6)
    } else if mentions(text, "Bus error") {
        Some(7)
    } else if mentions(text, "Floating point exception") {
        Some(8)
    } else if mentions(text, "User defined signal 1") {
        Some(10)
    } else if mentions(text, "Segmentation fault") {
        Some(11)
    } else if mentions(text, "User defined signal 2") {
        Some(12)
    } else if mentions(text, "Broken pipe") {
        Some(13)
    } else if mentions(text, "Alarm clock") {
        Some(14)
    } else if mentions(text, "Stack fault") {
        Some(16)
    } else if mentions(text, "CPU time limit exceeded") {
        Some(24)
    } else if mentions(text, "File size limit exceeded") {
        Some(25)
    } else if mentions(text, "Virtual timer expired") {
        Some(26)
    } else if mentions(text, "Profiling timer expired") {
        Some(27)
    } else if mentions(text, "I/O possible") {
        Some(29)
    } else if mentions(text, "Power failure") {
        Some(30)
    } else if mentions(text, "Bad system call") {
        Some(31)
    } else {
        None
    }
}

/// The number of the signal that a description names.
#[must_use]
pub fn signal_number(name: &str) -> (number: Option<u32>)
    ensures
        number == named_signal(name@),
        number is Some ==> number->0 <= 161,
{
    let chars = chars_of(name);
    let text = chars.as_slice();
    match number_at_end(text) {
        Some(number) => if mentions(text, ": ") || mentions(text, "Signal ") || mentions(
            text,
            "Unknown signal ",
        ) {
            Some(number)
        } else if mentions(text, "Real-time signal ") {
            Some(34 + number)
        } else {
            signal_described(text)
        },
        None => signal_described(text),
    }
}

/// The code of a child that was ended by a known signal is 128 and the number of the signal.
pub open spec fn child_code(signal: Option<Seq<char>>, code: u32) -> int {
    match signal {
        Some(name) => match named_signal(name) {
            Some(number) => 128 + number,
            None => code as int,
        },
        None => code as int,
    }
}

/// The code with which a wrapped command has ended, as far as it can be told.
#[must_use]
pub fn exit_code(signal: Option<&str>, code: u32) -> (ended: i32)
    ensures
        ({
            let named = match signal {
                Some(name) => Some(name@),
                None => None,
            };
            let value = child_code(named, code);
            ended == if value <= i32::MAX {
                value
            } else {
                i32::MAX as int
            }
        }),
{
    let number: Option<u32> = match signal {
        Some(name) => signal_number(name),
        None => None,
    };
    let value: u32 = match number {
        Some(number) => 128 + number,
        None => code,
    };
    if value <= 0x7fff_ffff {
        value as i32
    } else {
        i32::MAX
    }
}

/// The status that a code makes: the code itself, or the largest status where it is none.
pub open spec fn status_of(code: int) -> u8 {
    if 0 <= code <= 255 {
        code as u8
    } else {
        255
    }
}

/// The status with which the wrapper ends.
#[must_use]
pub fn exit_status(code: i32) -> (status: u8)
    ensures
        status == status_of(code as int),
{
    if 0 <= code && code <= 255 {
        code as u8
    } else {
        255
    }
}

/// The status of a command that was run without a terminal of its own: its code, or else 128 and
/// the number of the signal that ended it.
#[must_use]
pub fn transparent_status(code: Option<i32>, signal: Option<i32>) -> (status: u8)
    ensures
        status == match code {
            Some(value) => status_of(value as int),
            None => status_of(
                128 + (match signal {
                    Some(number) => number as int,
                    None => 0,
                }),
            ),
        },
{
    match code {
        Some(value) => exit_status(value),
        None => {
            let number: i32 = match signal {
                Some(number) => number,
                None => 0,
            };
            if number > i32::MAX - 128 {
                255
            } else {
                exit_status(128 + number)
            }
        },
    }
}

} // verus!
