//! Processes as the kernel of macOS describes them.
use crate::callbacks::byte_texts;
use crate::osc::text_view;
use crate::platform::fields::{declared_agent, filled_parts, find_declared, zero_parts};
use crate::platform::{live_group, Job, Pid, Process};
use crate::text::{from_utf8_lossy, lemma_texts_push, lossy_text, split, texts};
use vstd::prelude::*;

verus! {

/// The arguments of a process: the title that it gave itself, all of them, and the agent that its
/// environment declares.
#[derive(Debug, PartialEq, Eq)]
pub struct Arguments {
    pub argv0: Option<String>,
    pub argv: Vec<String>,
    pub env_agent: Option<String>,
}

/// The arguments of a process in mathematical terms.
#[verifier::ext_equal]
pub struct ArgumentsView {
    pub argv0: Option<Seq<char>>,
    pub argv: Seq<Seq<char>>,
    pub env_agent: Option<Seq<char>>,
}

impl View for Arguments {
    type V = ArgumentsView;

    open spec fn view(&self) -> ArgumentsView {
        ArgumentsView {
            argv0: text_view(self.argv0),
            argv: texts(self.argv@),
            env_agent: text_view(self.env_agent),
        }
    }
}

/// The arguments, where there are any, in mathematical terms.
pub open spec fn arguments_view(arguments: Option<Arguments>) -> Option<ArgumentsView> {
    match arguments {
        Some(value) => Some(value@),
        None => None,
    }
}

/// How many arguments there are.
pub open spec fn argument_count(argc: i32) -> nat {
    if argc > 0 {
        argc as nat
    } else {
        0
    }
}

/// What an argument block holds behind its count: the executable, the arguments, and the
/// environment, all ended by zeros.
pub open spec fn block_arguments(block: Seq<u8>, argc: i32) -> Option<ArgumentsView> {
    if block.len() < 4 {
        None
    } else {
        let fields = filled_parts(split(block.skip(4), 0));
        let count = argument_count(argc);
        if fields.len() < 1 + count {
            None
        } else {
            let argv = Seq::new(count, |index: int| lossy_text(fields[index + 1]));
            Some(
                ArgumentsView {
                    argv0: if count > 0 {
                        Some(argv[0])
                    } else {
                        None
                    },
                    argv,
                    env_agent: declared_agent(fields.skip(1 + count as int)),
                },
            )
        }
    }
}

/// Reads an argument block, given the count that its first four bytes hold.
pub fn arguments(block: &[u8], argc: i32) -> (found: Option<Arguments>)
    ensures
        arguments_view(found) == block_arguments(block@, argc),
{
    if block.len() < 4 {
        return None;
    }
    let rest = &block[4..block.len()];
    assert(rest@ =~= block@.skip(4));
    let fields = zero_parts(rest);
    let ghost views = byte_texts(fields@);
    let count: usize = if argc > 0 {
        argc as usize
    } else {
        0
    };
    if fields.len() == 0 || fields.len() - 1 < count {
        return None;
    }
    let ghost wanted = Seq::new(count as nat, |index: int| lossy_text(views[index + 1]));
    let mut argv: Vec<String> = Vec::new();
    for index in 0..count
        invariant
            count < fields@.len(),
            views == byte_texts(fields@),
            wanted == Seq::new(count as nat, |index: int| lossy_text(views[index + 1])),
            texts(argv@) == wanted.take(index as int),
    {
        assert(views[index + 1] == fields@[index + 1]@);
        let argument = from_utf8_lossy(fields[index + 1]);
        proof {
            lemma_texts_push(argv@, argument);
        }
        argv.push(argument);
        assert(texts(argv@) =~= wanted.take(index + 1));
    }
    assert(wanted.take(count as int) =~= wanted);
    let argv0 = if count > 0 {
        assert(texts(argv@)[0] == argv@[0]@);
        Some(argv[0].clone())
    } else {
        None
    };
    let env_agent = find_declared(&fields, count + 1);
    Some(Arguments { argv0, argv, env_agent })
}

/// What was read of a process. Where its arguments cannot be had, its name stands for them.
pub fn process(pid: Pid, ppid: Pid, comm: String, arguments: Option<Arguments>) -> (process: Process)
    ensures
        process.pid == pid,
        process.ppid == ppid,
        process.comm@ == comm@,
        ({
            let known = match arguments_view(arguments) {
                Some(found) => found,
                None => ArgumentsView { argv0: Some(comm@), argv: seq![comm@], env_agent: None },
            };
            &&& text_view(process.argv0) == known.argv0
            &&& texts(process.argv@) == known.argv
            &&& text_view(process.env_agent) == known.env_agent
        }),
{
    match arguments {
        Some(found) => Process {
            pid,
            ppid,
            comm,
            argv0: found.argv0,
            argv: found.argv,
            env_agent: found.env_agent,
        },
        None => {
            let argv: Vec<String> = vec![comm.clone()];
            assert(texts(argv@) =~= seq![comm@]);
            Process { pid, ppid, argv0: Some(comm.clone()), argv, env_agent: None, comm }
        },
    }
}

/// The foreground group that the kernel names for the child.
pub fn foreground_pgid(terminal_group: Option<Pid>) -> (pgid: Option<Pid>)
    ensures
        pgid == live_group(terminal_group),
{
    match terminal_group {
        Some(group) => if group > 0 {
            Some(group)
        } else {
            None
        },
        None => None,
    }
}

/// The processes that are in a group, by the group that each is in.
pub open spec fn members(found: Seq<(Process, Pid)>, pgid: Pid) -> Seq<Process>
    decreases found.len(),
{
    if found.len() == 0 {
        Seq::empty()
    } else if found.last().1 == pgid {
        members(found.drop_last(), pgid).push(found.last().0)
    } else {
        members(found.drop_last(), pgid)
    }
}

/// The job of a group, given processes and the group that each is in.
pub fn job(pgid: Pid, found: Vec<(Process, Pid)>) -> (job: Job)
    ensures
        job.leader == pgid,
        job.processes@ == members(found@, pgid),
{
    let mut processes: Vec<Process> = Vec::new();
    let ghost all = found@;
    for entry in it: found
        invariant
            it.seq() == all,
            processes@ == members(all.take(it.index() as int), pgid),
    {
        assert(all.take(it.index() + 1).drop_last() =~= all.take(it.index() as int));
        let (process, group) = entry;
        if group == pgid {
            processes.push(process);
        }
    }
    assert(all.take(all.len() as int) =~= all);
    Job { leader: pgid, processes }
}

} // verus!
