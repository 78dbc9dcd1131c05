//! The walk through the processes below a terminal, breadth first.
use crate::platform::{Job, Pid, Process};
use std::collections::VecDeque;
use vstd::prelude::*;

verus! {

/// A walk in mathematical terms: the group that is looked for, the processes yet to be visited,
/// those that were, and those that belong to the group.
#[verifier::ext_equal]
pub struct WalkView {
    pub pgid: Pid,
    pub queue: Seq<Pid>,
    pub seen: Seq<Pid>,
    pub processes: Seq<Process>,
}

/// The first of the processes that was not visited, and what follows it.
pub open spec fn next_unseen(queue: Seq<Pid>, seen: Seq<Pid>) -> (Option<Pid>, Seq<Pid>)
    decreases queue.len(),
{
    if queue.len() == 0 {
        (None, queue)
    } else if seen.contains(queue[0]) {
        next_unseen(queue.skip(1), seen)
    } else {
        (Some(queue[0]), queue.skip(1))
    }
}

impl WalkView {
    /// No process was visited twice.
    pub open spec fn consistent(self) -> bool {
        forall|left: int, right: int|
            0 <= left < right < self.seen.len() ==> #[trigger] self.seen[left]
                != #[trigger] self.seen[right]
    }

    /// The walk after it has moved on.
    pub open spec fn advanced(self) -> WalkView {
        let (pid, queue) = next_unseen(self.queue, self.seen);
        WalkView {
            queue,
            seen: match pid {
                Some(value) => self.seen.push(value),
                None => self.seen,
            },
            ..self
        }
    }

    /// The walk after what was found at a process.
    pub open spec fn visited(
        self,
        pgrp: Option<Pid>,
        process: Option<Process>,
        children: Seq<Pid>,
    ) -> WalkView {
        WalkView {
            queue: self.queue + children,
            processes: if pgrp == Some(self.pgid) && process is Some {
                self.processes.push(process->0)
            } else {
                self.processes
            },
            ..self
        }
    }
}

/// A walk through the processes below a child and below the leader of a group.
pub struct JobWalk {
    pgid: Pid,
    queue: VecDeque<Pid>,
    seen: Vec<Pid>,
    processes: Vec<Process>,
}

impl View for JobWalk {
    type V = WalkView;

    closed spec fn view(&self) -> WalkView {
        WalkView {
            pgid: self.pgid,
            queue: self.queue@,
            seen: self.seen@,
            processes: self.processes@,
        }
    }
}

impl JobWalk {
    /// A walk that has the child and the leader of the group before it.
    pub fn new(child: Pid, pgid: Pid) -> (walk: Self)
        ensures
            walk@ == (WalkView {
                pgid,
                queue: seq![child, pgid],
                seen: Seq::empty(),
                processes: Seq::empty(),
            }),
            walk@.consistent(),
    {
        let mut queue: VecDeque<Pid> = VecDeque::new();
        queue.push_back(child);
        queue.push_back(pgid);
        assert(queue@ =~= seq![child, pgid]);
        JobWalk { pgid, queue, seen: Vec::new(), processes: Vec::new() }
    }

    fn was_seen(&self, pid: Pid) -> (seen: bool)
        ensures
            seen == self@.seen.contains(pid),
    {
        for index in 0..self.seen.len()
            invariant
                forall|earlier: int| 0 <= earlier < index ==> self.seen@[earlier] != pid,
        {
            if self.seen[index] == pid {
                assert(self.seen@[index as int] == pid);
                return true;
            }
        }
        false
    }

    /// The next process to visit.
    pub fn next(&mut self) -> (pid: Option<Pid>)
        ensures
            final(self)@ == old(self)@.advanced(),
            pid == next_unseen(old(self)@.queue, old(self)@.seen).0,
    {
        let ghost start = self@;
        loop
            invariant
                start == old(self)@,
                self@ == (WalkView { queue: self.queue@, ..start }),
                next_unseen(start.queue, start.seen) == next_unseen(self.queue@, start.seen),
            decreases self.queue@.len(),
        {
            let ghost before = self.queue@;
            match self.queue.pop_front() {
                Some(pid) => {
                    assert(self.queue@ =~= before.skip(1));
                    if !self.was_seen(pid) {
                        self.seen.push(pid);
                        return Some(pid);
                    }
                },
                None => {
                    return None;
                },
            }
        }
    }

    /// Takes note of what was found at the process that was to be visited: its group, what is
    /// known of it, and its children.
    pub fn visit(&mut self, pgrp: Option<Pid>, process: Option<Process>, children: &[Pid])
        ensures
            final(self)@ == old(self)@.visited(pgrp, process, children@),
    {
        let ghost start = self@;
        for index in 0..children.len()
            invariant
                self@ == (WalkView {
                    queue: start.queue + children@.take(index as int),
                    ..start
                }),
        {
            self.queue.push_back(children[index]);
            assert(self.queue@ =~= start.queue + children@.take(index + 1));
        }
        assert(children@.take(children@.len() as int) =~= children@);
        let member = match pgrp {
            Some(group) => group == self.pgid,
            None => false,
        };
        if member {
            match process {
                Some(found) => {
                    self.processes.push(found);
                },
                None => {},
            }
        }
    }

    /// The job that was found.
    pub fn finish(self) -> (job: Job)
        ensures
            job.leader == self@.pgid,
            job.processes@ == self@.processes,
    {
        Job { leader: self.pgid, processes: self.processes }
    }
}

/// However a walk goes on, it visits no process twice.
pub proof fn walks_visit_once(
    walk: WalkView,
    pgrp: Option<Pid>,
    process: Option<Process>,
    children: Seq<Pid>,
)
    requires
        walk.consistent(),
    ensures
        walk.advanced().consistent(),
        walk.visited(pgrp, process, children).consistent(),
        next_unseen(walk.queue, walk.seen).0 matches Some(pid) ==> !walk.seen.contains(pid),
{
    lemma_next_is_new(walk.queue, walk.seen);
    match next_unseen(walk.queue, walk.seen).0 {
        Some(pid) => {
            assert forall|left: int, right: int| 0 <= left < right < walk.seen.push(pid).len() implies #[trigger] walk.seen.push(
                pid,
            )[left] != #[trigger] walk.seen.push(pid)[right] by {
                if right == walk.seen.len() {
                    assert(walk.seen.contains(walk.seen[left]));
                }
            }
        },
        None => {},
    }
}

proof fn lemma_next_is_new(queue: Seq<Pid>, seen: Seq<Pid>)
    ensures
        next_unseen(queue, seen).0 matches Some(pid) ==> !seen.contains(pid) && queue.contains(pid),
        next_unseen(queue, seen).0 is None ==> forall|index: int|
            0 <= index < queue.len() ==> seen.contains(#[trigger] queue[index]),
    decreases queue.len(),
{
    if queue.len() > 0 && seen.contains(queue[0]) {
        let rest = queue.skip(1);
        lemma_next_is_new(rest, seen);
        match next_unseen(queue, seen).0 {
            Some(pid) => {
                let at = choose|at: int| 0 <= at < rest.len() && rest[at] == pid;
                assert(queue[at + 1] == pid);
            },
            None => {
                assert forall|index: int| 0 <= index < queue.len() implies seen.contains(
                    #[trigger] queue[index],
                ) by {
                    if index > 0 {
                        assert(rest[index - 1] == queue[index]);
                    }
                }
            },
        }
    } else if queue.len() > 0 {
        assert(queue[0] == queue[0]);
    }
}

/// A walk ends only when every process that it has heard of was visited.
pub proof fn walks_leave_nothing_out(walk: WalkView)
    requires
        next_unseen(walk.queue, walk.seen).0 is None,
    ensures
        forall|index: int|
            0 <= index < walk.queue.len() ==> walk.seen.contains(#[trigger] walk.queue[index]),
{
    lemma_next_is_new(walk.queue, walk.seen);
}

/// A process is listed only if it is in the group that is looked for.
pub proof fn walks_list_members_only(
    walk: WalkView,
    pgrp: Option<Pid>,
    process: Option<Process>,
    children: Seq<Pid>,
)
    requires
        pgrp != Some(walk.pgid),
    ensures
        walk.visited(pgrp, process, children).processes == walk.processes,
{
}

} // verus!
