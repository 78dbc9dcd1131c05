//! Processes and jobs, as the platform reports them.
pub mod fields;
pub mod laws;
pub mod linux;
pub mod macos;
pub mod probe;
pub mod walk;

use crate::terminal::sound_size;
use vstd::prelude::*;

verus! {

/// The identifier of a process or of a process group.
pub type Pid = i32;

/// A process of a job.
#[derive(Clone, Debug, PartialEq, Eq)]
pub struct Process {
    pub pid: Pid,
    pub ppid: Pid,
    /// The name that the kernel keeps.
    pub comm: String,
    /// The first argument, where it shows the title that the process gave itself.
    pub argv0: Option<String>,
    pub argv: Vec<String>,
    /// The agent that the environment of the process declares.
    pub env_agent: Option<String>,
}

/// The processes of a process group.
#[derive(Clone, Debug, PartialEq, Eq)]
pub struct Job {
    pub leader: Pid,
    pub processes: Vec<Process>,
}

/// A process group that is one.
pub open spec fn live_group(group: Option<Pid>) -> Option<Pid> {
    match group {
        Some(pgid) => if pgid > 0 {
            Some(pgid)
        } else {
            None
        },
        None => None,
    }
}

/// The leader of a group, given the process with the identifier of the group and the group that it
/// is in.
pub fn leader(pgid: Pid, process: Option<Process>, pgrp: Option<Pid>) -> (leader: Option<Process>)
    ensures
        leader == if pgrp == Some(pgid) {
            process
        } else {
            None
        },
{
    match pgrp {
        Some(group) => if group == pgid {
            process
        } else {
            None
        },
        None => None,
    }
}

/// The size of a terminal, in cells and in pixels.
#[derive(Clone, Copy, Debug, PartialEq, Eq, Structural)]
pub struct PtySize {
    pub rows: u16,
    pub cols: u16,
    pub pixel_width: u16,
    pub pixel_height: u16,
}

/// A number of cells, which is never none.
pub open spec fn at_least_one(cells: u16) -> u16 {
    if cells == 0 {
        1
    } else {
        cells
    }
}

/// The size to give to a terminal: the reported one with at least one cell, or 24 rows of 80
/// columns where none is reported.
#[must_use]
pub fn winsize(reported: Option<PtySize>) -> (size: PtySize)
    ensures
        size == match reported {
            Some(found) => PtySize {
                rows: at_least_one(found.rows),
                cols: at_least_one(found.cols),
                ..found
            },
            None => PtySize { rows: 24, cols: 80, pixel_width: 0, pixel_height: 0 },
        },
{
    match reported {
        Some(found) => PtySize {
            rows: if found.rows == 0 {
                1
            } else {
                found.rows
            },
            cols: if found.cols == 0 {
                1
            } else {
                found.cols
            },
            pixel_width: found.pixel_width,
            pixel_height: found.pixel_height,
        },
        None => PtySize { rows: 24, cols: 80, pixel_width: 0, pixel_height: 0 },
    }
}

/// The size at which a terminal is observed: its own, or the nearest that can be observed.
#[must_use]
pub fn model_size(size: PtySize) -> (observed: (u16, u16))
    ensures
        sound_size(observed.0, observed.1),
        sound_size(size.rows, size.cols) ==> observed == (size.rows, size.cols),
        observed.0 == if size.rows < 2 {
            2
        } else {
            size.rows
        },
        observed.1 == if size.cols < 3 {
            3
        } else if size.cols > 65527 {
            65527
        } else {
            size.cols
        },
{
    let rows: u16 = if size.rows < 2 {
        2
    } else {
        size.rows
    };
    let cols: u16 = if size.cols < 3 {
        3
    } else if size.cols > 65527 {
        65527
    } else {
        size.cols
    };
    (rows, cols)
}

} // verus!
