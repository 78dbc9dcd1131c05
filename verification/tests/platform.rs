use zor::osc::AgentId;
use zor::platform::linux::{
    foreground_pgid, parse_arguments, parse_children, parse_environment, parse_stat, process, Stat,
};
use zor::platform::macos;
use zor::platform::probe::{Detection, LossTracker, Scheduler, MISSES};
use zor::platform::walk::JobWalk;
use zor::platform::{leader, model_size, winsize, Pid, Process, PtySize};
use zor::state::Nanos;

const MS: Nanos = 1_000_000;

fn named(pid: Pid) -> Process {
    Process {
        pid,
        ppid: 1,
        comm: "p".to_owned(),
        argv0: None,
        argv: vec![],
        env_agent: None,
    }
}

fn agent(name: &str) -> AgentId {
    AgentId::new(name).expect("valid agent")
}

#[test]
fn status_lines_are_read_past_odd_names() {
    assert_eq!(
        parse_stat("12 (a) b (c)) S 1 22 33 44 55 66"),
        Some(Stat {
            ppid: 1,
            pgrp: 22,
            tpgid: 55,
            comm: "a) b (c)".to_owned()
        })
    );
    assert_eq!(
        parse_stat("12 (sh) S 1 22 33 44 -1\n").map(|stat| stat.tpgid),
        Some(-1)
    );
    for line in [
        "",
        "12 sh S 1 2 3 4 5",
        "12 (sh)",
        "12 (sh) S 1 2 3 4",
        "12 (sh) S x 2 3 4 5",
        "12 )sh( S 1 2 3 4 5",
    ] {
        assert_eq!(parse_stat(line), None);
    }
}

#[test]
fn children_arguments_and_environments_are_read() {
    assert_eq!(parse_children("12 x 34 \n"), [12, 34]);
    assert_eq!(parse_children(""), [] as [Pid; 0]);
    assert_eq!(parse_arguments(b"node\0\0a\xffb\0"), ["node", "a\u{fffd}b"]);
    assert_eq!(
        parse_environment(b"HOME=/\0ZOR_AGENT=codex\0ZOR_AGENT=late\0"),
        Some("codex".to_owned())
    );
    assert_eq!(parse_environment(b"XZOR_AGENT=a\0"), None);
    assert_eq!(parse_environment(b"ZOR_AGENT=\0"), Some(String::new()));
}

#[test]
fn a_process_is_put_together_from_what_was_read() {
    let stat = parse_stat("12 (sh) S 1 22 33 44 55");
    let found = process(12, stat, b"sh\0-l\0", b"ZOR_AGENT=a\0").expect("process");
    assert_eq!(
        found,
        Process {
            pid: 12,
            ppid: 1,
            comm: "sh".to_owned(),
            argv0: None,
            argv: vec!["sh".to_owned(), "-l".to_owned()],
            env_agent: Some("a".to_owned()),
        }
    );
    assert_eq!(process(12, None, b"", b""), None);
}

#[test]
fn the_foreground_group_is_the_childs_or_the_terminals() {
    let stat = |tpgid: Pid| Stat {
        ppid: 1,
        pgrp: 2,
        tpgid,
        comm: "sh".to_owned(),
    };
    assert_eq!(foreground_pgid(Some(&stat(7)), Some(8)), Some(7));
    assert_eq!(foreground_pgid(Some(&stat(0)), Some(8)), Some(8));
    assert_eq!(foreground_pgid(Some(&stat(-1)), Some(-1)), None);
    assert_eq!(foreground_pgid(None, None), None);
    assert_eq!(macos::foreground_pgid(Some(7)), Some(7));
    assert_eq!(macos::foreground_pgid(Some(0)), None);
}

#[test]
fn a_leader_leads_its_own_group() {
    assert_eq!(leader(7, Some(named(7)), Some(7)), Some(named(7)));
    assert_eq!(leader(7, Some(named(7)), Some(8)), None);
    assert_eq!(leader(7, Some(named(7)), None), None);
    assert_eq!(leader(7, None, Some(7)), None);
}

#[test]
fn argument_blocks_are_read() {
    let block = b"\x02\0\0\0/bin/node\0\0\0node\0a.js\0HOME=/\0ZOR_AGENT=codex\0";
    let found = macos::arguments(block, 2).expect("arguments");
    assert_eq!(found.argv0, Some("node".to_owned()));
    assert_eq!(found.argv, ["node", "a.js"]);
    assert_eq!(found.env_agent, Some("codex".to_owned()));
    let none = macos::arguments(block, -1).expect("arguments");
    assert_eq!(none.argv0, None);
    assert!(none.argv.is_empty());
    assert_eq!(macos::arguments(block, 9), None);
    assert_eq!(macos::arguments(b"\0\0", 0), None);
    assert_eq!(macos::arguments(b"\0\0\0\0", 0), None);
}

#[test]
fn unreadable_arguments_are_stood_for_by_the_name() {
    let found = macos::process(5, 1, "tool".to_owned(), None);
    assert_eq!(found.argv0, Some("tool".to_owned()));
    assert_eq!(found.argv, ["tool"]);
    assert_eq!(found.env_agent, None);
    let listed = macos::job(7, vec![(named(1), 7), (named(2), 8), (named(3), 7)]);
    assert_eq!(listed.leader, 7);
    assert_eq!(listed.processes, [named(1), named(3)]);
}

#[test]
fn a_walk_visits_every_process_once_and_lists_members() {
    let mut walk = JobWalk::new(1, 5);
    assert_eq!(walk.next(), Some(1));
    walk.visit(Some(1), Some(named(1)), &[5, 6]);
    assert_eq!(walk.next(), Some(5));
    walk.visit(Some(5), Some(named(5)), &[1, 7]);
    assert_eq!(walk.next(), Some(6));
    walk.visit(Some(5), None, &[]);
    assert_eq!(walk.next(), Some(7));
    walk.visit(Some(5), Some(named(7)), &[6]);
    assert_eq!(walk.next(), None);
    let job = walk.finish();
    assert_eq!(job.leader, 5);
    assert_eq!(job.processes, [named(5), named(7)]);
}

#[test]
fn sizes_have_cells_and_models_have_room() {
    let size = |rows: u16, cols: u16| PtySize {
        rows,
        cols,
        pixel_width: 3,
        pixel_height: 4,
    };
    assert_eq!(winsize(Some(size(0, 0))), size(1, 1));
    assert_eq!(winsize(Some(size(40, 120))), size(40, 120));
    assert_eq!(
        winsize(None),
        PtySize {
            rows: 24,
            cols: 80,
            pixel_width: 0,
            pixel_height: 0
        }
    );
    assert_eq!(model_size(size(40, 120)), (40, 120));
    assert_eq!(model_size(size(1, 1)), (2, 3));
    assert_eq!(model_size(size(u16::MAX, u16::MAX)), (u16::MAX, 65527));
}

#[test]
fn looks_follow_the_documented_cadence() {
    let mut scheduler = Scheduler::new(0);
    assert!(scheduler.due(0));
    assert!(scheduler.completed(0, false, false, false));
    assert!(!scheduler.due(499 * MS));
    assert!(scheduler.due(500 * MS));
    assert!(!scheduler.completed(500 * MS, false, false, false));
    scheduler.completed(1_000 * MS, true, false, false);
    assert!(!scheduler.due(1_299 * MS));
    assert!(scheduler.due(1_300 * MS));
    scheduler.completed(1_300 * MS, true, true, false);
    assert!(scheduler.due(1_400 * MS));
}

#[test]
fn known_agents_are_listed_every_five_seconds() {
    let mut scheduler = Scheduler::new(0);
    assert!(scheduler.completed(0, true, false, true));
    assert!(!scheduler.completed(4_999 * MS, true, false, false));
    assert!(scheduler.completed(5_000 * MS, true, false, false));
    assert!(scheduler.completed(5_300 * MS, true, false, true));
}

#[test]
fn the_next_agent_is_looked_for_eagerly_and_not_for_ever() {
    let mut scheduler = Scheduler::new(0);
    scheduler.completed(0, false, false, false);
    scheduler.screen_changed_without_agent(100 * MS);
    assert!(scheduler.due(100 * MS));
    assert!(scheduler.completed(100 * MS, false, false, false));
    assert!(scheduler.completed(600 * MS, false, false, false));
    assert!(scheduler.completed(1_100 * MS, false, false, false));
    assert!(!scheduler.completed(1_600 * MS, false, false, false));
    assert!(!scheduler.completed(3_000 * MS, false, false, false));
    assert!(scheduler.completed(3_100 * MS, false, false, false));
    assert!(!scheduler.completed(8_100 * MS, false, false, false));
}

#[test]
fn a_known_agent_does_not_end_the_window() {
    let mut scheduler = Scheduler::new(0);
    scheduler.screen_changed_without_agent(0);
    assert!(scheduler.due(0));
    assert!(scheduler.completed(0, false, false, false));
    assert!(scheduler.completed(1_000 * MS, true, false, false));
    assert!(!scheduler.completed(2_900 * MS, true, false, false));
    assert!(scheduler.completed(3_000 * MS, true, false, false));
    assert!(scheduler.completed(7_999 * MS, true, false, false));
    assert!(!scheduler.completed(12_998 * MS, true, false, false));
    assert!(scheduler.completed(12_999 * MS, true, false, false));
}

#[test]
fn a_foreign_job_is_missed_six_times() {
    let mut tracker = LossTracker::new();
    assert_eq!(tracker.update(None, true), None);
    assert_eq!(
        tracker.update(Some((agent("a"), 7)), false),
        Some(Detection::AgentFound {
            id: agent("a"),
            pid: 7
        })
    );
    assert_eq!(tracker.update(Some((agent("a"), 7)), true), None);
    for _ in 1..MISSES {
        assert_eq!(tracker.update(None, false), None);
    }
    assert_eq!(tracker.update(None, false), Some(Detection::AgentLost));
    assert_eq!(tracker.update(None, false), None);
}

#[test]
fn a_sighting_in_between_starts_the_count_anew() {
    let mut tracker = LossTracker::new();
    tracker.update(Some((agent("a"), 7)), false);
    for _ in 0..3 {
        for _ in 1..MISSES {
            assert_eq!(tracker.update(None, false), None);
        }
        assert_eq!(tracker.update(Some((agent("a"), 7)), false), None);
    }
}

#[test]
fn the_shell_in_the_foreground_ends_the_agent() {
    let mut tracker = LossTracker::new();
    tracker.update(Some((agent("a"), 7)), false);
    assert_eq!(
        tracker.update(None, true),
        Some(Detection::Exited { agent: agent("a") })
    );
    assert_eq!(tracker.update(None, true), Some(Detection::AgentLost));
    tracker.update(Some((agent("a"), 7)), false);
    assert_eq!(
        tracker.update(Some((agent("a"), 8)), false),
        Some(Detection::AgentFound {
            id: agent("a"),
            pid: 8
        })
    );
}
