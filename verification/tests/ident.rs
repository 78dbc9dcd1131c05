use zor::osc::AgentId;
use zor::platform::{Job, Pid, Process};
use zor::rules::ident::{basename, find_set, identify, normalized, set_lists};
use zor::rules::RuleSet;

fn strings(values: &[&str]) -> Vec<String> {
    values.iter().map(|value| value.to_string()).collect()
}

fn process(pid: Pid, comm: &str, argv: &[&str]) -> Process {
    Process {
        pid,
        ppid: 1,
        comm: comm.to_owned(),
        argv0: None,
        argv: strings(argv),
        env_agent: None,
    }
}

fn set(id: &str, names: &[&str]) -> RuleSet {
    RuleSet {
        id: id.to_owned(),
        aliases: vec![],
        process_names: strings(names),
        prompt_marker: None,
        block_markers: vec![],
        rules: vec![],
    }
}

fn found(id: &str, pid: Pid) -> Option<(AgentId, Pid)> {
    Some((AgentId::new(id).expect("valid agent"), pid))
}

fn job(leader: Pid, processes: Vec<Process>) -> Job {
    Job { leader, processes }
}

fn seen(process: &Process) -> Option<(String, u8)> {
    normalized(process).map(|traits| (traits.name, traits.score))
}

#[test]
fn names_are_unquoted_and_stripped() {
    for (path, name) in [
        ("codex", "codex"),
        ("/usr/bin/codex", "codex"),
        ("'/opt/x/tool.mjs'", "tool"),
        ("\"a/b.py\"", "b"),
        ("a/b.cjs", "b"),
        ("a/b.js/", "b"),
        ("a/./", "a"),
        ("..", ".."),
        ("a.sh", "a.sh"),
    ] {
        assert_eq!(basename(path), name);
    }
}

#[test]
fn direct_programs_score_two_and_titles_three() {
    assert_eq!(seen(&process(1, "codex", &["codex"])), Some(("codex".to_owned(), 2)));
    let mut titled = process(1, "node", &["node", "x.js"]);
    titled.argv0 = Some("codex".to_owned());
    assert_eq!(seen(&titled), Some(("codex".to_owned(), 3)));
    assert_eq!(seen(&process(1, "tmux", &["tmux"])), None);
}

#[test]
fn runtimes_are_recognised_by_their_script() {
    let script = |argv: &[&str]| seen(&process(1, argv[0], argv));
    assert_eq!(script(&["node", "/opt/codex.js", "x"]), Some(("codex".to_owned(), 3)));
    assert_eq!(
        script(&["node", "--require", "hook", "--loader=x", "-v", "a/codex.mjs"]),
        Some(("codex".to_owned(), 3))
    );
    assert_eq!(script(&["python3", "-W", "ignore", "--", "agent.py"]), Some(("agent".to_owned(), 3)));
    assert_eq!(script(&["bash"]), Some(("bash".to_owned(), 1)));
    for argv in [
        ["sh", "-c", "codex"],
        ["python", "-m", "codex"],
        ["python", "-c", "codex"],
        ["node", "-e", "codex"],
        ["bun", "--eval", "codex"],
        ["node", "-p", "codex"],
        ["node", "--print", "codex"],
    ] {
        assert_eq!(script(&argv), None);
    }
    assert_eq!(script(&["node", "-c", "codex"]), Some(("codex".to_owned(), 3)));
}

#[test]
fn a_declaration_beats_names() {
    let sets = [set("codex", &["codex"]), set("fork", &["fork"])];
    let mut declared = process(5, "mystery", &["mystery"]);
    declared.env_agent = Some("fork".to_owned());
    let listed = job(4, vec![process(4, "codex", &["codex"]), declared]);
    assert_eq!(identify(&listed, &sets, &[]), found("fork", 5));
    let mut unknown = process(5, "codex", &["codex"]);
    unknown.env_agent = Some("nobody".to_owned());
    assert_eq!(identify(&job(5, vec![unknown]), &sets, &[]), found("codex", 5));
}

#[test]
fn the_leader_wins_then_the_score_then_the_first() {
    let sets = [set("a", &["a"]), set("b", &["b"])];
    let direct = process(1, "a", &["a"]);
    let scripted = process(2, "node", &["node", "b.js"]);
    assert_eq!(
        identify(&job(1, vec![scripted.clone(), direct.clone()]), &sets, &[]),
        found("a", 1)
    );
    assert_eq!(
        identify(&job(9, vec![direct.clone(), scripted.clone()]), &sets, &[]),
        found("b", 2)
    );
    let twin = process(3, "a", &["a"]);
    assert_eq!(identify(&job(9, vec![twin, direct]), &sets, &[]), found("a", 3));
}

#[test]
fn the_file_behind_a_path_is_tried_last() {
    let sets = [set("codex", &["codex"])];
    let linked = job(1, vec![process(1, "cc", &["cc"])]);
    assert_eq!(identify(&linked, &sets, &[None]), None);
    assert_eq!(
        identify(&linked, &sets, &[Some("/opt/codex.js".to_owned())]),
        found("codex", 1)
    );
}

#[test]
fn a_job_without_an_agent_has_none() {
    let sets = [set("codex", &["codex"])];
    assert_eq!(identify(&job(1, vec![]), &sets, &[]), None);
    assert_eq!(identify(&job(1, vec![process(1, "vi", &["vi"])]), &sets, &[]), None);
    assert_eq!(identify(&job(1, vec![process(1, "codex", &[])]), &[], &[]), None);
    let invalid = [set("no agent", &["codex"])];
    assert_eq!(identify(&job(1, vec![process(1, "codex", &[])]), &invalid, &[]), None);
}

#[test]
fn sets_are_found_by_id_and_list_their_names() {
    let sets = [set("a", &["x"]), set("b", &["y"]), set("b", &["z"])];
    assert_eq!(find_set(&sets, "b"), Some(1));
    assert_eq!(find_set(&sets, "c"), None);
    assert!(set_lists(&sets[1], "y"));
    assert!(!set_lists(&sets[1], "b"));
}

#[test]
fn what_follows_a_double_dash_is_the_script() {
    let script = |argv: &[&str]| seen(&process(1, argv[0], argv));
    assert_eq!(script(&["node", "--", "-codex.js"]), Some(("-codex".to_owned(), 3)));
    assert_eq!(script(&["sh", "--", "-c", "codex"]), Some(("-c".to_owned(), 3)));
    assert_eq!(script(&["python3", "--"]), Some(("python3".to_owned(), 1)));
}
