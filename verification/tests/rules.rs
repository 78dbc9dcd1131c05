use zor::osc::Flags;
use zor::rules::bundle::{
    bounded_text, comes_before, is_rule_file, merge, select_rule_files, TextError, MAX_RULE_FILES,
};
use zor::rules::eval::{gate_matches, horizontal_rule, write_progress};
use zor::rules::schema::{Gate, Region, Rule};
use zor::rules::view::{Progress, ScreenView};
use zor::rules::{evaluate, load, RuleSet, RuleState, Verdict};
use zor::screen::Screen;

fn strings(values: &[&str]) -> Vec<String> {
    values.iter().map(|value| value.to_string()).collect()
}

fn empty_gate() -> Gate {
    Gate {
        contains: vec![],
        regex: vec![],
        line_regex: vec![],
        all: vec![],
        any: vec![],
        not: vec![],
    }
}

fn containing(needles: &[&str]) -> Gate {
    Gate {
        contains: strings(needles),
        ..empty_gate()
    }
}

fn rule(id: &str, state: RuleState, priority: i32, region: Region, gate: Gate) -> Rule {
    Rule {
        id: id.to_owned(),
        state,
        priority,
        region,
        visible_idle: false,
        visible_blocker: false,
        visible_working: false,
        gate,
    }
}

fn set(id: &str, rules: Vec<Rule>) -> RuleSet {
    RuleSet {
        id: id.to_owned(),
        aliases: vec![],
        process_names: vec![],
        prompt_marker: None,
        block_markers: vec![],
        rules,
    }
}

fn screen(rows: u16, text: &str) -> Screen {
    let mut screen = Screen::new(rows, 40);
    screen.process(text.replace('\n', "\r\n").as_bytes());
    screen
}

fn message(path: &str, rules: Vec<Rule>) -> String {
    load(path, Ok(set("agent", rules)))
        .expect_err("refused")
        .message()
        .to_owned()
}

fn reads(region: Region, marker: Option<&str>, blocks: &[&str], view: &Screen, pattern: &str) -> bool {
    let rules = vec![rule(
        "r",
        RuleState::Working,
        0,
        region,
        Gate {
            regex: strings(&[pattern]),
            ..empty_gate()
        },
    )];
    let rules = RuleSet {
        prompt_marker: marker.map(str::to_owned),
        block_markers: strings(blocks),
        ..set("agent", rules)
    };
    evaluate(&rules, view).rule.is_some()
}

#[test]
fn the_highest_priority_decides_and_the_earlier_of_equals() {
    let rules = set(
        "agent",
        vec![
            rule("low", RuleState::Idle, 1, Region::Whole, containing(&["x"])),
            rule("first", RuleState::Working, 5, Region::Whole, containing(&["x"])),
            rule("second", RuleState::Blocked, 5, Region::Whole, containing(&["x"])),
            rule("absent", RuleState::Blocked, 9, Region::Whole, containing(&["y"])),
        ],
    );
    let verdict = evaluate(&rules, &screen(4, "x"));
    assert_eq!(
        verdict,
        Verdict {
            state: RuleState::Working,
            visible: Flags::default(),
            rule: Some("first".to_owned()),
            region: Region::Whole,
        }
    );
}

#[test]
fn no_match_is_a_plain_idle() {
    let rules = set(
        "agent",
        vec![rule("r", RuleState::Blocked, 0, Region::Title, containing(&["x"]))],
    );
    assert_eq!(
        evaluate(&rules, &screen(4, "x")),
        Verdict {
            state: RuleState::Idle,
            visible: Flags::default(),
            rule: None,
            region: Region::Whole,
        }
    );
}

#[test]
fn the_flags_and_the_region_of_the_rule_are_reported() {
    let mut blocked = rule("r", RuleState::Blocked, 0, Region::Bottom(1), containing(&["x"]));
    blocked.visible_blocker = true;
    let verdict = evaluate(&set("agent", vec![blocked]), &screen(4, "x"));
    assert_eq!(
        verdict.visible,
        Flags {
            blocker: true,
            ..Flags::default()
        }
    );
    assert_eq!(verdict.region, Region::Bottom(1));
}

#[test]
fn gates_are_conjunctive_and_nest() {
    let text = "Alpha\nbeta\n";
    assert!(gate_matches(&containing(&["alpha", "beta"]), text));
    assert!(!gate_matches(&containing(&["Alpha"]), text));
    assert!(!gate_matches(&containing(&["alpha", "gamma"]), text));
    let gate = Gate {
        regex: strings(&["^Alpha\nb"]),
        line_regex: strings(&["^beta$"]),
        all: vec![containing(&["alpha"])],
        any: vec![containing(&["gamma"]), containing(&["beta"])],
        not: vec![containing(&["gamma"])],
        ..empty_gate()
    };
    assert!(gate_matches(&gate, text));
    let none = Gate {
        any: vec![containing(&["gamma"])],
        ..empty_gate()
    };
    assert!(!gate_matches(&none, text));
    let vetoed = Gate {
        not: vec![containing(&["beta"])],
        ..empty_gate()
    };
    assert!(!gate_matches(&vetoed, text));
    let broken = Gate {
        regex: strings(&["("]),
        ..empty_gate()
    };
    assert!(!gate_matches(&broken, text));
}

#[test]
fn line_patterns_match_within_one_line() {
    let across = Gate {
        line_regex: strings(&["a\\sb"]),
        ..empty_gate()
    };
    assert!(!gate_matches(&across, "a\nb\n"));
    assert!(gate_matches(&across, "x\na b\r\n"));
    let whole = Gate {
        regex: strings(&["a\\sb"]),
        ..empty_gate()
    };
    assert!(gate_matches(&whole, "a\nb\n"));
}

#[test]
fn horizontal_rules_are_runs_of_one_character() {
    assert!(horizontal_rule("─"));
    assert!(horizontal_rule("  ──  "));
    assert!(horizontal_rule("─── done"));
    assert!(!horizontal_rule("── done"));
    assert!(!horizontal_rule("---"));
    assert!(!horizontal_rule(""));
    assert!(!horizontal_rule("x ───"));
    assert!(horizontal_rule("\u{3000}───\u{a0}"));
}

#[test]
fn line_regions_count_from_their_end() {
    let view = screen(6, "one\ntwo\n\nfour");
    assert!(reads(Region::Whole, None, &[], &view, "\\Aone\ntwo\n\nfour\n\\z"));
    assert!(reads(Region::Bottom(2), None, &[], &view, "\\A\nfour\n\\z"));
    assert!(reads(Region::Bottom(9), None, &[], &view, "\\Aone\n"));
    assert!(reads(Region::Bottom(0), None, &[], &view, "\\A\\z"));
    assert!(reads(Region::Top(2), None, &[], &view, "\\Aone\ntwo\n\\z"));
    assert!(reads(Region::BottomNonEmpty(2), None, &[], &view, "\\Atwo\n\nfour\n\\z"));
    assert!(reads(Region::BottomNonEmpty(0), None, &[], &view, "\\Afour\n\\z"));
    assert!(reads(Region::BottomNonEmpty(4), None, &[], &view, "\\A\\z"));
    assert!(reads(Region::TopNonEmpty(3), None, &[], &view, "\\Aone\ntwo\n\nfour\n\\z"));
    assert!(reads(Region::TopNonEmpty(1), None, &[], &view, "\\Aone\n\\z"));
    assert!(reads(Region::TopNonEmpty(4), None, &[], &view, "\\A\\z"));
}

#[test]
fn the_prompt_box_lies_between_the_last_two_rules() {
    let view = screen(9, "top\nask\n───\nprompt\n── \nhint");
    assert!(reads(Region::PromptBox, None, &[], &view, "\\Aprompt\n\\z"));
    assert!(reads(Region::AbovePromptBox, None, &[], &view, "\\Atop\nask\n\\z"));
    assert!(reads(Region::LastLineAbovePromptBox, None, &[], &view, "\\Aask\n\\z"));
    assert!(reads(Region::AfterLastRule, None, &[], &view, "\\Ahint\n\\z"));
    let single = screen(9, "top\n───\nhint");
    assert!(reads(Region::PromptBox, None, &[], &single, "\\A\\z"));
    assert!(reads(Region::AbovePromptBox, None, &[], &single, "\\Atop\n───\nhint\n\\z"));
    assert!(reads(Region::LastLineAbovePromptBox, None, &[], &single, "\\Ahint\n\\z"));
}

#[test]
fn the_prompt_marker_stands_alone_or_before_a_space() {
    let view = screen(9, "> first\ntext\n>\nlast");
    assert!(reads(Region::AfterLastPromptMarker, Some(">"), &[], &view, "\\Alast\n\\z"));
    assert!(reads(Region::AfterLastPromptMarker, None, &[], &view, "\\A\\z"));
    let glued = screen(9, ">x\nlast");
    assert!(reads(Region::AfterLastPromptMarker, Some(">"), &[], &glued, "\\A\\z"));
}

#[test]
fn the_whole_is_empty_at_the_prompt() {
    let idle = screen(9, "old\n> typed\nhint");
    assert!(reads(Region::WholeUnlessAtPrompt, Some(">"), &["*"], &idle, "\\A\\z"));
    let busy = screen(9, "old\n> asked\n* answer");
    assert!(reads(Region::WholeUnlessAtPrompt, Some(">"), &["*"], &busy, "\\Aold\n> asked\n"));
    let none = screen(9, "old\n* answer");
    assert!(reads(Region::WholeUnlessAtPrompt, Some(">"), &["*"], &none, "\\Aold\n"));
}

#[test]
fn title_and_progress_are_regions_of_their_own() {
    let mut view = Screen::new(4, 20);
    assert!(reads(Region::Progress, None, &[], &view, "\\A\\z"));
    view.process(b"\x1b]2;Task\x07\x1b]9;4;1;42\x07");
    assert!(reads(Region::Title, None, &[], &view, "\\ATask\\z"));
    assert!(reads(Region::Progress, None, &[], &view, "\\A1:42\\z"));
    assert_eq!(write_progress(view.progress()), "1:42");
    assert_eq!(write_progress(None), "");
    assert_eq!(
        write_progress(Some(Progress {
            state: 0,
            percent: 0
        })),
        "0:0"
    );
}

#[test]
fn region_names_are_read() {
    for (name, region) in [
        ("whole", Region::Whole),
        ("prompt_box", Region::PromptBox),
        ("above_prompt_box", Region::AbovePromptBox),
        ("last_line_above_prompt_box", Region::LastLineAbovePromptBox),
        ("after_last_rule", Region::AfterLastRule),
        ("after_last_prompt_marker", Region::AfterLastPromptMarker),
        ("whole_unless_at_prompt", Region::WholeUnlessAtPrompt),
        ("title", Region::Title),
        ("progress", Region::Progress),
        ("bottom(3)", Region::Bottom(3)),
        ("top(0)", Region::Top(0)),
        ("bottom_non_empty(12)", Region::BottomNonEmpty(12)),
        ("top_non_empty(+7)", Region::TopNonEmpty(7)),
    ] {
        assert_eq!(Region::from_str(name), Ok(region));
    }
    for name in ["", "bottom", "bottom()", "bottom(x)", "bottom(-1)", "top(1", "Whole"] {
        assert_eq!(Region::from_str(name), Err(format!("unknown region {name}")));
    }
    assert_eq!(Region::default(), Region::Whole);
}

#[test]
fn a_loaded_set_is_named_and_lowered() {
    let rules = RuleSet {
        aliases: strings(&["one", "two"]),
        ..set(
            "agent",
            vec![rule("r", RuleState::Working, 0, Region::Whole, containing(&["ESC To Interrupt", "Ä"]))],
        )
    };
    let loaded = load("a.toml", Ok(rules)).expect("accepted");
    assert_eq!(loaded.process_names, strings(&["agent", "one", "two"]));
    assert_eq!(loaded.rules[0].gate.contains, strings(&["esc to interrupt", "ä"]));
    assert_eq!(
        evaluate(&loaded, &screen(4, "esc to INTERRUPT ä")).state,
        RuleState::Working
    );
    let named = RuleSet {
        process_names: strings(&["tool"]),
        ..set("agent", vec![])
    };
    assert_eq!(
        load("a.toml", Ok(named)).expect("accepted").process_names,
        strings(&["tool"])
    );
}

#[test]
fn every_flaw_of_a_set_has_its_message() {
    let good = || rule("r", RuleState::Idle, 0, Region::Whole, containing(&["x"]));
    assert_eq!(
        load("a.toml", Err("line 1".to_owned())).expect_err("refused").message(),
        "a.toml: line 1"
    );
    assert_eq!(
        message("a.toml", (0..129).map(|_| good()).collect()),
        "a.toml: more than 128 rules"
    );
    assert_eq!(
        message("a.toml", vec![good(), good()]),
        "a.toml: rule r: duplicate rule id"
    );
    for (state, name) in [
        (RuleState::Idle, "idle rule has mismatched visible flag"),
        (RuleState::Blocked, "blocked rule has mismatched visible flag"),
        (RuleState::Working, "working rule has mismatched visible flag"),
        (RuleState::Skip, "skip rule carries flags"),
    ] {
        let mut flagged = good();
        flagged.state = state;
        flagged.visible_idle = state != RuleState::Idle;
        flagged.visible_working = state == RuleState::Idle;
        assert_eq!(message("a.toml", vec![flagged]), format!("a.toml: rule r: {name}"));
    }
    let with = |gate: Gate| message("p", vec![rule("r", RuleState::Idle, 0, Region::Whole, gate)]);
    assert_eq!(with(empty_gate()), "p: rule r: gate has no matcher");
    assert_eq!(
        with(Gate {
            contains: vec!["x".to_owned(); 33],
            ..empty_gate()
        }),
        "p: rule r: gate complexity limit exceeded"
    );
    assert_eq!(
        with(containing(&[&"x".repeat(513)])),
        "p: rule r: matcher exceeds 512 characters"
    );
    assert_eq!(
        with(Gate {
            line_regex: strings(&["("]),
            ..empty_gate()
        }),
        "p: rule r: invalid regex"
    );
    let mut deep = containing(&["x"]);
    for _ in 0..9 {
        deep = Gate {
            not: vec![deep],
            ..empty_gate()
        };
    }
    assert_eq!(with(deep), "p: rule r: gate complexity limit exceeded");
    let many = (0..17)
        .map(|index| {
            let gate = Gate {
                all: (0..30).map(|_| containing(&["x"])).collect(),
                ..empty_gate()
            };
            rule(&format!("r{index}"), RuleState::Idle, 0, Region::Whole, gate)
        })
        .collect();
    assert_eq!(message("p", many), "p: rule complexity limit exceeded");
}

#[test]
fn the_limits_themselves_are_accepted() {
    let rules: Vec<Rule> = (0..128)
        .map(|index| {
            rule(
                &format!("r{index}"),
                RuleState::Idle,
                0,
                Region::Whole,
                containing(&[&"x".repeat(512)]),
            )
        })
        .collect();
    assert!(load("p", Ok(set("agent", rules))).is_ok());
    let mut deep = containing(&["x"]);
    for _ in 0..8 {
        deep = Gate {
            any: vec![deep],
            ..empty_gate()
        };
    }
    let rules = vec![rule("r", RuleState::Idle, 0, Region::Whole, deep)];
    assert!(load("p", Ok(set("agent", rules))).is_ok());
}

#[test]
fn bounded_reader_rejects_oversized_input() {
    assert_eq!(bounded_text(vec![b'x'; 17], 16), Err(TextError::TooLong));
    assert_eq!(bounded_text(vec![b'x'; 16], 16), Ok("x".repeat(16)));
    assert_eq!(bounded_text(vec![0xff], 16), Err(TextError::NotUtf8));
    assert_eq!(bounded_text("é".as_bytes().to_vec(), 2), Ok("é".to_owned()));
}

#[test]
fn aggregate_rule_file_count_is_bounded() {
    let paths = strings(&["d/b.toml", "d/notes.md", "d/a.toml", "d/.toml", "d/c.toml/"]);
    assert_eq!(
        select_rule_files(&paths, 0),
        Some(strings(&["d/a.toml", "d/b.toml", "d/c.toml/"]))
    );
    assert_eq!(select_rule_files(&strings(&["d/extra.toml"]), MAX_RULE_FILES), None);
    assert!(select_rule_files(&strings(&["d/extra.toml"]), MAX_RULE_FILES - 1).is_some());
    assert_eq!(select_rule_files(&strings(&["d/extra.md"]), MAX_RULE_FILES), Some(vec![]));
    assert!(is_rule_file("x/a.b.toml"));
    assert!(!is_rule_file("toml"));
    assert!(comes_before("a", "ab"));
    assert!(!comes_before("b", "ab"));
}

#[test]
fn later_sets_replace_earlier_ones() {
    let mut sets = Vec::new();
    merge(&mut sets, set("b", vec![]));
    merge(&mut sets, set("a", vec![]));
    let later = RuleSet {
        aliases: strings(&["later"]),
        ..set("b", vec![])
    };
    merge(&mut sets, later);
    assert_eq!(
        sets.iter().map(|set| set.id.as_str()).collect::<Vec<_>>(),
        ["a", "b"]
    );
    assert_eq!(sets[1].aliases, strings(&["later"]));
}

#[test]
fn matchers_are_measured_in_characters() {
    let with = |gate: Gate| load("p", Ok(set("agent", vec![rule("r", RuleState::Idle, 0, Region::Whole, gate)])));
    assert!(with(containing(&[&"\u{2502}".repeat(512)])).is_ok());
    assert!(with(containing(&[&"\u{2502}".repeat(513)])).is_err());
    let pattern = |text: String| Gate {
        regex: vec![text],
        ..empty_gate()
    };
    assert!(with(pattern("\u{2502}".repeat(512))).is_ok());
    assert!(with(pattern("\u{2502}".repeat(513))).is_err());
}
