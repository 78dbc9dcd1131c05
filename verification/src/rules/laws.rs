//! What holds of every rule set that was accepted, and of every verdict.
use crate::osc::text_view;
use crate::rules::eval::{
    at_marker, decides, filled, first_with_id, gate_holds, horizontal, idle_verdict, last_marker,
    last_rule, nth_filled, nth_filled_up, prompt_box, region_text, rule_holds, rule_verdict,
    some_block, verdict_of, Picture, VerdictView,
};
use crate::platform::{Job, Process};
use crate::rules::ident::{
    agent_of, base_name, belongs, declares, first_declaring, identified, own_title, preferred,
    recognised, set_of, target_of, traits_of,
};
use crate::rules::schema::{
    duplicate_id, flag_problem, gates_count, load_message, matchers_count, rule_gates, rule_problem,
    rules_message, set_loaded, Gate, Region, Rule, RuleSet, MAX_GATES, MAX_MATCHERS, MAX_RULES,
};
use crate::text::lowercase;
use vstd::prelude::*;

verus! {

/// No two rules have the same id.
pub open spec fn unique_ids(rules: Seq<Rule>) -> bool {
    forall|left: int, right: int|
        0 <= left < right < rules.len() ==> #[trigger] rules[left].id@
            != #[trigger] rules[right].id@
}

/// The evidence that a verdict claims is evidence for its state.
pub open spec fn flags_agree(verdict: VerdictView) -> bool {
    &&& verdict.visible.idle ==> verdict.state is Idle
    &&& verdict.visible.blocker ==> verdict.state is Blocked
    &&& verdict.visible.working ==> verdict.state is Working
}

proof fn lemma_no_message(path: Seq<char>, rules: Seq<Rule>, count: nat, index: int)
    requires
        count <= rules.len(),
        rules_message(path, rules, count) is None,
        0 <= index < count,
    ensures
        rule_problem(rules, index) is None,
    decreases count,
{
    if index < count - 1 {
        lemma_no_message(path, rules, (count - 1) as nat, index);
    }
}

/// In a rule set that is accepted, every rule has an id of its own.
pub proof fn accepted_ids_are_unique(path: Seq<char>, rules: Seq<Rule>)
    requires
        load_message(path, rules) is None,
    ensures
        unique_ids(rules),
{
    assert forall|left: int, right: int| 0 <= left < right < rules.len() implies #[trigger] rules[left].id@
        != #[trigger] rules[right].id@ by {
        lemma_no_message(path, rules, rules.len(), right);
        assert(!duplicate_id(rules, right));
    }
}

/// In a rule set that is accepted, the flags of each rule agree with its state.
pub proof fn accepted_flags_agree(path: Seq<char>, rules: Seq<Rule>, index: int)
    requires
        load_message(path, rules) is None,
        0 <= index < rules.len(),
    ensures
        flags_agree(rule_verdict(rules[index])),
{
    lemma_no_message(path, rules, rules.len(), index);
    assert(flag_problem(rules[index]) is None);
}

/// A rule set that is accepted stays within the limits on rules, gates and matchers.
pub proof fn accepted_sets_are_bounded(path: Seq<char>, rules: Seq<Rule>)
    requires
        load_message(path, rules) is None,
    ensures
        rules.len() <= MAX_RULES,
        gates_count(rule_gates(rules)) <= MAX_GATES,
        matchers_count(rule_gates(rules)) <= MAX_MATCHERS,
{
}

/// Among rules that hold, one decides.
pub(crate) proof fn lemma_some_rule_decides(
    set: RuleSet,
    picture: Picture,
    count: int,
) -> (best: int)
    requires
        0 <= count <= set.rules@.len(),
        exists|index: int| 0 <= index < count && rule_holds(set, picture, index),
    ensures
        0 <= best < count,
        rule_holds(set, picture, best),
        forall|other: int|
            0 <= other < count && #[trigger] rule_holds(set, picture, other) ==> {
                ||| set.rules@[other].priority < set.rules@[best].priority
                ||| set.rules@[other].priority == set.rules@[best].priority && best <= other
            },
    decreases count,
{
    let last = count - 1;
    if exists|index: int| 0 <= index < last && rule_holds(set, picture, index) {
        let before = lemma_some_rule_decides(set, picture, last);
        if rule_holds(set, picture, last) && set.rules@[last].priority
            > set.rules@[before].priority {
            last
        } else {
            before
        }
    } else {
        let index = choose|index: int| 0 <= index < count && rule_holds(set, picture, index);
        assert(index == last);
        last
    }
}

/// A verdict names a rule exactly where some rule holds. Where none does, the verdict is a plain
/// idle.
pub proof fn no_match_is_idle(set: RuleSet, picture: Picture)
    ensures
        verdict_of(set, picture).rule is Some <==> exists|index: int|
            0 <= index < set.rules@.len() && #[trigger] rule_holds(set, picture, index),
        verdict_of(set, picture).rule is None ==> verdict_of(set, picture) == idle_verdict(),
{
    if exists|index: int|
        0 <= index < set.rules@.len() && #[trigger] rule_holds(set, picture, index) {
        let best = lemma_some_rule_decides(set, picture, set.rules@.len() as int);
        assert(decides(set, picture, best));
    } else {
        assert forall|index: int| !decides(set, picture, index) by {
            if decides(set, picture, index) {
                assert(rule_holds(set, picture, index));
            }
        }
    }
}

proof fn lemma_verdict_of_winner(set: RuleSet, picture: Picture, index: int)
    requires
        unique_ids(set.rules@),
        decides(set, picture, index),
    ensures
        verdict_of(set, picture) == rule_verdict(set.rules@[index]),
{
    let rules = set.rules@;
    let chosen = choose|other: int| decides(set, picture, other);
    assert(rule_holds(set, picture, chosen));
    assert(rule_holds(set, picture, index));
    assert(chosen == index);
    assert(first_with_id(rules, rules[index].id@, index));
    let named = choose|other: int| first_with_id(rules, rules[chosen].id@, other);
    assert(first_with_id(rules, rules[index].id@, named));
    if named < index {
        assert(rules[named].id@ != rules[index].id@);
    }
    if index < named {
        assert(rules[index].id@ != rules[named].id@);
    }
}

/// Where ids are unique, the verdict is that of the rule with the highest priority among those
/// that hold, and the earliest of those on a tie.
pub proof fn highest_priority_decides(set: RuleSet, picture: Picture, index: int)
    requires
        unique_ids(set.rules@),
        0 <= index < set.rules@.len(),
        rule_holds(set, picture, index),
        forall|other: int|
            0 <= other < set.rules@.len() && other != index && #[trigger] rule_holds(
                set,
                picture,
                other,
            ) ==> set.rules@[other].priority < set.rules@[index].priority || (
            set.rules@[other].priority == set.rules@[index].priority && index < other),
    ensures
        verdict_of(set, picture) == rule_verdict(set.rules@[index]),
{
    assert(decides(set, picture, index));
    lemma_verdict_of_winner(set, picture, index);
}

/// The verdict of a set that was loaded claims no evidence against its own state.
pub proof fn loaded_verdicts_agree(
    path: Seq<char>,
    source: RuleSet,
    set: RuleSet,
    picture: Picture,
)
    requires
        load_message(path, source.rules@) is None,
        set_loaded(source, set),
    ensures
        unique_ids(set.rules@),
        flags_agree(verdict_of(set, picture)),
{
    accepted_ids_are_unique(path, source.rules@);
    assert forall|left: int, right: int| 0 <= left < right < set.rules@.len() implies #[trigger] set.rules@[left].id@
        != #[trigger] set.rules@[right].id@ by {
        assert(source.rules@[left].id@ == set.rules@[left].id@);
        assert(source.rules@[right].id@ == set.rules@[right].id@);
    }
    no_match_is_idle(set, picture);
    if exists|index: int| decides(set, picture, index) {
        let index = choose|index: int| decides(set, picture, index);
        lemma_verdict_of_winner(set, picture, index);
        accepted_flags_agree(path, source.rules@, index);
        assert(crate::rules::schema::rule_loaded(source.rules@[index], set.rules@[index]));
    }
}

/// A condition that only looks for texts does not tell two texts apart that differ in case alone.
pub proof fn contains_ignores_case(gate: Gate, left: Seq<char>, right: Seq<char>)
    requires
        gate.regex@.len() == 0,
        gate.line_regex@.len() == 0,
        gate.all@.len() == 0,
        gate.any@.len() == 0,
        gate.not@.len() == 0,
        lowercase(left) == lowercase(right),
    ensures
        gate_holds(gate, left) == gate_holds(gate, right),
{
}

pub(crate) proof fn lemma_last_rule(lines: Seq<Seq<char>>)
    ensures
        match last_rule(lines) {
            Some(index) => {
                &&& 0 <= index < lines.len()
                &&& horizontal(lines[index])
                &&& forall|after: int| index < after < lines.len() ==> !horizontal(
                    #[trigger] lines[after],
                )
            },
            None => forall|index: int| 0 <= index < lines.len() ==> !horizontal(
                #[trigger] lines[index],
            ),
        },
    decreases lines.len(),
{
    if lines.len() > 0 && !horizontal(lines.last()) {
        lemma_last_rule(lines.drop_last());
        assert forall|index: int| 0 <= index < lines.len() - 1 implies lines[index]
            == lines.drop_last()[index] by {}
    }
}

/// The prompt box is delimited by horizontal rules, and no other horizontal rule stands in it or
/// below it.
pub proof fn prompt_box_is_delimited(lines: Seq<Seq<char>>, upper: int, lower: int)
    requires
        prompt_box(lines) == Some((upper, lower)),
    ensures
        0 <= upper < lower < lines.len(),
        horizontal(lines[upper]),
        horizontal(lines[lower]),
        forall|index: int|
            upper < index < lines.len() && index != lower ==> !horizontal(#[trigger] lines[index]),
{
    lemma_last_rule(lines);
    let before = lines.take(lower);
    lemma_last_rule(before);
    assert forall|index: int| upper < index < lines.len() && index != lower implies !horizontal(
        #[trigger] lines[index],
    ) by {
        if index < lower {
            assert(lines[index] == before[index]);
        }
    }
}

/// The last prompt marker is at a line that shows it, and none below it does.
pub proof fn last_marker_is_last(lines: Seq<Seq<char>>, marker: Seq<char>)
    ensures
        match last_marker(lines, Some(marker)) {
            Some(index) => {
                &&& 0 <= index < lines.len()
                &&& at_marker(lines[index], marker)
                &&& forall|after: int| index < after < lines.len() ==> !at_marker(
                    #[trigger] lines[after],
                    marker,
                )
            },
            None => forall|index: int| 0 <= index < lines.len() ==> !at_marker(
                #[trigger] lines[index],
                marker,
            ),
        },
    decreases lines.len(),
{
    if lines.len() > 0 && !at_marker(lines.last(), marker) {
        last_marker_is_last(lines.drop_last(), marker);
        assert forall|index: int| 0 <= index < lines.len() - 1 implies lines[index]
            == lines.drop_last()[index] by {}
    }
}

/// `bottom_non_empty(n)` starts at a non-empty line and holds `n` of them; `n` is at least one.
pub proof fn bottom_holds_n_lines(lines: Seq<Seq<char>>, nth: nat)
    ensures
        match nth_filled_up(lines, nth) {
            Some(index) => {
                &&& 0 <= index < lines.len()
                &&& lines[index].len() > 0
                &&& filled(lines.skip(index)) == if nth == 0 {
                    1
                } else {
                    nth
                }
            },
            None => filled(lines) < if nth == 0 {
                1
            } else {
                nth
            },
        },
    decreases lines.len(),
{
    if lines.len() > 0 {
        let before = lines.drop_last();
        if lines.last().len() == 0 {
            bottom_holds_n_lines(before, nth);
            match nth_filled_up(lines, nth) {
                Some(index) => {
                    assert(lines.skip(index).drop_last() =~= before.skip(index));
                    assert(lines.skip(index).last() == lines.last());
                },
                None => {},
            }
        } else if nth <= 1 {
            let tail = lines.skip(lines.len() - 1);
            assert(tail.drop_last() =~= Seq::empty());
            assert(tail.last() == lines.last());
            assert(filled(tail.drop_last()) == 0);
        } else {
            bottom_holds_n_lines(before, (nth - 1) as nat);
            match nth_filled_up(lines, nth) {
                Some(index) => {
                    assert(lines.skip(index).drop_last() =~= before.skip(index));
                    assert(lines.skip(index).last() == lines.last());
                },
                None => {},
            }
        }
    }
}

/// `top_non_empty(n)` ends at a non-empty line and holds `n` of them; `n` is at least one.
pub proof fn top_holds_n_lines(lines: Seq<Seq<char>>, nth: nat)
    ensures
        match nth_filled(lines, nth) {
            Some(index) => {
                &&& 0 <= index < lines.len()
                &&& lines[index].len() > 0
                &&& filled(lines.take(index + 1)) == if nth == 0 {
                    1
                } else {
                    nth
                }
            },
            None => filled(lines) < if nth == 0 {
                1
            } else {
                nth
            },
        },
    decreases lines.len(),
{
    if lines.len() > 0 {
        let before = lines.drop_last();
        top_holds_n_lines(before, nth);
        match nth_filled(before, nth) {
            Some(index) => {
                assert(lines.take(index + 1) =~= before.take(index + 1));
            },
            None => {
                assert(lines.take(lines.len() as int) =~= lines);
            },
        }
    }
}

/// With a prompt marker on the screen an agent is at its prompt, and `whole_unless_at_prompt` is
/// empty, exactly while no line below the last of them starts with a block marker.
pub proof fn at_prompt_is_empty(
    marker: Seq<char>,
    blocks: Seq<Seq<char>>,
    picture: Picture,
    index: int,
)
    requires
        last_marker(picture.lines, Some(marker)) == Some(index),
    ensures
        region_text(Region::WholeUnlessAtPrompt, Some(marker), blocks, picture) == if some_block(
            picture.lines.skip(index + 1),
            blocks,
        ) {
            picture.text
        } else {
            Seq::empty()
        },
        blocks.len() == 0 ==> region_text(
            Region::WholeUnlessAtPrompt,
            Some(marker),
            blocks,
            picture,
        ).len() == 0,
{
}

/// The agent that a process declares in its environment is the agent of the job, whatever the
/// names of the processes are. Where several declare one, the first counts.
pub proof fn declaration_beats_names(
    job: Job,
    targets: Seq<Option<String>>,
    sets: Seq<RuleSet>,
    index: int,
)
    requires
        first_declaring(job, sets, index),
    ensures
        identified(job, targets, sets) == agent_of(
            text_view(job.processes@[index].env_agent)->0,
            job.processes@[index].pid,
        ),
{
    let chosen = choose|other: int| first_declaring(job, sets, other);
    assert(first_declaring(job, sets, chosen));
    assert(declares(job.processes@[chosen], sets));
    assert(declares(job.processes@[index], sets));
    assert(chosen == index);
}

/// Where no process declares an agent and the leader of the group belongs to a rule set, the
/// leader is the agent.
pub proof fn leader_wins(
    job: Job,
    targets: Seq<Option<String>>,
    sets: Seq<RuleSet>,
    index: int,
)
    requires
        0 <= index < job.processes@.len(),
        forall|other: int|
            0 <= other < job.processes@.len() ==> !declares(
                #[trigger] job.processes@[other],
                sets,
            ),
        job.processes@[index].pid == job.leader,
        forall|other: int|
            0 <= other < job.processes@.len() && other != index
                ==> #[trigger] job.processes@[other].pid != job.leader,
        belongs(job, targets, sets, index),
    ensures
        identified(job, targets, sets) == agent_of(
            sets[set_of(job.processes@[index], target_of(targets, index), sets)->0].id@,
            job.leader,
        ),
{
    assert forall|other: int| !first_declaring(job, sets, other) by {
        if first_declaring(job, sets, other) {
            assert(declares(job.processes@[other], sets));
        }
    }
    assert(recognised(job, targets, sets, index));
    let chosen = choose|other: int| recognised(job, targets, sets, other);
    assert(belongs(job, targets, sets, chosen));
    assert(preferred(job, index, chosen));
    assert(preferred(job, chosen, index));
}

/// The agent of a job was seen in one of its processes.
pub proof fn agents_are_members(job: Job, targets: Seq<Option<String>>, sets: Seq<RuleSet>)
    ensures
        identified(job, targets, sets) matches Some((_, pid)) ==> exists|index: int|
            0 <= index < job.processes@.len() && #[trigger] job.processes@[index].pid == pid,
{
    if exists|index: int| first_declaring(job, sets, index) {
        let index = choose|index: int| first_declaring(job, sets, index);
        assert(job.processes@[index].pid == job.processes@[index].pid);
    } else if exists|index: int| recognised(job, targets, sets, index) {
        let index = choose|index: int| recognised(job, targets, sets, index);
        assert(job.processes@[index].pid == job.processes@[index].pid);
    }
}

/// `tmux` is never recognised as an agent.
pub proof fn tmux_is_no_agent(process: Process, target: Option<Seq<char>>, sets: Seq<RuleSet>)
    requires
        base_name(own_title(process)) == "tmux"@,
    ensures
        traits_of(process) is None,
        set_of(process, target, sets) is None,
{
}

} // verus!
