//! What a condition, a rule and a rule set say, part by part.
use crate::osc::text_view;
use crate::rules::eval::{gate_holds, region_text, rule_holds, verdict_of, Picture};
use crate::rules::laws::{highest_priority_decides, no_match_is_idle, unique_ids};
use crate::rules::pattern::{regex_accepts, regex_finds};
use crate::rules::schema::{
    gate_count, gate_lowered, gate_problem, gates_count, gates_problem, load_message, matcher_count,
    matchers_count, rule_gates, rule_loaded, rule_problem, rules_message, set_loaded, Gate, Rule,
    RuleSet,
};
use crate::text::{lowercase, occurs, text_lines, texts};
use vstd::prelude::*;

verus! {

/// A condition with no part at all.
pub open spec fn bare(gate: Gate) -> bool {
    &&& gate.contains@.len() == 0
    &&& gate.regex@.len() == 0
    &&& gate.line_regex@.len() == 0
    &&& gate.all@.len() == 0
    &&& gate.any@.len() == 0
    &&& gate.not@.len() == 0
}

/// A condition without parts holds of every text.
pub proof fn bare_gates_hold(gate: Gate, text: Seq<char>)
    requires
        bare(gate),
    ensures
        gate_holds(gate, text),
{
}

/// One more text to look for: the condition holds where it held and the text occurs, in lower case.
pub proof fn texts_narrow_a_gate(gate: Gate, longer: Gate, needle: String, text: Seq<char>)
    requires
        longer.contains@ == gate.contains@.push(needle),
        longer.regex@ == gate.regex@,
        longer.line_regex@ == gate.line_regex@,
        longer.all@ == gate.all@,
        longer.any@ == gate.any@,
        longer.not@ == gate.not@,
    ensures
        gate_holds(longer, text) <==> gate_holds(gate, text) && occurs(lowercase(text), needle@),
{
    let last = gate.contains@.len() as int;
    if gate_holds(longer, text) {
        assert(occurs(lowercase(text), longer.contains@[last]@));
        assert forall|index: int| 0 <= index < last implies occurs(
            lowercase(text),
            #[trigger] gate.contains@[index]@,
        ) by {
            assert(longer.contains@[index] == gate.contains@[index]);
        }
    }
    if gate_holds(gate, text) && occurs(lowercase(text), needle@) {
        assert forall|index: int| 0 <= index < longer.contains@.len() implies occurs(
            lowercase(text),
            #[trigger] longer.contains@[index]@,
        ) by {
            if index < last {
                assert(longer.contains@[index] == gate.contains@[index]);
            }
        }
    }
}

/// One more pattern: the condition holds where it held and the pattern compiles and is found.
pub proof fn patterns_narrow_a_gate(gate: Gate, longer: Gate, pattern: String, text: Seq<char>)
    requires
        longer.contains@ == gate.contains@,
        longer.regex@ == gate.regex@.push(pattern),
        longer.line_regex@ == gate.line_regex@,
        longer.all@ == gate.all@,
        longer.any@ == gate.any@,
        longer.not@ == gate.not@,
    ensures
        gate_holds(longer, text) <==> gate_holds(gate, text) && regex_accepts(pattern@)
            && regex_finds(pattern@, text),
{
    let last = gate.regex@.len() as int;
    if gate_holds(longer, text) {
        assert(longer.regex@[last] == pattern);
        assert forall|index: int| 0 <= index < last implies crate::rules::pattern::matches_pattern(
            #[trigger] gate.regex@[index]@,
            text,
        ) by {
            assert(longer.regex@[index] == gate.regex@[index]);
        }
    }
    if gate_holds(gate, text) {
        assert forall|index: int|
            0 <= index < longer.regex@.len() && regex_accepts(pattern@) && regex_finds(
                pattern@,
                text,
            ) implies crate::rules::pattern::matches_pattern(
            #[trigger] longer.regex@[index]@,
            text,
        ) by {
            if index < last {
                assert(longer.regex@[index] == gate.regex@[index]);
            }
        }
    }
}

/// One of the lines of a text matches the pattern.
pub open spec fn found_in_a_line(pattern: Seq<char>, text: Seq<char>) -> bool {
    regex_accepts(pattern) && exists|index: int|
        0 <= index < text_lines(text).len() && regex_finds(
            pattern,
            #[trigger] text_lines(text)[index],
        )
}

/// One more line pattern: the condition holds where it held and the pattern is found in a line.
pub proof fn line_patterns_narrow_a_gate(gate: Gate, longer: Gate, pattern: String, text: Seq<char>)
    requires
        longer.contains@ == gate.contains@,
        longer.regex@ == gate.regex@,
        longer.line_regex@ == gate.line_regex@.push(pattern),
        longer.all@ == gate.all@,
        longer.any@ == gate.any@,
        longer.not@ == gate.not@,
    ensures
        gate_holds(longer, text) <==> gate_holds(gate, text) && found_in_a_line(pattern@, text),
{
    let last = gate.line_regex@.len() as int;
    assert(crate::rules::eval::some_line_matches(pattern@, text_lines(text)) == found_in_a_line(
        pattern@,
        text,
    )) by {
        if found_in_a_line(pattern@, text) {
            let index = choose|index: int|
                0 <= index < text_lines(text).len() && regex_finds(
                    pattern@,
                    #[trigger] text_lines(text)[index],
                );
            assert(crate::rules::pattern::matches_pattern(pattern@, text_lines(text)[index]));
        }
    }
    if gate_holds(longer, text) {
        assert(longer.line_regex@[last] == pattern);
        assert forall|index: int| 0 <= index < last implies crate::rules::eval::some_line_matches(
            #[trigger] gate.line_regex@[index]@,
            text_lines(text),
        ) by {
            assert(longer.line_regex@[index] == gate.line_regex@[index]);
        }
    }
    if gate_holds(gate, text) && found_in_a_line(pattern@, text) {
        assert forall|index: int|
            0 <= index < longer.line_regex@.len() implies crate::rules::eval::some_line_matches(
            #[trigger] longer.line_regex@[index]@,
            text_lines(text),
        ) by {
            if index < last {
                assert(longer.line_regex@[index] == gate.line_regex@[index]);
            }
        }
    }
}

/// One more condition that has to hold, or must not hold: the whole holds where it held and the one
/// does, or does not.
pub proof fn nested_gates_narrow_a_gate(
    gate: Gate,
    longer: Gate,
    nested: Gate,
    negated: bool,
    text: Seq<char>,
)
    requires
        longer.contains@ == gate.contains@,
        longer.regex@ == gate.regex@,
        longer.line_regex@ == gate.line_regex@,
        longer.all@ == if negated {
            gate.all@
        } else {
            gate.all@.push(nested)
        },
        longer.any@ == gate.any@,
        longer.not@ == if negated {
            gate.not@.push(nested)
        } else {
            gate.not@
        },
    ensures
        gate_holds(longer, text) <==> gate_holds(gate, text) && gate_holds(nested, text) != negated,
{
    if negated {
        let last = gate.not@.len() as int;
        assert(longer.not@[last] == nested);
        if gate_holds(longer, text) {
            assert forall|index: int| 0 <= index < last implies !gate_holds(
                #[trigger] gate.not@[index],
                text,
            ) by {
                assert(longer.not@[index] == gate.not@[index]);
            }
        }
        if gate_holds(gate, text) && !gate_holds(nested, text) {
            assert forall|index: int| 0 <= index < longer.not@.len() implies !gate_holds(
                #[trigger] longer.not@[index],
                text,
            ) by {
                if index < last {
                    assert(longer.not@[index] == gate.not@[index]);
                }
            }
        }
    } else {
        let last = gate.all@.len() as int;
        assert(longer.all@[last] == nested);
        if gate_holds(longer, text) {
            assert forall|index: int| 0 <= index < last implies gate_holds(
                #[trigger] gate.all@[index],
                text,
            ) by {
                assert(longer.all@[index] == gate.all@[index]);
            }
        }
        if gate_holds(gate, text) && gate_holds(nested, text) {
            assert forall|index: int| 0 <= index < longer.all@.len() implies gate_holds(
                #[trigger] longer.all@[index],
                text,
            ) by {
                if index < last {
                    assert(longer.all@[index] == gate.all@[index]);
                }
            }
        }
    }
}

/// Alternatives: the first one narrows the condition to it; each further one widens it again.
pub proof fn alternatives_widen_a_gate(
    gate: Gate,
    longer: Gate,
    other: Gate,
    nested: Gate,
    text: Seq<char>,
)
    requires
        longer.contains@ == gate.contains@ && other.contains@ == gate.contains@,
        longer.regex@ == gate.regex@ && other.regex@ == gate.regex@,
        longer.line_regex@ == gate.line_regex@ && other.line_regex@ == gate.line_regex@,
        longer.all@ == gate.all@ && other.all@ == gate.all@,
        longer.any@ == gate.any@.push(nested),
        other.any@ == seq![nested],
        longer.not@ == gate.not@ && other.not@ == gate.not@,
    ensures
        gate.any@.len() == 0 ==> (gate_holds(longer, text) <==> gate_holds(gate, text)
            && gate_holds(nested, text)),
        gate.any@.len() > 0 ==> (gate_holds(longer, text) <==> gate_holds(gate, text)
            || gate_holds(other, text)),
{
    let last = gate.any@.len() as int;
    assert(longer.any@[last] == nested);
    assert(other.any@[0] == nested);
    assert forall|index: int| 0 <= index < last implies longer.any@[index]
        == #[trigger] gate.any@[index] by {}
    if gate_holds(gate, text) && last > 0 {
        let index = choose|index: int|
            0 <= index < gate.any@.len() && gate_holds(#[trigger] gate.any@[index], text);
        assert(gate_holds(longer.any@[index], text));
    }
    if gate_holds(longer, text) {
        let index = choose|index: int|
            0 <= index < longer.any@.len() && gate_holds(#[trigger] longer.any@[index], text);
        if index < last {
            assert(gate_holds(gate.any@[index], text));
        }
    }
}

/// A rule set with a single rule gives the verdict of that rule, with its state, its flags and its
/// name, exactly where its condition holds of its region; and else an idle by no rule.
pub proof fn a_single_rule_decides(set: RuleSet, picture: Picture)
    requires
        set.rules@.len() == 1,
    ensures
        ({
            let rule = set.rules@[0];
            let verdict = verdict_of(set, picture);
            let read = region_text(
                rule.region,
                text_view(set.prompt_marker),
                texts(set.block_markers@),
                picture,
            );
            if gate_holds(rule.gate, read) {
                &&& verdict.state == rule.state
                &&& verdict.visible.idle == rule.visible_idle
                &&& verdict.visible.blocker == rule.visible_blocker
                &&& verdict.visible.working == rule.visible_working
                &&& verdict.rule == Some(rule.id@)
                &&& verdict.region == rule.region
            } else {
                &&& verdict.state is Idle
                &&& !verdict.visible.idle
                &&& !verdict.visible.blocker
                &&& !verdict.visible.working
                &&& verdict.rule is None
                &&& verdict.region is Whole
            }
        }),
{
    no_match_is_idle(set, picture);
    if rule_holds(set, picture, 0) {
        highest_priority_decides(set, picture, 0);
    } else {
        assert forall|index: int| 0 <= index < set.rules@.len() implies !#[trigger] rule_holds(
            set,
            picture,
            index,
        ) by {
            assert(index == 0);
        }
    }
}

/// A rule that is added at the end decides where it holds and has a higher priority than every
/// rule that holds; else the verdict stays what it was.
pub proof fn later_rules_need_a_higher_priority(
    set: RuleSet,
    longer: RuleSet,
    rule: Rule,
    picture: Picture,
)
    requires
        longer.rules@ == set.rules@.push(rule),
        unique_ids(longer.rules@),
        text_view(longer.prompt_marker) == text_view(set.prompt_marker),
        texts(longer.block_markers@) == texts(set.block_markers@),
    ensures
        ({
            let read = region_text(
                rule.region,
                text_view(set.prompt_marker),
                texts(set.block_markers@),
                picture,
            );
            if gate_holds(rule.gate, read) && forall|index: int|
                0 <= index < set.rules@.len() && #[trigger] rule_holds(set, picture, index)
                    ==> set.rules@[index].priority < rule.priority {
                &&& verdict_of(longer, picture).rule == Some(rule.id@)
                &&& verdict_of(longer, picture).state == rule.state
            } else {
                verdict_of(longer, picture) == verdict_of(set, picture)
            }
        }),
{
    let last = set.rules@.len() as int;
    assert(longer.rules@[last] == rule);
    assert forall|index: int| 0 <= index < last implies #[trigger] longer.rules@[index]
        == set.rules@[index] by {}
    assert forall|index: int| 0 <= index < last implies #[trigger] rule_holds(set, picture, index)
        == rule_holds(longer, picture, index) by {}
    assert(unique_ids(set.rules@)) by {
        assert forall|left: int, right: int|
            0 <= left < right < set.rules@.len() implies #[trigger] set.rules@[left].id@
            != #[trigger] set.rules@[right].id@ by {
            assert(longer.rules@[left].id@ != longer.rules@[right].id@);
        }
    }
    no_match_is_idle(set, picture);
    no_match_is_idle(longer, picture);
    if rule_holds(longer, picture, last) && forall|index: int|
        0 <= index < set.rules@.len() && #[trigger] rule_holds(set, picture, index)
            ==> set.rules@[index].priority < rule.priority {
        assert forall|other: int|
            0 <= other < longer.rules@.len() && other != last && #[trigger] rule_holds(
                longer,
                picture,
                other,
            ) implies longer.rules@[other].priority < longer.rules@[last].priority by {
            assert(rule_holds(set, picture, other));
        }
        highest_priority_decides(longer, picture, last);
    } else if exists|index: int| 0 <= index < last && #[trigger] rule_holds(set, picture, index) {
        let best = crate::rules::laws::lemma_some_rule_decides(set, picture, last);
        assert(rule_holds(longer, picture, best));
        assert forall|other: int|
            0 <= other < last && other != best && #[trigger] rule_holds(
                set,
                picture,
                other,
            ) implies set.rules@[other].priority < set.rules@[best].priority || (
        set.rules@[other].priority == set.rules@[best].priority && best < other) by {}
        highest_priority_decides(set, picture, best);
        assert forall|other: int|
            0 <= other < longer.rules@.len() && other != best && #[trigger] rule_holds(
                longer,
                picture,
                other,
            ) implies longer.rules@[other].priority < longer.rules@[best].priority || (
        longer.rules@[other].priority == longer.rules@[best].priority && best < other) by {
            if other < last {
                assert(rule_holds(set, picture, other));
            } else {
                let above = choose|index: int|
                    0 <= index < set.rules@.len() && #[trigger] rule_holds(set, picture, index)
                        && set.rules@[index].priority >= rule.priority;
                assert(rule_holds(set, picture, above));
            }
        }
        highest_priority_decides(longer, picture, best);
    } else {
        assert(!rule_holds(longer, picture, last));
        assert forall|index: int| 0 <= index < longer.rules@.len() implies !#[trigger] rule_holds(
            longer,
            picture,
            index,
        ) by {
            if index < last {
                assert(!rule_holds(set, picture, index));
            }
        }
    }
}

/// A condition is accepted at a depth exactly where the depth is at most eight, it has from 1 to 32
/// parts of its own, no text or pattern of it has more than 512 characters, every pattern of it
/// compiles, and every nested condition is accepted one deeper.
pub proof fn accepted_gates_are_sound(gate: Gate, depth: nat)
    ensures
        gate_problem(gate, depth) is None <==> {
            let parts = gate.contains@.len() + gate.regex@.len() + gate.line_regex@.len()
                + gate.all@.len() + gate.any@.len() + gate.not@.len();
            &&& depth <= 8
            &&& 1 <= parts <= 32
            &&& forall|index: int|
                0 <= index < gate.contains@.len() ==> (#[trigger] gate.contains@[index]@).len()
                    <= 512
            &&& forall|index: int|
                0 <= index < gate.regex@.len() ==> (#[trigger] gate.regex@[index]@).len() <= 512
                    && regex_accepts(gate.regex@[index]@)
            &&& forall|index: int|
                0 <= index < gate.line_regex@.len() ==> (#[trigger] gate.line_regex@[index]@).len()
                    <= 512 && regex_accepts(gate.line_regex@[index]@)
            &&& forall|index: int|
                0 <= index < gate.all@.len() ==> gate_problem(
                    #[trigger] gate.all@[index],
                    depth + 1,
                ) is None
            &&& forall|index: int|
                0 <= index < gate.any@.len() ==> gate_problem(
                    #[trigger] gate.any@[index],
                    depth + 1,
                ) is None
            &&& forall|index: int|
                0 <= index < gate.not@.len() ==> gate_problem(
                    #[trigger] gate.not@[index],
                    depth + 1,
                ) is None
        },
{
    lemma_gates_sound(gate.all@, depth + 1);
    lemma_gates_sound(gate.any@, depth + 1);
    lemma_gates_sound(gate.not@, depth + 1);
}

proof fn lemma_gates_sound(gates: Seq<Gate>, depth: nat)
    ensures
        gates_problem(gates, depth) is None <==> forall|index: int|
            0 <= index < gates.len() ==> gate_problem(#[trigger] gates[index], depth) is None,
    decreases gates.len(),
{
    if gates.len() > 0 {
        let before = gates.drop_last();
        lemma_gates_sound(before, depth);
        assert(gates.last() == gates[gates.len() - 1]);
        assert forall|index: int| 0 <= index < before.len() implies #[trigger] gates[index]
            == before[index] by {}
        if gates_problem(before, depth) is Some {
            let index = choose|index: int|
                0 <= index < before.len() && gate_problem(#[trigger] before[index], depth) is Some;
            assert(gate_problem(gates[index], depth) is Some);
        }
    }
}

/// A rule is accepted exactly where no earlier rule has its id, its flags are those of its state,
/// and its condition is accepted.
pub proof fn accepted_rules_are_sound(rules: Seq<Rule>, index: int)
    requires
        0 <= index < rules.len(),
    ensures
        rule_problem(rules, index) is None <==> {
            let rule = rules[index];
            &&& forall|earlier: int|
                0 <= earlier < index ==> #[trigger] rules[earlier].id@ != rule.id@
            &&& rule.visible_idle ==> rule.state is Idle
            &&& rule.visible_blocker ==> rule.state is Blocked
            &&& rule.visible_working ==> rule.state is Working
            &&& gate_problem(rule.gate, 0) is None
        },
{
}

/// The number of conditions in one, itself counted, is one more than in those nested in it; the
/// number of matchers is that of its own and those nested in it.
pub proof fn counts_add_up(gate: Gate, first: Seq<Gate>, second: Seq<Gate>)
    ensures
        gate_count(gate) == 1 + gates_count(gate.all@) + gates_count(gate.any@) + gates_count(
            gate.not@,
        ),
        matcher_count(gate) == gate.contains@.len() + gate.regex@.len() + gate.line_regex@.len()
            + matchers_count(gate.all@) + matchers_count(gate.any@) + matchers_count(gate.not@),
        gates_count(seq![gate]) == gate_count(gate),
        matchers_count(seq![gate]) == matcher_count(gate),
        gates_count(first + second) == gates_count(first) + gates_count(second),
        matchers_count(first + second) == matchers_count(first) + matchers_count(second),
    decreases second.len(),
{
    let one = seq![gate];
    assert(one.drop_last() =~= Seq::empty());
    assert(gates_count(one.drop_last()) == 0);
    assert(matchers_count(one.drop_last()) == 0);
    if second.len() == 0 {
        assert(first + second =~= first);
    } else {
        assert((first + second).drop_last() =~= first + second.drop_last());
        counts_add_up(gate, first, second.drop_last());
    }
}

proof fn lemma_rules_sound(path: Seq<char>, rules: Seq<Rule>, count: nat)
    requires
        count <= rules.len(),
    ensures
        rules_message(path, rules, count) is None <==> forall|index: int|
            0 <= index < count ==> #[trigger] rule_problem(rules, index) is None,
    decreases count,
{
    if count > 0 {
        lemma_rules_sound(path, rules, (count - 1) as nat);
    }
}

/// A rule set is accepted exactly where it has at most 128 rules, all of them accepted, with at
/// most 512 conditions and 1024 matchers in all.
pub proof fn accepted_sets_are_sound(path: Seq<char>, rules: Seq<Rule>)
    ensures
        load_message(path, rules) is None <==> {
            &&& rules.len() <= 128
            &&& forall|index: int|
                0 <= index < rules.len() ==> #[trigger] rule_problem(rules, index) is None
            &&& gates_count(Seq::new(rules.len(), |index: int| rules[index].gate)) <= 512
            &&& matchers_count(Seq::new(rules.len(), |index: int| rules[index].gate)) <= 1024
        },
{
    lemma_rules_sound(path, rules, rules.len());
    assert(rule_gates(rules) =~= Seq::new(rules.len(), |index: int| rules[index].gate));
}

/// A refusal names the file first.
pub proof fn refusals_name_the_file(path: Seq<char>, rules: Seq<Rule>)
    ensures
        load_message(path, rules) matches Some(message) ==> path.is_prefix_of(message),
{
    lemma_message_starts(path, rules, rules.len());
    match load_message(path, rules) {
        Some(message) => {
            assert(path =~= message.subrange(0, path.len() as int));
        },
        None => {},
    }
}

proof fn lemma_message_starts(path: Seq<char>, rules: Seq<Rule>, count: nat)
    ensures
        rules_message(path, rules, count) matches Some(message) ==> path.is_prefix_of(message),
    decreases count,
{
    if count > 0 {
        lemma_message_starts(path, rules, (count - 1) as nat);
        match rules_message(path, rules, count) {
            Some(message) => {
                if rules_message(path, rules, (count - 1) as nat) is None {
                    assert(path =~= message.subrange(0, path.len() as int));
                }
            },
            None => {},
        }
    }
}

/// A text to look for is found whatever the case of it and of the screen.
pub proof fn loaded_texts_ignore_case(before: Gate, after: Gate, text: Seq<char>)
    requires
        gate_lowered(before, after),
        before.contains@.len() == 1,
        before.regex@.len() == 0,
        before.line_regex@.len() == 0,
        before.all@.len() == 0,
        before.any@.len() == 0,
        before.not@.len() == 0,
    ensures
        gate_holds(after, text) <==> occurs(lowercase(text), lowercase(before.contains@[0]@)),
{
    assert(texts(before.regex@).len() == texts(after.regex@).len());
    assert(texts(before.line_regex@).len() == texts(after.line_regex@).len());
    assert(after.contains@[0]@ == lowercase(before.contains@[0]@));
    if occurs(lowercase(text), after.contains@[0]@) {
        assert forall|index: int| 0 <= index < after.contains@.len() implies occurs(
            lowercase(text),
            #[trigger] after.contains@[index]@,
        ) by {
            assert(index == 0);
        }
    }
}

/// Loading leaves a rule set as it was written but for the case of the texts to look for, and for
/// the names of its processes where it lists none: those are its id and then its aliases.
pub proof fn loading_keeps_the_rules(before: RuleSet, after: RuleSet, index: int)
    requires
        set_loaded(before, after),
        0 <= index < before.rules@.len(),
    ensures
        after.id@ == before.id@,
        text_view(after.prompt_marker) == text_view(before.prompt_marker),
        texts(after.block_markers@) == texts(before.block_markers@),
        before.process_names@.len() > 0 ==> texts(after.process_names@) == texts(
            before.process_names@,
        ),
        before.process_names@.len() == 0 ==> texts(after.process_names@) == seq![before.id@]
            + texts(before.aliases@),
        after.rules@.len() == before.rules@.len(),
        after.rules@[index].id@ == before.rules@[index].id@,
        after.rules@[index].state == before.rules@[index].state,
        after.rules@[index].priority == before.rules@[index].priority,
        after.rules@[index].region == before.rules@[index].region,
        after.rules@[index].visible_idle == before.rules@[index].visible_idle,
        after.rules@[index].visible_blocker == before.rules@[index].visible_blocker,
        after.rules@[index].visible_working == before.rules@[index].visible_working,
        texts(after.rules@[index].gate.regex@) == texts(before.rules@[index].gate.regex@),
        texts(after.rules@[index].gate.line_regex@) == texts(before.rules@[index].gate.line_regex@),
        after.rules@[index].gate.contains@.len() == before.rules@[index].gate.contains@.len(),
        after.rules@[index].gate.all@.len() == before.rules@[index].gate.all@.len(),
        after.rules@[index].gate.any@.len() == before.rules@[index].gate.any@.len(),
        after.rules@[index].gate.not@.len() == before.rules@[index].gate.not@.len(),
{
    assert(rule_loaded(before.rules@[index], after.rules@[index]));
}

/// The conditions nested in one are loaded as it is.
pub proof fn nested_gates_are_loaded(before: Gate, after: Gate, index: int)
    requires
        gate_lowered(before, after),
    ensures
        0 <= index < before.all@.len() ==> gate_lowered(before.all@[index], after.all@[index]),
        0 <= index < before.any@.len() ==> gate_lowered(before.any@[index], after.any@[index]),
        0 <= index < before.not@.len() ==> gate_lowered(before.not@[index], after.not@[index]),
        after.all@.len() == before.all@.len(),
        after.any@.len() == before.any@.len(),
        after.not@.len() == before.not@.len(),
{
}

/// A refusal over a rule names the file, the first rule that something speaks against, and what it
/// is.
pub proof fn refusals_name_the_first_rule(
    path: Seq<char>,
    rules: Seq<Rule>,
    index: int,
    problem: Seq<char>,
)
    requires
        rules.len() <= 128,
        0 <= index < rules.len(),
        rule_problem(rules, index) == Some(problem),
        forall|earlier: int|
            0 <= earlier < index ==> #[trigger] rule_problem(rules, earlier) is None,
    ensures
        load_message(path, rules) == Some(path + ": rule "@ + rules[index].id@ + ": "@ + problem),
{
    lemma_rules_sound(path, rules, index as nat);
    lemma_message_stays(path, rules, (index + 1) as nat, rules.len());
}

proof fn lemma_message_stays(path: Seq<char>, rules: Seq<Rule>, count: nat, total: nat)
    requires
        count <= total,
        rules_message(path, rules, count) is Some,
    ensures
        rules_message(path, rules, total) == rules_message(path, rules, count),
    decreases total - count,
{
    if count < total {
        lemma_message_stays(path, rules, count, (total - 1) as nat);
    }
}

/// What speaks against a rule alone is told in this order: its id, its flags, and the complexity,
/// the emptiness, the texts and the patterns of its condition.
pub proof fn problems_are_named(rules: Seq<Rule>, index: int)
    requires
        0 <= index < rules.len(),
    ensures
        ({
            let rule = rules[index];
            let gate = rule.gate;
            let parts = gate.contains@.len() + gate.regex@.len() + gate.line_regex@.len()
                + gate.all@.len() + gate.any@.len() + gate.not@.len();
            let unique = forall|earlier: int|
                0 <= earlier < index ==> #[trigger] rules[earlier].id@ != rule.id@;
            let agrees = (rule.visible_idle ==> rule.state is Idle) && (rule.visible_blocker
                ==> rule.state is Blocked) && (rule.visible_working ==> rule.state is Working);
            let short = forall|at: int|
                0 <= at < gate.contains@.len() ==> (#[trigger] gate.contains@[at]@).len() <= 512;
            &&& !unique ==> rule_problem(rules, index) == Some("duplicate rule id"@)
            &&& unique && agrees && parts > 32 ==> rule_problem(rules, index) == Some(
                "gate complexity limit exceeded"@,
            )
            &&& unique && agrees && parts == 0 ==> rule_problem(rules, index) == Some(
                "gate has no matcher"@,
            )
            &&& unique && agrees && 1 <= parts <= 32 && !short ==> rule_problem(rules, index)
                == Some("matcher exceeds 512 characters"@)
        }),
{
}

} // verus!
