//! Rule sets: their shape, the names of their regions, and the checks that a set has to pass.
use crate::numeral::{codes_of_chars, parse_unsigned, unsigned};
use crate::osc::text_view;
use crate::rules::pattern::{compile, compiles};
use crate::text::{
    chars_of, copied_texts, lemma_texts_push, lowercase, same_text, starts_with, texts,
    to_lowercase,
};
use vstd::prelude::*;

verus! {

/// The part of a screen that a rule reads.
#[derive(Clone, Copy, Debug, PartialEq, Eq, Structural)]
pub enum Region {
    Whole,
    Bottom(usize),
    Top(usize),
    BottomNonEmpty(usize),
    TopNonEmpty(usize),
    PromptBox,
    AbovePromptBox,
    LastLineAbovePromptBox,
    AfterLastRule,
    AfterLastPromptMarker,
    WholeUnlessAtPrompt,
    Title,
    Progress,
}

impl Default for Region {
    fn default() -> (region: Self)
        ensures
            region == Region::Whole,
    {
        Region::Whole
    }
}

/// The count in a region name such as `bottom(3)`, given the part before the count.
pub open spec fn region_count(name: Seq<char>, opening: Seq<char>) -> Option<usize> {
    let inner = name.subrange(opening.len() as int, name.len() - 1);
    if opening.is_prefix_of(name) && name.len() > opening.len() && name.last() == ')' && unsigned(
        codes_of_chars(inner),
    ) is Some && unsigned(codes_of_chars(inner))->0 <= usize::MAX {
        Some(unsigned(codes_of_chars(inner))->0 as usize)
    } else {
        None
    }
}

/// The region that a name stands for.
pub open spec fn region_named(name: Seq<char>) -> Option<Region> {
    if name == "whole"@ {
        Some(Region::Whole)
    } else if name == "prompt_box"@ {
        Some(Region::PromptBox)
    } else if name == "above_prompt_box"@ {
        Some(Region::AbovePromptBox)
    } else if name == "last_line_above_prompt_box"@ {
        Some(Region::LastLineAbovePromptBox)
    } else if name == "after_last_rule"@ {
        Some(Region::AfterLastRule)
    } else if name == "after_last_prompt_marker"@ {
        Some(Region::AfterLastPromptMarker)
    } else if name == "whole_unless_at_prompt"@ {
        Some(Region::WholeUnlessAtPrompt)
    } else if name == "title"@ {
        Some(Region::Title)
    } else if name == "progress"@ {
        Some(Region::Progress)
    } else if region_count(name, "bottom("@) is Some {
        Some(Region::Bottom(region_count(name, "bottom("@)->0))
    } else if region_count(name, "top("@) is Some {
        Some(Region::Top(region_count(name, "top("@)->0))
    } else if region_count(name, "bottom_non_empty("@) is Some {
        Some(Region::BottomNonEmpty(region_count(name, "bottom_non_empty("@)->0))
    } else if region_count(name, "top_non_empty("@) is Some {
        Some(Region::TopNonEmpty(region_count(name, "top_non_empty("@)->0))
    } else {
        None
    }
}

fn read_count(name: &[char], opening: &str) -> (count: Option<usize>)
    ensures
        count == region_count(name@, opening@),
{
    let prefix = chars_of(opening);
    if name.len() <= prefix.len() || !starts_with(name, prefix.as_slice()) || name[name.len() - 1]
        != ')' {
        return None;
    }
    match parse_unsigned(&name[prefix.len()..name.len() - 1], usize::MAX as u64) {
        Some(count) => Some(count as usize),
        None => None,
    }
}

impl Region {
    /// Reads the name of a region.
    pub fn from_str(value: &str) -> (region: Result<Self, String>)
        ensures
            match region {
                Ok(found) => region_named(value@) == Some(found),
                Err(problem) => region_named(value@) is None && problem@ == "unknown region "@
                    + value@,
            },
    {
        if same_text(value, "whole") {
            return Ok(Region::Whole);
        }
        if same_text(value, "prompt_box") {
            return Ok(Region::PromptBox);
        }
        if same_text(value, "above_prompt_box") {
            return Ok(Region::AbovePromptBox);
        }
        if same_text(value, "last_line_above_prompt_box") {
            return Ok(Region::LastLineAbovePromptBox);
        }
        if same_text(value, "after_last_rule") {
            return Ok(Region::AfterLastRule);
        }
        if same_text(value, "after_last_prompt_marker") {
            return Ok(Region::AfterLastPromptMarker);
        }
        if same_text(value, "whole_unless_at_prompt") {
            return Ok(Region::WholeUnlessAtPrompt);
        }
        if same_text(value, "title") {
            return Ok(Region::Title);
        }
        if same_text(value, "progress") {
            return Ok(Region::Progress);
        }
        let name = chars_of(value);
        match read_count(name.as_slice(), "bottom(") {
            Some(count) => {
                return Ok(Region::Bottom(count));
            },
            None => {},
        }
        match read_count(name.as_slice(), "top(") {
            Some(count) => {
                return Ok(Region::Top(count));
            },
            None => {},
        }
        match read_count(name.as_slice(), "bottom_non_empty(") {
            Some(count) => {
                return Ok(Region::BottomNonEmpty(count));
            },
            None => {},
        }
        match read_count(name.as_slice(), "top_non_empty(") {
            Some(count) => {
                return Ok(Region::TopNonEmpty(count));
            },
            None => {},
        }
        let mut problem = "unknown region ".to_owned();
        problem.append(value);
        Err(problem)
    }
}

/// The state that a rule asserts. `Skip` vetoes an update.
#[derive(Clone, Copy, Debug, PartialEq, Eq, Structural)]
pub enum RuleState {
    Working,
    Blocked,
    Idle,
    Skip,
}

/// A condition on a text. All its parts have to hold.
#[derive(Debug)]
pub struct Gate {
    /// Texts that occur, in lower case.
    pub contains: Vec<String>,
    /// Patterns that match the text.
    pub regex: Vec<String>,
    /// Patterns that match a line of the text.
    pub line_regex: Vec<String>,
    /// Conditions that all hold.
    pub all: Vec<Gate>,
    /// Conditions of which one holds, if there are any.
    pub any: Vec<Gate>,
    /// Conditions of which none holds.
    pub not: Vec<Gate>,
}

/// A state, and the condition on a region under which it is asserted.
#[derive(Debug)]
pub struct Rule {
    pub id: String,
    pub state: RuleState,
    pub priority: i32,
    pub region: Region,
    pub visible_idle: bool,
    pub visible_blocker: bool,
    pub visible_working: bool,
    pub gate: Gate,
}

/// The rules for one agent.
#[derive(Debug)]
pub struct RuleSet {
    pub id: String,
    pub aliases: Vec<String>,
    pub process_names: Vec<String>,
    pub prompt_marker: Option<String>,
    pub block_markers: Vec<String>,
    pub rules: Vec<Rule>,
}

/// Why a rule set is refused.
#[derive(Debug)]
pub struct Error {
    pub problem: String,
}

impl Error {
    pub fn message(&self) -> (text: &str)
        ensures
            text@ == self.problem@,
    {
        self.problem.as_str()
    }
}

/// The most rules that a set may hold.
pub const MAX_RULES: usize = 128;

/// The most gates that the rules of a set may hold, nested ones counted.
pub const MAX_GATES: usize = 512;

/// The most matchers that the rules of a set may hold.
pub const MAX_MATCHERS: usize = 1024;

/// The most matchers and nested gates that one gate may hold.
pub const MAX_GATE_PARTS: usize = 32;

/// The longest matcher, in characters.
pub const MAX_MATCHER_CHARS: usize = 512;

/// The deepest nesting of gates below that of a rule.
pub const MAX_GATE_DEPTH: usize = 8;

/// The number of matchers and nested gates that a gate holds itself.
pub open spec fn gate_parts(gate: Gate) -> nat {
    gate.contains@.len() + gate.regex@.len() + gate.line_regex@.len() + gate.all@.len()
        + gate.any@.len() + gate.not@.len()
}

/// One of the texts to look for is too long.
pub open spec fn overlong_matcher(gate: Gate) -> bool {
    exists|index: int|
        0 <= index < gate.contains@.len() && (#[trigger] gate.contains@[index]@).len()
            > MAX_MATCHER_CHARS
}

/// One of the patterns is too long, or does not compile.
pub open spec fn invalid_pattern(patterns: Seq<String>) -> bool {
    exists|index: int|
        0 <= index < patterns.len() && ((#[trigger] patterns[index]@).len()
            > MAX_MATCHER_CHARS || !compiles(patterns[index]@))
}

/// What speaks against a gate at the given depth: the first thing found, in itself before in those
/// nested in it.
pub open spec fn gate_problem(gate: Gate, depth: nat) -> Option<Seq<char>>
    decreases gate,
{
    if depth > MAX_GATE_DEPTH || gate_parts(gate) > MAX_GATE_PARTS {
        Some("gate complexity limit exceeded"@)
    } else if gate_parts(gate) == 0 {
        Some("gate has no matcher"@)
    } else if overlong_matcher(gate) {
        Some("matcher exceeds 512 characters"@)
    } else if invalid_pattern(gate.regex@) || invalid_pattern(gate.line_regex@) {
        Some("invalid regex"@)
    } else if gates_problem(gate.all@, depth + 1) is Some {
        gates_problem(gate.all@, depth + 1)
    } else if gates_problem(gate.any@, depth + 1) is Some {
        gates_problem(gate.any@, depth + 1)
    } else {
        gates_problem(gate.not@, depth + 1)
    }
}

/// What speaks against the first of the gates that something speaks against.
pub open spec fn gates_problem(gates: Seq<Gate>, depth: nat) -> Option<Seq<char>>
    decreases gates,
{
    if gates.len() == 0 {
        None
    } else if gates_problem(gates.drop_last(), depth) is Some {
        gates_problem(gates.drop_last(), depth)
    } else {
        gate_problem(gates.last(), depth)
    }
}

/// The number of gates, nested ones counted.
pub open spec fn gate_count(gate: Gate) -> nat
    decreases gate,
{
    1 + gates_count(gate.all@) + gates_count(gate.any@) + gates_count(gate.not@)
}

pub open spec fn gates_count(gates: Seq<Gate>) -> nat
    decreases gates,
{
    if gates.len() == 0 {
        0
    } else {
        gates_count(gates.drop_last()) + gate_count(gates.last())
    }
}

/// The number of matchers, those of nested gates counted.
pub open spec fn matcher_count(gate: Gate) -> nat
    decreases gate,
{
    gate.contains@.len() + gate.regex@.len() + gate.line_regex@.len() + matchers_count(gate.all@)
        + matchers_count(gate.any@) + matchers_count(gate.not@)
}

pub open spec fn matchers_count(gates: Seq<Gate>) -> nat
    decreases gates,
{
    if gates.len() == 0 {
        0
    } else {
        matchers_count(gates.drop_last()) + matcher_count(gates.last())
    }
}

/// A flag of the rule contradicts its state.
pub open spec fn flag_problem(rule: Rule) -> Option<Seq<char>> {
    match rule.state {
        RuleState::Idle => if rule.visible_blocker || rule.visible_working {
            Some("idle rule has mismatched visible flag"@)
        } else {
            None
        },
        RuleState::Blocked => if rule.visible_idle || rule.visible_working {
            Some("blocked rule has mismatched visible flag"@)
        } else {
            None
        },
        RuleState::Working => if rule.visible_idle || rule.visible_blocker {
            Some("working rule has mismatched visible flag"@)
        } else {
            None
        },
        RuleState::Skip => if rule.visible_idle || rule.visible_blocker || rule.visible_working {
            Some("skip rule carries flags"@)
        } else {
            None
        },
    }
}

/// An earlier rule has the same id.
pub open spec fn duplicate_id(rules: Seq<Rule>, index: int) -> bool {
    exists|earlier: int| 0 <= earlier < index && #[trigger] rules[earlier].id@ == rules[index].id@
}

/// What speaks against the rule at `index`.
pub open spec fn rule_problem(rules: Seq<Rule>, index: int) -> Option<Seq<char>> {
    if duplicate_id(rules, index) {
        Some("duplicate rule id"@)
    } else if flag_problem(rules[index]) is Some {
        flag_problem(rules[index])
    } else {
        gate_problem(rules[index].gate, 0)
    }
}

/// The gates of the rules.
pub open spec fn rule_gates(rules: Seq<Rule>) -> Seq<Gate> {
    Seq::new(rules.len(), |index: int| rules[index].gate)
}

/// How a problem of one rule is reported.
pub open spec fn rule_message(path: Seq<char>, rule: Seq<char>, problem: Seq<char>) -> Seq<char> {
    path + ": rule "@ + rule + ": "@ + problem
}

/// How a problem of the whole set is reported.
pub open spec fn set_message(path: Seq<char>, problem: Seq<char>) -> Seq<char> {
    path + ": "@ + problem
}

/// The report on the first of the leading rules that something speaks against.
pub open spec fn rules_message(path: Seq<char>, rules: Seq<Rule>, count: nat) -> Option<Seq<char>>
    decreases count,
{
    if count == 0 {
        None
    } else if rules_message(path, rules, (count - 1) as nat) is Some {
        rules_message(path, rules, (count - 1) as nat)
    } else {
        match rule_problem(rules, count - 1) {
            Some(problem) => Some(rule_message(path, rules[count - 1].id@, problem)),
            None => None,
        }
    }
}

/// The report on what speaks against a rule set.
pub open spec fn load_message(path: Seq<char>, rules: Seq<Rule>) -> Option<Seq<char>> {
    if rules.len() > MAX_RULES {
        Some(set_message(path, "more than 128 rules"@))
    } else if rules_message(path, rules, rules.len()) is Some {
        rules_message(path, rules, rules.len())
    } else if gates_count(rule_gates(rules)) > MAX_GATES || matchers_count(rule_gates(rules))
        > MAX_MATCHERS {
        Some(set_message(path, "rule complexity limit exceeded"@))
    } else {
        None
    }
}

/// The same condition with its texts in lower case.
pub open spec fn gate_lowered(before: Gate, after: Gate) -> bool
    decreases before,
{
    &&& after.contains@.len() == before.contains@.len()
    &&& forall|index: int|
        0 <= index < before.contains@.len() ==> (#[trigger] after.contains@[index])@ == lowercase(
            before.contains@[index]@,
        )
    &&& texts(after.regex@) == texts(before.regex@)
    &&& texts(after.line_regex@) == texts(before.line_regex@)
    &&& gates_lowered(before.all@, after.all@)
    &&& gates_lowered(before.any@, after.any@)
    &&& gates_lowered(before.not@, after.not@)
}

pub open spec fn gates_lowered(before: Seq<Gate>, after: Seq<Gate>) -> bool
    decreases before,
{
    &&& after.len() == before.len()
    &&& forall|index: int|
        0 <= index < before.len() ==> gate_lowered(before[index], #[trigger] after[index])
}

/// The rule with its gate lowered, and all else unchanged.
pub open spec fn rule_loaded(before: Rule, after: Rule) -> bool {
    &&& after.id@ == before.id@
    &&& after.state == before.state
    &&& after.priority == before.priority
    &&& after.region == before.region
    &&& after.visible_idle == before.visible_idle
    &&& after.visible_blocker == before.visible_blocker
    &&& after.visible_working == before.visible_working
    &&& gate_lowered(before.gate, after.gate)
}

/// The names of the processes that belong to a rule set: those that it lists, or else its id and
/// its aliases.
pub open spec fn effective_names(set: RuleSet) -> Seq<Seq<char>> {
    if set.process_names@.len() == 0 {
        seq![set.id@] + texts(set.aliases@)
    } else {
        texts(set.process_names@)
    }
}

/// The rule set as it is used: its rules loaded and its process names filled in.
pub open spec fn set_loaded(before: RuleSet, after: RuleSet) -> bool {
    &&& after.id@ == before.id@
    &&& texts(after.aliases@) == texts(before.aliases@)
    &&& texts(after.process_names@) == effective_names(before)
    &&& text_view(after.prompt_marker) == text_view(before.prompt_marker)
    &&& texts(after.block_markers@) == texts(before.block_markers@)
    &&& after.rules@.len() == before.rules@.len()
    &&& forall|index: int|
        0 <= index < before.rules@.len() ==> rule_loaded(
            before.rules@[index],
            #[trigger] after.rules@[index],
        )
}

/// What a count comes to in a counter that stops at its largest value.
pub open spec fn counted(count: int) -> int {
    if count > usize::MAX {
        usize::MAX as int
    } else {
        count
    }
}

/// Counters of gates and of matchers.
struct Totals {
    gates: usize,
    matchers: usize,
}

fn count_up(total: usize, more: usize) -> (sum: usize)
    ensures
        sum == counted(total + more),
{
    if more > usize::MAX - total {
        usize::MAX
    } else {
        total + more
    }
}

fn message_of(path: &str, problem: &str) -> (error: Error)
    ensures
        error.problem@ == set_message(path@, problem@),
{
    let mut text = path.to_owned();
    text.append(": ");
    text.append(problem);
    Error { problem: text }
}

fn rule_error(path: &str, rule_id: &str, problem: &str) -> (error: Error)
    ensures
        error.problem@ == rule_message(path@, rule_id@, problem@),
{
    let mut text = path.to_owned();
    text.append(": rule ");
    text.append(rule_id);
    text.append(": ");
    text.append(problem);
    Error { problem: text }
}

fn has_overlong_matcher(gate: &Gate) -> (found: bool)
    ensures
        found == overlong_matcher(*gate),
{
    for index in 0..gate.contains.len()
        invariant
            forall|earlier: int|
                0 <= earlier < index ==> (#[trigger] gate.contains@[earlier]@).len()
                    <= MAX_MATCHER_CHARS,
    {
        if chars_of(gate.contains[index].as_str()).len() > MAX_MATCHER_CHARS {
            assert(gate.contains@[index as int]@.len() > MAX_MATCHER_CHARS);
            return true;
        }
    }
    false
}

fn has_invalid_pattern(patterns: &Vec<String>) -> (found: bool)
    ensures
        found == invalid_pattern(patterns@),
{
    for index in 0..patterns.len()
        invariant
            forall|earlier: int|
                0 <= earlier < index ==> (#[trigger] patterns@[earlier]@).len()
                    <= MAX_MATCHER_CHARS && compiles(patterns@[earlier]@),
    {
        let pattern = patterns[index].as_str();
        if chars_of(pattern).len() > MAX_MATCHER_CHARS || compile(pattern).is_none() {
            assert(patterns@[index as int]@.len() > MAX_MATCHER_CHARS || !compiles(
                patterns@[index as int]@,
            ));
            return true;
        }
    }
    false
}

fn parts_exceed(gate: &Gate, limit: usize) -> (more: bool)
    ensures
        more == (gate_parts(*gate) > limit),
{
    let mut left: usize = limit;
    if gate.contains.len() > left {
        return true;
    }
    left = left - gate.contains.len();
    if gate.regex.len() > left {
        return true;
    }
    left = left - gate.regex.len();
    if gate.line_regex.len() > left {
        return true;
    }
    left = left - gate.line_regex.len();
    if gate.all.len() > left {
        return true;
    }
    left = left - gate.all.len();
    if gate.any.len() > left {
        return true;
    }
    left = left - gate.any.len();
    gate.not.len() > left
}

/// Checks a gate and those nested in it, and counts them.
fn validate_gate(
    path: &str,
    rule_id: &str,
    gate: &Gate,
    depth: usize,
    totals: &mut Totals,
) -> (checked: Result<(), Error>)
    requires
        depth <= MAX_GATE_DEPTH + 1,
    ensures
        match checked {
            Ok(()) => {
                &&& gate_problem(*gate, depth as nat) is None
                &&& final(totals).gates == counted(old(totals).gates + gate_count(*gate))
                &&& final(totals).matchers == counted(old(totals).matchers + matcher_count(*gate))
            },
            Err(error) => {
                &&& gate_problem(*gate, depth as nat) is Some
                &&& error.problem@ == rule_message(
                    path@,
                    rule_id@,
                    gate_problem(*gate, depth as nat)->0,
                )
            },
        },
    decreases MAX_GATE_DEPTH + 1 - depth, 0int,
{
    if depth > MAX_GATE_DEPTH || parts_exceed(gate, MAX_GATE_PARTS) {
        return Err(rule_error(path, rule_id, "gate complexity limit exceeded"));
    }
    if !parts_exceed(gate, 0) {
        return Err(rule_error(path, rule_id, "gate has no matcher"));
    }
    if has_overlong_matcher(gate) {
        return Err(rule_error(path, rule_id, "matcher exceeds 512 characters"));
    }
    if has_invalid_pattern(&gate.regex) || has_invalid_pattern(&gate.line_regex) {
        return Err(rule_error(path, rule_id, "invalid regex"));
    }
    totals.gates = count_up(totals.gates, 1);
    totals.matchers = count_up(totals.matchers, gate.contains.len());
    totals.matchers = count_up(totals.matchers, gate.regex.len());
    totals.matchers = count_up(totals.matchers, gate.line_regex.len());
    match validate_gates(path, rule_id, &gate.all, depth + 1, totals) {
        Ok(()) => {},
        Err(error) => {
            return Err(error);
        },
    }
    match validate_gates(path, rule_id, &gate.any, depth + 1, totals) {
        Ok(()) => {},
        Err(error) => {
            return Err(error);
        },
    }
    validate_gates(path, rule_id, &gate.not, depth + 1, totals)
}

/// Checks the gates in order, and counts them.
fn validate_gates(
    path: &str,
    rule_id: &str,
    gates: &Vec<Gate>,
    depth: usize,
    totals: &mut Totals,
) -> (checked: Result<(), Error>)
    requires
        depth <= MAX_GATE_DEPTH + 1,
    ensures
        match checked {
            Ok(()) => {
                &&& gates_problem(gates@, depth as nat) is None
                &&& final(totals).gates == counted(old(totals).gates + gates_count(gates@))
                &&& final(totals).matchers == counted(
                    old(totals).matchers + matchers_count(gates@),
                )
            },
            Err(error) => {
                &&& gates_problem(gates@, depth as nat) is Some
                &&& error.problem@ == rule_message(
                    path@,
                    rule_id@,
                    gates_problem(gates@, depth as nat)->0,
                )
            },
        },
    decreases MAX_GATE_DEPTH + 1 - depth, 1int,
{
    let mut index: usize = 0;
    while index < gates.len()
        invariant
            index <= gates@.len(),
            depth <= MAX_GATE_DEPTH + 1,
            gates_problem(gates@.take(index as int), depth as nat) is None,
            totals.gates == counted(old(totals).gates + gates_count(gates@.take(index as int))),
            totals.matchers == counted(
                old(totals).matchers + matchers_count(gates@.take(index as int)),
            ),
        decreases gates@.len() - index,
    {
        let ghost longer = gates@.take(index + 1);
        assert(longer.drop_last() =~= gates@.take(index as int));
        assert(longer.last() == gates@[index as int]);
        match validate_gate(path, rule_id, &gates[index], depth, totals) {
            Ok(()) => {},
            Err(error) => {
                proof {
                    lemma_first_problem(gates@, depth as nat, index + 1);
                }
                return Err(error);
            },
        }
        index = index + 1;
    }
    assert(gates@.take(gates@.len() as int) =~= gates@);
    Ok(())
}

/// What speaks against the leading gates speaks against all of them.
proof fn lemma_first_problem(gates: Seq<Gate>, depth: nat, count: int)
    requires
        0 <= count <= gates.len(),
        gates_problem(gates.take(count), depth) is Some,
    ensures
        gates_problem(gates, depth) == gates_problem(gates.take(count), depth),
    decreases gates.len() - count,
{
    if count == gates.len() {
        assert(gates.take(count) =~= gates);
    } else {
        assert(gates.take(count + 1).drop_last() =~= gates.take(count));
        lemma_first_problem(gates, depth, count + 1);
    }
}

fn lowered_texts(given: &Vec<String>) -> (lower: Vec<String>)
    ensures
        lower@.len() == given@.len(),
        forall|index: int|
            0 <= index < given@.len() ==> (#[trigger] lower@[index])@ == lowercase(
                given@[index]@,
            ),
{
    let mut lower: Vec<String> = Vec::new();
    for index in 0..given.len()
        invariant
            lower@.len() == index,
            forall|earlier: int|
                0 <= earlier < index ==> (#[trigger] lower@[earlier])@ == lowercase(
                    given@[earlier]@,
                ),
    {
        lower.push(to_lowercase(given[index].as_str()));
    }
    lower
}

fn lowered(gate: &Gate) -> (lower: Gate)
    ensures
        gate_lowered(*gate, lower),
    decreases gate,
{
    Gate {
        contains: lowered_texts(&gate.contains),
        regex: copied_texts(&gate.regex),
        line_regex: copied_texts(&gate.line_regex),
        all: lowered_all(&gate.all),
        any: lowered_all(&gate.any),
        not: lowered_all(&gate.not),
    }
}

fn lowered_all(gates: &Vec<Gate>) -> (lower: Vec<Gate>)
    ensures
        gates_lowered(gates@, lower@),
    decreases gates,
{
    let mut lower: Vec<Gate> = Vec::new();
    for index in 0..gates.len()
        invariant
            lower@.len() == index,
            forall|earlier: int|
                0 <= earlier < index ==> gate_lowered(gates@[earlier], #[trigger] lower@[earlier]),
    {
        lower.push(lowered(&gates[index]));
    }
    lower
}

fn has_duplicate_id(rules: &Vec<Rule>, index: usize) -> (found: bool)
    requires
        index < rules@.len(),
    ensures
        found == duplicate_id(rules@, index as int),
{
    for earlier in 0..index
        invariant
            index < rules@.len(),
            forall|before: int|
                0 <= before < earlier ==> #[trigger] rules@[before].id@ != rules@[index as int].id@,
    {
        if same_text(rules[earlier].id.as_str(), rules[index].id.as_str()) {
            assert(rules@[earlier as int].id@ == rules@[index as int].id@);
            return true;
        }
    }
    false
}

fn contradicting_flag(rule: &Rule) -> (problem: Option<&'static str>)
    ensures
        match problem {
            Some(text) => flag_problem(*rule) == Some(text@),
            None => flag_problem(*rule) is None,
        },
{
    match rule.state {
        RuleState::Idle => if rule.visible_blocker || rule.visible_working {
            Some("idle rule has mismatched visible flag")
        } else {
            None
        },
        RuleState::Blocked => if rule.visible_idle || rule.visible_working {
            Some("blocked rule has mismatched visible flag")
        } else {
            None
        },
        RuleState::Working => if rule.visible_idle || rule.visible_blocker {
            Some("working rule has mismatched visible flag")
        } else {
            None
        },
        RuleState::Skip => if rule.visible_idle || rule.visible_blocker || rule.visible_working {
            Some("skip rule carries flags")
        } else {
            None
        },
    }
}

/// The report on the leading rules is the report on all of them, once there is one.
proof fn lemma_first_message(path: Seq<char>, rules: Seq<Rule>, count: nat)
    requires
        count <= rules.len(),
        rules_message(path, rules, count) is Some,
    ensures
        rules_message(path, rules, rules.len()) == rules_message(path, rules, count),
    decreases rules.len() - count,
{
    if count < rules.len() {
        lemma_first_message(path, rules, count + 1);
    }
}

/// Checks the rules in order, and counts their gates and matchers.
fn validate_rules(path: &str, rules: &Vec<Rule>) -> (checked: Result<Totals, Error>)
    ensures
        match checked {
            Ok(totals) => {
                &&& rules_message(path@, rules@, rules@.len()) is None
                &&& totals.gates == counted(gates_count(rule_gates(rules@)) as int)
                &&& totals.matchers == counted(matchers_count(rule_gates(rules@)) as int)
            },
            Err(error) => rules_message(path@, rules@, rules@.len()) == Some(error.problem@),
        },
{
    let mut totals = Totals { gates: 0, matchers: 0 };
    let ghost gates = rule_gates(rules@);
    assert(gates.take(0) =~= Seq::empty());
    for index in 0..rules.len()
        invariant
            gates == rule_gates(rules@),
            rules_message(path@, rules@, index as nat) is None,
            totals.gates == counted(gates_count(gates.take(index as int)) as int),
            totals.matchers == counted(matchers_count(gates.take(index as int)) as int),
    {
        let rule = &rules[index];
        assert(gates.take(index + 1).drop_last() =~= gates.take(index as int));
        assert(gates.take(index + 1).last() == rule.gate);
        if has_duplicate_id(rules, index) {
            let error = rule_error(path, rule.id.as_str(), "duplicate rule id");
            proof {
                lemma_first_message(path@, rules@, (index + 1) as nat);
            }
            return Err(error);
        }
        match contradicting_flag(rule) {
            Some(problem) => {
                let error = rule_error(path, rule.id.as_str(), problem);
                proof {
                    lemma_first_message(path@, rules@, (index + 1) as nat);
                }
                return Err(error);
            },
            None => {},
        }
        match validate_gate(path, rule.id.as_str(), &rule.gate, 0, &mut totals) {
            Ok(()) => {},
            Err(error) => {
                proof {
                    lemma_first_message(path@, rules@, (index + 1) as nat);
                }
                return Err(error);
            },
        }
    }
    assert(gates.take(rules@.len() as int) =~= gates);
    Ok(totals)
}

fn loaded_rules(rules: &Vec<Rule>) -> (loaded: Vec<Rule>)
    ensures
        loaded@.len() == rules@.len(),
        forall|index: int|
            0 <= index < rules@.len() ==> rule_loaded(rules@[index], #[trigger] loaded@[index]),
{
    let mut loaded: Vec<Rule> = Vec::new();
    for index in 0..rules.len()
        invariant
            loaded@.len() == index,
            forall|earlier: int|
                0 <= earlier < index ==> rule_loaded(rules@[earlier], #[trigger] loaded@[earlier]),
    {
        let rule = &rules[index];
        loaded.push(
            Rule {
                id: rule.id.clone(),
                state: rule.state,
                priority: rule.priority,
                region: rule.region,
                visible_idle: rule.visible_idle,
                visible_blocker: rule.visible_blocker,
                visible_working: rule.visible_working,
                gate: lowered(&rule.gate),
            },
        );
    }
    loaded
}

/// Checks a rule set that was read from the file at `path`, or whose reading failed with the
/// given text, and makes it ready for use.
pub fn load(path: &str, parsed: Result<RuleSet, String>) -> (loaded: Result<RuleSet, Error>)
    ensures
        match (parsed, loaded) {
            (Err(problem), Err(error)) => error.problem@ == set_message(path@, problem@),
            (Err(_), Ok(_)) => false,
            (Ok(set), Err(error)) => load_message(path@, set.rules@) == Some(error.problem@),
            (Ok(set), Ok(ready)) => load_message(path@, set.rules@) is None && set_loaded(
                set,
                ready,
            ),
        },
{
    let set = match parsed {
        Ok(set) => set,
        Err(problem) => {
            return Err(message_of(path, problem.as_str()));
        },
    };
    if set.rules.len() > MAX_RULES {
        return Err(message_of(path, "more than 128 rules"));
    }
    let totals = match validate_rules(path, &set.rules) {
        Ok(totals) => totals,
        Err(error) => {
            return Err(error);
        },
    };
    if totals.gates > MAX_GATES || totals.matchers > MAX_MATCHERS {
        return Err(message_of(path, "rule complexity limit exceeded"));
    }
    let ghost before = set;
    let mut names = copied_texts(&set.process_names);
    if set.process_names.len() == 0 {
        proof {
            lemma_texts_push(names@, set.id);
        }
        names.push(set.id.clone());
        assert(texts(names@) =~= seq![set.id@] + texts(set.aliases@).take(0));
        let mut index: usize = 0;
        while index < set.aliases.len()
            invariant
                set == before,
                index <= set.aliases@.len(),
                texts(names@) == seq![set.id@] + texts(set.aliases@).take(index as int),
            decreases set.aliases@.len() - index,
        {
            proof {
                lemma_texts_push(names@, set.aliases@[index as int]);
            }
            names.push(set.aliases[index].clone());
            assert(texts(names@) =~= seq![set.id@] + texts(set.aliases@).take(index + 1));
            index = index + 1;
        }
        assert(texts(names@) =~= effective_names(set));
    }
    let rules = loaded_rules(&set.rules);
    Ok(
        RuleSet {
            id: set.id,
            aliases: set.aliases,
            process_names: names,
            prompt_marker: set.prompt_marker,
            block_markers: set.block_markers,
            rules,
        },
    )
}

} // verus!
