//! Identification of the agent in a job.
use crate::osc::{text_view, valid_agent, AgentId};
use crate::platform::{Job, Pid, Process};
use crate::rules::schema::RuleSet;
use crate::text::{
    chars_of, ends_with, same_chars, same_text, split, split_chars, starts_with, string_of, texts,
};
use vstd::prelude::*;

verus! {

pub open spec fn quote(character: char) -> bool {
    character == '\'' || character == '"'
}

/// A text without the quotes at its end.
pub open spec fn unquote_end(text: Seq<char>) -> Seq<char>
    decreases text.len(),
{
    if text.len() > 0 && quote(text.last()) {
        unquote_end(text.drop_last())
    } else {
        text
    }
}

/// A text without the quotes at its start.
pub open spec fn unquote_start(text: Seq<char>) -> Seq<char>
    decreases text.len(),
{
    if text.len() > 0 && quote(text[0]) {
        unquote_start(text.skip(1))
    } else {
        text
    }
}

/// A text without the quotes at its ends.
pub open spec fn unquoted(text: Seq<char>) -> Seq<char> {
    unquote_start(unquote_end(text))
}

/// The last of the parts of a path that names a file. Empty parts and dots at the end name
/// nothing; two dots name no file.
pub open spec fn last_part(parts: Seq<Seq<char>>) -> Option<Seq<char>>
    decreases parts.len(),
{
    if parts.len() == 0 {
        None
    } else if parts.last() == ""@ || parts.last() == "."@ {
        last_part(parts.drop_last())
    } else if parts.last() == ".."@ {
        None
    } else {
        Some(parts.last())
    }
}

/// A name without the given ending.
pub open spec fn without_suffix(name: Seq<char>, suffix: Seq<char>) -> Seq<char> {
    name.take(name.len() - suffix.len())
}

/// A name without the ending of a script.
pub open spec fn without_extension(name: Seq<char>) -> Seq<char> {
    if ".js"@.is_suffix_of(name) {
        without_suffix(name, ".js"@)
    } else if ".mjs"@.is_suffix_of(name) {
        without_suffix(name, ".mjs"@)
    } else if ".cjs"@.is_suffix_of(name) {
        without_suffix(name, ".cjs"@)
    } else if ".py"@.is_suffix_of(name) {
        without_suffix(name, ".py"@)
    } else {
        name
    }
}

/// The name of the program or script at a path.
pub open spec fn base_name(path: Seq<char>) -> Seq<char> {
    let text = unquoted(path);
    without_extension(
        match last_part(split(text, '/')) {
            Some(name) => name,
            None => text,
        },
    )
}

pub open spec fn shell_name(name: Seq<char>) -> bool {
    name == "sh"@ || name == "bash"@ || name == "zsh"@ || name == "fish"@
}

pub open spec fn python_name(name: Seq<char>) -> bool {
    name == "python"@ || name == "python3"@
}

/// The name of a program that runs scripts.
pub open spec fn runtime_name(name: Seq<char>) -> bool {
    shell_name(name) || python_name(name) || name == "node"@ || name == "bun"@
}

/// The argument makes a runtime evaluate a text, or a module, in place of a script.
pub open spec fn evaluates(runtime: Seq<char>, argument: Seq<char>) -> bool {
    if shell_name(runtime) {
        argument == "-c"@
    } else if python_name(runtime) {
        argument == "-c"@ || argument == "-m"@
    } else {
        argument == "-e"@ || argument == "--eval"@ || argument == "-p"@ || argument == "--print"@
    }
}

/// The argument is the given flag, alone or with a value behind `=`.
pub open spec fn is_flag(argument: Seq<char>, flag: Seq<char>) -> bool {
    argument == flag || flag.push('=').is_prefix_of(argument)
}

/// The argument is a flag that takes a value.
pub open spec fn takes_value(argument: Seq<char>) -> bool {
    ||| is_flag(argument, "-r"@)
    ||| is_flag(argument, "--require"@)
    ||| is_flag(argument, "--loader"@)
    ||| is_flag(argument, "--import"@)
    ||| is_flag(argument, "--experimental-loader"@)
    ||| is_flag(argument, "--inspect-port"@)
    ||| is_flag(argument, "-W"@)
    ||| is_flag(argument, "-X"@)
    ||| is_flag(argument, "-o"@)
    ||| is_flag(argument, "-S"@)
    ||| is_flag(argument, "-L"@)
}

/// What the arguments of a runtime make it run.
pub enum Scan {
    /// A script, at the given argument.
    Script(int),
    /// A text or a module.
    Evaluated,
    /// Nothing.
    Bare,
}

/// What the arguments from `start` on make a runtime run. No argument behind `--` is a flag.
pub open spec fn scan(runtime: Seq<char>, arguments: Seq<Seq<char>>, start: int) -> Scan
    decreases arguments.len() + 1 - start,
{
    if start >= arguments.len() || start < 0 {
        Scan::Bare
    } else {
        let argument = arguments[start];
        if argument == "--"@ {
            if start + 1 < arguments.len() {
                Scan::Script(start + 1)
            } else {
                Scan::Bare
            }
        } else if evaluates(runtime, argument) {
            Scan::Evaluated
        } else if takes_value(argument) {
            if argument.contains('=') {
                scan(runtime, arguments, start + 1)
            } else {
                scan(runtime, arguments, start + 2)
            }
        } else if argument.len() > 0 && argument[0] == '-' {
            scan(runtime, arguments, start + 1)
        } else {
            Scan::Script(start)
        }
    }
}

/// What a process is recognised by: a name, the path that it was taken from, and a score.
#[verifier::ext_equal]
pub struct TraitsView {
    pub name: Seq<char>,
    pub path: Seq<char>,
    pub score: u8,
}

/// The score of a name: more where it is not the one that the kernel keeps.
pub open spec fn name_score(name: Seq<char>, comm: Seq<char>) -> u8 {
    if name != comm {
        3
    } else {
        2
    }
}

/// The title of a process, or else its name.
pub open spec fn own_title(process: Process) -> Seq<char> {
    match text_view(process.argv0) {
        Some(title) => title,
        None => process.comm@,
    }
}

/// What a process is recognised by: the script that it runs where it is a runtime, and else its
/// own name. `tmux`, and a runtime that evaluates a text, are recognised by nothing.
pub open spec fn traits_of(process: Process) -> Option<TraitsView> {
    let path = own_title(process);
    let base = base_name(path);
    if base == "tmux"@ {
        None
    } else if !runtime_name(base) {
        Some(TraitsView { name: base, path, score: name_score(base, process.comm@) })
    } else {
        let arguments = texts(process.argv@);
        match scan(base, arguments, 1) {
            Scan::Script(index) => Some(
                TraitsView {
                    name: base_name(arguments[index]),
                    path: arguments[index],
                    score: name_score(base_name(arguments[index]), process.comm@),
                },
            ),
            Scan::Evaluated => None,
            Scan::Bare => Some(TraitsView { name: base, path, score: 1 }),
        }
    }
}

/// The set lists a process of that name.
pub open spec fn lists(set: RuleSet, name: Seq<char>) -> bool {
    texts(set.process_names@).contains(name)
}

/// The first set that lists a process of that name.
pub open spec fn first_listing(sets: Seq<RuleSet>, name: Seq<char>) -> Option<int>
    decreases sets.len(),
{
    if sets.len() == 0 {
        None
    } else if first_listing(sets.drop_last(), name) is Some {
        first_listing(sets.drop_last(), name)
    } else if lists(sets.last(), name) {
        Some(sets.len() - 1)
    } else {
        None
    }
}

/// The first set with that id.
pub open spec fn first_with_id(sets: Seq<RuleSet>, id: Seq<char>) -> Option<int>
    decreases sets.len(),
{
    if sets.len() == 0 {
        None
    } else if first_with_id(sets.drop_last(), id) is Some {
        first_with_id(sets.drop_last(), id)
    } else if sets.last().id@ == id {
        Some(sets.len() - 1)
    } else {
        None
    }
}

/// The target of a path, where it was resolved.
pub open spec fn target_of(targets: Seq<Option<String>>, index: int) -> Option<Seq<char>> {
    if index < targets.len() {
        text_view(targets[index])
    } else {
        None
    }
}

/// The set that a process belongs to: by its name, or else by the name of the file that its path
/// leads to.
pub open spec fn set_of(
    process: Process,
    target: Option<Seq<char>>,
    sets: Seq<RuleSet>,
) -> Option<int> {
    match traits_of(process) {
        Some(seen) => match first_listing(sets, seen.name) {
            Some(found) => Some(found),
            None => match target {
                Some(path) => first_listing(sets, base_name(path)),
                None => None,
            },
        },
        None => None,
    }
}

/// The process belongs to one of the sets.
pub open spec fn belongs(
    job: Job,
    targets: Seq<Option<String>>,
    sets: Seq<RuleSet>,
    index: int,
) -> bool {
    set_of(job.processes@[index], target_of(targets, index), sets) is Some
}

/// The one process is preferred to the other: the leader of the group, then the higher score,
/// then the earlier.
pub open spec fn preferred(job: Job, index: int, other: int) -> bool {
    let leads = job.processes@[index].pid == job.leader;
    let other_leads = job.processes@[other].pid == job.leader;
    let score = traits_of(job.processes@[index])->0.score;
    let other_score = traits_of(job.processes@[other])->0.score;
    if leads != other_leads {
        leads
    } else if score != other_score {
        score > other_score
    } else {
        index <= other
    }
}

/// The process that the job is recognised by.
pub open spec fn recognised(
    job: Job,
    targets: Seq<Option<String>>,
    sets: Seq<RuleSet>,
    index: int,
) -> bool {
    &&& 0 <= index < job.processes@.len()
    &&& belongs(job, targets, sets, index)
    &&& forall|other: int|
        0 <= other < job.processes@.len() && #[trigger] belongs(job, targets, sets, other)
            ==> preferred(job, index, other)
}

/// The process declares one of the sets.
pub open spec fn declares(process: Process, sets: Seq<RuleSet>) -> bool {
    text_view(process.env_agent) is Some && first_with_id(
        sets,
        text_view(process.env_agent)->0,
    ) is Some
}

/// The first process that declares a set.
pub open spec fn first_declaring(job: Job, sets: Seq<RuleSet>, index: int) -> bool {
    &&& 0 <= index < job.processes@.len()
    &&& declares(job.processes@[index], sets)
    &&& forall|earlier: int|
        0 <= earlier < index ==> !declares(#[trigger] job.processes@[earlier], sets)
}

/// The agent of a set and the process that it was seen in, where the id is that of an agent.
pub open spec fn agent_of(id: Seq<char>, pid: Pid) -> Option<(Seq<char>, Pid)> {
    if valid_agent(id) {
        Some((id, pid))
    } else {
        None
    }
}

/// The agent in a job: the first that a process declares, or else the one that the job is
/// recognised by.
pub open spec fn identified(
    job: Job,
    targets: Seq<Option<String>>,
    sets: Seq<RuleSet>,
) -> Option<(Seq<char>, Pid)> {
    if exists|index: int| first_declaring(job, sets, index) {
        let index = choose|index: int| first_declaring(job, sets, index);
        let process = job.processes@[index];
        agent_of(text_view(process.env_agent)->0, process.pid)
    } else if exists|index: int| recognised(job, targets, sets, index) {
        let index = choose|index: int| recognised(job, targets, sets, index);
        let process = job.processes@[index];
        let set = set_of(process, target_of(targets, index), sets)->0;
        agent_of(sets[set].id@, process.pid)
    } else {
        None
    }
}

/// What a process is recognised by: a name, the path that it was taken from, and a score.
#[derive(Debug, PartialEq, Eq)]
pub struct Traits {
    pub name: String,
    pub path: String,
    pub score: u8,
}

impl View for Traits {
    type V = TraitsView;

    open spec fn view(&self) -> TraitsView {
        TraitsView { name: self.name@, path: self.path@, score: self.score }
    }
}

/// The traits, where there are any, in mathematical terms.
pub open spec fn traits_view(seen: Option<Traits>) -> Option<TraitsView> {
    match seen {
        Some(found) => Some(found@),
        None => None,
    }
}

fn is_quote(character: char) -> (quotes: bool)
    ensures
        quotes == quote(character),
{
    character == '\'' || character == '"'
}

fn unquoted_slice(text: &[char]) -> (inner: &[char])
    ensures
        inner@ == unquoted(text@),
{
    let mut length: usize = text.len();
    assert(text@.take(length as int) =~= text@);
    while length > 0 && is_quote(text[length - 1])
        invariant
            length <= text@.len(),
            unquote_end(text@) == unquote_end(text@.take(length as int)),
        ensures
            length <= text@.len(),
            unquote_end(text@) == text@.take(length as int),
        decreases length,
    {
        assert(text@.take(length as int).drop_last() =~= text@.take(length - 1));
        length = length - 1;
    }
    let text = &text[0..length];
    let mut start: usize = 0;
    assert(text@.skip(0) =~= text@);
    while start < text.len() && is_quote(text[start])
        invariant
            start <= text@.len(),
            unquote_start(text@) == unquote_start(text@.skip(start as int)),
        ensures
            start <= text@.len(),
            unquote_start(text@) == text@.skip(start as int),
        decreases text@.len() - start,
    {
        assert(text@.skip(start as int).skip(1) =~= text@.skip(start + 1));
        start = start + 1;
    }
    &text[start..text.len()]
}

fn chars_are(chars: &[char], text: &str) -> (same: bool)
    ensures
        same == (chars@ == text@),
{
    let wanted = chars_of(text);
    same_chars(chars, wanted.as_slice())
}

/// The name of the file that a path leads to.
pub fn file_name(text: &[char]) -> (name: Option<&[char]>)
    ensures
        match name {
            Some(found) => last_part(split(text@, '/')) == Some(found@),
            None => last_part(split(text@, '/')) is None,
        },
{
    let parts = split_chars(text, '/');
    let ghost all = split(text@, '/');
    let mut count: usize = parts.len();
    assert(all.take(count as int) =~= all);
    while count > 0
        invariant
            all == split(text@, '/'),
            count <= parts@.len(),
            parts@.len() == all.len(),
            forall|index: int| 0 <= index < parts@.len() ==> (#[trigger] parts@[index])@ == all[index],
            last_part(all) == last_part(all.take(count as int)),
        decreases count,
    {
        let part = parts[count - 1];
        assert(all.take(count as int).last() == part@);
        assert(all.take(count as int).drop_last() =~= all.take(count - 1));
        if chars_are(part, "..") {
            proof {
                reveal_strlit("");
                reveal_strlit(".");
                reveal_strlit("..");
            }
            return None;
        }
        if !chars_are(part, "") && !chars_are(part, ".") {
            return Some(part);
        }
        count = count - 1;
    }
    None
}

fn strip_suffix<'a>(name: &'a [char], suffix: &str) -> (rest: Option<&'a [char]>)
    ensures
        match rest {
            Some(found) => suffix@.is_suffix_of(name@) && found@ == without_suffix(name@, suffix@),
            None => !suffix@.is_suffix_of(name@),
        },
{
    let ending = chars_of(suffix);
    if ends_with(name, ending.as_slice()) {
        let rest = &name[0..name.len() - ending.len()];
        assert(rest@ =~= without_suffix(name@, suffix@));
        Some(rest)
    } else {
        None
    }
}

fn strip_extension(name: &[char]) -> (stem: &[char])
    ensures
        stem@ == without_extension(name@),
{
    match strip_suffix(name, ".js") {
        Some(rest) => {
            return rest;
        },
        None => {},
    }
    match strip_suffix(name, ".mjs") {
        Some(rest) => {
            return rest;
        },
        None => {},
    }
    match strip_suffix(name, ".cjs") {
        Some(rest) => {
            return rest;
        },
        None => {},
    }
    match strip_suffix(name, ".py") {
        Some(rest) => rest,
        None => name,
    }
}

/// The name of the program or script at a path: without quotes, directories and the ending of a
/// script.
pub fn basename(value: &str) -> (name: String)
    ensures
        name@ == base_name(value@),
{
    let chars = chars_of(value);
    let text = unquoted_slice(chars.as_slice());
    let name = match file_name(text) {
        Some(found) => found,
        None => text,
    };
    string_of(strip_extension(name))
}

fn is_shell(name: &str) -> (shell: bool)
    ensures
        shell == shell_name(name@),
{
    same_text(name, "sh") || same_text(name, "bash") || same_text(name, "zsh") || same_text(
        name,
        "fish",
    )
}

fn is_python(name: &str) -> (python: bool)
    ensures
        python == python_name(name@),
{
    same_text(name, "python") || same_text(name, "python3")
}

fn is_runtime(name: &str) -> (runtime: bool)
    ensures
        runtime == runtime_name(name@),
{
    is_shell(name) || is_python(name) || same_text(name, "node") || same_text(name, "bun")
}

fn is_evaluation(runtime: &str, argument: &str) -> (evaluation: bool)
    ensures
        evaluation == evaluates(runtime@, argument@),
{
    if is_shell(runtime) {
        same_text(argument, "-c")
    } else if is_python(runtime) {
        same_text(argument, "-c") || same_text(argument, "-m")
    } else {
        same_text(argument, "-e") || same_text(argument, "--eval") || same_text(argument, "-p")
            || same_text(argument, "--print")
    }
}

fn flag_is(argument: &[char], flag: &str) -> (same: bool)
    ensures
        same == is_flag(argument@, flag@),
{
    let mut wanted = chars_of(flag);
    if same_chars(argument, wanted.as_slice()) {
        return true;
    }
    wanted.push('=');
    starts_with(argument, wanted.as_slice())
}

fn flag_takes_value(argument: &[char]) -> (takes: bool)
    ensures
        takes == takes_value(argument@),
{
    flag_is(argument, "-r") || flag_is(argument, "--require") || flag_is(argument, "--loader")
        || flag_is(argument, "--import") || flag_is(argument, "--experimental-loader") || flag_is(
        argument,
        "--inspect-port",
    ) || flag_is(argument, "-W") || flag_is(argument, "-X") || flag_is(argument, "-o") || flag_is(
        argument,
        "-S",
    ) || flag_is(argument, "-L")
}

fn holds_char(text: &[char], character: char) -> (found: bool)
    ensures
        found == text@.contains(character),
{
    for index in 0..text.len()
        invariant
            forall|earlier: int| 0 <= earlier < index ==> text@[earlier] != character,
    {
        if text[index] == character {
            assert(text@[index as int] == character);
            return true;
        }
    }
    false
}

enum Found {
    Script(usize),
    Evaluated,
    Bare,
}

fn scan_arguments(runtime: &str, arguments: &Vec<String>) -> (found: Found)
    ensures
        match found {
            Found::Script(index) => index < arguments@.len() && scan(
                runtime@,
                texts(arguments@),
                1,
            ) == Scan::Script(index as int),
            Found::Evaluated => scan(runtime@, texts(arguments@), 1) is Evaluated,
            Found::Bare => scan(runtime@, texts(arguments@), 1) is Bare,
        },
{
    let ghost all = texts(arguments@);
    let length: usize = arguments.len();
    let mut start: usize = 1;
    while start < length
        invariant
            length == arguments@.len(),
            all == texts(arguments@),
            1 <= start,
            scan(runtime@, all, 1) == scan(runtime@, all, start as int),
        decreases length + 1 - start,
    {
        let argument = arguments[start].as_str();
        assert(argument@ == all[start as int]);
        let chars = chars_of(argument);
        if same_text(argument, "--") {
            return if start + 1 < length {
                Found::Script(start + 1)
            } else {
                Found::Bare
            };
        } else if is_evaluation(runtime, argument) {
            return Found::Evaluated;
        } else if flag_takes_value(chars.as_slice()) {
            if holds_char(chars.as_slice(), '=') {
                start = start + 1;
            } else if start + 1 < length {
                start = start + 2;
            } else {
                assert(scan(runtime@, all, start + 2) is Bare);
                return Found::Bare;
            }
        } else if chars.len() > 0 && chars[0] == '-' {
            start = start + 1;
        } else {
            return Found::Script(start);
        }
    }
    Found::Bare
}

fn score_of(name: &str, comm: &str) -> (score: u8)
    ensures
        score == name_score(name@, comm@),
{
    if same_text(name, comm) {
        2
    } else {
        3
    }
}

/// What a process is recognised by.
pub fn normalized(process: &Process) -> (seen: Option<Traits>)
    ensures
        traits_view(seen) == traits_of(*process),
{
    let path = match &process.argv0 {
        Some(title) => title,
        None => &process.comm,
    };
    let base = basename(path.as_str());
    if same_text(base.as_str(), "tmux") {
        return None;
    }
    if !is_runtime(base.as_str()) {
        let score: u8 = score_of(base.as_str(), process.comm.as_str());
        return Some(Traits { name: base, path: path.clone(), score });
    }
    match scan_arguments(base.as_str(), &process.argv) {
        Found::Script(index) => {
            let script = &process.argv[index];
            let name = basename(script.as_str());
            let score: u8 = score_of(name.as_str(), process.comm.as_str());
            Some(Traits { name, path: script.clone(), score })
        },
        Found::Evaluated => None,
        Found::Bare => Some(Traits { name: base, path: path.clone(), score: 1 }),
    }
}

/// Whether a rule set lists a process of that name.
pub fn set_lists(set: &RuleSet, name: &str) -> (listed: bool)
    ensures
        listed == lists(*set, name@),
{
    let ghost names = texts(set.process_names@);
    for index in 0..set.process_names.len()
        invariant
            names == texts(set.process_names@),
            forall|earlier: int| 0 <= earlier < index ==> names[earlier] != name@,
    {
        assert(names[index as int] == set.process_names@[index as int]@);
        if same_text(set.process_names[index].as_str(), name) {
            return true;
        }
    }
    false
}

/// The set that was found among the leading sets is the one found among all.
proof fn lemma_listing_found(sets: Seq<RuleSet>, name: Seq<char>, count: int)
    requires
        0 <= count <= sets.len(),
        first_listing(sets.take(count), name) is Some,
    ensures
        first_listing(sets, name) == first_listing(sets.take(count), name),
    decreases sets.len() - count,
{
    if count == sets.len() {
        assert(sets.take(count) =~= sets);
    } else {
        assert(sets.take(count + 1).drop_last() =~= sets.take(count));
        lemma_listing_found(sets, name, count + 1);
    }
}

fn find_listing(sets: &[RuleSet], name: &str) -> (index: Option<usize>)
    ensures
        match index {
            Some(found) => found < sets@.len() && first_listing(sets@, name@) == Some(found as int),
            None => first_listing(sets@, name@) is None,
        },
{
    let mut index: usize = 0;
    while index < sets.len()
        invariant
            index <= sets@.len(),
            first_listing(sets@.take(index as int), name@) is None,
        decreases sets@.len() - index,
    {
        assert(sets@.take(index + 1).drop_last() =~= sets@.take(index as int));
        if set_lists(&sets[index], name) {
            proof {
                lemma_listing_found(sets@, name@, index + 1);
            }
            return Some(index);
        }
        index = index + 1;
    }
    assert(sets@.take(sets@.len() as int) =~= sets@);
    None
}

/// The set that was found among the leading sets is the one found among all.
proof fn lemma_id_found(sets: Seq<RuleSet>, id: Seq<char>, count: int)
    requires
        0 <= count <= sets.len(),
        first_with_id(sets.take(count), id) is Some,
    ensures
        first_with_id(sets, id) == first_with_id(sets.take(count), id),
    decreases sets.len() - count,
{
    if count == sets.len() {
        assert(sets.take(count) =~= sets);
    } else {
        assert(sets.take(count + 1).drop_last() =~= sets.take(count));
        lemma_id_found(sets, id, count + 1);
    }
}

/// The first rule set with the given id.
pub fn find_set(sets: &[RuleSet], id: &str) -> (index: Option<usize>)
    ensures
        match index {
            Some(found) => {
                &&& found < sets@.len()
                &&& sets@[found as int].id@ == id@
                &&& first_with_id(sets@, id@) == Some(found as int)
            },
            None => first_with_id(sets@, id@) is None,
        },
{
    let mut index: usize = 0;
    while index < sets.len()
        invariant
            index <= sets@.len(),
            first_with_id(sets@.take(index as int), id@) is None,
        decreases sets@.len() - index,
    {
        assert(sets@.take(index + 1).drop_last() =~= sets@.take(index as int));
        if same_text(sets[index].id.as_str(), id) {
            proof {
                lemma_id_found(sets@, id@, index + 1);
            }
            return Some(index);
        }
        index = index + 1;
    }
    assert(sets@.take(sets@.len() as int) =~= sets@);
    None
}

fn find_set_of(process: &Process, seen: &Traits, target: Option<&String>, sets: &[RuleSet]) -> (index:
    Option<usize>)
    requires
        traits_of(*process) == Some(seen@),
    ensures
        ({
            let path = match target {
                Some(text) => Some(text@),
                None => None,
            };
            match index {
                Some(found) => found < sets@.len() && set_of(*process, path, sets@) == Some(
                    found as int,
                ),
                None => set_of(*process, path, sets@) is None,
            }
        }),
{
    match find_listing(sets, seen.name.as_str()) {
        Some(found) => Some(found),
        None => match target {
            Some(path) => {
                let name = basename(path.as_str());
                find_listing(sets, name.as_str())
            },
            None => None,
        },
    }
}

fn find_declaring(job: &Job, sets: &[RuleSet]) -> (index: Option<usize>)
    ensures
        match index {
            Some(found) => first_declaring(*job, sets@, found as int),
            None => forall|other: int| !first_declaring(*job, sets@, other),
        },
{
    for index in 0..job.processes.len()
        invariant
            forall|earlier: int|
                0 <= earlier < index ==> !declares(#[trigger] job.processes@[earlier], sets@),
    {
        match &job.processes[index].env_agent {
            Some(id) => match find_set(sets, id.as_str()) {
                Some(_) => {
                    assert(declares(job.processes@[index as int], sets@));
                    return Some(index);
                },
                None => {},
            },
            None => {},
        }
    }
    assert forall|other: int| !first_declaring(*job, sets@, other) by {
        if first_declaring(*job, sets@, other) {
            assert(declares(job.processes@[other], sets@));
        }
    }
    None
}

/// The agent in a job and the process that it was seen in. `targets` holds, for each process, the
/// file that the path it is recognised by leads to, where it leads to one.
#[must_use]
pub fn identify(job: &Job, sets: &[RuleSet], targets: &[Option<String>]) -> (agent: Option<
    (AgentId, Pid),
>)
    ensures
        match agent {
            Some((id, pid)) => identified(*job, targets@, sets@) == Some((id@, pid)),
            None => identified(*job, targets@, sets@) is None,
        },
{
    match find_declaring(job, sets) {
        Some(index) => {
            proof {
                let chosen = choose|other: int| first_declaring(*job, sets@, other);
                assert(first_declaring(*job, sets@, chosen));
                assert(declares(job.processes@[chosen], sets@));
                assert(declares(job.processes@[index as int], sets@));
                assert(chosen == index);
            }
            let process = &job.processes[index];
            return match &process.env_agent {
                Some(id) => match AgentId::new(id.as_str()) {
                    Ok(agent) => Some((agent, process.pid)),
                    Err(_) => None,
                },
                None => None,
            };
        },
        None => {},
    }
    let mut best: Option<(usize, usize, u8)> = None;
    for index in 0..job.processes.len()
        invariant
            match best {
                Some((chosen, set, score)) => {
                    &&& chosen < index
                    &&& set < sets@.len()
                    &&& belongs(*job, targets@, sets@, chosen as int)
                    &&& traits_of(job.processes@[chosen as int])->0.score == score
                    &&& set_of(
                        job.processes@[chosen as int],
                        target_of(targets@, chosen as int),
                        sets@,
                    ) == Some(set as int)
                    &&& forall|other: int|
                        0 <= other < index && #[trigger] belongs(*job, targets@, sets@, other)
                            ==> preferred(*job, chosen as int, other)
                },
                None => forall|other: int|
                    0 <= other < index ==> !#[trigger] belongs(*job, targets@, sets@, other),
            },
    {
        let process = &job.processes[index];
        match normalized(process) {
            Some(seen) => {
                let target = if index < targets.len() {
                    targets[index].as_ref()
                } else {
                    None
                };
                match find_set_of(process, &seen, target, sets) {
                    Some(set) => {
                        assert(belongs(*job, targets@, sets@, index as int));
                        let better = match best {
                            Some((chosen, _, score)) => {
                                let leads = process.pid == job.leader;
                                let other_leads = job.processes[chosen].pid == job.leader;
                                if leads != other_leads {
                                    leads
                                } else {
                                    seen.score > score
                                }
                            },
                            None => true,
                        };
                        if better {
                            best = Some((index, set, seen.score));
                        }
                    },
                    None => {
                        assert(!belongs(*job, targets@, sets@, index as int));
                    },
                }
            },
            None => {
                assert(!belongs(*job, targets@, sets@, index as int));
            },
        }
    }
    match best {
        Some((chosen, set, _)) => {
            proof {
                assert(recognised(*job, targets@, sets@, chosen as int));
                let other = choose|other: int| recognised(*job, targets@, sets@, other);
                assert(belongs(*job, targets@, sets@, other));
                assert(preferred(*job, chosen as int, other));
                assert(preferred(*job, other, chosen as int));
                assert(other == chosen);
            }
            match AgentId::new(sets[set].id.as_str()) {
                Ok(agent) => Some((agent, job.processes[chosen].pid)),
                Err(_) => None,
            }
        },
        None => {
            assert forall|other: int| !recognised(*job, targets@, sets@, other) by {
                if recognised(*job, targets@, sets@, other) {
                    assert(belongs(*job, targets@, sets@, other));
                }
            }
            None
        },
    }
}

} // verus!
