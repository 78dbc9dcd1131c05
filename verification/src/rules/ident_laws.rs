//! By what a process is recognised, and which process of a job is the agent.
use crate::osc::{text_view, valid_agent};
use crate::platform::{Job, Process};
use crate::rules::bundle::lemma_first_with_id;
use crate::rules::ident::{
    base_name, belongs, declares, evaluates, first_declaring, first_listing, first_with_id,
    identified, is_flag, last_part, lists, own_title, preferred, quote, recognised, runtime_name,
    scan, set_of, takes_value, traits_of, unquote_end, unquote_start, unquoted, without_extension,
    Scan,
};
use crate::rules::schema::RuleSet;
use crate::text::{lemma_split_after_separator, lemma_split_plain, split, texts};
use vstd::prelude::*;

verus! {

/// A flag of a runtime that takes the next argument as its value.
pub open spec fn valued(flag: Seq<char>) -> bool {
    ||| flag == "-r"@
    ||| flag == "--require"@
    ||| flag == "--loader"@
    ||| flag == "--import"@
    ||| flag == "--experimental-loader"@
    ||| flag == "--inspect-port"@
    ||| flag == "-W"@
    ||| flag == "-X"@
    ||| flag == "-o"@
    ||| flag == "-S"@
    ||| flag == "-L"@
}

/// A program that runs scripts.
pub open spec fn runs_scripts(name: Seq<char>) -> bool {
    ||| name == "sh"@
    ||| name == "bash"@
    ||| name == "zsh"@
    ||| name == "fish"@
    ||| name == "node"@
    ||| name == "bun"@
    ||| name == "python"@
    ||| name == "python3"@
}

/// A flag that makes a runtime evaluate its argument: `-c` for shells, `-c` and `-m` for Python,
/// and `-e`, `--eval`, `-p` and `--print` for Node and Bun.
pub open spec fn evaluating(runtime: Seq<char>, flag: Seq<char>) -> bool {
    if runtime == "node"@ || runtime == "bun"@ {
        flag == "-e"@ || flag == "--eval"@ || flag == "-p"@ || flag == "--print"@
    } else if runtime == "python"@ || runtime == "python3"@ {
        flag == "-c"@ || flag == "-m"@
    } else {
        flag == "-c"@
    }
}

proof fn lemma_runtimes(runtime: Seq<char>, flag: Seq<char>)
    ensures
        runs_scripts(runtime) == runtime_name(runtime),
        runs_scripts(runtime) ==> runtime != "tmux"@ && evaluates(runtime, flag) == evaluating(
            runtime,
            flag,
        ),
{
    reveal_strlit("sh");
    reveal_strlit("bash");
    reveal_strlit("zsh");
    reveal_strlit("fish");
    reveal_strlit("node");
    reveal_strlit("bun");
    reveal_strlit("python");
    reveal_strlit("python3");
    reveal_strlit("tmux");
    if runtime == "node"@ || runtime == "bun"@ {
        assert(runtime.len() == 4 || runtime.len() == 3);
        assert(runtime[0] == 'n' || runtime[0] == 'b');
        assert(runtime[1] == 'o' || runtime[1] == 'u');
    }
    if runtime == "python"@ || runtime == "python3"@ {
        assert(runtime[0] == 'p');
    }
    if runtime == "sh"@ || runtime == "bash"@ || runtime == "zsh"@ || runtime == "fish"@ {
        assert(runtime[0] == 's' || runtime[0] == 'b' || runtime[0] == 'z' || runtime[0] == 'f');
        assert(runtime[1] != 'u');
    }
    if runtime == "tmux"@ {
        assert(runtime[0] == 't');
    }
}

proof fn lemma_valued(runtime: Seq<char>, flag: Seq<char>)
    requires
        valued(flag),
    ensures
        takes_value(flag),
        !evaluates(runtime, flag),
        flag != "--"@,
        !flag.contains('='),
{
    reveal_strlit("-r");
    reveal_strlit("--require");
    reveal_strlit("--loader");
    reveal_strlit("--import");
    reveal_strlit("--experimental-loader");
    reveal_strlit("--inspect-port");
    reveal_strlit("-W");
    reveal_strlit("-X");
    reveal_strlit("-o");
    reveal_strlit("-S");
    reveal_strlit("-L");
    reveal_strlit("--");
    reveal_strlit("-c");
    reveal_strlit("-m");
    reveal_strlit("-e");
    reveal_strlit("--eval");
    reveal_strlit("-p");
    reveal_strlit("--print");
    assert(flag.len() >= 2);
    if flag.len() == 2 {
        assert(flag[1] == 'r' || flag[1] == 'W' || flag[1] == 'X' || flag[1] == 'o' || flag[1]
            == 'S' || flag[1] == 'L');
    } else {
        assert(flag[2] == 'r' || flag[2] == 'l' || flag[2] == 'i' || flag[2] == 'e');
        if flag[2] == 'e' {
            assert(flag == "--experimental-loader"@);
            assert(flag.len() == 21);
        }
    }
}

proof fn lemma_shifted(
    runtime: Seq<char>,
    before: Seq<Seq<char>>,
    other: Seq<Seq<char>>,
    tail: Seq<Seq<char>>,
    at: int,
)
    requires
        0 <= at,
    ensures
        match scan(runtime, before + tail, before.len() + at) {
            Scan::Script(index) => before.len() <= index < (before + tail).len() && scan(
                runtime,
                other + tail,
                other.len() + at,
            ) == Scan::Script(index - before.len() + other.len()) && (before + tail)[index] == (
            other + tail)[index - before.len() + other.len()],
            Scan::Evaluated => scan(runtime, other + tail, other.len() + at) is Evaluated,
            Scan::Bare => scan(runtime, other + tail, other.len() + at) is Bare,
        },
    decreases tail.len() + 1 - at,
{
    if at < tail.len() {
        assert((before + tail)[before.len() + at] == tail[at]);
        assert((other + tail)[other.len() + at] == tail[at]);
        if at + 1 < tail.len() {
            assert((before + tail)[before.len() + at + 1] == tail[at + 1]);
            assert((other + tail)[other.len() + at + 1] == tail[at + 1]);
        }
        lemma_shifted(runtime, before, other, tail, at + 1);
        lemma_shifted(runtime, before, other, tail, at + 2);
    }
}

/// The two processes differ at most in their arguments.
pub open spec fn same_but_arguments(process: Process, other: Process) -> bool {
    process.comm@ == other.comm@ && text_view(process.argv0) == text_view(other.argv0)
}

proof fn lemma_skipped(
    process: Process,
    other: Process,
    name: Seq<char>,
    skipped: Seq<Seq<char>>,
    tail: Seq<Seq<char>>,
)
    requires
        same_but_arguments(process, other),
        texts(process.argv@) == seq![name] + skipped + tail,
        texts(other.argv@) == seq![name] + tail,
        scan(base_name(own_title(process)), seq![name] + skipped + tail, 1) == scan(
            base_name(own_title(process)),
            seq![name] + skipped + tail,
            1 + skipped.len() as int,
        ),
    ensures
        traits_of(process) == traits_of(other),
{
    let runtime = base_name(own_title(process));
    lemma_shifted(runtime, seq![name] + skipped, seq![name], tail, 0);
}

/// A flag that takes a value takes the next argument with it: what a runtime is recognised by is
/// the same with the two in front of its arguments and without them.
pub proof fn flags_take_their_values(
    process: Process,
    other: Process,
    name: Seq<char>,
    flag: Seq<char>,
    value: Seq<char>,
    tail: Seq<Seq<char>>,
)
    requires
        valued(flag),
        same_but_arguments(process, other),
        texts(process.argv@) == seq![name, flag, value] + tail,
        texts(other.argv@) == seq![name] + tail,
    ensures
        traits_of(process) == traits_of(other),
{
    let runtime = base_name(own_title(process));
    let arguments = texts(process.argv@);
    lemma_valued(runtime, flag);
    assert(arguments =~= seq![name] + seq![flag, value] + tail);
    assert(arguments[1] == flag);
    lemma_skipped(process, other, name, seq![flag, value], tail);
}

/// A flag that carries its value behind `=` takes nothing with it.
pub proof fn joined_values_stay_with_their_flag(
    process: Process,
    other: Process,
    name: Seq<char>,
    flag: Seq<char>,
    value: Seq<char>,
    tail: Seq<Seq<char>>,
)
    requires
        valued(flag),
        same_but_arguments(process, other),
        texts(process.argv@) == seq![name, flag.push('=') + value] + tail,
        texts(other.argv@) == seq![name] + tail,
    ensures
        traits_of(process) == traits_of(other),
{
    let runtime = base_name(own_title(process));
    let arguments = texts(process.argv@);
    let argument = flag.push('=') + value;
    lemma_valued(runtime, flag);
    assert(argument[flag.len() as int] == '=');
    assert(argument.contains('='));
    assert(argument.subrange(0, flag.len() as int + 1) =~= flag.push('='));
    assert(flag.push('=').is_prefix_of(argument));
    assert(takes_value(argument));
    lemma_no_equals(runtime, argument);
    assert(arguments =~= seq![name] + seq![argument] + tail);
    assert(arguments[1] == argument);
    lemma_skipped(process, other, name, seq![argument], tail);
}

proof fn lemma_no_equals(runtime: Seq<char>, argument: Seq<char>)
    requires
        argument.contains('='),
    ensures
        argument != "--"@,
        !evaluates(runtime, argument),
        !valued(argument),
{
    reveal_strlit("-r");
    reveal_strlit("--require");
    reveal_strlit("--loader");
    reveal_strlit("--import");
    reveal_strlit("--experimental-loader");
    reveal_strlit("--inspect-port");
    reveal_strlit("-W");
    reveal_strlit("-X");
    reveal_strlit("-o");
    reveal_strlit("-S");
    reveal_strlit("-L");
    reveal_strlit("--");
    reveal_strlit("-c");
    reveal_strlit("-m");
    reveal_strlit("-e");
    reveal_strlit("--eval");
    reveal_strlit("-p");
    reveal_strlit("--print");
}

/// Any other argument that starts with a dash is passed over alone.
pub proof fn other_flags_are_passed_over(
    process: Process,
    other: Process,
    name: Seq<char>,
    flag: Seq<char>,
    tail: Seq<Seq<char>>,
)
    requires
        flag.len() > 0,
        flag[0] == '-',
        flag != "--"@,
        !valued(flag),
        !evaluating(base_name(own_title(process)), flag),
        same_but_arguments(process, other),
        texts(process.argv@) == seq![name, flag] + tail,
        texts(other.argv@) == seq![name] + tail,
    ensures
        traits_of(process) == traits_of(other),
{
    let runtime = base_name(own_title(process));
    let arguments = texts(process.argv@);
    lemma_runtimes(runtime, flag);
    assert(arguments =~= seq![name] + seq![flag] + tail);
    assert(arguments[1] == flag);
    if runs_scripts(runtime) {
        assert(!evaluates(runtime, flag));
        if takes_value(flag) {
            lemma_flag_with_value(flag);
        }
        lemma_skipped(process, other, name, seq![flag], tail);
    }
}

proof fn lemma_flag_with_value(flag: Seq<char>)
    requires
        takes_value(flag),
        !valued(flag),
    ensures
        flag.contains('='),
{
    assert forall|start: Seq<char>| #[trigger] is_flag(flag, start) && flag != start implies
        flag.contains('=') by {
        assert(flag[start.len() as int] == start.push('=')[start.len() as int]);
    }
}

/// A runtime is recognised by the first argument that is no flag, the script: by the name of that,
/// with a score of three unless the kernel keeps the same name.
pub proof fn runtimes_are_known_by_their_script(
    process: Process,
    name: Seq<char>,
    script: Seq<char>,
    tail: Seq<Seq<char>>,
)
    requires
        runs_scripts(base_name(own_title(process))),
        texts(process.argv@) == seq![name, script] + tail || texts(process.argv@) == seq![
            name,
            "--"@,
            script,
        ] + tail,
        texts(process.argv@) == seq![name, script] + tail ==> (script.len() == 0 || script[0]
            != '-'),
    ensures
        traits_of(process) is Some,
        traits_of(process)->0.name == base_name(script),
        traits_of(process)->0.path == script,
        traits_of(process)->0.score == if base_name(script) == process.comm@ {
            2u8
        } else {
            3
        },
{
    let runtime = base_name(own_title(process));
    let arguments = texts(process.argv@);
    lemma_runtimes(runtime, script);
    if arguments == seq![name, script] + tail {
        assert(arguments[1] == script);
        lemma_flags_start_with_a_dash(runtime, script);
        assert(scan(runtime, arguments, 1) == Scan::Script(1));
    } else {
        assert(arguments[1] == "--"@);
        assert(arguments[2] == script);
        assert(scan(runtime, arguments, 1) == Scan::Script(2));
    }
}

proof fn lemma_flags_start_with_a_dash(runtime: Seq<char>, argument: Seq<char>)
    requires
        argument.len() == 0 || argument[0] != '-',
    ensures
        argument != "--"@,
        !evaluates(runtime, argument),
        !takes_value(argument),
{
    reveal_strlit("-r");
    reveal_strlit("--require");
    reveal_strlit("--loader");
    reveal_strlit("--import");
    reveal_strlit("--experimental-loader");
    reveal_strlit("--inspect-port");
    reveal_strlit("-W");
    reveal_strlit("-X");
    reveal_strlit("-o");
    reveal_strlit("-S");
    reveal_strlit("-L");
    reveal_strlit("--");
    reveal_strlit("-c");
    reveal_strlit("-m");
    reveal_strlit("-e");
    reveal_strlit("--eval");
    reveal_strlit("-p");
    reveal_strlit("--print");
    assert forall|start: Seq<char>| #[trigger] is_flag(argument, start) && start.len() > 0
        && start[0] == '-' implies false by {
        if argument != start {
            assert(argument[0] == start.push('=')[0]);
        }
    }
}

/// A runtime that evaluates a text is recognised by nothing.
pub proof fn evaluations_are_unknown(
    process: Process,
    name: Seq<char>,
    flag: Seq<char>,
    tail: Seq<Seq<char>>,
)
    requires
        runs_scripts(base_name(own_title(process))),
        evaluating(base_name(own_title(process)), flag),
        texts(process.argv@) == seq![name, flag] + tail,
    ensures
        traits_of(process) is None,
{
    let runtime = base_name(own_title(process));
    lemma_runtimes(runtime, flag);
    assert(texts(process.argv@)[1] == flag);
    assert(flag != "--"@) by {
        reveal_strlit("--");
        reveal_strlit("-c");
        reveal_strlit("-m");
        reveal_strlit("-e");
        reveal_strlit("--eval");
        reveal_strlit("-p");
        reveal_strlit("--print");
        assert(flag.len() != 2 || flag[1] == 'c' || flag[1] == 'm' || flag[1] == 'e' || flag[1]
            == 'p');
    }
}

/// A runtime without a script is recognised by its own name, with the lowest score. Any other
/// program is recognised by its own name too, with a score of three where the kernel keeps
/// another name and two where it keeps the same; only `tmux` is recognised by nothing.
pub proof fn programs_are_known_by_their_name(process: Process)
    ensures
        ({
            let name = base_name(own_title(process));
            &&& own_title(process) == match process.argv0 {
                Some(title) => title@,
                None => process.comm@,
            }
            &&& name == "tmux"@ ==> traits_of(process) is None
            &&& name != "tmux"@ && (!runs_scripts(name) || process.argv@.len() <= 1)
                ==> traits_of(process) is Some && traits_of(process)->0.name == name
                && traits_of(process)->0.path == own_title(process) && traits_of(process)->0.score
                == if runs_scripts(name) {
                1u8
            } else if name == process.comm@ {
                2
            } else {
                3
            }
        }),
{
    let name = base_name(own_title(process));
    lemma_runtimes(name, Seq::empty());
    if runs_scripts(name) && process.argv@.len() <= 1 {
        assert(scan(name, texts(process.argv@), 1) is Bare);
    }
}

/// Neither a slash nor a quote stands in the text.
pub open spec fn simple(text: Seq<char>) -> bool {
    forall|index: int|
        0 <= index < text.len() ==> #[trigger] text[index] != '/' && text[index] != '\''
            && text[index] != '"'
}

/// Only quotes stand in the text.
pub open spec fn quotes(text: Seq<char>) -> bool {
    forall|index: int|
        0 <= index < text.len() ==> #[trigger] text[index] == '\'' || text[index] == '"'
}

/// An ending of scripts.
pub open spec fn script_ending(ending: Seq<char>) -> bool {
    ending == ".js"@ || ending == ".mjs"@ || ending == ".cjs"@ || ending == ".py"@
}

proof fn lemma_unquote_end(text: Seq<char>, after: Seq<char>)
    requires
        quotes(after),
    ensures
        unquote_end(text + after) == unquote_end(text),
    decreases after.len(),
{
    if after.len() == 0 {
        assert(text + after =~= text);
    } else {
        assert((text + after).drop_last() =~= text + after.drop_last());
        assert((text + after).last() == after[after.len() - 1]);
        lemma_unquote_end(text, after.drop_last());
    }
}

proof fn lemma_unquote_start(before: Seq<char>, text: Seq<char>)
    requires
        quotes(before),
    ensures
        unquote_start(before + text) == unquote_start(text),
    decreases before.len(),
{
    if before.len() == 0 {
        assert(before + text =~= text);
    } else {
        assert((before + text).skip(1) =~= before.skip(1) + text);
        assert((before + text)[0] == before[0]);
        lemma_unquote_start(before.skip(1), text);
    }
}

/// Quotes around a path do not count.
pub proof fn quotes_do_not_count(before: Seq<char>, path: Seq<char>, after: Seq<char>)
    requires
        quotes(before),
        quotes(after),
        path.len() > 0 ==> path[0] != '\'' && path[0] != '"' && path.last() != '\'' && path.last()
            != '"',
    ensures
        base_name(before + path + after) == base_name(path),
{
    lemma_unquote_end(before + path, after);
    if path.len() > 0 {
        assert((before + path).last() == path.last());
        assert(unquote_end(before + path) == before + path);
        lemma_unquote_start(before, path);
        assert(unquoted(before + path + after) == unquote_start(path));
        assert(unquote_end(path) == path);
    } else {
        assert(before + path =~= before);
        let none = Seq::<char>::empty();
        assert(path =~= none);
        assert(none + before =~= before);
        lemma_unquote_end(none, before);
        assert(unquoted(before + path + after) =~= unquoted(path));
    }
}

proof fn lemma_bare_path(path: Seq<char>)
    requires
        path.len() > 0 ==> !quote(path[0]) && !quote(path.last()),
    ensures
        unquoted(path) == path,
{
}

/// A program is named by the last part of its path, whatever directory it stands in.
pub proof fn the_last_part_names_a_program(directory: Seq<char>, name: Seq<char>)
    requires
        simple(name),
        name != ""@,
        name != "."@,
        name != ".."@,
        directory.len() > 0 ==> directory[0] != '\'' && directory[0] != '"',
    ensures
        base_name(directory.push('/') + name) == without_extension(name),
        base_name(name) == without_extension(name),
{
    let path = directory.push('/') + name;
    reveal_strlit("");
    assert(name.len() > 0) by {
        if name.len() == 0 {
            assert(name =~= ""@);
        }
    }
    assert(path.last() == name[name.len() - 1]);
    assert(path[0] == if directory.len() > 0 {
        directory[0]
    } else {
        '/'
    });
    lemma_bare_path(path);
    assert(name.last() == name[name.len() - 1]);
    lemma_bare_path(name);
    assert(!name.contains('/'));
    lemma_split_after_separator(directory, '/', name);
    lemma_split_plain(name, '/');
    assert(last_part(split(path, '/')) == Some(name));
    assert(last_part(split(name, '/')) == Some(name));
}

/// The ending of a script is no part of its name. A name without one stays as it is.
pub proof fn endings_are_dropped(name: Seq<char>, ending: Seq<char>)
    requires
        script_ending(ending),
    ensures
        without_extension(name + ending) == name,
        !".js"@.is_suffix_of(name) && !".mjs"@.is_suffix_of(name) && !".cjs"@.is_suffix_of(name)
            && !".py"@.is_suffix_of(name) ==> without_extension(name) == name,
{
    reveal_strlit(".js");
    reveal_strlit(".mjs");
    reveal_strlit(".cjs");
    reveal_strlit(".py");
    let text = name + ending;
    let length = text.len() as int;
    assert(text.subrange(length - ending.len(), length) =~= ending);
    assert(ending.is_suffix_of(text));
    assert(text.take(length - ending.len()) =~= name);
    assert(text[length - 1] == ending[ending.len() - 1]);
    assert(text[length - 2] == ending[ending.len() - 2]);
    assert(text[length - 3] == ending[ending.len() - 3]);
    assert forall|other: Seq<char>|
        #[trigger] other.is_suffix_of(text) && script_ending(other) implies other == ending by {
        assert(text[length - 1] == other[other.len() - 1]);
        assert(text[length - 2] == other[other.len() - 2]);
        assert(text[length - 3] == other[other.len() - 3]);
        if other.len() == 4 && ending.len() == 4 {
            assert(text[length - 4] == ending[0]);
            assert(text[length - 4] == other[0]);
            assert(text[length - 3] == ending[1]);
        }
        assert(other =~= ending);
    }
}

/// The set that a process belongs to is the first that lists its name; or else the first that lists
/// the name of the file that its path leads to.
pub proof fn names_lead_to_a_set(
    process: Process,
    target: Option<Seq<char>>,
    sets: Seq<RuleSet>,
    index: int,
)
    requires
        0 <= index < sets.len(),
        traits_of(process) is Some,
    ensures
        ({
            let name = traits_of(process)->0.name;
            &&& names(sets[index], name) && (forall|earlier: int|
                0 <= earlier < index ==> !names(#[trigger] sets[earlier], name)) ==> set_of(
                process,
                target,
                sets,
            ) == Some(index)
            &&& target is Some && (forall|other: int|
                0 <= other < sets.len() ==> !names(#[trigger] sets[other], name)) && names(
                sets[index],
                base_name(target->0),
            ) && (forall|earlier: int|
                0 <= earlier < index ==> !names(#[trigger] sets[earlier], base_name(target->0)))
                ==> set_of(process, target, sets) == Some(index)
            &&& (forall|other: int|
                0 <= other < sets.len() ==> !names(#[trigger] sets[other], name) && (target is None
                    || !names(sets[other], base_name(target->0)))) ==> set_of(
                process,
                target,
                sets,
            ) is None
        }),
{
    let name = traits_of(process)->0.name;
    lemma_first_listing(sets, name);
    if target is Some {
        lemma_first_listing(sets, base_name(target->0));
    }
}

/// One of the names of the processes that a set lists is the given one.
pub open spec fn names(set: RuleSet, name: Seq<char>) -> bool {
    exists|index: int|
        0 <= index < set.process_names@.len() && #[trigger] set.process_names@[index]@ == name
}

proof fn lemma_first_listing(sets: Seq<RuleSet>, name: Seq<char>)
    ensures
        match first_listing(sets, name) {
            Some(index) => {
                &&& 0 <= index < sets.len()
                &&& names(sets[index], name)
                &&& forall|earlier: int| 0 <= earlier < index ==> !names(
                    #[trigger] sets[earlier],
                    name,
                )
            },
            None => forall|index: int| 0 <= index < sets.len() ==> !names(
                #[trigger] sets[index],
                name,
            ),
        },
    decreases sets.len(),
{
    if sets.len() > 0 {
        let before = sets.drop_last();
        lemma_first_listing(before, name);
        assert forall|index: int| 0 <= index < before.len() implies #[trigger] sets[index]
            == before[index] by {}
        let set = sets.last();
        assert(lists(set, name) == names(set, name)) by {
            let all = texts(set.process_names@);
            if lists(set, name) {
                let index = choose|index: int| 0 <= index < all.len() && all[index] == name;
                assert(set.process_names@[index]@ == name);
            }
            if names(set, name) {
                let index = choose|index: int|
                    0 <= index < set.process_names@.len()
                        && #[trigger] set.process_names@[index]@ == name;
                assert(all[index] == name);
            }
        }
    }
}

/// The process declares an agent that there is a rule set for.
pub open spec fn declared(process: Process, sets: Seq<RuleSet>) -> bool {
    process.env_agent matches Some(id) && exists|index: int|
        0 <= index < sets.len() && #[trigger] sets[index].id@ == id@
}

proof fn lemma_declared(process: Process, sets: Seq<RuleSet>)
    ensures
        declared(process, sets) == declares(process, sets),
{
    match process.env_agent {
        Some(id) => {
            lemma_first_with_id(sets, id@);
            match first_with_id(sets, id@) {
                Some(index) => {
                    assert(sets[index].id@ == id@);
                },
                None => {},
            }
        },
        None => {},
    }
}

/// The first process that declares an agent with a rule set is that agent, whatever else runs.
pub proof fn declared_agents_are_believed(
    job: Job,
    targets: Seq<Option<String>>,
    sets: Seq<RuleSet>,
    index: int,
)
    requires
        0 <= index < job.processes@.len(),
        declared(job.processes@[index], sets),
        forall|earlier: int|
            0 <= earlier < index ==> !declared(#[trigger] job.processes@[earlier], sets),
        valid_agent(job.processes@[index].env_agent->0@),
    ensures
        identified(job, targets, sets) == Some(
            (job.processes@[index].env_agent->0@, job.processes@[index].pid),
        ),
{
    lemma_declared(job.processes@[index], sets);
    assert forall|earlier: int| 0 <= earlier < index implies !declares(
        #[trigger] job.processes@[earlier],
        sets,
    ) by {
        lemma_declared(job.processes@[earlier], sets);
    }
    assert(first_declaring(job, sets, index));
    crate::rules::laws::declaration_beats_names(job, targets, sets, index);
}

/// Where nothing is declared, the agent is the process of the highest rank among those that belong
/// to a rule set: the leader of the group before all others, then the higher score, then the
/// earlier in the job. Where none belongs to a set, there is no agent.
pub proof fn the_highest_rank_is_the_agent(
    job: Job,
    targets: Seq<Option<String>>,
    sets: Seq<RuleSet>,
    index: int,
)
    requires
        forall|other: int|
            0 <= other < job.processes@.len() ==> !declared(#[trigger] job.processes@[other], sets),
    ensures
        0 <= index < job.processes@.len() && set_at(job, targets, sets, index) is Some && (
        forall|other: int|
            0 <= other < job.processes@.len() && other != index && #[trigger] set_at(
                job,
                targets,
                sets,
                other,
            ) is Some ==> {
                let mine = job.processes@[index];
                let theirs = job.processes@[other];
                ||| mine.pid == job.leader && theirs.pid != job.leader
                ||| (mine.pid == job.leader) == (theirs.pid == job.leader) && traits_of(
                    mine,
                )->0.score > traits_of(theirs)->0.score
                ||| (mine.pid == job.leader) == (theirs.pid == job.leader) && traits_of(
                    mine,
                )->0.score == traits_of(theirs)->0.score && index < other
            }) && valid_agent(sets[set_at(job, targets, sets, index)->0].id@) ==> identified(
            job,
            targets,
            sets,
        ) == Some(
            (sets[set_at(job, targets, sets, index)->0].id@, job.processes@[index].pid),
        ),
        (forall|other: int|
            0 <= other < job.processes@.len() ==> #[trigger] set_at(job, targets, sets, other)
                is None) ==> identified(job, targets, sets) is None,
{
    assert forall|other: int| !first_declaring(job, sets, other) by {
        if first_declaring(job, sets, other) {
            lemma_declared(job.processes@[other], sets);
        }
    }
    assert forall|other: int| 0 <= other < job.processes@.len() implies #[trigger] belongs(
        job,
        targets,
        sets,
        other,
    ) == (set_at(job, targets, sets, other) is Some) by {}
    if exists|other: int| recognised(job, targets, sets, other) {
        let chosen = choose|other: int| recognised(job, targets, sets, other);
        assert(belongs(job, targets, sets, chosen));
        assert(set_at(job, targets, sets, chosen) is Some);
    }
    if 0 <= index < job.processes@.len() && set_at(job, targets, sets, index) is Some && (forall|
        other: int,
    |
        0 <= other < job.processes@.len() && other != index && #[trigger] set_at(
            job,
            targets,
            sets,
            other,
        ) is Some ==> preferred(job, index, other) && !preferred(job, other, index)) {
        assert forall|other: int|
            0 <= other < job.processes@.len() && #[trigger] belongs(
                job,
                targets,
                sets,
                other,
            ) implies preferred(job, index, other) by {
            assert(set_at(job, targets, sets, other) is Some);
        }
        assert(recognised(job, targets, sets, index));
        let chosen = choose|other: int| recognised(job, targets, sets, other);
        assert(belongs(job, targets, sets, chosen));
        assert(set_at(job, targets, sets, chosen) is Some);
        assert(belongs(job, targets, sets, index));
        assert(preferred(job, chosen, index));
        assert(chosen == index);
    }
}

/// The set that the process at a place of a job belongs to, by its name or by what its path leads
/// to.
pub open spec fn set_at(
    job: Job,
    targets: Seq<Option<String>>,
    sets: Seq<RuleSet>,
    index: int,
) -> Option<int> {
    set_of(
        job.processes@[index],
        if index < targets.len() {
            text_view(targets[index])
        } else {
            None
        },
        sets,
    )
}

/// A slash at the end of a path does not count, nor does a dot behind it.
pub proof fn trailing_slashes_do_not_count(path: Seq<char>)
    requires
        path.len() > 0,
        path[0] != '\'' && path[0] != '"',
        path.last() != '\'' && path.last() != '"',
        last_part(split(path, '/')) is Some,
    ensures
        base_name(path.push('/')) == base_name(path),
        base_name(path.push('/').push('.')) == base_name(path),
{
    reveal_strlit("");
    reveal_strlit(".");
    let none = Seq::<char>::empty();
    let dot = seq!['.'];
    assert(""@ =~= none);
    assert("."@ =~= dot);
    lemma_bare_path(path);
    lemma_bare_path(path.push('/'));
    lemma_bare_path(path.push('/').push('.'));
    lemma_split_after_separator(path, '/', none);
    lemma_split_after_separator(path, '/', dot);
    assert(path.push('/') + none =~= path.push('/'));
    assert(path.push('/') + dot =~= path.push('/').push('.'));
    let parts = split(path, '/');
    assert(parts.push(none).drop_last() =~= parts);
    assert(parts.push(dot).drop_last() =~= parts);
}

} // verus!
