//! How regions, rule files and rule sets are named and ordered.
use crate::numeral::{codes_of_chars, decimal, decimal_chars, decimal_round_trip, unsigned};
use crate::rules::bundle::{
    indexed, lemma_precedes_irreflexive, lemma_precedes_total, ordered, precedes, rule_file,
    rule_files,
};
use crate::rules::ident::last_part;
use crate::rules::schema::{region_count, region_named, Region, RuleSet};
use crate::text::{lemma_split_after_separator, lemma_split_nonempty, split};
use vstd::prelude::*;

verus! {

/// The name of a region.
pub open spec fn written(region: Region) -> Seq<char> {
    match region {
        Region::Whole => "whole"@,
        Region::PromptBox => "prompt_box"@,
        Region::AbovePromptBox => "above_prompt_box"@,
        Region::LastLineAbovePromptBox => "last_line_above_prompt_box"@,
        Region::AfterLastRule => "after_last_rule"@,
        Region::AfterLastPromptMarker => "after_last_prompt_marker"@,
        Region::WholeUnlessAtPrompt => "whole_unless_at_prompt"@,
        Region::Title => "title"@,
        Region::Progress => "progress"@,
        Region::Bottom(count) => "bottom("@ + decimal_chars(count as nat) + seq![')'],
        Region::Top(count) => "top("@ + decimal_chars(count as nat) + seq![')'],
        Region::BottomNonEmpty(count) => "bottom_non_empty("@ + decimal_chars(count as nat) + seq![
            ')',
        ],
        Region::TopNonEmpty(count) => "top_non_empty("@ + decimal_chars(count as nat) + seq![')'],
    }
}

proof fn lemma_count_read(opening: Seq<char>, count: usize)
    ensures
        region_count(opening + decimal_chars(count as nat) + seq![')'], opening) == Some(count),
{
    let digits = decimal_chars(count as nat);
    let name = opening + digits + seq![')'];
    assert(name.subrange(0, opening.len() as int) =~= opening);
    assert(name.subrange(opening.len() as int, name.len() - 1) =~= digits);
    decimal_round_trip(count as nat);
    assert forall|index: int| 0 <= index < digits.len() implies codes_of_chars(digits)[index]
        == #[trigger] decimal(count as nat)[index] by {
        assert(0x30 <= decimal(count as nat)[index] <= 0x39);
    }
    assert(codes_of_chars(digits) =~= decimal(count as nat));
    assert(0x30 <= decimal(count as nat)[0] <= 0x39);
    assert(unsigned(codes_of_chars(digits)) == Some(count as nat));
}

proof fn lemma_other_opening(name: Seq<char>, opening: Seq<char>, place: int)
    requires
        0 <= place < opening.len(),
        place >= name.len() || name[place] != opening[place],
    ensures
        region_count(name, opening) is None,
{
    if opening.is_prefix_of(name) {
        assert(name[place] == opening[place]);
    }
}

/// Every region is read back from its name.
pub proof fn regions_read_back(region: Region)
    ensures
        region_named(written(region)) == Some(region),
{
    reveal_strlit("whole");
    reveal_strlit("prompt_box");
    reveal_strlit("above_prompt_box");
    reveal_strlit("last_line_above_prompt_box");
    reveal_strlit("after_last_rule");
    reveal_strlit("after_last_prompt_marker");
    reveal_strlit("whole_unless_at_prompt");
    reveal_strlit("title");
    reveal_strlit("progress");
    reveal_strlit("bottom(");
    reveal_strlit("top(");
    reveal_strlit("bottom_non_empty(");
    reveal_strlit("top_non_empty(");
    let name = written(region);
    assert("whole"@[0] == 'w');
    assert("prompt_box"@[0] == 'p' && "prompt_box"@[2] == 'o');
    assert("above_prompt_box"@[0] == 'a' && "above_prompt_box"@[1] == 'b');
    assert("last_line_above_prompt_box"@[0] == 'l');
    assert("after_last_rule"@[0] == 'a' && "after_last_rule"@[1] == 'f');
    assert("after_last_prompt_marker"@[0] == 'a' && "after_last_prompt_marker"@[1] == 'f');
    assert("whole_unless_at_prompt"@[0] == 'w');
    assert("title"@[0] == 't' && "title"@[1] == 'i');
    assert("progress"@[0] == 'p');
    match region {
        Region::Bottom(count) => {
            lemma_count_read("bottom("@, count);
            assert(name[0] == 'b');
        },
        Region::Top(count) => {
            lemma_count_read("top("@, count);
            assert(name[0] == 't' && name[1] == 'o');
            lemma_other_opening(name, "bottom("@, 0);
        },
        Region::BottomNonEmpty(count) => {
            lemma_count_read("bottom_non_empty("@, count);
            assert(name[0] == 'b' && name[6] == '_');
            lemma_other_opening(name, "bottom("@, 6);
            lemma_other_opening(name, "top("@, 0);
        },
        Region::TopNonEmpty(count) => {
            lemma_count_read("top_non_empty("@, count);
            assert(name[0] == 't' && name[1] == 'o' && name[3] == '_');
            lemma_other_opening(name, "bottom("@, 0);
            lemma_other_opening(name, "top("@, 3);
            lemma_other_opening(name, "bottom_non_empty("@, 0);
        },
        Region::AfterLastRule => {
            assert(name.len() == 15);
        },
        Region::AfterLastPromptMarker => {
            assert(name.len() == 24);
        },
        _ => {},
    }
}

/// A rule file is one whose name has something before `.toml` at its end, whatever directory it is
/// in. A name without a dot is none.
pub proof fn rule_files_end_in_toml(directory: Seq<char>, stem: Seq<char>)
    requires
        stem.len() > 0,
        !stem.contains('/'),
        !(stem + ".toml"@).contains('/'),
    ensures
        rule_file(directory.push('/') + (stem + ".toml"@)),
{
    reveal_strlit(".toml");
    reveal_strlit("toml");
    reveal_strlit("");
    reveal_strlit(".");
    reveal_strlit("..");
    let name = stem + ".toml"@;
    lemma_split_after_separator(directory, '/', name);
    assert(name.len() > 2);
    assert(name.last() == 'l');
    assert(last_part(split(directory.push('/') + name, '/')) == Some(name));
    assert(name =~= stem.push('.') + "toml"@);
    assert(!"toml"@.contains('.'));
    lemma_split_after_separator(stem, '.', "toml"@);
    lemma_split_nonempty(stem, '.');
    let parts = split(name, '.');
    if parts.len() == 2 {
        assert(split(stem, '.').len() == 1);
        crate::text::joined_of_split(stem, '.');
        assert(parts[0] == split(stem, '.')[0]);
    }
}

/// The rule files among paths are kept in their order, and nothing else is.
pub proof fn only_rule_files_are_kept(
    first: Seq<Seq<char>>,
    second: Seq<Seq<char>>,
    path: Seq<char>,
)
    ensures
        rule_files(first + second) == rule_files(first) + rule_files(second),
        rule_files(seq![path]) == if rule_file(path) {
            seq![path]
        } else {
            Seq::<Seq<char>>::empty()
        },
    decreases second.len(),
{
    let one = seq![path];
    assert(one.drop_last() =~= Seq::empty());
    assert(rule_files(one.drop_last()) =~= Seq::empty());
    assert(rule_files(one) =~= if rule_file(path) {
        seq![path]
    } else {
        Seq::<Seq<char>>::empty()
    });
    if second.len() == 0 {
        assert(first + second =~= first);
        assert(rule_files(first) + rule_files(second) =~= rule_files(first));
    } else {
        let before = second.drop_last();
        assert((first + second).drop_last() =~= first + before);
        only_rule_files_are_kept(first, before, path);
        assert(rule_files(first + second) =~= rule_files(first) + rule_files(second));
    }
}

/// A text comes before another exactly where, behind what they have in common, it ends and the
/// other does not, or goes on with the lesser character.
pub proof fn texts_are_ordered_by_their_first_difference(
    common: Seq<char>,
    left: Seq<char>,
    right: Seq<char>,
)
    requires
        left.len() == 0 || right.len() == 0 || left[0] != right[0],
    ensures
        precedes(common + left, common + right) <==> right.len() > 0 && (left.len() == 0 || left[0]
            < right[0]),
    decreases common.len(),
{
    if common.len() == 0 {
        assert(common + left =~= left);
        assert(common + right =~= right);
    } else {
        assert((common + left).skip(1) =~= common.skip(1) + left);
        assert((common + right).skip(1) =~= common.skip(1) + right);
        texts_are_ordered_by_their_first_difference(common.skip(1), left, right);
    }
}

/// A file with another ending is no rule file.
pub proof fn other_endings_are_no_rule_files(
    directory: Seq<char>,
    stem: Seq<char>,
    ending: Seq<char>,
)
    requires
        stem.len() > 0,
        !(stem.push('.') + ending).contains('/'),
        !ending.contains('.'),
        ending.len() > 0,
        ending != "toml"@,
    ensures
        !rule_file(directory.push('/') + (stem.push('.') + ending)),
{
    reveal_strlit("");
    reveal_strlit(".");
    reveal_strlit("..");
    let name = stem.push('.') + ending;
    lemma_split_after_separator(directory, '/', name);
    assert(name.last() == ending[ending.len() - 1]);
    assert(name.last() != '.') by {
        assert(ending.contains(ending[ending.len() - 1]));
    }
    assert(last_part(split(directory.push('/') + name, '/')) == Some(name));
    lemma_split_after_separator(stem, '.', ending);
    lemma_split_nonempty(stem, '.');
}

/// Rule files are sorted: of two of them the one that comes first in the list is the same as the
/// other or comes before it. Rule sets are sorted by their ids, and no two have the same.
pub proof fn lists_are_sorted(
    paths: Seq<Seq<char>>,
    sets: Seq<RuleSet>,
    left: int,
    right: int,
)
    requires
        0 <= left < right,
    ensures
        ordered(paths) && right < paths.len() ==> paths[left] == paths[right] || precedes(
            paths[left],
            paths[right],
        ),
        indexed(sets) && right < sets.len() ==> precedes(sets[left].id@, sets[right].id@)
            && sets[left].id@ != sets[right].id@,
{
    if ordered(paths) && right < paths.len() {
        lemma_precedes_total(paths[left], paths[right]);
    }
    if indexed(sets) && right < sets.len() {
        lemma_precedes_irreflexive(sets[left].id@);
    }
}

} // verus!
