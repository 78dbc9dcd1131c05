//! Rule sets from files: which files count, in which order, and which set wins.
use crate::rules::ident::{first_with_id, last_part};
use crate::rules::schema::RuleSet;
use crate::text::{chars_of, same_chars, same_text, split, split_chars, texts};
use vstd::prelude::*;
use vstd::utf8::{encode_utf8, valid_utf8};

verus! {

/// Maximum number of external TOML rule files loaded across all configured directories.
pub const MAX_RULE_FILES: usize = 256;

/// Maximum encoded size of one external TOML rule file.
pub const MAX_RULE_FILE_BYTES: usize = 1048576;

/// Maximum encoded size of a captured fixture.
pub const MAX_FIXTURE_BYTES: usize = 4194304;

/// The text comes before the other, character by character.
pub open spec fn precedes(left: Seq<char>, right: Seq<char>) -> bool
    decreases left.len(),
{
    if right.len() == 0 {
        false
    } else if left.len() == 0 {
        true
    } else if left[0] != right[0] {
        left[0] < right[0]
    } else {
        precedes(left.skip(1), right.skip(1))
    }
}

/// Whether a text comes before another.
pub fn comes_before(left: &str, right: &str) -> (before: bool)
    ensures
        before == precedes(left@, right@),
{
    let first = chars_of(left);
    let second = chars_of(right);
    let mut index: usize = 0;
    assert(left@.skip(0) =~= left@);
    assert(right@.skip(0) =~= right@);
    while index < first.len() && index < second.len()
        invariant
            first@ == left@,
            second@ == right@,
            index <= first@.len(),
            index <= second@.len(),
            precedes(left@, right@) == precedes(
                left@.skip(index as int),
                right@.skip(index as int),
            ),
        decreases first@.len() - index,
    {
        if first[index] != second[index] {
            return first[index] < second[index];
        }
        assert(left@.skip(index as int).skip(1) =~= left@.skip(index + 1));
        assert(right@.skip(index as int).skip(1) =~= right@.skip(index + 1));
        index = index + 1;
    }
    index < second.len()
}

pub proof fn lemma_precedes_irreflexive(text: Seq<char>)
    ensures
        !precedes(text, text),
    decreases text.len(),
{
    if text.len() > 0 {
        lemma_precedes_irreflexive(text.skip(1));
    }
}

pub proof fn lemma_precedes_transitive(first: Seq<char>, second: Seq<char>, third: Seq<char>)
    requires
        precedes(first, second),
        precedes(second, third),
    ensures
        precedes(first, third),
    decreases first.len(),
{
    if first.len() > 0 && first[0] == second[0] && second[0] == third[0] {
        lemma_precedes_transitive(first.skip(1), second.skip(1), third.skip(1));
    }
}

pub proof fn lemma_precedes_total(left: Seq<char>, right: Seq<char>)
    ensures
        left == right || precedes(left, right) || precedes(right, left),
    decreases left.len(),
{
    if left.len() == 0 || right.len() == 0 {
        if left.len() == 0 && right.len() == 0 {
            assert(left =~= right);
        }
    } else if left[0] == right[0] {
        lemma_precedes_total(left.skip(1), right.skip(1));
        if left.skip(1) == right.skip(1) {
            assert(left =~= right) by {
                assert(left.skip(1).len() == left.len() - 1);
                assert(right.skip(1).len() == right.len() - 1);
                assert forall|index: int| 0 <= index < left.len() implies left[index]
                    == right[index] by {
                    if index > 0 {
                        assert(left.skip(1)[index - 1] == right.skip(1)[index - 1]);
                    }
                }
            }
        }
    }
}

/// The part of a file name behind its last dot, unless that dot is also its first character.
pub open spec fn extension_of(name: Seq<char>) -> Option<Seq<char>> {
    let parts = split(name, '.');
    if parts.len() < 2 || (parts.len() == 2 && parts[0].len() == 0) {
        None
    } else {
        Some(parts.last())
    }
}

/// The path is that of a rule file.
pub open spec fn rule_file(path: Seq<char>) -> bool {
    match last_part(split(path, '/')) {
        Some(name) => extension_of(name) == Some("toml"@),
        None => false,
    }
}

/// Whether a path is that of a rule file.
pub fn is_rule_file(path: &str) -> (rules: bool)
    ensures
        rules == rule_file(path@),
{
    let chars = chars_of(path);
    match crate::rules::ident::file_name(chars.as_slice()) {
        Some(name) => {
            let parts = split_chars(name, '.');
            let count: usize = parts.len();
            if count < 2 || (count == 2 && parts[0].len() == 0) {
                proof {
                    if count == 2 {
                        assert(parts@[0]@ == split(name@, '.')[0]);
                    }
                }
                return false;
            }
            proof {
                if count == 2 {
                    assert(parts@[0]@ == split(name@, '.')[0]);
                }
                assert(parts@[count - 1]@ == split(name@, '.').last());
            }
            let wanted = chars_of("toml");
            same_chars(parts[count - 1], wanted.as_slice())
        },
        None => false,
    }
}

/// The rule files among the paths, in their order.
pub open spec fn rule_files(paths: Seq<Seq<char>>) -> Seq<Seq<char>>
    decreases paths.len(),
{
    if paths.len() == 0 {
        Seq::empty()
    } else if rule_file(paths.last()) {
        rule_files(paths.drop_last()).push(paths.last())
    } else {
        rule_files(paths.drop_last())
    }
}

/// Each path comes before those that follow it, or is the same.
pub open spec fn ordered(paths: Seq<Seq<char>>) -> bool {
    forall|left: int, right: int|
        0 <= left < right < paths.len() ==> !precedes(
            #[trigger] paths[right],
            #[trigger] paths[left],
        )
}

proof fn lemma_rule_files_grow(paths: Seq<Seq<char>>, count: int)
    requires
        0 <= count <= paths.len(),
    ensures
        rule_files(paths.take(count)).len() <= rule_files(paths).len(),
    decreases paths.len() - count,
{
    if count == paths.len() {
        assert(paths.take(count) =~= paths);
    } else {
        assert(paths.take(count + 1).drop_last() =~= paths.take(count));
        lemma_rule_files_grow(paths, count + 1);
    }
}

/// Puts a path into its place among ordered ones.
fn place(paths: &mut Vec<String>, path: String)
    requires
        ordered(texts(old(paths)@)),
    ensures
        ordered(texts(final(paths)@)),
        texts(final(paths)@).to_multiset() == texts(old(paths)@).to_multiset().insert(path@),
{
    let ghost before = texts(paths@);
    let mut index: usize = paths.len();
    while index > 0 && comes_before(path.as_str(), paths[index - 1].as_str())
        invariant
            before == texts(paths@),
            index <= paths@.len(),
            ordered(before),
            forall|later: int|
                index <= later < before.len() ==> precedes(path@, #[trigger] before[later]),
        ensures
            index <= paths@.len(),
            forall|later: int|
                index <= later < before.len() ==> precedes(path@, #[trigger] before[later]),
            index > 0 ==> !precedes(path@, before[index - 1]),
        decreases index,
    {
        assert(before[index - 1] == paths@[index - 1]@);
        index = index - 1;
    }
    proof {
        if index > 0 {
            assert(before[index - 1] == paths@[index - 1]@);
        }
    }
    paths.insert(index, path);
    let ghost after = texts(paths@);
    proof {
        assert(after =~= before.insert(index as int, path@));
        assert forall|left: int, right: int| 0 <= left < right < after.len() implies !precedes(
            #[trigger] after[right],
            #[trigger] after[left],
        ) by {
            if right < index {
                assert(after[left] == before[left] && after[right] == before[right]);
            } else if left >= index + 1 {
                assert(after[left] == before[left - 1] && after[right] == before[right - 1]);
            } else if right == index {
                assert(after[left] == before[left]);
                if precedes(path@, before[left]) {
                    if left < index - 1 {
                        lemma_precedes_total(before[left], before[index - 1]);
                        if precedes(before[left], before[index - 1]) {
                            lemma_precedes_transitive(path@, before[left], before[index - 1]);
                        }
                    }
                }
            } else if left == index {
                assert(after[right] == before[right - 1]);
                if precedes(before[right - 1], path@) {
                    lemma_precedes_transitive(path@, before[right - 1], path@);
                    lemma_precedes_irreflexive(path@);
                }
            } else {
                assert(after[left] == before[left] && after[right] == before[right - 1]);
            }
        }
        assert(after.remove(index as int) =~= before);
        vstd::seq_lib::to_multiset_remove(after, index as int);
        after.to_multiset_ensures();
        assert(after.contains(after[index as int]));
        assert(after.to_multiset() =~= before.to_multiset().insert(path@));
    }
}

/// The rule files among the paths of a directory, in order, if there are not too many besides those
/// that were loaded before.
pub fn select_rule_files(paths: &Vec<String>, loaded: usize) -> (files: Option<Vec<String>>)
    ensures
        ({
            let wanted = rule_files(texts(paths@));
            match files {
                Some(found) => {
                    &&& wanted.len() == 0 || loaded + wanted.len() <= MAX_RULE_FILES
                    &&& ordered(texts(found@))
                    &&& texts(found@).to_multiset() == wanted.to_multiset()
                },
                None => wanted.len() > 0 && loaded + wanted.len() > MAX_RULE_FILES,
            }
        }),
{
    let ghost all = texts(paths@);
    let mut found: Vec<String> = Vec::new();
    assert(texts(found@) =~= rule_files(all.take(0)));
    for index in 0..paths.len()
        invariant
            all == texts(paths@),
            ordered(texts(found@)),
            texts(found@).to_multiset() == rule_files(all.take(index as int)).to_multiset(),
            texts(found@).len() == rule_files(all.take(index as int)).len(),
            texts(found@).len() == 0 || loaded + texts(found@).len() <= MAX_RULE_FILES,
    {
        let ghost longer = all.take(index + 1);
        assert(longer.drop_last() =~= all.take(index as int));
        assert(longer.last() == paths@[index as int]@);
        if is_rule_file(paths[index].as_str()) {
            if loaded >= MAX_RULE_FILES || found.len() >= MAX_RULE_FILES - loaded {
                proof {
                    lemma_rule_files_grow(all, index + 1);
                }
                return None;
            }
            proof {
                vstd::seq_lib::to_multiset_build(
                    rule_files(all.take(index as int)),
                    paths@[index as int]@,
                );
                texts(found@).to_multiset_ensures();
            }
            place(&mut found, paths[index].clone());
            proof {
                texts(found@).to_multiset_ensures();
            }
        }
    }
    assert(all.take(paths@.len() as int) =~= all);
    Some(found)
}

/// The sets are in the order of their ids, and no two have the same.
pub open spec fn indexed(sets: Seq<RuleSet>) -> bool {
    forall|left: int, right: int|
        0 <= left < right < sets.len() ==> precedes(
            #[trigger] sets[left].id@,
            #[trigger] sets[right].id@,
        )
}

/// The set with that id.
pub open spec fn set_with_id(sets: Seq<RuleSet>, id: Seq<char>) -> Option<RuleSet> {
    match first_with_id(sets, id) {
        Some(index) => Some(sets[index]),
        None => None,
    }
}

pub(crate) proof fn lemma_first_with_id(sets: Seq<RuleSet>, id: Seq<char>)
    ensures
        match first_with_id(sets, id) {
            Some(index) => {
                &&& 0 <= index < sets.len()
                &&& sets[index].id@ == id
                &&& forall|earlier: int| 0 <= earlier < index ==> #[trigger] sets[earlier].id@
                    != id
            },
            None => forall|index: int| 0 <= index < sets.len() ==> #[trigger] sets[index].id@ != id,
        },
    decreases sets.len(),
{
    if sets.len() > 0 {
        lemma_first_with_id(sets.drop_last(), id);
        assert forall|index: int| 0 <= index < sets.len() - 1 implies sets[index]
            == sets.drop_last()[index] by {}
    }
}

proof fn lemma_set_at(sets: Seq<RuleSet>, index: int)
    requires
        indexed(sets),
        0 <= index < sets.len(),
    ensures
        set_with_id(sets, sets[index].id@) == Some(sets[index]),
{
    lemma_first_with_id(sets, sets[index].id@);
    match first_with_id(sets, sets[index].id@) {
        Some(found) => {
            if found < index {
                assert(precedes(sets[found].id@, sets[index].id@));
                lemma_precedes_irreflexive(sets[index].id@);
            }
        },
        None => {
            assert(sets[index].id@ != sets[index].id@);
        },
    }
}

proof fn lemma_no_set(sets: Seq<RuleSet>, id: Seq<char>)
    requires
        forall|index: int| 0 <= index < sets.len() ==> #[trigger] sets[index].id@ != id,
    ensures
        set_with_id(sets, id) is None,
{
    lemma_first_with_id(sets, id);
}

/// The new set is under its id, and every other is where it was.
pub open spec fn merged(before: Seq<RuleSet>, set: RuleSet, after: Seq<RuleSet>) -> bool {
    forall|id: Seq<char>| #[trigger]
        set_with_id(after, id) == if id == set.id@ {
            Some(set)
        } else {
            set_with_id(before, id)
        }
}

/// Adds a set to others. One with the same id is replaced.
pub fn merge(sets: &mut Vec<RuleSet>, set: RuleSet)
    requires
        indexed(old(sets)@),
    ensures
        indexed(final(sets)@),
        merged(old(sets)@, set, final(sets)@),
{
    let ghost before = sets@;
    let mut index: usize = 0;
    while index < sets.len() && comes_before(sets[index].id.as_str(), set.id.as_str())
        invariant
            sets@ == before,
            index <= sets@.len(),
            forall|earlier: int|
                0 <= earlier < index ==> precedes(#[trigger] before[earlier].id@, set.id@),
        ensures
            index <= sets@.len(),
            index < sets@.len() ==> !precedes(before[index as int].id@, set.id@),
            forall|earlier: int|
                0 <= earlier < index ==> precedes(#[trigger] before[earlier].id@, set.id@),
        decreases sets@.len() - index,
    {
        index = index + 1;
    }
    if index < sets.len() && same_text(sets[index].id.as_str(), set.id.as_str()) {
        let ghost kept = set;
        sets.set(index, set);
        proof {
            lemma_replaced(before, kept, index as int);
            assert(sets@ =~= before.update(index as int, kept));
        }
    } else {
        let ghost kept = set;
        proof {
            if index < sets@.len() {
                lemma_precedes_total(before[index as int].id@, set.id@);
            }
        }
        sets.insert(index, set);
        proof {
            lemma_inserted(before, kept, index as int);
            assert(sets@ =~= before.insert(index as int, kept));
        }
    }
}

proof fn lemma_replaced(before: Seq<RuleSet>, set: RuleSet, index: int)
    requires
        indexed(before),
        0 <= index < before.len(),
        before[index].id@ == set.id@,
    ensures
        indexed(before.update(index, set)),
        merged(before, set, before.update(index, set)),
{
    let after = before.update(index, set);
    assert forall|left: int, right: int| 0 <= left < right < after.len() implies precedes(
        #[trigger] after[left].id@,
        #[trigger] after[right].id@,
    ) by {
        assert(after[left].id@ == before[left].id@);
        assert(after[right].id@ == before[right].id@);
    }
    assert forall|id: Seq<char>| #[trigger]
        set_with_id(after, id) == if id == set.id@ {
            Some(set)
        } else {
            set_with_id(before, id)
        } by {
        if id == set.id@ {
            lemma_set_at(after, index);
        } else {
            lemma_first_with_id(before, id);
            match first_with_id(before, id) {
                Some(found) => {
                    lemma_set_at(before, found);
                    lemma_set_at(after, found);
                },
                None => {
                    assert forall|other: int| 0 <= other < after.len() implies #[trigger] after[other].id@
                        != id by {
                        assert(before[other].id@ != id);
                    }
                    lemma_no_set(after, id);
                },
            }
        }
    }
}

proof fn lemma_inserted(before: Seq<RuleSet>, set: RuleSet, index: int)
    requires
        indexed(before),
        0 <= index <= before.len(),
        forall|earlier: int|
            0 <= earlier < index ==> precedes(#[trigger] before[earlier].id@, set.id@),
        index < before.len() ==> precedes(set.id@, before[index].id@),
    ensures
        indexed(before.insert(index, set)),
        merged(before, set, before.insert(index, set)),
{
    let after = before.insert(index, set);
    assert forall|later: int| index <= later < before.len() implies precedes(
        set.id@,
        #[trigger] before[later].id@,
    ) by {
        if later > index {
            assert(precedes(before[index].id@, before[later].id@));
            lemma_precedes_transitive(set.id@, before[index].id@, before[later].id@);
        }
    }
    assert forall|left: int, right: int| 0 <= left < right < after.len() implies precedes(
        #[trigger] after[left].id@,
        #[trigger] after[right].id@,
    ) by {
        if right < index {
            assert(after[left] == before[left] && after[right] == before[right]);
        } else if left > index {
            assert(after[left] == before[left - 1] && after[right] == before[right - 1]);
        } else if right == index {
            assert(after[left] == before[left]);
        } else if left == index {
            assert(after[right] == before[right - 1]);
        } else {
            assert(after[left] == before[left] && after[right] == before[right - 1]);
        }
    }
    assert forall|id: Seq<char>| #[trigger]
        set_with_id(after, id) == if id == set.id@ {
            Some(set)
        } else {
            set_with_id(before, id)
        } by {
        if id == set.id@ {
            assert(after[index] == set);
            lemma_set_at(after, index);
        } else {
            lemma_first_with_id(before, id);
            match first_with_id(before, id) {
                Some(found) => {
                    lemma_set_at(before, found);
                    let moved = if found < index {
                        found
                    } else {
                        found + 1
                    };
                    assert(after[moved] == before[found]);
                    lemma_set_at(after, moved);
                },
                None => {
                    assert forall|other: int| 0 <= other < after.len() implies #[trigger] after[other].id@
                        != id by {
                        if other < index {
                            assert(after[other] == before[other]);
                            assert(before[other].id@ != id);
                        } else if other > index {
                            assert(after[other] == before[other - 1]);
                            assert(before[other - 1].id@ != id);
                        }
                    }
                    lemma_no_set(after, id);
                },
            }
        }
    }
}

/// Of two sets with the same id, the one that is loaded later wins.
pub proof fn later_sets_win(
    before: Seq<RuleSet>,
    first: RuleSet,
    between: Seq<RuleSet>,
    second: RuleSet,
    after: Seq<RuleSet>,
)
    requires
        merged(before, first, between),
        merged(between, second, after),
        first.id@ == second.id@,
    ensures
        set_with_id(after, second.id@) == Some(second),
        merged(before, second, after),
{
    assert forall|id: Seq<char>| #[trigger]
        set_with_id(after, id) == if id == second.id@ {
            Some(second)
        } else {
            set_with_id(before, id)
        } by {
        assert(set_with_id(between, id) == if id == first.id@ {
            Some(first)
        } else {
            set_with_id(before, id)
        });
    }
}

/// Why bytes are not taken as a text.
#[derive(Clone, Copy, Debug, PartialEq, Eq, Structural)]
pub enum TextError {
    /// There are more of them than may be.
    TooLong,
    /// They are no UTF-8.
    NotUtf8,
}

/// The text that bytes hold, if there are not too many of them.
pub fn bounded_text(bytes: Vec<u8>, limit: usize) -> (text: Result<String, TextError>)
    ensures
        match text {
            Ok(value) => bytes@.len() <= limit && encode_utf8(value@) == bytes@,
            Err(TextError::TooLong) => bytes@.len() > limit,
            Err(TextError::NotUtf8) => bytes@.len() <= limit && !valid_utf8(bytes@),
        },
{
    if bytes.len() > limit {
        return Err(TextError::TooLong);
    }
    match String::from_utf8(bytes) {
        Ok(text) => Ok(text),
        Err(_) => Err(TextError::NotUtf8),
    }
}

} // verus!
