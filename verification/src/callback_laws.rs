//! What is kept of everything that a terminal says.
use crate::callbacks::{
    clean_title, heard, heard_all, is_progress, small_number, without_controls, Call, HeardView,
};
use crate::numeral::{codes_of_bytes, decimal, decimal_bytes, decimal_round_trip, unsigned};
use crate::rules::view::Progress;
use crate::text::{lossy_text, split, split_of_joined};
use vstd::prelude::*;
use vstd::utf8::{encode_utf8, is_ascii_chars_encode_utf8};

verus! {

/// The number of bells among the calls.
pub open spec fn bells_in(calls: Seq<Call>) -> nat {
    calls.filter(|call: Call| call is Bell).len()
}

/// Every bell is counted, and nothing else is.
pub proof fn bells_are_counted(before: HeardView, calls: Seq<Call>)
    requires
        before.bells + bells_in(calls) <= u64::MAX,
    ensures
        heard_all(before, calls).bells == before.bells + bells_in(calls),
    decreases calls.len(),
{
    reveal(Seq::filter);
    if calls.len() > 0 {
        bells_are_counted(before, calls.drop_last());
    }
}

/// The title is the one that was set last, and stays while none is set.
pub proof fn the_last_title_is_kept(
    before: HeardView,
    earlier: Seq<Call>,
    title: Seq<u8>,
    later: Seq<Call>,
)
    requires
        forall|index: int| 0 <= index < later.len() ==> !(#[trigger] later[index] is Title),
    ensures
        heard_all(before, earlier.push(Call::Title(title)) + later).title == clean_title(
            lossy_text(title),
        ),
        heard_all(before, later).title == before.title,
    decreases later.len(),
{
    let first = earlier.push(Call::Title(title));
    if later.len() == 0 {
        assert(first + later =~= first);
        assert(first.drop_last() =~= earlier);
    } else {
        let fewer = later.drop_last();
        assert((first + later).drop_last() =~= first + fewer);
        assert(!(later[later.len() - 1] is Title));
        assert forall|index: int| 0 <= index < fewer.len() implies !(
        #[trigger] fewer[index] is Title) by {
            assert(fewer[index] == later[index]);
        }
        the_last_title_is_kept(before, earlier, title, fewer);
    }
}

/// The call may change what the rules read: a bell, a title or a progress.
pub open spec fn tells(call: Call) -> bool {
    match call {
        Call::Osc(parameters) => is_progress(parameters),
        _ => true,
    }
}

/// Something was said that the rules could read exactly where one of the calls says it.
pub proof fn telling_calls_are_noted(before: HeardView, calls: Seq<Call>)
    requires
        !before.event,
    ensures
        heard_all(before, calls).event <==> exists|index: int|
            0 <= index < calls.len() && tells(#[trigger] calls[index]),
    decreases calls.len(),
{
    if calls.len() > 0 {
        let fewer = calls.drop_last();
        telling_calls_are_noted(before, fewer);
        assert(calls.last() == calls[calls.len() - 1]);
        if exists|index: int| 0 <= index < fewer.len() && tells(#[trigger] fewer[index]) {
            let index = choose|index: int|
                0 <= index < fewer.len() && tells(#[trigger] fewer[index]);
            assert(tells(calls[index]));
        }
        if exists|index: int| 0 <= index < calls.len() && tells(#[trigger] calls[index]) {
            let index = choose|index: int|
                0 <= index < calls.len() && tells(#[trigger] calls[index]);
            if index < fewer.len() {
                assert(tells(fewer[index]));
            }
        }
    }
}

proof fn lemma_small_number(value: nat)
    requires
        value <= 255,
    ensures
        small_number(decimal_bytes(value)) == Some(value as u8),
{
    decimal_round_trip(value);
    let codes = codes_of_bytes(decimal_bytes(value));
    assert(codes =~= decimal(value));
    assert(codes[0] != 0x2b);
    assert(unsigned(codes) == Some(value));
}

/// `OSC 9 ; 4 ; state ; percent` with a state up to three and a percentage up to a hundred is the
/// progress from then on, but that a cleared progress has no percentage. Anything else that starts
/// otherwise, or is out of range, leaves the progress as it was.
pub proof fn progress_is_read(before: HeardView, state: nat, percent: nat, rest: Seq<Seq<u8>>)
    requires
        state <= 255,
        percent <= 255,
    ensures
        ({
            let call = Call::Osc(
                seq![
                    seq![0x39u8],
                    seq![0x34u8],
                    decimal_bytes(state),
                    decimal_bytes(percent),
                ] + rest,
            );
            let after = heard(before, call);
            if state <= 3 && percent <= 100 {
                &&& after.progress == Some(
                    Progress {
                        state: state as u8,
                        percent: if state == 0 {
                            0
                        } else {
                            percent as u8
                        },
                    },
                )
                &&& after.event
            } else {
                after.progress == before.progress && after.event == before.event
            }
        }),
{
    let parameters = seq![
        seq![0x39u8],
        seq![0x34u8],
        decimal_bytes(state),
        decimal_bytes(percent),
    ] + rest;
    reveal_strlit("9");
    reveal_strlit("4");
    is_ascii_chars_encode_utf8("9"@);
    is_ascii_chars_encode_utf8("4"@);
    assert(encode_utf8("9"@) =~= seq![0x39u8]);
    assert(encode_utf8("4"@) =~= seq![0x34u8]);
    assert(parameters[0] == seq![0x39u8]);
    assert(parameters[1] == seq![0x34u8]);
    assert(parameters[2] == decimal_bytes(state));
    assert(parameters[3] == decimal_bytes(percent));
    lemma_small_number(state);
    lemma_small_number(percent);
}

/// A command of another kind, and one that is too short, leave the progress as it was.
pub proof fn other_commands_are_no_progress(before: HeardView, parameters: Seq<Seq<u8>>)
    requires
        parameters.len() < 4 || parameters[0] != seq![0x39u8] || parameters[1] != seq![0x34u8],
    ensures
        heard(before, Call::Osc(parameters)).progress == before.progress,
        heard(before, Call::Osc(parameters)).event == before.event,
{
    reveal_strlit("9");
    reveal_strlit("4");
    is_ascii_chars_encode_utf8("9"@);
    is_ascii_chars_encode_utf8("4"@);
    assert(encode_utf8("9"@) =~= seq![0x39u8]);
    assert(encode_utf8("4"@) =~= seq![0x34u8]);
}

/// A report that an agent makes of itself, by one of the two codes, is kept as it was made: its
/// parameters come back between semicolons. Every other command leaves the reports as they were.
pub proof fn reports_are_kept(before: HeardView, parameters: Seq<Seq<u8>>)
    requires
        parameters.len() > 0,
        forall|index: int|
            0 <= index < parameters.len() ==> !(#[trigger] parameters[index]).contains(0x3b),
    ensures
        ({
            let after = heard(before, Call::Osc(parameters));
            let code = parameters[0];
            if code == seq![0x37u8, 0x38, 0x37, 0x37] || code == seq![
                0x32u8,
                0x31,
                0x33,
                0x33,
                0x37,
            ] {
                &&& after.reports.len() == before.reports.len() + 1
                &&& after.reports.drop_last() == before.reports
                &&& split(after.reports.last(), 0x3b) == parameters
            } else {
                after.reports == before.reports
            }
        }),
        heard(before, Call::Osc(parameters)).title == before.title,
        heard(before, Call::Osc(parameters)).bells == before.bells,
{
    reveal_strlit("7877");
    reveal_strlit("21337");
    is_ascii_chars_encode_utf8("7877"@);
    is_ascii_chars_encode_utf8("21337"@);
    assert(encode_utf8("7877"@) =~= seq![0x37u8, 0x38, 0x37, 0x37]);
    assert(encode_utf8("21337"@) =~= seq![0x32u8, 0x31, 0x33, 0x33, 0x37]);
    split_of_joined(parameters, 0x3b);
    let after = heard(before, Call::Osc(parameters));
    assert(after.reports.len() > before.reports.len() ==> after.reports.drop_last()
        =~= before.reports);
}

/// A bell and a title leave everything else as it was.
pub proof fn bells_and_titles_are_apart(before: HeardView, title: Seq<u8>)
    ensures
        heard(before, Call::Bell).title == before.title,
        heard(before, Call::Bell).progress == before.progress,
        heard(before, Call::Bell).reports == before.reports,
        heard(before, Call::Title(title)).bells == before.bells,
        heard(before, Call::Title(title)).progress == before.progress,
        heard(before, Call::Title(title)).reports == before.reports,
{
}

proof fn lemma_controls_filtered(text: Seq<char>)
    ensures
        without_controls(text) == text.filter(
            |character: char|
                !(character as u32 <= 0x1f || 0x7f <= character as u32 <= 0x9f),
        ),
    decreases text.len(),
{
    reveal(Seq::filter);
    if text.len() > 0 {
        lemma_controls_filtered(text.drop_last());
    }
}

/// A title is kept without its control characters, and of the rest the first 256 characters.
pub proof fn titles_are_cut_at_the_end(text: Seq<char>)
    ensures
        ({
            let plain = text.filter(
                |character: char|
                    !(character as u32 <= 0x1f || 0x7f <= character as u32 <= 0x9f),
            );
            &&& clean_title(text).is_prefix_of(plain)
            &&& clean_title(text).len() == if plain.len() < 256 {
                plain.len()
            } else {
                256
            }
        }),
{
    lemma_controls_filtered(text);
    let plain = without_controls(text);
    assert(clean_title(text) =~= plain.subrange(0, clean_title(text).len() as int));
}

} // verus!
