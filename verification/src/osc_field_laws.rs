//! How a report is read, field by field.
use crate::numeral::decimal_bytes;
use crate::osc::{
    agent_char, assigned, assigns, at_most_once, exited_of, field, flag_names, flags_named,
    flags_of, hex_value, holds_terminator, lookup, message_of, parsed, payload_of, percent_decoded,
    percent_encoded, report_of, seq_of, unambiguous, valid_agent, Flags, State,
};
use crate::osc_laws::{
    agent_round_trip, flags_round_trip, message_round_trip, seq_round_trip, state_round_trip,
};
use crate::text::{joined, lemma_split_nonempty, split};
use vstd::prelude::*;
use vstd::utf8::encode_utf8;

verus! {

/// Every byte is printable ASCII.
pub open spec fn readable(bytes: Seq<u8>) -> bool {
    forall|index: int| 0 <= index < bytes.len() ==> 0x20 <= #[trigger] bytes[index] <= 0x7e
}

/// A payload reads the same alone, between `ESC ]` and `ESC \`, and between `ESC ]` and a bell.
pub proof fn frames_read_as_their_payload(payload: Seq<u8>)
    requires
        readable(payload),
        payload.len() <= 1020,
    ensures
        parsed(seq![0x1bu8, 0x5d] + payload + seq![0x1bu8, 0x5c]) == parsed(payload),
        parsed((seq![0x1bu8, 0x5d] + payload).push(0x07)) == parsed(payload),
{
    let frame = seq![0x1bu8, 0x5d] + payload + seq![0x1bu8, 0x5c];
    let rung = (seq![0x1bu8, 0x5d] + payload).push(0x07);
    assert(frame.subrange(2, frame.len() - 2) =~= payload);
    assert(rung.subrange(2, rung.len() - 1) =~= payload);
    assert(payload_of(payload) == Some(payload)) by {
        if payload.len() >= 2 {
            assert(0x20 <= payload[0] <= 0x7e);
        }
        if payload.contains(0x07) {
            let at = choose|at: int| 0 <= at < payload.len() && payload[at] == 0x07;
            assert(0x20 <= payload[at] <= 0x7e);
        }
        if holds_terminator(payload) {
            let at = choose|at: int|
                0 <= at < payload.len() - 1 && #[trigger] payload[at] == 0x1b && payload[at + 1]
                    == 0x5c;
            assert(0x20 <= payload[at] <= 0x7e);
        }
    }
    assert(payload_of(frame) == Some(payload));
    assert(payload_of(rung) == Some(payload)) by {
        if payload.len() > 0 {
            assert(0x20 <= payload[payload.len() - 1] <= 0x7e);
            assert(rung[rung.len() - 2] == payload[payload.len() - 1]);
        }
    }
}

/// Nothing longer than 1024 bytes is a report, nor anything that does not start with the code.
pub proof fn reports_are_short_and_coded(input: Seq<u8>)
    requires
        readable(input),
    ensures
        input.len() > 1024 ==> parsed(input) is None,
        split(input, 0x3b)[0] != encode_utf8("7877"@) ==> parsed(input) is None,
{
    lemma_split_nonempty(input, 0x3bu8);
    if input.len() >= 2 {
        assert(0x20 <= input[0] <= 0x7e);
    }
}

/// One of the fields of a payload is the given one.
pub open spec fn says(payload: Seq<u8>, text: Seq<u8>) -> bool {
    exists|index: int|
        1 <= index < split(payload, 0x3b).len() && #[trigger] split(payload, 0x3b)[index] == text
}

/// One of the fields of a payload gives the key a value.
pub open spec fn gives(payload: Seq<u8>, key: Seq<u8>) -> bool {
    exists|index: int|
        1 <= index < split(payload, 0x3b).len() && assigns(
            #[trigger] split(payload, 0x3b)[index],
            key,
        )
}

proof fn lemma_found(fields: Seq<Seq<u8>>, key: Seq<u8>, index: int)
    requires
        0 <= index < fields.len(),
        assigns(fields[index], key),
        at_most_once(fields, key),
    ensures
        lookup(fields, key) == Some(assigned(fields[index], key)),
    decreases fields.len(),
{
    let before = fields.drop_last();
    if index < fields.len() - 1 {
        assert(!assigns(fields[fields.len() - 1], key));
        assert(before[index] == fields[index]);
        assert(at_most_once(before, key)) by {
            assert forall|first: int, second: int|
                0 <= first < second < before.len() && #[trigger] assigns(
                    before[first],
                    key,
                ) implies !(#[trigger] assigns(before[second], key)) by {
                assert(assigns(fields[first], key));
                assert(before[second] == fields[second]);
            }
        }
        lemma_found(before, key, index);
    }
}

proof fn lemma_missing(fields: Seq<Seq<u8>>, key: Seq<u8>)
    ensures
        lookup(fields, key) is Some <==> exists|index: int|
            0 <= index < fields.len() && assigns(#[trigger] fields[index], key),
    decreases fields.len(),
{
    if fields.len() > 0 {
        let before = fields.drop_last();
        lemma_missing(before, key);
        assert(fields.last() == fields[fields.len() - 1]);
        if exists|index: int| 0 <= index < before.len() && assigns(#[trigger] before[index], key) {
            let index = choose|index: int|
                0 <= index < before.len() && assigns(#[trigger] before[index], key);
            assert(assigns(fields[index], key));
        }
        if exists|index: int| 0 <= index < fields.len() && assigns(#[trigger] fields[index], key) {
            let index = choose|index: int|
                0 <= index < fields.len() && assigns(#[trigger] fields[index], key);
            if index < before.len() {
                assert(assigns(before[index], key));
            }
        }
    }
}

proof fn lemma_said(payload: Seq<u8>, key: Seq<u8>, value: Seq<u8>)
    requires
        says(payload, field(key, value)),
        at_most_once(split(payload, 0x3b).skip(1), key),
    ensures
        lookup(split(payload, 0x3b).skip(1), key) == Some(value),
{
    let all = split(payload, 0x3b);
    let index = choose|index: int|
        1 <= index < all.len() && #[trigger] all[index] == field(key, value);
    let fields = all.skip(1);
    let text = field(key, value);
    assert(fields[index - 1] == text);
    assert(text.subrange(0, key.len() as int + 1) =~= key.push(0x3d));
    assert(assigned(text, key) =~= value);
    lemma_found(fields, key, index - 1);
}

proof fn lemma_not_given(payload: Seq<u8>, key: Seq<u8>)
    ensures
        lookup(split(payload, 0x3b).skip(1), key) is Some <==> gives(payload, key),
{
    let all = split(payload, 0x3b);
    let fields = all.skip(1);
    lemma_split_nonempty(payload, 0x3bu8);
    lemma_missing(fields, key);
    if gives(payload, key) {
        let index = choose|index: int|
            1 <= index < all.len() && assigns(#[trigger] all[index], key);
        assert(fields[index - 1] == all[index]);
    }
    if exists|index: int| 0 <= index < fields.len() && assigns(#[trigger] fields[index], key) {
        let index = choose|index: int|
            0 <= index < fields.len() && assigns(#[trigger] fields[index], key);
        assert(all[index + 1] == fields[index]);
    }
}

proof fn lemma_payload_read(payload: Seq<u8>)
    requires
        readable(payload),
        parsed(payload) is Some,
    ensures
        payload.len() <= 1024,
        report_of(split(payload, 0x3b).skip(1)) == parsed(payload),
        unambiguous(split(payload, 0x3b).skip(1)),
{
    if payload.len() >= 2 {
        assert(0x20 <= payload[0] <= 0x7e);
    }
}

/// A report is what its fields say, wherever they stand in it: each of them by its own key.
pub proof fn fields_are_read_by_their_key(
    payload: Seq<u8>,
    state: State,
    seq: u64,
    agent: Seq<char>,
    visible: Flags,
    message: Seq<char>,
)
    requires
        readable(payload),
        parsed(payload) is Some,
        valid_agent(agent),
        encode_utf8(message).len() <= 128,
    ensures
        says(payload, field(encode_utf8("state"@), crate::osc::state_bytes(state))) ==> parsed(
            payload,
        )->0.state == state,
        says(payload, field(encode_utf8("seq"@), decimal_bytes(seq as nat))) ==> parsed(
            payload,
        )->0.seq == seq,
        says(payload, field(encode_utf8("agent"@), encode_utf8(agent))) ==> parsed(payload)->0.agent
            == Some(agent),
        says(payload, field(encode_utf8("visible"@), joined(flag_names(visible), 0x2c))) ==> parsed(
            payload,
        )->0.visible == visible,
        says(payload, field(encode_utf8("exited"@), encode_utf8("1"@))) ==> parsed(
            payload,
        )->0.exited,
        says(payload, field(encode_utf8("exited"@), encode_utf8("0"@))) ==> !parsed(
            payload,
        )->0.exited,
        says(
            payload,
            field(encode_utf8("message"@), percent_encoded(encode_utf8(message))),
        ) ==> parsed(payload)->0.message == Some(message),
{
    lemma_payload_read(payload);
    if says(payload, field(encode_utf8("state"@), crate::osc::state_bytes(state))) {
        lemma_said(payload, encode_utf8("state"@), crate::osc::state_bytes(state));
        state_round_trip(state);
    }
    if says(payload, field(encode_utf8("seq"@), decimal_bytes(seq as nat))) {
        lemma_said(payload, encode_utf8("seq"@), decimal_bytes(seq as nat));
        seq_round_trip(seq);
    }
    if says(payload, field(encode_utf8("agent"@), encode_utf8(agent))) {
        lemma_said(payload, encode_utf8("agent"@), encode_utf8(agent));
        agent_round_trip(agent);
    }
    if says(payload, field(encode_utf8("visible"@), joined(flag_names(visible), 0x2c))) {
        lemma_said(payload, encode_utf8("visible"@), joined(flag_names(visible), 0x2c));
        flags_round_trip(visible);
    }
    if says(payload, field(encode_utf8("exited"@), encode_utf8("1"@))) {
        lemma_said(payload, encode_utf8("exited"@), encode_utf8("1"@));
        lemma_bits_differ();
    }
    if says(payload, field(encode_utf8("exited"@), encode_utf8("0"@))) {
        lemma_said(payload, encode_utf8("exited"@), encode_utf8("0"@));
    }
    if says(payload, field(encode_utf8("message"@), percent_encoded(encode_utf8(message)))) {
        lemma_said(payload, encode_utf8("message"@), percent_encoded(encode_utf8(message)));
        message_round_trip(message);
    }
}

proof fn lemma_bits_differ()
    ensures
        encode_utf8("1"@) != encode_utf8("0"@),
{
    reveal_strlit("1");
    reveal_strlit("0");
    vstd::utf8::is_ascii_chars_encode_utf8("1"@);
    vstd::utf8::is_ascii_chars_encode_utf8("0"@);
    assert(encode_utf8("1"@)[0] == 0x31);
    assert(encode_utf8("0"@)[0] == 0x30);
}

/// A report says its state and its number, and each once. What it does not say is the plainest: no
/// agent, no evidence, no exit and no message. An agent is named exactly where there is a state.
pub proof fn missing_fields_are_plain(payload: Seq<u8>)
    requires
        readable(payload),
        parsed(payload) is Some,
    ensures
        ({
            let report = parsed(payload)->0;
            &&& gives(payload, encode_utf8("state"@))
            &&& gives(payload, encode_utf8("seq"@))
            &&& gives(payload, encode_utf8("agent"@)) <==> report.agent is Some
            &&& report.agent is None <==> report.state is NoAgent
            &&& !gives(payload, encode_utf8("visible"@)) ==> !report.visible.idle
                && !report.visible.blocker && !report.visible.working
            &&& !gives(payload, encode_utf8("exited"@)) ==> !report.exited
            &&& gives(payload, encode_utf8("message"@)) <==> report.message is Some
        }),
{
    lemma_payload_read(payload);
    lemma_not_given(payload, encode_utf8("state"@));
    lemma_not_given(payload, encode_utf8("seq"@));
    lemma_not_given(payload, encode_utf8("agent"@));
    lemma_not_given(payload, encode_utf8("visible"@));
    lemma_not_given(payload, encode_utf8("exited"@));
    lemma_not_given(payload, encode_utf8("message"@));
}

/// No field that is known is said twice in a report, and every field is an assignment.
pub proof fn nothing_is_said_twice(payload: Seq<u8>, key: Seq<char>, first: int, second: int)
    requires
        readable(payload),
        key == "v"@ || key == "state"@ || key == "agent"@ || key == "seq"@ || key == "visible"@
            || key == "exited"@ || key == "message"@,
        1 <= first < second < split(payload, 0x3b).len(),
        assigns(split(payload, 0x3b)[first], encode_utf8(key)),
        assigns(split(payload, 0x3b)[second], encode_utf8(key)),
    ensures
        parsed(payload) is None,
{
    if parsed(payload) is Some {
        lemma_payload_read(payload);
        let fields = split(payload, 0x3b).skip(1);
        assert(fields[first - 1] == split(payload, 0x3b)[first]);
        assert(fields[second - 1] == split(payload, 0x3b)[second]);
        assert(at_most_once(fields, encode_utf8(key)));
    }
}

/// A letter or a digit of ASCII, a dot, an underscore or a hyphen.
pub open spec fn plain_character(character: char) -> bool {
    ||| '0' <= character <= '9'
    ||| 'A' <= character <= 'Z'
    ||| 'a' <= character <= 'z'
    ||| character == '.'
    ||| character == '_'
    ||| character == '-'
}

/// An identifier has from 1 to 64 characters, all of them plain.
pub proof fn identifiers_are_plain(text: Seq<char>)
    ensures
        valid_agent(text) <==> 1 <= text.len() <= 64 && forall|index: int|
            0 <= index < text.len() ==> plain_character(#[trigger] text[index]),
{
    assert forall|character: char| #[trigger] agent_char(character) == plain_character(
        character,
    ) by {}
    if !valid_agent(text) && 1 <= text.len() <= 64 {
        let index = choose|index: int|
            0 <= index < text.len() && !agent_char(#[trigger] text[index]);
        assert(!plain_character(text[index]));
    }
}

/// The evidence is read from a list of names: those of the three flags, each at most once, set
/// exactly the flags that they name; no list sets none, and any other list is refused.
pub proof fn evidence_is_read_by_name(value: Seq<u8>)
    requires
        value.len() > 0,
    ensures
        ({
            let names = split(value, 0x2c);
            let idle = encode_utf8("idle"@);
            let blocker = encode_utf8("blocker"@);
            let working = encode_utf8("working"@);
            &&& flags_of(value) is Some <==> names.no_duplicates() && forall|index: int|
                0 <= index < names.len() ==> (#[trigger] names[index] == idle || names[index]
                    == blocker || names[index] == working)
            &&& flags_of(value) matches Some(flags) ==> flags.idle == names.contains(idle)
                && flags.blocker == names.contains(blocker) && flags.working == names.contains(
                working,
            )
        }),
        flags_of(Seq::<u8>::empty()) == Some(
            Flags { idle: false, blocker: false, working: false },
        ),
{
    lemma_flags_named(split(value, 0x2c));
}

proof fn lemma_flags_named(names: Seq<Seq<u8>>)
    ensures
        ({
            let idle = encode_utf8("idle"@);
            let blocker = encode_utf8("blocker"@);
            let working = encode_utf8("working"@);
            &&& flags_named(names) is Some <==> names.no_duplicates() && forall|index: int|
                0 <= index < names.len() ==> (#[trigger] names[index] == idle || names[index]
                    == blocker || names[index] == working)
            &&& flags_named(names) matches Some(flags) ==> flags.idle == names.contains(idle)
                && flags.blocker == names.contains(blocker) && flags.working == names.contains(
                working,
            )
        }),
    decreases names.len(),
{
    let idle = encode_utf8("idle"@);
    let blocker = encode_utf8("blocker"@);
    let working = encode_utf8("working"@);
    lemma_flags_differ();
    if names.len() > 0 {
        let before = names.drop_last();
        let last = names.last();
        lemma_flags_named(before);
        assert(names =~= before.push(last));
        assert forall|name: Seq<u8>| #[trigger] names.contains(name) <==> before.contains(name)
            || name == last by {
            if names.contains(name) {
                let at = choose|at: int| 0 <= at < names.len() && names[at] == name;
                if at < before.len() {
                    assert(before[at] == name);
                }
            }
            if before.contains(name) {
                let at = choose|at: int| 0 <= at < before.len() && before[at] == name;
                assert(names[at] == name);
            }
            assert(names[names.len() - 1] == last);
        }
        assert(names.no_duplicates() <==> before.no_duplicates() && !before.contains(last)) by {
            if names.no_duplicates() {
                assert forall|left: int, right: int|
                    0 <= left < before.len() && 0 <= right < before.len() && left
                        != right implies before[left] != before[right] by {
                    assert(names[left] != names[right]);
                }
                if before.contains(last) {
                    let at = choose|at: int| 0 <= at < before.len() && before[at] == last;
                    assert(names[at] != names[names.len() - 1]);
                }
            }
            if before.no_duplicates() && !before.contains(last) {
                assert forall|left: int, right: int|
                    0 <= left < names.len() && 0 <= right < names.len() && left
                        != right implies names[left] != names[right] by {
                    if left < before.len() && right < before.len() {
                        assert(before[left] != before[right]);
                    } else if left < before.len() {
                        assert(before.contains(before[left]));
                    } else {
                        assert(before.contains(before[right]));
                    }
                }
            }
        }
        assert((forall|index: int|
            0 <= index < names.len() ==> (#[trigger] names[index] == idle || names[index] == blocker
                || names[index] == working)) <==> (forall|index: int|
            0 <= index < before.len() ==> (#[trigger] before[index] == idle || before[index]
                == blocker || before[index] == working)) && (last == idle || last == blocker || last
            == working)) by {
            assert forall|index: int| 0 <= index < before.len() implies names[index]
                == #[trigger] before[index] by {}
            assert(names[names.len() - 1] == last);
        }
    }
}

proof fn lemma_flags_differ()
    ensures
        encode_utf8("idle"@) != encode_utf8("blocker"@),
        encode_utf8("idle"@) != encode_utf8("working"@),
        encode_utf8("blocker"@) != encode_utf8("working"@),
{
    reveal_strlit("idle");
    reveal_strlit("blocker");
    reveal_strlit("working");
    vstd::utf8::is_ascii_chars_encode_utf8("idle"@);
    vstd::utf8::is_ascii_chars_encode_utf8("blocker"@);
    vstd::utf8::is_ascii_chars_encode_utf8("working"@);
    assert(encode_utf8("idle"@)[0] == 0x69);
    assert(encode_utf8("blocker"@)[0] == 0x62);
    assert(encode_utf8("working"@)[0] == 0x77);
}

/// A hexadecimal digit, in either case, and its value.
pub open spec fn hex_digit(byte: u8, value: nat) -> bool {
    ||| value <= 9 && byte == 0x30 + value
    ||| 10 <= value <= 15 && (byte == 0x41 + value - 10 || byte == 0x61 + value - 10)
}

/// In a message a percent sign and two hexadecimal digits, in either case, are the byte that they
/// say; every other byte but the sign is itself; and a sign without two digits is refused.
pub proof fn escapes_are_read(
    first: u8,
    second: u8,
    high: nat,
    low: nat,
    byte: u8,
    other: u8,
    rest: Seq<u8>,
)
    requires
        hex_digit(first, high),
        hex_digit(second, low),
        byte != 0x25,
        percent_decoded(rest) is Some,
    ensures
        percent_decoded(seq![0x25u8, first, second] + rest) == Some(
            seq![(high * 16 + low) as u8] + percent_decoded(rest)->0,
        ),
        percent_decoded(seq![byte] + rest) == Some(seq![byte] + percent_decoded(rest)->0),
        percent_decoded(seq![0x25u8]) is None,
        percent_decoded(seq![0x25u8, first]) is None,
        (forall|value: nat| !hex_digit(other, value)) ==> percent_decoded(
            seq![0x25u8, other, second] + rest,
        ) is None,
{
    let escape = seq![0x25u8, first, second] + rest;
    assert(escape.skip(3) =~= rest);
    assert(escape[1] == first && escape[2] == second);
    let plain = seq![byte] + rest;
    assert(plain.skip(1) =~= rest);
    let broken = seq![0x25u8, other, second] + rest;
    assert(broken[1] == other);
    match hex_value(other) {
        Some(value) => {
            assert(hex_digit(other, value as nat));
        },
        None => {},
    }
}

/// A number is read from digits alone, at least one of them; an exit is `0` or `1`; a message has at
/// most 128 bytes and is UTF-8; and every field of a report is an assignment.
pub proof fn values_are_checked(value: Seq<u8>, payload: Seq<u8>, index: int)
    ensures
        seq_of(value) is Some ==> value.len() > 0 && forall|at: int|
            0 <= at < value.len() ==> 0x30 <= #[trigger] value[at] <= 0x39,
        exited_of(value) is Some <==> value == encode_utf8("0"@) || value == encode_utf8("1"@),
        message_of(value) matches Some(message) ==> percent_decoded(value) is Some
            && percent_decoded(value)->0.len() <= 128 && encode_utf8(message) == percent_decoded(
            value,
        )->0,
        readable(payload) && parsed(payload) is Some && 1 <= index < split(payload, 0x3b).len()
            ==> split(payload, 0x3b)[index].contains(0x3d),
{
    if seq_of(value) is Some {
        assert forall|at: int| 0 <= at < value.len() implies 0x30 <= #[trigger] value[at] <= 0x39 by {
            let codes = crate::numeral::codes_of_bytes(value);
            assert(codes[at] == value[at]);
        }
    }
    if message_of(value) is Some {
        vstd::utf8::decode_utf8_encode_utf8(percent_decoded(value)->0);
    }
    if readable(payload) && parsed(payload) is Some && 1 <= index < split(payload, 0x3b).len() {
        lemma_payload_read(payload);
        let fields = split(payload, 0x3b).skip(1);
        assert(fields[index - 1].contains(0x3d));
    }
}

} // verus!
