//! What formatting and parsing owe each other.
use crate::numeral::{codes_of_bytes, decimal, decimal_bytes, decimal_round_trip};
use crate::osc::{
    agent_of, assigned, assigns, at_most_once, escaped, exited_of, field, flag_names, flags_named,
    flags_of, formatted, hex_digit_of, hex_value, holds_terminator, lemma_lookup_absent, lemma_lookup_push, lemma_lookup_unique,
    literal_byte, lookup, message_of, parsed, payload_of, percent_decoded, percent_encoded,
    report_fields, report_of, seq_of, state_bytes, state_of, unambiguous, valid_agent, Flags,
    ReportView, State, MAX_MESSAGE_BYTES, MAX_REPORT_BYTES,
};
use crate::text::{
    joined, lemma_split_after_separator, lemma_split_nonempty, split, split_of_joined,
};
use crate::boundary::{
    control_strings_end_in_the_ground, ends_text, followed, plain_payload, Sequence,
};
use vstd::prelude::*;
use vstd::utf8::{
    encode_utf8, encode_utf8_decode_utf8, encode_utf8_valid_utf8, is_ascii_chars_encode_utf8,
};

verus! {

/// A percent encoding decodes to the bytes that it was made from.
pub proof fn percent_round_trip(bytes: Seq<u8>)
    ensures
        percent_decoded(percent_encoded(bytes)) == Some(bytes),
    decreases bytes.len(),
{
    if bytes.len() == 0 {
        assert(bytes =~= Seq::empty());
    } else {
        let byte = bytes[0];
        let tail = percent_encoded(bytes.skip(1));
        let text = percent_encoded(bytes);
        percent_round_trip(bytes.skip(1));
        assert(seq![byte] + bytes.skip(1) =~= bytes);
        if literal_byte(byte) {
            assert(text.skip(1) =~= tail);
        } else {
            assert(text.skip(3) =~= tail);
            assert(hex_value(hex_digit_of(byte as int / 16)) == Some((byte as int / 16) as u8));
            assert(hex_value(hex_digit_of(byte as int % 16)) == Some((byte as int % 16) as u8));
        }
    }
}

/// A message comes back from its encoding.
pub proof fn message_round_trip(message: Seq<char>)
    requires
        encode_utf8(message).len() <= MAX_MESSAGE_BYTES,
    ensures
        message_of(percent_encoded(encode_utf8(message))) == Some(message),
{
    percent_round_trip(encode_utf8(message));
    encode_utf8_valid_utf8(message);
    encode_utf8_decode_utf8(message);
}

/// A state comes back from its wire name.
pub proof fn state_round_trip(state: State)
    ensures
        state_of(state_bytes(state)) == Some(state),
{
    lemma_words();
}

proof fn lemma_words()
    ensures
        encode_utf8("working"@).len() == 7,
        encode_utf8("working"@)[0] == 0x77,
        encode_utf8("blocked"@).len() == 7,
        encode_utf8("blocked"@)[0] == 0x62,
        encode_utf8("blocker"@).len() == 7,
        encode_utf8("blocker"@)[0] == 0x62,
        encode_utf8("idle"@).len() == 4,
        encode_utf8("idle"@)[0] == 0x69,
        encode_utf8("none"@).len() == 4,
        encode_utf8("none"@)[0] == 0x6e,
        encode_utf8("0"@).len() == 1,
        encode_utf8("0"@)[0] == 0x30,
        encode_utf8("1"@).len() == 1,
        encode_utf8("1"@)[0] == 0x31,
{
    reveal_strlit("working");
    reveal_strlit("blocked");
    reveal_strlit("blocker");
    reveal_strlit("idle");
    reveal_strlit("none");
    reveal_strlit("0");
    reveal_strlit("1");
    is_ascii_chars_encode_utf8("working"@);
    is_ascii_chars_encode_utf8("blocked"@);
    is_ascii_chars_encode_utf8("blocker"@);
    is_ascii_chars_encode_utf8("idle"@);
    is_ascii_chars_encode_utf8("none"@);
    is_ascii_chars_encode_utf8("0"@);
    is_ascii_chars_encode_utf8("1"@);
}

/// Only printable ASCII characters stand in the text.
pub open spec fn printable(text: Seq<u8>) -> bool {
    forall|index: int| 0 <= index < text.len() ==> 0x20 <= #[trigger] text[index] <= 0x7e
}

/// Only printable ASCII characters other than the semicolon and the comma stand in the text.
spec fn plain(text: Seq<u8>) -> bool {
    forall|index: int|
        0 <= index < text.len() ==> 0x20 <= #[trigger] text[index] <= 0x7e && text[index] != 0x3b
            && text[index] != 0x2c
}

/// Only printable ASCII characters other than the semicolon stand in the text.
spec fn unbroken(text: Seq<u8>) -> bool {
    forall|index: int|
        0 <= index < text.len() ==> 0x20 <= #[trigger] text[index] <= 0x7e && text[index] != 0x3b
}

proof fn lemma_literals_plain()
    ensures
        plain(encode_utf8("7877"@)),
        plain(encode_utf8("working"@)),
        plain(encode_utf8("blocked"@)),
        plain(encode_utf8("blocker"@)),
        plain(encode_utf8("idle"@)),
        plain(encode_utf8("none"@)),
        plain(encode_utf8("0"@)),
        plain(encode_utf8("1"@)),
        encode_utf8("7877"@).len() == 4,
{
    reveal_strlit("7877");
    reveal_strlit("working");
    reveal_strlit("blocked");
    reveal_strlit("blocker");
    reveal_strlit("idle");
    reveal_strlit("none");
    reveal_strlit("0");
    reveal_strlit("1");
    is_ascii_chars_encode_utf8("7877"@);
    is_ascii_chars_encode_utf8("working"@);
    is_ascii_chars_encode_utf8("blocked"@);
    is_ascii_chars_encode_utf8("blocker"@);
    is_ascii_chars_encode_utf8("idle"@);
    is_ascii_chars_encode_utf8("none"@);
    is_ascii_chars_encode_utf8("0"@);
    is_ascii_chars_encode_utf8("1"@);
}

/// The flags come back from the list of their names.
pub proof fn flags_round_trip(flags: Flags)
    ensures
        flags_of(joined(flag_names(flags), 0x2c)) == Some(flags),
{
    let idle = encode_utf8("idle"@);
    let blocker = encode_utf8("blocker"@);
    let working = encode_utf8("working"@);
    let names = flag_names(flags);
    lemma_words();
    lemma_literals_plain();
    reveal_with_fuel(joined, 4);
    reveal_with_fuel(flags_named, 4);
    if names.len() > 0 {
        assert forall|index: int| 0 <= index < names.len() implies !(
        #[trigger] names[index]).contains(0x2c) by {
            assert(plain(names[index]));
        }
        split_of_joined(names, 0x2c);
        if flags.idle && flags.blocker && flags.working {
            assert(names =~= seq![idle, blocker, working]);
            assert(names.drop_last() =~= seq![idle, blocker]);
            assert(names.drop_last().drop_last() =~= seq![idle]);
            assert(seq![idle].drop_last() =~= Seq::empty());
        } else if flags.idle && flags.blocker {
            assert(names =~= seq![idle, blocker]);
            assert(names.drop_last() =~= seq![idle]);
            assert(seq![idle].drop_last() =~= Seq::empty());
        } else if flags.idle && flags.working {
            assert(names =~= seq![idle, working]);
            assert(names.drop_last() =~= seq![idle]);
            assert(seq![idle].drop_last() =~= Seq::empty());
        } else if flags.blocker && flags.working {
            assert(names =~= seq![blocker, working]);
            assert(names.drop_last() =~= seq![blocker]);
            assert(seq![blocker].drop_last() =~= Seq::empty());
        } else {
            assert(names =~= seq![names[0]]);
            assert(seq![names[0]].drop_last() =~= Seq::empty());
        }
    }
}

/// A sequence number comes back from its numeral.
pub proof fn seq_round_trip(seq: u64)
    ensures
        seq_of(decimal_bytes(seq as nat)) == Some(seq),
{
    decimal_round_trip(seq as nat);
    assert(codes_of_bytes(decimal_bytes(seq as nat)) =~= decimal(seq as nat));
}

/// An identifier comes back from its bytes.
pub proof fn agent_round_trip(agent: Seq<char>)
    requires
        valid_agent(agent),
    ensures
        agent_of(encode_utf8(agent)) == Some(agent),
{
    encode_utf8_valid_utf8(agent);
    encode_utf8_decode_utf8(agent);
}

/// The keys of a report, in the order of their fields.
#[verifier::opaque]
spec fn report_keys(report: ReportView) -> Seq<Seq<u8>> {
    seq![encode_utf8("v"@), encode_utf8("state"@)] + (if report.agent is Some {
        seq![encode_utf8("agent"@)]
    } else {
        seq![]
    }) + seq![encode_utf8("seq"@), encode_utf8("visible"@), encode_utf8("exited"@)] + (
    if report.message is Some {
        seq![encode_utf8("message"@)]
    } else {
        seq![]
    })
}

/// The values of a report, in the order of their fields.
#[verifier::opaque]
spec fn report_values(report: ReportView) -> Seq<Seq<u8>> {
    seq![encode_utf8("1"@), state_bytes(report.state)] + (match report.agent {
        Some(agent) => seq![encode_utf8(agent)],
        None => seq![],
    }) + seq![
        decimal_bytes(report.seq as nat),
        joined(flag_names(report.visible), 0x2c),
        if report.exited {
            encode_utf8("1"@)
        } else {
            encode_utf8("0"@)
        },
    ] + (match report.message {
        Some(message) => seq![percent_encoded(encode_utf8(message))],
        None => seq![],
    })
}

/// The key is one that a report may give a value.
pub open spec fn known(key: Seq<u8>) -> bool {
    ||| key == encode_utf8("v"@)
    ||| key == encode_utf8("state"@)
    ||| key == encode_utf8("agent"@)
    ||| key == encode_utf8("seq"@)
    ||| key == encode_utf8("visible"@)
    ||| key == encode_utf8("exited"@)
    ||| key == encode_utf8("message"@)
}

/// The known keys, each with the sign behind it, differ in their first two letters.
proof fn lemma_keys()
    ensures
        encode_utf8("v"@).len() == 1,
        encode_utf8("v"@)[0] == 0x76,
        encode_utf8("state"@).len() == 5,
        encode_utf8("state"@)[0] == 0x73,
        encode_utf8("state"@)[1] == 0x74,
        encode_utf8("agent"@).len() == 5,
        encode_utf8("agent"@)[0] == 0x61,
        encode_utf8("seq"@).len() == 3,
        encode_utf8("seq"@)[0] == 0x73,
        encode_utf8("seq"@)[1] == 0x65,
        encode_utf8("visible"@).len() == 7,
        encode_utf8("visible"@)[0] == 0x76,
        encode_utf8("visible"@)[1] == 0x69,
        encode_utf8("exited"@).len() == 6,
        encode_utf8("exited"@)[0] == 0x65,
        encode_utf8("message"@).len() == 7,
        encode_utf8("message"@)[0] == 0x6d,
        forall|key: Seq<u8>| #[trigger] known(key) ==> plain(key) && !key.contains(0x3d),
{
    reveal_strlit("v");
    is_ascii_chars_encode_utf8("v"@);
    reveal_strlit("state");
    reveal_strlit("agent");
    reveal_strlit("seq");
    reveal_strlit("visible");
    reveal_strlit("exited");
    reveal_strlit("message");
    is_ascii_chars_encode_utf8("state"@);
    is_ascii_chars_encode_utf8("agent"@);
    is_ascii_chars_encode_utf8("seq"@);
    is_ascii_chars_encode_utf8("visible"@);
    is_ascii_chars_encode_utf8("exited"@);
    is_ascii_chars_encode_utf8("message"@);
}

proof fn lemma_assigns(key: Seq<u8>, value: Seq<u8>, other: Seq<u8>)
    requires
        known(key),
        known(other),
    ensures
        assigns(field(key, value), other) <==> key == other,
        assigned(field(key, value), key) == value,
        field(key, value).contains(0x3d),
{
    let text = field(key, value);
    lemma_keys();
    assert(assigned(text, key) =~= value);
    assert(text[key.len() as int] == 0x3d);
    assert(text.subrange(0, key.len() as int + 1) =~= key.push(0x3d));
    if assigns(text, other) {
        assert(text[0] == other.push(0x3d)[0]);
        assert(text[1] == other.push(0x3d)[1]);
        assert(text[0] == key.push(0x3d)[0]);
        assert(text[1] == key.push(0x3d)[1]);
    }
}

proof fn lemma_table(fields: Seq<Seq<u8>>, keys: Seq<Seq<u8>>, values: Seq<Seq<u8>>)
    requires
        fields.len() == keys.len() == values.len(),
        forall|index: int|
            0 <= index < fields.len() ==> #[trigger] fields[index] == field(
                keys[index],
                values[index],
            ) && known(keys[index]),
        keys.no_duplicates(),
    ensures
        unambiguous(fields),
        forall|index: int|
            0 <= index < keys.len() ==> lookup(fields, #[trigger] keys[index]) == Some(
                values[index],
            ),
        forall|key: Seq<u8>| #[trigger] known(key) && !keys.contains(key) ==> lookup(fields, key) is None,
{
    assert forall|key: Seq<u8>| #[trigger] known(key) implies at_most_once(fields, key) by {
        assert forall|first: int, second: int|
            0 <= first < second < fields.len() && #[trigger] assigns(
                fields[first],
                key,
            ) implies !(#[trigger] assigns(fields[second], key)) by {
            assert(fields[first] == field(keys[first], values[first]));
            assert(fields[second] == field(keys[second], values[second]));
            lemma_assigns(keys[first], values[first], key);
            lemma_assigns(keys[second], values[second], key);
        }
    }
    assert forall|index: int| 0 <= index < fields.len() implies (#[trigger] fields[index]).contains(
        0x3d,
    ) by {
        assert(fields[index] == field(keys[index], values[index]));
        lemma_assigns(keys[index], values[index], keys[index]);
    }
    assert(known(encode_utf8("v"@)));
    assert(known(encode_utf8("state"@)));
    assert(known(encode_utf8("agent"@)));
    assert(known(encode_utf8("seq"@)));
    assert(known(encode_utf8("visible"@)));
    assert(known(encode_utf8("exited"@)));
    assert(known(encode_utf8("message"@)));
    assert forall|index: int| 0 <= index < keys.len() implies lookup(fields, #[trigger] keys[index])
        == Some(values[index]) by {
        assert(fields[index] == field(keys[index], values[index]));
        lemma_assigns(keys[index], values[index], keys[index]);
        assert(known(keys[index]));
        lemma_lookup_unique(fields, keys[index], index);
    }
    assert forall|key: Seq<u8>| #[trigger] known(key) && !keys.contains(key) implies lookup(
        fields,
        key,
    ) is None by {
        assert forall|index: int| 0 <= index < fields.len() implies !assigns(
            #[trigger] fields[index],
            key,
        ) by {
            assert(fields[index] == field(keys[index], values[index]));
            lemma_assigns(keys[index], values[index], key);
            assert(keys.contains(keys[index]));
        }
        lemma_lookup_absent(fields, key);
    }
}

proof fn lemma_keys_distinct(report: ReportView)
    ensures
        report_keys(report).no_duplicates(),
        forall|index: int| 0 <= index < report_keys(report).len() ==> known(#[trigger] report_keys(report)[index]),
        report_keys(report).len() == report_values(report).len(),
        report_fields(report).len() == report_keys(report).len() + 1,
        forall|index: int|
            0 <= index < report_keys(report).len() ==> #[trigger] report_fields(report)[index + 1] == field(
                report_keys(report)[index],
                report_values(report)[index],
            ),
        report_fields(report)[0] == encode_utf8("7877"@),
{
    reveal(report_keys);
    reveal(report_values);
    lemma_keys();
}

/// What the fields of a report give each key.
proof fn lemma_report_lookups(report: ReportView)
    ensures
        ({
            let fields = report_fields(report).skip(1);
            &&& unambiguous(fields)
            &&& lookup(fields, encode_utf8("v"@)) == Some(encode_utf8("1"@))
            &&& lookup(fields, encode_utf8("state"@)) == Some(state_bytes(report.state))
            &&& lookup(fields, encode_utf8("seq"@)) == Some(decimal_bytes(report.seq as nat))
            &&& lookup(fields, encode_utf8("visible"@)) == Some(
                joined(flag_names(report.visible), 0x2c),
            )
            &&& lookup(fields, encode_utf8("exited"@)) == Some(
                if report.exited {
                    encode_utf8("1"@)
                } else {
                    encode_utf8("0"@)
                },
            )
            &&& lookup(fields, encode_utf8("agent"@)) == match report.agent {
                Some(agent) => Some(encode_utf8(agent)),
                None => None,
            }
            &&& lookup(fields, encode_utf8("message"@)) == match report.message {
                Some(message) => Some(percent_encoded(encode_utf8(message))),
                None => None,
            }
        }),
{
    let keys = report_keys(report);
    lemma_report_table(report);
    lemma_report_places(report);
    let shift: int = if report.agent is Some {
        1
    } else {
        0
    };
    assert(keys[0] == encode_utf8("v"@));
    assert(keys[1] == encode_utf8("state"@));
    assert(keys[2 + shift] == encode_utf8("seq"@));
    assert(keys[3 + shift] == encode_utf8("visible"@));
    assert(keys[4 + shift] == encode_utf8("exited"@));
    if report.agent is Some {
        assert(keys[2] == encode_utf8("agent"@));
    } else {
        lemma_key_absent(report, encode_utf8("agent"@));
    }
    if report.message is Some {
        assert(keys[5 + shift] == encode_utf8("message"@));
    } else {
        lemma_key_absent(report, encode_utf8("message"@));
    }
}

/// The fields of a report give each of its keys its value, and the other known keys none.
proof fn lemma_report_table(report: ReportView)
    ensures
        ({
            let fields = report_fields(report).skip(1);
            let keys = report_keys(report);
            &&& unambiguous(fields)
            &&& forall|index: int|
                0 <= index < keys.len() ==> lookup(fields, #[trigger] keys[index]) == Some(
                    report_values(report)[index],
                )
            &&& forall|key: Seq<u8>| #[trigger]
                known(key) && !keys.contains(key) ==> lookup(fields, key) is None
        }),
{
    let fields = report_fields(report).skip(1);
    let keys = report_keys(report);
    let values = report_values(report);
    lemma_keys_distinct(report);
    assert forall|index: int| 0 <= index < fields.len() implies #[trigger] fields[index] == field(
        keys[index],
        values[index],
    ) && known(keys[index]) by {
        assert(fields[index] == report_fields(report)[index + 1]);
        assert(known(report_keys(report)[index]));
    }
    lemma_table(fields, keys, values);
}

/// Where the keys and the values of a report stand.
proof fn lemma_report_places(report: ReportView)
    ensures
        ({
            let keys = report_keys(report);
            let values = report_values(report);
            let shift: int = if report.agent is Some {
                1
            } else {
                0
            };
            &&& keys.len() == 5 + shift + if report.message is Some {
                1int
            } else {
                0
            }
            &&& keys[0] == encode_utf8("v"@)
            &&& values[0] == encode_utf8("1"@)
            &&& keys[1] == encode_utf8("state"@)
            &&& values[1] == state_bytes(report.state)
            &&& report.agent is Some ==> keys[2] == encode_utf8("agent"@) && values[2]
                == encode_utf8(report.agent->0)
            &&& keys[2 + shift] == encode_utf8("seq"@)
            &&& values[2 + shift] == decimal_bytes(report.seq as nat)
            &&& keys[3 + shift] == encode_utf8("visible"@)
            &&& values[3 + shift] == joined(flag_names(report.visible), 0x2c)
            &&& keys[4 + shift] == encode_utf8("exited"@)
            &&& values[4 + shift] == if report.exited {
                encode_utf8("1"@)
            } else {
                encode_utf8("0"@)
            }
            &&& report.message is Some ==> keys[5 + shift] == encode_utf8("message"@) && values[5
                + shift] == percent_encoded(encode_utf8(report.message->0))
        }),
{
    reveal(report_keys);
    reveal(report_values);
}

proof fn lemma_key_absent(report: ReportView, key: Seq<u8>)
    requires
        (key == encode_utf8("agent"@) && report.agent is None) || (key == encode_utf8("message"@)
            && report.message is None),
    ensures
        known(key),
        !report_keys(report).contains(key),
{
    reveal(report_keys);
    lemma_keys();
}

/// The assignments of a report make that report again.
proof fn lemma_fields_round_trip(report: ReportView)
    requires
        report.valid(),
    ensures
        report_of(report_fields(report).skip(1)) == Some(report),
{
    lemma_report_lookups(report);
    state_round_trip(report.state);
    seq_round_trip(report.seq);
    flags_round_trip(report.visible);
    assert(exited_of(
        if report.exited {
            encode_utf8("1"@)
        } else {
            encode_utf8("0"@)
        },
    ) == Some(report.exited)) by {
        lemma_words();
    }
    if let Some(agent) = report.agent {
        agent_round_trip(agent);
    }
    if let Some(message) = report.message {
        message_round_trip(message);
    }
}

proof fn lemma_escaped_plain(bytes: Seq<u8>)
    ensures
        plain(percent_encoded(bytes)),
        percent_encoded(bytes).len() <= 3 * bytes.len(),
    decreases bytes.len(),
{
    if bytes.len() > 0 {
        lemma_escaped_plain(bytes.skip(1));
        let tail = percent_encoded(bytes.skip(1));
        let whole = percent_encoded(bytes);
        assert(plain(escaped(bytes[0])));
        assert forall|index: int| 0 <= index < whole.len() implies 0x20 <= #[trigger] whole[index] <= 0x7e
            && whole[index] != 0x3b && whole[index] != 0x2c by {
            if index < escaped(bytes[0]).len() {
                assert(whole[index] == escaped(bytes[0])[index]);
            } else {
                assert(whole[index] == tail[index - escaped(bytes[0]).len()]);
            }
        }
    }
}

/// Ten to the power of `digits`.
spec fn power_of_ten(digits: nat) -> nat
    decreases digits,
{
    if digits == 0 {
        1
    } else {
        10 * power_of_ten((digits - 1) as nat)
    }
}

proof fn lemma_decimal_length(value: nat, digits: nat)
    requires
        digits > 0,
        value < power_of_ten(digits),
    ensures
        decimal(value).len() <= digits,
    decreases value,
{
    if value >= 10 {
        if digits == 1 {
            reveal_with_fuel(power_of_ten, 2);
        }
        lemma_decimal_length(value / 10, (digits - 1) as nat);
    }
}

proof fn lemma_seq_field(seq: u64)
    ensures
        decimal_bytes(seq as nat).len() <= 20,
        plain(decimal_bytes(seq as nat)),
{
    reveal_with_fuel(power_of_ten, 21);
    assert(power_of_ten(20) == 100_000_000_000_000_000_000);
    lemma_decimal_length(seq as nat, 20);
    decimal_round_trip(seq as nat);
}

proof fn lemma_flags_field(flags: Flags)
    ensures
        joined(flag_names(flags), 0x2c).len() <= 20,
        unbroken(joined(flag_names(flags), 0x2c)),
{
    let idle = encode_utf8("idle"@);
    let blocker = encode_utf8("blocker"@);
    let working = encode_utf8("working"@);
    let names = flag_names(flags);
    lemma_words();
    lemma_literals_plain();
    reveal_with_fuel(joined, 4);
    if flags.idle && flags.blocker && flags.working {
        assert(names =~= seq![idle, blocker, working]);
        assert(names.drop_last() =~= seq![idle, blocker]);
        assert(names.drop_last().drop_last() =~= seq![idle]);
    } else if flags.idle && flags.blocker {
        assert(names =~= seq![idle, blocker]);
        assert(names.drop_last() =~= seq![idle]);
    } else if flags.idle && flags.working {
        assert(names =~= seq![idle, working]);
        assert(names.drop_last() =~= seq![idle]);
    } else if flags.blocker && flags.working {
        assert(names =~= seq![blocker, working]);
        assert(names.drop_last() =~= seq![blocker]);
    }
}

proof fn lemma_agent_field(agent: Seq<char>)
    requires
        valid_agent(agent),
    ensures
        encode_utf8(agent).len() <= 64,
        plain(encode_utf8(agent)),
{
    assert forall|index: int| 0 <= index < agent.len() implies '\0' <= #[trigger] agent[index] <= '\u{7f}' by {
        assert(crate::osc::agent_char(agent[index]));
    }
    is_ascii_chars_encode_utf8(agent);
    assert forall|index: int| 0 <= index < encode_utf8(agent).len() implies #[trigger] encode_utf8(
        agent,
    )[index] >= 0x20 && encode_utf8(agent)[index] != 0x3b && encode_utf8(agent)[index] != 0x2c by {
        assert(crate::osc::agent_char(agent[index]));
        assert(agent[index] as u8 == encode_utf8(agent)[index]);
    }
}

/// The length of the joined parts.
proof fn lemma_joined_length(parts: Seq<Seq<u8>>, separator: u8, bound: nat)
    requires
        forall|index: int| 0 <= index < parts.len() ==> (#[trigger] parts[index]).len() <= bound,
    ensures
        joined(parts, separator).len() <= parts.len() * (bound + 1),
    decreases parts.len(),
{
    if parts.len() > 1 {
        lemma_joined_length(parts.drop_last(), separator, bound);
        assert(parts.last() == parts[parts.len() - 1]);
        assert(parts.len() * (bound + 1) == (parts.len() - 1) * (bound + 1) + (bound + 1))
            by (nonlinear_arith);
    } else if parts.len() == 1 {
        assert(parts[0].len() <= bound);
        assert(1 * (bound + 1) == bound + 1) by (nonlinear_arith);
    }
}

/// Every value of a report is free of semicolons, and short.
proof fn lemma_values_unbroken(report: ReportView)
    requires
        report.valid(),
    ensures
        forall|index: int|
            0 <= index < report_values(report).len() ==> unbroken(
                #[trigger] report_values(report)[index],
            ),
        report.message is Some ==> report_values(report).last().len() <= 384,
        forall|index: int|
            0 <= index < report_values(report).len() && (report.message is Some ==> index
                < report_values(report).len() - 1) ==> (
            #[trigger] report_values(report)[index]).len() <= 64,
{
    reveal(report_values);
    lemma_words();
    lemma_literals_plain();
    lemma_seq_field(report.seq);
    lemma_flags_field(report.visible);
    if let Some(agent) = report.agent {
        lemma_agent_field(agent);
    }
    if let Some(message) = report.message {
        lemma_escaped_plain(encode_utf8(message));
    }
}

/// The wire form of a report fits into the limit.
pub proof fn formatted_is_bounded(report: ReportView)
    requires
        report.valid(),
    ensures
        formatted(report).len() <= MAX_REPORT_BYTES,
{
    let fields = report_fields(report);
    lemma_keys();
    lemma_keys_distinct(report);
    lemma_literals_plain();
    lemma_values_unbroken(report);
    let short = if report.message is Some {
        fields.drop_last()
    } else {
        fields
    };
    assert forall|index: int| 0 <= index < short.len() implies (#[trigger] short[index]).len() <= 72 by {
        assert(short[index] == fields[index]);
        if index > 0 {
            assert(fields[index - 1 + 1] == field(
                report_keys(report)[index - 1],
                report_values(report)[index - 1],
            ));
            assert(known(report_keys(report)[index - 1]));
        }
    }
    lemma_joined_length(short, 0x3b, 72);
    assert(short.len() <= 7);
    assert(short.len() * 73 <= 511) by (nonlinear_arith)
        requires
            short.len() <= 7,
    ;
    if report.message is Some {
        let last = fields.len() - 1;
        assert(fields[last - 1 + 1] == field(
            report_keys(report)[last - 1],
            report_values(report)[last - 1],
        ));
        assert(known(report_keys(report)[last - 1]));
        assert(joined(fields, 0x3b).len() == joined(short, 0x3b).len() + 1 + fields.last().len());
    }
}

/// Parsing gives back every report that was formatted.
pub proof fn report_round_trip(report: ReportView)
    requires
        report.valid(),
    ensures
        parsed(formatted(report)) == Some(report),
{
    let fields = report_fields(report);
    let payload = joined(fields, 0x3b);
    let text = formatted(report);
    formatted_is_bounded(report);
    lemma_keys();
    lemma_keys_distinct(report);
    lemma_literals_plain();
    lemma_values_unbroken(report);
    assert forall|index: int| 0 <= index < fields.len() implies !(#[trigger] fields[index]).contains(
        0x3b,
    ) by {
        if index > 0 {
            let key = report_keys(report)[index - 1];
            let value = report_values(report)[index - 1];
            assert(fields[index - 1 + 1] == field(key, value));
            assert(known(key));
            assert(plain(key));
            assert(unbroken(value));
            assert(unbroken(field(key, value)));
        }
    }
    split_of_joined(fields, 0x3b);
    assert(text.subrange(2, text.len() - 2) =~= payload);
    assert(payload_of(text) == Some(payload));
    lemma_fields_round_trip(report);
}

proof fn lemma_joined_printable(parts: Seq<Seq<u8>>, separator: u8)
    requires
        0x20 <= separator <= 0x7e,
        forall|index: int| 0 <= index < parts.len() ==> printable(#[trigger] parts[index]),
    ensures
        printable(joined(parts, separator)),
    decreases parts.len(),
{
    if parts.len() > 1 {
        let before = joined(parts.drop_last(), separator);
        assert forall|index: int| 0 <= index < parts.drop_last().len() implies printable(
            #[trigger] parts.drop_last()[index],
        ) by {
            assert(printable(parts[index]));
        }
        lemma_joined_printable(parts.drop_last(), separator);
        assert(printable(parts[parts.len() - 1]));
        let whole = joined(parts, separator);
        assert forall|index: int| 0 <= index < whole.len() implies 0x20 <= #[trigger] whole[index] <= 0x7e by {
            if index < before.len() {
                assert(whole[index] == before[index]);
            } else if index > before.len() {
                assert(whole[index] == parts.last()[index - before.len() - 1]);
            }
        }
    } else if parts.len() == 1 {
        assert(printable(parts[0]));
    }
}

/// Between the opening and ST, a formatted report holds no control character: a terminal takes it
/// for one control string.
pub proof fn formatted_is_one_string(report: ReportView)
    requires
        report.valid(),
    ensures
        printable(joined(report_fields(report), 0x3b)),
        formatted(report) == seq![0x1bu8, 0x5du8] + joined(report_fields(report), 0x3b) + seq![
            0x1bu8,
            0x5cu8,
        ],
{
    let fields = report_fields(report);
    lemma_keys();
    lemma_keys_distinct(report);
    lemma_literals_plain();
    lemma_values_unbroken(report);
    assert forall|index: int| 0 <= index < fields.len() implies printable(
        #[trigger] fields[index],
    ) by {
        if index > 0 {
            let key = report_keys(report)[index - 1];
            let value = report_values(report)[index - 1];
            assert(fields[index - 1 + 1] == field(key, value));
            assert(known(key));
            assert(plain(key));
            assert(unbroken(value));
            assert(unbroken(field(key, value)));
        } else {
            assert(plain(fields[index]));
        }
    }
    lemma_joined_printable(fields, 0x3b);
}

/// The payload of a formatted report, as a terminal hands it on without its framing, parses to the
/// same report.
pub proof fn payload_round_trip(report: ReportView)
    requires
        report.valid(),
    ensures
        parsed(joined(report_fields(report), 0x3b)) == Some(report),
{
    let payload = joined(report_fields(report), 0x3b);
    let text = formatted(report);
    report_round_trip(report);
    formatted_is_bounded(report);
    formatted_is_one_string(report);
    assert(text.subrange(2, text.len() - 2) =~= payload);
    assert(payload_of(payload) == Some(payload));
}

/// A report leads a terminal from between sequences to between sequences.
pub proof fn reports_end_in_the_ground(report: ReportView)
    requires
        report.valid(),
    ensures
        followed(Sequence::Ground, formatted(report)) is Ground,
{
    formatted_is_one_string(report);
    let payload = joined(report_fields(report), 0x3b);
    assert(plain_payload(payload)) by {
        assert forall|index: int| 0 <= index < payload.len() implies !ends_text(
            #[trigger] payload[index],
            true,
            false,
        ) && payload[index] != 0x1b by {}
    }
    control_strings_end_in_the_ground(0x5d, payload);
}

/// A report in another version is rejected.
pub proof fn other_versions_are_rejected(input: Seq<u8>, payload: Seq<u8>, index: int)
    requires
        payload_of(input) == Some(payload),
        1 <= index < split(payload, 0x3b).len(),
        assigns(split(payload, 0x3b)[index], encode_utf8("v"@)),
        assigned(split(payload, 0x3b)[index], encode_utf8("v"@)) != encode_utf8("1"@),
    ensures
        parsed(input) is None,
{
    let fields = split(payload, 0x3b).skip(1);
    assert(fields[index - 1] == split(payload, 0x3b)[index]);
    if unambiguous(fields) {
        lemma_lookup_unique(fields, encode_utf8("v"@), index - 1);
    }
}

/// The bytes are a field that gives a value to a key that is not known: they hold no semicolon, no
/// BEL and no ESC, and the key holds no sign.
pub open spec fn extension(key: Seq<u8>, value: Seq<u8>) -> bool {
    let text = field(key, value);
    &&& !known(key)
    &&& !key.contains(0x3d)
    &&& !text.contains(0x3b)
    &&& !text.contains(0x07)
    &&& !text.contains(0x1b)
}

proof fn lemma_extension_assigns(key: Seq<u8>, value: Seq<u8>, other: Seq<u8>)
    requires
        extension(key, value),
        known(other),
    ensures
        !assigns(field(key, value), other),
        field(key, value).contains(0x3d),
{
    let text = field(key, value);
    lemma_keys();
    assert(text[key.len() as int] == 0x3d);
    if assigns(text, other) {
        let opening = other.push(0x3d);
        assert(opening =~= text.subrange(0, opening.len() as int));
        if other.len() < key.len() {
            assert(text[other.len() as int] == opening[other.len() as int]);
            assert(key[other.len() as int] == 0x3d);
        } else if key.len() < other.len() {
            assert(text[key.len() as int] == opening[key.len() as int]);
            assert(other[key.len() as int] == 0x3d);
        } else {
            assert forall|index: int| 0 <= index < key.len() implies key[index] == other[index] by {
                assert(text[index] == opening[index]);
            }
            assert(key =~= other);
        }
    }
}

proof fn lemma_extension_fields(fields: Seq<Seq<u8>>, key: Seq<u8>, value: Seq<u8>)
    requires
        extension(key, value),
    ensures
        report_of(fields.push(field(key, value))) == report_of(fields),
{
    let text = field(key, value);
    let longer = fields.push(text);
    assert forall|other: Seq<u8>| #[trigger] known(other) implies lookup(longer, other) == lookup(
        fields,
        other,
    ) && at_most_once(longer, other) == at_most_once(fields, other) by {
        lemma_extension_assigns(key, value, other);
        lemma_lookup_push(fields, text, other);
    }
    assert(known(encode_utf8("v"@)));
    assert(known(encode_utf8("state"@)));
    assert(known(encode_utf8("agent"@)));
    assert(known(encode_utf8("seq"@)));
    assert(known(encode_utf8("visible"@)));
    assert(known(encode_utf8("exited"@)));
    assert(known(encode_utf8("message"@)));
    lemma_extension_assigns(key, value, encode_utf8("v"@));
    assert(unambiguous(longer) == unambiguous(fields)) by {
        if unambiguous(fields) {
            assert forall|index: int| 0 <= index < longer.len() implies (
            #[trigger] longer[index]).contains(0x3d) by {
                if index < fields.len() {
                    assert(fields[index].contains(0x3d));
                }
            }
        }
        if unambiguous(longer) {
            assert forall|index: int| 0 <= index < fields.len() implies (
            #[trigger] fields[index]).contains(0x3d) by {
                assert(longer[index].contains(0x3d));
            }
        }
    }
}

/// A field that is not known changes neither what a payload reports nor whether it is accepted.
pub proof fn extensions_are_ignored(payload: Seq<u8>, key: Seq<u8>, value: Seq<u8>)
    requires
        encode_utf8("7877"@).is_prefix_of(payload),
        extension(key, value),
        payload.len() + field(key, value).len() < MAX_REPORT_BYTES,
    ensures
        parsed(payload.push(0x3b) + field(key, value)) == parsed(payload),
{
    let text = field(key, value);
    let longer = payload.push(0x3b) + text;
    let length = payload.len() as int;
    lemma_literals_plain();
    assert(plain(encode_utf8("7877"@)));
    assert(payload[0] == encode_utf8("7877"@)[0]);
    assert(longer[0] == payload[0]);
    assert(longer.contains(0x07) == payload.contains(0x07)) by {
        if payload.contains(0x07) {
            let at = choose|at: int| 0 <= at < length && payload[at] == 0x07;
            assert(longer[at] == 0x07);
        }
        if longer.contains(0x07) {
            let at = choose|at: int| 0 <= at < longer.len() && longer[at] == 0x07;
            if at > length {
                assert(text[at - length - 1] == 0x07);
            }
            assert(payload[at] == 0x07);
        }
    }
    assert(holds_terminator(longer) == holds_terminator(payload)) by {
        if holds_terminator(payload) {
            let at = choose|at: int|
                0 <= at < length - 1 && #[trigger] payload[at] == 0x1b && payload[at + 1] == 0x5c;
            assert(longer[at] == 0x1b && longer[at + 1] == 0x5c);
        }
        if holds_terminator(longer) {
            let at = choose|at: int|
                0 <= at < longer.len() - 1 && #[trigger] longer[at] == 0x1b && longer[at + 1]
                    == 0x5c;
            if at > length {
                assert(text[at - length - 1] == 0x1b);
            }
            assert(longer[length] == 0x3b);
            assert(payload[at] == 0x1b && payload[at + 1] == 0x5c);
        }
    }
    lemma_split_after_separator(payload, 0x3b, text);
    lemma_split_nonempty(payload, 0x3bu8);
    let fields = split(payload, 0x3b);
    assert(split(longer, 0x3b) == fields.push(text));
    assert(fields.push(text).skip(1) =~= fields.skip(1).push(text));
    lemma_extension_fields(fields.skip(1), key, value);
}

/// Whatever is read is a report that can exist.
pub proof fn parsed_reports_are_valid(input: Seq<u8>)
    ensures
        parsed(input) matches Some(report) ==> report.valid(),
{
}

/// A report on the wire starts with `ESC ]` and the code.
pub proof fn reports_start_with_the_code(report: ReportView)
    ensures
        formatted(report).len() > 7,
        formatted(report).take(7) == seq![0x1bu8, 0x5d, 0x37, 0x38, 0x37, 0x37, 0x3b],
{
    let fields = report_fields(report);
    reveal_strlit("7877");
    is_ascii_chars_encode_utf8("7877"@);
    assert(fields[0] == encode_utf8("7877"@));
    assert(fields.len() > 1);
    lemma_joined_starts(fields, 0x3b);
    let text = formatted(report);
    let payload = joined(fields, 0x3b);
    assert forall|index: int| 0 <= index < 5 implies text[index + 2] == #[trigger] payload[index] by {}
    assert(payload[0] == fields[0].push(0x3b)[0]);
    assert(payload[1] == fields[0].push(0x3b)[1]);
    assert(payload[2] == fields[0].push(0x3b)[2]);
    assert(payload[3] == fields[0].push(0x3b)[3]);
    assert(payload[4] == fields[0].push(0x3b)[4]);
    assert(text.take(7) =~= seq![0x1bu8, 0x5d, 0x37, 0x38, 0x37, 0x37, 0x3b]);
}

proof fn lemma_joined_starts(parts: Seq<Seq<u8>>, separator: u8)
    requires
        parts.len() > 1,
    ensures
        parts[0].push(separator).is_prefix_of(joined(parts, separator)),
    decreases parts.len(),
{
    let before = parts.drop_last();
    let text = joined(parts, separator);
    if parts.len() == 2 {
        assert(joined(before, separator) == parts[0]);
    } else {
        lemma_joined_starts(before, separator);
    }
    assert(parts[0].push(separator) =~= text.subrange(0, parts[0].len() as int + 1));
}

} // verus!
