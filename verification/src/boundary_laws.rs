//! Which bytes lead into a sequence, and which lead out of it.
use crate::boundary::{
    advanced, ends_text, followed, giving_up, lemma_payload_stays, opened, passed_on, plain_payload,
    short_strings_are_passed_on, stretches_compose, Sequence,
};
use vstd::prelude::*;

verus! {

/// The byte starts a sequence: the escape character, or one of the eight-bit introducers.
pub open spec fn starts_sequence(byte: u8) -> bool {
    ||| byte == 0x1b
    ||| byte == 0x90
    ||| byte == 0x98
    ||| byte == 0x9b
    ||| byte == 0x9d
    ||| byte == 0x9e
    ||| byte == 0x9f
}

/// Between sequences a byte leads into one exactly where it starts one; other text stays outside.
pub proof fn text_stays_outside(bytes: Seq<u8>)
    ensures
        (forall|index: int| 0 <= index < bytes.len() ==> !starts_sequence(#[trigger] bytes[index]))
            ==> followed(Sequence::Ground, bytes) is Ground,
        forall|byte: u8|
            #[trigger] starts_sequence(byte) ==> !(followed(Sequence::Ground, seq![byte]) is Ground),
    decreases bytes.len(),
{
    assert forall|byte: u8| #[trigger] starts_sequence(byte) implies !(followed(
        Sequence::Ground,
        seq![byte],
    ) is Ground) by {
        let one = seq![byte];
        assert(one.drop_last() =~= Seq::empty());
        assert(followed(Sequence::Ground, one) == advanced(
            followed(Sequence::Ground, one.drop_last()),
            byte,
        ));
    }
    if bytes.len() > 0 && forall|index: int|
        0 <= index < bytes.len() ==> !starts_sequence(#[trigger] bytes[index]) {
        let before = bytes.drop_last();
        assert forall|index: int| 0 <= index < before.len() implies !starts_sequence(
            #[trigger] before[index],
        ) by {
            assert(before[index] == bytes[index]);
        }
        text_stays_outside(before);
        assert(!starts_sequence(bytes[bytes.len() - 1]));
    }
}

/// A cancel or a substitute leads out of every sequence.
pub proof fn cancels_lead_out(state: Sequence, bytes: Seq<u8>, byte: u8)
    requires
        byte == 0x18 || byte == 0x1a,
    ensures
        followed(state, bytes.push(byte)) is Ground,
{
    assert(bytes.push(byte).drop_last() =~= bytes);
}

/// Every byte is a parameter or an intermediate of a control sequence.
pub open spec fn parameters(bytes: Seq<u8>) -> bool {
    forall|index: int| 0 <= index < bytes.len() ==> 0x20 <= #[trigger] bytes[index] <= 0x3f
}

proof fn lemma_parameters_stay(bytes: Seq<u8>)
    requires
        parameters(bytes),
    ensures
        followed(Sequence::Csi, bytes) is Csi,
    decreases bytes.len(),
{
    if bytes.len() > 0 {
        let before = bytes.drop_last();
        assert forall|index: int| 0 <= index < before.len() implies 0x20
            <= #[trigger] before[index] <= 0x3f by {
            assert(before[index] == bytes[index]);
        }
        lemma_parameters_stay(before);
        assert(bytes[bytes.len() - 1] == bytes.last());
    }
}

/// A control sequence, `ESC [` or its eight-bit form, its parameters and a final byte, is one whole:
/// it ends with the final byte and not before.
pub proof fn control_sequences_are_whole(wide: bool, middle: Seq<u8>, last: u8)
    requires
        parameters(middle),
        0x40 <= last <= 0x7e,
    ensures
        ({
            let start = if wide {
                seq![0x9bu8]
            } else {
                seq![0x1bu8, 0x5b]
            };
            &&& !(followed(Sequence::Ground, start + middle) is Ground)
            &&& followed(Sequence::Ground, (start + middle).push(last)) is Ground
        }),
{
    let start = if wide {
        seq![0x9bu8]
    } else {
        seq![0x1bu8, 0x5b]
    };
    let none = Seq::<u8>::empty();
    if wide {
        assert(start.drop_last() =~= none);
        assert(followed(Sequence::Ground, start) == advanced(followed(Sequence::Ground, none), 0x9b));
    } else {
        let first = start.drop_last();
        assert(first =~= seq![0x1bu8]);
        assert(first.drop_last() =~= none);
        assert(followed(Sequence::Ground, first) == advanced(followed(Sequence::Ground, none), 0x1b));
        assert(followed(Sequence::Ground, start) == advanced(
            followed(Sequence::Ground, first),
            0x5b,
        ));
    }
    assert(followed(Sequence::Ground, start) is Csi);
    stretches_compose(Sequence::Ground, start, middle);
    lemma_parameters_stay(middle);
    assert((start + middle).push(last).drop_last() =~= start + middle);
}

proof fn lemma_intermediates_stay(bytes: Seq<u8>)
    requires
        forall|index: int| 0 <= index < bytes.len() ==> 0x20 <= #[trigger] bytes[index] <= 0x2f,
    ensures
        followed(Sequence::Escape, bytes) is Escape,
    decreases bytes.len(),
{
    if bytes.len() > 0 {
        let before = bytes.drop_last();
        assert forall|index: int| 0 <= index < before.len() implies 0x20
            <= #[trigger] before[index] <= 0x2f by {
            assert(before[index] == bytes[index]);
        }
        lemma_intermediates_stay(before);
        assert(bytes[bytes.len() - 1] == bytes.last());
    }
}

/// An escape sequence, `ESC`, its intermediates and a final byte that opens nothing, is one whole.
pub proof fn escape_sequences_are_whole(middle: Seq<u8>, last: u8)
    requires
        forall|index: int| 0 <= index < middle.len() ==> 0x20 <= #[trigger] middle[index] <= 0x2f,
        0x30 <= last <= 0x7e,
        last != 0x5b && last != 0x5d && last != 0x50 && last != 0x58 && last != 0x5e && last
            != 0x5f,
    ensures
        !(followed(Sequence::Ground, seq![0x1bu8] + middle) is Ground),
        followed(Sequence::Ground, (seq![0x1bu8] + middle).push(last)) is Ground,
{
    let start = seq![0x1bu8];
    assert(start.drop_last() =~= Seq::empty());
    assert(followed(Sequence::Ground, start) == advanced(
        followed(Sequence::Ground, start.drop_last()),
        0x1b,
    ));
    stretches_compose(Sequence::Ground, start, middle);
    lemma_intermediates_stay(middle);
    assert((start + middle).push(last).drop_last() =~= start + middle);
}

/// Every byte is printable ASCII.
pub open spec fn printable_bytes(bytes: Seq<u8>) -> bool {
    forall|index: int| 0 <= index < bytes.len() ==> 0x20 <= #[trigger] bytes[index] <= 0x7e
}

/// A bell ends an operating system command and no other control string; the eight-bit terminator
/// ends them all. Before its end the stream is inside the string.
pub proof fn bells_end_commands_alone(introducer: u8, payload: Seq<u8>)
    requires
        introducer == 0x5d || introducer == 0x50 || introducer == 0x58 || introducer == 0x5e
            || introducer == 0x5f,
        printable_bytes(payload),
    ensures
        ({
            let inside = seq![0x1bu8, introducer] + payload;
            &&& !(followed(Sequence::Ground, inside) is Ground)
            &&& followed(Sequence::Ground, inside.push(0x07)) is Ground <==> introducer == 0x5d
            &&& followed(Sequence::Ground, inside.push(0x9c)) is Ground
            &&& !(followed(Sequence::Ground, inside.push(0x1b)) is Ground)
        }),
{
    let start = seq![0x1bu8, introducer];
    let first = start.drop_last();
    assert(first =~= seq![0x1bu8]);
    assert(first.drop_last() =~= Seq::empty());
    assert(followed(Sequence::Ground, first) == advanced(
        followed(Sequence::Ground, first.drop_last()),
        0x1b,
    ));
    assert(followed(Sequence::Ground, start) == opened(introducer == 0x5d));
    lemma_printable(payload);
    lemma_payload_stays(introducer == 0x5d, payload);
    stretches_compose(Sequence::Ground, start, payload);
    let inside = start + payload;
    assert(inside.push(0x07).drop_last() =~= inside);
    assert(inside.push(0x9c).drop_last() =~= inside);
    assert(inside.push(0x1b).drop_last() =~= inside);
}

proof fn lemma_printable(payload: Seq<u8>)
    requires
        printable_bytes(payload),
    ensures
        plain_payload(payload),
{
    assert forall|index: int| 0 <= index < payload.len() implies !ends_text(
        #[trigger] payload[index],
        true,
        false,
    ) && payload[index] != 0x1b by {
        assert(0x20 <= payload[index] <= 0x7e);
    }
}

/// Up to 65536 bytes of a control string are passed on to the parser as they are; of a longer one
/// the first 65536 and a cancel are.
pub proof fn long_strings_are_cut(osc: bool, payload: Seq<u8>)
    requires
        printable_bytes(payload),
    ensures
        payload.len() <= 65536 ==> passed_on(opened(osc), payload) == payload,
        payload.len() > 65536 ==> passed_on(opened(osc), payload) == payload.take(65536).push(0x18),
        giving_up(followed(opened(osc), payload)) <==> payload.len() > 65536,
{
    lemma_printable(payload);
    lemma_payload_stays(osc, payload);
    if payload.len() <= 65536 {
        assert forall|count: int| 0 <= count <= payload.len() implies !giving_up(
            #[trigger] followed(opened(osc), payload.take(count)),
        ) by {
            let part = payload.take(count);
            assert forall|index: int| 0 <= index < part.len() implies 0x20
                <= #[trigger] part[index] <= 0x7e by {
                assert(part[index] == payload[index]);
            }
            lemma_printable(part);
            lemma_payload_stays(osc, part);
        }
        short_strings_are_passed_on(opened(osc), payload);
    } else {
        crate::boundary::overlong_strings_are_cut(osc, payload);
    }
}

/// What the parser is given of two stretches is what it is given of the one and then of the other.
pub proof fn stretches_are_passed_on_in_turn(state: Sequence, first: Seq<u8>, second: Seq<u8>)
    ensures
        passed_on(state, first + second) == passed_on(state, first) + passed_on(
            followed(state, first),
            second,
        ),
    decreases second.len(),
{
    if second.len() == 0 {
        assert(first + second =~= first);
        assert(passed_on(state, first) + passed_on(followed(state, first), second) =~= passed_on(
            state,
            first,
        ));
    } else {
        let before = second.drop_last();
        assert((first + second).drop_last() =~= first + before);
        stretches_are_passed_on_in_turn(state, first, before);
        stretches_compose(state, first, before);
        assert(passed_on(state, first + second) =~= passed_on(state, first) + passed_on(
            followed(state, first),
            second,
        ));
    }
}

/// An escape character begins a new sequence inside a control sequence; inside a control string it
/// does not end the string unless a backslash follows it.
pub proof fn escapes_inside_sequences(osc: bool, payload: Seq<u8>, byte: u8)
    requires
        printable_bytes(payload),
        0x20 <= byte <= 0x7e,
        byte != 0x5c,
    ensures
        followed(Sequence::Csi, seq![0x1b]) is Escape,
        !(followed(opened(osc), payload.push(0x1b).push(byte)) is Ground),
        followed(opened(osc), payload.push(0x1b).push(0x5c)) is Ground,
        !(followed(opened(osc), payload.push(byte).push(0x5c)) is Ground),
{
    let one = seq![0x1bu8];
    assert(one.drop_last() =~= Seq::empty());
    assert(followed(Sequence::Csi, one) == advanced(followed(Sequence::Csi, one.drop_last()), 0x1b));
    lemma_printable(payload);
    lemma_payload_stays(osc, payload);
    let escaped = payload.push(0x1b);
    assert(escaped.drop_last() =~= payload);
    assert(escaped.push(byte).drop_last() =~= escaped);
    assert(escaped.push(0x5c).drop_last() =~= escaped);
    let inside = followed(opened(osc), escaped);
    assert(inside == advanced(followed(opened(osc), payload), 0x1b));
    assert(followed(opened(osc), escaped.push(byte)) == advanced(inside, byte));
    assert(followed(opened(osc), escaped.push(0x5c)) == advanced(inside, 0x5c));
    let plain = payload.push(byte);
    assert(plain.drop_last() =~= payload);
    assert(plain.push(0x5c).drop_last() =~= plain);
    assert(followed(opened(osc), plain) == advanced(followed(opened(osc), payload), byte));
}

} // verus!
