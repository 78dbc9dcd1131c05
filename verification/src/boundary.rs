//! The boundaries between control sequences in a stream of bytes.
use vstd::prelude::*;

verus! {

/// The most bytes of one control string that the terminal parser is given. The stream itself is
/// never shortened; only what is observed of it is.
pub const MAX_CONTROL_STRING_BYTES: usize = 65536;

/// Where in a control sequence a stream is.
#[derive(Clone, Copy, Debug, PartialEq, Eq, Structural)]
pub enum Sequence {
    /// Between sequences.
    Ground,
    /// Behind an escape character.
    Escape,
    /// In a control sequence proper.
    Csi,
    /// In a control string: an operating system command or one of its kin, behind an escape
    /// character or not, after so many bytes, given up or not.
    Text { osc: bool, escape: bool, bytes: usize, discarded: bool },
}

/// The start of a control string.
pub open spec fn opened(osc: bool) -> Sequence {
    Sequence::Text { osc, escape: false, bytes: 0, discarded: false }
}

/// The byte cancels any sequence.
pub open spec fn cancels(byte: u8) -> bool {
    byte == 0x18 || byte == 0x1a
}

/// The byte ends a control string.
pub open spec fn ends_text(byte: u8, osc: bool, escape: bool) -> bool {
    ||| cancels(byte)
    ||| byte == 0x9c
    ||| osc && byte == 0x07
    ||| escape && byte == 0x5c
}

/// Where the stream is after one more byte.
pub open spec fn advanced(state: Sequence, byte: u8) -> Sequence {
    match state {
        Sequence::Ground => if byte == 0x1b {
            Sequence::Escape
        } else if byte == 0x9b {
            Sequence::Csi
        } else if byte == 0x90 || byte == 0x98 || byte == 0x9d || byte == 0x9e || byte == 0x9f {
            opened(byte == 0x9d)
        } else {
            Sequence::Ground
        },
        Sequence::Escape => if byte == 0x5b {
            Sequence::Csi
        } else if byte == 0x5d || byte == 0x50 || byte == 0x58 || byte == 0x5e || byte == 0x5f {
            opened(byte == 0x5d)
        } else if 0x20 <= byte <= 0x2f {
            Sequence::Escape
        } else {
            Sequence::Ground
        },
        Sequence::Csi => if cancels(byte) || 0x40 <= byte <= 0x7e {
            Sequence::Ground
        } else if byte == 0x1b {
            Sequence::Escape
        } else {
            Sequence::Csi
        },
        Sequence::Text { osc, escape, bytes, discarded } => if ends_text(byte, osc, escape) {
            Sequence::Ground
        } else {
            Sequence::Text {
                osc,
                escape: byte == 0x1b,
                bytes: if bytes == usize::MAX {
                    bytes
                } else {
                    (bytes + 1) as usize
                },
                discarded: discarded || bytes >= MAX_CONTROL_STRING_BYTES,
            }
        },
    }
}

/// Where the stream is after more bytes.
pub open spec fn followed(state: Sequence, bytes: Seq<u8>) -> Sequence
    decreases bytes.len(),
{
    if bytes.len() == 0 {
        state
    } else {
        advanced(followed(state, bytes.drop_last()), bytes.last())
    }
}

/// The stream is in a control string that was given up.
pub open spec fn giving_up(state: Sequence) -> bool {
    state matches Sequence::Text { discarded, .. } && discarded
}

/// A control string is given up somewhere in a stretch of the stream.
pub open spec fn gives_up(state: Sequence, bytes: Seq<u8>) -> bool
    decreases bytes.len(),
{
    if bytes.len() == 0 {
        false
    } else {
        let before = bytes.drop_last();
        gives_up(state, before) || (!giving_up(followed(state, before)) && giving_up(
            followed(state, bytes),
        ))
    }
}

/// What the terminal parser is given for a byte. The first byte beyond the limit of a control
/// string is replaced by a cancel, and the rest of the string, its end included, is kept back.
pub open spec fn passed(state: Sequence, byte: u8) -> Option<u8> {
    if giving_up(state) {
        None
    } else if giving_up(advanced(state, byte)) {
        Some(0x18)
    } else {
        Some(byte)
    }
}

/// What the terminal parser is given for a stretch of the stream.
pub open spec fn passed_on(state: Sequence, bytes: Seq<u8>) -> Seq<u8>
    decreases bytes.len(),
{
    if bytes.len() == 0 {
        Seq::empty()
    } else {
        let before = passed_on(state, bytes.drop_last());
        match passed(followed(state, bytes.drop_last()), bytes.last()) {
            Some(byte) => before.push(byte),
            None => before,
        }
    }
}

/// Follows a stream through its control sequences, in constant space.
#[derive(Clone, Copy, Debug)]
pub struct BoundaryTracker {
    state: Sequence,
}

impl View for BoundaryTracker {
    type V = Sequence;

    closed spec fn view(&self) -> Sequence {
        self.state
    }
}

impl Default for BoundaryTracker {
    fn default() -> (tracker: Self)
        ensures
            tracker@ == Sequence::Ground,
    {
        BoundaryTracker { state: Sequence::Ground }
    }
}

impl BoundaryTracker {
    /// Follows a stretch of the stream.
    pub fn feed(&mut self, bytes: &[u8])
        ensures
            final(self)@ == followed(old(self)@, bytes@),
    {
        let ghost start = self@;
        for index in 0..bytes.len()
            invariant
                self@ == followed(start, bytes@.take(index as int)),
        {
            assert(bytes@.take(index + 1).drop_last() =~= bytes@.take(index as int));
            self.byte(bytes[index]);
        }
        assert(bytes@.take(bytes@.len() as int) =~= bytes@);
    }

    /// Follows one byte.
    pub fn byte(&mut self, byte: u8)
        ensures
            final(self)@ == advanced(old(self)@, byte),
    {
        self.state = match self.state {
            Sequence::Ground => match byte {
                0x1b => Sequence::Escape,
                0x9b => Sequence::Csi,
                0x90 | 0x98 | 0x9d | 0x9e | 0x9f => Sequence::Text {
                    osc: byte == 0x9d,
                    escape: false,
                    bytes: 0,
                    discarded: false,
                },
                _ => Sequence::Ground,
            },
            Sequence::Escape => match byte {
                0x5b => Sequence::Csi,
                0x5d | 0x50 | 0x58 | 0x5e | 0x5f => Sequence::Text {
                    osc: byte == 0x5d,
                    escape: false,
                    bytes: 0,
                    discarded: false,
                },
                0x20..=0x2f => Sequence::Escape,
                _ => Sequence::Ground,
            },
            Sequence::Csi => match byte {
                0x18 | 0x1a => Sequence::Ground,
                0x1b => Sequence::Escape,
                0x40..=0x7e => Sequence::Ground,
                _ => Sequence::Csi,
            },
            Sequence::Text { osc, escape, bytes, discarded } => {
                if byte == 0x18 || byte == 0x1a || byte == 0x9c || (osc && byte == 0x07) || (escape
                    && byte == 0x5c) {
                    Sequence::Ground
                } else {
                    Sequence::Text {
                        osc,
                        escape: byte == 0x1b,
                        bytes: if bytes == usize::MAX {
                            bytes
                        } else {
                            bytes + 1
                        },
                        discarded: discarded || bytes >= MAX_CONTROL_STRING_BYTES,
                    }
                }
            },
        };
    }

    /// Whether the stream is in a control string that was given up.
    pub fn discarding(&self) -> (discarding: bool)
        ensures
            discarding == giving_up(self@),
    {
        match self.state {
            Sequence::Text { discarded, .. } => discarded,
            _ => false,
        }
    }

    /// Follows one byte and gives what the terminal parser may consume for it.
    pub fn parser_byte(&mut self, byte: u8) -> (consumed: Option<u8>)
        ensures
            final(self)@ == advanced(old(self)@, byte),
            consumed == passed(old(self)@, byte),
    {
        let was_discarding = self.discarding();
        self.byte(byte);
        if was_discarding {
            return None;
        }
        if self.discarding() {
            Some(0x18)
        } else {
            Some(byte)
        }
    }

    /// Whether the stream is between sequences.
    pub fn ground(&self) -> (ground: bool)
        ensures
            ground == (self@ is Ground),
    {
        match self.state {
            Sequence::Ground => true,
            _ => false,
        }
    }
}

/// It makes no difference how a stream is cut into stretches.
pub proof fn stretches_compose(state: Sequence, first: Seq<u8>, second: Seq<u8>)
    ensures
        followed(state, first + second) == followed(followed(state, first), second),
        passed_on(state, first + second) == passed_on(state, first) + passed_on(
            followed(state, first),
            second,
        ),
    decreases second.len(),
{
    if second.len() == 0 {
        assert(first + second =~= first);
    } else {
        let before = second.drop_last();
        stretches_compose(state, first, before);
        assert((first + second).drop_last() =~= first + before);
        assert((first + second).last() == second.last());
        assert(passed_on(state, first + second) =~= passed_on(state, first) + passed_on(
            followed(state, first),
            second,
        ));
    }
}

/// A payload that neither ends a control string nor holds an escape character.
pub open spec fn plain_payload(payload: Seq<u8>) -> bool {
    forall|index: int|
        0 <= index < payload.len() ==> !ends_text(#[trigger] payload[index], true, false)
            && payload[index] != 0x1b
}

pub(crate) proof fn lemma_payload_stays(osc: bool, payload: Seq<u8>)
    requires
        plain_payload(payload),
    ensures
        followed(opened(osc), payload) matches Sequence::Text {
            osc: same,
            escape,
            bytes,
            discarded,
        } && same == osc && !escape && (payload.len() <= usize::MAX ==> bytes == payload.len())
            && discarded == (payload.len() > MAX_CONTROL_STRING_BYTES) && bytes <= payload.len()
            && (payload.len() > usize::MAX ==> bytes == usize::MAX),
    decreases payload.len(),
{
    if payload.len() > 0 {
        let before = payload.drop_last();
        assert forall|index: int| 0 <= index < before.len() implies !ends_text(
            #[trigger] before[index],
            true,
            false,
        ) && before[index] != 0x1b by {
            assert(before[index] == payload[index]);
        }
        lemma_payload_stays(osc, before);
        assert(payload.last() == payload[payload.len() - 1]);
        assert(!ends_text(payload.last(), true, false));
    }
}

/// A complete control string leads back to the ground, whatever its length: `ESC`, one of
/// `] P X ^ _`, a plain payload, `ESC \`.
pub proof fn control_strings_end_in_the_ground(introducer: u8, payload: Seq<u8>)
    requires
        introducer == 0x5d || introducer == 0x50 || introducer == 0x58 || introducer == 0x5e
            || introducer == 0x5f,
        plain_payload(payload),
    ensures
        followed(
            Sequence::Ground,
            seq![0x1bu8, introducer] + payload + seq![0x1bu8, 0x5cu8],
        ) is Ground,
{
    let opening = seq![0x1bu8, introducer];
    let closing = seq![0x1bu8, 0x5cu8];
    assert(opening.drop_last() =~= seq![0x1bu8]);
    assert(seq![0x1bu8].drop_last() =~= Seq::empty());
    assert(followed(Sequence::Ground, seq![0x1bu8]) == advanced(
        followed(Sequence::Ground, Seq::empty()),
        0x1b,
    ));
    assert(followed(Sequence::Ground, opening) == opened(introducer == 0x5d));
    lemma_payload_stays(introducer == 0x5d, payload);
    stretches_compose(Sequence::Ground, opening, payload);
    stretches_compose(Sequence::Ground, opening + payload, closing);
    let inside = followed(opened(introducer == 0x5d), payload);
    assert(closing.drop_last() =~= seq![0x1bu8]);
    assert(followed(inside, seq![0x1bu8]) == advanced(followed(inside, Seq::empty()), 0x1b));
    assert(followed(inside, closing) is Ground);
}

/// As long as no control string exceeds the limit, the parser is given the stream as it is.
pub proof fn short_strings_are_passed_on(state: Sequence, bytes: Seq<u8>)
    requires
        forall|count: int|
            0 <= count <= bytes.len() ==> !giving_up(#[trigger] followed(state, bytes.take(count))),
    ensures
        passed_on(state, bytes) == bytes,
    decreases bytes.len(),
{
    if bytes.len() > 0 {
        let before = bytes.drop_last();
        assert forall|count: int| 0 <= count <= before.len() implies !giving_up(
            #[trigger] followed(state, before.take(count)),
        ) by {
            assert(before.take(count) =~= bytes.take(count));
        }
        short_strings_are_passed_on(state, before);
        assert(bytes.take(bytes.len() as int) =~= bytes);
        assert(bytes.take(bytes.len() - 1) =~= before);
        assert(!giving_up(followed(state, bytes.take(bytes.len() as int))));
        assert(!giving_up(followed(state, bytes.take(bytes.len() - 1))));
        assert(bytes =~= before.push(bytes.last()));
    } else {
        assert(passed_on(state, bytes) =~= bytes);
    }
}

/// Of an overlong control string the parser is given as many bytes as the limit allows and a
/// cancel, and nothing more.
pub proof fn overlong_strings_are_cut(osc: bool, payload: Seq<u8>)
    requires
        plain_payload(payload),
        payload.len() > MAX_CONTROL_STRING_BYTES,
    ensures
        passed_on(opened(osc), payload) == payload.take(MAX_CONTROL_STRING_BYTES as int).push(0x18),
    decreases payload.len(),
{
    let before = payload.drop_last();
    assert forall|index: int| 0 <= index < before.len() implies !ends_text(
        #[trigger] before[index],
        true,
        false,
    ) && before[index] != 0x1b by {
        assert(before[index] == payload[index]);
    }
    lemma_payload_stays(osc, before);
    lemma_payload_stays(osc, payload);
    if before.len() > MAX_CONTROL_STRING_BYTES {
        overlong_strings_are_cut(osc, before);
        assert(before.take(MAX_CONTROL_STRING_BYTES as int) =~= payload.take(
            MAX_CONTROL_STRING_BYTES as int,
        ));
    } else {
        assert forall|count: int| 0 <= count <= before.len() implies !giving_up(
            #[trigger] followed(opened(osc), before.take(count)),
        ) by {
            let part = before.take(count);
            assert forall|index: int| 0 <= index < part.len() implies !ends_text(
                #[trigger] part[index],
                true,
                false,
            ) && part[index] != 0x1b by {
                assert(part[index] == payload[index]);
            }
            lemma_payload_stays(osc, part);
        }
        short_strings_are_passed_on(opened(osc), before);
        assert(before =~= payload.take(MAX_CONTROL_STRING_BYTES as int));
    }
}

} // verus!
