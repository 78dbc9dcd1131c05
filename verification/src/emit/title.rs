//! The window title: the child's own, with the state in front of it or in its place.
use crate::osc::State;
use vstd::prelude::*;
use vstd::utf8::encode_utf8;

verus! {

/// How the title is changed.
#[derive(Clone, Copy, Debug, PartialEq, Eq, Structural)]
pub enum Mode {
    Never,
    Prefix,
    Replace,
}

/// The sign of a state. The absence of an agent has none.
pub open spec fn state_glyph(state: State) -> Seq<char> {
    match state {
        State::Working => "●"@,
        State::Blocked => "◐"@,
        State::Idle => "○"@,
        State::NoAgent => ""@,
    }
}

/// A label behind the sign of a state, if there is one.
pub open spec fn labelled(state: State, label: Seq<char>) -> Seq<char> {
    if state is NoAgent {
        label
    } else {
        state_glyph(state) + " "@ + label
    }
}

/// The title that a mode shows, where it shows one.
pub open spec fn shown_title(
    mode: Mode,
    original: Seq<char>,
    state: State,
    agent: Option<Seq<char>>,
) -> Option<Seq<char>> {
    match mode {
        Mode::Never => None,
        Mode::Prefix => Some(labelled(state, original)),
        Mode::Replace => Some(
            labelled(
                state,
                match agent {
                    Some(name) => name,
                    None => Seq::empty(),
                },
            ),
        ),
    }
}

/// The control sequence that sets a title: `ESC ] 2 ;`, the title, `ESC \`.
pub open spec fn title_frame(title: Seq<char>) -> Seq<u8> {
    seq![0x1bu8, 0x5d, 0x32, 0x3b] + encode_utf8(title) + seq![0x1bu8, 0x5c]
}

/// The child's title and whether it was changed, in mathematical terms.
#[verifier::ext_equal]
pub struct TitlesView {
    pub mode: Mode,
    /// The title that the child set.
    pub original: Seq<char>,
    /// Another title was written.
    pub changed: bool,
}

impl TitlesView {
    /// What is known after a title was seen, and the bytes that show it with the state.
    pub open spec fn observed(
        self,
        original: Seq<char>,
        state: State,
        agent: Option<Seq<char>>,
    ) -> (TitlesView, Option<Seq<u8>>) {
        match shown_title(self.mode, original, state, agent) {
            Some(title) => (
                TitlesView { original, changed: true, ..self },
                Some(title_frame(title)),
            ),
            None => (TitlesView { original, ..self }, None),
        }
    }

    /// The bytes that bring the child's title back, if another was written.
    pub open spec fn restoring(self) -> Option<Seq<u8>> {
        if self.changed {
            Some(title_frame(self.original))
        } else {
            None
        }
    }
}

/// Bytes, where there are any.
pub open spec fn bytes_view(bytes: Option<Vec<u8>>) -> Option<Seq<u8>> {
    match bytes {
        Some(value) => Some(value@),
        None => None,
    }
}

/// The child's title and whether it was changed.
pub struct Titles {
    mode: Mode,
    original: String,
    changed: bool,
}

impl View for Titles {
    type V = TitlesView;

    closed spec fn view(&self) -> TitlesView {
        TitlesView { mode: self.mode, original: self.original@, changed: self.changed }
    }
}

impl Titles {
    #[must_use]
    pub fn new(mode: Mode) -> (titles: Self)
        ensures
            titles@ == (TitlesView { mode, original: Seq::empty(), changed: false }),
    {
        let titles = Titles { mode, original: String::new(), changed: false };
        assert(titles@.original =~= Seq::empty());
        titles
    }

    /// Takes note of the child's title and gives the bytes that show it with the state.
    #[must_use]
    pub fn observe(&mut self, original: &str, state: State, agent: Option<&str>) -> (bytes: Option<
        Vec<u8>,
    >)
        ensures
            (final(self)@, bytes_view(bytes)) == old(self)@.observed(
                original@,
                state,
                match agent {
                    Some(text) => Some(text@),
                    None => None,
                },
            ),
    {
        self.original = original.to_owned();
        let title = match self.mode {
            Mode::Never => {
                return None;
            },
            Mode::Prefix => label(state, original),
            Mode::Replace => match agent {
                Some(name) => label(state, name),
                None => label(state, ""),
            },
        };
        proof {
            reveal_strlit("");
            assert(""@ =~= Seq::empty());
        }
        self.changed = true;
        Some(frame(title.as_str()))
    }

    /// The bytes that bring the child's title back, if another was written.
    #[must_use]
    pub fn restore(&self) -> (bytes: Option<Vec<u8>>)
        ensures
            bytes_view(bytes) == self@.restoring(),
    {
        if self.changed {
            Some(frame(self.original.as_str()))
        } else {
            None
        }
    }
}

/// Whatever titles are shown, the one that the child set last is the one that is restored; and
/// nothing is restored where the mode is to leave titles alone.
pub proof fn restoring_brings_the_original_back(
    titles: TitlesView,
    original: Seq<char>,
    state: State,
    agent: Option<Seq<char>>,
)
    ensures
        ({
            let (after, shown) = titles.observed(original, state, agent);
            &&& shown is Some ==> after.restoring() == Some(title_frame(original))
            &&& titles.mode is Never ==> shown is None && after.changed == titles.changed
            &&& titles.mode !is Never ==> shown is Some
        }),
{
}

fn glyph(state: State) -> (sign: &'static str)
    ensures
        sign@ == state_glyph(state),
{
    match state {
        State::Working => "●",
        State::Blocked => "◐",
        State::Idle => "○",
        State::NoAgent => "",
    }
}

fn label(state: State, text: &str) -> (title: String)
    ensures
        title@ == labelled(state, text@),
{
    match state {
        State::NoAgent => text.to_owned(),
        _ => {
            let mut title = glyph(state).to_owned();
            title.append(" ");
            title.append(text);
            title
        },
    }
}

fn frame(title: &str) -> (bytes: Vec<u8>)
    ensures
        bytes@ == title_frame(title@),
{
    let mut bytes: Vec<u8> = vec![0x1bu8, 0x5d, 0x32, 0x3b];
    bytes.extend_from_slice(title.as_bytes());
    bytes.push(0x1b);
    bytes.push(0x5c);
    bytes
}

} // verus!
