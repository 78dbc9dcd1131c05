//! What a terminal says beside what it shows: titles, bells, progress and reports.
use crate::numeral::{codes_of_bytes, parse_unsigned_bytes, unsigned};
use crate::rules::view::Progress;
use crate::text::{bytes_are, chars_of, from_utf8_lossy, joined, lossy_text, string_of};
use vstd::prelude::*;
use vstd::utf8::encode_utf8;

verus! {

/// The most characters of a title that are kept.
pub const MAX_TITLE_CHARS: usize = 256;

/// A control character: one of the general category `Cc`.
pub open spec fn control(character: char) -> bool {
    character as u32 <= 0x1f || 0x7f <= character as u32 <= 0x9f
}

/// A text without its control characters.
pub open spec fn without_controls(text: Seq<char>) -> Seq<char>
    decreases text.len(),
{
    if text.len() == 0 {
        Seq::empty()
    } else if control(text.last()) {
        without_controls(text.drop_last())
    } else {
        without_controls(text.drop_last()).push(text.last())
    }
}

/// A title as it is kept: without control characters, and not longer than the limit.
pub open spec fn clean_title(text: Seq<char>) -> Seq<char> {
    let kept = without_controls(text);
    if kept.len() > MAX_TITLE_CHARS {
        kept.take(MAX_TITLE_CHARS as int)
    } else {
        kept
    }
}

/// A call that a terminal makes.
pub enum Call {
    /// The bell is rung.
    Bell,
    /// A title is set.
    Title(Seq<u8>),
    /// An operating system command that the terminal does not know, by its parameters.
    Osc(Seq<Seq<u8>>),
}

/// What was heard of a terminal, in mathematical terms.
#[verifier::ext_equal]
pub struct HeardView {
    pub title: Seq<char>,
    pub bells: u64,
    pub progress: Option<Progress>,
    pub event: bool,
    pub reports: Seq<Seq<u8>>,
}

/// The number that a parameter holds, up to 255.
pub open spec fn small_number(parameter: Seq<u8>) -> Option<u8> {
    match unsigned(codes_of_bytes(parameter)) {
        Some(value) => if value <= 255 {
            Some(value as u8)
        } else {
            None
        },
        None => None,
    }
}

/// The parameters are those of a progress report.
pub open spec fn is_progress(parameters: Seq<Seq<u8>>) -> bool {
    &&& parameters.len() >= 4
    &&& parameters[0] == encode_utf8("9"@)
    &&& parameters[1] == encode_utf8("4"@)
    &&& small_number(parameters[2]) matches Some(state) && state <= 3
    &&& small_number(parameters[3]) matches Some(percent) && percent <= 100
}

/// The progress that the parameters report. A clear has no percentage.
pub open spec fn reported_progress(parameters: Seq<Seq<u8>>) -> Progress {
    let state = small_number(parameters[2])->0;
    Progress {
        state,
        percent: if state == 0 {
            0
        } else {
            small_number(parameters[3])->0
        },
    }
}

/// The parameters are those of a report that an agent makes of itself.
pub open spec fn is_report(parameters: Seq<Seq<u8>>) -> bool {
    parameters.len() > 0 && (parameters[0] == encode_utf8("7877"@) || parameters[0] == encode_utf8(
        "21337"@,
    ))
}

/// What has been heard after one more call.
pub open spec fn heard(before: HeardView, call: Call) -> HeardView {
    match call {
        Call::Bell => HeardView {
            bells: if before.bells == u64::MAX {
                before.bells
            } else {
                (before.bells + 1) as u64
            },
            event: true,
            ..before
        },
        Call::Title(title) => HeardView {
            title: clean_title(lossy_text(title)),
            event: true,
            ..before
        },
        Call::Osc(parameters) => HeardView {
            reports: if is_report(parameters) {
                before.reports.push(joined(parameters, 0x3b))
            } else {
                before.reports
            },
            progress: if is_progress(parameters) {
                Some(reported_progress(parameters))
            } else {
                before.progress
            },
            event: before.event || is_progress(parameters),
            ..before
        },
    }
}

/// What has been heard after more calls.
pub open spec fn heard_all(before: HeardView, calls: Seq<Call>) -> HeardView
    decreases calls.len(),
{
    if calls.len() == 0 {
        before
    } else {
        heard(heard_all(before, calls.drop_last()), calls.last())
    }
}

/// Calls that follow others are heard after them.
pub(crate) proof fn lemma_heard_in_turn(before: HeardView, first: Seq<Call>, second: Seq<Call>)
    ensures
        heard_all(before, first + second) == heard_all(heard_all(before, first), second),
    decreases second.len(),
{
    if second.len() == 0 {
        assert(first + second =~= first);
    } else {
        assert((first + second).drop_last() =~= first + second.drop_last());
        lemma_heard_in_turn(before, first, second.drop_last());
    }
}

/// Byte strings by their contents.
pub open spec fn byte_texts(parts: Seq<&[u8]>) -> Seq<Seq<u8>> {
    Seq::new(parts.len(), |index: int| parts[index]@)
}

/// Byte strings by their contents.
pub open spec fn byte_views(parts: Seq<Vec<u8>>) -> Seq<Seq<u8>> {
    Seq::new(parts.len(), |index: int| parts[index]@)
}

/// What was heard of a terminal.
#[derive(Debug)]
pub struct Callbacks {
    pub title: String,
    pub bells: u64,
    pub progress: Option<Progress>,
    /// Something was heard since this was last cleared.
    pub event: bool,
    pub observed_reports: Vec<Vec<u8>>,
}

impl View for Callbacks {
    type V = HeardView;

    open spec fn view(&self) -> HeardView {
        HeardView {
            title: self.title@,
            bells: self.bells,
            progress: self.progress,
            event: self.event,
            reports: byte_views(self.observed_reports@),
        }
    }
}

/// Nothing was heard.
pub open spec fn silence() -> HeardView {
    HeardView {
        title: Seq::empty(),
        bells: 0,
        progress: None,
        event: false,
        reports: Seq::empty(),
    }
}

impl Default for Callbacks {
    fn default() -> (callbacks: Self)
        ensures
            callbacks@ == silence(),
    {
        let callbacks = Callbacks {
            title: String::new(),
            bells: 0,
            progress: None,
            event: false,
            observed_reports: Vec::new(),
        };
        assert(callbacks@ =~= silence());
        callbacks
    }
}

/// A title as it is kept.
pub fn cleaned(text: &str) -> (title: String)
    ensures
        title@ == clean_title(text@),
{
    let chars = chars_of(text);
    let mut kept: Vec<char> = Vec::new();
    for index in 0..chars.len()
        invariant
            chars@ == text@,
            kept@ == without_controls(text@.take(index as int)),
            kept@.len() <= index,
    {
        let character: char = chars[index];
        assert(text@.take(index + 1).drop_last() =~= text@.take(index as int));
        let code: u32 = character as u32;
        if !(code <= 0x1f || (0x7f <= code && code <= 0x9f)) {
            kept.push(character);
        }
    }
    assert(text@.take(text@.len() as int) =~= text@);
    let length: usize = if kept.len() > MAX_TITLE_CHARS {
        MAX_TITLE_CHARS
    } else {
        kept.len()
    };
    let title = string_of(&kept.as_slice()[0..length]);
    assert(title@ =~= clean_title(text@));
    title
}

/// The parts with a separator between each two of them.
pub fn join_bytes(parts: &[&[u8]], separator: u8) -> (joint: Vec<u8>)
    ensures
        joint@ == joined(byte_texts(parts@), separator),
{
    let ghost all = byte_texts(parts@);
    let mut joint: Vec<u8> = Vec::new();
    for index in 0..parts.len()
        invariant
            all == byte_texts(parts@),
            joint@ == joined(all.take(index as int), separator),
    {
        assert(all.take(index + 1).drop_last() =~= all.take(index as int));
        if index > 0 {
            joint.push(separator);
        }
        joint.extend_from_slice(parts[index]);
        assert(joint@ =~= joined(all.take(index + 1), separator));
    }
    assert(all.take(parts@.len() as int) =~= all);
    joint
}

fn read_small(parameter: &[u8]) -> (value: Option<u8>)
    ensures
        value == small_number(parameter@),
{
    match parse_unsigned_bytes(parameter, 255) {
        Some(value) => Some(value as u8),
        None => None,
    }
}

fn read_progress(parameters: &[&[u8]]) -> (progress: Option<Progress>)
    ensures
        match progress {
            Some(value) => is_progress(byte_texts(parameters@)) && value == reported_progress(
                byte_texts(parameters@),
            ),
            None => !is_progress(byte_texts(parameters@)),
        },
{
    if parameters.len() < 4 || !bytes_are(parameters[0], "9") || !bytes_are(parameters[1], "4") {
        return None;
    }
    let state: u8 = match read_small(parameters[2]) {
        Some(value) => value,
        None => {
            return None;
        },
    };
    if state > 3 {
        return None;
    }
    let percent: u8 = match read_small(parameters[3]) {
        Some(value) => value,
        None => {
            return None;
        },
    };
    if percent > 100 {
        return None;
    }
    Some(
        Progress {
            state,
            percent: if state == 0 {
                0
            } else {
                percent
            },
        },
    )
}

impl Callbacks {
    /// Hears a bell.
    pub fn hear_bell(&mut self)
        ensures
            final(self)@ == heard(old(self)@, Call::Bell),
    {
        if self.bells < u64::MAX {
            self.bells = self.bells + 1;
        }
        self.event = true;
    }

    /// Hears a title.
    pub fn hear_title(&mut self, title: &[u8])
        ensures
            final(self)@ == heard(old(self)@, Call::Title(title@)),
    {
        let text = from_utf8_lossy(title);
        self.title = cleaned(text.as_str());
        self.event = true;
    }

    /// Hears an operating system command.
    pub fn hear_osc(&mut self, parameters: &[&[u8]])
        ensures
            final(self)@ == heard(old(self)@, Call::Osc(byte_texts(parameters@))),
    {
        let ghost start = self@;
        let ghost given = byte_texts(parameters@);
        if parameters.len() > 0 && (bytes_are(parameters[0], "7877") || bytes_are(
            parameters[0],
            "21337",
        )) {
            assert(is_report(given));
            let report = join_bytes(parameters, 0x3b);
            let ghost before = self.observed_reports@;
            self.observed_reports.push(report);
            assert(byte_views(self.observed_reports@) =~= byte_views(before).push(report@));
        } else {
            assert(!is_report(given));
        }
        match read_progress(parameters) {
            Some(progress) => {
                self.progress = Some(progress);
                self.event = true;
            },
            None => {},
        }
        assert(self@ =~= heard(start, Call::Osc(given)));
    }
}

} // verus!
