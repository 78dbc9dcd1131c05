//! The OSC 7877 report: its values, its wire form, and the parser that reads it back.
use crate::numeral::{
    all_digits, codes_of_bytes, decimal_bytes, digits_value, parse_digits, push_decimal,
};
use crate::text::{bytes_are, chars_of, joined, lemma_split_nonempty, push_text, split, split_bytes};
use vstd::prelude::*;
use vstd::utf8::{decode_utf8, encode_utf8, encode_utf8_decode_utf8, valid_utf8};

verus! {

/// The version of the protocol that reports are written in.
pub const PROTOCOL_VERSION: u64 = 1;

/// The longest agent identifier, in bytes.
pub const MAX_AGENT_BYTES: usize = 64;

/// The longest message, in decoded bytes.
pub const MAX_MESSAGE_BYTES: usize = 128;

/// The longest encoded report, framing and unknown fields included.
pub const MAX_REPORT_BYTES: usize = 1024;

/// A character that an agent identifier may hold.
pub open spec fn agent_char(character: char) -> bool {
    ||| '0' <= character <= '9'
    ||| 'A' <= character <= 'Z'
    ||| 'a' <= character <= 'z'
    ||| character == '-'
    ||| character == '_'
    ||| character == '.'
}

/// A text that is an agent identifier.
pub open spec fn valid_agent(text: Seq<char>) -> bool {
    &&& 0 < text.len() <= MAX_AGENT_BYTES
    &&& forall|index: int| 0 <= index < text.len() ==> agent_char(#[trigger] text[index])
}

/// The identifier of an agent: 1 to 64 ASCII letters, digits, dots, underscores or hyphens.
#[derive(Debug, PartialEq, Eq, Hash)]
pub struct AgentId {
    name: String,
}

impl View for AgentId {
    type V = Seq<char>;

    closed spec fn view(&self) -> Seq<char> {
        self.name@
    }
}

impl Clone for AgentId {
    fn clone(&self) -> (copy: Self)
        ensures
            copy == *self,
    {
        proof {
            use_type_invariant(self);
        }
        AgentId { name: self.name.clone() }
    }
}

impl AgentId {
    #[verifier::type_invariant]
    spec fn well_formed(self) -> bool {
        valid_agent(self.name@)
    }

    pub fn new(value: &str) -> (agent: Result<Self, Error>)
        ensures
            agent is Ok <==> valid_agent(value@),
            agent matches Ok(id) ==> id@ == value@,
    {
        let chars = chars_of(value);
        if chars.len() == 0 || chars.len() > MAX_AGENT_BYTES {
            return Err(Error);
        }
        for index in 0..chars.len()
            invariant
                chars@ == value@,
                forall|earlier: int|
                    0 <= earlier < index ==> agent_char(#[trigger] value@[earlier]),
        {
            let character: char = chars[index];
            let accepted = ('0' <= character && character <= '9') || ('A' <= character && character
                <= 'Z') || ('a' <= character && character <= 'z') || character == '-' || character
                == '_' || character == '.';
            if !accepted {
                assert(!agent_char(value@[index as int]));
                return Err(Error);
            }
        }
        Ok(AgentId { name: value.to_owned() })
    }

    #[must_use]
    pub fn as_str(&self) -> (text: &str)
        ensures
            text@ == self@,
            valid_agent(self@),
    {
        proof {
            use_type_invariant(self);
        }
        self.name.as_str()
    }
}

/// What an agent is doing.
#[derive(Clone, Copy, Debug, PartialEq, Eq, Structural)]
pub enum State {
    Working,
    Blocked,
    Idle,
    /// There is no agent to report on.
    NoAgent,
}

/// Which evidence for a state is on the screen.
#[derive(Clone, Copy, Debug, PartialEq, Eq, Structural)]
pub struct Flags {
    pub idle: bool,
    pub blocker: bool,
    pub working: bool,
}

/// No evidence.
pub open spec fn no_flags() -> Flags {
    Flags { idle: false, blocker: false, working: false }
}

impl Default for Flags {
    fn default() -> (flags: Self)
        ensures
            flags == no_flags(),
    {
        Flags { idle: false, blocker: false, working: false }
    }
}

/// A text that is no report, or parts that make none.
#[derive(Clone, Copy, Debug, PartialEq, Eq, Structural)]
pub struct Error;

impl Error {
    pub fn message(&self) -> (text: &'static str)
        ensures
            text@ == "invalid OSC 7877 report"@,
    {
        "invalid OSC 7877 report"
    }
}

/// The content of a report.
pub struct ReportView {
    pub state: State,
    pub agent: Option<Seq<char>>,
    pub seq: u64,
    pub visible: Flags,
    pub exited: bool,
    pub message: Option<Seq<char>>,
}

impl ReportView {
    /// The parts go together: an agent is named exactly when there is a state to report of it, and
    /// the message is short enough.
    pub open spec fn consistent(self) -> bool {
        &&& (self.state == State::NoAgent) == (self.agent is None)
        &&& self.message matches Some(message) ==> encode_utf8(message).len() <= MAX_MESSAGE_BYTES
    }

    /// A report that can exist.
    pub open spec fn valid(self) -> bool {
        &&& self.consistent()
        &&& self.agent matches Some(agent) ==> valid_agent(agent)
    }
}

/// The state of an agent at one moment, as it is announced.
#[derive(Debug, PartialEq, Eq)]
pub struct Report {
    state: State,
    agent: Option<AgentId>,
    seq: u64,
    visible: Flags,
    exited: bool,
    message: Option<String>,
}

/// The identifier of an agent, if there is one.
pub open spec fn agent_view(agent: Option<AgentId>) -> Option<Seq<char>> {
    match agent {
        Some(id) => Some(id@),
        None => None,
    }
}

/// The characters of a string, if there is one.
pub open spec fn text_view(text: Option<String>) -> Option<Seq<char>> {
    match text {
        Some(value) => Some(value@),
        None => None,
    }
}

impl View for Report {
    type V = ReportView;

    closed spec fn view(&self) -> ReportView {
        ReportView {
            state: self.state,
            agent: agent_view(self.agent),
            seq: self.seq,
            visible: self.visible,
            exited: self.exited,
            message: text_view(self.message),
        }
    }
}

impl Clone for Report {
    fn clone(&self) -> (copy: Self)
        ensures
            copy@ == self@,
    {
        proof {
            use_type_invariant(self);
        }
        let agent = match &self.agent {
            Some(id) => Some(id.clone()),
            None => None,
        };
        let message = match &self.message {
            Some(text) => Some(text.clone()),
            None => None,
        };
        Report {
            state: self.state,
            agent,
            seq: self.seq,
            visible: self.visible,
            exited: self.exited,
            message,
        }
    }
}

impl Report {
    #[verifier::type_invariant]
    spec fn well_formed(self) -> bool {
        self@.consistent()
    }

    pub fn new(
        state: State,
        agent: Option<AgentId>,
        seq: u64,
        visible: Flags,
        exited: bool,
        message: Option<String>,
    ) -> (report: Result<Self, Error>)
        ensures
            ({
                let parts = ReportView {
                    state,
                    agent: agent_view(agent),
                    seq,
                    visible,
                    exited,
                    message: text_view(message),
                };
                &&& report is Ok <==> parts.consistent()
                &&& report matches Ok(value) ==> value@ == parts
            }),
    {
        if (state == State::NoAgent) != agent.is_none() {
            return Err(Error);
        }
        match &message {
            Some(value) => {
                if value.as_str().as_bytes().len() > MAX_MESSAGE_BYTES {
                    return Err(Error);
                }
            },
            None => {},
        }
        Ok(Report { state, agent, seq, visible, exited, message })
    }

    #[must_use]
    pub fn state(&self) -> (state: State)
        ensures
            state == self@.state,
    {
        self.state
    }

    #[must_use]
    pub fn agent(&self) -> (agent: Option<&AgentId>)
        ensures
            match agent {
                Some(id) => self@.agent == Some(id@),
                None => self@.agent is None,
            },
    {
        self.agent.as_ref()
    }

    #[must_use]
    pub fn seq(&self) -> (seq: u64)
        ensures
            seq == self@.seq,
    {
        self.seq
    }

    #[must_use]
    pub fn visible(&self) -> (visible: Flags)
        ensures
            visible == self@.visible,
    {
        self.visible
    }

    #[must_use]
    pub fn exited(&self) -> (exited: bool)
        ensures
            exited == self@.exited,
    {
        self.exited
    }

    #[must_use]
    pub fn message(&self) -> (message: Option<&str>)
        ensures
            match message {
                Some(text) => self@.message == Some(text@),
                None => self@.message is None,
            },
    {
        match &self.message {
            Some(text) => Some(text.as_str()),
            None => None,
        }
    }
}

/// The name of a state.
pub open spec fn state_word(state: State) -> Seq<char> {
    match state {
        State::Working => "working"@,
        State::Blocked => "blocked"@,
        State::Idle => "idle"@,
        State::NoAgent => "none"@,
    }
}

/// The wire name of a state.
pub open spec fn state_bytes(state: State) -> Seq<u8> {
    encode_utf8(state_word(state))
}

/// The state that a wire name stands for.
pub open spec fn state_of(value: Seq<u8>) -> Option<State> {
    if value == state_bytes(State::Working) {
        Some(State::Working)
    } else if value == state_bytes(State::Blocked) {
        Some(State::Blocked)
    } else if value == state_bytes(State::Idle) {
        Some(State::Idle)
    } else if value == state_bytes(State::NoAgent) {
        Some(State::NoAgent)
    } else {
        None
    }
}

/// The names of the flags that are set, in their fixed order.
pub open spec fn flag_names(flags: Flags) -> Seq<Seq<u8>> {
    (if flags.idle {
        seq![encode_utf8("idle"@)]
    } else {
        seq![]
    }) + (if flags.blocker {
        seq![encode_utf8("blocker"@)]
    } else {
        seq![]
    }) + (if flags.working {
        seq![encode_utf8("working"@)]
    } else {
        seq![]
    })
}

/// The flags that a list of names sets: no name twice, and no other names.
pub open spec fn flags_named(names: Seq<Seq<u8>>) -> Option<Flags>
    decreases names.len(),
{
    if names.len() == 0 {
        Some(no_flags())
    } else {
        match flags_named(names.drop_last()) {
            None => None,
            Some(flags) => if names.last() == encode_utf8("idle"@) && !flags.idle {
                Some(Flags { idle: true, ..flags })
            } else if names.last() == encode_utf8("blocker"@) && !flags.blocker {
                Some(Flags { blocker: true, ..flags })
            } else if names.last() == encode_utf8("working"@) && !flags.working {
                Some(Flags { working: true, ..flags })
            } else {
                None
            },
        }
    }
}

/// The flags that the value of a `visible` field sets.
pub open spec fn flags_of(value: Seq<u8>) -> Option<Flags> {
    if value.len() == 0 {
        Some(no_flags())
    } else {
        flags_named(split(value, 0x2c))
    }
}

/// The hexadecimal digit of a nibble, in upper case.
pub open spec fn hex_digit_of(nibble: int) -> u8 {
    if nibble < 10 {
        (0x30 + nibble) as u8
    } else {
        (0x41 + nibble - 10) as u8
    }
}

/// The nibble that a hexadecimal digit stands for, in either case.
pub open spec fn hex_value(byte: u8) -> Option<u8> {
    if 0x30 <= byte <= 0x39 {
        Some((byte - 0x30) as u8)
    } else if 0x61 <= byte <= 0x66 {
        Some((byte - 0x61 + 10) as u8)
    } else if 0x41 <= byte <= 0x46 {
        Some((byte - 0x41 + 10) as u8)
    } else {
        None
    }
}

/// A byte that a message carries as it is: a letter, a digit, or one of `-_.~` and the space.
pub open spec fn literal_byte(byte: u8) -> bool {
    ||| 0x30 <= byte <= 0x39
    ||| 0x41 <= byte <= 0x5a
    ||| 0x61 <= byte <= 0x7a
    ||| byte == 0x2d
    ||| byte == 0x5f
    ||| byte == 0x2e
    ||| byte == 0x7e
    ||| byte == 0x20
}

/// What one message byte is written as.
pub open spec fn escaped(byte: u8) -> Seq<u8> {
    if literal_byte(byte) {
        seq![byte]
    } else {
        seq![0x25u8, hex_digit_of(byte as int / 16), hex_digit_of(byte as int % 16)]
    }
}

/// The percent encoding of a byte string.
pub open spec fn percent_encoded(bytes: Seq<u8>) -> Seq<u8>
    decreases bytes.len(),
{
    if bytes.len() == 0 {
        Seq::empty()
    } else {
        escaped(bytes[0]) + percent_encoded(bytes.skip(1))
    }
}

/// The byte string that a percent encoding stands for.
pub open spec fn percent_decoded(text: Seq<u8>) -> Option<Seq<u8>>
    decreases text.len(),
{
    if text.len() == 0 {
        Some(Seq::empty())
    } else if text[0] != 0x25 {
        match percent_decoded(text.skip(1)) {
            Some(rest) => Some(seq![text[0]] + rest),
            None => None,
        }
    } else if text.len() < 3 {
        None
    } else {
        match (hex_value(text[1]), hex_value(text[2]), percent_decoded(text.skip(3))) {
            (Some(high), Some(low), Some(rest)) => Some(seq![(high * 16 + low) as u8] + rest),
            _ => None,
        }
    }
}

/// The message that the value of a `message` field stands for.
pub open spec fn message_of(value: Seq<u8>) -> Option<Seq<char>> {
    match percent_decoded(value) {
        Some(bytes) => if bytes.len() <= MAX_MESSAGE_BYTES && valid_utf8(bytes) {
            Some(decode_utf8(bytes))
        } else {
            None
        },
        None => None,
    }
}

/// The agent that the value of an `agent` field names.
pub open spec fn agent_of(value: Seq<u8>) -> Option<Seq<char>> {
    if valid_utf8(value) && valid_agent(decode_utf8(value)) {
        Some(decode_utf8(value))
    } else {
        None
    }
}

/// The sequence number that the value of a `seq` field stands for.
pub open spec fn seq_of(value: Seq<u8>) -> Option<u64> {
    if all_digits(codes_of_bytes(value)) && digits_value(codes_of_bytes(value)) <= u64::MAX {
        Some(digits_value(codes_of_bytes(value)) as u64)
    } else {
        None
    }
}

/// What the value of an `exited` field says.
pub open spec fn exited_of(value: Seq<u8>) -> Option<bool> {
    if value == encode_utf8("0"@) {
        Some(false)
    } else if value == encode_utf8("1"@) {
        Some(true)
    } else {
        None
    }
}

/// The version that the value of a `v` field names, where it is one that can be read.
pub open spec fn version_of(value: Seq<u8>) -> Option<u64> {
    if value == encode_utf8("1"@) {
        Some(PROTOCOL_VERSION)
    } else {
        None
    }
}

/// A field that gives `key` the value `value`.
pub open spec fn field(key: Seq<u8>, value: Seq<u8>) -> Seq<u8> {
    key.push(0x3d) + value
}

/// The fields that a report is written as.
pub open spec fn report_fields(report: ReportView) -> Seq<Seq<u8>> {
    seq![
        encode_utf8("7877"@),
        field(encode_utf8("v"@), encode_utf8("1"@)),
        field(encode_utf8("state"@), state_bytes(report.state)),
    ] + (match report.agent {
        Some(agent) => seq![field(encode_utf8("agent"@), encode_utf8(agent))],
        None => seq![],
    }) + seq![
        field(encode_utf8("seq"@), decimal_bytes(report.seq as nat)),
        field(encode_utf8("visible"@), joined(flag_names(report.visible), 0x2c)),
        field(
            encode_utf8("exited"@),
            if report.exited {
                encode_utf8("1"@)
            } else {
                encode_utf8("0"@)
            },
        ),
    ] + (match report.message {
        Some(message) => seq![
            field(encode_utf8("message"@), percent_encoded(encode_utf8(message))),
        ],
        None => seq![],
    })
}

/// The wire form of a report: an OSC string terminated by ST.
pub open spec fn formatted(report: ReportView) -> Seq<u8> {
    seq![0x1bu8, 0x5du8] + joined(report_fields(report), 0x3b) + seq![0x1bu8, 0x5cu8]
}

/// ST stands somewhere in the bytes.
pub open spec fn holds_terminator(input: Seq<u8>) -> bool {
    exists|index: int| 0 <= index < input.len() - 1 && #[trigger] input[index] == 0x1b && input[index
        + 1] == 0x5c
}

/// The payload of a complete OSC string, ended by ST or by BEL, or the bare payload itself.
pub open spec fn payload_of(input: Seq<u8>) -> Option<Seq<u8>> {
    let length = input.len() as int;
    if length >= 2 && input[0] == 0x1b && input[1] == 0x5d {
        if length >= 4 && input[length - 2] == 0x1b && input[length - 1] == 0x5c {
            Some(input.subrange(2, length - 2))
        } else if length >= 3 && input[length - 1] == 0x07 {
            Some(input.subrange(2, length - 1))
        } else {
            None
        }
    } else if input.contains(0x07) || holds_terminator(input) {
        None
    } else {
        Some(input)
    }
}

/// The field gives `key` a value.
pub open spec fn assigns(text: Seq<u8>, key: Seq<u8>) -> bool {
    key.push(0x3d).is_prefix_of(text)
}

/// The value that a field gives `key`.
pub open spec fn assigned(text: Seq<u8>, key: Seq<u8>) -> Seq<u8> {
    text.skip(key.len() as int + 1)
}

/// The value that the fields give `key`, if any does.
pub open spec fn lookup(fields: Seq<Seq<u8>>, key: Seq<u8>) -> Option<Seq<u8>>
    decreases fields.len(),
{
    if fields.len() == 0 {
        None
    } else if assigns(fields.last(), key) {
        Some(assigned(fields.last(), key))
    } else {
        lookup(fields.drop_last(), key)
    }
}

/// No two fields give `key` a value.
pub open spec fn at_most_once(fields: Seq<Seq<u8>>, key: Seq<u8>) -> bool {
    forall|first: int, second: int|
        0 <= first < second < fields.len() && #[trigger] assigns(fields[first], key)
            ==> !(#[trigger] assigns(fields[second], key))
}

/// Every field is an assignment, and no known key is assigned twice.
pub open spec fn unambiguous(fields: Seq<Seq<u8>>) -> bool {
    &&& forall|index: int| 0 <= index < fields.len() ==> (#[trigger] fields[index]).contains(0x3d)
    &&& at_most_once(fields, encode_utf8("v"@))
    &&& at_most_once(fields, encode_utf8("state"@))
    &&& at_most_once(fields, encode_utf8("agent"@))
    &&& at_most_once(fields, encode_utf8("seq"@))
    &&& at_most_once(fields, encode_utf8("visible"@))
    &&& at_most_once(fields, encode_utf8("exited"@))
    &&& at_most_once(fields, encode_utf8("message"@))
}

/// The report that the assignments make: `state` and `seq` are given, every given value is well
/// formed, the version among them, and the parts go together. Keys that are not known are ignored.
pub open spec fn report_of(fields: Seq<Seq<u8>>) -> Option<ReportView> {
    let version = lookup(fields, encode_utf8("v"@));
    let state = lookup(fields, encode_utf8("state"@));
    let agent = lookup(fields, encode_utf8("agent"@));
    let seq = lookup(fields, encode_utf8("seq"@));
    let visible = lookup(fields, encode_utf8("visible"@));
    let exited = lookup(fields, encode_utf8("exited"@));
    let message = lookup(fields, encode_utf8("message"@));
    if unambiguous(fields) && (version is Some ==> version_of(version->0) is Some) && state is Some
        && state_of(state->0) is Some && seq is Some && seq_of(seq->0) is Some && (agent is Some ==> agent_of(agent->0) is Some) && (visible is Some ==> flags_of(
        visible->0,
    ) is Some) && (exited is Some ==> exited_of(exited->0) is Some) && (message is Some
        ==> message_of(message->0) is Some) {
        let report = ReportView {
            state: state_of(state->0)->0,
            agent: if agent is Some {
                agent_of(agent->0)
            } else {
                None
            },
            seq: seq_of(seq->0)->0,
            visible: if visible is Some {
                flags_of(visible->0)->0
            } else {
                no_flags()
            },
            exited: if exited is Some {
                exited_of(exited->0)->0
            } else {
                false
            },
            message: if message is Some {
                message_of(message->0)
            } else {
                None
            },
        };
        if report.consistent() {
            Some(report)
        } else {
            None
        }
    } else {
        None
    }
}

/// The report that a byte string stands for: the code 7877 and then the assignments, separated by
/// semicolons, in at most 1024 bytes.
pub open spec fn parsed(input: Seq<u8>) -> Option<ReportView> {
    if input.len() > MAX_REPORT_BYTES {
        None
    } else {
        match payload_of(input) {
            Some(payload) => {
                let fields = split(payload, 0x3b);
                if fields[0] == encode_utf8("7877"@) {
                    report_of(fields.skip(1))
                } else {
                    None
                }
            },
            None => None,
        }
    }
}

/// The name of a state.
pub fn state_name(state: State) -> (name: &'static str)
    ensures
        name@ == state_word(state),
{
    match state {
        State::Working => "working",
        State::Blocked => "blocked",
        State::Idle => "idle",
        State::NoAgent => "none",
    }
}

fn parse_state(value: &[u8]) -> (state: Result<State, Error>)
    ensures
        state == match state_of(value@) {
            Some(found) => Ok(found),
            None => Err(Error),
        },
{
    if bytes_are(value, "working") {
        Ok(State::Working)
    } else if bytes_are(value, "blocked") {
        Ok(State::Blocked)
    } else if bytes_are(value, "idle") {
        Ok(State::Idle)
    } else if bytes_are(value, "none") {
        Ok(State::NoAgent)
    } else {
        Err(Error)
    }
}

fn parse_flags(value: &[u8]) -> (flags: Result<Flags, Error>)
    ensures
        flags == match flags_of(value@) {
            Some(found) => Ok(found),
            None => Err(Error),
        },
{
    let mut flags: Flags = Flags::default();
    if value.len() == 0 {
        return Ok(flags);
    }
    let names = split_bytes(value, 0x2c);
    let ghost listed = split(value@, 0x2c);
    for index in 0..names.len()
        invariant
            names@.len() == listed.len(),
            forall|position: int|
                0 <= position < names@.len() ==> (#[trigger] names@[position])@ == listed[position],
            flags_named(listed.take(index as int)) == Some(flags),
            listed == split(value@, 0x2c),
            value@.len() != 0,
    {
        let name: &[u8] = names[index];
        assert(listed.take(index + 1).drop_last() =~= listed.take(index as int));
        let ghost next = flags_named(listed.take(index + 1));
        if bytes_are(name, "idle") && !flags.idle {
            flags.idle = true;
        } else if bytes_are(name, "blocker") && !flags.blocker {
            flags.blocker = true;
        } else if bytes_are(name, "working") && !flags.working {
            flags.working = true;
        } else {
            assert(next is None);
            proof {
                lemma_flags_stay_rejected(listed, index + 1);
            }
            return Err(Error);
        }
    }
    assert(listed.take(listed.len() as int) =~= listed);
    Ok(flags)
}

proof fn lemma_flags_stay_rejected(names: Seq<Seq<u8>>, length: int)
    requires
        0 <= length <= names.len(),
        flags_named(names.take(length)) is None,
    ensures
        flags_named(names) is None,
    decreases names.len() - length,
{
    if length == names.len() {
        assert(names.take(length) =~= names);
    } else {
        assert(names.take(length + 1).drop_last() =~= names.take(length));
        lemma_flags_stay_rejected(names, length + 1);
    }
}

fn hex_digit(nibble: u8) -> (digit: u8)
    requires
        nibble < 16,
    ensures
        digit == hex_digit_of(nibble as int),
{
    if nibble < 10 {
        0x30 + nibble
    } else {
        0x41 + (nibble - 10)
    }
}

fn hex(byte: u8) -> (nibble: Option<u8>)
    ensures
        nibble == hex_value(byte),
{
    match byte {
        0x30..=0x39 => Some(byte - 0x30),
        0x61..=0x66 => Some(byte - 0x61 + 10),
        0x41..=0x46 => Some(byte - 0x41 + 10),
        _ => None,
    }
}

fn percent_encode(input: &[u8], output: &mut Vec<u8>)
    ensures
        final(output)@ == old(output)@ + percent_encoded(input@),
{
    let ghost before = output@;
    assert(input@.skip(0) =~= input@);
    for index in 0..input.len()
        invariant
            before + percent_encoded(input@) == output@ + percent_encoded(
                input@.skip(index as int),
            ),
    {
        let byte: u8 = input[index];
        let ghost written = output@;
        assert(input@.skip(index as int).skip(1) =~= input@.skip(index + 1));
        let literal = match byte {
            0x30..=0x39 | 0x41..=0x5a | 0x61..=0x7a | 0x2d | 0x5f | 0x2e | 0x7e | 0x20 => true,
            _ => false,
        };
        if literal {
            output.push(byte);
        } else {
            output.push(0x25);
            output.push(hex_digit(byte / 16));
            output.push(hex_digit(byte % 16));
        }
        assert(output@ =~= written + escaped(byte));
        assert(written + (escaped(byte) + percent_encoded(input@.skip(index + 1))) =~= output@
            + percent_encoded(input@.skip(index + 1)));
    }
    assert(output@ + percent_encoded(input@.skip(input@.len() as int)) =~= output@);
}

fn percent_decode(input: &[u8]) -> (message: Result<String, Error>)
    ensures
        message is Ok <==> message_of(input@) is Some,
        message matches Ok(text) ==> message_of(input@) == Some(text@),
{
    let mut output: Vec<u8> = Vec::new();
    let mut position: usize = 0;
    assert(input@.skip(0) =~= input@);
    assert(percent_decoded(input@) matches Some(rest) ==> rest =~= output@ + rest);
    while position < input.len()
        invariant
            position <= input@.len(),
            output@.len() <= MAX_MESSAGE_BYTES,
            percent_decoded(input@) == match percent_decoded(input@.skip(position as int)) {
                Some(rest) => Some(output@ + rest),
                None => None,
            },
        decreases input@.len() - position,
    {
        let ghost rest = input@.skip(position as int);
        let ghost written = output@;
        let byte: u8 = input[position];
        if byte == 0x25 {
            if input.len() - position < 3 {
                return Err(Error);
            }
            match (hex(input[position + 1]), hex(input[position + 2])) {
                (Some(high), Some(low)) => {
                    output.push(high * 16 + low);
                    position = position + 3;
                    assert(rest.skip(3) =~= input@.skip(position as int));
                },
                _ => {
                    return Err(Error);
                },
            }
        } else {
            output.push(byte);
            position = position + 1;
            assert(rest.skip(1) =~= input@.skip(position as int));
        }
        proof {
            if let Some(tail) = percent_decoded(input@.skip(position as int)) {
                assert(written + (seq![output@.last()] + tail) =~= output@ + tail);
            }
        }
        if output.len() > MAX_MESSAGE_BYTES {
            return Err(Error);
        }
    }
    assert(output@ + Seq::<u8>::empty() =~= output@);
    let ghost bytes = output@;
    match String::from_utf8(output) {
        Ok(text) => {
            proof {
                encode_utf8_decode_utf8(text@);
            }
            Ok(text)
        },
        Err(_) => Err(Error),
    }
}

fn holds_st(input: &[u8]) -> (found: bool)
    ensures
        found == holds_terminator(input@),
{
    let length: usize = input.len();
    if length < 2 {
        return false;
    }
    let mut index: usize = 0;
    while index < length - 1
        invariant
            index < length,
            length == input@.len(),
            forall|earlier: int|
                0 <= earlier < index && earlier < input@.len() - 1 && #[trigger] input@[earlier] == 0x1b
                    ==> input@[earlier + 1] != 0x5c,
        decreases input@.len() - index,
    {
        if input[index] == 0x1b && input[index + 1] == 0x5c {
            assert(input@[index as int] == 0x1b);
            return true;
        }
        index = index + 1;
    }
    false
}

fn holds_byte(input: &[u8], byte: u8) -> (found: bool)
    ensures
        found == input@.contains(byte),
{
    for index in 0..input.len()
        invariant
            forall|earlier: int| 0 <= earlier < index ==> #[trigger] input@[earlier] != byte,
    {
        if input[index] == byte {
            assert(input@[index as int] == byte);
            return true;
        }
    }
    false
}

fn strip_frame(input: &[u8]) -> (payload: Result<&[u8], Error>)
    ensures
        payload is Ok <==> payload_of(input@) is Some,
        payload matches Ok(bytes) ==> payload_of(input@) == Some(bytes@),
{
    let length: usize = input.len();
    if length >= 2 && input[0] == 0x1b && input[1] == 0x5d {
        if length >= 4 && input[length - 2] == 0x1b && input[length - 1] == 0x5c {
            return Ok(&input[2..length - 2]);
        }
        if length >= 3 && input[length - 1] == 0x07 {
            return Ok(&input[2..length - 1]);
        }
        return Err(Error);
    }
    if holds_byte(input, 0x07) || holds_st(input) {
        return Err(Error);
    }
    Ok(input)
}

/// The names of the flags that are set, joined by commas.
fn push_flags(output: &mut Vec<u8>, flags: Flags)
    ensures
        final(output)@ == old(output)@ + joined(flag_names(flags), 0x2c),
{
    let ghost before = output@;
    proof {
        reveal_with_fuel(joined, 4);
    }
    if flags.idle {
        push_text(output, "idle");
    }
    if flags.blocker {
        if flags.idle {
            output.push(0x2c);
        }
        push_text(output, "blocker");
    }
    if flags.working {
        if flags.idle || flags.blocker {
            output.push(0x2c);
        }
        push_text(output, "working");
    }
    proof {
        let idle = encode_utf8("idle"@);
        let blocker = encode_utf8("blocker"@);
        let working = encode_utf8("working"@);
        let names = flag_names(flags);
        if flags.idle && flags.blocker && flags.working {
            assert(names =~= seq![idle, blocker, working]);
            assert(names.drop_last() =~= seq![idle, blocker]);
            assert(names.drop_last().drop_last() =~= seq![idle]);
        } else if flags.idle && flags.blocker {
            assert(names =~= seq![idle, blocker]);
            assert(names.drop_last() =~= seq![idle]);
        } else if flags.idle && flags.working {
            assert(names =~= seq![idle, working]);
            assert(names.drop_last() =~= seq![idle]);
        } else if flags.blocker && flags.working {
            assert(names =~= seq![blocker, working]);
            assert(names.drop_last() =~= seq![blocker]);
        }
        assert(output@ =~= before + joined(names, 0x2c));
    }
}

/// The output holds an opened frame and the given fields.
#[verifier::opaque]
spec fn written(output: Seq<u8>, fields: Seq<Seq<u8>>) -> bool {
    &&& fields.len() > 0
    &&& output == seq![0x1bu8, 0x5du8] + joined(fields, 0x3b)
}

/// Appends one more field.
fn push_field(output: &mut Vec<u8>, key: &str, value: &[u8], Ghost(fields): Ghost<Seq<Seq<u8>>>)
    requires
        written(old(output)@, fields),
    ensures
        written(final(output)@, fields.push(field(encode_utf8(key@), value@))),
{
    let ghost before = output@;
    output.push(0x3b);
    push_text(output, key);
    output.push(0x3d);
    output.extend_from_slice(value);
    proof {
        reveal(written);
        let grown = fields.push(field(encode_utf8(key@), value@));
        assert(grown.drop_last() =~= fields);
        assert(joined(grown, 0x3b) == joined(fields, 0x3b).push(0x3b) + field(
            encode_utf8(key@),
            value@,
        ));
        assert(output@ =~= seq![0x1bu8, 0x5du8] + joined(grown, 0x3b));
    }
}

/// Opens a frame.
fn open_frame() -> (output: Vec<u8>)
    ensures
        written(output@, seq![encode_utf8("7877"@)]),
{
    let mut output: Vec<u8> = Vec::new();
    output.push(0x1b);
    output.push(0x5d);
    push_text(&mut output, "7877");
    proof {
        reveal(written);
        assert(output@ =~= seq![0x1bu8, 0x5du8] + joined(seq![encode_utf8("7877"@)], 0x3b));
    }
    output
}

/// Writes a report as an OSC string that ST terminates.
#[must_use]
pub fn format(report: &Report) -> (bytes: Vec<u8>)
    ensures
        bytes@ == formatted(report@),
{
    let ghost view = report@;
    let mut output = open_frame();
    let ghost fields = seq![encode_utf8("7877"@)];
    push_field(&mut output, "v", "1".as_bytes(), Ghost(fields));
    let ghost fields = fields.push(field(encode_utf8("v"@), encode_utf8("1"@)));
    push_field(&mut output, "state", state_name(report.state).as_bytes(), Ghost(fields));
    let ghost fields = fields.push(field(encode_utf8("state"@), state_bytes(view.state)));
    match &report.agent {
        Some(agent) => {
            push_field(&mut output, "agent", agent.as_str().as_bytes(), Ghost(fields));
        },
        None => {},
    }
    let ghost fields = match view.agent {
        Some(agent) => fields.push(field(encode_utf8("agent"@), encode_utf8(agent))),
        None => fields,
    };
    let mut seq_value: Vec<u8> = Vec::new();
    push_decimal(&mut seq_value, report.seq);
    assert(seq_value@ =~= decimal_bytes(view.seq as nat));
    push_field(&mut output, "seq", seq_value.as_slice(), Ghost(fields));
    let ghost fields = fields.push(field(encode_utf8("seq"@), decimal_bytes(view.seq as nat)));
    let mut names: Vec<u8> = Vec::new();
    push_flags(&mut names, report.visible);
    let ghost listed = joined(flag_names(view.visible), 0x2c);
    assert(names@ =~= listed);
    push_field(&mut output, "visible", names.as_slice(), Ghost(fields));
    let ghost fields = fields.push(field(encode_utf8("visible"@), listed));
    let exited = if report.exited {
        "1"
    } else {
        "0"
    };
    push_field(&mut output, "exited", exited.as_bytes(), Ghost(fields));
    let ghost fields = fields.push(field(encode_utf8("exited"@), encode_utf8(exited@)));
    match &report.message {
        Some(message) => {
            let mut escaped: Vec<u8> = Vec::new();
            percent_encode(message.as_str().as_bytes(), &mut escaped);
            assert(escaped@ =~= percent_encoded(encode_utf8(message@)));
            push_field(&mut output, "message", escaped.as_slice(), Ghost(fields));
        },
        None => {},
    }
    let ghost fields = match view.message {
        Some(message) => fields.push(
            field(encode_utf8("message"@), percent_encoded(encode_utf8(message))),
        ),
        None => fields,
    };
    assert(fields =~= report_fields(view));
    let ghost before = output@;
    output.push(0x1b);
    output.push(0x5c);
    proof {
        reveal(written);
        assert(output@ =~= before + seq![0x1bu8, 0x5cu8]);
    }
    output
}

/// The values read so far.
struct Draft {
    version: Option<u64>,
    state: Option<State>,
    agent: Option<AgentId>,
    seq: Option<u64>,
    visible: Option<Flags>,
    exited: Option<bool>,
    message: Option<String>,
}

/// The value read for a key, next to the value that the fields give it.
spec fn read<T>(found: Option<T>, given: Option<Seq<u8>>, meaning: spec_fn(Seq<u8>) -> Option<T>) -> bool {
    match found {
        Some(value) => given is Some && meaning(given->0) == Some(value),
        None => given is None,
    }
}

impl Draft {
    /// The draft holds what the fields say, and nothing speaks against them yet.
    spec fn gathers(self, fields: Seq<Seq<u8>>) -> bool {
        &&& unambiguous(fields)
        &&& read(self.version, lookup(fields, encode_utf8("v"@)), |v: Seq<u8>| version_of(v))
        &&& read(self.state, lookup(fields, encode_utf8("state"@)), |v: Seq<u8>| state_of(v))
        &&& read(
            agent_view(self.agent),
            lookup(fields, encode_utf8("agent"@)),
            |v: Seq<u8>| agent_of(v),
        )
        &&& read(self.seq, lookup(fields, encode_utf8("seq"@)), |v: Seq<u8>| seq_of(v))
        &&& read(self.visible, lookup(fields, encode_utf8("visible"@)), |v: Seq<u8>| flags_of(v))
        &&& read(self.exited, lookup(fields, encode_utf8("exited"@)), |v: Seq<u8>| exited_of(v))
        &&& read(
            text_view(self.message),
            lookup(fields, encode_utf8("message"@)),
            |v: Seq<u8>| message_of(v),
        )
    }
}

/// The field alone rules a report out.
spec fn malformed(text: Seq<u8>) -> bool {
    ||| !text.contains(0x3d)
    ||| assigns(text, encode_utf8("v"@)) && version_of(assigned(text, encode_utf8("v"@))) is None
    ||| assigns(text, encode_utf8("state"@)) && state_of(assigned(text, encode_utf8("state"@))) is None
    ||| assigns(text, encode_utf8("agent"@)) && agent_of(assigned(text, encode_utf8("agent"@))) is None
    ||| assigns(text, encode_utf8("seq"@)) && seq_of(assigned(text, encode_utf8("seq"@))) is None
    ||| assigns(text, encode_utf8("visible"@)) && flags_of(
        assigned(text, encode_utf8("visible"@)),
    ) is None
    ||| assigns(text, encode_utf8("exited"@)) && exited_of(
        assigned(text, encode_utf8("exited"@)),
    ) is None
    ||| assigns(text, encode_utf8("message"@)) && message_of(
        assigned(text, encode_utf8("message"@)),
    ) is None
}

/// No report begins with these fields.
spec fn hopeless(fields: Seq<Seq<u8>>) -> bool {
    ||| !unambiguous(fields)
    ||| exists|index: int| 0 <= index < fields.len() && malformed(#[trigger] fields[index])
}

pub(crate) proof fn lemma_lookup_absent(fields: Seq<Seq<u8>>, key: Seq<u8>)
    ensures
        lookup(fields, key) is None <==> (forall|index: int|
            0 <= index < fields.len() ==> !assigns(#[trigger] fields[index], key)),
    decreases fields.len(),
{
    if fields.len() > 0 {
        let shorter = fields.drop_last();
        lemma_lookup_absent(shorter, key);
        assert(fields.last() == fields[fields.len() - 1]);
        if lookup(fields, key) is None {
            assert forall|index: int| 0 <= index < fields.len() implies !assigns(
                #[trigger] fields[index],
                key,
            ) by {
                if index < fields.len() - 1 {
                    assert(shorter[index] == fields[index]);
                }
            }
        } else if lookup(shorter, key) is Some {
            let index = choose|index: int|
                0 <= index < shorter.len() && assigns(#[trigger] shorter[index], key);
            assert(assigns(fields[index], key));
        }
    }
}

pub(crate) proof fn lemma_lookup_unique(fields: Seq<Seq<u8>>, key: Seq<u8>, index: int)
    requires
        at_most_once(fields, key),
        0 <= index < fields.len(),
        assigns(fields[index], key),
    ensures
        lookup(fields, key) == Some(assigned(fields[index], key)),
    decreases fields.len(),
{
    if index < fields.len() - 1 {
        let shorter = fields.drop_last();
        assert(fields.last() == fields[fields.len() - 1]);
        assert(!assigns(fields[fields.len() - 1], key));
        assert forall|first: int, second: int|
            0 <= first < second < shorter.len() && #[trigger] assigns(
                shorter[first],
                key,
            ) implies !(#[trigger] assigns(shorter[second], key)) by {
            assert(assigns(fields[first], key));
            assert(fields[second] == shorter[second]);
        }
        assert(shorter[index] == fields[index]);
        lemma_lookup_unique(shorter, key, index);
    }
}

pub(crate) proof fn lemma_lookup_push(fields: Seq<Seq<u8>>, text: Seq<u8>, key: Seq<u8>)
    ensures
        lookup(fields.push(text), key) == (if assigns(text, key) {
            Some(assigned(text, key))
        } else {
            lookup(fields, key)
        }),
        at_most_once(fields, key) ==> (at_most_once(fields.push(text), key) <==> !(assigns(
            text,
            key,
        ) && lookup(fields, key) is Some)),
        at_most_once(fields.push(text), key) ==> at_most_once(fields, key),
{
    let longer = fields.push(text);
    assert(longer.drop_last() =~= fields);
    lemma_lookup_absent(fields, key);
    if at_most_once(longer, key) {
        assert forall|first: int, second: int|
            0 <= first < second < fields.len() && #[trigger] assigns(
                fields[first],
                key,
            ) implies !(#[trigger] assigns(fields[second], key)) by {
            assert(longer[first] == fields[first]);
            assert(longer[second] == fields[second]);
        }
    }
    if at_most_once(fields, key) {
        if assigns(text, key) && lookup(fields, key) is Some {
            let index = choose|index: int|
                0 <= index < fields.len() && assigns(#[trigger] fields[index], key);
            assert(assigns(longer[index], key));
            assert(assigns(longer[fields.len() as int], key));
        } else {
            assert forall|first: int, second: int|
                0 <= first < second < longer.len() && #[trigger] assigns(
                    longer[first],
                    key,
                ) implies !(#[trigger] assigns(longer[second], key)) by {
                assert(longer[first] == fields[first]);
                if second < fields.len() {
                    assert(longer[second] == fields[second]);
                }
            }
        }
    }
}

proof fn lemma_hopeless_stays(fields: Seq<Seq<u8>>, length: int)
    requires
        0 <= length <= fields.len(),
        hopeless(fields.take(length)),
    ensures
        report_of(fields) is None,
{
    let prefix = fields.take(length);
    if unambiguous(fields) {
        assert forall|key: Seq<u8>| #[trigger] at_most_once(fields, key) implies at_most_once(
            prefix,
            key,
        ) by {
            assert forall|first: int, second: int|
                0 <= first < second < prefix.len() && #[trigger] assigns(
                    prefix[first],
                    key,
                ) implies !(#[trigger] assigns(prefix[second], key)) by {
                assert(assigns(fields[first], key));
                assert(fields[second] == prefix[second]);
            }
        }
        assert forall|index: int| 0 <= index < prefix.len() implies (
        #[trigger] prefix[index]).contains(0x3d) by {
            assert(fields[index].contains(0x3d));
        }
        assert(unambiguous(prefix));
        let index = choose|index: int|
            0 <= index < prefix.len() && malformed(#[trigger] prefix[index]);
        let text = fields[index];
        assert(text == prefix[index]);
        assert(text.contains(0x3d));
        if assigns(text, encode_utf8("v"@)) {
            lemma_lookup_unique(fields, encode_utf8("v"@), index);
        }
        if assigns(text, encode_utf8("state"@)) {
            lemma_lookup_unique(fields, encode_utf8("state"@), index);
        }
        if assigns(text, encode_utf8("agent"@)) {
            lemma_lookup_unique(fields, encode_utf8("agent"@), index);
        }
        if assigns(text, encode_utf8("seq"@)) {
            lemma_lookup_unique(fields, encode_utf8("seq"@), index);
        }
        if assigns(text, encode_utf8("visible"@)) {
            lemma_lookup_unique(fields, encode_utf8("visible"@), index);
        }
        if assigns(text, encode_utf8("exited"@)) {
            lemma_lookup_unique(fields, encode_utf8("exited"@), index);
        }
        if assigns(text, encode_utf8("message"@)) {
            lemma_lookup_unique(fields, encode_utf8("message"@), index);
        }
    }
}

/// The value that the field gives `key`, if it does.
fn value_for<'a>(text: &'a [u8], key: &str) -> (value: Option<&'a [u8]>)
    ensures
        value is Some <==> assigns(text@, encode_utf8(key@)),
        value matches Some(bytes) ==> bytes@ == assigned(text@, encode_utf8(key@)),
{
    let name = key.as_bytes();
    let length: usize = name.len();
    let ghost opening = encode_utf8(key@).push(0x3d);
    if text.len() <= length || text[length] != 0x3d {
        assert(opening.is_prefix_of(text@) ==> text@[length as int] == opening[length as int]);
        return None;
    }
    if !bytes_are(&text[0..length], key) {
        assert(opening.is_prefix_of(text@) ==> text@.subrange(0, length as int) =~= encode_utf8(
            key@,
        ));
        return None;
    }
    assert(opening =~= text@.subrange(0, length + 1));
    Some(&text[length + 1..text.len()])
}

fn parse_agent(value: &[u8]) -> (agent: Result<AgentId, Error>)
    ensures
        agent is Ok <==> agent_of(value@) is Some,
        agent matches Ok(id) ==> agent_of(value@) == Some(id@),
{
    let mut bytes: Vec<u8> = Vec::new();
    bytes.extend_from_slice(value);
    assert(bytes@ =~= value@);
    match String::from_utf8(bytes) {
        Ok(text) => {
            proof {
                encode_utf8_decode_utf8(text@);
            }
            AgentId::new(text.as_str())
        },
        Err(_) => Err(Error),
    }
}

fn parse_exited(value: &[u8]) -> (exited: Result<bool, Error>)
    ensures
        exited == match exited_of(value@) {
            Some(found) => Ok(found),
            None => Err(Error),
        },
{
    if bytes_are(value, "0") {
        Ok(false)
    } else if bytes_are(value, "1") {
        Ok(true)
    } else {
        Err(Error)
    }
}

impl Draft {
    /// Takes one more field in.
    fn take(&mut self, text: &[u8], Ghost(fields): Ghost<Seq<Seq<u8>>>) -> (taken: Result<(), Error>)
        requires
            old(self).gathers(fields),
        ensures
            taken is Ok ==> final(self).gathers(fields.push(text@)),
            taken is Err ==> hopeless(fields.push(text@)),
    {
        proof {
            lemma_lookup_push(fields, text@, encode_utf8("v"@));
            lemma_lookup_push(fields, text@, encode_utf8("state"@));
            lemma_lookup_push(fields, text@, encode_utf8("agent"@));
            lemma_lookup_push(fields, text@, encode_utf8("seq"@));
            lemma_lookup_push(fields, text@, encode_utf8("visible"@));
            lemma_lookup_push(fields, text@, encode_utf8("exited"@));
            lemma_lookup_push(fields, text@, encode_utf8("message"@));
            assert(fields.push(text@)[fields.len() as int] == text@);
        }
        if !holds_byte(text, 0x3d) {
            return Err(Error);
        }
        assert forall|index: int| 0 <= index < fields.push(text@).len() implies (
        #[trigger] fields.push(text@)[index]).contains(0x3d) by {
            if index < fields.len() {
                assert(fields[index].contains(0x3d));
            }
        }
        match value_for(text, "v") {
            Some(value) => {
                if self.version.is_some() || !bytes_are(value, "1") {
                    return Err(Error);
                }
                self.version = Some(PROTOCOL_VERSION);
            },
            None => {},
        }
        match value_for(text, "state") {
            Some(value) => {
                if self.state.is_some() {
                    return Err(Error);
                }
                let parsed: Result<State, Error> = parse_state(value);
                match parsed {
                    Ok(found) => {
                        self.state = Some(found);
                    },
                    Err(error) => {
                        return Err(error);
                    },
                }
            },
            None => {},
        }
        match value_for(text, "agent") {
            Some(value) => {
                if self.agent.is_some() {
                    return Err(Error);
                }
                let parsed: Result<AgentId, Error> = parse_agent(value);
                match parsed {
                    Ok(found) => {
                        self.agent = Some(found);
                    },
                    Err(error) => {
                        return Err(error);
                    },
                }
            },
            None => {},
        }
        match value_for(text, "seq") {
            Some(value) => {
                if self.seq.is_some() {
                    return Err(Error);
                }
                let parsed: Result<u64, Error> = match parse_digits(value, u64::MAX) {
                    Some(number) => Ok(number),
                    None => Err(Error),
                };
                match parsed {
                    Ok(found) => {
                        self.seq = Some(found);
                    },
                    Err(error) => {
                        return Err(error);
                    },
                }
            },
            None => {},
        }
        match value_for(text, "visible") {
            Some(value) => {
                if self.visible.is_some() {
                    return Err(Error);
                }
                let parsed: Result<Flags, Error> = parse_flags(value);
                match parsed {
                    Ok(found) => {
                        self.visible = Some(found);
                    },
                    Err(error) => {
                        return Err(error);
                    },
                }
            },
            None => {},
        }
        match value_for(text, "exited") {
            Some(value) => {
                if self.exited.is_some() {
                    return Err(Error);
                }
                let parsed: Result<bool, Error> = parse_exited(value);
                match parsed {
                    Ok(found) => {
                        self.exited = Some(found);
                    },
                    Err(error) => {
                        return Err(error);
                    },
                }
            },
            None => {},
        }
        match value_for(text, "message") {
            Some(value) => {
                if self.message.is_some() {
                    return Err(Error);
                }
                let parsed: Result<String, Error> = percent_decode(value);
                match parsed {
                    Ok(found) => {
                        self.message = Some(found);
                    },
                    Err(error) => {
                        return Err(error);
                    },
                }
            },
            None => {},
        }
        Ok(())
    }
}

/// Reads a report from a complete OSC string or from the payload of one.
pub fn parse(input: &[u8]) -> (report: Result<Report, Error>)
    ensures
        report is Ok <==> parsed(input@) is Some,
        report matches Ok(value) ==> parsed(input@) == Some(value@),
{
    if input.len() > MAX_REPORT_BYTES {
        return Err(Error);
    }
    let payload = match strip_frame(input) {
        Ok(payload) => payload,
        Err(error) => {
            return Err(error);
        },
    };
    let parts = split_bytes(payload, 0x3b);
    let ghost all = split(payload@, 0x3b);
    proof {
        lemma_split_nonempty(payload@, 0x3bu8);
    }
    if !bytes_are(parts[0], "7877") {
        return Err(Error);
    }
    let ghost fields = all.skip(1);
    let mut draft = Draft {
        version: None,
        state: None,
        agent: None,
        seq: None,
        visible: None,
        exited: None,
        message: None,
    };
    assert(fields.take(0) =~= Seq::empty());
    for index in 1..parts.len()
        invariant
            parts@.len() == all.len(),
            parts@.len() > 0,
            forall|position: int|
                0 <= position < parts@.len() ==> (#[trigger] parts@[position])@ == all[position],
            fields == all.skip(1),
            parsed(input@) == report_of(fields),
            draft.gathers(fields.take(index - 1)),
    {
        let text: &[u8] = parts[index];
        let ghost before = fields.take(index - 1);
        assert(fields.take(index as int) =~= before.push(text@));
        match draft.take(text, Ghost(before)) {
            Ok(()) => {},
            Err(error) => {
                proof {
                    lemma_hopeless_stays(fields, index as int);
                }
                return Err(error);
            },
        }
    }
    assert(fields.take(fields.len() as int) =~= fields);
    let state = match draft.state {
        Some(state) => state,
        None => {
            return Err(Error);
        },
    };
    let seq: u64 = match draft.seq {
        Some(seq) => seq,
        None => {
            return Err(Error);
        },
    };
    let visible = match draft.visible {
        Some(visible) => visible,
        None => Flags::default(),
    };
    let exited = match draft.exited {
        Some(exited) => exited,
        None => false,
    };
    Report::new(state, draft.agent, seq, visible, exited, draft.message)
}

} // verus!
