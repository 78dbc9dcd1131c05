//! Event records: what they hold, how they are framed, and when their sink is written to.
use crate::osc::{agent_view, state_name, state_word, text_view, AgentId, Flags, State};
use crate::state::{later, Nanos};
use crate::text::{lemma_texts_push, texts};
use vstd::prelude::*;

verus! {

/// The longest record, its line feed counted.
pub const MAX_RECORD_BYTES: usize = 2048;

/// How long a sink that failed is left alone.
pub const RETRY: Nanos = 1_000_000_000;

/// The record of a state.
#[derive(Debug, PartialEq, Eq)]
pub struct EventLine {
    pub state: String,
    pub previous: Option<String>,
    pub agent: Option<String>,
    pub seq: u64,
    pub pid: Option<i32>,
    pub code: Option<i32>,
    pub title: Option<String>,
    pub visible: Vec<String>,
    pub exited: bool,
}

/// The record of an agent that came, or of none that is left.
#[derive(Debug, PartialEq, Eq)]
pub struct AgentLine {
    pub agent: Option<String>,
    pub pid: Option<i32>,
}

/// The record of the end of the wrapped command.
#[derive(Debug, PartialEq, Eq)]
pub struct ExitLine {
    pub code: i32,
}

/// A record.
#[derive(Debug, PartialEq, Eq)]
pub enum Record {
    State(EventLine),
    Agent(AgentLine),
    Exit(ExitLine),
}

/// A record in mathematical terms.
#[verifier::ext_equal]
pub enum RecordView {
    State {
        state: Seq<char>,
        previous: Option<Seq<char>>,
        agent: Option<Seq<char>>,
        seq: u64,
        pid: Option<i32>,
        code: Option<i32>,
        title: Option<Seq<char>>,
        visible: Seq<Seq<char>>,
        exited: bool,
    },
    Agent { agent: Option<Seq<char>>, pid: Option<i32> },
    Exit { exit_code: i32 },
}

impl View for Record {
    type V = RecordView;

    open spec fn view(&self) -> RecordView {
        match *self {
            Record::State(line) => RecordView::State {
                state: line.state@,
                previous: text_view(line.previous),
                agent: text_view(line.agent),
                seq: line.seq,
                pid: line.pid,
                code: line.code,
                title: text_view(line.title),
                visible: texts(line.visible@),
                exited: line.exited,
            },
            Record::Agent(line) => RecordView::Agent {
                agent: text_view(line.agent),
                pid: line.pid,
            },
            Record::Exit(line) => RecordView::Exit { exit_code: line.code },
        }
    }
}

/// Records in mathematical terms.
pub open spec fn record_views(records: Seq<Record>) -> Seq<RecordView> {
    Seq::new(records.len(), |index: int| records[index]@)
}

/// The names of the flags that are set.
pub open spec fn flag_words(flags: Flags) -> Seq<Seq<char>> {
    (if flags.idle {
        seq!["idle"@]
    } else {
        seq![]
    }) + (if flags.blocker {
        seq!["blocker"@]
    } else {
        seq![]
    }) + (if flags.working {
        seq!["working"@]
    } else {
        seq![]
    })
}

/// The record of a state, with the title that was on the screen.
pub open spec fn state_record(
    state: State,
    previous: Option<State>,
    agent: Option<Seq<char>>,
    seq: u64,
    visible: Flags,
    exited: bool,
    title: Seq<char>,
) -> RecordView {
    RecordView::State {
        state: state_word(state),
        previous: match previous {
            Some(value) => Some(state_word(value)),
            None => None,
        },
        agent,
        seq,
        pid: None,
        code: None,
        title: Some(title),
        visible: flag_words(visible),
        exited,
    }
}

fn flag_names(flags: Flags) -> (names: Vec<String>)
    ensures
        texts(names@) == flag_words(flags),
{
    let mut names: Vec<String> = Vec::new();
    assert(texts(names@) =~= Seq::empty());
    if flags.idle {
        let name = "idle".to_owned();
        proof {
            lemma_texts_push(names@, name);
        }
        names.push(name);
    }
    if flags.blocker {
        let name = "blocker".to_owned();
        proof {
            lemma_texts_push(names@, name);
        }
        names.push(name);
    }
    if flags.working {
        let name = "working".to_owned();
        proof {
            lemma_texts_push(names@, name);
        }
        names.push(name);
    }
    assert(texts(names@) =~= flag_words(flags));
    names
}

fn agent_name(agent: &Option<AgentId>) -> (name: Option<String>)
    ensures
        text_view(name) == agent_view(*agent),
{
    match agent {
        Some(id) => Some(id.as_str().to_owned()),
        None => None,
    }
}

/// Makes the record of a state.
pub fn state_line(
    state: State,
    previous: Option<State>,
    agent: &Option<AgentId>,
    seq: u64,
    visible: Flags,
    exited: bool,
    title: &str,
) -> (record: Record)
    ensures
        record@ == state_record(
            state,
            previous,
            agent_view(*agent),
            seq,
            visible,
            exited,
            title@,
        ),
{
    let previous_name = match previous {
        Some(value) => Some(state_name(value).to_owned()),
        None => None,
    };
    Record::State(
        EventLine {
            state: state_name(state).to_owned(),
            previous: previous_name,
            agent: agent_name(agent),
            seq,
            pid: None,
            code: None,
            title: Some(title.to_owned()),
            visible: flag_names(visible),
            exited,
        },
    )
}

/// Makes the record of an agent, or of its absence.
pub fn agent_line(agent: Option<&AgentId>, pid: Option<i32>) -> (record: Record)
    ensures
        record@ == (RecordView::Agent {
            agent: match agent {
                Some(id) => Some(id@),
                None => None,
            },
            pid,
        }),
{
    Record::Agent(
        AgentLine {
            agent: match agent {
                Some(id) => Some(id.as_str().to_owned()),
                None => None,
            },
            pid,
        },
    )
}

/// Makes the record of the end.
pub fn exit_line(code: i32) -> (record: Record)
    ensures
        record@ == (RecordView::Exit { exit_code: code }),
{
    Record::Exit(ExitLine { code })
}

/// Frames a record that was written as JSON: a line feed ends it. A record that is too long is
/// rejected.
pub fn encode(json: Vec<u8>) -> (line: Option<Vec<u8>>)
    ensures
        match line {
            Some(bytes) => json@.len() < MAX_RECORD_BYTES && bytes@ == json@.push(0x0a),
            None => json@.len() >= MAX_RECORD_BYTES,
        },
{
    if json.len() >= MAX_RECORD_BYTES {
        return None;
    }
    let mut line = json;
    line.push(0x0a);
    Some(line)
}

/// A sink in mathematical terms: whether there is a target, when to look for one again, and how
/// many records were dropped.
#[verifier::ext_equal]
pub struct SinkView {
    pub connected: bool,
    pub retry_at: Nanos,
    pub dropped: u64,
}

impl SinkView {
    /// The sink after an attempt to find a target.
    pub open spec fn opened(self, found: bool, now: Nanos) -> SinkView {
        SinkView {
            connected: found,
            retry_at: if found {
                self.retry_at
            } else {
                later(now, RETRY)
            },
            ..self
        }
    }

    /// The sink after an attempt to write a record. A record that was not written whole is
    /// dropped, and with it the target: a fragment cannot share a stream with another record.
    pub open spec fn wrote(self, whole: bool, now: Nanos) -> SinkView {
        if whole {
            self
        } else {
            SinkView {
                connected: false,
                retry_at: later(now, RETRY),
                dropped: if self.dropped == u64::MAX {
                    self.dropped
                } else {
                    (self.dropped + 1) as u64
                },
            }
        }
    }
}

/// Where records go, as far as it is decided here.
#[derive(Debug)]
pub struct Sink {
    connected: bool,
    retry_at: Nanos,
    dropped: u64,
}

impl View for Sink {
    type V = SinkView;

    closed spec fn view(&self) -> SinkView {
        SinkView { connected: self.connected, retry_at: self.retry_at, dropped: self.dropped }
    }
}

impl Sink {
    /// A sink without a target, to be looked for at once.
    pub fn new(now: Nanos) -> (sink: Self)
        ensures
            sink@ == (SinkView { connected: false, retry_at: now, dropped: 0 }),
    {
        Sink { connected: false, retry_at: now, dropped: 0 }
    }

    /// Whether a target is to be looked for.
    pub fn wants_target(&self, now: Nanos) -> (wants: bool)
        ensures
            wants == (!self@.connected && now >= self@.retry_at),
    {
        !self.connected && now >= self.retry_at
    }

    /// Whether there is a target.
    pub fn connected(&self) -> (connected: bool)
        ensures
            connected == self@.connected,
    {
        self.connected
    }

    /// How many records were dropped.
    pub fn dropped(&self) -> (dropped: u64)
        ensures
            dropped == self@.dropped,
    {
        self.dropped
    }

    /// Takes note of an attempt to find a target.
    pub fn opened(&mut self, found: bool, now: Nanos)
        ensures
            final(self)@ == old(self)@.opened(found, now),
    {
        self.connected = found;
        if !found {
            self.retry_at = retry_after(now);
        }
    }

    /// Takes note of an attempt to write a record of the given length: of how many bytes were
    /// written, where any were.
    pub fn wrote(&mut self, written: Option<usize>, length: usize, now: Nanos)
        ensures
            final(self)@ == old(self)@.wrote(written == Some(length), now),
    {
        let whole = match written {
            Some(count) => count == length,
            None => false,
        };
        if !whole {
            if self.dropped < u64::MAX {
                self.dropped = self.dropped + 1;
            }
            self.connected = false;
            self.retry_at = retry_after(now);
        }
    }
}

fn retry_after(now: Nanos) -> (at: Nanos)
    ensures
        at == later(now, RETRY),
{
    if RETRY > u64::MAX - now {
        u64::MAX
    } else {
        now + RETRY
    }
}

/// A record that was not written whole is followed by none on the same target: a new one is looked
/// for, and not before the sink was left alone for a while.
pub proof fn fragments_end_their_target(sink: SinkView, now: Nanos)
    ensures
        ({
            let after = sink.wrote(false, now);
            &&& !after.connected
            &&& after.retry_at == later(now, RETRY)
            &&& sink.dropped < u64::MAX ==> after.dropped == sink.dropped + 1
        }),
{
}

} // verus!
