//! What signals, exit codes and the command line come to.
use crate::cli::{planned, Cli, PlanView};
use crate::emit::events::SinkView;
use crate::emit::title::TitlesView;
use crate::fixture::{as_expected, checked_agent, header_value, FixtureView};
use crate::numeral::{codes_of_chars, decimal, decimal_chars, decimal_round_trip, unsigned};
use crate::osc::State;
use crate::pty::{child_code, last_number, named_signal, signal_plan, status_of, Signal, Step};
use crate::rules::eval::VerdictView;
use crate::rules::schema::RuleState;
use crate::session_turns::{label_of, marked, sets_title};
use crate::state::Nanos;
use crate::text::{lemma_split_after_separator, occurs, occurs_at, texts};
use vstd::prelude::*;

verus! {

/// How often a signal is passed on, and to which group, among the steps.
pub open spec fn forwards(steps: Seq<Step>) -> Seq<Step> {
    steps.filter(|step: Step| step is Forward)
}

/// A signal that is the child's is passed on once, to the group that there is to pass it on to; a
/// change of the size and a request for a record are the wrapper's own and are not passed on.
pub proof fn signals_are_passed_on(signal: Signal, target: Option<i32>, raw: bool)
    ensures
        forwards(signal_plan(signal, target, raw)) == match (signal, target) {
            (Signal::Resize, _) => Seq::<Step>::empty(),
            (Signal::Fixture, _) => Seq::<Step>::empty(),
            (_, Some(pgid)) => seq![Step::Forward(pgid)],
            (_, None) => Seq::<Step>::empty(),
        },
        signal_plan(signal, target, raw).contains(Step::PassSize) <==> signal is Resize,
        signal_plan(signal, target, raw).contains(Step::Record) <==> signal is Fixture,
        signal_plan(signal, target, raw).contains(Step::Stop) <==> signal is Suspend,
        signal_plan(signal, target, raw).contains(Step::TakeTerminal) <==> signal is Suspend
            || signal is Continue && !raw,
        signal_plan(signal, target, raw).contains(Step::ReleaseTerminal) <==> signal is Suspend,
{
    reveal(Seq::filter);
    reveal_with_fuel(Seq::filter, 6);
    let steps = signal_plan(signal, target, raw);
    let kept = |step: Step| step is Forward;
    signals_call_for_steps_in_order(signal, target, raw);
    match signal {
        Signal::Suspend => {
            let last = steps.drop_last();
            let middle = last.drop_last();
            let first = middle.drop_last();
            match target {
                Some(pgid) => {
                    assert(first =~= seq![Step::Forward(pgid)]);
                    assert(first.drop_last() =~= Seq::empty());
                },
                None => {
                    assert(first =~= Seq::empty());
                },
            }
        },
        _ => {
            if steps.len() > 0 {
                let first = steps.drop_last();
                if first.len() > 0 {
                    assert(first.drop_last() =~= Seq::empty());
                } else {
                    assert(first =~= Seq::empty());
                }
            }
        },
    }
    assert(forwards(steps) =~= match (signal, target) {
        (Signal::Resize, _) => Seq::<Step>::empty(),
        (Signal::Fixture, _) => Seq::<Step>::empty(),
        (_, Some(pgid)) => seq![Step::Forward(pgid)],
        (_, None) => Seq::<Step>::empty(),
    });
}

/// The steps that a signal calls for, one by one: a group that goes on gets its signal after the
/// terminal was taken, and one that is stopped before the terminal is released.
pub proof fn signals_call_for_steps_in_order(signal: Signal, target: Option<i32>, raw: bool)
    ensures
        ({
            let steps = signal_plan(signal, target, raw);
            let first: int = if target is Some {
                1
            } else {
                0
            };
            match signal {
                Signal::Resize => steps.len() == 1 && steps[0] is PassSize,
                Signal::Fixture => steps.len() == 1 && steps[0] is Record,
                Signal::Suspend => steps.len() == first + 3 && steps[first] is ReleaseTerminal
                    && steps[first + 1] is Stop && steps[first + 2] is TakeTerminal && (target
                    is Some ==> steps[0] == Step::Forward(target->0)),
                Signal::Continue => {
                    let taken: int = if raw {
                        0
                    } else {
                        1
                    };
                    steps.len() == taken + first && (!raw ==> steps[0] is TakeTerminal) && (target
                        is Some ==> steps[taken] == Step::Forward(target->0))
                },
                Signal::Other => steps.len() == first && (target is Some ==> steps[0]
                    == Step::Forward(target->0)),
            }
        }),
{
}

/// A suspend is passed on first; then the terminal gets its mode back, the wrapper stops, and takes
/// the terminal again when it goes on.
pub proof fn suspends_go_in_order(target: i32, raw: bool)
    ensures
        signal_plan(Signal::Suspend, Some(target), raw) == seq![
            Step::Forward(target),
            Step::ReleaseTerminal,
            Step::Stop,
            Step::TakeTerminal,
        ],
{
    assert(signal_plan(Signal::Suspend, Some(target), raw) =~= seq![
        Step::Forward(target),
        Step::ReleaseTerminal,
        Step::Stop,
        Step::TakeTerminal,
    ]);
}

proof fn lemma_last_number(before: Seq<char>, number: nat)
    requires
        number <= 127,
    ensures
        last_number(before.push(' ') + decimal_chars(number)) == Some(number as u32),
{
    let digits = decimal_chars(number);
    decimal_round_trip(number);
    assert forall|index: int| 0 <= index < digits.len() implies codes_of_chars(digits)[index]
        == #[trigger] decimal(number)[index] && digits[index] != ' ' by {
        assert(0x30 <= decimal(number)[index] <= 0x39);
    }
    assert(!digits.contains(' ')) by {
        if digits.contains(' ') {
            let at = choose|at: int| 0 <= at < digits.len() && digits[at] == ' ';
            assert(0x30 <= decimal(number)[at] <= 0x39);
        }
    }
    assert(codes_of_chars(digits) =~= decimal(number));
    assert(0x30 <= decimal(number)[0] <= 0x39);
    assert(unsigned(codes_of_chars(digits)) == Some(number));
    lemma_split_after_separator(before, ' ', digits);
}

/// A description that gives the number of the signal behind a colon, or in place of a name, names
/// that signal, and a command that it ended has 128 and that number for its code.
pub proof fn numbered_signals_are_known(text: Seq<char>, number: nat, code: u32)
    requires
        number <= 127,
    ensures
        named_signal((text + ": "@) + decimal_chars(number)) == Some(number as u32),
        named_signal("Signal "@ + decimal_chars(number)) == Some(number as u32),
        child_code(Some((text + ": "@) + decimal_chars(number)), code) == 128 + number,
        child_code(Some("Signal "@ + decimal_chars(number)), code) == 128 + number,
{
    reveal_strlit(": ");
    reveal_strlit("Signal ");
    let digits = decimal_chars(number);
    let colon = (text + ": "@) + digits;
    assert(colon =~= text.push(':').push(' ') + digits);
    lemma_last_number(text.push(':'), number);
    assert(colon.subrange(text.len() as int, text.len() as int + 2) =~= ": "@);
    assert(occurs_at(colon, ": "@, text.len() as int));
    let plain = "Signal "@ + digits;
    let start = "Signal "@.drop_last();
    assert(plain =~= start.push(' ') + digits);
    lemma_last_number(start, number);
    assert(plain.subrange(0, 7) =~= "Signal "@);
    assert(occurs_at(plain, "Signal "@, 0));
}

/// A command that no known signal ended has its own code.
pub proof fn codes_are_kept(signal: Seq<char>, code: u32)
    ensures
        child_code(None, code) == code,
        named_signal(signal) is None ==> child_code(Some(signal), code) == code,
        named_signal(signal) matches Some(number) ==> child_code(Some(signal), code) == 128 + number,
{
}

/// A code from 0 to 255 is its own status; every other code has the largest.
pub proof fn statuses_fit(code: int)
    ensures
        0 <= code <= 255 ==> status_of(code) == code,
        code < 0 || code > 255 ==> status_of(code) == 255,
{
}

/// A command line without an action runs the command that it gives, word for word; or else a login
/// shell, the user's or `/bin/sh`. It is wrapped, unless it is given in a command that is wrapped
/// already.
pub proof fn commands_are_run_as_given(cli: Cli, shell: Option<Seq<char>>, nested: bool)
    ensures
        ({
            let plan = planned(cli, shell, nested);
            &&& cli.action matches Some(action) ==> plan == PlanView::Perform(action)
            &&& cli.action is None ==> (plan is Run <==> nested) && (plan is Wrap <==> !nested)
            &&& cli.action is None ==> (match plan {
                PlanView::Run { command, argv } => runs(cli, shell, command, argv),
                PlanView::Wrap { command, argv } => runs(cli, shell, command, argv),
                _ => false,
            })
        }),
{
    let given = texts(cli.command@);
    if cli.command@.len() > 0 {
        assert(seq![given[0]] + given.skip(1) =~= given);
    }
}

/// The command and its arguments are those that the command line gives, or a login shell.
pub open spec fn runs(
    cli: Cli,
    shell: Option<Seq<char>>,
    command: Seq<char>,
    argv: Seq<Seq<char>>,
) -> bool {
    if cli.command@.len() > 0 {
        seq![command] + argv == texts(cli.command@)
    } else {
        command == (match shell {
            Some(path) => path,
            None => "/bin/sh"@,
        }) && argv == seq!["-l"@]
    }
}

/// A sink whose record was not written whole, or whose target was not found, is without one and is
/// left alone for one second; one whose record was written stays as it is.
pub proof fn failed_sinks_are_left_alone(sink: SinkView, now: Nanos)
    requires
        now <= u64::MAX - 1_000_000_000,
    ensures
        sink.wrote(true, now) == sink,
        !sink.wrote(false, now).connected,
        sink.wrote(false, now).retry_at == now + 1_000_000_000,
        sink.dropped < u64::MAX ==> sink.wrote(false, now).dropped == sink.dropped + 1,
        !sink.opened(false, now).connected,
        sink.opened(false, now).retry_at == now + 1_000_000_000,
        sink.opened(false, now).dropped == sink.dropped,
        sink.opened(true, now).connected,
        sink.opened(true, now).dropped == sink.dropped,
{
}

/// A title is shown as the mode says, behind the sign of the state, and the child's own is
/// remembered for the end.
pub proof fn titles_are_shown_as_the_mode_says(
    titles: TitlesView,
    original: Seq<char>,
    state: State,
    agent: Option<Seq<char>>,
)
    ensures
        ({
            let (after, shown) = titles.observed(original, state, agent);
            &&& titles.mode is Never ==> shown is None && after.changed == titles.changed
            &&& titles.mode !is Never ==> shown is Some && after.changed && sets_title(
                shown->0,
                marked(state, label_of(titles.mode, original, agent)),
            ) && after.restoring() is Some && sets_title(after.restoring()->0, original)
            &&& after.original == original
            &&& after.mode == titles.mode
        }),
{
    crate::session_turns::lemma_marks(state, label_of(titles.mode, original, agent));
}

/// A header line reads back: `# key: value`, with or without the space before the value.
pub proof fn headers_read_back(key: Seq<char>, value: Seq<char>)
    ensures
        header_value("# "@ + key + ": "@ + value, key) == Some(value),
        value.len() == 0 || value[0] != ' ' ==> header_value("# "@ + key + ":"@ + value, key)
            == Some(value),
{
    reveal_strlit("# ");
    reveal_strlit(":");
    reveal_strlit(": ");
    let start = "# "@ + key + ":"@;
    let spaced = "# "@ + key + ": "@ + value;
    assert(spaced.subrange(0, start.len() as int) =~= start);
    let rest = spaced.skip(start.len() as int);
    assert(rest[0] == ' ');
    assert(rest.skip(1) =~= value);
    let tight = "# "@ + key + ":"@ + value;
    assert(tight.subrange(0, start.len() as int) =~= start);
    assert(tight.skip(start.len() as int) =~= value);
}

/// A fixture passes exactly where its expectation names the state of the verdict and its match the
/// rule that decided, or `none`.
pub proof fn fixtures_pass_as_expected(fixture: FixtureView, verdict: VerdictView)
    ensures
        as_expected(fixture, verdict) <==> {
            &&& fixture.expect == match verdict.state {
                RuleState::Working => "working"@,
                RuleState::Blocked => "blocked"@,
                RuleState::Idle => "idle"@,
                RuleState::Skip => "skip"@,
            }
            &&& fixture.matched == match verdict.rule {
                Some(rule) => rule,
                None => "none"@,
            }
        },
        checked_agent(fixture, None) == fixture.agent,
        forall|id: Seq<char>| #[trigger] checked_agent(fixture, Some(id)) == id,
{
}

proof fn lemma_absent(text: Seq<char>, needle: Seq<char>)
    requires
        needle.len() > 0,
        !text.contains(needle[0]),
    ensures
        !occurs(text, needle),
{
    if occurs(text, needle) {
        let at = choose|at: int| occurs_at(text, needle, at);
        assert(text.subrange(at, at + needle.len())[0] == needle[0]);
        assert(text[at] == needle[0]);
    }
}

proof fn lemma_real_time_name(number: nat)
    ensures
        ({
            let name = "Real-time signal "@ + decimal_chars(number);
            !name.contains(':') && !name.contains('S') && !name.contains('U')
        }),
{
    reveal_strlit("Real-time signal ");
    let digits = decimal_chars(number);
    let label = "Real-time signal "@;
    let name = label + digits;
    decimal_round_trip(number);
    assert forall|index: int| 0 <= index < name.len() implies name[index] != ':' && name[index] != 'S'
        && name[index] != 'U' by {
        if index >= label.len() {
            assert(name[index] == digits[index - label.len()]);
            assert(0x30 <= decimal(number)[index - label.len()] <= 0x39);
        } else {
            assert(name[index] == label[index]);
        }
    }
}

proof fn lemma_counted_from_the_first(name: Seq<char>, number: u32)
    requires
        last_number(name) == Some(number),
        number <= 127,
        !occurs(name, ": "@),
        !occurs(name, "Signal "@),
        !occurs(name, "Unknown signal "@),
        occurs(name, "Real-time signal "@),
    ensures
        named_signal(name) == Some((34 + number) as u32),
{
}

/// Real-time signals are counted from the first of them, which is 34.
pub proof fn real_time_signals_are_counted(number: nat, code: u32)
    requires
        number <= 127,
    ensures
        named_signal("Real-time signal "@ + decimal_chars(number)) == Some((34 + number) as u32),
        child_code(Some("Real-time signal "@ + decimal_chars(number)), code) == 162 + number,
{
    let digits = decimal_chars(number);
    let label = "Real-time signal "@;
    let name = label + digits;
    lemma_real_time_name(number);
    assert(last_number(name) == Some(number as u32) && occurs(name, label)) by {
        reveal_strlit("Real-time signal ");
        assert(name =~= label.drop_last().push(' ') + digits);
        lemma_last_number(label.drop_last(), number);
        assert(name.subrange(0, label.len() as int) =~= label);
        assert(occurs_at(name, label, 0));
    }
    assert(!occurs(name, ": "@)) by {
        reveal_strlit(": ");
        lemma_absent(name, ": "@);
    }
    assert(!occurs(name, "Signal "@)) by {
        reveal_strlit("Signal ");
        lemma_absent(name, "Signal "@);
    }
    assert(!occurs(name, "Unknown signal "@)) by {
        reveal_strlit("Unknown signal ");
        lemma_absent(name, "Unknown signal "@);
    }
    lemma_counted_from_the_first(name, number as u32);
}

/// The limits and the spans of time that everything goes by.
pub proof fn limits_are_fixed()
    ensures
        crate::osc::MAX_AGENT_BYTES == 64,
        crate::osc::MAX_MESSAGE_BYTES == 128,
        crate::osc::MAX_REPORT_BYTES == 1024,
        crate::osc::PROTOCOL_VERSION == 1,
        crate::emit::events::MAX_RECORD_BYTES == 2048,
        crate::emit::events::RETRY == 1_000_000_000,
        crate::callbacks::MAX_TITLE_CHARS == 256,
        crate::boundary::MAX_CONTROL_STRING_BYTES == 65536,
        crate::screen::SCROLLBACK_LINES == 65535,
        crate::rules::bundle::MAX_RULE_FILES == 256,
        crate::rules::bundle::MAX_RULE_FILE_BYTES == 1024 * 1024,
        crate::rules::bundle::MAX_FIXTURE_BYTES == 4 * 1024 * 1024,
        crate::observe::MAX_REPLY == 1024 * 1024,
        crate::observe::MAX_CAPTURE == 128 * 1024,
        crate::platform::probe::MISSES == 6,
        crate::platform::probe::REPROBE == 5_000_000_000,
        crate::platform::probe::ACQUISITION == 8_000_000_000,
        crate::platform::probe::EAGER_ACQUISITION == 1_500_000_000,
        crate::platform::probe::ACQUISITION_PROBE == 2_000_000_000,
        crate::state::standard_config().confirmation == 100_000_000,
        crate::state::standard_config().hold_cap == 700_000_000,
        crate::state::standard_config().startup_grace == 3_000_000_000,
        crate::state::standard_config().heartbeat == 800_000_000,
        crate::state::standard_config().confirmations == 3,
{
}

/// A side of a terminal has at least one cell, and else as many as were reported.
pub proof fn sides_have_a_cell(cells: u16)
    ensures
        cells > 0 ==> crate::platform::at_least_one(cells) == cells,
        crate::platform::at_least_one(0) == 1,
{
}

} // verus!
