//! The command line, and what it asks for.
use crate::emit::title::Mode;
use vstd::prelude::*;

verus! {

/// How titles are to be changed.
#[derive(Clone, Copy, Debug, PartialEq, Eq, Structural)]
pub enum TitleMode {
    Never,
    Prefix,
    Replace,
}

impl Default for TitleMode {
    fn default() -> (mode: Self)
        ensures
            mode == TitleMode::Prefix,
    {
        TitleMode::Prefix
    }
}

/// Something to do in place of wrapping a command.
#[derive(Debug, PartialEq, Eq)]
pub enum Action {
    /// Evaluate a fixture.
    Check { fixture: String, agent: Option<String> },
    /// List the bundled rule sets.
    Agents,
    /// Observe a pane that a multiplexer owns.
    Observe { socket: String, pane: u32, pid: u32 },
}

/// The command line.
#[derive(Debug, PartialEq, Eq)]
pub struct Cli {
    pub events: Option<String>,
    pub title: TitleMode,
    pub no_osc: bool,
    pub rules: Vec<String>,
    pub agent: Option<String>,
    pub debug: bool,
    pub action: Option<Action>,
    pub command: Vec<String>,
}

/// What is to be done.
#[derive(Debug, PartialEq, Eq)]
pub enum Plan {
    Perform(Action),
    /// Wrap a command.
    Wrap { command: String, argv: Vec<String> },
    /// Run a command as it is, because it is wrapped already.
    Run { command: String, argv: Vec<String> },
}

/// What is to be done, in mathematical terms.
#[verifier::ext_equal]
pub enum PlanView {
    Perform(Action),
    Wrap { command: Seq<char>, argv: Seq<Seq<char>> },
    Run { command: Seq<char>, argv: Seq<Seq<char>> },
}

impl View for Plan {
    type V = PlanView;

    open spec fn view(&self) -> PlanView {
        match *self {
            Plan::Perform(action) => PlanView::Perform(action),
            Plan::Wrap { command, argv } => PlanView::Wrap {
                command: command@,
                argv: crate::text::texts(argv@),
            },
            Plan::Run { command, argv } => PlanView::Run {
                command: command@,
                argv: crate::text::texts(argv@),
            },
        }
    }
}

/// The command and its arguments: those that were given, or else a login shell.
pub open spec fn wrapped_command(command: Seq<String>, shell: Option<Seq<char>>) -> (
    Seq<char>,
    Seq<Seq<char>>,
) {
    if command.len() > 0 {
        (command[0]@, crate::text::texts(command).skip(1))
    } else {
        (
            match shell {
                Some(path) => path,
                None => "/bin/sh"@,
            },
            seq!["-l"@],
        )
    }
}

/// What a command line asks for, given the user's shell and whether it is given in a command that
/// is wrapped already.
pub open spec fn planned(cli: Cli, shell: Option<Seq<char>>, nested: bool) -> PlanView {
    match cli.action {
        Some(action) => PlanView::Perform(action),
        None => {
            let (command, argv) = wrapped_command(cli.command@, shell);
            if nested {
                PlanView::Run { command, argv }
            } else {
                PlanView::Wrap { command, argv }
            }
        },
    }
}

/// Plans what a command line asks for.
pub fn plan(cli: Cli, shell: Option<String>, nested: bool) -> (plan: Plan)
    ensures
        plan@ == planned(cli, crate::osc::text_view(shell), nested),
{
    match cli.action {
        Some(action) => {
            return Plan::Perform(action);
        },
        None => {},
    }
    let mut argv: Vec<String> = Vec::new();
    let command: String;
    if cli.command.len() > 0 {
        let given = &cli.command;
        command = given[0].clone();
        for index in 1..given.len()
            invariant
                crate::text::texts(argv@) == crate::text::texts(given@).subrange(1, index as int),
        {
            proof {
                crate::text::lemma_texts_push(argv@, given@[index as int]);
            }
            argv.push(given[index].clone());
            assert(crate::text::texts(argv@) =~= crate::text::texts(given@).subrange(
                1,
                index + 1,
            ));
        }
        assert(crate::text::texts(argv@) =~= crate::text::texts(given@).skip(1));
    } else {
        command = match shell {
            Some(path) => path,
            None => "/bin/sh".to_owned(),
        };
        let flag = "-l".to_owned();
        proof {
            crate::text::lemma_texts_push(argv@, flag);
        }
        argv.push(flag);
        assert(crate::text::texts(argv@) =~= seq!["-l"@]);
    }
    if nested {
        Plan::Run { command, argv }
    } else {
        Plan::Wrap { command, argv }
    }
}

/// The mode that the command line asks for.
pub fn title_mode(mode: TitleMode) -> (chosen: Mode)
    ensures
        chosen == match mode {
            TitleMode::Never => Mode::Never,
            TitleMode::Prefix => Mode::Prefix,
            TitleMode::Replace => Mode::Replace,
        },
{
    match mode {
        TitleMode::Never => Mode::Never,
        TitleMode::Prefix => Mode::Prefix,
        TitleMode::Replace => Mode::Replace,
    }
}

} // verus!
