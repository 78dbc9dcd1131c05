use zor::cli::{plan, title_mode, Action, Cli, Plan, TitleMode};
use zor::emit::title::Mode;

fn strings(values: &[&str]) -> Vec<String> {
    values.iter().map(|value| value.to_string()).collect()
}

fn line(action: Option<Action>, command: &[&str]) -> Cli {
    Cli {
        events: None,
        title: TitleMode::default(),
        no_osc: false,
        rules: vec![],
        agent: None,
        debug: false,
        action,
        command: strings(command),
    }
}

#[test]
fn a_command_is_wrapped_unless_it_is_already() {
    assert_eq!(
        plan(line(None, &["ls", "-l", "x"]), None, false),
        Plan::Wrap {
            command: "ls".to_owned(),
            argv: strings(&["-l", "x"])
        }
    );
    assert_eq!(
        plan(line(None, &["ls"]), None, true),
        Plan::Run {
            command: "ls".to_owned(),
            argv: vec![]
        }
    );
}

#[test]
fn a_login_shell_is_the_default() {
    assert_eq!(
        plan(line(None, &[]), Some("/bin/zsh".to_owned()), false),
        Plan::Wrap {
            command: "/bin/zsh".to_owned(),
            argv: strings(&["-l"])
        }
    );
    assert_eq!(
        plan(line(None, &[]), None, true),
        Plan::Run {
            command: "/bin/sh".to_owned(),
            argv: strings(&["-l"])
        }
    );
}

#[test]
fn an_action_takes_the_place_of_a_command() {
    assert_eq!(
        plan(line(Some(Action::Agents), &["ls"]), None, true),
        Plan::Perform(Action::Agents)
    );
}

#[test]
fn title_modes_correspond() {
    assert_eq!(TitleMode::default(), TitleMode::Prefix);
    assert_eq!(title_mode(TitleMode::Never), Mode::Never);
    assert_eq!(title_mode(TitleMode::Prefix), Mode::Prefix);
    assert_eq!(title_mode(TitleMode::Replace), Mode::Replace);
}
