use zor::emit::title::{Mode, Titles};
use zor::osc::State;

#[test]
fn title_modes_append_and_restore() {
    let mut titles = Titles::new(Mode::Prefix);
    assert_eq!(
        titles.observe("task", State::Working, Some("agent")),
        Some(b"\x1b]2;\xe2\x97\x8f task\x1b\\".to_vec())
    );
    assert_eq!(titles.restore(), Some(b"\x1b]2;task\x1b\\".to_vec()));
    assert!(Titles::new(Mode::Never)
        .observe("task", State::Idle, None)
        .is_none());
}

#[test]
fn titles_are_replaced_and_left_alone() {
    let mut replaced = Titles::new(Mode::Replace);
    assert_eq!(
        replaced.observe("task", State::Blocked, Some("agent")),
        Some("\x1b]2;\u{25d0} agent\x1b\\".as_bytes().to_vec())
    );
    assert_eq!(
        replaced.observe("next", State::NoAgent, None),
        Some(b"\x1b]2;\x1b\\".to_vec())
    );
    assert_eq!(replaced.restore(), Some(b"\x1b]2;next\x1b\\".to_vec()));
    let mut never = Titles::new(Mode::Never);
    assert!(never.observe("task", State::Working, None).is_none());
    assert!(never.restore().is_none());
}

#[test]
fn an_absent_agent_has_no_sign() {
    let mut titles = Titles::new(Mode::Prefix);
    assert_eq!(
        titles.observe("task", State::NoAgent, None),
        Some(b"\x1b]2;task\x1b\\".to_vec())
    );
    assert_eq!(
        titles.observe("task", State::Idle, None),
        Some("\x1b]2;\u{25cb} task\x1b\\".as_bytes().to_vec())
    );
}
