use gemini_assistant::commands::{
    command_or_default, hand_over, on_signal, plan, Command, Plan, Role, Signal, SignalAction,
};
use gemini_assistant::pidfile::{read_pidfile, PidState};
use gemini_assistant::screenshot::Mode;

#[test]
fn default_command_is_toggle() {
    assert_eq!(command_or_default(None), Command::Toggle);
    assert_eq!(command_or_default(Some(Command::Status)), Command::Status);
}

#[test]
fn talk_and_its_alias_start_a_session() {
    for session in [None, Some((9, PidState::Live)), Some((9, PidState::Paused))] {
        assert_eq!(plan(Command::Toggle, session), Plan::Claim(Role::Session));
        assert_eq!(plan(Command::Talk, session), Plan::Claim(Role::Session));
    }
    assert_eq!(
        hand_over(Role::Session, 9),
        Plan::Send { pid: 9, signal: Signal::User1, notice: "toggled pause".to_string() }
    );
}

#[test]
fn end_terminates_the_session() {
    assert_eq!(
        plan(Command::End, Some((4242, PidState::Live))),
        Plan::Send { pid: 4242, signal: Signal::Terminate, notice: "stopping session (pid 4242)".to_string() }
    );
    assert_eq!(plan(Command::End, None), Plan::Print("no live session".to_string()));
}

#[test]
fn pause_toggles_the_microphone() {
    assert_eq!(
        plan(Command::Pause, Some((7, PidState::Paused))),
        Plan::Send { pid: 7, signal: Signal::User1, notice: "toggled pause".to_string() }
    );
    assert_eq!(plan(Command::Pause, None), Plan::Print("no live session".to_string()));
}

#[test]
fn status_names_the_state() {
    let print = |s: &str| Plan::Print(s.to_string());
    assert_eq!(plan(Command::Status, Some((7, PidState::Live))), print("live"));
    assert_eq!(plan(Command::Status, Some((7, PidState::Paused))), print("paused"));
    assert_eq!(plan(Command::Status, None), print("stopped"));
}

#[test]
fn look_needs_a_session() {
    let look = Command::Look { mode: Mode::Window };
    assert_eq!(plan(look.clone(), Some((7, PidState::Live))), Plan::Capture { mode: Mode::Window, pid: 7 });
    assert_eq!(plan(look, None), Plan::Print("no live session".to_string()));
}

#[test]
fn a_question_is_independent_of_a_session() {
    assert_eq!(plan(Command::Ask, Some((7, PidState::Live))), Plan::Claim(Role::Question));
    assert_eq!(
        hand_over(Role::Question, 8),
        Plan::Send { pid: 8, signal: Signal::User1, notice: "sending question".to_string() }
    );
}

#[test]
fn the_rest_is_handed_on() {
    assert_eq!(plan(Command::Last, None), Plan::PrintLastAnswer);
    assert_eq!(
        plan(Command::SendClip { path: "/tmp/clip.wav".to_string() }, None),
        Plan::PlayClip { path: "/tmp/clip.wav".to_string() }
    );
}

#[test]
fn signals_pause_and_resume_a_session() {
    match on_signal(Role::Session, 4242, false, Signal::User1) {
        SignalAction::SetPaused { paused, pidfile } => {
            assert!(paused);
            assert_eq!(read_pidfile(Some(&pidfile)), Some((4242, PidState::Paused)));
        }
        other => panic!("{other:?}"),
    }
    match on_signal(Role::Session, 4242, true, Signal::User1) {
        SignalAction::SetPaused { paused, pidfile } => {
            assert!(!paused);
            assert_eq!(read_pidfile(Some(&pidfile)), Some((4242, PidState::Live)));
        }
        other => panic!("{other:?}"),
    }
}

#[test]
fn signals_end_show_and_send() {
    for role in [Role::Session, Role::Question] {
        assert_eq!(on_signal(role, 1, false, Signal::Terminate), SignalAction::Stop);
        assert_eq!(on_signal(role, 1, true, Signal::Interrupt), SignalAction::Stop);
    }
    assert_eq!(on_signal(Role::Session, 1, true, Signal::User2), SignalAction::TakeFrame);
    assert_eq!(on_signal(Role::Question, 1, false, Signal::User1), SignalAction::SendQuestion);
    assert_eq!(on_signal(Role::Question, 1, false, Signal::User2), SignalAction::Nothing);
}

#[test]
fn only_end_stops_a_session() {
    let commands = [
        Command::Toggle,
        Command::Talk,
        Command::Pause,
        Command::Ask,
        Command::Look { mode: Mode::Full },
        Command::Status,
        Command::Last,
        Command::SendClip { path: "x".to_string() },
    ];
    for command in commands {
        if let Plan::Send { pid, signal, .. } = plan(command, Some((5, PidState::Live))) {
            assert_ne!(on_signal(Role::Session, pid, false, signal), SignalAction::Stop);
        }
    }
}
