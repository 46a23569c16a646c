use gemini_assistant::ask::{commit_notice, deadline_secs, AskAction, AskEvent, AskPhase};
use gemini_assistant::session::{encode_audio, ServerEvent};

#[test]
fn a_question_is_recorded_and_sent_by_the_second_press() {
    let mut phase = AskPhase::Recording;
    assert_eq!(phase.on_event(AskEvent::Mic(vec![1, 2])), AskAction::SendAudio(encode_audio(&[1, 2])));
    assert_eq!(phase.on_event(AskEvent::SendPressed), AskAction::Commit { hit_cap: false });
    assert_eq!(phase, AskPhase::Answering);
    assert_eq!(phase.on_event(AskEvent::Mic(vec![3])), AskAction::Nothing);
    assert_eq!(phase.on_event(AskEvent::SendPressed), AskAction::Nothing);
    assert_eq!(phase.on_event(AskEvent::Deadline), AskAction::Nothing);
}

#[test]
fn a_forgotten_question_is_sent_at_the_deadline() {
    let mut phase = AskPhase::Recording;
    assert_eq!(phase.on_event(AskEvent::Deadline), AskAction::Commit { hit_cap: true });
    assert_eq!(commit_notice(true), "Reached the max question length — sending.");
    assert_eq!(commit_notice(false), "Thinking…");
}

#[test]
fn one_answer_is_played() {
    for end in [
        ServerEvent::TurnComplete,
        ServerEvent::GenerationComplete,
        ServerEvent::GoAway,
        ServerEvent::Disconnected(None),
        ServerEvent::Closed,
    ] {
        let mut phase = AskPhase::Answering;
        assert_eq!(phase.on_event(AskEvent::Server(ServerEvent::Audio(Some(vec![4])))), AskAction::Play(vec![4]));
        assert_eq!(phase.on_event(AskEvent::Server(ServerEvent::Other)), AskAction::Nothing);
        assert_eq!(phase.on_event(AskEvent::Server(end)), AskAction::Finish);
        assert_eq!(phase, AskPhase::Done);
        assert_eq!(phase.on_event(AskEvent::Server(ServerEvent::Audio(Some(vec![5])))), AskAction::Nothing);
    }
}

#[test]
fn an_error_is_reported() {
    let mut phase = AskPhase::Answering;
    assert_eq!(
        phase.on_event(AskEvent::Server(ServerEvent::Error("quota".into()))),
        AskAction::Fail("ask error: quota".into())
    );
    assert_eq!(phase, AskPhase::Done);
}

#[test]
fn a_question_lasts_at_least_a_second() {
    assert_eq!(deadline_secs(0), 1);
    assert_eq!(deadline_secs(60), 60);
}
