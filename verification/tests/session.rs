use gemini_assistant::config::{Config, GeminiModel, Voice};
use gemini_assistant::session::{
    build_ask_config, build_resumable_config, build_session_config, clip_bytes, debug_enabled, decode_audio, encode_audio,
    pad_clip, reminder_due, reminder_text, LiveAction, LiveEvent, LiveSession, MicAction, OneShot, ServerEvent, TurnError,
    TurnEvent, TurnStep, MAX_RECONNECT_FAILURES,
};
use gemini_assistant::transcript::{Session, Turn};

fn live() -> LiveSession {
    LiveSession::new(Session::started_at(1, 2))
}

fn server(event: ServerEvent) -> LiveEvent {
    LiveEvent::Server(event)
}

#[test]
fn build_session_config_uses_configured_model_and_defaults() {
    let cfg = Config::default();
    let session_config = build_session_config("test-key", &cfg);
    assert!(session_config.ws_url().contains("test-key"));
}

#[test]
fn build_session_config_maps_custom_model_id() {
    let cfg = Config { model: "models/some-preview-id".to_string(), ..Config::default() };
    assert_eq!(cfg.gemini_model(), GeminiModel::Custom("models/some-preview-id".to_string()));
    let config = build_session_config("test-key", &cfg);
    assert_eq!(config.model_uri(), "models/some-preview-id");
}

#[test]
fn build_session_config_respects_voice_override() {
    let cfg = Config { voice: Some("Kore".to_string()), ..Config::default() };
    assert_eq!(cfg.gemini_voice(), Some(Voice::Kore));
    let config = build_session_config("test-key", &cfg);
    let speech = config.generation_config.speech_config.unwrap();
    let voice = speech.voice_config.unwrap().prebuilt_voice_config.unwrap();
    assert_eq!(voice.voice_name, "Kore");
}

#[test]
fn known_models_keep_their_ids() {
    for id in ["models/gemini-2.0-flash-live-001", "models/gemini-live-2.5-flash-native-audio"] {
        let cfg = Config { model: id.to_string(), ..Config::default() };
        assert_eq!(build_session_config("k", &cfg).model_uri(), id);
    }
}

#[test]
fn settings_reach_the_connection() {
    let cfg = Config {
        system_instruction: "be brief".to_string(),
        context_window_target_tokens: 1234,
        google_search: true,
        ..Config::default()
    };
    let config = build_session_config("k", &cfg);
    assert!(config.input_audio_transcription.is_some());
    assert!(config.output_audio_transcription.is_some());
    assert!(format!("{:?}", config.system_instruction).contains("be brief"));
    let window = config.context_window_compression.unwrap().sliding_window.unwrap();
    assert_eq!(window.target_tokens, Some(1234));
    assert_eq!(config.tools.len(), 1);
    assert!(config.generation_config.speech_config.is_none());
    assert!(config.session_resumption.is_none());
    assert!(config.realtime_input_config.is_none());

    let quiet = build_session_config("k", &Config { google_search: false, ..Config::default() });
    assert!(quiet.tools.is_empty());
}

#[test]
fn a_session_is_resumed_by_its_handle() {
    let config = build_resumable_config("k", &Config::default(), Some("h-1".to_string()));
    assert_eq!(config.session_resumption.unwrap().handle, Some("h-1".to_string()));
    let config = build_resumable_config("k", &Config::default(), None);
    assert_eq!(config.session_resumption.unwrap().handle, None);
}

#[test]
fn a_question_turns_voice_detection_off() {
    let config = build_ask_config("k", &Config::default());
    let detection = config.realtime_input_config.unwrap().automatic_activity_detection.unwrap();
    assert_eq!(detection.disabled, Some(true));
}

#[test]
fn audio_survives_the_way_to_bytes_and_back() {
    let samples = vec![0i16, 1, -1, 256, i16::MIN, i16::MAX];
    let bytes = encode_audio(&samples);
    assert_eq!(bytes.len(), 12);
    let expected: Vec<u8> = samples.iter().flat_map(|s| s.to_le_bytes()).collect();
    assert_eq!(bytes, expected);
    assert_eq!(encode_audio(&[0x1234, -2]), vec![0x34, 0x12, 0xfe, 0xff]);
    assert_eq!(decode_audio(&bytes), Some(samples));
    assert_eq!(decode_audio(&[]), Some(Vec::new()));
    assert_eq!(decode_audio(&bytes[..3]), None);
    let every: Vec<i16> = (i16::MIN..=i16::MAX).collect();
    let mut behind = vec![0u8];
    behind.extend(encode_audio(&every));
    assert_eq!(decode_audio(&behind[1..]), Some(every));
}

#[test]
fn a_clip_is_followed_by_silence() {
    let padded = pad_clip(&[5, 6]);
    assert_eq!(padded.len(), 2 + 12_800);
    assert_eq!(&padded[..3], &[5, 6, 0]);
    assert_eq!(clip_bytes(&[5, 6]), encode_audio(&padded));
}

#[test]
fn a_turn_is_recorded_when_it_is_complete() {
    let mut s = live();
    s.on_event(server(ServerEvent::InputTranscription("what ".into())), false);
    s.on_event(server(ServerEvent::InputTranscription("time".into())), false);
    s.on_event(server(ServerEvent::OutputTranscription("noon".into())), false);
    assert_eq!(s.on_event(server(ServerEvent::TurnComplete), false), LiveAction::SaveRecord);
    assert_eq!(s.record.turns.len(), 1);
    assert_eq!(s.record.turns[0].question, "what time");
    assert_eq!(s.record.turns[0].answer, "noon");
    assert_eq!(s.on_event(server(ServerEvent::TurnComplete), false), LiveAction::Nothing);
    assert_eq!(s.record.turns.len(), 1);
}

#[test]
fn the_record_keeps_what_it_began_with() {
    let mut record = Session::started_at(1, 2);
    record.turns.push(Turn { question: "then".to_string(), answer: "yes".to_string(), timestamp: 5 });
    let mut session = LiveSession::new(record);
    session.on_pause_flag(true);
    session.on_event(server(ServerEvent::InputTranscription("now?".to_string())), false);
    session.on_event(server(ServerEvent::TurnComplete), false);
    assert_eq!(session.record.started, 1);
    assert_eq!(session.record.turns.len(), 2);
    assert_eq!(session.record.turns[0].timestamp, 5);
    assert_eq!(session.record.turns[1].question, "now?");
}

#[test]
fn audio_is_played_and_barge_in_clears_it() {
    let mut s = live();
    assert_eq!(s.on_event(server(ServerEvent::Audio(Some(vec![1, 2]))), false), LiveAction::Play(vec![1, 2]));
    assert_eq!(s.on_event(server(ServerEvent::Audio(None)), false), LiveAction::Nothing);
    assert_eq!(s.on_event(server(ServerEvent::Interrupted), false), LiveAction::ClearPlayback);
}

#[test]
fn a_paused_session_sends_nothing() {
    let mut s = live();
    assert_eq!(s.on_event(LiveEvent::Mic(vec![7]), false), LiveAction::SendAudio(encode_audio(&[7])));
    assert_eq!(s.on_event(LiveEvent::Mic(vec![7]), true), LiveAction::Nothing);
}

#[test]
fn a_frame_is_sent_where_there_is_one() {
    let mut s = live();
    assert_eq!(s.on_event(LiveEvent::Frame(Some(vec![9])), true), LiveAction::SendFrame(vec![9]));
    assert_eq!(s.on_event(LiveEvent::Frame(None), false), LiveAction::Nothing);
}

#[test]
fn a_lost_connection_is_resumed_from_the_last_handle() {
    for lost in [
        ServerEvent::GoAway,
        ServerEvent::Disconnected(Some("bye".into())),
        ServerEvent::Closed,
        ServerEvent::Error("oops".into()),
    ] {
        let mut s = live();
        s.on_event(server(ServerEvent::ResumeHandle { handle: "h1".into(), resumable: true }), false);
        s.on_event(server(ServerEvent::ResumeHandle { handle: "h2".into(), resumable: true }), false);
        s.on_event(server(ServerEvent::ResumeHandle { handle: "h3".into(), resumable: false }), false);
        s.on_event(server(ServerEvent::ResumeHandle { handle: "".into(), resumable: true }), false);
        assert_eq!(
            s.on_event(server(lost), false),
            LiveAction::Reconnect { handle: Some("h2".into()), delay_secs: 0 }
        );
    }
}

#[test]
fn a_dead_network_is_retried_and_given_up() {
    let mut s = live();
    let mut delays = Vec::new();
    for _ in 1..MAX_RECONNECT_FAILURES {
        match s.on_event(LiveEvent::ReconnectFailed, false) {
            LiveAction::Reconnect { handle: None, delay_secs } => delays.push(delay_secs),
            other => panic!("{other:?}"),
        }
    }
    assert_eq!(delays, vec![1, 2, 4, 8]);
    assert_eq!(s.on_event(LiveEvent::ReconnectFailed, false), LiveAction::Stop);
}

#[test]
fn a_connection_resets_the_count_of_failures() {
    let mut s = live();
    for _ in 0..20 {
        assert_ne!(s.on_event(LiveEvent::ReconnectFailed, false), LiveAction::Stop);
        assert_eq!(s.on_event(LiveEvent::Reconnected, false), LiveAction::Nothing);
    }
}

#[test]
fn only_a_shutdown_ends_a_session_that_is_connected() {
    let mut s = live();
    assert_eq!(s.on_event(LiveEvent::Shutdown(false), false), LiveAction::Nothing);
    assert_eq!(s.on_event(server(ServerEvent::GenerationComplete), false), LiveAction::Nothing);
    assert_eq!(s.on_event(server(ServerEvent::Other), false), LiveAction::Nothing);
    assert_eq!(s.on_event(LiveEvent::Shutdown(true), false), LiveAction::Stop);
}

#[test]
fn the_microphone_follows_the_pause_flag() {
    let mut s = live();
    assert!(!s.was_paused);
    assert_eq!(s.on_pause_flag(false), MicAction::Keep);
    assert_eq!(s.on_pause_flag(true), MicAction::Release);
    assert_eq!(s.on_pause_flag(true), MicAction::Keep);
    assert_eq!(s.on_pause_flag(false), MicAction::Reopen);
}

#[test]
fn a_one_shot_turn_collects_both_sides() {
    let mut turn = OneShot::new();
    let step = |turn: &mut OneShot, e| turn.on_event(TurnEvent::Server(e));
    assert_eq!(step(&mut turn, ServerEvent::InputTranscription("a".into())), TurnStep::Wait);
    assert_eq!(step(&mut turn, ServerEvent::OutputTranscription("b".into())), TurnStep::Wait);
    assert_eq!(step(&mut turn, ServerEvent::OutputTranscription("c".into())), TurnStep::Wait);
    assert_eq!(step(&mut turn, ServerEvent::Audio(Some(vec![3]))), TurnStep::Play(vec![3]));
    assert_eq!(step(&mut turn, ServerEvent::TurnComplete), TurnStep::Finish);
    assert_eq!(turn.result.input_transcript, "a");
    assert_eq!(turn.result.output_transcript, "bc");
}

#[test]
fn a_one_shot_turn_times_out_only_before_its_answer() {
    let mut turn = OneShot::new();
    assert_eq!(turn.on_event(TurnEvent::TimedOut), TurnStep::Fail(TurnError::TimedOut));
    turn.on_event(TurnEvent::Server(ServerEvent::GenerationComplete));
    assert_eq!(turn.on_event(TurnEvent::TimedOut), TurnStep::Finish);
}

#[test]
fn a_one_shot_turn_fails_with_its_session() {
    let mut turn = OneShot::new();
    assert_eq!(
        turn.on_event(TurnEvent::Server(ServerEvent::Error("e".into()))),
        TurnStep::Fail(TurnError::Session("e".into()))
    );
    assert_eq!(
        turn.on_event(TurnEvent::Server(ServerEvent::Disconnected(None))),
        TurnStep::Fail(TurnError::Disconnected(None))
    );
    assert_eq!(turn.on_event(TurnEvent::Server(ServerEvent::Closed)), TurnStep::Finish);
    assert_eq!(turn.on_event(TurnEvent::Server(ServerEvent::GoAway)), TurnStep::Wait);
}

#[test]
fn debug_output_is_on_unless_it_is_zero() {
    assert!(!debug_enabled(None));
    assert!(!debug_enabled(Some("0")));
    assert!(debug_enabled(Some("1")));
    assert!(debug_enabled(Some("")));
}

#[test]
fn reminders_come_in_time_or_never() {
    assert!(!reminder_due(0, u64::MAX));
    assert!(!reminder_due(600, 599));
    assert!(reminder_due(600, 600));
    assert!(reminder_text(true).contains("paused"));
    assert!(reminder_text(false).contains("live"));
}
