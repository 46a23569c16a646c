use gemini_assistant::config::{
    config_path, env_key_path, load_api_key, model_from_str, voice_from_str, Config, GeminiModel, MissingApiKey, Overrides,
    Voice, DEFAULT_MODEL,
};
use gemini_assistant::rounding::Double;

fn no_overrides() -> Overrides {
    Overrides { model: None, reminder_secs: None, vad_threshold: None }
}

#[test]
fn default_config_has_verified_model_and_search_on() {
    let config = Config::default();
    assert_eq!(config.model, DEFAULT_MODEL);
    assert!(config.google_search);
    assert_eq!(config.reminder_secs, 600);
}

#[test]
fn default_config_has_the_documented_values() {
    let config = Config::default();
    assert_eq!(config.model, "models/gemini-3.1-flash-live-preview");
    assert_eq!(config.voice, None);
    assert!(config.system_instruction.starts_with("You are a fast, concise voice assistant"));
    assert_eq!(config.context_window_target_tokens, 16_000);
    assert_eq!(f64::from_bits(config.vad_threshold.bits), 400.0);
    assert_eq!(config.screenshot_max_edge, 1024);
    assert_eq!(config.screenshot_quality, 80);
    assert_eq!(config.ask_max_secs, 60);
}

#[test]
fn load_from_missing_file_returns_defaults() {
    let config = Config::load(None, no_overrides());
    assert_eq!(config, Config::default());
}

#[test]
fn load_from_file_reads_saved_values() {
    let custom = Config {
        model: "models/custom-test".to_string(),
        reminder_secs: 99,
        ..Config::default()
    };
    let loaded = Config::load(Some(custom), no_overrides());
    assert_eq!(loaded.model, "models/custom-test");
    assert_eq!(loaded.reminder_secs, 99);
}

#[test]
fn env_vars_override_file_values() {
    let loaded = Config::load(
        Some(Config::default()),
        Overrides {
            model: Some("models/env-override".to_string()),
            reminder_secs: Some("5".to_string()),
            vad_threshold: "123.5".parse::<f64>().ok().map(|t| Double { bits: t.to_bits() }),
        },
    );

    assert_eq!(loaded.model, "models/env-override");
    assert_eq!(loaded.reminder_secs, 5);
    assert_eq!(f64::from_bits(loaded.vad_threshold.bits), 123.5);
}

#[test]
fn an_override_that_is_no_number_is_ignored() {
    for s in ["", "five", "-1", " 5", "18446744073709551616"] {
        let loaded = Config::load(
            None,
            Overrides { model: None, reminder_secs: Some(s.to_string()), vad_threshold: None },
        );
        assert_eq!(loaded, Config::default());
    }
}

#[test]
fn model_from_str_maps_known_ids_and_falls_back_to_custom() {
    assert_eq!(model_from_str("models/gemini-2.0-flash-live-001"), GeminiModel::Gemini2_0FlashLive);
    assert_eq!(
        model_from_str("models/gemini-live-2.5-flash-native-audio"),
        GeminiModel::GeminiLive2_5FlashNativeAudio
    );
    assert_eq!(model_from_str(DEFAULT_MODEL), GeminiModel::Custom(DEFAULT_MODEL.to_string()));
}

#[test]
fn voice_from_str_maps_known_names_and_falls_back_to_custom() {
    assert_eq!(voice_from_str("Kore"), Voice::Kore);
    assert_eq!(voice_from_str("Someone"), Voice::Custom("Someone".to_string()));
}

#[test]
fn every_known_voice_has_its_name() {
    assert_eq!(voice_from_str("Aoede"), Voice::Aoede);
    assert_eq!(voice_from_str("Charon"), Voice::Charon);
    assert_eq!(voice_from_str("Fenrir"), Voice::Fenrir);
    assert_eq!(voice_from_str("Puck"), Voice::Puck);
    assert_eq!(voice_from_str("puck"), Voice::Custom("puck".to_string()));
}

#[test]
fn config_resolves_gemini_model_and_voice() {
    let config = Config { voice: Some("Aoede".to_string()), ..Config::default() };
    assert_eq!(config.gemini_model(), GeminiModel::Custom(DEFAULT_MODEL.to_string()));
    assert_eq!(config.gemini_voice(), Some(Voice::Aoede));

    let config = Config::default();
    assert_eq!(config.gemini_voice(), None);
}

#[test]
fn load_api_key_reads_from_env_file() {
    let text = "# comment\nGEMINI_API_KEY=file-key-123\n\n";
    assert_eq!(load_api_key(Some(text), Some("should-be-ignored".to_string())).unwrap(), "file-key-123");
}

#[test]
fn load_api_key_falls_back_to_env_var() {
    let result = load_api_key(None, Some("env-var-key".to_string()));
    assert_eq!(result.unwrap(), "env-var-key");
}

#[test]
fn load_api_key_errors_when_neither_source_has_it() {
    assert!(load_api_key(None, None).is_err());
    assert_eq!(load_api_key(Some("OTHER=1\n"), None), Err(MissingApiKey));
    assert_eq!(
        MissingApiKey.message(),
        "GEMINI_API_KEY not set and no key found in ~/.config/gemini-assistant/env"
    );
}

#[test]
fn the_first_key_that_is_not_empty_counts() {
    let text = "GEMINI_API_KEY=\n  GEMINI_API_KEY=  \n\tGEMINI_API_KEY= first \r\nGEMINI_API_KEY=second";
    assert_eq!(load_api_key(Some(text), None).unwrap(), "first");
    assert_eq!(load_api_key(Some("GEMINI_API_KEY="), Some("env".to_string())).unwrap(), "env");
    assert_eq!(load_api_key(Some("xGEMINI_API_KEY=a"), Some(String::new())).unwrap(), "");
}

#[test]
fn paths_follow_the_environment() {
    assert_eq!(config_path(Some("/xdg"), Some("/home/u")), "/xdg/gemini-assistant/config.json");
    assert_eq!(config_path(None, Some("/home/u")), "/home/u/.config/gemini-assistant/config.json");
    assert_eq!(config_path(None, None), "/tmp/.config/gemini-assistant/config.json");
    assert_eq!(env_key_path(None, Some("/home/u")), "/home/u/.config/gemini-assistant/env");
}
