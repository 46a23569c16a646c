//! A live session: how it is configured, and what it does about what happens.

use crate::config::{str_view, text_view, Config, GeminiModel, Settings, Voice};
use crate::audio::INPUT_SAMPLE_RATE;
use crate::text::{copy_text, decimal, push_text, same_text};
use crate::transcript::{Session, Turn};
use gemini_genai_rs::prelude::{AutomaticActivityDetection, SessionConfig};
use vstd::arithmetic::power2::{lemma2_to64, pow2};
use vstd::prelude::*;

verus! {

/// The configuration of a connection, as the client crate holds it.
#[verifier::external_type_specification]
#[verifier::external_body]
pub struct ExSessionConfig(gemini_genai_rs::prelude::SessionConfig);

/// What a configuration asks for, by the name of the setting.  A model is
/// always there; what else has the crate's default is left out.
pub uninterp spec fn requested(config: SessionConfig) -> Map<Seq<char>, Seq<char>>;

/// `SessionConfig::new` starts from the defaults, with an API key and the
/// crate's default model.
#[verifier::external_body]
fn new_config(api_key: &str) -> (r: SessionConfig)
    ensures
        requested(r) == map![
            "api_key"@ => api_key@,
            "model"@ => "models/gemini-live-2.5-flash-native-audio"@
        ],
{
    SessionConfig::new(api_key)
}

/// The id that a model has on the wire.
pub open spec fn model_id(model: GeminiModel) -> Seq<char> {
    match model {
        GeminiModel::Gemini2_0FlashLive => "models/gemini-2.0-flash-live-001"@,
        GeminiModel::GeminiLive2_5FlashNativeAudio => "models/gemini-live-2.5-flash-native-audio"@,
        GeminiModel::Custom(id) => id@,
    }
}

/// `SessionConfig::model` sets the model, and nothing else.
#[verifier::external_body]
fn with_model(config: SessionConfig, model: GeminiModel) -> (r: SessionConfig)
    ensures
        requested(r) == requested(config).insert("model"@, model_id(model)),
{
    config.model(match model {
        GeminiModel::Gemini2_0FlashLive => gemini_genai_rs::prelude::GeminiModel::Gemini2_0FlashLive,
        GeminiModel::GeminiLive2_5FlashNativeAudio => gemini_genai_rs::prelude::GeminiModel::GeminiLive2_5FlashNativeAudio,
        GeminiModel::Custom(id) => gemini_genai_rs::prelude::GeminiModel::Custom(id),
    })
}

/// `SessionConfig::system_instruction` sets the instruction, and nothing else.
#[verifier::external_body]
fn with_system_instruction(config: SessionConfig, instruction: &str) -> (r: SessionConfig)
    ensures
        requested(r) == requested(config).insert("system_instruction"@, instruction@),
{
    config.system_instruction(instruction)
}

/// `SessionConfig::enable_input_transcription` asks for the transcription of
/// what the user says, and sets nothing else.
#[verifier::external_body]
fn with_input_transcription(config: SessionConfig) -> (r: SessionConfig)
    ensures
        requested(r) == requested(config).insert("input_transcription"@, ""@),
{
    config.enable_input_transcription()
}

/// `SessionConfig::enable_output_transcription` asks for the transcription of
/// what the model says, and sets nothing else.
#[verifier::external_body]
fn with_output_transcription(config: SessionConfig) -> (r: SessionConfig)
    ensures
        requested(r) == requested(config).insert("output_transcription"@, ""@),
{
    config.enable_output_transcription()
}

/// `SessionConfig::context_window_compression` sets the number of tokens that
/// the sliding window is cut to, and nothing else.
#[verifier::external_body]
fn with_context_window(config: SessionConfig, target_tokens: u32) -> (r: SessionConfig)
    ensures
        requested(r) == requested(config).insert("context_window"@, decimal(target_tokens as nat)),
{
    config.context_window_compression(target_tokens)
}

/// The name that a voice has on the wire.
pub open spec fn voice_name(voice: Voice) -> Seq<char> {
    match voice {
        Voice::Aoede => "Aoede"@,
        Voice::Charon => "Charon"@,
        Voice::Fenrir => "Fenrir"@,
        Voice::Kore => "Kore"@,
        Voice::Puck => "Puck"@,
        Voice::Custom(name) => name@,
    }
}

/// `SessionConfig::voice` sets the voice, and nothing else.
#[verifier::external_body]
fn with_voice(config: SessionConfig, voice: Voice) -> (r: SessionConfig)
    ensures
        requested(r) == requested(config).insert("voice"@, voice_name(voice)),
{
    config.voice(match voice {
        Voice::Aoede => gemini_genai_rs::prelude::Voice::Aoede,
        Voice::Charon => gemini_genai_rs::prelude::Voice::Charon,
        Voice::Fenrir => gemini_genai_rs::prelude::Voice::Fenrir,
        Voice::Kore => gemini_genai_rs::prelude::Voice::Kore,
        Voice::Puck => gemini_genai_rs::prelude::Voice::Puck,
        Voice::Custom(name) => gemini_genai_rs::prelude::Voice::Custom(name),
    })
}

/// `SessionConfig::with_google_search` adds the search tool, and sets nothing
/// else.
#[verifier::external_body]
fn with_search(config: SessionConfig) -> (r: SessionConfig)
    ensures
        requested(r) == requested(config).insert("google_search"@, ""@),
{
    config.with_google_search()
}

/// Whether the server detects speech, as the request says it.
pub open spec fn vad_state(disabled: bool) -> Seq<char> {
    if disabled {
        "disabled"@
    } else {
        "enabled"@
    }
}

/// `SessionConfig::server_vad` switches the detection of speech on the server
/// off or on; it sets nothing else.
#[verifier::external_body]
fn with_server_vad(config: SessionConfig, disabled: bool) -> (r: SessionConfig)
    ensures
        requested(r) == requested(config).insert("server_vad"@, vad_state(disabled)),
{
    config.server_vad(AutomaticActivityDetection {
        disabled: Some(disabled),
        start_of_speech_sensitivity: None,
        end_of_speech_sensitivity: None,
        prefix_padding_ms: None,
        silence_duration_ms: None,
    })
}

/// What a request to resume asks for.
pub open spec fn resumption(handle: Option<Seq<char>>) -> Seq<char> {
    match handle {
        Some(h) => "handle: "@ + h,
        None => ""@,
    }
}

/// `SessionConfig::session_resumption` makes the session resumable, from
/// `handle` where there is one, and sets nothing else.
#[verifier::external_body]
fn with_resumption(config: SessionConfig, handle: Option<String>) -> (r: SessionConfig)
    ensures
        requested(r) == requested(config).insert("resumption"@, resumption(text_view(handle))),
{
    config.session_resumption(handle)
}

/// What a connection asks for, by the settings.
pub open spec fn session_request(api_key: Seq<char>, s: Settings) -> Map<Seq<char>, Seq<char>> {
    let base = map!["api_key"@ => api_key].insert("model"@, s.model).insert(
        "system_instruction"@,
        s.system_instruction,
    ).insert("input_transcription"@, ""@).insert("output_transcription"@, ""@).insert(
        "context_window"@,
        decimal(s.context_window_target_tokens),
    );
    let voiced = match s.voice {
        Some(name) => base.insert("voice"@, name),
        None => base,
    };
    if s.google_search {
        voiced.insert("google_search"@, ""@)
    } else {
        voiced
    }
}

/// The configuration of a session.
pub fn build_session_config(api_key: &str, cfg: &Config) -> (r: SessionConfig)
    ensures
        requested(r) == session_request(api_key@, cfg@),
{
    let mut config: SessionConfig = new_config(api_key);
    config = with_model(config, cfg.gemini_model());
    assert(requested(config) =~= map!["api_key"@ => api_key@].insert("model"@, cfg@.model));
    config = with_system_instruction(config, cfg.system_instruction.as_str());
    config = with_input_transcription(config);
    config = with_output_transcription(config);
    config = with_context_window(config, cfg.context_window_target_tokens);
    match cfg.gemini_voice() {
        Some(voice) => {
            config = with_voice(config, voice);
        },
        None => {},
    }
    if cfg.google_search {
        config = with_search(config);
    }
    config
}

/// What a connection asks for that the server can hand over to a new one.
pub open spec fn resumable_request(
    api_key: Seq<char>,
    s: Settings,
    handle: Option<Seq<char>>,
) -> Map<Seq<char>, Seq<char>> {
    session_request(api_key, s).insert("resumption"@, resumption(handle))
}

/// What the connection for a one-shot question asks for.
pub open spec fn ask_request(api_key: Seq<char>, s: Settings) -> Map<Seq<char>, Seq<char>> {
    session_request(api_key, s).insert("server_vad"@, "disabled"@)
}

/// The configuration of a session that the server can hand over to a new
/// connection; `handle` is the one to take over from.
pub fn build_resumable_config(api_key: &str, cfg: &Config, handle: Option<String>) -> (r: SessionConfig)
    ensures
        requested(r) == resumable_request(api_key@, cfg@, text_view(handle)),
{
    with_resumption(build_session_config(api_key, cfg), handle)
}

/// The configuration of a one-shot question: the server does not guess where
/// the question ends.
pub fn build_ask_config(api_key: &str, cfg: &Config) -> (r: SessionConfig)
    ensures
        requested(r) == ask_request(api_key@, cfg@),
{
    with_server_vad(build_session_config(api_key, cfg), true)
}

/// The settings reach the connection as they are configured: the model id and
/// the voice by name, search only where it is on, and transcription always.
pub proof fn law_settings_reach_the_connection(api_key: Seq<char>, s: Settings)
    ensures
        ({
            let m = session_request(api_key, s);
            &&& m.dom().contains("api_key"@) && m["api_key"@] == api_key
            &&& m.dom().contains("model"@) && m["model"@] == s.model
            &&& m.dom().contains("system_instruction"@) && m["system_instruction"@]
                == s.system_instruction
            &&& m.dom().contains("context_window"@) && m["context_window"@] == decimal(
                s.context_window_target_tokens,
            )
            &&& m.dom().contains("input_transcription"@)
            &&& m.dom().contains("output_transcription"@)
            &&& m.dom().contains("voice"@) <==> s.voice is Some
            &&& s.voice matches Some(name) ==> m["voice"@] == name
            &&& m.dom().contains("google_search"@) <==> s.google_search
            &&& forall|k: Seq<char>| #[trigger]
                m.dom().contains(k) ==> k == "api_key"@ || k == "model"@ || k == "system_instruction"@ || k
                    == "context_window"@ || k == "input_transcription"@ || k == "output_transcription"@ || k
                    == "voice"@ || k == "google_search"@
        }),
{
    reveal_strlit("api_key");
    reveal_strlit("model");
    reveal_strlit("system_instruction");
    reveal_strlit("input_transcription");
    reveal_strlit("output_transcription");
    reveal_strlit("context_window");
    reveal_strlit("voice");
    reveal_strlit("google_search");
    // Names of different lengths differ; two pairs differ in a character.
    assert("model"@[0] != "voice"@[0]);
    assert("api_key"@.len() == 7 && "model"@.len() == 5 && "system_instruction"@.len() == 18);
    assert("input_transcription"@.len() == 19 && "output_transcription"@.len() == 20);
    assert("context_window"@.len() == 14 && "voice"@.len() == 5 && "google_search"@.len() == 13);
}

/// A resumable connection asks for what every session asks for, and for its
/// handle besides: two handles make two requests.
pub proof fn law_resumption_asks_for_its_handle(
    api_key: Seq<char>,
    s: Settings,
    handle: Option<Seq<char>>,
    other: Option<Seq<char>>,
)
    ensures
        resumable_request(api_key, s, handle).remove("resumption"@) == session_request(api_key, s),
        resumable_request(api_key, s, handle).dom().contains("resumption"@),
        handle != other ==> resumable_request(api_key, s, handle) != resumable_request(api_key, s, other),
{
    lemma_own_settings(api_key, s);
    let (a, b) = (resumable_request(api_key, s, handle), resumable_request(api_key, s, other));
    assert(a.remove("resumption"@) =~= session_request(api_key, s));
    if a == b {
        reveal_strlit("handle: ");
        reveal_strlit("");
        assert(resumption(handle) == a["resumption"@] && resumption(other) == a["resumption"@]);
        match (handle, other) {
            (Some(h), Some(o)) => {
                assert(h =~= resumption(handle).skip(8));
                assert(o =~= resumption(other).skip(8));
            },
            _ => {},
        }
    }
}

/// A question asks for what every session asks for, and for the detection of
/// speech to be off besides.
pub proof fn law_question_asks_for_no_detection(api_key: Seq<char>, s: Settings)
    ensures
        ask_request(api_key, s).remove("server_vad"@) == session_request(api_key, s),
        ask_request(api_key, s).dom().contains("server_vad"@),
        ask_request(api_key, s)["server_vad"@] == "disabled"@,
{
    lemma_own_settings(api_key, s);
    assert(ask_request(api_key, s).remove("server_vad"@) =~= session_request(api_key, s));
}

/// Not every session sets these two.
proof fn lemma_own_settings(api_key: Seq<char>, s: Settings)
    ensures
        !session_request(api_key, s).dom().contains("resumption"@),
        !session_request(api_key, s).dom().contains("server_vad"@),
{
    law_settings_reach_the_connection(api_key, s);
    reveal_strlit("api_key");
    reveal_strlit("model");
    reveal_strlit("system_instruction");
    reveal_strlit("input_transcription");
    reveal_strlit("output_transcription");
    reveal_strlit("context_window");
    reveal_strlit("voice");
    reveal_strlit("google_search");
    reveal_strlit("resumption");
    reveal_strlit("server_vad");
    assert("resumption"@.len() == 10 && "server_vad"@.len() == 10);
    assert("api_key"@.len() == 7 && "model"@.len() == 5 && "system_instruction"@.len() == 18);
    assert("input_transcription"@.len() == 19 && "output_transcription"@.len() == 20);
    assert("context_window"@.len() == 14 && "voice"@.len() == 5 && "google_search"@.len() == 13);
}

/// The low (`i` even) or the high byte of sample `i / 2`, low byte first.
pub open spec fn pcm_byte(samples: Seq<i16>, i: int) -> int {
    let s = samples[i / 2];
    let u = if s < 0 {
        s + 65536
    } else {
        s as int
    };
    if i % 2 == 0 {
        u % 256
    } else {
        u / 256
    }
}

/// `bytes` are the bytes of `samples`, low byte first.
pub open spec fn is_little_endian(samples: Seq<i16>, bytes: Seq<u8>) -> bool {
    &&& bytes.len() == 2 * samples.len()
    &&& forall|i: int| 0 <= i < bytes.len() ==> #[trigger] bytes[i] == pcm_byte(samples, i)
}

/// The bytes of a sample spell it, up to a multiple of `2^16`, with the low byte
/// first, and there are no others.
pub proof fn law_bytes_spell_samples(samples: Seq<i16>, bytes: Seq<u8>)
    requires
        is_little_endian(samples, bytes),
    ensures
        bytes.len() == 2 * samples.len(),
        forall|i: int|
            0 <= i < samples.len() ==> (bytes[2 * i] + 256 * bytes[2 * i + 1] - #[trigger] samples[i]) % 65536 == 0,
{
    assert forall|i: int| 0 <= i < samples.len() implies (bytes[2 * i] + 256 * bytes[2 * i + 1]
        - #[trigger] samples[i]) % 65536 == 0 by {
        assert(bytes[2 * i] == pcm_byte(samples, 2 * i));
        assert(bytes[2 * i + 1] == pcm_byte(samples, 2 * i + 1));
    }
}

/// Sixteen-bit samples have one reading: different samples have different bytes.
pub proof fn law_audio_reads_back(a: Seq<i16>, b: Seq<i16>, bytes: Seq<u8>)
    requires
        is_little_endian(a, bytes),
        is_little_endian(b, bytes),
    ensures
        a == b,
{
    assert forall|i: int| 0 <= i < a.len() implies a[i] == b[i] by {
        assert(bytes[2 * i] == pcm_byte(a, 2 * i) && bytes[2 * i + 1] == pcm_byte(a, 2 * i + 1));
        assert(bytes[2 * i] == pcm_byte(b, 2 * i) && bytes[2 * i + 1] == pcm_byte(b, 2 * i + 1));
    }
    assert(a =~= b);
}

/// The bytes that samples are sent as: the Live API takes the low byte first,
/// whatever the machine does.
pub fn encode_audio(samples: &[i16]) -> (r: Vec<u8>)
    ensures
        is_little_endian(samples@, r@),
{
    let mut out: Vec<u8> = Vec::new();
    let mut i: usize = 0;
    while i < samples.len()
        invariant
            i <= samples@.len(),
            is_little_endian(samples@.take(i as int), out@),
        decreases samples@.len() - i,
    {
        let s: i32 = samples[i] as i32;
        let u: u32 = if s < 0 {
            (s + 65536) as u32
        } else {
            s as u32
        };
        out.push((u % 256) as u8);
        out.push((u / 256) as u8);
        i = i + 1;
    }
    assert(samples@.take(i as int) =~= samples@);
    out
}

/// `r` is what bytes are read as: samples, or nothing where a byte is left over.
pub open spec fn is_reading(bytes: Seq<u8>, r: Option<Vec<i16>>) -> bool {
    match r {
        Some(samples) => is_little_endian(samples@, bytes),
        None => bytes.len() % 2 == 1,
    }
}

/// Whatever samples were sent as bytes are what those bytes are read as.
pub proof fn law_audio_that_was_sent_is_read_back(sent: Seq<i16>, bytes: Seq<u8>, r: Option<Vec<i16>>)
    requires
        is_little_endian(sent, bytes),
        is_reading(bytes, r),
    ensures
        r matches Some(samples) && samples@ == sent,
{
    if r is Some {
        law_audio_reads_back(sent, r->0@, bytes);
    }
}

/// An even number of bytes is read, two for each sample, with the low byte first;
/// an odd number is not.
pub proof fn law_even_bytes_are_read(bytes: Seq<u8>, r: Option<Vec<i16>>)
    requires
        is_reading(bytes, r),
    ensures
        r is Some <==> bytes.len() % 2 == 0,
        r matches Some(samples) ==> bytes.len() == 2 * samples@.len() && forall|i: int|
            0 <= i < samples@.len() ==> (bytes[2 * i] + 256 * bytes[2 * i + 1] - #[trigger] samples@[i]) % 65536
                == 0,
{
    if r is Some {
        law_bytes_spell_samples(r->0@, bytes);
    }
}

/// The samples that the server's bytes hold; `None` for an odd number of bytes.
pub fn decode_audio(bytes: &[u8]) -> (r: Option<Vec<i16>>)
    ensures
        is_reading(bytes@, r),
{
    if bytes.len() % 2 == 1 {
        return None;
    }
    let mut out: Vec<i16> = Vec::new();
    let mut i: usize = 0;
    while i < bytes.len()
        invariant
            i <= bytes@.len(),
            i % 2 == 0,
            bytes@.len() % 2 == 0,
            is_little_endian(out@, bytes@.take(i as int)),
        decreases bytes@.len() - i,
    {
        let u: i32 = bytes[i] as i32 + 256 * bytes[i + 1] as i32;
        let s: i32 = if u < 32768 {
            u
        } else {
            u - 65536
        };
        out.push(s as i16);
        i = i + 2;
    }
    assert(bytes@.take(i as int) =~= bytes@);
    Some(out)
}

/// What the server says.
#[derive(Debug, Clone, PartialEq, Eq)]
pub enum ServerEvent {
    /// Response audio; `None` where it could not be read as samples.
    Audio(Option<Vec<i16>>),
    /// The user talked over the answer.
    Interrupted,
    /// A piece of what the user said.
    InputTranscription(String),
    /// A piece of what the model said.
    OutputTranscription(String),
    /// The model has produced its answer.
    GenerationComplete,
    /// The turn is over.
    TurnComplete,
    /// The server is about to drop the connection.
    GoAway,
    /// The connection is gone.
    Disconnected(Option<String>),
    /// No event will follow.
    Closed,
    Error(String),
    /// A handle to resume the session by, where it is resumable.
    ResumeHandle { handle: String, resumable: bool },
    /// Anything else.
    Other,
}

/// What happens to a session.
#[derive(Debug, Clone, PartialEq, Eq)]
pub enum LiveEvent {
    /// The shutdown flag changed to this.
    Shutdown(bool),
    /// The microphone delivered samples.
    Mic(Vec<i16>),
    Server(ServerEvent),
    /// A screenshot was announced; `None` where there was none after all.
    Frame(Option<Vec<u8>>),
    /// A new connection stands.
    Reconnected,
    /// A new connection could not be made.
    ReconnectFailed,
}

/// What a session does about it.
#[derive(Debug, Clone, PartialEq, Eq)]
pub enum LiveAction {
    Nothing,
    SendAudio(Vec<u8>),
    SendFrame(Vec<u8>),
    Play(Vec<i16>),
    /// Drop what is still to be played.
    ClearPlayback,
    /// Write the record to disk.
    SaveRecord,
    /// Wait, then connect again, taking over from `handle`.
    Reconnect { handle: Option<String>, delay_secs: u64 },
    /// End the session.
    Stop,
}

/// What to do with the microphone.
#[derive(Debug, Clone, Copy, PartialEq, Eq, Structural)]
pub enum MicAction {
    Keep,
    /// Close it, so that the indicator of the desktop goes off.
    Release,
    /// Open it again.
    Reopen,
}

/// A session ends when this many connections in a row could not be made.
pub const MAX_RECONNECT_FAILURES: u32 = 5;

/// The state of a session.
pub struct LiveSession {
    /// What the user has said in this turn.
    pub question: String,
    /// What the model has said in this turn.
    pub answer: String,
    /// Whether the microphone is closed.
    pub was_paused: bool,
    /// The last handle to resume the session by.
    pub handle: Option<String>,
    /// Connections in a row that could not be made.
    pub failures: u32,
    /// The turns so far.
    pub record: Session,
}

/// The state of a session as a mathematical value.
pub struct LiveView {
    pub question: Seq<char>,
    pub answer: Seq<char>,
    pub was_paused: bool,
    pub handle: Option<Seq<char>>,
    pub failures: nat,
    pub id: Seq<char>,
    pub started: nat,
    pub turns: Seq<(Seq<char>, Seq<char>)>,
}

/// The questions and answers of a record.
pub open spec fn turn_texts(turns: Seq<Turn>) -> Seq<(Seq<char>, Seq<char>)> {
    turns.map_values(|t: Turn| (t.question@, t.answer@))
}

impl View for LiveSession {
    type V = LiveView;

    open spec fn view(&self) -> LiveView {
        LiveView {
            question: self.question@,
            answer: self.answer@,
            was_paused: self.was_paused,
            handle: text_view(self.handle),
            failures: self.failures as nat,
            id: self.record.id@,
            started: self.record.started as nat,
            turns: turn_texts(self.record.turns@),
        }
    }
}

/// The state of a session that has just connected.
pub open spec fn new_session(record: Session) -> LiveView {
    LiveView {
        question: Seq::empty(),
        answer: Seq::empty(),
        was_paused: false,
        handle: None,
        failures: 0,
        id: record.id@,
        started: record.started as nat,
        turns: turn_texts(record.turns@),
    }
}

/// The state after the pause flag was looked at.
pub open spec fn live_after_flag(v: LiveView, paused: bool) -> LiveView {
    LiveView { was_paused: paused, ..v }
}

/// The server's word that ends a connection, though not the session.
pub open spec fn loses_connection(event: ServerEvent) -> bool {
    event is GoAway || event is Disconnected || event is Closed || event is Error
}

/// The state after an event.
pub open spec fn live_after(v: LiveView, event: LiveEvent) -> LiveView {
    match event {
        LiveEvent::Server(ServerEvent::InputTranscription(t)) => LiveView {
            question: v.question + t@,
            ..v
        },
        LiveEvent::Server(ServerEvent::OutputTranscription(t)) => LiveView {
            answer: v.answer + t@,
            ..v
        },
        LiveEvent::Server(ServerEvent::TurnComplete) => if v.question.len() > 0 || v.answer.len() > 0 {
            LiveView {
                question: Seq::empty(),
                answer: Seq::empty(),
                turns: v.turns.push((v.question, v.answer)),
                ..v
            }
        } else {
            v
        },
        LiveEvent::Server(ServerEvent::ResumeHandle { handle, resumable }) => if resumable
            && handle@.len() > 0 {
            LiveView { handle: Some(handle@), ..v }
        } else {
            v
        },
        LiveEvent::Reconnected => LiveView { failures: 0, ..v },
        LiveEvent::ReconnectFailed => if v.failures < MAX_RECONNECT_FAILURES {
            LiveView { failures: v.failures + 1, ..v }
        } else {
            v
        },
        _ => v,
    }
}

/// Seconds to wait before a connection, after so many failures in a row: none
/// at first, then one, and twice as many each time.
pub open spec fn backoff_secs(failures: nat) -> nat {
    if failures == 0 {
        0
    } else {
        pow2((failures - 1) as nat)
    }
}

/// `action` is a new connection that takes over the session of `v`.
pub open spec fn is_reconnect(v: LiveView, action: LiveAction) -> bool {
    action matches LiveAction::Reconnect { handle, delay_secs } && text_view(handle) == v.handle
        && delay_secs == backoff_secs(v.failures)
}

/// What a session in state `v` does about an event.
pub open spec fn live_action_is(
    v: LiveView,
    event: LiveEvent,
    paused: bool,
    action: LiveAction,
) -> bool {
    match event {
        LiveEvent::Shutdown(stop) => if stop {
            action is Stop
        } else {
            action is Nothing
        },
        LiveEvent::Mic(samples) => if paused {
            action is Nothing
        } else {
            action matches LiveAction::SendAudio(bytes) && is_little_endian(samples@, bytes@)
        },
        LiveEvent::Frame(Some(jpeg)) => action == LiveAction::SendFrame(jpeg),
        LiveEvent::Frame(None) => action is Nothing,
        LiveEvent::Reconnected => action is Nothing,
        LiveEvent::ReconnectFailed => if v.failures + 1 >= MAX_RECONNECT_FAILURES {
            action is Stop
        } else {
            is_reconnect(live_after(v, event), action)
        },
        LiveEvent::Server(ServerEvent::Audio(Some(samples))) => action == LiveAction::Play(samples),
        LiveEvent::Server(ServerEvent::Interrupted) => action is ClearPlayback,
        LiveEvent::Server(ServerEvent::TurnComplete) => if v.question.len() > 0 || v.answer.len() > 0 {
            action is SaveRecord
        } else {
            action is Nothing
        },
        LiveEvent::Server(e) => if loses_connection(e) {
            is_reconnect(v, action)
        } else {
            action is Nothing
        },
    }
}

fn backoff(failures: u32) -> (r: u64)
    requires
        failures <= MAX_RECONNECT_FAILURES,
    ensures
        r == backoff_secs(failures as nat),
{
    proof {
        lemma2_to64();
    }
    if failures == 0 {
        0
    } else if failures == 1 {
        1
    } else if failures == 2 {
        2
    } else if failures == 3 {
        4
    } else if failures == 4 {
        8
    } else {
        16
    }
}

fn copy_handle(handle: &Option<String>) -> (r: Option<String>)
    ensures
        text_view(r) == text_view(*handle),
{
    match handle {
        Some(h) => Some(copy_text(h.as_str())),
        None => None,
    }
}

impl LiveSession {
    /// A session that has just connected.
    pub fn new(record: Session) -> (r: Self)
        ensures
            r@ == new_session(record),
            r.record == record,
            r.is_valid(),
    {
        LiveSession {
            question: String::new(),
            answer: String::new(),
            was_paused: false,
            handle: None,
            failures: 0,
            record,
        }
    }

    /// The count of failures stays below the limit.
    pub open spec fn is_valid(&self) -> bool {
        self.failures <= MAX_RECONNECT_FAILURES
    }

    /// Takes in an event and says what to do about it.
    pub fn on_event(&mut self, event: LiveEvent, paused: bool) -> (action: LiveAction)
        requires
            old(self).is_valid(),
        ensures
            final(self).is_valid(),
            final(self)@ == live_after(old(self)@, event),
            old(self).record.turns@.is_prefix_of(final(self).record.turns@),
            live_action_is(old(self)@, event, paused, action),
    {
        match event {
            LiveEvent::Shutdown(stop) => if stop {
                LiveAction::Stop
            } else {
                LiveAction::Nothing
            },
            LiveEvent::Mic(samples) => if paused {
                LiveAction::Nothing
            } else {
                LiveAction::SendAudio(encode_audio(&samples))
            },
            LiveEvent::Frame(frame) => match frame {
                Some(jpeg) => LiveAction::SendFrame(jpeg),
                None => LiveAction::Nothing,
            },
            LiveEvent::Reconnected => {
                self.failures = 0;
                LiveAction::Nothing
            },
            LiveEvent::ReconnectFailed => {
                if self.failures < MAX_RECONNECT_FAILURES {
                    self.failures = self.failures + 1;
                }
                if self.failures >= MAX_RECONNECT_FAILURES {
                    LiveAction::Stop
                } else {
                    self.reconnect()
                }
            },
            LiveEvent::Server(e) => self.on_server_event(e),
        }
    }

    fn reconnect(&self) -> (action: LiveAction)
        requires
            self.is_valid(),
        ensures
            is_reconnect(self@, action),
    {
        LiveAction::Reconnect { handle: copy_handle(&self.handle), delay_secs: backoff(self.failures) }
    }

    fn on_server_event(&mut self, event: ServerEvent) -> (action: LiveAction)
        requires
            old(self).is_valid(),
        ensures
            final(self).is_valid(),
            final(self)@ == live_after(old(self)@, LiveEvent::Server(event)),
            old(self).record.turns@.is_prefix_of(final(self).record.turns@),
            live_action_is(old(self)@, LiveEvent::Server(event), false, action),
    {
        match event {
            ServerEvent::Audio(decoded) => match decoded {
                Some(samples) => LiveAction::Play(samples),
                None => LiveAction::Nothing,
            },
            ServerEvent::Interrupted => LiveAction::ClearPlayback,
            ServerEvent::InputTranscription(t) => {
                push_text(&mut self.question, t.as_str());
                LiveAction::Nothing
            },
            ServerEvent::OutputTranscription(t) => {
                push_text(&mut self.answer, t.as_str());
                LiveAction::Nothing
            },
            ServerEvent::TurnComplete => {
                if self.question.as_str().is_empty() && self.answer.as_str().is_empty() {
                    return LiveAction::Nothing;
                }
                let ghost before = self.record.turns@;
                let mut question: String = String::new();
                let mut answer: String = String::new();
                std::mem::swap(&mut question, &mut self.question);
                std::mem::swap(&mut answer, &mut self.answer);
                self.record.add_turn(question, answer);
                proof {
                    let after = self.record.turns@;
                    assert(after =~= before.push(after.last()));
                    assert(turn_texts(after) =~= turn_texts(before).push((question@, answer@)));
                }
                LiveAction::SaveRecord
            },
            ServerEvent::GoAway => self.reconnect(),
            ServerEvent::Disconnected(_) => self.reconnect(),
            ServerEvent::Closed => self.reconnect(),
            ServerEvent::Error(_) => self.reconnect(),
            ServerEvent::ResumeHandle { handle, resumable } => {
                if resumable && !handle.as_str().is_empty() {
                    self.handle = Some(handle);
                }
                LiveAction::Nothing
            },
            ServerEvent::GenerationComplete => LiveAction::Nothing,
            ServerEvent::Other => LiveAction::Nothing,
        }
    }

    /// Brings the microphone in line with the pause flag.
    pub fn on_pause_flag(&mut self, paused: bool) -> (action: MicAction)
        ensures
            final(self)@ == live_after_flag(old(self)@, paused),
            final(self).record == old(self).record,
            old(self).is_valid() ==> final(self).is_valid(),
            action == mic_action(old(self)@.was_paused, paused),
    {
        let was_paused: bool = self.was_paused;
        self.was_paused = paused;
        if paused && !was_paused {
            MicAction::Release
        } else if !paused && was_paused {
            MicAction::Reopen
        } else {
            MicAction::Keep
        }
    }
}

/// The microphone is closed when a pause begins, and opened when it ends.
pub open spec fn mic_action(was_paused: bool, paused: bool) -> MicAction {
    if paused && !was_paused {
        MicAction::Release
    } else if !paused && was_paused {
        MicAction::Reopen
    } else {
        MicAction::Keep
    }
}

/// Whether the microphone is open after an action.
pub open spec fn is_open_after(open: bool, action: MicAction) -> bool {
    match action {
        MicAction::Keep => open,
        MicAction::Release => false,
        MicAction::Reopen => true,
    }
}

/// The microphone is open exactly while a session is not paused.
pub proof fn law_microphone_follows_pause(open: bool, was_paused: bool, paused: bool)
    requires
        open == !was_paused,
    ensures
        is_open_after(open, mic_action(was_paused, paused)) == !paused,
        mic_action(was_paused, paused) is Keep <==> was_paused == paused,
{
}

/// Whatever the pause flag did before, the microphone is closed exactly when it
/// turns on and opened exactly when it turns off, and the conversation goes on
/// from where it was.
pub proof fn law_pausing_costs_nothing(v: LiveView, first: bool, second: bool)
    ensures
        ({
            let paused = live_after_flag(v, first);
            let resumed = live_after_flag(paused, second);
            &&& mic_action(paused.was_paused, second) is Release <==> !first && second
            &&& mic_action(paused.was_paused, second) is Reopen <==> first && !second
            &&& resumed.question == v.question && resumed.answer == v.answer && resumed.handle == v.handle
            &&& resumed.failures == v.failures && resumed.id == v.id && resumed.started == v.started
            &&& resumed.turns == v.turns
            &&& first == v.was_paused ==> paused == v
        }),
{
}

/// A session ends when it is told to, or when the network stays down; nothing
/// that the server says ends it.
pub proof fn law_only_shutdown_or_dead_network_ends(
    v: LiveView,
    event: LiveEvent,
    paused: bool,
    action: LiveAction,
)
    requires
        live_action_is(v, event, paused, action),
    ensures
        action is Stop <==> event == LiveEvent::Shutdown(true) || (event is ReconnectFailed
            && v.failures + 1 >= MAX_RECONNECT_FAILURES),
{
}

/// A lost connection is made again at once, from the last handle, and costs
/// nothing of the conversation.
pub proof fn law_conversation_survives_lost_connection(
    v: LiveView,
    event: ServerEvent,
    paused: bool,
    action: LiveAction,
)
    requires
        loses_connection(event),
        v.failures == 0,
        live_action_is(v, LiveEvent::Server(event), paused, action),
    ensures
        live_after(v, LiveEvent::Server(event)) == v,
        action matches LiveAction::Reconnect { handle, delay_secs } && text_view(handle) == v.handle
            && delay_secs == 0,
{
}

/// The handle that a session resumes by is the last resumable one that the
/// server gave; no other event changes it.
pub proof fn law_last_handle_is_kept(v: LiveView, event: LiveEvent)
    ensures
        live_after(v, event).handle == (match event {
            LiveEvent::Server(ServerEvent::ResumeHandle { handle, resumable }) => if resumable
                && handle@.len() > 0 {
                Some(handle@)
            } else {
                v.handle
            },
            _ => v.handle,
        }),
{
}

/// The record only grows, by the turn that an event completes.
pub proof fn law_record_is_append_only(v: LiveView, event: LiveEvent)
    ensures
        v.turns.is_prefix_of(live_after(v, event).turns),
        live_after(v, event).turns.len() <= v.turns.len() + 1,
        live_after(v, event).id == v.id,
{
    let w = live_after(v, event).turns;
    assert(v.turns =~= w.subrange(0, v.turns.len() as int));
}

/// Nothing that the microphone hears is sent while a session is paused.
pub proof fn law_paused_session_sends_no_audio(v: LiveView, event: LiveEvent, action: LiveAction)
    requires
        live_action_is(v, event, true, action),
    ensures
        action !is SendAudio,
{
}

/// What is said in a turn is recorded as it was said, piece by piece.
pub proof fn law_turn_is_recorded(v: LiveView, said: String, answered: String)
    requires
        v.question.len() == 0,
        v.answer.len() == 0,
        said@.len() > 0 || answered@.len() > 0,
    ensures
        ({
            let heard = live_after(v, LiveEvent::Server(ServerEvent::InputTranscription(said)));
            let told = live_after(heard, LiveEvent::Server(ServerEvent::OutputTranscription(answered)));
            let done = live_after(told, LiveEvent::Server(ServerEvent::TurnComplete));
            &&& done.turns == v.turns.push((said@, answered@))
            &&& done.question.len() == 0
            &&& done.answer.len() == 0
        }),
{
    assert(v.question + said@ =~= said@);
    assert(v.answer + answered@ =~= answered@);
}

/// The state after some events, in their order.
pub open spec fn live_after_all(v: LiveView, events: Seq<LiveEvent>) -> LiveView
    decreases events.len(),
{
    if events.len() == 0 {
        v
    } else {
        live_after(live_after_all(v, events.drop_last()), events.last())
    }
}

/// What the user said, by the pieces of it among some events.
pub open spec fn said_in(events: Seq<LiveEvent>) -> Seq<char>
    decreases events.len(),
{
    if events.len() == 0 {
        Seq::empty()
    } else {
        match events.last() {
            LiveEvent::Server(ServerEvent::InputTranscription(t)) => said_in(events.drop_last()) + t@,
            _ => said_in(events.drop_last()),
        }
    }
}

/// What the model said, by the pieces of it among some events.
pub open spec fn answered_in(events: Seq<LiveEvent>) -> Seq<char>
    decreases events.len(),
{
    if events.len() == 0 {
        Seq::empty()
    } else {
        match events.last() {
            LiveEvent::Server(ServerEvent::OutputTranscription(t)) => answered_in(events.drop_last()) + t@,
            _ => answered_in(events.drop_last()),
        }
    }
}

/// Whatever else happens during a turn, what is recorded at its end is all that
/// was said in it on either side, in the order in which it was said; the next
/// turn starts from nothing.  A turn in which nothing was said is not recorded.
pub proof fn law_turn_is_all_that_was_said(v: LiveView, events: Seq<LiveEvent>)
    requires
        forall|i: int|
            0 <= i < events.len() ==> #[trigger] events[i] != LiveEvent::Server(ServerEvent::TurnComplete),
    ensures
        ({
            let told = live_after_all(v, events);
            let done = live_after(told, LiveEvent::Server(ServerEvent::TurnComplete));
            let (question, answer) = (v.question + said_in(events), v.answer + answered_in(events));
            &&& told.turns == v.turns
            &&& done.question.len() == 0 && done.answer.len() == 0
            &&& done.turns == (if question.len() > 0 || answer.len() > 0 {
                v.turns.push((question, answer))
            } else {
                v.turns
            })
        }),
{
    lemma_pieces_add_up(v, events);
}

proof fn lemma_pieces_add_up(v: LiveView, events: Seq<LiveEvent>)
    requires
        forall|i: int|
            0 <= i < events.len() ==> #[trigger] events[i] != LiveEvent::Server(ServerEvent::TurnComplete),
    ensures
        live_after_all(v, events).turns == v.turns,
        live_after_all(v, events).question == v.question + said_in(events),
        live_after_all(v, events).answer == v.answer + answered_in(events),
    decreases events.len(),
{
    if events.len() == 0 {
        assert(v.question + said_in(events) =~= v.question);
        assert(v.answer + answered_in(events) =~= v.answer);
    } else {
        let before = events.drop_last();
        assert forall|i: int| 0 <= i < before.len() implies #[trigger] before[i] != LiveEvent::Server(
            ServerEvent::TurnComplete,
        ) by {
            assert(before[i] == events[i]);
        }
        assert(events[events.len() - 1] == events.last());
        lemma_pieces_add_up(v, before);
        match events.last() {
            LiveEvent::Server(ServerEvent::InputTranscription(t)) => {
                assert(v.question + (said_in(before) + t@) =~= (v.question + said_in(before)) + t@);
            },
            LiveEvent::Server(ServerEvent::OutputTranscription(t)) => {
                assert(v.answer + (answered_in(before) + t@) =~= (v.answer + answered_in(before)) + t@);
            },
            _ => {},
        }
    }
}

/// The conversation of a record is the questions and answers of its turns, each
/// in its place.
pub proof fn law_conversation_is_that_of_the_record(turns: Seq<Turn>, i: int)
    requires
        0 <= i < turns.len(),
    ensures
        turn_texts(turns).len() == turns.len(),
        turn_texts(turns)[i].0 == turns[i].question@,
        turn_texts(turns)[i].1 == turns[i].answer@,
{
}

/// A new session goes on with the record that it was given, from nothing said.
pub proof fn law_new_session_starts_from_its_record(record: Session, events: Seq<LiveEvent>)
    requires
        forall|i: int|
            0 <= i < events.len() ==> #[trigger] events[i] != LiveEvent::Server(ServerEvent::TurnComplete),
        said_in(events).len() > 0 || answered_in(events).len() > 0,
    ensures
        ({
            let v = new_session(record);
            let done = live_after(
                live_after_all(v, events),
                LiveEvent::Server(ServerEvent::TurnComplete),
            );
            &&& done.turns == turn_texts(record.turns@).push((said_in(events), answered_in(events)))
            &&& v.id == record.id@ && v.started == record.started
            &&& !v.was_paused && v.handle is None && v.failures == 0
        }),
{
    let v = new_session(record);
    law_turn_is_all_that_was_said(v, events);
    assert(v.question + said_in(events) =~= said_in(events));
    assert(v.answer + answered_in(events) =~= answered_in(events));
}

/// Every chunk of response audio is played as it came, and nothing else is,
/// whatever was said and whether or not the microphone is closed; when the user
/// talks over the answer, and only then, what is still queued is dropped.
pub proof fn law_answer_is_heard(v: LiveView, event: LiveEvent, paused: bool, action: LiveAction)
    requires
        live_action_is(v, event, paused, action),
    ensures
        forall|samples: Vec<i16>|
            event == LiveEvent::Server(ServerEvent::Audio(Some(samples))) <==> action == LiveAction::Play(
                samples,
            ),
        action is ClearPlayback <==> event == LiveEvent::Server(ServerEvent::Interrupted),
{
}

/// Everything that an open microphone hears is sent, sample by sample, in every
/// state of the conversation; nothing else is sent as audio.
pub proof fn law_microphone_is_streamed(
    v: LiveView,
    samples: Vec<i16>,
    event: LiveEvent,
    paused: bool,
    action: LiveAction,
)
    requires
        live_action_is(v, event, paused, action),
    ensures
        action is SendAudio <==> event is Mic && !paused,
        event == LiveEvent::Mic(samples) && !paused ==> {
            &&& action matches LiveAction::SendAudio(bytes)
            &&& bytes@.len() == 2 * samples@.len()
            &&& forall|i: int|
                0 <= i < samples@.len() ==> (bytes@[2 * i] + 256 * bytes@[2 * i + 1] - #[trigger] samples@[i])
                    % 65536 == 0
        },
        event is Mic && paused ==> action is Nothing,
{
    if event == LiveEvent::Mic(samples) && !paused {
        law_bytes_spell_samples(samples@, action->SendAudio_0@);
    }
}

/// A frame that was captured is sent as it is, in every state and even while
/// the microphone is closed, and nothing else is sent as a frame.
pub proof fn law_frame_is_sent(v: LiveView, event: LiveEvent, paused: bool, action: LiveAction)
    requires
        live_action_is(v, event, paused, action),
    ensures
        forall|jpeg: Vec<u8>| event == LiveEvent::Frame(Some(jpeg)) <==> action == LiveAction::SendFrame(jpeg),
        event == LiveEvent::Frame(None) ==> action is Nothing,
{
}

/// The record is saved exactly when a turn was added to it.
pub proof fn law_record_is_saved_when_it_grows(
    v: LiveView,
    event: LiveEvent,
    paused: bool,
    action: LiveAction,
)
    requires
        live_action_is(v, event, paused, action),
    ensures
        action is SaveRecord <==> live_after(v, event).turns != v.turns,
        action is SaveRecord <==> event == LiveEvent::Server(ServerEvent::TurnComplete) && (v.question.len()
            > 0 || v.answer.len() > 0),
{
    let w = live_after(v, event).turns;
    if action is SaveRecord {
        assert(w.len() == v.turns.len() + 1);
    }
}

/// A lost connection, however it was lost and however many attempts failed
/// before, is made again from the handle of the session; nothing else asks for
/// a new connection but a failed attempt at one.
pub proof fn law_lost_connection_is_made_again(
    v: LiveView,
    event: LiveEvent,
    paused: bool,
    action: LiveAction,
)
    requires
        live_action_is(v, event, paused, action),
    ensures
        (event matches LiveEvent::Server(e) && (e is GoAway || e is Disconnected || e is Closed || e is Error))
            ==> action is Reconnect && live_after(v, event) == v,
        action is Reconnect ==> event is ReconnectFailed || (event matches LiveEvent::Server(e) && (e is GoAway
            || e is Disconnected || e is Closed || e is Error)),
        action matches LiveAction::Reconnect { handle, .. } ==> match (handle, v.handle) {
            (Some(h), Some(kept)) => h@ == kept,
            (None, None) => true,
            _ => false,
        },
{
}

/// Whatever happens between the last resumable handle of the server and the
/// loss of the connection, the session is resumed by that handle.
pub proof fn law_session_is_resumed_by_the_last_handle(
    v: LiveView,
    given: String,
    events: Seq<LiveEvent>,
    lost: ServerEvent,
    paused: bool,
    action: LiveAction,
)
    requires
        given@.len() > 0,
        forall|i: int|
            0 <= i < events.len() ==> !(#[trigger] events[i] matches LiveEvent::Server(e) && e is ResumeHandle
                && e->resumable),
        lost is GoAway || lost is Disconnected || lost is Closed || lost is Error,
        live_action_is(
            live_after_all(
                live_after(
                    v,
                    LiveEvent::Server(ServerEvent::ResumeHandle { handle: given, resumable: true }),
                ),
                events,
            ),
            LiveEvent::Server(lost),
            paused,
            action,
        ),
    ensures
        action matches LiveAction::Reconnect { handle, .. } && handle matches Some(h) && h@ == given@,
{
    let start = live_after(
        v,
        LiveEvent::Server(ServerEvent::ResumeHandle { handle: given, resumable: true }),
    );
    lemma_handle_stays(start, events);
}

proof fn lemma_handle_stays(v: LiveView, events: Seq<LiveEvent>)
    requires
        forall|i: int|
            0 <= i < events.len() ==> !(#[trigger] events[i] matches LiveEvent::Server(e) && e is ResumeHandle
                && e->resumable),
    ensures
        live_after_all(v, events).handle == v.handle,
    decreases events.len(),
{
    if events.len() > 0 {
        let before = events.drop_last();
        assert forall|i: int| 0 <= i < before.len() implies !(#[trigger] before[i] matches LiveEvent::Server(e)
            && e is ResumeHandle && e->resumable) by {
            assert(before[i] == events[i]);
        }
        assert(events[events.len() - 1] == events.last());
        lemma_handle_stays(v, before);
    }
}

/// A network that stays down is tried a few times, after one second and twice
/// as long each time; the fifth failure in a row ends the session, and a
/// connection that stands starts the count anew.
pub proof fn law_dead_network_is_tried_with_backoff(v: LiveView, paused: bool, action: LiveAction)
    requires
        live_action_is(v, LiveEvent::ReconnectFailed, paused, action),
    ensures
        v.failures >= 4 <==> action is Stop,
        action matches LiveAction::Reconnect { delay_secs, .. } ==> {
            &&& v.failures == 0 ==> delay_secs == 1
            &&& v.failures == 1 ==> delay_secs == 2
            &&& v.failures == 2 ==> delay_secs == 4
            &&& v.failures == 3 ==> delay_secs == 8
        },
        v.failures < 4 ==> action is Reconnect && live_after(v, LiveEvent::ReconnectFailed)
            == (LiveView { failures: v.failures + 1, ..v }),
        live_after(v, LiveEvent::Reconnected) == (LiveView { failures: 0, ..v }),
{
    lemma2_to64();
}

/// A first loss of the connection is mended without delay.
pub proof fn law_first_attempt_is_made_at_once(
    v: LiveView,
    events: Seq<LiveEvent>,
    lost: ServerEvent,
    paused: bool,
    action: LiveAction,
)
    requires
        forall|i: int| 0 <= i < events.len() ==> #[trigger] events[i] !is ReconnectFailed,
        lost is GoAway || lost is Disconnected || lost is Closed || lost is Error,
        live_action_is(
            live_after_all(live_after(v, LiveEvent::Reconnected), events),
            LiveEvent::Server(lost),
            paused,
            action,
        ),
    ensures
        action matches LiveAction::Reconnect { delay_secs, .. } && delay_secs == 0,
{
    lemma_no_failures(live_after(v, LiveEvent::Reconnected), events);
}

proof fn lemma_no_failures(v: LiveView, events: Seq<LiveEvent>)
    requires
        v.failures == 0,
        forall|i: int| 0 <= i < events.len() ==> #[trigger] events[i] !is ReconnectFailed,
    ensures
        live_after_all(v, events).failures == 0,
    decreases events.len(),
{
    if events.len() > 0 {
        let before = events.drop_last();
        assert forall|i: int| 0 <= i < before.len() implies #[trigger] before[i] !is ReconnectFailed by {
            assert(before[i] == events[i]);
        }
        assert(events[events.len() - 1] == events.last());
        lemma_no_failures(v, before);
    }
}

/// No event opens or closes the microphone, or changes whose record it is, and
/// only what says something about the conversation changes it.
pub proof fn law_other_events_change_nothing(v: LiveView, event: LiveEvent)
    ensures
        live_after(v, event).was_paused == v.was_paused,
        live_after(v, event).id == v.id,
        live_after(v, event).started == v.started,
        event !is Reconnected && event !is ReconnectFailed ==> live_after(v, event).failures == v.failures,
        event is Shutdown || event is Mic || event is Frame ==> live_after(v, event) == v,
        (event matches LiveEvent::Server(e) && (e is Audio || e is Interrupted || e is GenerationComplete || e
            is GoAway || e is Disconnected || e is Closed || e is Error || e is Other)) ==> live_after(v, event)
            == v,
{
}

/// Milliseconds of silence behind a clip, for the server to notice its end.
pub const TRAILING_SILENCE_MS: u32 = 800;

/// A clip with silence behind it: 800 ms at 16 kHz.
pub open spec fn padded(samples: Seq<i16>) -> Seq<i16> {
    samples + Seq::new(12_800, |i: int| 0i16)
}

/// A clip is sent whole, with 800 ms of silence behind it, at 16 kHz.
pub proof fn law_clip_is_sent_whole_and_followed_by_silence(samples: Seq<i16>)
    ensures
        samples.is_prefix_of(padded(samples)),
        (padded(samples).len() - samples.len()) * 1000 == 800 * 16_000,
        forall|i: int| samples.len() <= i < padded(samples).len() ==> #[trigger] padded(samples)[i] == 0,
{
    assert(samples =~= padded(samples).subrange(0, samples.len() as int));
}

/// Puts silence behind a clip.
pub fn pad_clip(samples: &[i16]) -> (r: Vec<i16>)
    ensures
        r@ == padded(samples@),
{
    let mut r: Vec<i16> = Vec::new();
    r.extend_from_slice(samples);
    assert(r@ =~= samples@);
    let n: u32 = INPUT_SAMPLE_RATE * TRAILING_SILENCE_MS / 1000;
    let mut i: u32 = 0;
    assert(r@ =~= samples@ + Seq::new(0, |i: int| 0i16));
    while i < n
        invariant
            n == 12_800,
            i <= n,
            r@ == samples@ + Seq::new(i as nat, |i: int| 0i16),
        decreases n - i,
    {
        r.push(0);
        i = i + 1;
        assert(r@ =~= samples@ + Seq::new(i as nat, |i: int| 0i16));
    }
    r
}

/// The bytes that a clip is sent as.
pub fn clip_bytes(samples: &[i16]) -> (r: Vec<u8>)
    ensures
        is_little_endian(padded(samples@), r@),
{
    encode_audio(&pad_clip(samples))
}

/// What a one-shot turn came to: both sides, transcribed.
#[derive(Debug, Clone, PartialEq, Eq)]
pub struct TurnResult {
    pub input_transcript: String,
    pub output_transcript: String,
}

/// What happens while a one-shot turn waits for its answer.
#[derive(Debug, Clone, PartialEq, Eq)]
pub enum TurnEvent {
    Server(ServerEvent),
    /// Nothing happened for 20 seconds.
    TimedOut,
}

/// Why a one-shot turn failed.
#[derive(Debug, Clone, PartialEq, Eq)]
pub enum TurnError {
    TimedOut,
    Session(String),
    Disconnected(Option<String>),
}

/// What a one-shot turn does next.
#[derive(Debug, Clone, PartialEq, Eq)]
pub enum TurnStep {
    Wait,
    Play(Vec<i16>),
    Finish,
    Fail(TurnError),
}

/// A one-shot turn.
pub struct OneShot {
    pub result: TurnResult,
    pub generation_complete: bool,
}

/// A one-shot turn as a mathematical value.
pub struct OneShotView {
    pub input: Seq<char>,
    pub output: Seq<char>,
    pub generation_complete: bool,
}

impl View for OneShot {
    type V = OneShotView;

    open spec fn view(&self) -> OneShotView {
        OneShotView {
            input: self.result.input_transcript@,
            output: self.result.output_transcript@,
            generation_complete: self.generation_complete,
        }
    }
}

/// A one-shot turn that has just been sent.
pub open spec fn new_turn() -> OneShotView {
    OneShotView { input: Seq::empty(), output: Seq::empty(), generation_complete: false }
}

/// A one-shot turn after an event.
pub open spec fn one_shot_after(v: OneShotView, event: TurnEvent) -> OneShotView {
    match event {
        TurnEvent::Server(ServerEvent::InputTranscription(t)) => OneShotView {
            input: v.input + t@,
            ..v
        },
        TurnEvent::Server(ServerEvent::OutputTranscription(t)) => OneShotView {
            output: v.output + t@,
            ..v
        },
        TurnEvent::Server(ServerEvent::GenerationComplete) => OneShotView {
            generation_complete: true,
            ..v
        },
        _ => v,
    }
}

/// What a one-shot turn does about an event.
///
/// The end of the turn may lag far behind the end of the answer, so once the
/// answer is complete a time-out is a normal end.
pub open spec fn one_shot_step(v: OneShotView, event: TurnEvent) -> TurnStep {
    match event {
        TurnEvent::TimedOut => if v.generation_complete {
            TurnStep::Finish
        } else {
            TurnStep::Fail(TurnError::TimedOut)
        },
        TurnEvent::Server(ServerEvent::Audio(Some(samples))) => TurnStep::Play(samples),
        TurnEvent::Server(ServerEvent::TurnComplete) => TurnStep::Finish,
        TurnEvent::Server(ServerEvent::Closed) => TurnStep::Finish,
        TurnEvent::Server(ServerEvent::Error(e)) => TurnStep::Fail(TurnError::Session(e)),
        TurnEvent::Server(ServerEvent::Disconnected(reason)) => TurnStep::Fail(
            TurnError::Disconnected(reason),
        ),
        _ => TurnStep::Wait,
    }
}

impl OneShot {
    pub fn new() -> (r: Self)
        ensures
            r@ == new_turn(),
    {
        OneShot {
            result: TurnResult { input_transcript: String::new(), output_transcript: String::new() },
            generation_complete: false,
        }
    }

    /// Takes in an event and says what to do next.
    pub fn on_event(&mut self, event: TurnEvent) -> (step: TurnStep)
        ensures
            final(self)@ == one_shot_after(old(self)@, event),
            step == one_shot_step(old(self)@, event),
    {
        match event {
            TurnEvent::TimedOut => if self.generation_complete {
                TurnStep::Finish
            } else {
                TurnStep::Fail(TurnError::TimedOut)
            },
            TurnEvent::Server(e) => match e {
                ServerEvent::Audio(decoded) => match decoded {
                    Some(samples) => TurnStep::Play(samples),
                    None => TurnStep::Wait,
                },
                ServerEvent::InputTranscription(t) => {
                    push_text(&mut self.result.input_transcript, t.as_str());
                    TurnStep::Wait
                },
                ServerEvent::OutputTranscription(t) => {
                    push_text(&mut self.result.output_transcript, t.as_str());
                    TurnStep::Wait
                },
                ServerEvent::GenerationComplete => {
                    self.generation_complete = true;
                    TurnStep::Wait
                },
                ServerEvent::TurnComplete => TurnStep::Finish,
                ServerEvent::Closed => TurnStep::Finish,
                ServerEvent::Error(message) => TurnStep::Fail(TurnError::Session(message)),
                ServerEvent::Disconnected(reason) => TurnStep::Fail(TurnError::Disconnected(reason)),
                ServerEvent::Interrupted => TurnStep::Wait,
                ServerEvent::GoAway => TurnStep::Wait,
                ServerEvent::ResumeHandle { handle: _, resumable: _ } => TurnStep::Wait,
                ServerEvent::Other => TurnStep::Wait,
            },
        }
    }
}

/// Once the answer is complete, a one-shot turn does not time out.
pub proof fn law_complete_answer_does_not_time_out(v: OneShotView, event: TurnEvent)
    requires
        event == TurnEvent::Server(ServerEvent::GenerationComplete) || v.generation_complete,
    ensures
        one_shot_step(one_shot_after(v, event), TurnEvent::TimedOut) is Finish,
{
}

/// A one-shot turn after some events, in their order.
pub open spec fn one_shot_after_all(v: OneShotView, events: Seq<TurnEvent>) -> OneShotView
    decreases events.len(),
{
    if events.len() == 0 {
        v
    } else {
        one_shot_after(one_shot_after_all(v, events.drop_last()), events.last())
    }
}

/// What the user said, by the pieces of it among the events of a turn.
pub open spec fn heard_in(events: Seq<TurnEvent>) -> Seq<char>
    decreases events.len(),
{
    if events.len() == 0 {
        Seq::empty()
    } else {
        match events.last() {
            TurnEvent::Server(ServerEvent::InputTranscription(t)) => heard_in(events.drop_last()) + t@,
            _ => heard_in(events.drop_last()),
        }
    }
}

/// What the model said, by the pieces of it among the events of a turn.
pub open spec fn replied_in(events: Seq<TurnEvent>) -> Seq<char>
    decreases events.len(),
{
    if events.len() == 0 {
        Seq::empty()
    } else {
        match events.last() {
            TurnEvent::Server(ServerEvent::OutputTranscription(t)) => replied_in(events.drop_last()) + t@,
            _ => replied_in(events.drop_last()),
        }
    }
}

/// A one-shot turn reports all that was said in it on either side, in the order
/// in which it was said, and knows whether the answer is complete.
pub proof fn law_one_shot_reports_all_that_was_said(events: Seq<TurnEvent>)
    ensures
        one_shot_after_all(new_turn(), events).input == heard_in(events),
        one_shot_after_all(new_turn(), events).output == replied_in(events),
        one_shot_after_all(new_turn(), events).generation_complete <==> exists|i: int|
            0 <= i < events.len() && #[trigger] events[i] == TurnEvent::Server(
                ServerEvent::GenerationComplete,
            ),
    decreases events.len(),
{
    if events.len() > 0 {
        let before = events.drop_last();
        law_one_shot_reports_all_that_was_said(before);
        let complete = TurnEvent::Server(ServerEvent::GenerationComplete);
        assert(events[events.len() - 1] == events.last());
        if exists|i: int| 0 <= i < before.len() && #[trigger] before[i] == complete {
            let i = choose|i: int| 0 <= i < before.len() && #[trigger] before[i] == complete;
            assert(events[i] == complete);
        }
        if exists|i: int| 0 <= i < events.len() && #[trigger] events[i] == complete {
            let i = choose|i: int| 0 <= i < events.len() && #[trigger] events[i] == complete;
            if i < before.len() {
                assert(before[i] == complete);
            }
        }
    }
}

/// In every state of a one-shot turn, each chunk of the answer is played as it
/// came, the end of the turn ends it, and a failure is reported as the server
/// put it; silence is a failure only before the answer is complete.
pub proof fn law_one_shot_plays_and_ends(v: OneShotView, event: TurnEvent)
    ensures
        forall|samples: Vec<i16>|
            event == TurnEvent::Server(ServerEvent::Audio(Some(samples))) <==> one_shot_step(v, event)
                == TurnStep::Play(samples),
        one_shot_step(v, event) is Finish <==> event == TurnEvent::Server(ServerEvent::TurnComplete) || event
            == TurnEvent::Server(ServerEvent::Closed) || (event is TimedOut && v.generation_complete),
        one_shot_step(v, event) == TurnStep::Fail(TurnError::TimedOut) <==> event is TimedOut
            && !v.generation_complete,
        forall|e: String|
            event == TurnEvent::Server(ServerEvent::Error(e)) <==> one_shot_step(v, event) == TurnStep::Fail(
                TurnError::Session(e),
            ),
        forall|reason: Option<String>|
            event == TurnEvent::Server(ServerEvent::Disconnected(reason)) <==> one_shot_step(v, event)
                == TurnStep::Fail(TurnError::Disconnected(reason)),
{
}

/// Debug output is on, by the variable that asks for it.
pub open spec fn is_debug(var: Option<Seq<char>>) -> bool {
    var matches Some(v) && v != "0"@
}

/// Any value but `0` turns debug output on.
pub proof fn law_debug_output_is_on_unless_it_is_zero(value: Seq<char>)
    ensures
        value != "0"@ ==> is_debug(Some(value)),
        !is_debug(Some("0"@)),
        !is_debug(None),
{
}

/// Whether debug output is on, by `GEMINI_ASSISTANT_DEBUG`: set, and not `0`.
pub fn debug_enabled(var: Option<&str>) -> (r: bool)
    ensures
        r == is_debug(str_view(var)),
{
    match var {
        Some(v) => !same_text(v, "0"),
        None => false,
    }
}

/// A reminder that the session is still open is due.
pub open spec fn is_reminder_due(reminder_secs: u64, elapsed_secs: u64) -> bool {
    reminder_secs > 0 && elapsed_secs >= reminder_secs
}

/// With a period of zero there is never a reminder; else one is due from the
/// moment on when the period is over, and not before.
pub proof fn law_reminders_come_in_time_or_never(period: u64, elapsed: u64, later: u64)
    ensures
        !is_reminder_due(0, elapsed),
        period > 0 ==> is_reminder_due(period, period),
        is_reminder_due(period, elapsed) && elapsed <= later ==> is_reminder_due(period, later),
        elapsed < period ==> !is_reminder_due(period, elapsed),
{
}

/// Whether a reminder that the session is still open is due, so many seconds
/// after the last one.
pub fn reminder_due(reminder_secs: u64, elapsed_secs: u64) -> (r: bool)
    ensures
        r == is_reminder_due(reminder_secs, elapsed_secs),
{
    reminder_secs > 0 && elapsed_secs >= reminder_secs
}

/// What a reminder says about the microphone.
pub fn reminder_text(paused: bool) -> (r: &'static str)
    ensures
        r@ == (if paused {
            "Session still open. Mic paused."@
        } else {
            "Session still open. Mic live."@
        }),
{
    if paused {
        "Session still open. Mic paused."
    } else {
        "Session still open. Mic live."
    }
}

} // verus!
