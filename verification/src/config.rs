//! Settings, their overrides from the environment, and the API key.
//!
//! A global shortcut runs the program with no shell profile sourced, so the
//! key cannot rely on the environment: it is read from a file of the program's
//! own, with the environment as the fallback.

use crate::rounding::Double;
use crate::text::{
    chars_of, copy_text, decimal, is_decimal, is_digit, is_white_space, join, joined, law_decimal_reads_back,
    law_integer_reads_back, law_trimming_takes_white_space_only, lines, parse_u64, parsed_integer, part_of,
    same_text, split_lines, string_of, trim, trimmed,
};
use vstd::prelude::*;

verus! {

/// The Live model that is used unless another is configured.
///
/// Preview model ids are renamed from time to time, which is why the model is
/// a setting.
pub const DEFAULT_MODEL: &'static str = "models/gemini-3.1-flash-live-preview";

pub const DEFAULT_SYSTEM_INSTRUCTION: &'static str =
    "You are a fast, concise voice assistant running from a hotkey. Answer directly in natural spoken language — no markdown, no bullet lists, no headers. Keep answers short unless the question needs detail.";

/// The bit pattern of 400.0.
pub const DEFAULT_VAD_THRESHOLD_BITS: u64 = 0x4079_0000_0000_0000;

/// Longest edge of a screenshot that is sent.
pub const DEFAULT_MAX_EDGE: u32 = 1024;

/// JPEG quality of a screenshot that is sent.
pub const DEFAULT_QUALITY: u8 = 80;

/// After how many seconds a one-shot question is sent on its own.
pub const DEFAULT_ASK_MAX_SECS: u64 = 60;

/// The settings.
#[derive(Debug, Clone, PartialEq)]
pub struct Config {
    pub model: String,
    pub voice: Option<String>,
    pub system_instruction: String,
    pub google_search: bool,
    /// Seconds between two reminders that a session is open; zero for none.
    pub reminder_secs: u64,
    pub context_window_target_tokens: u32,
    pub vad_threshold: Double,
    pub screenshot_max_edge: u32,
    pub screenshot_quality: u8,
    pub ask_max_secs: u64,
}

/// The settings as mathematical values.
pub struct Settings {
    pub model: Seq<char>,
    pub voice: Option<Seq<char>>,
    pub system_instruction: Seq<char>,
    pub google_search: bool,
    pub reminder_secs: nat,
    pub context_window_target_tokens: nat,
    pub vad_threshold: Double,
    pub screenshot_max_edge: nat,
    pub screenshot_quality: nat,
    pub ask_max_secs: nat,
}

/// An optional text as a mathematical value.
pub open spec fn text_view(s: Option<String>) -> Option<Seq<char>> {
    match s {
        Some(t) => Some(t@),
        None => None,
    }
}

impl View for Config {
    type V = Settings;

    open spec fn view(&self) -> Settings {
        Settings {
            model: self.model@,
            voice: text_view(self.voice),
            system_instruction: self.system_instruction@,
            google_search: self.google_search,
            reminder_secs: self.reminder_secs as nat,
            context_window_target_tokens: self.context_window_target_tokens as nat,
            vad_threshold: self.vad_threshold,
            screenshot_max_edge: self.screenshot_max_edge as nat,
            screenshot_quality: self.screenshot_quality as nat,
            ask_max_secs: self.ask_max_secs as nat,
        }
    }
}

/// The settings that hold where nothing is configured.
pub open spec fn default_settings() -> Settings {
    Settings {
        model: DEFAULT_MODEL@,
        voice: None,
        system_instruction: DEFAULT_SYSTEM_INSTRUCTION@,
        google_search: true,
        reminder_secs: 600,
        context_window_target_tokens: 16_000,
        vad_threshold: Double { bits: DEFAULT_VAD_THRESHOLD_BITS },
        screenshot_max_edge: 1024,
        screenshot_quality: 80,
        ask_max_secs: 60,
    }
}

impl Default for Config {
    fn default() -> (r: Self)
        ensures
            r@ == default_settings(),
    {
        Config {
            model: copy_text(DEFAULT_MODEL),
            voice: None,
            system_instruction: copy_text(DEFAULT_SYSTEM_INSTRUCTION),
            google_search: true,
            reminder_secs: 600,
            context_window_target_tokens: 16_000,
            vad_threshold: Double { bits: DEFAULT_VAD_THRESHOLD_BITS },
            screenshot_max_edge: DEFAULT_MAX_EDGE,
            screenshot_quality: DEFAULT_QUALITY,
            ask_max_secs: DEFAULT_ASK_MAX_SECS,
        }
    }
}

/// The default threshold is the number 400.
pub proof fn law_default_threshold_is_400()
    ensures
        ({
            let t = default_settings().vad_threshold;
            &&& !t.is_nan()
            &&& !t.is_infinite()
            &&& !t.is_negative()
            &&& t.magnitude().mant == 400 * 0x1000_0000_0000
            &&& t.magnitude().exp == -44
        }),
{
    let t = default_settings().vad_threshold;
    assert(t.bits == 0x407 * 0x10_0000_0000_0000 + 0x9_0000_0000_0000);
    assert(t.bits as int / 0x10_0000_0000_0000 == 0x407);
    assert(t.biased_exponent() == 0x407);
    assert(t.significand_field() == 0x9_0000_0000_0000);
}

/// What the environment overrides.
pub struct Overrides {
    /// `GEMINI_LIVE_MODEL`.
    pub model: Option<String>,
    /// `GEMINI_ASSISTANT_REMINDER_SECS`, as it stands.
    pub reminder_secs: Option<String>,
    /// `GEMINI_ASSISTANT_VAD_THRESHOLD`, where it is a number.
    pub vad_threshold: Option<Double>,
}

/// `base` with the overrides of the environment in place.
pub open spec fn overridden(
    base: Settings,
    model: Option<Seq<char>>,
    reminder_secs: Option<Seq<char>>,
    vad_threshold: Option<Double>,
) -> Settings {
    Settings {
        model: match model {
            Some(m) => m,
            None => base.model,
        },
        reminder_secs: match reminder_secs {
            Some(s) => match parsed_integer(s, 0, u64::MAX as int) {
                Some(n) => n as nat,
                None => base.reminder_secs,
            },
            None => base.reminder_secs,
        },
        vad_threshold: match vad_threshold {
            Some(t) => t,
            None => base.vad_threshold,
        },
        ..base
    }
}

/// The settings that the file gives, or the defaults.
pub open spec fn file_settings(file: Option<Config>) -> Settings {
    match file {
        Some(c) => c@,
        None => default_settings(),
    }
}

/// The environment wins: each override that is given holds, whatever the file
/// says, each that is not leaves the file's value, and neither touches any
/// other setting.
pub proof fn law_environment_wins(
    base: Settings,
    model: Option<Seq<char>>,
    reminder_secs: Option<Seq<char>>,
    vad_threshold: Option<Double>,
)
    ensures
        ({
            let s = overridden(base, model, reminder_secs, vad_threshold);
            &&& model matches Some(m) ==> s.model == m
            &&& model is None ==> s.model == base.model
            &&& vad_threshold matches Some(t) ==> s.vad_threshold == t
            &&& vad_threshold is None ==> s.vad_threshold == base.vad_threshold
            &&& reminder_secs is None ==> s.reminder_secs == base.reminder_secs
            &&& s.voice == base.voice
            &&& s.system_instruction == base.system_instruction
            &&& s.google_search == base.google_search
            &&& s.context_window_target_tokens == base.context_window_target_tokens
            &&& s.screenshot_max_edge == base.screenshot_max_edge
            &&& s.screenshot_quality == base.screenshot_quality
            &&& s.ask_max_secs == base.ask_max_secs
        }),
        // One override does not depend on the others.
        overridden(base, model, reminder_secs, vad_threshold) == overridden(
            overridden(overridden(base, model, None, None), None, reminder_secs, None),
            None,
            None,
            vad_threshold,
        ),
{
}

/// A period that the environment spells out holds, whatever the file says.
pub proof fn law_period_from_environment_wins(
    base: Settings,
    model: Option<Seq<char>>,
    secs: nat,
    vad_threshold: Option<Double>,
)
    requires
        secs <= u64::MAX,
    ensures
        overridden(base, model, Some(decimal(secs)), vad_threshold).reminder_secs == secs,
{
    law_integer_reads_back(secs as int, 0, u64::MAX as int);
}

/// An override that is no number, or too large a one, is ignored.
pub proof fn law_period_that_is_no_number_is_ignored(
    base: Settings,
    model: Option<Seq<char>>,
    s: Seq<char>,
    i: int,
    secs: nat,
    vad_threshold: Option<Double>,
)
    requires
        s.len() == 0 || (0 <= i < s.len() && !('0' <= s[i] <= '9') && !(i == 0 && s[i] == '+')),
        secs > u64::MAX,
    ensures
        overridden(base, model, Some(s), vad_threshold).reminder_secs == base.reminder_secs,
        overridden(base, model, Some(decimal(secs)), vad_threshold).reminder_secs == base.reminder_secs,
{
    law_decimal_reads_back(secs);
    let d = decimal(secs);
    assert(is_digit(d[0]));
    if s.len() > 0 {
        let signed = s[0] == '+';
        let digits = if signed { s.drop_first() } else { s };
        assert(!is_decimal(digits)) by {
            if signed {
                assert(digits[i - 1] == s[i]);
            } else {
                assert(digits[i] == s[i]);
            }
        }
    }
}

/// Without overrides the file's settings hold as they are, and without a file
/// the defaults do.
pub proof fn law_file_is_taken_as_it_is(file: Config)
    ensures
        overridden(file_settings(Some(file)), None, None, None) == file@,
        overridden(file_settings(None), None, None, None) == default_settings(),
{
}

/// A Live model.
#[derive(Debug, Clone, PartialEq, Eq)]
pub enum GeminiModel {
    Gemini2_0FlashLive,
    GeminiLive2_5FlashNativeAudio,
    Custom(String),
}

/// A voice of the model.
#[derive(Debug, Clone, PartialEq, Eq)]
pub enum Voice {
    Aoede,
    Charon,
    Fenrir,
    Kore,
    Puck,
    Custom(String),
}

/// `m` is what the id `s` names: a known model, or the id itself.
pub open spec fn is_model_of(s: Seq<char>, m: GeminiModel) -> bool {
    if s == "models/gemini-2.0-flash-live-001"@ {
        m is Gemini2_0FlashLive
    } else if s == "models/gemini-live-2.5-flash-native-audio"@ {
        m is GeminiLive2_5FlashNativeAudio
    } else {
        m matches GeminiModel::Custom(id) && id@ == s
    }
}

/// `v` is what the name `s` names: a known voice, or the name itself.
pub open spec fn is_voice_of(s: Seq<char>, v: Voice) -> bool {
    if s == "Aoede"@ {
        v is Aoede
    } else if s == "Charon"@ {
        v is Charon
    } else if s == "Fenrir"@ {
        v is Fenrir
    } else if s == "Kore"@ {
        v is Kore
    } else if s == "Puck"@ {
        v is Puck
    } else {
        v matches Voice::Custom(name) && name@ == s
    }
}

/// The model that an id names.
pub fn model_from_str(s: &str) -> (m: GeminiModel)
    ensures
        is_model_of(s@, m),
{
    if same_text(s, "models/gemini-2.0-flash-live-001") {
        GeminiModel::Gemini2_0FlashLive
    } else if same_text(s, "models/gemini-live-2.5-flash-native-audio") {
        GeminiModel::GeminiLive2_5FlashNativeAudio
    } else {
        GeminiModel::Custom(copy_text(s))
    }
}

/// The voice that a name names.
pub fn voice_from_str(s: &str) -> (v: Voice)
    ensures
        is_voice_of(s@, v),
{
    if same_text(s, "Aoede") {
        Voice::Aoede
    } else if same_text(s, "Charon") {
        Voice::Charon
    } else if same_text(s, "Fenrir") {
        Voice::Fenrir
    } else if same_text(s, "Kore") {
        Voice::Kore
    } else if same_text(s, "Puck") {
        Voice::Puck
    } else {
        Voice::Custom(copy_text(s))
    }
}

impl Config {
    /// The settings of a run: those of the file, or the defaults, with what the
    /// environment overrides.
    ///
    /// An override that does not parse is ignored.
    pub fn load(file: Option<Config>, env: Overrides) -> (r: Config)
        ensures
            r@ == overridden(
                file_settings(file),
                text_view(env.model),
                text_view(env.reminder_secs),
                env.vad_threshold,
            ),
    {
        let mut config: Config = match file {
            Some(c) => c,
            None => Config::default(),
        };
        match env.model {
            Some(model) => {
                config.model = model;
            },
            None => {},
        }
        match &env.reminder_secs {
            Some(s) => {
                match parse_u64(&chars_of(s.as_str())) {
                    Some(n) => {
                        config.reminder_secs = n;
                    },
                    None => {},
                }
            },
            None => {},
        }
        match env.vad_threshold {
            Some(t) => {
                config.vad_threshold = t;
            },
            None => {},
        }
        config
    }

    /// The model that is configured.
    pub fn gemini_model(&self) -> (m: GeminiModel)
        ensures
            is_model_of(self@.model, m),
    {
        model_from_str(self.model.as_str())
    }

    /// The voice that is configured; `None` leaves the choice to the server.
    pub fn gemini_voice(&self) -> (v: Option<Voice>)
        ensures
            v is Some <==> self@.voice is Some,
            v matches Some(voice) ==> is_voice_of(self@.voice->0, voice),
    {
        match &self.voice {
            Some(name) => Some(voice_from_str(name.as_str())),
            None => None,
        }
    }
}

/// The directory for settings, by `XDG_CONFIG_HOME` and `HOME`.
pub open spec fn config_home_path(xdg: Option<Seq<char>>, home: Option<Seq<char>>) -> Seq<char> {
    match xdg {
        Some(dir) => dir,
        None => joined(
            match home {
                Some(dir) => dir,
                None => "/tmp"@,
            },
            ".config"@,
        ),
    }
}

/// An optional text as a mathematical value.
pub open spec fn str_view(s: Option<&str>) -> Option<Seq<char>> {
    match s {
        Some(t) => Some(t@),
        None => None,
    }
}

fn config_home(xdg: Option<&str>, home: Option<&str>) -> (r: String)
    ensures
        r@ == config_home_path(str_view(xdg), str_view(home)),
{
    match xdg {
        Some(dir) => copy_text(dir),
        None => match home {
            Some(dir) => join(dir, ".config"),
            None => join("/tmp", ".config"),
        },
    }
}

/// Where the program keeps a file of its own.
pub open spec fn own_file(xdg: Option<Seq<char>>, home: Option<Seq<char>>, name: Seq<char>) -> Seq<char> {
    joined(joined(config_home_path(xdg, home), "gemini-assistant"@), name)
}

/// The files of the program are in a directory of its own, in the directory
/// that `XDG_CONFIG_HOME` names, or else in `.config` in the home directory.
pub proof fn law_files_are_in_the_configured_directory(
    dir: Seq<char>,
    home: Option<Seq<char>>,
    name: Seq<char>,
)
    requires
        dir.len() > 0,
        dir.last() != '/',
        name.len() > 0,
        name[0] != '/',
    ensures
        own_file(Some(dir), home, name) == dir + "/gemini-assistant/"@ + name,
        own_file(None, Some(dir), name) == dir + "/.config/gemini-assistant/"@ + name,
        own_file(None, None, name) == "/tmp/.config/gemini-assistant/"@ + name,
{
    reveal_strlit("/gemini-assistant/");
    reveal_strlit("/.config/gemini-assistant/");
    reveal_strlit("/tmp/.config/gemini-assistant/");
    reveal_strlit("gemini-assistant");
    reveal_strlit(".config");
    reveal_strlit("/tmp");
    assert(own_file(Some(dir), home, name) =~= dir + "/gemini-assistant/"@ + name);
    assert(own_file(None, Some(dir), name) =~= dir + "/.config/gemini-assistant/"@ + name);
    assert(own_file(None, None, name) =~= "/tmp/.config/gemini-assistant/"@ + name);
}

/// Where the settings are.
pub fn config_path(xdg: Option<&str>, home: Option<&str>) -> (r: String)
    ensures
        r@ == own_file(str_view(xdg), str_view(home), "config.json"@),
{
    join(&join(&config_home(xdg, home), "gemini-assistant"), "config.json")
}

/// Where the API key is.
pub fn env_key_path(xdg: Option<&str>, home: Option<&str>) -> (r: String)
    ensures
        r@ == own_file(str_view(xdg), str_view(home), "env"@),
{
    join(&join(&config_home(xdg, home), "gemini-assistant"), "env")
}

/// The value that a line of the key file gives, if it gives one.
pub open spec fn key_in_line(line: Seq<char>) -> Option<Seq<char>> {
    let entry = trimmed(line);
    let prefix = "GEMINI_API_KEY="@;
    if prefix.is_prefix_of(entry) && trimmed(entry.skip(prefix.len() as int)).len() > 0 {
        Some(trimmed(entry.skip(prefix.len() as int)))
    } else {
        None
    }
}

/// The first key among some lines.
pub open spec fn first_key(rows: Seq<Seq<char>>) -> Option<Seq<char>>
    decreases rows.len(),
{
    if rows.len() == 0 {
        None
    } else if key_in_line(rows[0]) is Some {
        key_in_line(rows[0])
    } else {
        first_key(rows.drop_first())
    }
}

/// The API key that the file and the environment give.
pub open spec fn api_key(file: Option<Seq<char>>, env: Option<Seq<char>>) -> Option<Seq<char>> {
    match file {
        Some(text) => match first_key(lines(text)) {
            Some(key) => Some(key),
            None => env,
        },
        None => env,
    }
}

/// The key of the file wins over the environment: it is what follows
/// `GEMINI_API_KEY=` on the first line that gives one, whatever stands on the
/// lines around it and whatever white space around it.
pub proof fn law_key_of_the_file_wins(
    text: Seq<char>,
    before: Seq<Seq<char>>,
    indent: Seq<char>,
    gap: Seq<char>,
    key: Seq<char>,
    tail: Seq<char>,
    after: Seq<Seq<char>>,
    env: Option<Seq<char>>,
)
    requires
        lines(text) == before.push(indent + ("GEMINI_API_KEY="@ + gap + key) + tail) + after,
        forall|i: int|
            0 <= i < before.len() ==> !"GEMINI_API_KEY="@.is_prefix_of(trimmed(#[trigger] before[i])),
        forall|i: int| 0 <= i < indent.len() ==> is_white_space(#[trigger] indent[i]),
        forall|i: int| 0 <= i < gap.len() ==> is_white_space(#[trigger] gap[i]),
        forall|i: int| 0 <= i < tail.len() ==> is_white_space(#[trigger] tail[i]),
        key.len() > 0,
        !is_white_space(key[0]),
        !is_white_space(key.last()),
    ensures
        api_key(Some(text), env) == Some(key),
{
    let prefix = "GEMINI_API_KEY="@;
    reveal_strlit("GEMINI_API_KEY=");
    let entry = prefix + gap + key;
    let row = indent + entry + tail;
    assert(entry[0] == 'G');
    assert(entry.last() == key.last());
    law_trimming_takes_white_space_only(indent, entry, tail);
    assert(prefix =~= entry.subrange(0, prefix.len() as int));
    assert(entry.skip(prefix.len() as int) =~= gap + key + Seq::<char>::empty());
    law_trimming_takes_white_space_only(gap, key, Seq::<char>::empty());
    assert(key_in_line(row) == Some(key));
    lemma_first_key(before, row, after);
}

/// Lines that give no key do not matter.
proof fn lemma_first_key(before: Seq<Seq<char>>, row: Seq<char>, after: Seq<Seq<char>>)
    requires
        key_in_line(row) is Some,
        forall|i: int|
            0 <= i < before.len() ==> !"GEMINI_API_KEY="@.is_prefix_of(trimmed(#[trigger] before[i])),
    ensures
        first_key(before.push(row) + after) == key_in_line(row),
    decreases before.len(),
{
    let rows = before.push(row) + after;
    if before.len() == 0 {
        assert(rows[0] == row);
    } else {
        let rest = before.drop_first();
        assert forall|i: int| 0 <= i < rest.len() implies !"GEMINI_API_KEY="@.is_prefix_of(
            trimmed(#[trigger] rest[i]),
        ) by {
            assert(rest[i] == before[i + 1]);
        }
        assert(rows[0] == before[0]);
        assert(rows.drop_first() =~= rest.push(row) + after);
        lemma_first_key(rest, row, after);
    }
}

/// Where there is no file, or no line of it gives a key, the environment's key
/// is used.
pub proof fn law_key_falls_back_to_the_environment(text: Seq<char>, env: Option<Seq<char>>)
    requires
        forall|i: int|
            0 <= i < lines(text).len() ==> !"GEMINI_API_KEY="@.is_prefix_of(trimmed(#[trigger] lines(text)[i])),
    ensures
        api_key(Some(text), env) == env,
        api_key(None, env) == env,
{
    lemma_no_key(lines(text));
}

proof fn lemma_no_key(rows: Seq<Seq<char>>)
    requires
        forall|i: int|
            0 <= i < rows.len() ==> !"GEMINI_API_KEY="@.is_prefix_of(trimmed(#[trigger] rows[i])),
    ensures
        first_key(rows) is None,
    decreases rows.len(),
{
    if rows.len() > 0 {
        let rest = rows.drop_first();
        assert forall|i: int| 0 <= i < rest.len() implies !"GEMINI_API_KEY="@.is_prefix_of(
            trimmed(#[trigger] rest[i]),
        ) by {
            assert(rest[i] == rows[i + 1]);
        }
        assert(!"GEMINI_API_KEY="@.is_prefix_of(trimmed(rows[0])));
        lemma_no_key(rest);
    }
}

fn read_key(line: &[char]) -> (r: Option<String>)
    ensures
        text_view(r) == key_in_line(line@),
{
    let entry: Vec<char> = trim(line);
    let prefix: Vec<char> = chars_of("GEMINI_API_KEY=");
    let n: usize = prefix.len();
    if entry.len() < n {
        return None;
    }
    let mut i: usize = 0;
    while i < n
        invariant
            i <= n,
            n == prefix@.len(),
            n <= entry@.len(),
            forall|j: int| 0 <= j < i ==> prefix@[j] == entry@[j],
            prefix@ == "GEMINI_API_KEY="@,
            entry@ == trimmed(line@),
        decreases n - i,
    {
        if entry[i] != prefix[i] {
            assert(!prefix@.is_prefix_of(entry@)) by {
                if prefix@.is_prefix_of(entry@) {
                    assert(prefix@[i as int] == entry@.subrange(0, n as int)[i as int]);
                }
            }
            return None;
        }
        i = i + 1;
    }
    assert(prefix@ =~= entry@.subrange(0, n as int));
    assert(entry@.skip(n as int) =~= entry@.subrange(n as int, entry@.len() as int));
    let value: Vec<char> = trim(&part_of(&entry, n, entry.len()));
    if value.len() == 0 {
        None
    } else {
        Some(string_of(&value))
    }
}

/// There is no API key in the file, and none in the environment.
#[derive(Debug, Clone, Copy, PartialEq, Eq, Structural)]
pub struct MissingApiKey;

impl MissingApiKey {
    pub fn message(&self) -> (r: &'static str)
        ensures
            r@ == "GEMINI_API_KEY not set and no key found in ~/.config/gemini-assistant/env"@,
    {
        "GEMINI_API_KEY not set and no key found in ~/.config/gemini-assistant/env"
    }
}

/// The API key: from the text of the key file where it gives one, else from
/// the environment.
pub fn load_api_key(env_file: Option<&str>, env_var: Option<String>) -> (r: Result<String, MissingApiKey>)
    ensures
        r is Ok <==> api_key(str_view(env_file), text_view(env_var)) is Some,
        r matches Ok(key) ==> api_key(str_view(env_file), text_view(env_var)) == Some(key@),
{
    match env_file {
        Some(text) => {
            let rows: Vec<Vec<char>> = split_lines(&chars_of(text));
            let ghost views = lines(text@);
            let mut i: usize = 0;
            assert(views.skip(0) =~= views);
            while i < rows.len()
                invariant
                    i <= rows@.len(),
                    views == lines(text@),
                    views == rows@.map_values(|l: Vec<char>| l@),
                    env_file == Some(text),
                    first_key(views) == first_key(views.skip(i as int)),
                decreases rows@.len() - i,
            {
                assert(views.skip(i as int)[0] == rows@[i as int]@);
                assert(views.skip(i as int).drop_first() =~= views.skip(i + 1));
                match read_key(&rows[i]) {
                    Some(key) => {
                        return Ok(key);
                    },
                    None => {},
                }
                i = i + 1;
            }
            assert(views.skip(i as int).len() == 0);
        },
        None => {},
    }
    match env_var {
        Some(key) => Ok(key),
        None => Err(MissingApiKey),
    }
}

} // verus!
