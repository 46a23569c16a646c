//! A one-shot spoken question.
//!
//! One press starts the recording, a second one sends it, a single spoken
//! answer follows, and nothing is kept.  The boundaries of the question are
//! marked explicitly, so the model answers when the question is sent and not
//! when it guesses that the user has paused.

use crate::session::{encode_audio, is_little_endian, law_bytes_spell_samples, ServerEvent};
use crate::text::{copy_text, push_text};
use vstd::prelude::*;

verus! {

/// How far a question has come.
#[derive(Debug, Clone, Copy, PartialEq, Eq, Structural)]
pub enum AskPhase {
    /// The microphone is open.
    Recording,
    /// The question is sent.
    Answering,
    /// The answer is complete, or will never be.
    Done,
}

/// What happens to a question.
#[derive(Debug, Clone, PartialEq, Eq)]
pub enum AskEvent {
    /// The hotkey was pressed again.
    SendPressed,
    /// The longest time that a question may take is over.
    Deadline,
    /// The microphone delivered samples.
    Mic(Vec<i16>),
    Server(ServerEvent),
}

/// What to do about it.
#[derive(Debug, Clone, PartialEq, Eq)]
pub enum AskAction {
    Nothing,
    SendAudio(Vec<u8>),
    /// Close the microphone and mark the end of the question.
    Commit { hit_cap: bool },
    Play(Vec<i16>),
    /// Play what is left, then disconnect.
    Finish,
    /// Report the error.
    Fail(String),
}

/// The phase after an event.
pub open spec fn ask_after(phase: AskPhase, event: AskEvent) -> AskPhase {
    match (phase, event) {
        (AskPhase::Recording, AskEvent::SendPressed) => AskPhase::Answering,
        (AskPhase::Recording, AskEvent::Deadline) => AskPhase::Answering,
        (AskPhase::Answering, AskEvent::Server(e)) => if ends_answer(e) || e is Error {
            AskPhase::Done
        } else {
            phase
        },
        _ => phase,
    }
}

/// Nothing more of the answer will come.
///
/// All of its audio has arrived when the model has produced it; the end of the
/// turn may lag behind.
pub open spec fn ends_answer(event: ServerEvent) -> bool {
    ||| event is TurnComplete
    ||| event is GenerationComplete
    ||| event is GoAway
    ||| event is Disconnected
    ||| event is Closed
}

/// What a question does about an event.
pub open spec fn ask_action_is(phase: AskPhase, event: AskEvent, action: AskAction) -> bool {
    match (phase, event) {
        (AskPhase::Recording, AskEvent::SendPressed) => action == (AskAction::Commit { hit_cap: false }),
        (AskPhase::Recording, AskEvent::Deadline) => action == (AskAction::Commit { hit_cap: true }),
        (AskPhase::Recording, AskEvent::Mic(samples)) => action matches AskAction::SendAudio(bytes)
            && is_little_endian(samples@, bytes@),
        (AskPhase::Answering, AskEvent::Server(ServerEvent::Audio(Some(samples)))) => action
            == AskAction::Play(samples),
        (AskPhase::Answering, AskEvent::Server(ServerEvent::Error(e))) => action matches AskAction::Fail(
            message,
        ) && message@ == "ask error: "@ + e@,
        (AskPhase::Answering, AskEvent::Server(e)) => if ends_answer(e) {
            action is Finish
        } else {
            action is Nothing
        },
        _ => action is Nothing,
    }
}

impl AskPhase {
    /// Takes in an event and says what to do about it.
    pub fn on_event(&mut self, event: AskEvent) -> (action: AskAction)
        ensures
            *final(self) == ask_after(*old(self), event),
            ask_action_is(*old(self), event, action),
    {
        match *self {
            AskPhase::Recording => match event {
                AskEvent::SendPressed => {
                    *self = AskPhase::Answering;
                    AskAction::Commit { hit_cap: false }
                },
                AskEvent::Deadline => {
                    *self = AskPhase::Answering;
                    AskAction::Commit { hit_cap: true }
                },
                AskEvent::Mic(samples) => AskAction::SendAudio(encode_audio(&samples)),
                AskEvent::Server(_) => AskAction::Nothing,
            },
            AskPhase::Answering => match event {
                AskEvent::Server(e) => match e {
                    ServerEvent::Audio(decoded) => match decoded {
                        Some(samples) => AskAction::Play(samples),
                        None => AskAction::Nothing,
                    },
                    ServerEvent::Error(message) => {
                        *self = AskPhase::Done;
                        let mut text: String = copy_text("ask error: ");
                        push_text(&mut text, message.as_str());
                        AskAction::Fail(text)
                    },
                    ServerEvent::TurnComplete
                    | ServerEvent::GenerationComplete
                    | ServerEvent::GoAway
                    | ServerEvent::Disconnected(_)
                    | ServerEvent::Closed => {
                        *self = AskPhase::Done;
                        AskAction::Finish
                    },
                    _ => AskAction::Nothing,
                },
                _ => AskAction::Nothing,
            },
            AskPhase::Done => AskAction::Nothing,
        }
    }
}

/// Seconds until a question is sent on its own.
pub open spec fn deadline(max_secs: u64) -> u64 {
    if max_secs < 1 {
        1
    } else {
        max_secs
    }
}

/// Seconds until a question is sent on its own: at least one.
pub fn deadline_secs(max_secs: u64) -> (r: u64)
    ensures
        r == deadline(max_secs),
{
    if max_secs < 1 {
        1
    } else {
        max_secs
    }
}

/// What the user is told when the question is sent.
pub fn commit_notice(hit_cap: bool) -> (r: &'static str)
    ensures
        r@ == (if hit_cap {
            "Reached the max question length — sending."@
        } else {
            "Thinking…"@
        }),
{
    if hit_cap {
        "Reached the max question length — sending."
    } else {
        "Thinking…"
    }
}

/// Once a question is sent, nothing more is recorded: no event sends audio or
/// sends the question again.
pub proof fn law_nothing_is_recorded_after_sending(
    phase: AskPhase,
    event: AskEvent,
    action: AskAction,
)
    requires
        phase !is Recording,
        ask_action_is(phase, event, action),
    ensures
        action !is SendAudio,
        action !is Commit,
        ask_after(phase, event) !is Recording,
{
}

/// A question is always sent: by the second press, or at the deadline.
pub proof fn law_question_is_sent_by_press_or_deadline(event: AskEvent, action: AskAction)
    requires
        ask_action_is(AskPhase::Recording, event, action),
    ensures
        action is Commit <==> event is SendPressed || event is Deadline,
        ask_after(AskPhase::Recording, event) is Answering <==> action is Commit,
        action matches AskAction::Commit { hit_cap } ==> hit_cap == (event is Deadline),
{
}

/// A question is sent on its own after the time that is configured, and not
/// before it could be asked.
pub proof fn law_deadline_is_the_configured_one(max_secs: u64)
    ensures
        deadline(max_secs) >= 1,
        max_secs >= 1 ==> deadline(max_secs) == max_secs,
        max_secs == 0 ==> deadline(max_secs) == 1,
{
}

/// While a question is recorded, everything that the microphone hears is sent,
/// sample by sample, and nothing is played.
pub proof fn law_question_is_sent_as_it_is_spoken(samples: Vec<i16>, event: AskEvent, action: AskAction)
    requires
        ask_action_is(AskPhase::Recording, event, action),
    ensures
        action is SendAudio <==> event is Mic,
        event == AskEvent::Mic(samples) ==> {
            &&& action matches AskAction::SendAudio(bytes)
            &&& bytes@.len() == 2 * samples@.len()
            &&& forall|i: int|
                0 <= i < samples@.len() ==> (bytes@[2 * i] + 256 * bytes@[2 * i + 1] - #[trigger] samples@[i])
                    % 65536 == 0
        },
        event is Mic || event is Server ==> ask_after(AskPhase::Recording, event) is Recording,
        event is Server ==> action is Nothing,
{
    if event == AskEvent::Mic(samples) {
        law_bytes_spell_samples(samples@, action->SendAudio_0@);
    }
}

/// Once a question is sent, every chunk of the answer is played as it comes, up
/// to the event that ends it.
pub proof fn law_answer_is_played_to_its_end(event: AskEvent, action: AskAction)
    requires
        ask_action_is(AskPhase::Answering, event, action),
    ensures
        forall|samples: Vec<i16>|
            event == AskEvent::Server(ServerEvent::Audio(Some(samples))) <==> action == AskAction::Play(
                samples,
            ),
        action is Finish <==> (event matches AskEvent::Server(e) && (e is TurnComplete || e
            is GenerationComplete || e is GoAway || e is Disconnected || e is Closed)),
        action is Fail <==> (event matches AskEvent::Server(e) && e is Error),
        action matches AskAction::Fail(message) ==> (event matches AskEvent::Server(ServerEvent::Error(e))
            && message@ == "ask error: "@ + e@),
        ask_after(AskPhase::Answering, event) == (if action is Finish || action is Fail {
            AskPhase::Done
        } else {
            AskPhase::Answering
        }),
{
}

/// There is one answer: after its end nothing is played.
pub proof fn law_one_answer(phase: AskPhase, event: AskEvent, action: AskAction)
    requires
        phase is Done,
        ask_action_is(phase, event, action),
    ensures
        action is Nothing,
        ask_after(phase, event) is Done,
{
}

} // verus!
