//! What the commands do, and what a running process does about a signal.

use crate::pidfile::{
    law_pidfile_reads_back, parsed_pidfile, rendered_pidfile, state_name, write_pidfile, PidState,
};
use crate::screenshot::Mode;
use crate::text::{copy_text, push_integer, signed_decimal};
use vstd::prelude::*;

verus! {

/// What the user can ask for.
#[derive(Debug, Clone, PartialEq, Eq)]
pub enum Command {
    /// The same as `Talk`.
    Toggle,
    /// Start a session; where one runs, pause or resume its microphone.
    Talk,
    /// End the session.
    End,
    /// Pause or resume the microphone of the session.
    Pause,
    /// Ask a single question; where one is being asked, send it.
    Ask,
    /// Show a part of the screen to the session.
    Look { mode: Mode },
    /// Print the state of the session.
    Status,
    /// Print the model's most recent answer.
    Last,
    /// Send a WAV file and play the answer.
    SendClip { path: String },
}

/// The command of a command line that may name none.
pub open spec fn chosen_command(command: Option<Command>) -> Command {
    match command {
        Some(c) => c,
        None => Command::Toggle,
    }
}

/// The command of a command line that may name none.
pub fn command_or_default(command: Option<Command>) -> (r: Command)
    ensures
        r == chosen_command(command),
{
    match command {
        Some(c) => c,
        None => Command::Toggle,
    }
}

/// What one process tells another.
#[derive(Debug, Clone, Copy, PartialEq, Eq, Structural)]
pub enum Signal {
    /// `SIGTERM`.
    Terminate,
    /// `SIGINT`.
    Interrupt,
    /// `SIGUSR1`: pause or resume a session, or send a question.
    User1,
    /// `SIGUSR2`: a frame is waiting.
    User2,
}

/// What a process can become.
#[derive(Debug, Clone, Copy, PartialEq, Eq, Structural)]
pub enum Role {
    /// A session.
    Session,
    /// A single question.
    Question,
}

/// What a command comes to.
#[derive(Debug, Clone, PartialEq, Eq)]
pub enum Plan {
    /// Claim the pidfile of the role, and take it on.
    Claim(Role),
    /// Send a signal, and say so.
    Send { pid: i32, signal: Signal, notice: String },
    /// Capture the screen for the session `pid`.
    Capture { mode: Mode, pid: i32 },
    /// Print a text.
    Print(String),
    /// Print and copy the model's most recent answer.
    PrintLastAnswer,
    /// Send a WAV file and play the answer.
    PlayClip { path: String },
}

/// What the user is told when a session is being stopped.
pub open spec fn stop_notice(pid: int) -> Seq<char> {
    "stopping session (pid "@ + signed_decimal(pid) + ")"@
}

/// `plan` is to send `signal` to `pid`, and to say `notice`.
pub open spec fn is_send(plan: Plan, to: i32, what: Signal, words: Seq<char>) -> bool {
    plan matches Plan::Send { pid, signal, notice } && pid == to && signal == what && notice@ == words
}

/// `plan` is to print `words`.
pub open spec fn is_print(plan: Plan, words: Seq<char>) -> bool {
    plan matches Plan::Print(text) && text@ == words
}

/// How the state of the session is reported.
pub open spec fn status_text(session: Option<(i32, PidState)>) -> Seq<char> {
    match session {
        Some((_, state)) => state_name(state),
        None => "stopped"@,
    }
}

/// What a command comes to, by the session that runs.
pub open spec fn is_plan(command: Command, session: Option<(i32, PidState)>, plan: Plan) -> bool {
    match command {
        Command::Toggle | Command::Talk => plan == Plan::Claim(Role::Session),
        Command::Ask => plan == Plan::Claim(Role::Question),
        Command::End => match session {
            Some((pid, _)) => is_send(plan, pid, Signal::Terminate, stop_notice(pid as int)),
            None => is_print(plan, "no live session"@),
        },
        Command::Pause => match session {
            Some((pid, _)) => is_send(plan, pid, Signal::User1, "toggled pause"@),
            None => is_print(plan, "no live session"@),
        },
        Command::Look { mode } => match session {
            Some((pid, _)) => plan == (Plan::Capture { mode, pid }),
            None => is_print(plan, "no live session"@),
        },
        Command::Status => is_print(plan, status_text(session)),
        Command::Last => plan is PrintLastAnswer,
        Command::SendClip { path } => plan == (Plan::PlayClip { path }),
    }
}

/// Decides what a command comes to; `session` is the live session, if any.
pub fn plan(command: Command, session: Option<(i32, PidState)>) -> (r: Plan)
    ensures
        is_plan(command, session, r),
{
    match command {
        Command::Toggle => Plan::Claim(Role::Session),
        Command::Talk => Plan::Claim(Role::Session),
        Command::Ask => Plan::Claim(Role::Question),
        Command::End => match session {
            Some((pid, _)) => {
                let mut notice: String = copy_text("stopping session (pid ");
                push_integer(&mut notice, pid);
                notice.push(')');
                proof {
                    reveal_strlit(")");
                    assert(notice@ =~= stop_notice(pid as int));
                }
                Plan::Send { pid, signal: Signal::Terminate, notice }
            },
            None => Plan::Print(copy_text("no live session")),
        },
        Command::Pause => match session {
            Some((pid, _)) => Plan::Send { pid, signal: Signal::User1, notice: copy_text("toggled pause") },
            None => Plan::Print(copy_text("no live session")),
        },
        Command::Look { mode } => match session {
            Some((pid, _)) => Plan::Capture { mode, pid },
            None => Plan::Print(copy_text("no live session")),
        },
        Command::Status => match session {
            Some((_, state)) => Plan::Print(copy_text(state.as_str())),
            None => Plan::Print(copy_text("stopped")),
        },
        Command::Last => Plan::PrintLastAnswer,
        Command::SendClip { path } => Plan::PlayClip { path },
    }
}

/// What to tell the process that has the role already.
pub open spec fn is_handover(role: Role, owner: i32, plan: Plan) -> bool {
    match role {
        Role::Session => is_send(plan, owner, Signal::User1, "toggled pause"@),
        Role::Question => is_send(plan, owner, Signal::User1, "sending question"@),
    }
}

/// Decides what to do where another process has the role already: its
/// microphone is paused or resumed, or its question is sent.
pub fn hand_over(role: Role, owner: i32) -> (r: Plan)
    ensures
        is_handover(role, owner, r),
{
    match role {
        Role::Session => Plan::Send { pid: owner, signal: Signal::User1, notice: copy_text("toggled pause") },
        Role::Question => Plan::Send {
            pid: owner,
            signal: Signal::User1,
            notice: copy_text("sending question"),
        },
    }
}

/// What a running process does about a signal.
#[derive(Debug, Clone, PartialEq, Eq)]
pub enum SignalAction {
    /// End.
    Stop,
    /// Set the pause flag to this, and put this text into the pidfile.
    SetPaused { paused: bool, pidfile: String },
    /// Take the frame that is waiting, and send it.
    TakeFrame,
    /// Send the question.
    SendQuestion,
    Nothing,
}

/// The state of a session, by its pause flag.
pub open spec fn state_of(paused: bool) -> PidState {
    if paused {
        PidState::Paused
    } else {
        PidState::Live
    }
}

/// What the process `me` does about a signal.
pub open spec fn is_signal_action(
    role: Role,
    me: int,
    paused: bool,
    signal: Signal,
    action: SignalAction,
) -> bool {
    match (role, signal) {
        (_, Signal::Terminate) => action is Stop,
        (_, Signal::Interrupt) => action is Stop,
        (Role::Session, Signal::User1) => action matches SignalAction::SetPaused { paused: now, pidfile }
            && now == !paused && pidfile@ == rendered_pidfile(me, state_of(!paused)),
        (Role::Session, Signal::User2) => action is TakeFrame,
        (Role::Question, Signal::User1) => action is SendQuestion,
        (Role::Question, Signal::User2) => action is Nothing,
    }
}

/// Decides what a running process does about a signal.
pub fn on_signal(role: Role, my_pid: i32, paused: bool, signal: Signal) -> (action: SignalAction)
    ensures
        is_signal_action(role, my_pid as int, paused, signal, action),
{
    match signal {
        Signal::Terminate => SignalAction::Stop,
        Signal::Interrupt => SignalAction::Stop,
        Signal::User1 => match role {
            Role::Session => {
                let state: PidState = if paused { PidState::Live } else { PidState::Paused };
                SignalAction::SetPaused { paused: !paused, pidfile: write_pidfile(my_pid, state) }
            },
            Role::Question => SignalAction::SendQuestion,
        },
        Signal::User2 => match role {
            Role::Session => SignalAction::TakeFrame,
            Role::Question => SignalAction::Nothing,
        },
    }
}

/// `end` is the only command that ends a session: whatever another one sends,
/// to whomever, does not stop the process that gets it.
pub proof fn law_only_end_ends_a_session(
    command: Command,
    session: Option<(i32, PidState)>,
    plan: Plan,
    role: Role,
    paused: bool,
    action: SignalAction,
)
    requires
        is_plan(command, session, plan),
        plan matches Plan::Send { pid, signal, .. } && is_signal_action(role, pid as int, paused, signal, action),
    ensures
        action is Stop <==> command is End,
{
}

/// The main hotkey never ends a session: on a running one it pauses or resumes
/// the microphone, and does nothing else.
pub proof fn law_talk_never_ends_a_session(
    command: Command,
    session: Option<(i32, PidState)>,
    plan: Plan,
    owner: i32,
    handover: Plan,
    paused: bool,
    action: SignalAction,
)
    requires
        command is Talk || command is Toggle,
        is_plan(command, session, plan),
        is_handover(Role::Session, owner, handover),
        handover matches Plan::Send { pid, signal, .. } && is_signal_action(
            Role::Session,
            pid as int,
            paused,
            signal,
            action,
        ),
    ensures
        plan == Plan::Claim(Role::Session),
        action matches SignalAction::SetPaused { paused: now, .. } && now == !paused,
{
}

/// A command line that names no command comes to what `talk` does, and one that
/// names a command to what that does.
pub proof fn law_no_command_is_talk(command: Command, session: Option<(i32, PidState)>, plan: Plan)
    ensures
        is_plan(chosen_command(None), session, plan) <==> is_plan(Command::Talk, session, plan),
        is_plan(Command::Toggle, session, plan) <==> is_plan(Command::Talk, session, plan),
        is_plan(chosen_command(Some(command)), session, plan) <==> is_plan(command, session, plan),
{
}

/// Where a session runs, live or paused, `pause` is a signal to its process, on
/// which it turns its pause flag around and says so in the pidfile: the same as
/// another press of the main hotkey.
pub proof fn law_pause_reaches_the_session(pid: i32, state: PidState, plan: Plan)
    requires
        is_plan(Command::Pause, Some((pid, state)), plan),
    ensures
        is_handover(Role::Session, pid, plan),
        plan matches Plan::Send { pid: to, signal, notice } && to == pid && notice@ == "toggled pause"@
            && forall|paused: bool, action: SignalAction| #[trigger]
            is_signal_action(Role::Session, pid as int, paused, signal, action) ==> {
                &&& action matches SignalAction::SetPaused { paused: now, pidfile }
                &&& now == !paused
                &&& parsed_pidfile(pidfile@) == Some(
                    (
                        pid as int,
                        if paused {
                            PidState::Live
                        } else {
                            PidState::Paused
                        },
                    ),
                )
            },
{
    law_pidfile_reads_back(pid as int, PidState::Live);
    law_pidfile_reads_back(pid as int, PidState::Paused);
}

/// Where a session runs, live or paused, `end` stops its process, whatever it
/// is doing, and tells the user which one it is.
pub proof fn law_end_stops_the_session(pid: i32, state: PidState, plan: Plan)
    requires
        is_plan(Command::End, Some((pid, state)), plan),
    ensures
        plan matches Plan::Send { pid: to, signal, notice } && to == pid && notice@
            == "stopping session (pid "@ + signed_decimal(pid as int) + ")"@ && forall|
            role: Role,
            paused: bool,
            action: SignalAction,
        | #[trigger]
            is_signal_action(role, pid as int, paused, signal, action) ==> action is Stop,
{
}

/// Where a session runs, live or paused, `look` captures what was asked for and
/// shows it to that session.
pub proof fn law_look_shows_the_session(mode: Mode, pid: i32, state: PidState, plan: Plan)
    requires
        is_plan(Command::Look { mode }, Some((pid, state)), plan),
    ensures
        plan == (Plan::Capture { mode, pid }),
{
}

/// The user is told that there is no session exactly where there is none and
/// the command needs one.
pub proof fn law_no_session_is_said_where_there_is_none(
    command: Command,
    session: Option<(i32, PidState)>,
    plan: Plan,
)
    requires
        is_plan(command, session, plan),
    ensures
        (plan matches Plan::Print(text) && text@ == "no live session"@) <==> session is None && (command
            is End || command is Pause || command is Look),
        plan is Print <==> command is Status || (session is None && (command is End || command is Pause
            || command is Look)),
{
    reveal_strlit("no live session");
    reveal_strlit("live");
    reveal_strlit("paused");
    reveal_strlit("stopped");
    assert("no live session"@.len() == 15 && "live"@.len() == 4 && "paused"@.len() == 6 && "stopped"@.len()
        == 7);
}

/// `status` prints one word, by whether a session runs and whether it is
/// paused.
pub proof fn law_status_tells_the_state(pid: i32, session: Option<(i32, PidState)>, plan: Plan)
    requires
        is_plan(Command::Status, session, plan),
    ensures
        plan matches Plan::Print(text) && {
            &&& session == Some((pid, PidState::Live)) ==> text@ == "live"@
            &&& session == Some((pid, PidState::Paused)) ==> text@ == "paused"@
            &&& session is None ==> text@ == "stopped"@
        },
{
}

/// What starts something of its own does not depend on the session that runs.
pub proof fn law_other_commands_do_not_ask_for_a_session(
    session: Option<(i32, PidState)>,
    path: String,
    talk: Plan,
    ask: Plan,
    last: Plan,
    clip: Plan,
)
    requires
        is_plan(Command::Talk, session, talk),
        is_plan(Command::Ask, session, ask),
        is_plan(Command::Last, session, last),
        is_plan(Command::SendClip { path }, session, clip),
    ensures
        talk == Plan::Claim(Role::Session),
        ask == Plan::Claim(Role::Question),
        last is PrintLastAnswer,
        clip == (Plan::PlayClip { path }),
{
}

/// A second press reaches the process that was first: a session turns its pause
/// flag around, and a question is sent.
pub proof fn law_second_press_reaches_the_first(role: Role, owner: i32, plan: Plan)
    requires
        is_handover(role, owner, plan),
    ensures
        plan matches Plan::Send { pid, signal, notice } && pid == owner && forall|
            paused: bool,
            action: SignalAction,
        | #[trigger]
            is_signal_action(role, owner as int, paused, signal, action) ==> match role {
                Role::Session => action matches SignalAction::SetPaused { paused: now, .. } && now == !paused,
                Role::Question => action is SendQuestion,
            },
        plan matches Plan::Send { notice, .. } && notice@ == (match role {
            Role::Session => "toggled pause"@,
            Role::Question => "sending question"@,
        }),
{
}

/// A process stops on a signal that asks it to and on no other, whatever its
/// role; a frame that waits is taken by a session and left by a question.
pub proof fn law_signals_mean_one_thing(
    role: Role,
    me: int,
    paused: bool,
    signal: Signal,
    action: SignalAction,
)
    requires
        is_signal_action(role, me, paused, signal, action),
    ensures
        action is Stop <==> signal == Signal::Terminate || signal == Signal::Interrupt,
        action is TakeFrame <==> signal == Signal::User2 && role == Role::Session,
        action is SetPaused <==> signal == Signal::User1 && role == Role::Session,
        action is SendQuestion <==> signal == Signal::User1 && role == Role::Question,
        action is Nothing <==> signal == Signal::User2 && role == Role::Question,
{
}

/// A session that is paused or resumed is reported as such, under its own
/// process id; doing it twice restores the state.
pub proof fn law_status_follows_pause(
    me: i32,
    paused: bool,
    first: SignalAction,
    second: SignalAction,
)
    requires
        is_signal_action(Role::Session, me as int, paused, Signal::User1, first),
        is_signal_action(Role::Session, me as int, !paused, Signal::User1, second),
    ensures
        first matches SignalAction::SetPaused { paused: now, pidfile } && now == !paused && parsed_pidfile(
            pidfile@,
        ) == Some((me as int, state_of(!paused))),
        status_text(Some((me, state_of(!paused)))) == state_name(state_of(!paused)),
        second matches SignalAction::SetPaused { paused: now, pidfile } && now == paused && parsed_pidfile(
            pidfile@,
        ) == Some((me as int, state_of(paused))),
{
    law_pidfile_reads_back(me as int, state_of(!paused));
    law_pidfile_reads_back(me as int, state_of(paused));
}

} // verus!
