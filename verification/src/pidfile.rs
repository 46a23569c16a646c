//! The pidfile: what it holds, who owns it, and how a process claims it.
//!
//! There is no daemon.  A session is a process, and the pidfile names it, so
//! that a second press of a hotkey finds the first one's session instead of
//! opening another.

use crate::config::str_view;
use crate::text::{
    chars_of, decimal, is_decimal, is_digit, is_white_space, join, joined, law_decimal_reads_back,
    law_integer_reads_back, lemma_first_line, lemma_one_line, lemma_untrimmed, lines, parse_i32, parsed_integer,
    part_of, push_integer, push_text, same_chars, signed_decimal, split_lines, trim, trim_end, trimmed,
    trimmed_end,
};
use vstd::prelude::*;

verus! {

/// The name of the program.
///
/// Linux cuts the name in `/proc/<pid>/comm` to 15 bytes, one less than this
/// has.
pub const PROCESS_NAME: &'static str = "gemini-assistant";

/// A file in the runtime directory, which is `/tmp` unless `XDG_RUNTIME_DIR`
/// says otherwise.
pub open spec fn runtime_path(runtime_dir: Option<Seq<char>>, name: Seq<char>) -> Seq<char> {
    joined(
        match runtime_dir {
            Some(dir) => dir,
            None => "/tmp"@,
        },
        name,
    )
}

/// The files of a run are in the directory that `XDG_RUNTIME_DIR` names, or
/// else in `/tmp`.
pub proof fn law_runtime_files_are_in_the_runtime_directory(dir: Seq<char>, name: Seq<char>)
    requires
        dir.len() > 0,
        dir.last() != '/',
        name.len() > 0,
        name[0] != '/',
    ensures
        runtime_path(Some(dir), name) == dir + "/"@ + name,
        runtime_path(None, name) == "/tmp/"@ + name,
{
    reveal_strlit("/");
    reveal_strlit("/tmp");
    reveal_strlit("/tmp/");
    assert(runtime_path(Some(dir), name) =~= dir + "/"@ + name);
    assert(runtime_path(None, name) =~= "/tmp/"@ + name);
}

/// A file in the runtime directory.
pub fn in_runtime_dir(runtime_dir: Option<&str>, name: &str) -> (r: String)
    ensures
        r@ == runtime_path(str_view(runtime_dir), name@),
{
    match runtime_dir {
        Some(dir) => join(dir, name),
        None => join("/tmp", name),
    }
}

/// The pidfile of the session.
pub fn pidfile_path(runtime_dir: Option<&str>) -> (r: String)
    ensures
        r@ == runtime_path(str_view(runtime_dir), "gemini-assistant.pid"@),
{
    in_runtime_dir(runtime_dir, "gemini-assistant.pid")
}

/// The pidfile of a one-shot question, which has nothing to do with a
/// session's.
pub fn ask_pidfile_path(runtime_dir: Option<&str>) -> (r: String)
    ensures
        r@ == runtime_path(str_view(runtime_dir), "gemini-assistant-ask.pid"@),
{
    in_runtime_dir(runtime_dir, "gemini-assistant-ask.pid")
}

/// A question and a session never share a pidfile.
pub proof fn law_question_has_its_own_pidfile(runtime_dir: Option<Seq<char>>)
    ensures
        runtime_path(runtime_dir, "gemini-assistant-ask.pid"@) != runtime_path(
            runtime_dir,
            "gemini-assistant.pid"@,
        ),
{
    reveal_strlit("gemini-assistant-ask.pid");
    reveal_strlit("gemini-assistant.pid");
    assert("gemini-assistant-ask.pid"@[0] == 'g' && "gemini-assistant.pid"@[0] == 'g');
    assert(runtime_path(runtime_dir, "gemini-assistant-ask.pid"@).len() != runtime_path(
        runtime_dir,
        "gemini-assistant.pid"@,
    ).len());
}

/// Whether the microphone of a session is open.
#[derive(Debug, Clone, Copy, PartialEq, Eq, Structural)]
pub enum PidState {
    Live,
    Paused,
}

/// How a state is written.
pub open spec fn state_name(state: PidState) -> Seq<char> {
    match state {
        PidState::Live => "live"@,
        PidState::Paused => "paused"@,
    }
}

/// How a state is read: whatever is not `paused` is live.
pub open spec fn parsed_state(s: Seq<char>) -> PidState {
    if trimmed(s) == "paused"@ {
        PidState::Paused
    } else {
        PidState::Live
    }
}

impl PidState {
    /// How the state is written.
    pub fn as_str(self) -> (r: &'static str)
        ensures
            r@ == state_name(self),
    {
        match self {
            PidState::Live => "live",
            PidState::Paused => "paused",
        }
    }

    /// Reads a state.
    pub fn parse(s: &str) -> (r: PidState)
        ensures
            r == parsed_state(s@),
    {
        parse_state(&chars_of(s))
    }
}

fn parse_state(s: &[char]) -> (r: PidState)
    ensures
        r == parsed_state(s@),
{
    if same_chars(&trim(s), &chars_of("paused")) {
        PidState::Paused
    } else {
        PidState::Live
    }
}

/// What a pidfile says: a process id on its first line and a state on its
/// second.  Without a second line the session is live.
pub open spec fn parsed_pidfile(text: Seq<char>) -> Option<(int, PidState)> {
    let rows = lines(text);
    if rows.len() == 0 {
        None
    } else {
        match parsed_integer(trimmed(rows[0]), i32::MIN as int, i32::MAX as int) {
            None => None,
            Some(pid) => Some(
                (
                    pid,
                    if rows.len() > 1 {
                        parsed_state(rows[1])
                    } else {
                        PidState::Live
                    },
                ),
            ),
        }
    }
}

/// Reads the text of a pidfile; `None` where there is no file.
pub fn read_pidfile(text: Option<&str>) -> (r: Option<(i32, PidState)>)
    ensures
        text is None ==> r is None,
        text matches Some(t) ==> parsed_pidfile(t@) == (match r {
            Some((pid, state)) => Some((pid as int, state)),
            None => None::<(int, PidState)>,
        }),
{
    match text {
        None => None,
        Some(t) => {
            let rows: Vec<Vec<char>> = split_lines(&chars_of(t));
            let ghost views = lines(t@);
            assert(rows@.map_values(|l: Vec<char>| l@) == views);
            assert(views.len() == rows@.len());
            if rows.len() == 0 {
                return None;
            }
            assert(views[0] == rows@[0]@);
            match parse_i32(&trim(&rows[0])) {
                None => None,
                Some(pid) => {
                    let state: PidState = if rows.len() > 1 {
                        assert(views[1] == rows@[1]@);
                        parse_state(&rows[1])
                    } else {
                        PidState::Live
                    };
                    Some((pid, state))
                },
            }
        },
    }
}

/// The text of a pidfile.
pub open spec fn rendered_pidfile(pid: int, state: PidState) -> Seq<char> {
    signed_decimal(pid).push('\n') + state_name(state).push('\n')
}

/// The text that a session puts into its pidfile.
pub fn write_pidfile(pid: i32, state: PidState) -> (r: String)
    ensures
        r@ == rendered_pidfile(pid as int, state),
{
    let mut r: String = String::new();
    push_integer(&mut r, pid);
    r.push('\n');
    push_text(&mut r, state.as_str());
    r.push('\n');
    assert(r@ =~= rendered_pidfile(pid as int, state));
    r
}

/// Two lines without a line feed or a carriage return come back from the text that they make up.
proof fn lemma_two_lines(first: Seq<char>, second: Seq<char>)
    requires
        forall|i: int| 0 <= i < first.len() ==> first[i] != '\n' && first[i] != '\r',
        forall|i: int| 0 <= i < second.len() ==> second[i] != '\n' && second[i] != '\r',
    ensures
        lines(first.push('\n') + second.push('\n')) == seq![first, second],
{
    lemma_first_line(first, second.push('\n'));
    assert(second.push('\n') =~= second.push('\n') + Seq::<char>::empty());
    lemma_first_line(second, Seq::<char>::empty());
    assert(lines(Seq::<char>::empty()) =~= Seq::<Seq<char>>::empty());
    assert(seq![first] + (seq![second] + Seq::<Seq<char>>::empty()) =~= seq![first, second]);
}

/// An integer is written with digits and a sign.
proof fn lemma_integer_chars(n: int)
    ensures
        signed_decimal(n).len() > 0,
        forall|i: int|
            0 <= i < signed_decimal(n).len() ==> is_digit(#[trigger] signed_decimal(n)[i]) || signed_decimal(n)[i] == '-',
{
    let size = if n < 0 { (-n) as nat } else { n as nat };
    law_decimal_reads_back(size);
    assert forall|i: int| 0 <= i < signed_decimal(n).len() implies is_digit(#[trigger] signed_decimal(n)[i])
        || signed_decimal(n)[i] == '-' by {
        if n < 0 {
            if i > 0 {
                assert(signed_decimal(n)[i] == decimal(size)[i - 1]);
            }
        } else {
            assert(signed_decimal(n)[i] == decimal(size)[i]);
        }
    }
}

/// The name of a state is one word, and reads back as the state.
proof fn lemma_state_name(state: PidState)
    ensures
        forall|i: int| 0 <= i < state_name(state).len() ==> !is_white_space(#[trigger] state_name(state)[i]),
        parsed_state(state_name(state)) == state,
{
    reveal_strlit("live");
    reveal_strlit("paused");
    lemma_untrimmed(state_name(state));
    assert("live"@.len() != "paused"@.len());
}

/// What is written into a pidfile is read back from it.
pub proof fn law_pidfile_reads_back(pid: int, state: PidState)
    requires
        i32::MIN <= pid <= i32::MAX,
    ensures
        parsed_pidfile(rendered_pidfile(pid, state)) == Some((pid, state)),
{
    law_integer_reads_back(pid, i32::MIN as int, i32::MAX as int);
    lemma_integer_chars(pid);
    lemma_state_name(state);
    lemma_untrimmed(signed_decimal(pid));
    lemma_two_lines(signed_decimal(pid), state_name(state));
}

/// A pidfile with nothing but a process id, as older ones are, names a live
/// session; so does one whose second line is anything but `paused`.
pub proof fn law_pidfile_without_a_state_is_live(pid: int, word: Seq<char>)
    requires
        i32::MIN <= pid <= i32::MAX,
        forall|i: int| 0 <= i < word.len() ==> word[i] != '\n' && word[i] != '\r',
    ensures
        parsed_pidfile(signed_decimal(pid)) == Some((pid, PidState::Live)),
        parsed_pidfile(signed_decimal(pid).push('\n')) == Some((pid, PidState::Live)),
        parsed_pidfile(signed_decimal(pid).push('\n') + word.push('\n')) == Some(
            (
                pid,
                if trimmed(word) == "paused"@ {
                    PidState::Paused
                } else {
                    PidState::Live
                },
            ),
        ),
{
    law_integer_reads_back(pid, i32::MIN as int, i32::MAX as int);
    lemma_integer_chars(pid);
    lemma_untrimmed(signed_decimal(pid));
    lemma_one_line(signed_decimal(pid));
    lemma_two_lines(signed_decimal(pid), word);
}

/// A file names a process only by a decimal number on its first line.
pub proof fn law_pidfile_names_a_process_by_its_number(row: Seq<char>, rest: Seq<char>, i: int)
    requires
        forall|j: int| 0 <= j < row.len() ==> row[j] != '\n' && row[j] != '\r',
        trimmed(row) == row,
        0 <= i < row.len(),
        !('0' <= row[i] <= '9'),
        i > 0 || (row[0] != '+' && row[0] != '-'),
    ensures
        parsed_pidfile(row.push('\n') + rest) is None,
        parsed_pidfile(Seq::empty()) is None,
{
    lemma_first_line(row, rest);
    let rows = lines(row.push('\n') + rest);
    assert(rows[0] == row);
    let signed = row[0] == '+' || row[0] == '-';
    let digits = if signed { row.drop_first() } else { row };
    if signed {
        assert(digits[i - 1] == row[i]);
    }
    assert(!is_decimal(digits));
    assert(lines(Seq::<char>::empty()).len() == 0);
}

/// What Linux keeps of the name of a process: its first 15 characters.
pub open spec fn kept_name(name: Seq<char>) -> Seq<char> {
    if name.len() < 15 {
        name
    } else {
        name.take(15)
    }
}

/// Whether `comm`, as read from `/proc/<pid>/comm`, is the name of a process
/// whose full name is `expected`: only what Linux keeps of a name counts.
pub open spec fn is_comm_of(comm: Seq<char>, expected: Seq<char>) -> bool {
    kept_name(trimmed_end(comm)) == kept_name(expected)
}

/// The name that Linux gives for a process is its own name as far as Linux keeps
/// it: a short name has to be the same, and of a long one the first 15
/// characters.
pub proof fn law_comm_is_compared_as_far_as_it_is_kept(a: Seq<char>, b: Seq<char>)
    requires
        a.len() > 0,
        !is_white_space(a.last()),
    ensures
        a.len() < 15 || b.len() < 15 ==> (is_comm_of(a.push('\n'), b) <==> a == b),
        a.len() >= 15 && b.len() >= 15 ==> (is_comm_of(a.push('\n'), b) <==> forall|i: int|
            0 <= i < 15 ==> #[trigger] a[i] == b[i]),
        is_comm_of(a.push('\n'), b) <==> is_comm_of(a, b),
        b.len() > 15 ==> (is_comm_of(a, b.take(15)) <==> is_comm_of(a, b)),
{
    assert(a.push('\n').drop_last() =~= a);
    assert(trimmed_end(a) == a);
    assert(trimmed_end(a.push('\n')) == a);
    if a.len() >= 15 && b.len() >= 15 {
        assert forall|i: int| 0 <= i < 15 implies (a.take(15)[i] == #[trigger] a[i] && b.take(15)[i] == b[i]) by {}
        if is_comm_of(a, b) {
            assert forall|i: int| 0 <= i < 15 implies #[trigger] a[i] == b[i] by {
                assert(a.take(15)[i] == b.take(15)[i]);
            }
        } else if forall|i: int| 0 <= i < 15 ==> #[trigger] a[i] == b[i] {
            assert(a.take(15) =~= b.take(15));
        }
    }
    if b.len() > 15 {
        assert(b.take(15).take(15) =~= b.take(15));
    }
}

/// The first 15 characters of a name.
fn keep_name(name: Vec<char>) -> (r: Vec<char>)
    ensures
        r@ == kept_name(name@),
{
    if name.len() < 15 {
        name
    } else {
        assert(name@.take(15) =~= name@.subrange(0, 15));
        part_of(&name, 0, 15)
    }
}

/// Compares a name that Linux may have cut to 15 characters with a full name.
pub fn comm_matches(comm: &str, expected: &str) -> (r: bool)
    ensures
        r == is_comm_of(comm@, expected@),
{
    same_chars(&keep_name(trim_end(&chars_of(comm))), &keep_name(chars_of(expected)))
}

/// Whether a process runs this program, by its `comm`; `None` where there is
/// no such process.
pub fn is_our_process(comm: Option<&str>) -> (r: bool)
    ensures
        r == (comm matches Some(c) && is_comm_of(c@, PROCESS_NAME@)),
{
    match comm {
        Some(c) => comm_matches(c, PROCESS_NAME),
        None => false,
    }
}

/// The session that a pidfile names, where there is one.
pub open spec fn named_session(text: Option<Seq<char>>) -> Option<(int, PidState)> {
    match text {
        Some(t) => parsed_pidfile(t),
        None => None,
    }
}

/// The process that a pidfile names, where there is one.
pub open spec fn named_process(text: Option<Seq<char>>) -> Option<int> {
    match named_session(text) {
        Some((pid, _)) => Some(pid),
        None => None,
    }
}

/// `r` is what comes of an entry of the pidfile, by what the two probes may
/// answer: that the process is alive or dead, and that it is this program or a
/// stranger.
pub open spec fn is_confirmed<T>(
    entry: Option<T>,
    alive: bool,
    dead: bool,
    ours: bool,
    stranger: bool,
    r: Option<T>,
) -> bool {
    match r {
        Some(e) => entry == Some(e) && alive && ours,
        None => entry is Some ==> dead || stranger,
    }
}

/// A session is found by its pidfile, live or paused, where both probes say yes
/// to its process, and only there.
pub proof fn law_session_is_found_by_its_pidfile(
    any: Seq<char>,
    pid: int,
    state: PidState,
    maybe: bool,
    found: Option<(int, PidState)>,
    owner: Option<int>,
)
    requires
        i32::MIN <= pid <= i32::MAX,
    ensures
        named_session(Some(any)) == parsed_pidfile(any),
        named_process(Some(any)) matches Some(p) ==> (parsed_pidfile(any) matches Some((q, _)) && p == q),
        parsed_pidfile(any) is Some ==> named_process(Some(any)) is Some,
        ({
            let text = Some(rendered_pidfile(pid, state));
            &&& is_confirmed(named_session(text), true, false, true, false, found) ==> found == Some((pid, state))
            &&& is_confirmed(named_process(text), true, false, true, false, owner) ==> owner == Some(pid)
            &&& is_confirmed(named_session(text), false, true, maybe, maybe, found) ==> found is None
            &&& is_confirmed(named_process(text), false, true, maybe, maybe, owner) ==> owner is None
            &&& is_confirmed(named_session(text), true, false, false, true, found) ==> found is None
            &&& is_confirmed(named_process(text), true, false, false, true, owner) ==> owner is None
            &&& is_confirmed(named_session(None), maybe, maybe, maybe, maybe, found) ==> found is None
            &&& is_confirmed(named_process(None), maybe, maybe, maybe, maybe, owner) ==> owner is None
        }),
{
    law_pidfile_reads_back(pid, state);
}

/// The session that the pidfile names, if its process is alive and is this
/// program.  Only that process is asked about, and who it is only if it is
/// alive.
pub fn find_live_session<A: Fn(i32) -> bool, I: Fn(i32) -> bool>(
    text: Option<&str>,
    is_alive: A,
    identity_matches: I,
) -> (r: Option<(i32, PidState)>)
    requires
        text matches Some(t) ==> (parsed_pidfile(t@) matches Some((p, _)) ==> {
            &&& is_alive.requires((p as i32,))
            &&& is_alive.ensures((p as i32,), true) ==> identity_matches.requires((p as i32,))
        }),
    ensures
        ({
            let entry = named_session(str_view(text));
            let p = (entry->0).0 as i32;
            is_confirmed(
                entry,
                is_alive.ensures((p,), true),
                is_alive.ensures((p,), false),
                identity_matches.ensures((p,), true),
                identity_matches.ensures((p,), false),
                match r {
                    Some((pid, state)) => Some((pid as int, state)),
                    None => None,
                },
            )
        }),
{
    match read_pidfile(text) {
        None => None,
        Some((pid, state)) => {
            if is_alive(pid) && identity_matches(pid) {
                Some((pid, state))
            } else {
                None
            }
        },
    }
}

/// The process that owns the pidfile, if it is alive and is this program.
pub fn find_live_owner<A: Fn(i32) -> bool, I: Fn(i32) -> bool>(
    text: Option<&str>,
    is_alive: A,
    identity_matches: I,
) -> (r: Option<i32>)
    requires
        text matches Some(t) ==> (parsed_pidfile(t@) matches Some((p, _)) ==> {
            &&& is_alive.requires((p as i32,))
            &&& is_alive.ensures((p as i32,), true) ==> identity_matches.requires((p as i32,))
        }),
    ensures
        ({
            let entry = named_process(str_view(text));
            let p = entry->0 as i32;
            is_confirmed(
                entry,
                is_alive.ensures((p,), true),
                is_alive.ensures((p,), false),
                identity_matches.ensures((p,), true),
                identity_matches.ensures((p,), false),
                match r {
                    Some(pid) => Some(pid as int),
                    None => None,
                },
            )
        }),
{
    match find_live_session(text, is_alive, identity_matches) {
        Some((pid, _)) => Some(pid),
        None => None,
    }
}

/// What came of an attempt to create the pidfile, with the claimer's text in
/// it, where there is none.
#[derive(Debug, Clone, Copy, PartialEq, Eq, Structural)]
pub enum Creation {
    Created,
    /// Somebody was first: the live owner, or `None` where the file is stale.
    Exists { owner: Option<i32> },
    /// The file system refused for another reason.
    Failed,
}

/// What to do after an attempt to create the pidfile.
#[derive(Debug, Clone, Copy, PartialEq, Eq, Structural)]
pub enum ClaimStep {
    /// The file is ours: become the session.
    Claimed,
    /// A session is running: leave the file alone and signal its owner.
    SignalOwner { owner: i32 },
    /// Remove the stale file and try once more.
    ClearAndRetry,
    /// Remove the stale file and give up.
    ClearAndGiveUp,
    /// Report the failure.
    Fail,
}

/// Two attempts are made to create the file.
pub const CLAIM_ATTEMPTS: u32 = 2;

/// What the attempt number `attempt` (from zero) leads to.
pub open spec fn claim_step(attempt: nat, creation: Creation) -> ClaimStep {
    match creation {
        Creation::Created => ClaimStep::Claimed,
        Creation::Exists { owner: Some(pid) } => ClaimStep::SignalOwner { owner: pid },
        Creation::Exists { owner: None } => if attempt + 1 < CLAIM_ATTEMPTS {
            ClaimStep::ClearAndRetry
        } else {
            ClaimStep::ClearAndGiveUp
        },
        Creation::Failed => ClaimStep::Fail,
    }
}

/// Decides what an attempt to create the pidfile leads to.
///
/// That the file is created only where there is none keeps two presses of a
/// hotkey from both becoming sessions: the second one's creation fails.  A
/// file whose owner is gone is cleared, once.  Claims are made one at a time,
/// under a lock, so that the file that is cleared is the one that was judged.
pub fn attempt_claim(attempt: u32, creation: Creation) -> (step: ClaimStep)
    ensures
        step == claim_step(attempt as nat, creation),
{
    match creation {
        Creation::Created => ClaimStep::Claimed,
        Creation::Exists { owner: Some(pid) } => ClaimStep::SignalOwner { owner: pid },
        Creation::Exists { owner: None } => if attempt < CLAIM_ATTEMPTS - 1 {
            ClaimStep::ClearAndRetry
        } else {
            ClaimStep::ClearAndGiveUp
        },
        Creation::Failed => ClaimStep::Fail,
    }
}

/// Claiming never clears the pidfile of a live owner, and claims only a file
/// that it created.
pub proof fn law_live_owner_is_kept(attempt: nat, creation: Creation)
    ensures
        creation matches Creation::Exists { owner: Some(pid) } ==> claim_step(attempt, creation) == (
        ClaimStep::SignalOwner { owner: pid }),
        claim_step(attempt, creation) is ClearAndRetry || claim_step(attempt, creation) is ClearAndGiveUp
            ==> creation == (Creation::Exists { owner: None }),
        claim_step(attempt, creation) is Claimed <==> creation is Created,
{
}

/// A file system that refuses is reported, at whichever attempt, and nothing
/// else is; a stale file is cleared, and the first time tried again.
pub proof fn law_claim_fails_only_where_the_file_system_does(attempt: nat, creation: Creation)
    ensures
        claim_step(attempt, creation) is Fail <==> creation is Failed,
        claim_step(0, Creation::Exists { owner: None }) is ClearAndRetry,
        creation == (Creation::Exists { owner: None }) ==> claim_step(attempt, creation) is ClearAndRetry
            || claim_step(attempt, creation) is ClearAndGiveUp,
{
}

/// Claiming ends: the last attempt is never followed by another.
pub proof fn law_claim_is_bounded(attempt: nat, creation: Creation)
    requires
        attempt + 1 >= CLAIM_ATTEMPTS,
    ensures
        claim_step(attempt, creation) !is ClearAndRetry,
{
}

/// The pidfile, by the process that it names, and the sessions that run.
pub struct Desk {
    pub file: Option<i32>,
    pub sessions: Set<i32>,
}

/// Where a process stands that claims the pidfile.
pub enum Stage {
    /// It has yet to try to create the file.
    Creating,
    /// The creation failed: it has yet to look who the owner is.
    Looking,
    /// The file is stale: it has yet to remove it.
    Clearing,
}

/// The claim of the process that holds the lock.
pub struct Turn {
    pub pid: i32,
    pub attempt: nat,
    pub stage: Stage,
}

/// Processes that race for the pidfile.  One claims at a time: the one that
/// holds the lock.
pub struct Race {
    pub desk: Desk,
    pub turn: Option<Turn>,
}

/// What a process that races does, in one step.
pub enum RaceStep {
    /// It takes the lock, if nobody holds it.
    Lock { pid: i32 },
    /// It tries to create the file.
    Create { pid: i32 },
    /// The file system refuses the creation.
    Refuse { pid: i32 },
    /// It looks who owns the file; `reused` says whether the number of a
    /// process that is gone belongs to another one that runs this program.
    Look { pid: i32, reused: bool },
    /// It removes the file.
    Clear { pid: i32 },
    /// It is a session, and writes its pidfile anew, paused or live.
    Mark { pid: i32 },
    /// It is a session, and ends.
    End { pid: i32 },
    /// It is gone, and leaves everything as it is but the lock.
    Crash { pid: i32 },
}

/// The process whose step it is.
pub open spec fn actor(step: RaceStep) -> i32 {
    match step {
        RaceStep::Lock { pid } => pid,
        RaceStep::Create { pid } => pid,
        RaceStep::Refuse { pid } => pid,
        RaceStep::Look { pid, .. } => pid,
        RaceStep::Clear { pid } => pid,
        RaceStep::Mark { pid } => pid,
        RaceStep::End { pid } => pid,
        RaceStep::Crash { pid } => pid,
    }
}

/// It is the turn of `pid`, at the stage `stage` of its claim.
pub open spec fn is_at(race: Race, pid: i32, stage: Stage) -> bool {
    race.turn matches Some(turn) && turn.pid == pid && turn.stage == stage
}

/// Who owns the file, to one whose creation failed.
pub open spec fn owner_seen(desk: Desk, reused: bool) -> Option<i32> {
    match desk.file {
        Some(p) => if desk.sessions.contains(p) || reused {
            Some(p)
        } else {
            None
        },
        None => None,
    }
}

/// What the claim goes on with after a look at the owner.
pub open spec fn turn_after_look(turn: Turn, owner: Option<i32>) -> Option<Turn> {
    match claim_step(turn.attempt, Creation::Exists { owner }) {
        ClaimStep::ClearAndRetry | ClaimStep::ClearAndGiveUp => Some(
            Turn { stage: Stage::Clearing, ..turn },
        ),
        _ => None,
    }
}

/// What the claim goes on with after the removal of a stale file.
pub open spec fn turn_after_clear(turn: Turn) -> Option<Turn> {
    match claim_step(turn.attempt, Creation::Exists { owner: None }) {
        ClaimStep::ClearAndRetry => Some(
            Turn { attempt: turn.attempt + 1, stage: Stage::Creating, ..turn },
        ),
        _ => None,
    }
}

/// The race after a step.  A step that is not the process's to take changes
/// nothing.
pub open spec fn after_race_step(race: Race, step: RaceStep) -> Race {
    let desk = race.desk;
    match step {
        RaceStep::Lock { pid } => if race.turn is None && !desk.sessions.contains(pid) {
            Race { turn: Some(Turn { pid, attempt: 0, stage: Stage::Creating }), ..race }
        } else {
            race
        },
        RaceStep::Create { pid } => if !is_at(race, pid, Stage::Creating) {
            race
        } else if desk.file is None {
            Race {
                desk: Desk { file: Some(pid), sessions: desk.sessions.insert(pid) },
                turn: None,
            }
        } else {
            Race { turn: Some(Turn { stage: Stage::Looking, ..race.turn->0 }), ..race }
        },
        RaceStep::Refuse { pid } => if is_at(race, pid, Stage::Creating) {
            Race { turn: None, ..race }
        } else {
            race
        },
        RaceStep::Look { pid, reused } => if is_at(race, pid, Stage::Looking) {
            Race { turn: turn_after_look(race.turn->0, owner_seen(desk, reused)), ..race }
        } else {
            race
        },
        RaceStep::Clear { pid } => if is_at(race, pid, Stage::Clearing) {
            Race { desk: Desk { file: None, ..desk }, turn: turn_after_clear(race.turn->0) }
        } else {
            race
        },
        RaceStep::Mark { pid } => if desk.sessions.contains(pid) {
            Race { desk: Desk { file: Some(pid), ..desk }, ..race }
        } else {
            race
        },
        RaceStep::End { pid } => if desk.sessions.contains(pid) {
            Race { desk: Desk { file: None, sessions: desk.sessions.remove(pid) }, ..race }
        } else {
            race
        },
        RaceStep::Crash { pid } => Race {
            desk: Desk { sessions: desk.sessions.remove(pid), ..desk },
            turn: match race.turn {
                Some(turn) => if turn.pid == pid {
                    None
                } else {
                    Some(turn)
                },
                None => None,
            },
        },
    }
}

/// The race after some steps, from a desk that `start` describes, with the
/// lock free.
pub open spec fn after_race(start: Desk, steps: Seq<RaceStep>) -> Race
    decreases steps.len(),
{
    if steps.len() == 0 {
        Race { desk: start, turn: None }
    } else {
        after_race_step(after_race(start, steps.drop_last()), steps.last())
    }
}

/// The pidfile names each session that runs.  It may also be stale: name a
/// process that is gone.
pub open spec fn names_sessions(desk: Desk) -> bool {
    forall|p: i32| #[trigger] desk.sessions.contains(p) ==> desk.file == Some(p)
}

/// What holds all through a race: the pidfile names each session, and is
/// removed by a claim only while there is none.
pub open spec fn is_orderly(race: Race) -> bool {
    &&& names_sessions(race.desk)
    &&& race.turn is Some && (race.turn->0).stage is Clearing ==> forall|p: i32|
        !race.desk.sessions.contains(p)
}

/// Any number of presses, ends and crashes, interleaved in any way, never race
/// into two sessions, whether the start has no pidfile, a stale one, or that
/// of a running session.
pub proof fn law_presses_never_race_into_two_sessions(start: Desk, steps: Seq<RaceStep>)
    requires
        names_sessions(start),
    ensures
        ({
            let race = after_race(start, steps);
            &&& is_orderly(race)
            &&& forall|p: i32, q: i32|
                race.desk.sessions.contains(p) && race.desk.sessions.contains(q) ==> p == q
        }),
    decreases steps.len(),
{
    if steps.len() > 0 {
        law_presses_never_race_into_two_sessions(start, steps.drop_last());
    }
}

/// While a session runs, no other process ends it, takes its pidfile away or
/// becomes a session.
pub proof fn law_session_is_left_alone(race: Race, step: RaceStep, p: i32)
    requires
        is_orderly(race),
        race.desk.sessions.contains(p),
        actor(step) != p,
    ensures
        after_race_step(race, step).desk == race.desk,
{
    let after = after_race_step(race, step).desk;
    assert(!race.desk.sessions.contains(actor(step)));
    assert(after.sessions =~= race.desk.sessions);
}

/// A press that nobody disturbs becomes the session where there is no pidfile
/// or a stale one, and leaves everything as it is where a session runs.
pub proof fn law_press_starts_a_session(start: Desk, pid: i32)
    requires
        names_sessions(start),
        !start.sessions.contains(pid),
    ensures
        ({
            let taken = Desk { file: Some(pid), sessions: start.sessions.insert(pid) };
            let tries = seq![RaceStep::Lock { pid }, RaceStep::Create { pid }];
            let looks = tries.push(RaceStep::Look { pid, reused: false });
            let clears = looks.push(RaceStep::Clear { pid }).push(RaceStep::Create { pid });
            &&& start.file is None ==> after_race(start, tries) == (Race { desk: taken, turn: None })
            &&& start.file is Some && !start.sessions.contains(start.file->0) ==> after_race(
                start,
                clears,
            ) == (Race { desk: taken, turn: None })
            &&& start.file is Some && start.sessions.contains(start.file->0) ==> after_race(start, looks)
                == (Race { desk: start, turn: None })
        }),
{
    let lock = RaceStep::Lock { pid };
    let create = RaceStep::Create { pid };
    let look = RaceStep::Look { pid, reused: false };
    let clear = RaceStep::Clear { pid };
    let tries = seq![lock, create];
    let looks = tries.push(look);
    let clears = looks.push(clear).push(create);
    assert(seq![lock].drop_last() =~= Seq::<RaceStep>::empty());
    assert(tries.drop_last() =~= seq![lock]);
    assert(looks.drop_last() =~= tries);
    assert(looks.push(clear).drop_last() =~= looks);
    assert(clears.drop_last() =~= looks.push(clear));
    reveal_with_fuel(after_race, 3);
}

} // verus!
