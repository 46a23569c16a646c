//! The local record of what was said in a session.
//!
//! One file per session.  It is a record to read, nothing more: the context of
//! a conversation lives on the server, and the transcription of what the user
//! said may be incomplete or missing, so nothing here feeds back into the
//! model.

use crate::config::str_view;
use crate::text::{
    chars_of, copy_text, decimal, join, joined, law_decimal_reads_back, push_decimal, push_text,
};
use vstd::prelude::*;

verus! {

/// One question and its answer.
#[derive(Debug, Clone, PartialEq)]
pub struct Turn {
    pub question: String,
    pub answer: String,
    pub timestamp: u64,
}

/// The record of one session.
#[derive(Debug, Clone, PartialEq)]
pub struct Session {
    pub id: String,
    pub started: u64,
    pub turns: Vec<Turn>,
}

/// `SystemTime::elapsed` on the Unix epoch: the whole seconds that the system
/// clock is past it, or `None` where the clock is set to a time before it.
/// What it reads is the machine's business, so nothing is claimed.
#[verifier::external_body]
fn clock_secs() -> Option<u64> {
    std::time::UNIX_EPOCH.elapsed().ok().map(|d| d.as_secs())
}

/// The time stamp for a reading of the clock: zero for a clock that is set to
/// a time before the Unix epoch.
pub fn secs_or_zero(reading: Option<u64>) -> (r: u64)
    ensures
        r == (match reading {
            Some(secs) => secs,
            None => 0,
        }),
{
    match reading {
        Some(secs) => secs,
        None => 0,
    }
}

/// The time, in seconds since the Unix epoch.
pub fn now_secs() -> u64 {
    secs_or_zero(clock_secs())
}

/// The id of the session that process `pid` starts at time `now`.
pub open spec fn session_id(now: nat, pid: nat) -> Seq<char> {
    decimal(now).push('-') + decimal(pid)
}

/// Some turns, and another one behind them.
pub open spec fn with_turn(turns: Seq<Turn>, turn: Turn) -> Seq<Turn> {
    turns.push(turn)
}

impl Session {
    /// Starts a record.
    ///
    /// The id holds the time and the process id, so that no two sessions share
    /// one: no process id belongs to two processes at one time.
    pub fn new(pid: u32) -> (r: Self)
        ensures
            r.id@ == session_id(r.started as nat, pid as nat),
            r.turns@ == Seq::<Turn>::empty(),
    {
        Session::started_at(now_secs(), pid)
    }

    /// The record of a session that process `pid` starts at time `now`.
    pub fn started_at(now: u64, pid: u32) -> (r: Self)
        ensures
            r.id@ == session_id(now as nat, pid as nat),
            r.started == now,
            r.turns@ == Seq::<Turn>::empty(),
    {
        let mut id: String = String::new();
        push_decimal(&mut id, now);
        id.push('-');
        push_decimal(&mut id, pid as u64);
        assert(id@ =~= session_id(now as nat, pid as nat));
        Session { id, started: now, turns: Vec::new() }
    }

    /// Appends a turn, stamped with the time.
    pub fn add_turn(&mut self, question: String, answer: String)
        ensures
            final(self).id == old(self).id,
            final(self).started == old(self).started,
            final(self).turns@.len() == old(self).turns@.len() + 1,
            final(self).turns@.drop_last() == old(self).turns@,
            final(self).turns@.last().question == question,
            final(self).turns@.last().answer == answer,
    {
        self.add_turn_at(question, answer, now_secs());
        assert(self.turns@.drop_last() =~= old(self).turns@);
    }

    /// Appends a turn, stamped with `now`.
    pub fn add_turn_at(&mut self, question: String, answer: String, now: u64)
        ensures
            final(self).id == old(self).id,
            final(self).started == old(self).started,
            final(self).turns@ == with_turn(old(self).turns@, Turn { question, answer, timestamp: now }),
    {
        self.turns.push(Turn { question, answer, timestamp: now });
    }
}

/// A turn is added whole behind the turns that there are, however many those
/// are.
pub proof fn law_turn_is_added_behind(turns: Seq<Turn>, turn: Turn)
    ensures
        with_turn(turns, turn).len() == turns.len() + 1,
        with_turn(turns, turn).last() == turn,
        with_turn(turns, turn).drop_last() == turns,
{
    assert(with_turn(turns, turn).drop_last() =~= turns);
}

/// The id of a session ends with its process id.
pub proof fn law_session_id_ends_with_pid(now: nat, pid: nat)
    ensures
        (seq!['-'] + decimal(pid)).is_suffix_of(session_id(now, pid)),
{
    let id = session_id(now, pid);
    let tail = seq!['-'] + decimal(pid);
    assert(tail =~= id.subrange(id.len() - tail.len(), id.len() as int));
}

/// Two sessions that start at different times or in different processes have
/// different ids.
pub proof fn law_different_sessions_have_different_ids(a: nat, p: nat, b: nat, q: nat)
    ensures
        p != q ==> session_id(a, p) != session_id(b, q),
        a != b ==> session_id(a, p) != session_id(b, q),
{
    if session_id(a, p) == session_id(b, q) {
        let id = session_id(a, p);
        let (m, n) = (decimal(a).len() as int, decimal(b).len() as int);
        law_decimal_reads_back(a);
        law_decimal_reads_back(b);
        law_decimal_reads_back(p);
        law_decimal_reads_back(q);
        assert(id[m] == '-' && id[n] == '-');
        if m < n {
            assert(id[m] == decimal(b)[m]);
        } else if n < m {
            assert(id[n] == decimal(a)[n]);
        }
        assert(decimal(a) =~= id.take(m));
        assert(decimal(b) =~= id.take(m));
        assert(decimal(p) =~= id.skip(m + 1));
        assert(decimal(q) =~= id.skip(m + 1));
    }
}

/// The directory for records, by `XDG_DATA_HOME` and `HOME`.
pub open spec fn data_dir_path(xdg: Option<Seq<char>>, home: Option<Seq<char>>) -> Seq<char> {
    let base = match xdg {
        Some(dir) => dir,
        None => joined(
            match home {
                Some(dir) => dir,
                None => "/tmp"@,
            },
            ".local/share"@,
        ),
    };
    joined(joined(base, "gemini-assistant"@), "sessions"@)
}

/// The file that the record of a session is saved in.
pub open spec fn record_file(xdg: Option<Seq<char>>, home: Option<Seq<char>>, id: Seq<char>) -> Seq<char> {
    joined(data_dir_path(xdg, home), id + ".json"@)
}

/// Records are in a directory of their own, in the directory that
/// `XDG_DATA_HOME` names, or else in `.local/share` in the home directory; each
/// session has its own file there, which is found again as a record.
pub proof fn law_record_has_its_own_file(
    dir: Seq<char>,
    home: Option<Seq<char>>,
    id: Seq<char>,
    other: Seq<char>,
)
    requires
        dir.len() > 0,
        dir.last() != '/',
        id.len() > 0,
        id[0] != '/',
        other.len() > 0,
        other[0] != '/',
    ensures
        record_file(Some(dir), home, id) == dir + "/gemini-assistant/sessions/"@ + id + ".json"@,
        record_file(None, Some(dir), id) == dir + "/.local/share/gemini-assistant/sessions/"@ + id + ".json"@,
        record_file(None, None, id) == "/tmp/.local/share/gemini-assistant/sessions/"@ + id + ".json"@,
        id != other ==> record_file(Some(dir), home, id) != record_file(Some(dir), home, other),
        is_record_name(id + ".json"@),
{
    reveal_strlit("/gemini-assistant/sessions/");
    reveal_strlit("/.local/share/gemini-assistant/sessions/");
    reveal_strlit("/tmp/.local/share/gemini-assistant/sessions/");
    reveal_strlit("gemini-assistant");
    reveal_strlit("sessions");
    reveal_strlit(".local/share");
    reveal_strlit("/tmp");
    reveal_strlit(".json");
    let name = id + ".json"@;
    let start = dir + "/gemini-assistant/sessions/"@;
    assert(record_file(Some(dir), home, id) =~= start + id + ".json"@);
    assert(record_file(None, Some(dir), id) =~= dir + "/.local/share/gemini-assistant/sessions/"@ + id
        + ".json"@);
    assert(record_file(None, None, id) =~= "/tmp/.local/share/gemini-assistant/sessions/"@ + id + ".json"@);
    assert(".json"@ =~= name.subrange(name.len() - 5, name.len() as int));
    let (a, b) = (record_file(Some(dir), home, id), record_file(Some(dir), home, other));
    assert(b =~= start + other + ".json"@);
    if a == b {
        assert(id =~= a.subrange(start.len() as int, a.len() - 5));
        assert(other =~= b.subrange(start.len() as int, b.len() - 5));
    }
}

/// The directory that records are saved in.
pub fn data_dir(xdg: Option<&str>, home: Option<&str>) -> (r: String)
    ensures
        r@ == data_dir_path(str_view(xdg), str_view(home)),
{
    let base: String = match xdg {
        Some(dir) => copy_text(dir),
        None => match home {
            Some(dir) => join(dir, ".local/share"),
            None => join("/tmp", ".local/share"),
        },
    };
    join(&join(&base, "gemini-assistant"), "sessions")
}

impl Session {
    /// The file in `dir` that the record is saved in.
    pub fn path_in(&self, dir: &str) -> (r: String)
        ensures
            r@ == joined(dir@, self.id@ + ".json"@),
    {
        let mut name: String = copy_text(self.id.as_str());
        push_text(&mut name, ".json");
        join(dir, &name)
    }

    /// The file that the record is saved in.
    pub fn save(&self, xdg: Option<&str>, home: Option<&str>) -> (r: String)
        ensures
            r@ == record_file(str_view(xdg), str_view(home), self.id@),
    {
        self.path_in(&data_dir(xdg, home))
    }
}

/// A file in the directory for records.
pub struct Entry {
    /// The file's name.
    pub name: String,
    /// When it was last modified, in nanoseconds since the Unix epoch, where
    /// the file system says so.
    pub modified: Option<i128>,
}

/// Whether a file name has the extension `json`.
pub open spec fn is_record_name(name: Seq<char>) -> bool {
    ".json"@.is_suffix_of(name) && name.len() > ".json"@.len()
}

/// `a` is an earlier time than `b`; an unknown time is the earliest.
pub open spec fn is_earlier(a: Option<i128>, b: Option<i128>) -> bool {
    match (a, b) {
        (_, None) => false,
        (None, Some(_)) => true,
        (Some(x), Some(y)) => x < y,
    }
}

/// `i` is the record that was modified last; among equals, the one that the
/// directory lists last.
pub open spec fn is_latest(entries: Seq<Entry>, i: int) -> bool {
    &&& 0 <= i < entries.len()
    &&& is_record_name(entries[i].name@)
    &&& forall|j: int|
        0 <= j < entries.len() && is_record_name(#[trigger] entries[j].name@) ==> !is_earlier(
            entries[i].modified,
            entries[j].modified,
        ) && (j > i ==> is_earlier(entries[j].modified, entries[i].modified))
}

/// The latest record is one that no other record is newer than, and it is one
/// file: a record that is strictly newer than all others is it.
pub proof fn law_latest_record_is_the_newest(entries: Seq<Entry>, i: int, j: int)
    requires
        is_latest(entries, i),
        0 <= j < entries.len(),
        ".json"@.is_suffix_of(entries[j].name@),
        entries[j].name@.len() > 5,
    ensures
        entries[j].modified matches Some(t) ==> (entries[i].modified matches Some(u) && t <= u),
        entries[j].modified == entries[i].modified ==> j <= i,
        is_latest(entries, j) ==> i == j,
        (forall|k: int|
            0 <= k < entries.len() && k != j ==> (#[trigger] entries[k].modified matches Some(t) ==> (
            entries[j].modified matches Some(u) && t < u))) && entries[j].modified is Some ==> i == j,
        ".json"@.is_suffix_of(entries[i].name@),
        entries[i].name@.len() > 5,
{
    reveal_strlit(".json");
    assert(is_record_name(entries[j].name@));
}

fn record_name(name: &str) -> (r: bool)
    ensures
        r == is_record_name(name@),
{
    let chars: Vec<char> = chars_of(name);
    let n: usize = chars.len();
    let ext: Vec<char> = chars_of(".json");
    let k: usize = ext.len();
    if n <= k {
        return false;
    }
    let mut i: usize = 0;
    while i < k
        invariant
            i <= k < n,
            k == ext@.len(),
            n == chars@.len(),
            chars@ == name@,
            ext@ == ".json"@,
            forall|j: int| 0 <= j < i ==> ext@[j] == chars@[n - k + j],
        decreases k - i,
    {
        if chars[n - k + i] != ext[i] {
            assert(!ext@.is_suffix_of(chars@)) by {
                if ext@.is_suffix_of(chars@) {
                    assert(ext@[i as int] == chars@.subrange(n - k, n as int)[i as int]);
                }
            }
            return false;
        }
        i = i + 1;
    }
    assert(ext@ =~= chars@.subrange(n - k, n as int));
    true
}

fn earlier(a: Option<i128>, b: Option<i128>) -> (r: bool)
    ensures
        r == is_earlier(a, b),
{
    match b {
        None => false,
        Some(y) => match a {
            None => true,
            Some(x) => x < y,
        },
    }
}

/// Finds the record that was modified last.
///
/// A running session rewrites its record after every turn, so this is the
/// running session's record, or the last session's.
pub fn latest(entries: &Vec<Entry>) -> (r: Option<usize>)
    ensures
        r matches Some(i) ==> is_latest(entries@, i as int),
        r is None ==> forall|j: int| 0 <= j < entries@.len() ==> !is_record_name(#[trigger] entries@[j].name@),
{
    let mut best: Option<usize> = None;
    let mut i: usize = 0;
    assert(entries@.take(0) =~= Seq::<Entry>::empty());
    while i < entries.len()
        invariant
            i <= entries@.len(),
            best matches Some(b) ==> is_latest(entries@.take(i as int), b as int),
            best is None ==> forall|j: int| 0 <= j < i ==> !is_record_name(#[trigger] entries@[j].name@),
        decreases entries@.len() - i,
    {
        let ghost seen = entries@.take(i as int);
        let ghost next = entries@.take(i + 1);
        assert forall|j: int| 0 <= j < i implies seen[j] == #[trigger] next[j] by {}
        if record_name(entries[i].name.as_str()) {
            let newer: bool = match best {
                Some(b) => !earlier(entries[i].modified, entries[b].modified),
                None => true,
            };
            if newer {
                best = Some(i);
            }
        }
        assert(best matches Some(b) ==> is_latest(next, b as int));
        i = i + 1;
    }
    assert(entries@.take(i as int) =~= entries@);
    best
}

/// The answer of the last turn that has one.
pub open spec fn last_answer_in(turns: Seq<Turn>) -> Option<Seq<char>>
    decreases turns.len(),
{
    if turns.len() == 0 {
        None
    } else if turns.last().answer@.len() > 0 {
        Some(turns.last().answer@)
    } else {
        last_answer_in(turns.drop_last())
    }
}

/// The most recent answer is the one of the last turn that has an answer;
/// turns in which the model said nothing do not hide it.
pub proof fn law_last_answer_is_the_most_recent(turns: Seq<Turn>, i: int)
    requires
        -1 <= i < turns.len(),
        i >= 0 ==> turns[i].answer@.len() > 0,
        forall|j: int| i < j < turns.len() ==> (#[trigger] turns[j]).answer@.len() == 0,
    ensures
        last_answer_in(turns) == (if i >= 0 {
            Some(turns[i].answer@)
        } else {
            None
        }),
    decreases turns.len(),
{
    if turns.len() > 0 && i < turns.len() - 1 {
        let rest = turns.drop_last();
        assert(turns[turns.len() - 1].answer@.len() == 0);
        assert forall|j: int| i < j < rest.len() implies (#[trigger] rest[j]).answer@.len() == 0 by {
            assert(rest[j] == turns[j]);
        }
        law_last_answer_is_the_most_recent(rest, i);
    }
}

impl Session {
    /// The model's most recent answer.
    pub fn last_answer(&self) -> (r: Option<&str>)
        ensures
            str_view(r) == last_answer_in(self.turns@),
    {
        let mut n: usize = self.turns.len();
        assert(self.turns@.take(n as int) =~= self.turns@);
        while n > 0
            invariant
                n <= self.turns@.len(),
                last_answer_in(self.turns@) == last_answer_in(self.turns@.take(n as int)),
            decreases n,
        {
            assert(self.turns@.take(n as int).drop_last() =~= self.turns@.take(n - 1));
            if !self.turns[n - 1].answer.as_str().is_empty() {
                return Some(self.turns[n - 1].answer.as_str());
            }
            n = n - 1;
        }
        None
    }
}

} // verus!
