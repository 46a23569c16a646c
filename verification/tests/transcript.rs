use gemini_assistant::transcript::{data_dir, latest, now_secs, secs_or_zero, Entry, Session};

fn entry(name: &str, modified: Option<i128>) -> Entry {
    Entry { name: name.to_string(), modified }
}

#[test]
fn new_session_id_includes_pid() {
    let session = Session::new(12345);
    assert!(session.id.ends_with("-12345"));
    assert!(session.turns.is_empty());
}

#[test]
fn add_turn_appends_with_timestamp() {
    let mut session = Session::new(1);
    session.add_turn("what time is it".into(), "it's noon".into());
    assert_eq!(session.turns.len(), 1);
    assert_eq!(session.turns[0].question, "what time is it");
    assert_eq!(session.turns[0].answer, "it's noon");
}

#[test]
fn a_record_is_stamped_with_the_time() {
    let mut session = Session::started_at(1_700_000_000, 42);
    assert_eq!(session.id, "1700000000-42");
    assert_eq!(session.started, 1_700_000_000);
    session.add_turn_at("q".into(), "a".into(), 1_700_000_007);
    assert_eq!(session.turns[0].timestamp, 1_700_000_007);
}

#[test]
fn the_clock_is_past_the_epoch() {
    let before = now_secs();
    let session = Session::new(1);
    assert!(before > 1_500_000_000);
    assert!(session.started >= before && session.started <= now_secs());
    assert_eq!(secs_or_zero(None), 0);
    assert_eq!(secs_or_zero(Some(3)), 3);
}

#[test]
fn different_sessions_have_different_ids() {
    let starts = [(1, 11), (11, 1), (1, 1), (11, 11), (0, 111), (111, 0)];
    for (i, &(now, pid)) in starts.iter().enumerate() {
        for &(later, other) in &starts[i + 1..] {
            assert_ne!(Session::started_at(now, pid).id, Session::started_at(later, other).id);
        }
    }
}

#[test]
fn a_record_is_saved_under_its_id() {
    let session = Session::started_at(5, 999);
    assert_eq!(session.path_in("/data"), "/data/5-999.json");
    assert_eq!(session.save(Some("/xdg"), None), "/xdg/gemini-assistant/sessions/5-999.json");
    assert_eq!(
        session.save(None, Some("/home/u")),
        "/home/u/.local/share/gemini-assistant/sessions/5-999.json"
    );
    assert_eq!(data_dir(None, None), "/tmp/.local/share/gemini-assistant/sessions");
}

#[test]
fn latest_in_empty_dir_is_none() {
    assert_eq!(latest(&Vec::new()), None);
}

#[test]
fn latest_in_returns_the_most_recently_modified_session() {
    let entries = vec![entry("1-1.json", Some(1_000)), entry("2-2.json", Some(1_001)), entry("0-0.json", Some(-5))];
    assert_eq!(latest(&entries), Some(1));
    assert_eq!(latest(&vec![entry("a.json", None), entry("b.json", Some(i128::MIN))]), Some(1));
    assert_eq!(latest(&vec![entry("a.json", Some(1)), entry("b.json", Some(1))]), Some(1));
}

#[test]
fn latest_in_ignores_non_json_files() {
    assert_eq!(latest(&vec![entry("not-a-session.txt", Some(9))]), None);
    assert_eq!(latest(&vec![entry(".json", Some(9)), entry("json", Some(9)), entry("a.JSON", Some(9))]), None);
    assert_eq!(latest(&vec![entry("a.json", Some(1)), entry("b.txt", Some(2))]), Some(0));
}

#[test]
fn the_last_answer_is_the_last_that_there_is() {
    let mut session = Session::started_at(1, 1);
    assert_eq!(session.last_answer(), None);
    session.add_turn("q1".into(), "a1".into());
    session.add_turn("q2".into(), "a2".into());
    assert_eq!(session.last_answer(), Some("a2"));
    session.add_turn("q3".into(), "".into());
    assert_eq!(session.last_answer(), Some("a2"));
}
