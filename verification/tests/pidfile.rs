use gemini_assistant::pidfile::{
    ask_pidfile_path, attempt_claim, comm_matches, find_live_owner, find_live_session, is_our_process, pidfile_path,
    read_pidfile, write_pidfile, ClaimStep, Creation, PidState, CLAIM_ATTEMPTS, PROCESS_NAME,
};

#[derive(Debug, PartialEq)]
enum ClaimOutcome {
    Claimed,
    SignaledOwner(i32),
    GaveUp,
    Failed,
}

/// Claims a pidfile that is kept in memory.
fn claim(
    file: &mut Option<String>,
    my_pid: i32,
    is_alive: impl Fn(i32) -> bool,
    identity_matches: impl Fn(i32) -> bool,
) -> ClaimOutcome {
    for attempt in 0..CLAIM_ATTEMPTS {
        let creation = if file.is_none() {
            *file = Some(write_pidfile(my_pid, PidState::Live));
            Creation::Created
        } else {
            Creation::Exists { owner: find_live_owner(file.as_deref(), &is_alive, &identity_matches) }
        };
        match attempt_claim(attempt, creation) {
            ClaimStep::Claimed => return ClaimOutcome::Claimed,
            ClaimStep::SignalOwner { owner } => return ClaimOutcome::SignaledOwner(owner),
            ClaimStep::ClearAndRetry => *file = None,
            ClaimStep::ClearAndGiveUp => {
                *file = None;
                return ClaimOutcome::GaveUp;
            }
            ClaimStep::Fail => return ClaimOutcome::Failed,
        }
    }
    ClaimOutcome::GaveUp
}

#[test]
fn comm_matches_handles_the_15_char_truncation() {
    assert!(comm_matches("gemini-assistan\n", PROCESS_NAME));
    assert!(comm_matches("gemini-assistan", PROCESS_NAME));
    assert!(!comm_matches("gemini-assistant", "short-name"));
    assert!(!comm_matches("bash\n", PROCESS_NAME));
    assert!(!comm_matches("sleep\n", PROCESS_NAME));
}

#[test]
fn only_what_linux_keeps_of_a_name_counts() {
    assert!(comm_matches("short-name\n", "short-name"));
    assert!(!comm_matches("short-nam\n", "short-name"));
    assert!(is_our_process(Some("gemini-assistan\n")));
    assert!(is_our_process(Some("gemini-assistant\n")));
    assert!(comm_matches("gemini-assistant", "gemini-assistant"));
    assert!(!is_our_process(Some("gemini-assist\n")));
    assert!(!is_our_process(None));
}

#[test]
fn pidfile_round_trips_pid_and_state() {
    let text = write_pidfile(4242, PidState::Paused);
    assert_eq!(text, "4242\npaused\n");
    assert_eq!(read_pidfile(Some(&text)), Some((4242, PidState::Paused)));
    for pid in [0, 1, -1, i32::MIN, i32::MAX] {
        for state in [PidState::Live, PidState::Paused] {
            assert_eq!(read_pidfile(Some(&write_pidfile(pid, state))), Some((pid, state)));
        }
    }
}

#[test]
fn pidfile_with_no_state_line_defaults_to_live() {
    assert_eq!(read_pidfile(Some("4242\n")), Some((4242, PidState::Live)));
    assert_eq!(read_pidfile(Some("4242")), Some((4242, PidState::Live)));
    assert_eq!(read_pidfile(Some(" 4242 \r\n paused \r\n")), Some((4242, PidState::Paused)));
    assert_eq!(read_pidfile(Some("4242\nwhatever")), Some((4242, PidState::Live)));
}

#[test]
fn read_pidfile_missing_file_is_none() {
    assert_eq!(read_pidfile(None), None);
    assert_eq!(read_pidfile(Some("")), None);
    assert_eq!(read_pidfile(Some("not a pid\n")), None);
    assert_eq!(read_pidfile(Some("\n4242\n")), None);
}

#[test]
fn states_have_names() {
    assert_eq!(PidState::Live.as_str(), "live");
    assert_eq!(PidState::Paused.as_str(), "paused");
    assert_eq!(PidState::parse("paused\n"), PidState::Paused);
    assert_eq!(PidState::parse("Paused"), PidState::Live);
}

#[test]
fn claim_succeeds_when_pidfile_absent() {
    let mut file = None;
    let outcome = claim(&mut file, 111, |_| false, |_| false);
    assert_eq!(outcome, ClaimOutcome::Claimed);
    assert_eq!(read_pidfile(file.as_deref()), Some((111, PidState::Live)));
}

#[test]
fn claim_signals_a_live_confirmed_owner_instead_of_claiming() {
    let mut file = Some(write_pidfile(999, PidState::Live));
    let outcome = claim(&mut file, 111, |_| true, |_| true);
    assert_eq!(outcome, ClaimOutcome::SignaledOwner(999));
    assert_eq!(read_pidfile(file.as_deref()), Some((999, PidState::Live)));
}

#[test]
fn claim_clears_a_stale_pidfile_from_a_dead_pid_and_succeeds() {
    let mut file = Some(write_pidfile(999, PidState::Live));
    let outcome = claim(&mut file, 111, |_| false, |_| true);
    assert_eq!(outcome, ClaimOutcome::Claimed);
    assert_eq!(read_pidfile(file.as_deref()), Some((111, PidState::Live)));
}

#[test]
fn claim_clears_a_pidfile_whose_identity_does_not_match_and_succeeds() {
    let mut file = Some(write_pidfile(999, PidState::Live));
    let outcome = claim(&mut file, 111, |_| true, |_| false);
    assert_eq!(outcome, ClaimOutcome::Claimed);
    assert_eq!(read_pidfile(file.as_deref()), Some((111, PidState::Live)));
}

#[test]
fn find_live_owner_returns_none_for_stale_or_missing() {
    assert_eq!(find_live_owner(None, |_| true, |_| true), None);

    let text = write_pidfile(999, PidState::Live);
    assert_eq!(find_live_owner(Some(&text), |_| false, |_| true), None);
    assert_eq!(find_live_owner(Some(&text), |_| true, |_| false), None);
    assert_eq!(find_live_owner(Some(&text), |_| true, |_| true), Some(999));
}

#[test]
fn only_the_process_in_the_file_is_asked_about() {
    let is_999 = |pid: i32| {
        assert_eq!(pid, 999);
        true
    };
    let not_asked = |_: i32| -> bool { panic!("nobody is to be asked about") };
    assert_eq!(find_live_owner(Some("999\nlive\n"), is_999, is_999), Some(999));
    assert_eq!(find_live_owner(Some("999\nlive\n"), |_| false, not_asked), None);
    assert_eq!(find_live_owner(None, not_asked, not_asked), None);
    assert_eq!(find_live_session(Some("junk"), not_asked, not_asked), None);
}

#[test]
fn find_live_session_gives_the_state_too() {
    let text = write_pidfile(999, PidState::Paused);
    assert_eq!(find_live_session(Some(&text), |pid| pid == 999, |_| true), Some((999, PidState::Paused)));
    assert_eq!(find_live_session(Some(&text), |_| true, |_| false), None);
}

#[test]
fn two_presses_make_one_session() {
    let mut file = None;
    assert_eq!(claim(&mut file, 1, |_| true, |_| true), ClaimOutcome::Claimed);
    assert_eq!(claim(&mut file, 2, |_| true, |_| true), ClaimOutcome::SignaledOwner(1));
    assert_eq!(claim(&mut file, 3, |_| true, |_| true), ClaimOutcome::SignaledOwner(1));
    assert_eq!(read_pidfile(file.as_deref()), Some((1, PidState::Live)));
}

#[test]
fn presses_on_a_stale_file_make_one_session() {
    let mut file = Some(write_pidfile(999, PidState::Paused));
    let mut sessions: Vec<i32> = Vec::new();
    for pid in [111, 222, 333] {
        let alive = |p: i32| sessions.contains(&p);
        match claim(&mut file, pid, alive, |_| true) {
            ClaimOutcome::Claimed => sessions.push(pid),
            outcome => assert_eq!(outcome, ClaimOutcome::SignaledOwner(111)),
        }
    }
    assert_eq!(sessions, vec![111]);
    assert_eq!(read_pidfile(file.as_deref()), Some((111, PidState::Live)));

    // It crashes, and the next press takes over.
    sessions.clear();
    assert_eq!(claim(&mut file, 444, |_| false, |_| true), ClaimOutcome::Claimed);
    assert_eq!(read_pidfile(file.as_deref()), Some((444, PidState::Live)));
}

#[test]
fn claiming_is_bounded() {
    assert_eq!(attempt_claim(0, Creation::Exists { owner: None }), ClaimStep::ClearAndRetry);
    assert_eq!(attempt_claim(1, Creation::Exists { owner: None }), ClaimStep::ClearAndGiveUp);
    assert_eq!(attempt_claim(u32::MAX, Creation::Exists { owner: None }), ClaimStep::ClearAndGiveUp);
    assert_eq!(attempt_claim(0, Creation::Failed), ClaimStep::Fail);
    assert_eq!(attempt_claim(1, Creation::Created), ClaimStep::Claimed);
}

#[test]
fn paths_follow_the_runtime_directory() {
    assert_eq!(pidfile_path(Some("/run/user/1000")), "/run/user/1000/gemini-assistant.pid");
    assert_eq!(pidfile_path(None), "/tmp/gemini-assistant.pid");
    assert_eq!(ask_pidfile_path(None), "/tmp/gemini-assistant-ask.pid");
    assert_ne!(ask_pidfile_path(Some("/run")), pidfile_path(Some("/run")));
}
