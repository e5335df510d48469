use refactorer::cache::DoneSet;
use refactorer::config::OrderMode;
use refactorer::order::compute_pending;
use refactorer::session::parse_decision;
use refactorer::session::start_random_session;
use refactorer::session::start_session;
use refactorer::session::Decision;
use refactorer::session::ReviewSession;

fn strings(parts: &[&str]) -> Vec<String> {
    let mut v: Vec<String> = Vec::new();
    for p in parts {
        v.push((*p).to_string());
    }
    v
}

#[test]
fn first_character_decides() {
    assert_eq!(parse_decision("y"), Decision::Confirm);
    assert_eq!(parse_decision("yes\n"), Decision::Confirm);
    assert_eq!(parse_decision("n"), Decision::Skip);
    assert_eq!(parse_decision("no thanks"), Decision::Skip);
    assert_eq!(parse_decision("q"), Decision::Quit);
}

#[test]
fn unrecognized_or_missing_input_quits() {
    assert_eq!(parse_decision(""), Decision::Quit);
    assert_eq!(parse_decision("x"), Decision::Quit);
    assert_eq!(parse_decision("?"), Decision::Quit);
}

#[test]
fn empty_root_terminates_immediately() {
    let candidates: Vec<String> = Vec::new();
    let session = start_random_session(&candidates, DoneSet::new());
    assert!(session.finished());
    assert_eq!(session.total(), 0);
}

#[test]
fn confirm_records_exactly_that_path_and_second_run_is_empty() {
    let candidates = strings(&["./src/lib.rs"]);
    let mut session = start_random_session(&candidates, DoneSet::new());
    assert!(!session.finished());
    assert_eq!(session.current(), "./src/lib.rs");
    let confirmed = session.step(Decision::Confirm);
    assert!(confirmed);
    assert!(session.finished());

    let cache_content = session.serialize_done();
    assert_eq!(cache_content, "./src/lib.rs");

    let reloaded = DoneSet::parse(&cache_content);
    let second_run = compute_pending(&candidates, &reloaded);
    assert!(second_run.is_empty());
}

#[test]
fn quit_leaves_cache_unchanged_and_candidate_pending() {
    let candidates = strings(&["./src/lib.rs"]);
    let mut session = start_random_session(&candidates, DoneSet::new());
    assert!(!session.finished());
    let confirmed = session.step(Decision::Quit);
    assert!(!confirmed);
    assert!(session.finished());

    let cache_content = session.serialize_done();
    assert_eq!(cache_content, "");

    let reloaded = DoneSet::parse(&cache_content);
    let second_run = compute_pending(&candidates, &reloaded);
    assert_eq!(second_run, candidates);
}

#[test]
fn skip_advances_without_recording() {
    let candidates = strings(&["a.rs", "b.rs"]);
    let pending = compute_pending(&candidates, &DoneSet::new());
    let sizes: Vec<u64> = vec![1, 2];
    let mut session = start_session(pending, &sizes, OrderMode::SmallestFirst, DoneSet::new());
    assert_eq!(session.current(), "a.rs");
    session.step(Decision::Skip);
    assert_eq!(session.current(), "b.rs");
    session.step(Decision::Skip);
    assert!(session.finished());
    assert_eq!(session.serialize_done(), "");
}

#[test]
fn progress_counts_position_and_total() {
    let candidates = strings(&["a.rs", "b.rs", "c.rs"]);
    let pending = compute_pending(&candidates, &DoneSet::new());
    let sizes: Vec<u64> = vec![3, 2, 1];
    let mut session = start_session(pending, &sizes, OrderMode::LargestFirst, DoneSet::new());
    assert_eq!(session.total(), 3);
    assert_eq!(session.position(), 0);
    assert_eq!(session.current(), "a.rs");
    session.step(Decision::Confirm);
    assert_eq!(session.position(), 1);
    assert_eq!(session.current(), "b.rs");
}

#[test]
fn loaded_cache_paths_are_not_presented_again() {
    let candidates = strings(&["a.rs", "b.rs"]);
    let done = DoneSet::parse("a.rs");
    let session = start_random_session(&candidates, done);
    assert_eq!(session.total(), 1);
    assert_eq!(session.current(), "b.rs");
}

#[test]
fn session_on_explicit_queue_presents_in_order() {
    let pending = strings(&["b.rs", "a.rs"]);
    let mut session = ReviewSession::new(pending, DoneSet::new());
    assert_eq!(session.current(), "b.rs");
    session.step(Decision::Confirm);
    assert_eq!(session.current(), "a.rs");
    session.step(Decision::Confirm);
    assert!(session.finished());
    assert_eq!(session.serialize_done(), "b.rs\na.rs");
}
