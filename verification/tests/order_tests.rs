use refactorer::cache::DoneSet;
use refactorer::config::order_mode;
use refactorer::config::ConfigError;
use refactorer::config::OrderMode;
use refactorer::order::attach_sizes;
use refactorer::order::compute_pending;
use refactorer::order::extract_paths;
use refactorer::order::shuffle;
use refactorer::order::sort_largest_first;
use refactorer::order::sort_smallest_first;

fn strings(parts: &[&str]) -> Vec<String> {
    let mut v: Vec<String> = Vec::new();
    for p in parts {
        v.push((*p).to_string());
    }
    v
}

#[test]
fn pending_is_candidates_minus_done() {
    let candidates = strings(&["a.rs", "b.rs", "c.rs"]);
    let mut done = DoneSet::new();
    done.insert("b.rs".to_string());
    let pending = compute_pending(&candidates, &done);
    assert_eq!(pending, strings(&["a.rs", "c.rs"]));
}

#[test]
fn pending_has_no_duplicates() {
    let candidates = strings(&["a.rs", "a.rs", "b.rs"]);
    let done = DoneSet::new();
    let pending = compute_pending(&candidates, &done);
    assert_eq!(pending, strings(&["a.rs", "b.rs"]));
}

#[test]
fn pending_empty_when_all_done() {
    let candidates = strings(&["a.rs", "b.rs"]);
    let mut done = DoneSet::new();
    done.insert("a.rs".to_string());
    done.insert("b.rs".to_string());
    let pending = compute_pending(&candidates, &done);
    assert!(pending.is_empty());
}

#[test]
fn order_mode_defaults_to_random() {
    assert_eq!(order_mode(false, false), Ok(OrderMode::Random));
}

#[test]
fn order_mode_picks_requested_direction() {
    assert_eq!(order_mode(true, false), Ok(OrderMode::SmallestFirst));
    assert_eq!(order_mode(false, true), Ok(OrderMode::LargestFirst));
}

#[test]
fn order_mode_rejects_both_directions() {
    assert_eq!(order_mode(true, true), Err(ConfigError::ConflictingOrder));
}

#[test]
fn smallest_first_sorts_ascending() {
    let paths = strings(&["a", "b", "c"]);
    let sizes: Vec<u64> = vec![10, 1, 5];
    let entries = attach_sizes(&paths, &sizes);
    let sorted = sort_smallest_first(entries);
    assert_eq!(extract_paths(&sorted), strings(&["b", "c", "a"]));
}

#[test]
fn largest_first_sorts_descending() {
    let paths = strings(&["a", "b", "c"]);
    let sizes: Vec<u64> = vec![10, 1, 5];
    let entries = attach_sizes(&paths, &sizes);
    let sorted = sort_largest_first(entries);
    assert_eq!(extract_paths(&sorted), strings(&["a", "c", "b"]));
}

#[test]
fn equal_sizes_keep_input_order() {
    let paths = strings(&["x", "y", "z"]);
    let sizes: Vec<u64> = vec![4, 4, 4];
    let entries = attach_sizes(&paths, &sizes);
    assert_eq!(extract_paths(&sort_smallest_first(entries)), paths);
}

#[test]
fn shuffle_keeps_exactly_the_same_paths() {
    let paths = strings(&["a.rs", "b.rs", "c.rs", "d.rs", "e.rs"]);
    let mut shuffled = shuffle(paths.clone());
    assert_eq!(shuffled.len(), paths.len());
    shuffled.sort();
    let mut expected = paths;
    expected.sort();
    assert_eq!(shuffled, expected);
}

#[test]
fn shuffle_of_empty_is_empty() {
    let shuffled = shuffle(Vec::new());
    assert!(shuffled.is_empty());
}
