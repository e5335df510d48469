use refactorer::config::ConfigError;
use refactorer::filter::is_hidden;
use refactorer::filter::path_has_hidden_component;
use refactorer::filter::select_candidates;
use refactorer::filter::PathFilter;
use refactorer::filter::WalkEntry;

fn strings(parts: &[&str]) -> Vec<String> {
    let mut v: Vec<String> = Vec::new();
    for p in parts {
        v.push((*p).to_string());
    }
    v
}

fn entry(path: &str, is_dir: bool) -> WalkEntry {
    WalkEntry { path: path.to_string(), is_dir }
}

#[test]
fn current_directory_is_not_hidden() {
    assert!(!is_hidden("."));
}

#[test]
fn dot_names_are_hidden() {
    assert!(is_hidden(".git"));
    assert!(is_hidden(".."));
    assert!(is_hidden(".refactorer.cache"));
}

#[test]
fn plain_names_are_not_hidden() {
    assert!(!is_hidden("src"));
    assert!(!is_hidden("lib.rs"));
    assert!(!is_hidden(""));
}

#[test]
fn hidden_component_anywhere_is_found() {
    assert!(path_has_hidden_component("./.git/config.rs"));
    assert!(path_has_hidden_component(".hidden/a.rs"));
    assert!(!path_has_hidden_component("./src/lib.rs"));
}

#[test]
fn accepts_by_extension() {
    let f = PathFilter::new(strings(&[".rs"]), None).unwrap();
    assert!(f.accepts_path(&"./src/lib.rs".to_string(), false));
    assert!(!f.accepts_path(&"./README.md".to_string(), false));
}

#[test]
fn directories_are_never_candidates() {
    let f = PathFilter::new(strings(&[".rs"]), None).unwrap();
    assert!(!f.accepts_path(&"./src.rs".to_string(), true));
}

#[test]
fn any_listed_extension_accepts() {
    let f = PathFilter::new(strings(&[".rs", ".toml"]), None).unwrap();
    assert!(f.accepts_path(&"./Cargo.toml".to_string(), false));
    assert!(f.accepts_path(&"./src/lib.rs".to_string(), false));
    assert!(!f.accepts_path(&"./notes.txt".to_string(), false));
}

#[test]
fn pattern_restricts_matches() {
    let f = PathFilter::new(strings(&[".rs"]), Some("foo".to_string())).unwrap();
    assert!(f.accepts_path(&"./src/foo.rs".to_string(), false));
    assert!(!f.accepts_path(&"./src/bar.rs".to_string(), false));
}

#[test]
fn pattern_uses_regex_syntax() {
    let f = PathFilter::new(strings(&[".rs"]), Some("^\\./tests/.*_a\\.rs$".to_string())).unwrap();
    assert!(f.accepts_path(&"./tests/one_a.rs".to_string(), false));
    assert!(!f.accepts_path(&"./tests/one_b.rs".to_string(), false));
    assert!(!f.accepts_path(&"./src/one_a.rs".to_string(), false));
}

#[test]
fn invalid_pattern_is_config_error() {
    let r = PathFilter::new(strings(&[".rs"]), Some("[".to_string()));
    assert!(matches!(r, Err(ConfigError::InvalidPattern)));
}

#[test]
fn hidden_directory_contents_are_never_selected() {
    let f = PathFilter::new(strings(&[".rs"]), None).unwrap();
    let entries = vec![
        entry(".", true),
        entry("./.git", true),
        entry("./.git/hooks.rs", false),
        entry("./src", true),
        entry("./src/lib.rs", false),
    ];
    let selected = select_candidates(&entries, &f);
    assert_eq!(selected, strings(&["./src/lib.rs"]));
}

#[test]
fn hidden_stays_excluded_under_permissive_settings() {
    let f = PathFilter::new(strings(&["s"]), Some(".".to_string())).unwrap();
    let entries = vec![
        entry("./.git/objects.rs", false),
        entry("./src/lib.rs", false),
    ];
    let selected = select_candidates(&entries, &f);
    assert_eq!(selected, strings(&["./src/lib.rs"]));
}
