use refactorer::text::join_lines;
use refactorer::text::split_string;

fn strings(parts: &[&str]) -> Vec<String> {
    let mut v: Vec<String> = Vec::new();
    for p in parts {
        v.push((*p).to_string());
    }
    v
}

#[test]
fn split_empty_gives_one_empty_part() {
    let parts = split_string("", ',');
    assert_eq!(parts, strings(&[""]));
}

#[test]
fn split_simple() {
    let parts = split_string("a,b,c", ',');
    assert_eq!(parts, strings(&["a", "b", "c"]));
}

#[test]
fn split_keeps_empty_parts() {
    let parts = split_string(",a,,b,", ',');
    assert_eq!(parts, strings(&["", "a", "", "b", ""]));
}

#[test]
fn split_on_slash() {
    let parts = split_string("./src/lib.rs", '/');
    assert_eq!(parts, strings(&[".", "src", "lib.rs"]));
}

#[test]
fn join_empty_is_empty() {
    let joined = join_lines(&strings(&[]));
    assert_eq!(joined, "");
}

#[test]
fn join_single_has_no_newline() {
    let joined = join_lines(&strings(&["one"]));
    assert_eq!(joined, "one");
}

#[test]
fn join_inserts_newlines_between() {
    let joined = join_lines(&strings(&["a", "b", "c"]));
    assert_eq!(joined, "a\nb\nc");
}

#[test]
fn split_undoes_join() {
    let parts = strings(&["src/a.rs", "src/b.rs", "tests/c.rs"]);
    let joined = join_lines(&parts);
    assert_eq!(split_string(&joined, '\n'), parts);
}
