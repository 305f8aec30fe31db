use resume_stats::classify::classify_commit;
use resume_stats::classify::sum_added;
use resume_stats::classify::CommitFileChange;

fn file(name: &str, lines: u64) -> CommitFileChange {
    CommitFileChange { filename: name.to_string(), lines_added: lines }
}

fn langs(names: &[&str]) -> Vec<String> {
    names.iter().map(|n| n.to_string()).collect()
}

fn has(v: &Vec<String>, s: &str) -> bool {
    v.iter().any(|x| x == s)
}

#[test]
fn no_file_detail_classifies_to_nothing() {
    let needed = langs(&["go", "rs"]);
    let c = classify_commit(None, &needed);
    assert_eq!(c.matched_languages.len(), 0);
    assert_eq!(c.lines_added, 0);
}

#[test]
fn lines_counted_regardless_of_language() {
    let files = vec![file("main.go", 10), file("README", 2), file("notes.txt", 5)];
    let needed = langs(&["go"]);
    let c = classify_commit(Some(&files), &needed);
    assert_eq!(c.lines_added, 17);
    assert_eq!(c.matched_languages, langs(&["go"]));
}

#[test]
fn unneeded_extension_never_matched() {
    let files = vec![file("lib.rs", 4), file("build.gradle", 9)];
    let needed = langs(&["go"]);
    let c = classify_commit(Some(&files), &needed);
    assert_eq!(c.matched_languages.len(), 0);
    assert_eq!(c.lines_added, 13);
}

#[test]
fn extension_is_substring_after_last_dot() {
    let files = vec![file("archive.tar.gz", 1)];
    let needed = langs(&["gz", "tar"]);
    let c = classify_commit(Some(&files), &needed);
    assert_eq!(c.matched_languages, langs(&["gz"]));
}

#[test]
fn name_without_dot_contributes_no_language() {
    let files = vec![file("README", 3)];
    let needed = langs(&["README"]);
    let c = classify_commit(Some(&files), &needed);
    assert_eq!(c.matched_languages.len(), 0);
    assert_eq!(c.lines_added, 3);
}

#[test]
fn trailing_dot_yields_empty_extension() {
    let files = vec![file("strange.", 2)];
    let needed = langs(&["go"]);
    let c = classify_commit(Some(&files), &needed);
    assert_eq!(c.matched_languages.len(), 0);
    assert_eq!(c.lines_added, 2);
}

#[test]
fn matched_languages_are_deduplicated() {
    let files = vec![file("a.go", 1), file("b.go", 2), file("c.rs", 3)];
    let needed = langs(&["go", "rs"]);
    let c = classify_commit(Some(&files), &needed);
    assert_eq!(c.matched_languages.len(), 2);
    assert!(has(&c.matched_languages, "go"));
    assert!(has(&c.matched_languages, "rs"));
    assert_eq!(c.lines_added, 6);
}

#[test]
fn empty_file_list_classifies_to_nothing() {
    let files: Vec<CommitFileChange> = Vec::new();
    let needed = langs(&["go"]);
    let c = classify_commit(Some(&files), &needed);
    assert_eq!(c.matched_languages.len(), 0);
    assert_eq!(c.lines_added, 0);
}

#[test]
fn sum_added_totals_every_file() {
    let files = vec![file("a.go", 10), file("README", 2)];
    assert_eq!(sum_added(&files), Some(12));
}

#[test]
fn sum_added_reports_overflow() {
    let files = vec![file("a.go", u64::MAX), file("b.go", 1)];
    assert_eq!(sum_added(&files), None);
}
