use resume_stats::aggregate::StatsTable;
use resume_stats::classify::classify_commit;
use resume_stats::classify::ClassifiedCommit;
use resume_stats::classify::CommitFileChange;

fn commit(languages: &[&str], lines: u64) -> ClassifiedCommit {
    ClassifiedCommit {
        matched_languages: languages.iter().map(|l| l.to_string()).collect(),
        lines_added: lines,
    }
}

fn language_set(v: &Vec<String>) -> Vec<String> {
    let mut s: Vec<String> = v.clone();
    s.sort();
    s
}

#[test]
fn first_commit_seeds_bucket() {
    let mut table = StatsTable::new();
    table.merge(&"backend".to_string(), &commit(&["go"], 7));
    let stats = table.get(&"backend".to_string()).unwrap();
    assert_eq!(stats.commits, 1);
    assert_eq!(stats.lines, 7);
    assert_eq!(language_set(&stats.languages), vec!["go".to_string()]);
}

#[test]
fn merging_same_commit_n_times_adds_counters_and_unions_languages() {
    let mut table = StatsTable::new();
    let c = commit(&["go", "rs"], 5);
    let name = "backend".to_string();
    table.merge(&name, &c);
    table.merge(&name, &c);
    table.merge(&name, &c);
    let stats = table.get(&name).unwrap();
    assert_eq!(stats.commits, 3);
    assert_eq!(stats.lines, 15);
    assert_eq!(language_set(&stats.languages), vec!["go".to_string(), "rs".to_string()]);
}

#[test]
fn merge_order_is_commutative() {
    let c1 = commit(&["go"], 3);
    let c2 = commit(&["rs", "toml"], 11);
    let name = "tools".to_string();

    let mut forward = StatsTable::new();
    forward.merge(&name, &c1);
    forward.merge(&name, &c2);
    let f = forward.get(&name).unwrap();

    let mut backward = StatsTable::new();
    backward.merge(&name, &c2);
    backward.merge(&name, &c1);
    let b = backward.get(&name).unwrap();

    assert_eq!(f.commits, b.commits);
    assert_eq!(f.lines, b.lines);
    assert_eq!(language_set(&f.languages), language_set(&b.languages));
}

#[test]
fn buckets_do_not_cross_contaminate() {
    let mut table = StatsTable::new();
    let a = "backend".to_string();
    let b = "frontend".to_string();
    table.merge(&a, &commit(&["go"], 10));
    table.merge(&b, &commit(&["js"], 20));
    table.merge(&a, &commit(&["go"], 1));

    let stats_a = table.get(&a).unwrap();
    assert_eq!(stats_a.commits, 2);
    assert_eq!(stats_a.lines, 11);
    assert_eq!(language_set(&stats_a.languages), vec!["go".to_string()]);

    let stats_b = table.get(&b).unwrap();
    assert_eq!(stats_b.commits, 1);
    assert_eq!(stats_b.lines, 20);
    assert_eq!(language_set(&stats_b.languages), vec!["js".to_string()]);

    assert_eq!(table.entries.len(), 2);
}

#[test]
fn absent_bucket_has_no_entry() {
    let mut table = StatsTable::new();
    table.merge(&"backend".to_string(), &commit(&["go"], 1));
    assert!(table.get(&"frontend".to_string()).is_none());
}

#[test]
fn record_commit_classifies_and_merges() {
    let mut table = StatsTable::new();
    let needed = vec!["go".to_string()];
    let name = "backend".to_string();
    let files = vec![
        CommitFileChange { filename: "main.go".to_string(), lines_added: 10 },
        CommitFileChange { filename: "README".to_string(), lines_added: 2 },
    ];
    assert!(table.record_commit(&name, Some(&files), &needed));
    assert!(table.record_commit(&name, None, &needed));
    let stats = table.get(&name).unwrap();
    assert_eq!(stats.commits, 2);
    assert_eq!(stats.lines, 12);
    assert_eq!(language_set(&stats.languages), vec!["go".to_string()]);
}

#[test]
fn record_commit_refuses_line_overflow() {
    let mut table = StatsTable::new();
    let needed = vec!["go".to_string()];
    let name = "backend".to_string();
    let big = vec![CommitFileChange { filename: "a.go".to_string(), lines_added: u64::MAX }];
    assert!(table.record_commit(&name, Some(&big), &needed));
    let more = vec![CommitFileChange { filename: "b.go".to_string(), lines_added: 1 }];
    assert!(!table.record_commit(&name, Some(&more), &needed));
    let stats = table.get(&name).unwrap();
    assert_eq!(stats.commits, 1);
    assert_eq!(stats.lines, u64::MAX);
}

#[test]
fn classified_commit_feeds_merge_like_the_worker_does() {
    let needed = vec!["go".to_string()];
    let files = vec![CommitFileChange { filename: "x.go".to_string(), lines_added: 4 }];
    let c = classify_commit(Some(&files), &needed);
    let mut table = StatsTable::new();
    table.merge(&"backend".to_string(), &c);
    let stats = table.get(&"backend".to_string()).unwrap();
    assert_eq!(stats.lines, 4);
    assert_eq!(stats.commits, 1);
}
