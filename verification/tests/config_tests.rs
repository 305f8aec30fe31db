use resume_stats::aggregate::StatsTable;
use resume_stats::config::Config;
use resume_stats::config::ConfigError;
use resume_stats::config::RepositoryPath;

fn strings(v: &[&str]) -> Vec<String> {
    v.iter().map(|s| s.to_string()).collect()
}

#[test]
fn parse_splits_owner_and_repository() {
    let p = RepositoryPath::parse("alice/tool").unwrap();
    assert_eq!(p.owner, "alice");
    assert_eq!(p.repository, "tool");
}

#[test]
fn parse_splits_at_first_slash() {
    let p = RepositoryPath::parse("a/b/c").unwrap();
    assert_eq!(p.owner, "a");
    assert_eq!(p.repository, "b/c");
}

#[test]
fn parse_keeps_empty_owner_and_repository() {
    let p = RepositoryPath::parse("/tool").unwrap();
    assert_eq!(p.owner, "");
    assert_eq!(p.repository, "tool");
    let q = RepositoryPath::parse("alice/").unwrap();
    assert_eq!(q.owner, "alice");
    assert_eq!(q.repository, "");
}

#[test]
fn parse_rejects_path_without_slash() {
    match RepositoryPath::parse("owneronly") {
        Err(ConfigError::MalformedRepositoryPath { path }) => assert_eq!(path, "owneronly"),
        Ok(_) => panic!("a path without a slash must not parse"),
    }
}

#[test]
fn build_accepts_valid_configuration() {
    let raw = vec![
        ("backend".to_string(), strings(&["alice/server", "alice/worker"])),
        ("frontend".to_string(), strings(&["alice/ui"])),
    ];
    let config = Config::build("alice".to_string(), strings(&["go", "js"]), &raw).unwrap();
    assert_eq!(config.author, "alice");
    assert_eq!(config.languages, strings(&["go", "js"]));
    assert_eq!(config.buckets.len(), 2);
    assert_eq!(config.buckets[0].name, "backend");
    assert_eq!(config.buckets[0].repositories.len(), 2);
    assert_eq!(config.buckets[0].repositories[1].owner, "alice");
    assert_eq!(config.buckets[0].repositories[1].repository, "worker");
    assert_eq!(config.buckets[1].name, "frontend");
    assert_eq!(config.buckets[1].repositories[0].repository, "ui");
}

#[test]
fn build_fails_on_malformed_path_before_any_work() {
    let raw = vec![("backend".to_string(), strings(&["owneronly"]))];
    match Config::build("alice".to_string(), strings(&["go"]), &raw) {
        Err(ConfigError::MalformedRepositoryPath { path }) => assert_eq!(path, "owneronly"),
        Ok(_) => panic!("a malformed repository path must fail the whole load"),
    }
}

#[test]
fn end_to_end_single_bucket_scenario() {
    let raw = vec![("backend".to_string(), strings(&["alice/server"]))];
    let config = Config::build("alice".to_string(), strings(&["go"]), &raw).unwrap();

    let mut table = StatsTable::new();
    let bucket = config.buckets[0].name.clone();
    let commit_one = vec![
        resume_stats::classify::CommitFileChange {
            filename: "main.go".to_string(),
            lines_added: 10,
        },
        resume_stats::classify::CommitFileChange {
            filename: "README".to_string(),
            lines_added: 2,
        },
    ];
    assert!(table.record_commit(&bucket, Some(&commit_one), &config.languages));
    assert!(table.record_commit(&bucket, None, &config.languages));

    let stats = table.get(&bucket).unwrap();
    assert_eq!(stats.languages, vec!["go".to_string()]);
    assert_eq!(stats.commits, 2);
    assert_eq!(stats.lines, 12);
    assert_eq!(table.entries.len(), 1);
}

#[test]
fn end_to_end_two_disjoint_buckets_scenario() {
    let raw = vec![
        ("backend".to_string(), strings(&["alice/server"])),
        ("frontend".to_string(), strings(&["alice/ui"])),
    ];
    let config = Config::build("alice".to_string(), strings(&["go", "js"]), &raw).unwrap();

    let mut table = StatsTable::new();
    let backend = config.buckets[0].name.clone();
    let frontend = config.buckets[1].name.clone();
    let go_files = vec![resume_stats::classify::CommitFileChange {
        filename: "srv.go".to_string(),
        lines_added: 3,
    }];
    let js_files = vec![resume_stats::classify::CommitFileChange {
        filename: "app.js".to_string(),
        lines_added: 8,
    }];
    assert!(table.record_commit(&backend, Some(&go_files), &config.languages));
    assert!(table.record_commit(&frontend, Some(&js_files), &config.languages));

    assert_eq!(table.entries.len(), 2);
    let b = table.get(&backend).unwrap();
    assert_eq!(b.languages, vec!["go".to_string()]);
    assert_eq!(b.commits, 1);
    assert_eq!(b.lines, 3);
    let f = table.get(&frontend).unwrap();
    assert_eq!(f.languages, vec!["js".to_string()]);
    assert_eq!(f.commits, 1);
    assert_eq!(f.lines, 8);
}
