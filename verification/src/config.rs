//! Configuration data: repository paths, experience buckets, and the checks
//! that turn raw configuration values into a validated [`Config`].

use vstd::prelude::*;

verus! {

/// A remote repository, identified by its owner and its name.
pub struct RepositoryPath {
    pub owner: String,
    pub repository: String,
}

/// The one way configuration loading can fail: a repository path string
/// without the `/` separating owner from repository.
#[derive(Debug)]
pub enum ConfigError {
    MalformedRepositoryPath { path: String },
}

/// Splitting a repository path string at its first `/`: the owner is
/// everything before that slash, the repository everything after it.
/// `None` when the string holds no `/` at all.
pub open spec fn split_repository_path(s: Seq<char>) -> Option<(Seq<char>, Seq<char>)>
    decreases s.len(),
{
    if s.len() == 0 {
        None
    } else if s[0] == '/' {
        Some((Seq::empty(), s.drop_first()))
    } else {
        match split_repository_path(s.drop_first()) {
            None => None,
            Some((owner, repository)) => Some((seq![s[0]] + owner, repository)),
        }
    }
}

impl RepositoryPath {
    /// Parse an `owner/repository` string, splitting at the first `/`.
    pub fn parse(s: &str) -> (r: Result<RepositoryPath, ConfigError>)
        ensures
            match r {
                Ok(p) => split_repository_path(s@) == Some((p.owner@, p.repository@)),
                Err(e) => split_repository_path(s@) is None && (e matches
                ConfigError::MalformedRepositoryPath { path } && path@ == s@),
            },
    {
        let len = s.unicode_len();
        let mut i: usize = 0;
        while i < len
            invariant
                len == s@.len(),
                i <= len,
                forall|k: int| 0 <= k < i ==> s@[k] != '/',
            decreases len - i,
        {
            if s.get_char(i) == '/' {
                let owner = s.substring_char(0, i).to_owned();
                let repository = s.substring_char(i + 1, len).to_owned();
                proof {
                    lemma_split_at_first_slash(s@, i as int);
                }
                return Ok(RepositoryPath { owner, repository });
            }
            i = i + 1;
        }
        proof {
            lemma_split_no_slash(s@);
        }
        Err(ConfigError::MalformedRepositoryPath { path: s.to_owned() })
    }
}

/// A named experience bucket: the repositories whose commits count toward
/// one reported group.
pub struct ExperienceBucket {
    pub name: String,
    pub repositories: Vec<RepositoryPath>,
}

/// The validated configuration: the author whose commits are counted, the
/// file extensions of interest, and the experience buckets to scan.
pub struct Config {
    pub author: String,
    pub languages: Vec<String>,
    pub buckets: Vec<ExperienceBucket>,
}

/// Every repository path string of the raw configuration holds a `/`.
pub open spec fn all_paths_valid(raw: Seq<(String, Vec<String>)>) -> bool {
    forall|i: int, j: int|
        0 <= i < raw.len() && 0 <= j < raw[i].1@.len() ==> split_repository_path(
            raw[i].1@[j]@,
        ) is Some
}

/// A built bucket reflects one raw entry: same name, and each repository
/// path string split at its first `/`, in order.
pub open spec fn bucket_matches(b: ExperienceBucket, name: Seq<char>, paths: Seq<String>) -> bool {
    &&& b.name@ == name
    &&& b.repositories@.len() == paths.len()
    &&& forall|j: int|
        0 <= j < paths.len() ==> split_repository_path(paths[j]@) == Some(
            (b.repositories@[j].owner@, b.repositories@[j].repository@),
        )
}

impl Config {
    /// Validate a raw configuration: each bucket's repository path strings
    /// are parsed, in the order given, and a string without a `/` fails the
    /// whole load before any further work.
    pub fn build(author: String, languages: Vec<String>, raw: &Vec<(String, Vec<String>)>) -> (r:
        Result<Config, ConfigError>)
        ensures
            match r {
                Ok(c) => all_paths_valid(raw@) && c.author == author && c.languages == languages
                    && c.buckets@.len() == raw@.len() && forall|i: int|
                    0 <= i < raw@.len() ==> bucket_matches(c.buckets@[i], raw@[i].0@, raw@[i].1@),
                Err(e) => !all_paths_valid(raw@) && (e matches
                ConfigError::MalformedRepositoryPath { path } && exists|i: int, j: int|
                    0 <= i < raw@.len() && 0 <= j < raw@[i].1@.len() && split_repository_path(
                        raw@[i].1@[j]@,
                    ) is None && path@ == raw@[i].1@[j]@),
            },
    {
        let mut buckets: Vec<ExperienceBucket> = Vec::new();
        let mut i: usize = 0;
        while i < raw.len()
            invariant
                i <= raw@.len(),
                buckets@.len() == i,
                forall|k: int|
                    0 <= k < i ==> bucket_matches(buckets@[k], raw@[k].0@, raw@[k].1@),
            decreases raw@.len() - i,
        {
            let mut repositories: Vec<RepositoryPath> = Vec::new();
            let mut j: usize = 0;
            while j < raw[i].1.len()
                invariant
                    i < raw@.len(),
                    j <= raw@[i as int].1@.len(),
                    repositories@.len() == j,
                    forall|k: int|
                        0 <= k < j ==> split_repository_path(raw@[i as int].1@[k]@) == Some(
                            (repositories@[k].owner@, repositories@[k].repository@),
                        ),
                decreases raw@[i as int].1@.len() - j,
            {
                match RepositoryPath::parse(raw[i].1[j].as_str()) {
                    Ok(p) => {
                        repositories.push(p);
                    },
                    Err(e) => {
                        proof {
                            assert(split_repository_path(raw@[i as int].1@[j as int]@) is None);
                        }
                        return Err(e);
                    },
                }
                j = j + 1;
            }
            let name = raw[i].0.clone();
            buckets.push(ExperienceBucket { name, repositories });
            i = i + 1;
        }
        proof {
            assert forall|a: int, b: int|
                0 <= a < raw@.len() && 0 <= b < raw@[a].1@.len() implies split_repository_path(
                raw@[a].1@[b]@,
            ) is Some by {
                assert(bucket_matches(buckets@[a], raw@[a].0@, raw@[a].1@));
            }
        }
        Ok(Config { author, languages, buckets })
    }
}

/// If position `i` holds the first `/` of `s`, then splitting `s` yields the
/// prefix before `i` and the suffix after `i`.
proof fn lemma_split_at_first_slash(s: Seq<char>, i: int)
    requires
        0 <= i < s.len(),
        s[i] == '/',
        forall|k: int| 0 <= k < i ==> s[k] != '/',
    ensures
        split_repository_path(s) == Some((s.subrange(0, i), s.subrange(i + 1, s.len() as int))),
    decreases i,
{
    if i == 0 {
        assert(s.subrange(0, 0) =~= Seq::<char>::empty());
        assert(s.subrange(1, s.len() as int) =~= s.drop_first());
    } else {
        lemma_split_at_first_slash(s.drop_first(), i - 1);
        assert(s.drop_first().subrange(0, i - 1) =~= s.subrange(1, i));
        assert(s.drop_first().subrange(i, s.drop_first().len() as int) =~= s.subrange(
            i + 1,
            s.len() as int,
        ));
        assert(seq![s[0]] + s.subrange(1, i) =~= s.subrange(0, i));
    }
}

/// A string without any `/` does not split.
proof fn lemma_split_no_slash(s: Seq<char>)
    requires
        forall|k: int| 0 <= k < s.len() ==> s[k] != '/',
    ensures
        split_repository_path(s) is None,
    decreases s.len(),
{
    if s.len() > 0 {
        lemma_split_no_slash(s.drop_first());
    }
}

} // verus!
