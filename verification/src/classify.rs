//! Commit classification: mapping a commit's changed files and the set of
//! languages of interest to the commit's matched languages and added lines.

use vstd::prelude::*;

verus! {

/// One changed file of a commit, as the repository provider reports it.
pub struct CommitFileChange {
    pub filename: String,
    pub lines_added: u64,
}

/// The classification of a single commit: which languages of interest its
/// files touch, and how many lines it added over all its files.
pub struct ClassifiedCommit {
    pub matched_languages: Vec<String>,
    pub lines_added: u64,
}

/// The set of views of a sequence of strings.
pub open spec fn string_set(v: Seq<String>) -> Set<Seq<char>>
    decreases v.len(),
{
    if v.len() == 0 {
        Set::empty()
    } else {
        string_set(v.drop_last()).insert(v.last()@)
    }
}

/// No two strings of the sequence read the same.
pub open spec fn distinct_strings(v: Seq<String>) -> bool {
    forall|i: int, j: int| 0 <= i < j < v.len() ==> v[i]@ != v[j]@
}

/// The extension of a filename: the characters after its last `.`, `None`
/// when the name holds no `.` at all.
pub open spec fn extension_of(name: Seq<char>) -> Option<Seq<char>>
    decreases name.len(),
{
    if name.len() == 0 {
        None
    } else if name.last() == '.' {
        Some(Seq::empty())
    } else {
        match extension_of(name.drop_last()) {
            None => None,
            Some(e) => Some(e.push(name.last())),
        }
    }
}

/// The added lines of a list of file changes, summed over every file,
/// whatever its extension.
pub open spec fn total_added(files: Seq<CommitFileChange>) -> int
    decreases files.len(),
{
    if files.len() == 0 {
        0
    } else {
        total_added(files.drop_last()) + files.last().lines_added
    }
}

/// The languages of interest that a list of file changes touches: every
/// member of `needed` that is the extension of some file in the list.
pub open spec fn matched_languages(files: Seq<CommitFileChange>, needed: Set<Seq<char>>) -> Set<
    Seq<char>,
>
    decreases files.len(),
{
    if files.len() == 0 {
        Set::empty()
    } else {
        let rest = matched_languages(files.drop_last(), needed);
        match extension_of(files.last().filename@) {
            None => rest,
            Some(e) => if needed.contains(e) {
                rest.insert(e)
            } else {
                rest
            },
        }
    }
}

/// Ghost value of a classified commit: the matched languages as a set, the
/// added lines as an unbounded integer.
pub ghost struct ClassifiedCommitView {
    pub matched_languages: Set<Seq<char>>,
    pub lines_added: int,
}

impl View for ClassifiedCommit {
    type V = ClassifiedCommitView;

    open spec fn view(&self) -> ClassifiedCommitView {
        ClassifiedCommitView {
            matched_languages: string_set(self.matched_languages@),
            lines_added: self.lines_added as int,
        }
    }
}

/// What classification yields: an empty set and zero lines where the
/// provider supplied no file detail, otherwise the matched languages and the
/// unfiltered line total of the supplied list.
pub open spec fn classification(
    files: Option<Seq<CommitFileChange>>,
    needed: Set<Seq<char>>,
) -> ClassifiedCommitView {
    match files {
        None => ClassifiedCommitView { matched_languages: Set::empty(), lines_added: 0 },
        Some(fs) => ClassifiedCommitView {
            matched_languages: matched_languages(fs, needed),
            lines_added: total_added(fs),
        },
    }
}

/// Membership in the view set is membership by view in the vector.
pub proof fn lemma_string_set_contains(v: Seq<String>, x: Seq<char>)
    ensures
        string_set(v).contains(x) <==> exists|i: int| 0 <= i < v.len() && v[i]@ == x,
    decreases v.len(),
{
    if v.len() > 0 {
        lemma_string_set_contains(v.drop_last(), x);
        if string_set(v).contains(x) {
            if v.last()@ == x {
                assert(v[v.len() - 1]@ == x);
            } else {
                let i = choose|i: int| 0 <= i < v.len() - 1 && v.drop_last()[i]@ == x;
                assert(v[i]@ == x);
            }
        }
        if exists|i: int| 0 <= i < v.len() && v[i]@ == x {
            let i = choose|i: int| 0 <= i < v.len() && v[i]@ == x;
            if i < v.len() - 1 {
                assert(v.drop_last()[i]@ == x);
            }
        }
    }
}

/// The view of any element of the vector is in the view set.
pub proof fn lemma_string_set_contains_index(v: Seq<String>, i: int)
    requires
        0 <= i < v.len(),
    ensures
        string_set(v).contains(v[i]@),
    decreases v.len(),
{
    if i < v.len() - 1 {
        lemma_string_set_contains_index(v.drop_last(), i);
        assert(v.drop_last()[i] == v[i]);
    }
}

/// Whether some string of `v` reads as `s` does.
pub fn contains_string(v: &Vec<String>, s: &String) -> (r: bool)
    ensures
        r == string_set(v@).contains(s@),
{
    proof {
        lemma_string_set_contains(v@, s@);
    }
    let mut i: usize = 0;
    while i < v.len()
        invariant
            i <= v@.len(),
            forall|k: int| 0 <= k < i ==> v@[k]@ != s@,
        decreases v@.len() - i,
    {
        if v[i].eq(s) {
            proof {
                assert(v@[i as int]@ == s@);
                lemma_string_set_contains_index(v@, i as int);
            }
            return true;
        }
        i = i + 1;
    }
    false
}

/// If position `i` holds the last `.` of `name`, the extension is everything
/// after `i`.
proof fn lemma_extension_at_last_dot(name: Seq<char>, i: int)
    requires
        0 <= i < name.len(),
        name[i] == '.',
        forall|k: int| i < k < name.len() ==> name[k] != '.',
    ensures
        extension_of(name) == Some(name.subrange(i + 1, name.len() as int)),
    decreases name.len(),
{
    if i == name.len() - 1 {
        assert(name.subrange(i + 1, name.len() as int) =~= Seq::<char>::empty());
    } else {
        lemma_extension_at_last_dot(name.drop_last(), i);
        assert(name.drop_last().subrange(i + 1, name.len() - 1) =~= name.subrange(
            i + 1,
            name.len() - 1,
        ));
        assert(name.subrange(i + 1, name.len() - 1).push(name.last()) =~= name.subrange(
            i + 1,
            name.len() as int,
        ));
    }
}

/// A name without any `.` has no extension.
proof fn lemma_extension_no_dot(name: Seq<char>)
    requires
        forall|k: int| 0 <= k < name.len() ==> name[k] != '.',
    ensures
        extension_of(name) is None,
    decreases name.len(),
{
    if name.len() > 0 {
        lemma_extension_no_dot(name.drop_last());
    }
}

/// The extension of `name`, owned: the characters after the last `.`.
fn extension_of_string(name: &str) -> (r: Option<String>)
    ensures
        match r {
            None => extension_of(name@) is None,
            Some(e) => extension_of(name@) == Some(e@),
        },
{
    let len = name.unicode_len();
    let mut i: usize = len;
    while i > 0
        invariant
            len == name@.len(),
            i <= len,
            forall|k: int| i <= k < len ==> name@[k] != '.',
        decreases i,
    {
        if name.get_char(i - 1) == '.' {
            let ext = name.substring_char(i, len).to_owned();
            proof {
                lemma_extension_at_last_dot(name@, i - 1);
            }
            return Some(ext);
        }
        i = i - 1;
    }
    proof {
        lemma_extension_no_dot(name@);
    }
    None
}

/// The line total of a list of file changes is never negative.
proof fn lemma_total_added_nonneg(files: Seq<CommitFileChange>)
    ensures
        total_added(files) >= 0,
    decreases files.len(),
{
    if files.len() > 0 {
        lemma_total_added_nonneg(files.drop_last());
    }
}

/// The line total of a prefix never exceeds the total of the whole list.
proof fn lemma_total_added_take_le(files: Seq<CommitFileChange>, i: int)
    requires
        0 <= i <= files.len(),
    ensures
        total_added(files.take(i)) <= total_added(files),
    decreases files.len() - i,
{
    if i == files.len() {
        assert(files.take(i) =~= files);
    } else {
        lemma_total_added_take_le(files, i + 1);
        assert(files.take(i + 1).drop_last() =~= files.take(i));
        assert(files.take(i + 1).last() == files[i]);
    }
}

/// A language outside the set of interest is never matched, though the lines
/// of a file carrying it still count toward the total.
pub proof fn lemma_unneeded_language_never_matched(
    files: Seq<CommitFileChange>,
    needed: Set<Seq<char>>,
    language: Seq<char>,
)
    requires
        !needed.contains(language),
    ensures
        !matched_languages(files, needed).contains(language),
    decreases files.len(),
{
    if files.len() > 0 {
        lemma_unneeded_language_never_matched(files.drop_last(), needed, language);
    }
}

/// A language is matched exactly when it is of interest and is the extension
/// of one of the files.
pub proof fn lemma_matched_languages_exact(
    files: Seq<CommitFileChange>,
    needed: Set<Seq<char>>,
    language: Seq<char>,
)
    ensures
        matched_languages(files, needed).contains(language) <==> (needed.contains(language)
            && exists|i: int|
            0 <= i < files.len() && extension_of(files[i].filename@) == Some(language)),
    decreases files.len(),
{
    if files.len() > 0 {
        lemma_matched_languages_exact(files.drop_last(), needed, language);
        if needed.contains(language) && exists|i: int|
            0 <= i < files.len() && extension_of(files[i].filename@) == Some(language) {
            let i = choose|i: int|
                0 <= i < files.len() && extension_of(files[i].filename@) == Some(language);
            if i < files.len() - 1 {
                assert(files.drop_last()[i] == files[i]);
            }
        }
        if matched_languages(files, needed).contains(language) {
            if matched_languages(files.drop_last(), needed).contains(language) {
                let i = choose|i: int|
                    0 <= i < files.drop_last().len() && extension_of(
                        files.drop_last()[i].filename@,
                    ) == Some(language);
                assert(extension_of(files[i].filename@) == Some(language));
            } else {
                assert(extension_of(files[files.len() - 1].filename@) == Some(language));
            }
        }
    }
}

/// The file list of an optional provider response, as a ghost value.
pub open spec fn files_view(files: Option<&Vec<CommitFileChange>>) -> Option<
    Seq<CommitFileChange>,
> {
    match files {
        None => None,
        Some(fs) => Some(fs@),
    }
}

/// The line total of `files`, or `None` where it does not fit in a `u64`.
pub fn sum_added(files: &Vec<CommitFileChange>) -> (r: Option<u64>)
    ensures
        match r {
            Some(t) => t == total_added(files@),
            None => total_added(files@) > u64::MAX,
        },
{
    let mut total: u64 = 0;
    let mut i: usize = 0;
    while i < files.len()
        invariant
            i <= files@.len(),
            total == total_added(files@.take(i as int)),
        decreases files@.len() - i,
    {
        proof {
            assert(files@.take(i + 1).drop_last() =~= files@.take(i as int));
            assert(files@.take(i + 1).last() == files@[i as int]);
        }
        match total.checked_add(files[i].lines_added) {
            Some(t) => {
                total = t;
            },
            None => {
                proof {
                    lemma_total_added_take_le(files@, i + 1);
                }
                return None;
            },
        }
        i = i + 1;
    }
    proof {
        assert(files@.take(files@.len() as int) =~= files@);
    }
    Some(total)
}

/// Classify one commit: each file's extension that is a language of interest
/// is matched, and the added lines of every file are summed whether or not
/// its extension is of interest. A commit whose file detail the provider
/// could not supply classifies as no languages and zero lines.
pub fn classify_commit(files: Option<&Vec<CommitFileChange>>, needed: &Vec<String>) -> (c:
    ClassifiedCommit)
    requires
        files matches Some(fs) ==> total_added(fs@) <= u64::MAX,
    ensures
        c@ == classification(files_view(files), string_set(needed@)),
        distinct_strings(c.matched_languages@),
{
    let fs = match files {
        None => {
            return ClassifiedCommit { matched_languages: Vec::new(), lines_added: 0 };
        },
        Some(fs) => fs,
    };
    let ghost needed_set = string_set(needed@);
    let mut langs: Vec<String> = Vec::new();
    let mut lines: u64 = 0;
    let mut i: usize = 0;
    while i < fs.len()
        invariant
            i <= fs@.len(),
            total_added(fs@) <= u64::MAX,
            needed_set == string_set(needed@),
            lines == total_added(fs@.take(i as int)),
            string_set(langs@) == matched_languages(fs@.take(i as int), needed_set),
            distinct_strings(langs@),
        decreases fs@.len() - i,
    {
        proof {
            assert(fs@.take(i + 1).drop_last() =~= fs@.take(i as int));
            assert(fs@.take(i + 1).last() == fs@[i as int]);
            lemma_total_added_take_le(fs@, i + 1);
            lemma_total_added_nonneg(fs@.take(i as int));
        }
        match extension_of_string(fs[i].filename.as_str()) {
            None => {},
            Some(ext) => {
                if contains_string(needed, &ext) && !contains_string(&langs, &ext) {
                    proof {
                        lemma_string_set_contains(langs@, ext@);
                    }
                    let ghost pre = langs@;
                    langs.push(ext);
                    proof {
                        assert(langs@.drop_last() =~= pre);
                        assert(forall|k: int| 0 <= k < pre.len() ==> pre[k]@ != ext@);
                        assert(forall|k: int| 0 <= k < pre.len() ==> langs@[k] == pre[k]);
                    }
                } else {
                    proof {
                        let matched = matched_languages(fs@.take(i as int), needed_set);
                        if needed_set.contains(ext@) {
                            assert(matched.insert(ext@) =~= matched);
                        }
                    }
                }
            },
        }
        lines = lines + fs[i].lines_added;
        i = i + 1;
    }
    proof {
        assert(fs@.take(fs@.len() as int) =~= fs@);
    }
    ClassifiedCommit { matched_languages: langs, lines_added: lines }
}

} // verus!
