//! The stats aggregator: per-bucket totals of matched languages, commits and
//! added lines, merged one classified commit at a time.

use vstd::prelude::*;

use crate::classify::ClassifiedCommit;
use crate::classify::ClassifiedCommitView;
use crate::classify::CommitFileChange;
use crate::classify::classification;
use crate::classify::classify_commit;
use crate::classify::contains_string;
use crate::classify::distinct_strings;
use crate::classify::files_view;
use crate::classify::lemma_string_set_contains;
use crate::classify::string_set;
use crate::classify::sum_added;
use crate::classify::total_added;

verus! {

/// The running totals of one experience bucket.
pub struct BucketStats {
    pub languages: Vec<String>,
    pub commits: u64,
    pub lines: u64,
}

/// Ghost value of a bucket's totals: the languages as a set, the counters as
/// unbounded integers.
#[verifier::ext_equal]
pub ghost struct BucketStatsView {
    pub languages: Set<Seq<char>>,
    pub commits: int,
    pub lines: int,
}

impl View for BucketStats {
    type V = BucketStatsView;

    open spec fn view(&self) -> BucketStatsView {
        BucketStatsView {
            languages: string_set(self.languages@),
            commits: self.commits as int,
            lines: self.lines as int,
        }
    }
}

/// The totals of a bucket no commit has been merged into yet.
pub open spec fn empty_stats() -> BucketStatsView {
    BucketStatsView { languages: Set::empty(), commits: 0, lines: 0 }
}

/// One merge step on a bucket's totals: union the languages, count one more
/// commit, add the commit's lines.
pub open spec fn merge_into(stats: BucketStatsView, commit: ClassifiedCommitView) -> BucketStatsView {
    BucketStatsView {
        languages: stats.languages.union(commit.matched_languages),
        commits: stats.commits + 1,
        lines: stats.lines + commit.lines_added,
    }
}

impl BucketStats {
    /// No language is listed twice.
    pub open spec fn wf(&self) -> bool {
        distinct_strings(self.languages@)
    }

    /// Fresh totals: no languages, no commits, no lines.
    pub fn new() -> (s: BucketStats)
        ensures
            s@ == empty_stats(),
            s.wf(),
    {
        let s = BucketStats { languages: Vec::new(), commits: 0, lines: 0 };
        proof {
            assert(s@.languages =~= empty_stats().languages);
        }
        s
    }

    /// Merge one classified commit into these totals.
    pub fn merge_commit(&mut self, commit: &ClassifiedCommit)
        requires
            old(self).wf(),
            old(self)@.commits + 1 <= u64::MAX,
            old(self)@.lines + commit@.lines_added <= u64::MAX,
        ensures
            final(self).wf(),
            final(self)@ == merge_into(old(self)@, commit@),
    {
        proof {
            assert(commit.matched_languages@.take(0) =~= Seq::<String>::empty());
            assert(old(self)@.languages.union(string_set(Seq::<String>::empty())) =~= old(
                self,
            )@.languages);
        }
        let mut j: usize = 0;
        while j < commit.matched_languages.len()
            invariant
                j <= commit.matched_languages@.len(),
                self.commits == old(self).commits,
                self.lines == old(self).lines,
                distinct_strings(self.languages@),
                string_set(self.languages@) == old(self)@.languages.union(
                    string_set(commit.matched_languages@.take(j as int)),
                ),
            decreases commit.matched_languages@.len() - j,
        {
            let ghost pre = self.languages@;
            let ghost taken = string_set(commit.matched_languages@.take(j as int));
            proof {
                assert(commit.matched_languages@.take(j + 1).drop_last() =~= commit
                    .matched_languages@.take(j as int));
                assert(commit.matched_languages@.take(j + 1).last() == commit
                    .matched_languages@[j as int]);
            }
            let language = &commit.matched_languages[j];
            if !contains_string(&self.languages, language) {
                proof {
                    lemma_string_set_contains(pre, language@);
                }
                self.languages.push(language.clone());
                proof {
                    assert(self.languages@.drop_last() =~= pre);
                    assert(forall|k: int| 0 <= k < pre.len() ==> self.languages@[k] == pre[k]);
                    assert(string_set(self.languages@) =~= old(self)@.languages.union(
                        taken.insert(language@),
                    ));
                }
            } else {
                proof {
                    assert(string_set(pre) =~= old(self)@.languages.union(
                        taken.insert(language@),
                    ));
                }
            }
            j = j + 1;
        }
        proof {
            assert(commit.matched_languages@.take(commit.matched_languages@.len() as int)
                =~= commit.matched_languages@);
        }
        self.commits = self.commits + 1;
        self.lines = self.lines + commit.lines_added;
    }
}

/// One named bucket of the table, with its totals.
pub struct BucketEntry {
    pub name: String,
    pub stats: BucketStats,
}

/// The per-bucket totals as a mapping from bucket name to totals.
pub open spec fn table_map(entries: Seq<BucketEntry>) -> Map<Seq<char>, BucketStatsView>
    decreases entries.len(),
{
    if entries.len() == 0 {
        Map::empty()
    } else {
        table_map(entries.drop_last()).insert(entries.last().name@, entries.last().stats@)
    }
}

/// The single shared accumulator: one totals entry per bucket that has seen
/// at least one commit.
pub struct StatsTable {
    pub entries: Vec<BucketEntry>,
}

impl View for StatsTable {
    type V = Map<Seq<char>, BucketStatsView>;

    open spec fn view(&self) -> Map<Seq<char>, BucketStatsView> {
        table_map(self.entries@)
    }
}

/// A bucket's totals in the table, or fresh totals where the bucket has no
/// entry yet.
pub open spec fn bucket_stats_or_empty(
    table: Map<Seq<char>, BucketStatsView>,
    bucket: Seq<char>,
) -> BucketStatsView {
    if table.contains_key(bucket) {
        table[bucket]
    } else {
        empty_stats()
    }
}

/// The whole table after merging one classified commit into one bucket: the
/// bucket's entry (fresh where absent) absorbs the commit, every other entry
/// is untouched.
pub open spec fn merged(
    table: Map<Seq<char>, BucketStatsView>,
    bucket: Seq<char>,
    commit: ClassifiedCommitView,
) -> Map<Seq<char>, BucketStatsView> {
    table.insert(bucket, merge_into(bucket_stats_or_empty(table, bucket), commit))
}

/// The table after the same commit has been merged into the same bucket `n`
/// times over.
pub open spec fn merged_n(
    table: Map<Seq<char>, BucketStatsView>,
    bucket: Seq<char>,
    commit: ClassifiedCommitView,
    n: nat,
) -> Map<Seq<char>, BucketStatsView>
    decreases n,
{
    if n == 0 {
        table
    } else {
        merged(merged_n(table, bucket, commit, (n - 1) as nat), bucket, commit)
    }
}

/// Merging one commit into one bucket `n` times adds `n` to the bucket's
/// commit counter, `n` times the commit's lines to its line counter, and
/// unions the commit's languages in exactly once; every other bucket's entry
/// is untouched.
pub proof fn lemma_merge_repeated(
    table: Map<Seq<char>, BucketStatsView>,
    bucket: Seq<char>,
    commit: ClassifiedCommitView,
    n: nat,
)
    requires
        n >= 1,
    ensures
        merged_n(table, bucket, commit, n) == table.insert(
            bucket,
            BucketStatsView {
                languages: bucket_stats_or_empty(table, bucket).languages.union(
                    commit.matched_languages,
                ),
                commits: bucket_stats_or_empty(table, bucket).commits + n,
                lines: bucket_stats_or_empty(table, bucket).lines + n * commit.lines_added,
            },
        ),
    decreases n,
{
    let stats = bucket_stats_or_empty(table, bucket);
    if n == 1 {
        assert(merged_n(table, bucket, commit, 0) == table);
        assert(1 * commit.lines_added == commit.lines_added) by (nonlinear_arith);
        assert(merged_n(table, bucket, commit, 1) =~~= table.insert(
            bucket,
            BucketStatsView {
                languages: stats.languages.union(commit.matched_languages),
                commits: stats.commits + 1,
                lines: stats.lines + 1 * commit.lines_added,
            },
        ));
    } else {
        lemma_merge_repeated(table, bucket, commit, (n - 1) as nat);
        assert(n * commit.lines_added == (n - 1) * commit.lines_added + commit.lines_added)
            by (nonlinear_arith);
        assert(stats.languages.union(commit.matched_languages).union(commit.matched_languages)
            =~= stats.languages.union(commit.matched_languages));
        assert(merged_n(table, bucket, commit, n) =~~= table.insert(
            bucket,
            BucketStatsView {
                languages: stats.languages.union(commit.matched_languages),
                commits: stats.commits + n,
                lines: stats.lines + n * commit.lines_added,
            },
        ));
    }
}

/// Merge order does not matter: merging commit `c1` into bucket `b1` and
/// then `c2` into `b2` leaves the same table as the two merges in the other
/// order, whether the buckets are the same or different.
pub proof fn lemma_merge_commutes(
    table: Map<Seq<char>, BucketStatsView>,
    b1: Seq<char>,
    c1: ClassifiedCommitView,
    b2: Seq<char>,
    c2: ClassifiedCommitView,
)
    ensures
        merged(merged(table, b1, c1), b2, c2) == merged(merged(table, b2, c2), b1, c1),
{
    if b1 == b2 {
        let stats = bucket_stats_or_empty(table, b1);
        assert(stats.languages.union(c1.matched_languages).union(c2.matched_languages)
            =~= stats.languages.union(c2.matched_languages).union(c1.matched_languages));
        assert(merged(merged(table, b1, c1), b2, c2) =~~= merged(merged(table, b2, c2), b1, c1));
    } else {
        assert(merged(merged(table, b1, c1), b2, c2) =~~= merged(merged(table, b2, c2), b1, c1));
    }
}

/// The table only grows. A merge never removes an entry — afterwards a
/// bucket has an entry exactly when it had one before or it is the merged
/// bucket — and on every surviving entry the language set only gains
/// members and both counters only rise.
pub proof fn lemma_merge_only_grows(
    table: Map<Seq<char>, BucketStatsView>,
    bucket: Seq<char>,
    commit: ClassifiedCommitView,
    b: Seq<char>,
)
    requires
        commit.lines_added >= 0,
    ensures
        merged(table, bucket, commit).contains_key(b) <==> (table.contains_key(b) || b == bucket),
        table.contains_key(b) ==> {
            let before = table[b];
            let after = merged(table, bucket, commit)[b];
            &&& before.languages.subset_of(after.languages)
            &&& before.commits <= after.commits
            &&& before.lines <= after.lines
        },
{
}

/// One merge event of a run: a commit classified under a bucket.
pub ghost struct MergeEvent {
    pub bucket: Seq<char>,
    pub commit: ClassifiedCommitView,
}

/// The table after a whole run of merge events, in order.
pub open spec fn merged_all(
    table: Map<Seq<char>, BucketStatsView>,
    events: Seq<MergeEvent>,
) -> Map<Seq<char>, BucketStatsView>
    decreases events.len(),
{
    if events.len() == 0 {
        table
    } else {
        merged_all(merged(table, events[0].bucket, events[0].commit), events.drop_first())
    }
}

/// The events of a run that belong to one bucket, in their run order.
pub open spec fn events_for(events: Seq<MergeEvent>, bucket: Seq<char>) -> Seq<MergeEvent>
    decreases events.len(),
{
    if events.len() == 0 {
        Seq::empty()
    } else if events[0].bucket == bucket {
        seq![events[0]] + events_for(events.drop_first(), bucket)
    } else {
        events_for(events.drop_first(), bucket)
    }
}

/// A bucket's totals in a table, `None` where the bucket has no entry.
pub open spec fn bucket_totals(
    table: Map<Seq<char>, BucketStatsView>,
    bucket: Seq<char>,
) -> Option<BucketStatsView> {
    if table.contains_key(bucket) {
        Some(table[bucket])
    } else {
        None
    }
}

/// A run of merge events reads and writes one bucket's totals independently
/// of the rest of the table: two starting tables that agree on the bucket
/// still agree on it after the same run.
proof fn lemma_merged_all_depends_only_on_bucket(
    t1: Map<Seq<char>, BucketStatsView>,
    t2: Map<Seq<char>, BucketStatsView>,
    events: Seq<MergeEvent>,
    bucket: Seq<char>,
)
    requires
        bucket_totals(t1, bucket) == bucket_totals(t2, bucket),
    ensures
        bucket_totals(merged_all(t1, events), bucket) == bucket_totals(
            merged_all(t2, events),
            bucket,
        ),
    decreases events.len(),
{
    if events.len() > 0 {
        let e = events[0];
        lemma_merged_all_depends_only_on_bucket(
            merged(t1, e.bucket, e.commit),
            merged(t2, e.bucket, e.commit),
            events.drop_first(),
            bucket,
        );
    }
}

/// No cross-contamination: after any run of merge events, a bucket's totals
/// are exactly what merging only its own events would have produced — the
/// events of every other bucket leave it untouched.
pub proof fn lemma_no_cross_contamination(
    table: Map<Seq<char>, BucketStatsView>,
    events: Seq<MergeEvent>,
    bucket: Seq<char>,
)
    ensures
        bucket_totals(merged_all(table, events), bucket) == bucket_totals(
            merged_all(table, events_for(events, bucket)),
            bucket,
        ),
    decreases events.len(),
{
    if events.len() > 0 {
        let e = events[0];
        let rest = events.drop_first();
        if e.bucket == bucket {
            let own = seq![e] + events_for(rest, bucket);
            assert(own[0] == e);
            assert(own.drop_first() =~= events_for(rest, bucket));
            lemma_no_cross_contamination(merged(table, bucket, e.commit), rest, bucket);
        } else {
            lemma_no_cross_contamination(merged(table, e.bucket, e.commit), rest, bucket);
            lemma_merged_all_depends_only_on_bucket(
                merged(table, e.bucket, e.commit),
                table,
                events_for(rest, bucket),
                bucket,
            );
        }
    }
}

/// No two entries carry the same bucket name.
pub open spec fn distinct_names(entries: Seq<BucketEntry>) -> bool {
    forall|i: int, j: int| 0 <= i < j < entries.len() ==> entries[i].name@ != entries[j].name@
}

/// The entry at index `i` is what the table map holds under its name.
proof fn lemma_table_map_index(entries: Seq<BucketEntry>, i: int)
    requires
        distinct_names(entries),
        0 <= i < entries.len(),
    ensures
        table_map(entries).contains_key(entries[i].name@),
        table_map(entries)[entries[i].name@] == entries[i].stats@,
    decreases entries.len(),
{
    if i < entries.len() - 1 {
        assert(forall|k: int|
            0 <= k < entries.len() - 1 ==> entries.drop_last()[k] == entries[k]);
        lemma_table_map_index(entries.drop_last(), i);
    }
}

/// A name that no entry carries is not a key of the table map.
proof fn lemma_table_map_absent(entries: Seq<BucketEntry>, name: Seq<char>)
    requires
        forall|k: int| 0 <= k < entries.len() ==> entries[k].name@ != name,
    ensures
        !table_map(entries).contains_key(name),
    decreases entries.len(),
{
    if entries.len() > 0 {
        assert(forall|k: int|
            0 <= k < entries.len() - 1 ==> entries.drop_last()[k] == entries[k]);
        lemma_table_map_absent(entries.drop_last(), name);
    }
}

/// Replacing the entry at `i` by one of the same name updates exactly that
/// name's totals in the table map.
proof fn lemma_table_map_update(entries: Seq<BucketEntry>, i: int, e: BucketEntry)
    requires
        distinct_names(entries),
        0 <= i < entries.len(),
        e.name@ == entries[i].name@,
    ensures
        table_map(entries.update(i, e)) == table_map(entries).insert(e.name@, e.stats@),
    decreases entries.len(),
{
    let u = entries.update(i, e);
    if i == entries.len() - 1 {
        assert(u.drop_last() =~= entries.drop_last());
        assert(u.last() == e);
        assert(table_map(u) =~= table_map(entries).insert(e.name@, e.stats@));
    } else {
        assert(forall|k: int|
            0 <= k < entries.len() - 1 ==> entries.drop_last()[k] == entries[k]);
        lemma_table_map_update(entries.drop_last(), i, e);
        assert(u.drop_last() =~= entries.drop_last().update(i, e));
        assert(u.last() == entries.last());
        assert(entries.last().name@ != e.name@);
        assert(table_map(u) =~= table_map(entries).insert(e.name@, e.stats@));
    }
}

impl StatsTable {
    /// Every bucket name occurs once and every entry's totals are well
    /// formed.
    pub open spec fn wf(&self) -> bool {
        &&& distinct_names(self.entries@)
        &&& forall|i: int| 0 <= i < self.entries@.len() ==> self.entries@[i].stats.wf()
    }

    /// The bucket names in the order their entries were created.
    pub open spec fn bucket_names(&self) -> Seq<Seq<char>> {
        self.entries@.map_values(|e: BucketEntry| e.name@)
    }

    /// An empty table: no bucket has been seen yet.
    pub fn new() -> (t: StatsTable)
        ensures
            t@ == Map::<Seq<char>, BucketStatsView>::empty(),
            t.wf(),
            t.entries@.len() == 0,
    {
        StatsTable { entries: Vec::new() }
    }

    /// The index of the entry named `name`, if the table has one.
    fn find(&self, name: &String) -> (r: Option<usize>)
        ensures
            match r {
                Some(i) => i < self.entries@.len() && self.entries@[i as int].name@ == name@,
                None => forall|k: int|
                    0 <= k < self.entries@.len() ==> self.entries@[k].name@ != name@,
            },
    {
        let mut i: usize = 0;
        while i < self.entries.len()
            invariant
                i <= self.entries@.len(),
                forall|k: int| 0 <= k < i ==> self.entries@[k].name@ != name@,
            decreases self.entries@.len() - i,
        {
            if self.entries[i].name.eq(name) {
                return Some(i);
            }
            i = i + 1;
        }
        None
    }

    /// The totals of the bucket named `name`, where it has an entry.
    pub fn get(&self, name: &String) -> (r: Option<&BucketStats>)
        requires
            self.wf(),
        ensures
            match r {
                Some(stats) => self@.contains_key(name@) && stats@ == self@[name@],
                None => !self@.contains_key(name@),
            },
    {
        match self.find(name) {
            Some(i) => {
                proof {
                    lemma_table_map_index(self.entries@, i as int);
                }
                Some(&self.entries[i].stats)
            },
            None => {
                proof {
                    lemma_table_map_absent(self.entries@, name@);
                }
                None
            },
        }
    }

    /// Merge one classified commit into the bucket named `bucket`, creating
    /// the bucket's entry where this is its first commit. Every other entry
    /// is left untouched, and entries never leave the table.
    pub fn merge(&mut self, bucket: &String, commit: &ClassifiedCommit)
        requires
            old(self).wf(),
            bucket_stats_or_empty(old(self)@, bucket@).commits + 1 <= u64::MAX,
            bucket_stats_or_empty(old(self)@, bucket@).lines + commit@.lines_added <= u64::MAX,
        ensures
            final(self).wf(),
            final(self)@ == merged(old(self)@, bucket@, commit@),
            old(self)@.contains_key(bucket@) ==> final(self).bucket_names() == old(
                self,
            ).bucket_names(),
            !old(self)@.contains_key(bucket@) ==> final(self).bucket_names() == old(
                self,
            ).bucket_names().push(bucket@),
    {
        match self.find(bucket) {
            Some(i) => {
                proof {
                    lemma_table_map_index(self.entries@, i as int);
                }
                let mut entry = self.entries.remove(i);
                entry.stats.merge_commit(commit);
                self.entries.insert(i, entry);
                proof {
                    assert(self.entries@ =~= old(self).entries@.update(
                        i as int,
                        self.entries@[i as int],
                    ));
                    lemma_table_map_update(
                        old(self).entries@,
                        i as int,
                        self.entries@[i as int],
                    );
                    assert(self@ =~= merged(old(self)@, bucket@, commit@));
                    assert(self.bucket_names() =~= old(self).bucket_names());
                }
            },
            None => {
                proof {
                    lemma_table_map_absent(self.entries@, bucket@);
                }
                let mut stats = BucketStats::new();
                stats.merge_commit(commit);
                self.entries.push(BucketEntry { name: bucket.clone(), stats });
                proof {
                    assert(self.entries@.drop_last() =~= old(self).entries@);
                    assert(self@ =~= merged(old(self)@, bucket@, commit@));
                    assert(self.bucket_names() =~= old(self).bucket_names().push(bucket@));
                }
            },
        }
    }

    /// The whole per-commit step of a bucket worker: classify the commit's
    /// files against the languages of interest and merge the result into
    /// `bucket`. Returns `false`, leaving the table untouched, exactly when
    /// a counter would outgrow a `u64`.
    pub fn record_commit(
        &mut self,
        bucket: &String,
        files: Option<&Vec<CommitFileChange>>,
        needed: &Vec<String>,
    ) -> (r: bool)
        requires
            old(self).wf(),
        ensures
            final(self).wf(),
            r == {
                let commit = classification(files_view(files), string_set(needed@));
                &&& (files_view(files) matches Some(fs) ==> total_added(fs) <= u64::MAX)
                &&& bucket_stats_or_empty(old(self)@, bucket@).commits + 1 <= u64::MAX
                &&& bucket_stats_or_empty(old(self)@, bucket@).lines + commit.lines_added
                    <= u64::MAX
            },
            r ==> final(self)@ == merged(
                old(self)@,
                bucket@,
                classification(files_view(files), string_set(needed@)),
            ),
            !r ==> *final(self) == *old(self),
    {
        let total: u64 = match files {
            None => 0,
            Some(fs) => match sum_added(fs) {
                Some(t) => t,
                None => {
                    return false;
                },
            },
        };
        let room = match self.get(bucket) {
            Some(stats) => stats.commits < u64::MAX && total <= u64::MAX - stats.lines,
            None => true,
        };
        if !room {
            return false;
        }
        let commit = classify_commit(files, needed);
        self.merge(bucket, &commit);
        true
    }
}

} // verus!
