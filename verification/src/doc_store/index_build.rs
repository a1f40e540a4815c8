//! The course of a background index build: count, then write again what is not
//! done yet, a page at a time.

use vstd::prelude::*;

use super::scan::{law_successor_is_next, successor_key};
use super::schema::{build_in_progress, is_in_progress, resume_point, DocStoreSchema};
use super::hex::{bytes_to_hex, hex_of, is_hex, law_hex_round_trip, unhex};
use super::types::DiskBuildProgress;
use crate::bytes::copy_bytes;
use crate::lex::{lemma_lex_irreflexive, lemma_lex_total, lex_le, lex_less_eq, lex_lt};
use crate::seqs::lemma_push_contains;

verus! {

/// Documents fetched per page.
pub const REBUILD_PAGE_SIZE: usize = 1000;

/// Documents between two pauses.
pub const YIELD_EVERY: u64 = 1000;

/// Where a build stands.
#[derive(Debug, Clone, Copy, PartialEq, Eq, Structural)]
pub enum BuildPhase {
    /// Counting the documents.
    Counting,
    /// Writing documents again, so that they are indexed.
    Writing,
    /// Over.
    Complete,
}

/// A build under way.
pub struct Rebuild {
    /// The last key that an interrupted build had processed.
    pub resume_after: Option<Vec<u8>>,
    pub phase: BuildPhase,
    /// Where the next page starts; at the first key where there is none.
    pub cursor: Option<Vec<u8>>,
    /// Documents counted.
    pub total: u64,
    /// Documents processed, by the interrupted build and by this one.
    pub indexed: u64,
    /// The last processed key, of the interrupted build or of this one.
    pub last_key: Option<Vec<u8>>,
}

/// View of an optional key.
pub open spec fn opt_key(key: Option<Vec<u8>>) -> Option<Seq<u8>> {
    match key {
        Some(k) => Some(k@),
        None => None,
    }
}

/// The keys as byte strings.
pub open spec fn key_views(keys: Seq<Vec<u8>>) -> Seq<Seq<u8>> {
    Seq::new(keys.len(), |i: int| keys[i]@)
}

/// An interrupted build had processed the key: it does not come after its last one.
pub open spec fn was_done(key: Seq<u8>, resume_after: Option<Seq<u8>>) -> bool {
    resume_after is Some && lex_le(key, resume_after->0)
}

/// The key is written by a build that starts there; every key where it starts nowhere.
pub open spec fn is_due(key: Seq<u8>, start: Option<Seq<u8>>) -> bool {
    start is None || lex_le(start->0, key)
}

/// Number of keys that an interrupted build had processed: those up to its last one.
pub open spec fn done_before(keys: Seq<Seq<u8>>, resume_after: Option<Seq<u8>>) -> nat
    decreases keys.len(),
{
    if keys.len() == 0 {
        0
    } else {
        done_before(keys.drop_last(), resume_after) + if was_done(keys.last(), resume_after) {
            1nat
        } else {
            0nat
        }
    }
}

/// Number of keys at `start` or after it; all of them where there is no start.
pub open spec fn at_or_after(keys: Seq<Seq<u8>>, start: Option<Seq<u8>>) -> nat
    decreases keys.len(),
{
    if keys.len() == 0 {
        0
    } else {
        at_or_after(keys.drop_last(), start) + if is_due(keys.last(), start) {
            1nat
        } else {
            0nat
        }
    }
}

/// Where the writing starts: behind the last processed key.
pub open spec fn write_start(resume_after: Option<Seq<u8>>) -> Option<Seq<u8>> {
    match resume_after {
        Some(k) => Some(k.push(0)),
        None => None,
    }
}

/// A resumed build writes every key that the interrupted one had not processed, and no
/// other.
pub proof fn law_resumed_build_writes_the_rest(key: Seq<u8>, resume_after: Option<Seq<u8>>)
    ensures
        is_due(key, write_start(resume_after)) <==> !was_done(key, resume_after),
{
    if resume_after is Some {
        let r = resume_after->0;
        law_successor_is_next(r, key);
        crate::lex::lemma_lex_total(key, r);
        crate::lex::lemma_lex_irreflexive(key);
    }
}

/// The documents done before and those from the start of the writing on are all.
pub proof fn law_resumed_build_covers_everything(keys: Seq<Seq<u8>>, resume_after: Option<Seq<u8>>)
    ensures
        done_before(keys, resume_after) + at_or_after(keys, write_start(resume_after)) == keys.len(),
    decreases keys.len(),
{
    if keys.len() > 0 {
        law_resumed_build_covers_everything(keys.drop_last(), resume_after);
        law_resumed_build_writes_the_rest(keys.last(), resume_after);
    }
}

/// How a build stands.
#[derive(Debug, Clone, Copy, PartialEq, Eq, Structural)]
pub enum BuildStatus {
    Running,
    Complete,
    Failed,
}

/// The word that a record has for a status.
pub open spec fn status_word(status: BuildStatus) -> Seq<char> {
    match status {
        BuildStatus::Running => "in_progress"@,
        BuildStatus::Complete => "complete"@,
        BuildStatus::Failed => "failed"@,
    }
}

impl Rebuild {
    /// Starts a build, or resumes one after the key it had reached.
    pub fn begin(resume_after: Option<Vec<u8>>) -> (b: Rebuild)
        ensures
            b.resume_after == resume_after,
            b.phase == BuildPhase::Counting,
            b.cursor is None,
            b.total == 0,
            b.indexed == 0,
            opt_key(b.last_key) == opt_key(resume_after),
    {
        let last_key: Option<Vec<u8>> = match &resume_after {
            Some(k) => Some(copy_bytes(k.as_slice())),
            None => None,
        };
        Rebuild { resume_after, phase: BuildPhase::Counting, cursor: None, total: 0, indexed: 0, last_key }
    }

    /// Counts a page. After the last page the writing begins, behind the last
    /// processed key.
    pub fn count_page(&mut self, keys: &[Vec<u8>], next_cursor: Option<Vec<u8>>)
        requires
            old(self).phase == BuildPhase::Counting,
            old(self).total + keys@.len() <= u64::MAX,
            old(self).indexed <= old(self).total,
        ensures
            final(self).resume_after == old(self).resume_after,
            final(self).last_key == old(self).last_key,
            final(self).total == old(self).total + keys@.len(),
            final(self).indexed == old(self).indexed + done_before(
                key_views(keys@),
                opt_key(old(self).resume_after),
            ),
            final(self).indexed <= final(self).total,
            next_cursor is Some ==> final(self).phase == BuildPhase::Counting && final(self).cursor == next_cursor,
            next_cursor is None ==> final(self).phase == BuildPhase::Writing && opt_key(final(self).cursor)
                == write_start(opt_key(old(self).resume_after)),
    {
        let n: usize = keys.len();
        let mut i: usize = 0;
        let mut done: u64 = 0;
        let ghost views = key_views(keys@);
        proof {
            assert(views.take(0) =~= Seq::<Seq<u8>>::empty());
        }
        while i < n
            invariant
                i <= n == keys@.len(),
                n <= u64::MAX,
                views == key_views(keys@),
                done == done_before(views.take(i as int), opt_key(self.resume_after)),
                done <= i,
            decreases n - i,
        {
            proof {
                assert(views.take(i + 1).drop_last() =~= views.take(i as int));
                assert(views.take(i + 1).last() == keys@[i as int]@);
            }
            let covered: bool = match &self.resume_after {
                Some(r) => lex_less_eq(keys[i].as_slice(), r.as_slice()),
                None => false,
            };
            if covered {
                done = done + 1;
            }
            i = i + 1;
        }
        proof {
            assert(views.take(n as int) =~= views);
        }
        self.total = self.total + n as u64;
        self.indexed = self.indexed + done;
        match next_cursor {
            Some(c) => {
                self.cursor = Some(c);
            },
            None => {
                self.phase = BuildPhase::Writing;
                self.cursor = match &self.resume_after {
                    Some(r) => Some(successor_key(r.as_slice())),
                    None => None,
                };
            },
        }
    }

    /// Counts the document with this key, which was written again; `true` where a pause
    /// is due.
    pub fn wrote(&mut self, key: &[u8]) -> (pause: bool)
        requires
            old(self).phase == BuildPhase::Writing,
            old(self).indexed < u64::MAX,
        ensures
            final(self).indexed == old(self).indexed + 1,
            pause <==> final(self).indexed % YIELD_EVERY == 0,
            opt_key(final(self).last_key) == Some(key@),
            final(self).resume_after == old(self).resume_after,
            final(self).phase == old(self).phase,
            final(self).cursor == old(self).cursor,
            final(self).total == old(self).total,
    {
        self.indexed = self.indexed + 1;
        self.last_key = Some(copy_bytes(key));
        self.indexed % YIELD_EVERY == 0
    }

    /// Goes on to the next page; the build is over after an empty page and after
    /// the last one.
    pub fn finish_page(&mut self, page_len: usize, next_cursor: Option<Vec<u8>>)
        requires
            old(self).phase == BuildPhase::Writing,
        ensures
            final(self).phase == (if page_len == 0 || next_cursor is None {
                BuildPhase::Complete
            } else {
                BuildPhase::Writing
            }),
            final(self).phase == BuildPhase::Writing ==> final(self).cursor == next_cursor,
            final(self).resume_after == old(self).resume_after,
            final(self).last_key == old(self).last_key,
            final(self).total == old(self).total,
            final(self).indexed == old(self).indexed,
    {
        if page_len == 0 {
            self.phase = BuildPhase::Complete;
            return;
        }
        match next_cursor {
            Some(c) => {
                self.cursor = Some(c);
            },
            None => {
                self.phase = BuildPhase::Complete;
            },
        }
    }
}

/// `record` says how far the build is.
pub open spec fn is_record(record: DiskBuildProgress, build: Rebuild, status: BuildStatus) -> bool {
    &&& record.status@ == status_word(status)
    &&& record.total == build.total
    &&& record.indexed == build.indexed
    &&& match build.last_key {
        Some(k) => record.last_key_hex is Some && record.last_key_hex->0@ == hex_of(k@),
        None => record.last_key_hex is None,
    }
}

impl Rebuild {
    /// The record of the build; one that failed says why.
    pub fn record(&self, status: BuildStatus, error: Option<String>) -> (record: DiskBuildProgress)
        ensures
            is_record(record, *self, status),
            record.error == error,
    {
        let word: &str = match status {
            BuildStatus::Running => "in_progress",
            BuildStatus::Complete => "complete",
            BuildStatus::Failed => "failed",
        };
        let last_key_hex: Option<String> = match &self.last_key {
            Some(k) => Some(bytes_to_hex(k.as_slice())),
            None => None,
        };
        DiskBuildProgress { status: word.to_owned(), total: self.total, indexed: self.indexed, last_key_hex, error }
    }
}

/// A recorded build is taken up where it stopped, behind the last key it had processed;
/// one that is over, well or badly, is not taken up.
pub proof fn law_record_is_taken_up(record: DiskBuildProgress, build: Rebuild, status: BuildStatus)
    requires
        is_record(record, build, status),
    ensures
        is_in_progress(Some(record)) <==> status == BuildStatus::Running,
        build.last_key is Some ==> is_hex(record.last_key_hex->0@) && unhex(record.last_key_hex->0@)
            == build.last_key->0@,
        build.last_key is None ==> record.last_key_hex is None,
{
    reveal_strlit("in_progress");
    reveal_strlit("complete");
    reveal_strlit("failed");
    if build.last_key is Some {
        law_hex_round_trip(build.last_key->0@);
    }
    assert("complete"@.len() == 8);
    assert("in_progress"@.len() == 11);
    assert("failed"@.len() == 6);
}

/// A build to resume.
pub struct PendingBuild {
    /// Position of the schema.
    pub schema: usize,
    /// Position of the index in it.
    pub index: usize,
    /// The last processed key.
    pub resume_after: Option<Vec<u8>>,
    /// Documents counted so far.
    pub total: u64,
    /// Documents processed so far.
    pub indexed: u64,
}

/// The unfinished builds of one schema among its first `n` indices.
pub open spec fn pending_in(records: Seq<Option<DiskBuildProgress>>, schema: int, n: int) -> Seq<(int, int)>
    decreases n,
{
    if n <= 0 {
        seq![]
    } else if is_in_progress(records[n - 1]) {
        pending_in(records, schema, n - 1).push((schema, n - 1))
    } else {
        pending_in(records, schema, n - 1)
    }
}

/// The unfinished builds of the first `m` schemas; namespaces that were never
/// created have none.
pub open spec fn pending_of(
    schemas: Seq<DocStoreSchema>,
    records: Seq<Vec<Option<DiskBuildProgress>>>,
    m: int,
) -> Seq<(int, int)>
    decreases m,
{
    if m <= 0 {
        seq![]
    } else {
        pending_of(schemas, records, m - 1) + if schemas[m - 1].ns_id is Some {
            pending_in(records[m - 1]@, m - 1, schemas[m - 1].indices@.len() as int)
        } else {
            seq![]
        }
    }
}

/// Positions of a list of builds.
pub open spec fn positions_of(builds: Seq<PendingBuild>) -> Seq<(int, int)> {
    Seq::new(builds.len(), |k: int| (builds[k].schema as int, builds[k].index as int))
}

/// `b` continues the build that `record` describes.
pub open spec fn continues(b: PendingBuild, record: Option<DiskBuildProgress>) -> bool {
    &&& record is Some
    &&& b.total == record->0.total
    &&& b.indexed == record->0.indexed
    &&& opt_key(b.resume_after) == if record->0.last_key_hex is Some && is_hex(record->0.last_key_hex->0@) {
        Some(unhex(record->0.last_key_hex->0@))
    } else {
        None
    }
}

/// The builds that an earlier run left unfinished, schema by schema. `records`
/// holds the recorded progress of every index of every schema.
pub fn pending_builds(schemas: &[DocStoreSchema], records: &[Vec<Option<DiskBuildProgress>>]) -> (out: Vec<PendingBuild>)
    requires
        records@.len() == schemas@.len(),
        forall|s: int| 0 <= s < schemas@.len() ==> (#[trigger] records@[s])@.len() == schemas@[s].indices@.len(),
    ensures
        positions_of(out@) == pending_of(schemas@, records@, schemas@.len() as int),
        forall|k: int|
            0 <= k < out@.len() ==> continues(
                #[trigger] out@[k],
                records@[out@[k].schema as int]@[out@[k].index as int],
            ),
{
    let mut out: Vec<PendingBuild> = Vec::new();
    let mut s: usize = 0;
    while s < schemas.len()
        invariant
            s <= schemas@.len() == records@.len(),
            forall|s: int| 0 <= s < schemas@.len() ==> (#[trigger] records@[s])@.len() == schemas@[s].indices@.len(),
            positions_of(out@) =~= pending_of(schemas@, records@, s as int),
            forall|k: int|
                0 <= k < out@.len() ==> continues(
                    #[trigger] out@[k],
                    records@[out@[k].schema as int]@[out@[k].index as int],
                ),
        decreases schemas@.len() - s,
    {
        if schemas[s].ns_id.is_some() {
            let n: usize = schemas[s].indices.len();
            let ghost before = pending_of(schemas@, records@, s as int);
            proof {
                assert(records@[s as int]@.len() == n);
            }
            let mut i: usize = 0;
            while i < n
                invariant
                    s < schemas@.len() == records@.len(),
                    i <= n == records@[s as int]@.len(),
                    positions_of(out@) =~= before + pending_in(records@[s as int]@, s as int, i as int),
                    forall|k: int|
                        0 <= k < out@.len() ==> continues(
                            #[trigger] out@[k],
                            records@[out@[k].schema as int]@[out@[k].index as int],
                        ),
                decreases n - i,
            {
                let ghost held = out@;
                let record = &records[s][i];
                if build_in_progress(record) {
                    if let Some(p) = record {
                        let build = PendingBuild {
                            schema: s,
                            index: i,
                            resume_after: resume_point(record),
                            total: p.total,
                            indexed: p.indexed,
                        };
                        out.push(build);
                        proof {
                            assert(positions_of(out@) =~= positions_of(held).push((s as int, i as int)));
                        }
                    }
                }
                i = i + 1;
            }
        }
        s = s + 1;
    }
    out
}

/// What is counted page by page is counted of all keys: the counts of two stretches
/// of keys add up to those of both together.
pub proof fn law_pages_add_up(a: Seq<Seq<u8>>, b: Seq<Seq<u8>>, resume_after: Option<Seq<u8>>, start: Option<Seq<u8>>)
    ensures
        done_before(a + b, resume_after) == done_before(a, resume_after) + done_before(b, resume_after),
        at_or_after(a + b, start) == at_or_after(a, start) + at_or_after(b, start),
    decreases b.len(),
{
    if b.len() == 0 {
        assert(a + b =~= a);
    } else {
        law_pages_add_up(a, b.drop_last(), resume_after, start);
        assert((a + b).drop_last() =~= a + b.drop_last());
        assert((a + b).last() == b.last());
    }
}

/// An interrupted build had processed the keys up to its last one, that one too; a
/// resumed one writes exactly the keys after it, and a fresh one writes them all.
pub proof fn law_where_a_build_goes_on(key: Seq<u8>, last: Seq<u8>)
    ensures
        was_done(key, Some(last)) <==> key == last || lex_lt(key, last),
        is_due(key, write_start(Some(last))) <==> lex_lt(last, key),
        !was_done(key, None),
        is_due(key, write_start(None)),
{
    law_resumed_build_writes_the_rest(key, Some(last));
    lemma_lex_total(key, last);
    lemma_lex_irreflexive(key);
}

/// The counts of a page are the numbers of its keys that were processed before, and of
/// those that are due.
pub proof fn law_pages_count_their_keys(keys: Seq<Seq<u8>>, last: Seq<u8>)
    ensures
        done_before(keys, None) == 0,
        at_or_after(keys, None) == keys.len(),
        done_before(keys, Some(last)) == keys.filter(|k: Seq<u8>| k == last || lex_lt(k, last)).len(),
        at_or_after(keys, write_start(Some(last))) == keys.filter(|k: Seq<u8>| lex_lt(last, k)).len(),
    decreases keys.len(),
{
    reveal(Seq::filter);
    if keys.len() > 0 {
        law_pages_count_their_keys(keys.drop_last(), last);
        law_where_a_build_goes_on(keys.last(), last);
    }
}

/// The words that records have for the states of a build.
pub proof fn law_status_words()
    ensures
        status_word(BuildStatus::Running) == "in_progress"@,
        status_word(BuildStatus::Complete) == "complete"@,
        status_word(BuildStatus::Failed) == "failed"@,
{
}

/// A record keeps the counts of its build and the last processed key in hexadecimal.
pub proof fn law_records_keep_the_build(record: DiskBuildProgress, build: Rebuild, status: BuildStatus)
    requires
        is_record(record, build, status),
    ensures
        record.total == build.total,
        record.indexed == build.indexed,
        record.last_key_hex is Some <==> build.last_key is Some,
        build.last_key matches Some(k) ==> record.last_key_hex->0@ == hex_of(k@),
        status is Running ==> record.status@ == "in_progress"@,
        status is Complete ==> record.status@ == "complete"@,
        status is Failed ==> record.status@ == "failed"@,
{
}

proof fn lemma_pending_in(records: Seq<Option<DiskBuildProgress>>, schema: int, n: int)
    requires
        0 <= n <= records.len(),
    ensures
        forall|i: int| #[trigger]
            pending_in(records, schema, n).contains((schema, i)) <==> 0 <= i < n && is_in_progress(records[i]),
        forall|k: int|
            0 <= k < pending_in(records, schema, n).len() ==> (#[trigger] pending_in(records, schema, n)[k]).0 == schema
                && 0 <= pending_in(records, schema, n)[k].1 < n,
        forall|j: int, k: int|
            0 <= j < k < pending_in(records, schema, n).len() ==> (#[trigger] pending_in(records, schema, n)[j]).1 < (
            #[trigger] pending_in(records, schema, n)[k]).1,
    decreases n,
{
    if n > 0 {
        lemma_pending_in(records, schema, n - 1);
        let (before, all) = (pending_in(records, schema, n - 1), pending_in(records, schema, n));
        assert forall|i: int| #[trigger] all.contains((schema, i)) <==> 0 <= i < n && is_in_progress(records[i]) by {
            if all.len() > before.len() {
                lemma_push_contains(before, (schema, n - 1), (schema, i));
            }
            assert(before.contains((schema, i)) <==> 0 <= i < n - 1 && is_in_progress(records[i]));
        }
    }
}

/// The builds to resume are all those of created namespaces whose record says that they
/// are still in progress, and no others, schema by schema and index by index.
pub proof fn law_pending_builds_are_all(
    schemas: Seq<DocStoreSchema>,
    records: Seq<Vec<Option<DiskBuildProgress>>>,
    m: int,
)
    requires
        0 <= m <= schemas.len(),
        records.len() == schemas.len(),
        forall|s: int| 0 <= s < schemas.len() ==> (#[trigger] records[s])@.len() == schemas[s].indices@.len(),
    ensures
        forall|s: int, i: int| #[trigger]
            pending_of(schemas, records, m).contains((s, i)) <==> 0 <= s < m && schemas[s].ns_id is Some && 0 <= i
                < schemas[s].indices@.len() && records[s]@[i] is Some && records[s]@[i]->0.status@ == "in_progress"@,
        forall|j: int, k: int|
            0 <= j < k < pending_of(schemas, records, m).len() ==> ({
                let (a, b) = (#[trigger] pending_of(schemas, records, m)[j], #[trigger] pending_of(schemas, records, m)[k]);
                a.0 < b.0 || (a.0 == b.0 && a.1 < b.1)
            }),
    decreases m,
{
    if m > 0 {
        law_pending_builds_are_all(schemas, records, m - 1);
        let before = pending_of(schemas, records, m - 1);
        let all = pending_of(schemas, records, m);
        let n = schemas[m - 1].indices@.len() as int;
        assert(records[m - 1]@.len() == n);
        lemma_pending_in(records[m - 1]@, m - 1, n);
        let next = pending_in(records[m - 1]@, m - 1, n);
        assert forall|k: int| 0 <= k < before.len() implies (#[trigger] before[k]).0 < m - 1 by {
            assert(before.contains((before[k].0, before[k].1)));
        }
        assert forall|s: int, i: int| #[trigger] all.contains((s, i)) <==> 0 <= s < m && schemas[s].ns_id is Some && 0
            <= i < schemas[s].indices@.len() && records[s]@[i] is Some && records[s]@[i]->0.status@ == "in_progress"@ by {
            if before.contains((s, i)) {
                let k = choose|k: int| 0 <= k < before.len() && before[k] == (s, i);
                assert(all[k] == (s, i));
            }
            if all.contains((s, i)) && !before.contains((s, i)) {
                let k = choose|k: int| 0 <= k < all.len() && all[k] == (s, i);
                if k < before.len() {
                    assert(before[k] == (s, i));
                } else {
                    assert(next[k - before.len()] == (s, i));
                    assert(next.contains((m - 1, i)));
                }
            }
            if s == m - 1 && schemas[s].ns_id is Some && next.contains((m - 1, i)) {
                let k = choose|k: int| 0 <= k < next.len() && next[k] == (m - 1, i);
                assert(all[before.len() + k] == (s, i));
            }
        }
        assert forall|j: int, k: int| 0 <= j < k < all.len() implies ({
            let (a, b) = (#[trigger] all[j], #[trigger] all[k]);
            a.0 < b.0 || (a.0 == b.0 && a.1 < b.1)
        }) by {
            if k < before.len() {
                assert(all[j] == before[j] && all[k] == before[k]);
            } else if j < before.len() {
                assert(all[j] == before[j]);
                assert(all[k] == next[k - before.len()]);
            } else {
                assert(all[j] == next[j - before.len()]);
                assert(all[k] == next[k - before.len()]);
            }
        }
    }
}

/// The byte strings of a list are those of its keys, all of them and in their order; the
/// positions of a list of builds are theirs.
pub proof fn law_key_models(keys: Seq<Vec<u8>>, key: Vec<u8>, builds: Seq<PendingBuild>, i: int)
    ensures
        key_views(keys).len() == keys.len(),
        0 <= i < keys.len() ==> key_views(keys)[i] == keys[i]@,
        opt_key(Some(key)) == Some(key@),
        opt_key(None) is None,
        positions_of(builds).len() == builds.len(),
        0 <= i < builds.len() ==> positions_of(builds)[i] == (builds[i].schema as int, builds[i].index as int),
{
}

/// A resumed build keeps the counts of its record and goes on behind the last key in it.
pub proof fn law_resumed_builds(b: PendingBuild, record: DiskBuildProgress)
    requires
        continues(b, Some(record)),
    ensures
        b.total == record.total,
        b.indexed == record.indexed,
        record.last_key_hex is None ==> b.resume_after is None,
        record.last_key_hex matches Some(h) ==> (is_hex(h@) ==> b.resume_after is Some && b.resume_after->0@ == unhex(h@)),
        record.last_key_hex matches Some(h) ==> (!is_hex(h@) ==> b.resume_after is None),
{
}

/// The course of a build: it begins with counting, from the first key on. A counted page
/// adds all of its keys to the total and those up to the last processed one to the
/// indexed; after the last page the writing begins, at the first key behind that one.
pub proof fn law_counting_pages(
    resume_after: Option<Vec<u8>>,
    begun: Rebuild,
    build: &mut Rebuild,
    keys: &[Vec<u8>],
    next: Option<Vec<u8>>,
    key: Seq<u8>,
)
    requires
        call_ensures(Rebuild::begin, (resume_after,), begun),
        old(build).phase == BuildPhase::Counting,
        old(build).total + keys@.len() <= u64::MAX,
        old(build).indexed <= old(build).total,
        call_ensures(Rebuild::count_page, (build, keys, next), ()),
    ensures
        begun.phase is Counting && begun.cursor is None && begun.total == 0 && begun.indexed == 0 && begun.resume_after
            == resume_after,
        final(build).total == old(build).total + keys@.len(),
        old(build).resume_after is None ==> final(build).indexed == old(build).indexed,
        old(build).resume_after matches Some(last) ==> final(build).indexed == old(build).indexed + up_to(
            key_views(keys@),
            last@,
        ),
        next matches Some(c) ==> final(build).phase is Counting && final(build).cursor == Some(c),
        next is None ==> final(build).phase is Writing && (old(build).resume_after is None ==> final(build).cursor is None)
            && (old(build).resume_after matches Some(last) ==> final(build).cursor is Some && (lex_lt(last@, key) <==> lex_le(
            final(build).cursor->0@,
            key,
        ))),
        final(build).resume_after == old(build).resume_after,
{
    let views = key_views(keys@);
    match old(build).resume_after {
        Some(last) => {
            lemma_up_to(views, last@);
            law_successor_is_next(last@, key);
        },
        None => law_pages_count_their_keys(views, Seq::empty()),
    }
}

/// Number of the keys that do not come after `last`.
pub open spec fn up_to(keys: Seq<Seq<u8>>, last: Seq<u8>) -> nat {
    keys.filter(|k: Seq<u8>| k == last || lex_lt(k, last)).len()
}

proof fn lemma_up_to(keys: Seq<Seq<u8>>, last: Seq<u8>)
    ensures
        done_before(keys, Some(last)) == up_to(keys, last),
    decreases keys.len(),
{
    reveal(Seq::filter);
    if keys.len() > 0 {
        lemma_up_to(keys.drop_last(), last);
        law_where_a_build_goes_on(keys.last(), last);
    }
}

/// A written document counts one and is the last processed one; a page goes on at its
/// cursor, and the build is over after an empty page and after the last one.
pub proof fn law_writing_pages(
    build: &mut Rebuild,
    key: &[u8],
    pause: bool,
    other: &mut Rebuild,
    page_len: usize,
    next: Option<Vec<u8>>,
)
    requires
        old(build).phase == BuildPhase::Writing,
        old(build).indexed < u64::MAX,
        call_ensures(Rebuild::wrote, (build, key), pause),
        old(other).phase == BuildPhase::Writing,
        call_ensures(Rebuild::finish_page, (other, page_len, next), ()),
    ensures
        final(build).indexed == old(build).indexed + 1,
        final(build).last_key is Some && final(build).last_key->0@ == key@,
        pause <==> (old(build).indexed + 1) % 1000 == 0,
        final(other).phase is Complete <==> page_len == 0 || next is None,
        !(final(other).phase is Complete) ==> final(other).phase is Writing && final(other).cursor == next,
        final(other).indexed == old(other).indexed && final(other).total == old(other).total,
{
}

/// The record of a build, and how it is read again: a running one is resumed behind the
/// last key that was processed, and one that is over is not resumed.
pub proof fn law_records_are_resumed(
    build: &Rebuild,
    status: BuildStatus,
    error: Option<String>,
    record: DiskBuildProgress,
    key: Option<Vec<u8>>,
)
    requires
        call_ensures(Rebuild::record, (build, status, error), record),
        call_ensures(resume_point, (&Some(record),), key),
    ensures
        record.total == build.total && record.indexed == build.indexed && record.error == error,
        status is Running ==> opt_key(key) == opt_key(build.last_key),
        !(status is Running) ==> key is None,
        status is Failed ==> record.status@ == "failed"@,
        status is Complete ==> record.status@ == "complete"@,
{
    law_record_is_taken_up(record, *build, status);
}

/// The builds to resume: all those of created namespaces whose record is in progress, and
/// no others, each with the counts of its record.
pub proof fn law_pending_builds(
    schemas: &[DocStoreSchema],
    records: &[Vec<Option<DiskBuildProgress>>],
    out: Vec<PendingBuild>,
    s: int,
    i: int,
)
    requires
        records@.len() == schemas@.len(),
        forall|s: int| 0 <= s < schemas@.len() ==> (#[trigger] records@[s])@.len() == schemas@[s].indices@.len(),
        call_ensures(pending_builds, (schemas, records), out),
    ensures
        (exists|k: int| 0 <= k < out@.len() && (#[trigger] out@[k]).schema == s && out@[k].index == i) <==> 0 <= s
            < schemas@.len() && schemas@[s].ns_id is Some && 0 <= i < schemas@[s].indices@.len() && records@[s]@[i] is Some
            && records@[s]@[i]->0.status@ == "in_progress"@,
        forall|k: int|
            0 <= k < out@.len() && (#[trigger] out@[k]).schema == s && out@[k].index == i ==> records@[s]@[i] is Some
                && out@[k].total == records@[s]@[i]->0.total && out@[k].indexed == records@[s]@[i]->0.indexed,
{
    let all = pending_of(schemas@, records@, schemas@.len() as int);
    law_pending_builds_are_all(schemas@, records@, schemas@.len() as int);
    let at = positions_of(out@);
    assert(at.len() == out@.len());
    if all.contains((s, i)) {
        let k = choose|k: int| 0 <= k < all.len() && all[k] == (s, i);
        assert(at[k] == (s, i));
        assert(out@[k].schema == s && out@[k].index == i);
    }
    if exists|k: int| 0 <= k < out@.len() && (#[trigger] out@[k]).schema == s && out@[k].index == i {
        let k = choose|k: int| 0 <= k < out@.len() && (#[trigger] out@[k]).schema == s && out@[k].index == i;
        assert(at[k] == (s, i));
        assert(all.contains(all[k]));
    }
    assert forall|k: int| 0 <= k < out@.len() && (#[trigger] out@[k]).schema == s && out@[k].index == i implies records@[s]@[i]
        is Some && out@[k].total == records@[s]@[i]->0.total && out@[k].indexed == records@[s]@[i]->0.indexed by {
        assert(continues(out@[k], records@[out@[k].schema as int]@[out@[k].index as int]));
    }
}

} // verus!
