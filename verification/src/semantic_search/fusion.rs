//! Final ranking of search candidates from the scores of the two passes.
//!
//! Scores are single-precision numbers carried as their bit patterns and compared
//! in the total order of such patterns, in which every pattern has its place:
//! negative numbers before positive ones, NaNs at both ends.

use vstd::prelude::*;

use crate::bytes::copy_bytes;
use crate::lex::{lemma_lex_irreflexive, lemma_lex_total, lemma_lex_transitive, lex_less, lex_lt};
use crate::sorting::{in_order, is_permutation, sorted_positions, Ranking};

verus! {

/// How the final result order is derived from the two search passes.
#[derive(Clone, Copy, Debug, PartialEq, Eq, Structural)]
pub enum RankFusion {
    /// By the score of the dense pass only.
    Dense,
    /// By the score of the sparse pass only.
    Sparse,
    /// By the weighted sum of the reciprocal ranks of both passes.
    Rrf,
    /// By the weighted sum of the standardised scores of both passes.
    Zscore,
}

impl Default for RankFusion {
    fn default() -> (mode: Self)
        ensures
            mode == RankFusion::Dense,
    {
        RankFusion::Dense
    }
}

/// Default smoothing constant of reciprocal rank fusion: the pattern of 1.
pub const DEFAULT_RRF_K: u32 = 0x3f80_0000;

/// Default weight of the sparse pass: the pattern of a tenth.
pub const DEFAULT_SPARSE_WEIGHT: u32 = 0x3dcc_cccd;

/// Bit pattern of positive infinity.
pub const INFINITY_BITS: u32 = 0x7f80_0000;

/// Bit pattern of 1.
pub const ONE_BITS: u32 = 0x3f80_0000;

/// Bit pattern of negative zero.
pub const NEGATIVE_ZERO_BITS: u32 = 0x8000_0000;

/// Parameters of the final ranking; the two numbers are bit patterns.
#[derive(Clone, Copy, Debug, PartialEq, Eq, Structural)]
pub struct RankingParams {
    /// Fusion mode.
    pub mode: RankFusion,
    /// Smoothing constant of reciprocal rank fusion, greater than 0.
    pub rrf_k: u32,
    /// Weight of the sparse pass, from 0 to 1.
    pub sparse_weight: u32,
}

/// A parameter that the ranking cannot work with.
#[derive(Clone, Copy, Debug, PartialEq, Eq, Structural)]
pub enum RankingError {
    /// The smoothing constant is not a finite number greater than 0.
    InvalidRrfK(u32),
    /// The weight is not a number from 0 to 1.
    InvalidSparseWeight(u32),
}

/// A partial override of the configured parameters; an absent field keeps the
/// configured value.
#[derive(Clone, Copy, Debug, PartialEq, Eq, Structural)]
pub struct RankingOverride {
    pub mode: Option<RankFusion>,
    pub rrf_k: Option<u32>,
    pub sparse_weight: Option<u32>,
}

/// The pattern is that of a finite number greater than 0.
pub open spec fn is_positive_finite(bits: u32) -> bool {
    total_order(0) < total_order(bits) < total_order(INFINITY_BITS)
}

/// The pattern is that of a number from 0 to 1; either zero is one.
pub open spec fn is_unit_weight(bits: u32) -> bool {
    total_order(NEGATIVE_ZERO_BITS) <= total_order(bits) <= total_order(ONE_BITS)
}

impl Default for RankingParams {
    fn default() -> (p: Self)
        ensures
            p == (RankingParams {
                mode: RankFusion::Dense,
                rrf_k: DEFAULT_RRF_K,
                sparse_weight: DEFAULT_SPARSE_WEIGHT,
            }),
    {
        RankingParams {
            mode: RankFusion::Dense,
            rrf_k: DEFAULT_RRF_K,
            sparse_weight: DEFAULT_SPARSE_WEIGHT,
        }
    }
}

impl Default for RankingOverride {
    fn default() -> (o: Self)
        ensures
            o == (RankingOverride { mode: None, rrf_k: None, sparse_weight: None }),
    {
        RankingOverride { mode: None, rrf_k: None, sparse_weight: None }
    }
}

impl RankingParams {
    /// What `validate` answers.
    pub open spec fn verdict(self) -> Result<(), RankingError> {
        if !is_positive_finite(self.rrf_k) {
            Err(RankingError::InvalidRrfK(self.rrf_k))
        } else if !is_unit_weight(self.sparse_weight) {
            Err(RankingError::InvalidSparseWeight(self.sparse_weight))
        } else {
            Ok(())
        }
    }

    /// These parameters with the present fields of `o` in place of their own.
    pub open spec fn overridden(self, o: RankingOverride) -> RankingParams {
        RankingParams {
            mode: if o.mode is Some {
                o.mode->0
            } else {
                self.mode
            },
            rrf_k: if o.rrf_k is Some {
                o.rrf_k->0
            } else {
                self.rrf_k
            },
            sparse_weight: if o.sparse_weight is Some {
                o.sparse_weight->0
            } else {
                self.sparse_weight
            },
        }
    }

    /// Checks both numbers, the smoothing constant first.
    pub fn validate(&self) -> (r: Result<(), RankingError>)
        ensures
            r == self.verdict(),
            r is Ok <==> 0 < self.rrf_k < 0x7f80_0000 && (self.sparse_weight <= 0x3f80_0000 || self.sparse_weight
                == 0x8000_0000),
            !(0 < self.rrf_k < 0x7f80_0000) <==> r == Err::<(), RankingError>(RankingError::InvalidRrfK(self.rrf_k)),
            0 < self.rrf_k < 0x7f80_0000 && r is Err ==> r == Err::<(), RankingError>(
                RankingError::InvalidSparseWeight(self.sparse_weight),
            ),
    {
        if !(self.rrf_k > 0 && self.rrf_k < INFINITY_BITS) {
            return Err(RankingError::InvalidRrfK(self.rrf_k));
        }
        if !(self.sparse_weight <= ONE_BITS || self.sparse_weight == NEGATIVE_ZERO_BITS) {
            return Err(RankingError::InvalidSparseWeight(self.sparse_weight));
        }
        Ok(())
    }

    /// Applies a per-request override and checks the result.
    pub fn with_override(&self, o: &RankingOverride) -> (r: Result<RankingParams, RankingError>)
        ensures
            r == (match self.overridden(*o).verdict() {
                Ok(_) => Ok::<RankingParams, RankingError>(self.overridden(*o)),
                Err(e) => Err(e),
            }),
            r matches Ok(p) ==> {
                &&& o.mode is None ==> p.mode == self.mode
                &&& o.rrf_k is None ==> p.rrf_k == self.rrf_k
                &&& o.sparse_weight is None ==> p.sparse_weight == self.sparse_weight
                &&& o.mode matches Some(m) ==> p.mode == m
                &&& o.rrf_k matches Some(k) ==> p.rrf_k == k
                &&& o.sparse_weight matches Some(w) ==> p.sparse_weight == w
            },
    {
        let p = RankingParams {
            mode: match o.mode {
                Some(m) => m,
                None => self.mode,
            },
            rrf_k: match o.rrf_k {
                Some(k) => k,
                None => self.rrf_k,
            },
            sparse_weight: match o.sparse_weight {
                Some(w) => w,
                None => self.sparse_weight,
            },
        };
        match p.validate() {
            Ok(_) => Ok(p),
            Err(e) => Err(e),
        }
    }
}

/// A search candidate with the scores of both passes.
#[derive(Clone, Debug)]
pub struct Candidate {
    pub document_id: Vec<u8>,
    /// Score of the sparse pass.
    pub sparse_score: u32,
    /// Score of the dense pass.
    pub dense_score: u32,
    /// Error bound of the dense score.
    pub error_bound: u32,
}

/// A ranked candidate.
#[derive(Clone, Debug)]
pub struct QueryResult {
    pub document_id: Vec<u8>,
    pub dense_score: u32,
    pub sparse_score: u32,
    /// The score that decided the final order.
    pub fused_score: u32,
    /// Place by the dense score alone, from 1.
    pub dense_rank: u32,
    /// Place by the sparse score alone, from 1.
    pub sparse_rank: u32,
    pub error_bound: u32,
}

/// Place of a bit pattern in the total order of single-precision numbers.
pub open spec fn total_order(bits: u32) -> int {
    if bits < 0x8000_0000 {
        bits as int
    } else {
        0x7fff_ffff - bits
    }
}

/// Place of a bit pattern in the total order of single-precision numbers.
pub fn order_key(bits: u32) -> (key: i64)
    ensures
        key == total_order(bits),
{
    if bits < 0x8000_0000 {
        bits as i64
    } else {
        0x7fff_ffff - bits as i64
    }
}

/// The byte strings of `ids`.
pub open spec fn id_bytes(ids: Seq<Vec<u8>>) -> Seq<Seq<u8>> {
    Seq::new(ids.len(), |i: int| ids[i]@)
}

/// Candidate `a` ranks before candidate `b`: higher score, or the same score and
/// the smaller identifier.
pub open spec fn outranks(scores: Seq<u32>, ids: Seq<Seq<u8>>, a: int, b: int) -> bool {
    ||| total_order(scores[a]) > total_order(scores[b])
    ||| scores[a] == scores[b] && lex_lt(ids[a], ids[b])
}

/// Some candidate has rank `v`.
pub open spec fn taken(ranks: Seq<u32>, v: int) -> bool {
    exists|i: int| 0 <= i < ranks.len() && #[trigger] ranks[i] == v
}

/// `ranks` gives the ranks `1 ..= n`, each once, in an order that `outranks` allows.
pub open spec fn ranked(ranks: Seq<u32>, scores: Seq<u32>, ids: Seq<Seq<u8>>) -> bool {
    &&& ranks.len() == scores.len()
    &&& forall|i: int| 0 <= i < ranks.len() ==> 1 <= (#[trigger] ranks[i]) <= ranks.len()
    &&& forall|i: int, j: int|
        0 <= i < j < ranks.len() ==> #[trigger] ranks[i] != #[trigger] ranks[j]
    &&& forall|v: int| 1 <= v <= ranks.len() ==> #[trigger] taken(ranks, v)
    &&& forall|i: int, j: int|
        0 <= i < ranks.len() && 0 <= j < ranks.len() && #[trigger] outranks(scores, ids, i, j)
            ==> ranks[i] < ranks[j]
}

/// Identifiers that are pairwise different.
pub open spec fn distinct_ids(ids: Seq<Seq<u8>>) -> bool {
    forall|i: int, j: int| 0 <= i < j < ids.len() ==> #[trigger] ids[i] != #[trigger] ids[j]
}

struct ByScore<'a> {
    scores: &'a [u32],
    ids: &'a [Vec<u8>],
}

impl<'a> Ranking for ByScore<'a> {
    closed spec fn size(&self) -> nat {
        if self.scores@.len() <= self.ids@.len() {
            self.scores@.len()
        } else {
            self.ids@.len()
        }
    }

    closed spec fn before(&self, a: int, b: int) -> bool {
        outranks(self.scores@, id_bytes(self.ids@), a, b)
    }

    proof fn lemma_not_after(&self, a: int, b: int, c: int) {
        let ids = id_bytes(self.ids@);
        lemma_lex_total(ids[a], ids[b]);
        lemma_lex_total(ids[b], ids[c]);
        lemma_lex_total(ids[a], ids[c]);
        if lex_lt(ids[a], ids[b]) && lex_lt(ids[b], ids[c]) {
            lemma_lex_transitive(ids[a], ids[b], ids[c]);
        }
        if lex_lt(ids[c], ids[a]) && lex_lt(ids[a], ids[b]) {
            lemma_lex_transitive(ids[c], ids[a], ids[b]);
        }
        if lex_lt(ids[b], ids[c]) && lex_lt(ids[c], ids[a]) {
            lemma_lex_transitive(ids[b], ids[c], ids[a]);
        }
        lemma_lex_irreflexive(ids[a]);
    }

    proof fn lemma_one_way(&self, a: int, b: int) {
        let ids = id_bytes(self.ids@);
        lemma_lex_total(ids[a], ids[b]);
    }

    fn is_before(&self, a: usize, b: usize) -> bool {
        let (x, y) = (self.scores[a], self.scores[b]);
        order_key(x) > order_key(y) || x == y && lex_less(self.ids[a].as_slice(), self.ids[b].as_slice())
    }
}

/// Ranks from 1 by descending score, ties broken by ascending identifier.
pub fn ranks_desc(scores: &[u32], ids: &[Vec<u8>]) -> (ranks: Vec<u32>)
    requires
        scores@.len() == ids@.len(),
        scores@.len() <= u32::MAX,
    ensures
        ranked(ranks@, scores@, id_bytes(ids@)),
{
    let n: usize = scores.len();
    let by = ByScore { scores, ids };
    let order = sorted_positions(&by, n);
    ranks_of(&by, &order)
}

/// The rank of each position, given the positions in order.
fn ranks_of(by: &ByScore, order: &Vec<usize>) -> (ranks: Vec<u32>)
    requires
        by.scores@.len() == by.ids@.len() <= u32::MAX,
        is_permutation(order@, by.scores@.len()),
        in_order(by, order@),
    ensures
        ranked(ranks@, by.scores@, id_bytes(by.ids@)),
{
    let n: usize = order.len();
    let mut ranks: Vec<u32> = Vec::new();
    let mut i: usize = 0;
    while i < n
        invariant
            i <= n,
            ranks@.len() == i,
        decreases n - i,
    {
        ranks.push(0);
        i = i + 1;
    }
    let mut p: usize = 0;
    while p < n
        invariant
            p <= n == order@.len() == ranks@.len(),
            n <= u32::MAX,
            is_permutation(order@, n as nat),
            forall|q: int| 0 <= q < p ==> ranks@[#[trigger] order@[q] as int] == q + 1,
        decreases n - p,
    {
        let at: usize = order[p];
        proof {
            assert forall|q: int| 0 <= q < p implies #[trigger] order@[q] != at by {
                assert(order@[p as int] == at);
            }
        }
        ranks.set(at, p as u32 + 1);
        p = p + 1;
    }
    proof {
        let ids = id_bytes(by.ids@);
        assert forall|i: int| 0 <= i < ranks@.len() implies 1 <= (#[trigger] ranks@[i]) <= ranks@.len() by {
            assert(order@.contains(i as usize));
            let q = choose|q: int| 0 <= q < order@.len() && order@[q] == i as usize;
            assert(ranks@[order@[q] as int] == q + 1);
        }
        assert forall|i: int, j: int| 0 <= i < j < ranks@.len() implies #[trigger] ranks@[i]
            != #[trigger] ranks@[j] by {
            assert(order@.contains(i as usize));
            assert(order@.contains(j as usize));
            let q = choose|q: int| 0 <= q < order@.len() && order@[q] == i as usize;
            let r = choose|q: int| 0 <= q < order@.len() && order@[q] == j as usize;
            assert(ranks@[order@[q] as int] == q + 1);
            assert(ranks@[order@[r] as int] == r + 1);
        }
        assert forall|v: int| 1 <= v <= ranks@.len() implies #[trigger] taken(ranks@, v) by {
            assert(ranks@[order@[v - 1] as int] == v);
        }
        assert forall|i: int, j: int|
            0 <= i < ranks@.len() && 0 <= j < ranks@.len() && #[trigger] outranks(by.scores@, ids, i, j) implies ranks@[i]
            < ranks@[j] by {
            assert(order@.contains(i as usize));
            assert(order@.contains(j as usize));
            let q = choose|q: int| 0 <= q < order@.len() && order@[q] == i as usize;
            let r = choose|q: int| 0 <= q < order@.len() && order@[q] == j as usize;
            assert(ranks@[order@[q] as int] == q + 1);
            assert(ranks@[order@[r] as int] == r + 1);
            by.lemma_one_way(i, j);
            if r < q {
                assert(!by.before(order@[q] as int, order@[r] as int));
            }
            if r == q {
                assert(i == j);
            }
        }
    }
    ranks
}

/// Identifiers of the candidates.
pub open spec fn candidate_ids(candidates: Seq<Candidate>) -> Seq<Seq<u8>> {
    Seq::new(candidates.len(), |i: int| candidates[i].document_id@)
}

/// Dense scores of the candidates.
pub open spec fn dense_scores(candidates: Seq<Candidate>) -> Seq<u32> {
    Seq::new(candidates.len(), |i: int| candidates[i].dense_score)
}

/// Sparse scores of the candidates.
pub open spec fn sparse_scores(candidates: Seq<Candidate>) -> Seq<u32> {
    Seq::new(candidates.len(), |i: int| candidates[i].sparse_score)
}

/// The scores that decide the order where one pass alone does; none where the
/// mode blends both.
pub fn single_signal(candidates: &[Candidate], mode: RankFusion) -> (scores: Option<Vec<u32>>)
    ensures
        mode is Dense ==> scores is Some && scores->0@ == dense_scores(candidates@),
        mode is Sparse ==> scores is Some && scores->0@ == sparse_scores(candidates@),
        (mode is Rrf || mode is Zscore) ==> scores is None,
{
    match mode {
        RankFusion::Dense => Some(collect_dense(candidates)),
        RankFusion::Sparse => Some(collect_sparse(candidates)),
        _ => None,
    }
}

fn collect_dense(candidates: &[Candidate]) -> (out: Vec<u32>)
    ensures
        out@ == dense_scores(candidates@),
{
    let mut out: Vec<u32> = Vec::new();
    let mut i: usize = 0;
    while i < candidates.len()
        invariant
            i <= candidates@.len(),
            out@ =~= dense_scores(candidates@).take(i as int),
        decreases candidates@.len() - i,
    {
        out.push(candidates[i].dense_score);
        i = i + 1;
    }
    out
}

fn collect_sparse(candidates: &[Candidate]) -> (out: Vec<u32>)
    ensures
        out@ == sparse_scores(candidates@),
{
    let mut out: Vec<u32> = Vec::new();
    let mut i: usize = 0;
    while i < candidates.len()
        invariant
            i <= candidates@.len(),
            out@ =~= sparse_scores(candidates@).take(i as int),
        decreases candidates@.len() - i,
    {
        out.push(candidates[i].sparse_score);
        i = i + 1;
    }
    out
}

fn collect_ids(candidates: &[Candidate]) -> (out: Vec<Vec<u8>>)
    ensures
        id_bytes(out@) == candidate_ids(candidates@),
{
    let mut out: Vec<Vec<u8>> = Vec::new();
    let mut i: usize = 0;
    while i < candidates.len()
        invariant
            i <= candidates@.len(),
            id_bytes(out@) =~= candidate_ids(candidates@).take(i as int),
        decreases candidates@.len() - i,
    {
        let ghost before = id_bytes(out@);
        out.push(copy_bytes(candidates[i].document_id.as_slice()));
        proof {
            assert(id_bytes(out@) =~= before.push(candidates@[i as int].document_id@));
        }
        i = i + 1;
    }
    out
}

/// Ranks of the candidates by the sparse score alone.
pub fn sparse_ranks(candidates: &[Candidate]) -> (ranks: Vec<u32>)
    requires
        candidates@.len() <= u32::MAX,
    ensures
        ranked(ranks@, sparse_scores(candidates@), candidate_ids(candidates@)),
{
    let ids = collect_ids(candidates);
    let scores = collect_sparse(candidates);
    proof {
        assert(id_bytes(ids@).len() == ids@.len());
    }
    ranks_desc(scores.as_slice(), ids.as_slice())
}

/// Ranks of the candidates by the dense score alone.
pub fn dense_ranks(candidates: &[Candidate]) -> (ranks: Vec<u32>)
    requires
        candidates@.len() <= u32::MAX,
    ensures
        ranked(ranks@, dense_scores(candidates@), candidate_ids(candidates@)),
{
    let ids = collect_ids(candidates);
    let scores = collect_dense(candidates);
    proof {
        assert(id_bytes(ids@).len() == ids@.len());
    }
    ranks_desc(scores.as_slice(), ids.as_slice())
}

/// Position `a` comes before position `b` in the final order: higher fused score,
/// or the same one and the better dense rank.
pub open spec fn finishes_before(fused: Seq<u32>, dense: Seq<u32>, a: int, b: int) -> bool {
    ||| total_order(fused[a]) > total_order(fused[b])
    ||| fused[a] == fused[b] && dense[a] < dense[b]
}

struct ByFused<'a> {
    fused: &'a [u32],
    dense: &'a [u32],
}

impl<'a> Ranking for ByFused<'a> {
    closed spec fn size(&self) -> nat {
        if self.fused@.len() <= self.dense@.len() {
            self.fused@.len()
        } else {
            self.dense@.len()
        }
    }

    closed spec fn before(&self, a: int, b: int) -> bool {
        finishes_before(self.fused@, self.dense@, a, b)
    }

    proof fn lemma_not_after(&self, a: int, b: int, c: int) {
    }

    proof fn lemma_one_way(&self, a: int, b: int) {
    }

    fn is_before(&self, a: usize, b: usize) -> bool {
        let (x, y) = (self.fused[a], self.fused[b]);
        order_key(x) > order_key(y) || x == y && self.dense[a] < self.dense[b]
    }
}

/// `r` reports candidate `c` with its ranks and its fused score.
pub open spec fn reports(r: QueryResult, c: Candidate, fused: u32, sparse: u32, dense: u32) -> bool {
    &&& r.document_id@ == c.document_id@
    &&& r.dense_score == c.dense_score
    &&& r.sparse_score == c.sparse_score
    &&& r.error_bound == c.error_bound
    &&& r.fused_score == fused
    &&& r.sparse_rank == sparse
    &&& r.dense_rank == dense
}

/// `order` lists all candidates from the first to the last place.
pub open spec fn final_order(order: Seq<usize>, fused: Seq<u32>, dense: Seq<u32>) -> bool {
    &&& is_permutation(order, fused.len())
    &&& forall|i: int, j: int|
        0 <= i < j < order.len() ==> !finishes_before(
            fused,
            dense,
            #[trigger] order[j] as int,
            #[trigger] order[i] as int,
        )
}

/// `out` holds the candidates on the first `top_k` places, best first.
pub open spec fn is_top(
    out: Seq<QueryResult>,
    candidates: Seq<Candidate>,
    fused: Seq<u32>,
    sparse: Seq<u32>,
    dense: Seq<u32>,
    order: Seq<usize>,
    top_k: nat,
) -> bool {
    &&& out.len() == if top_k < candidates.len() {
        top_k
    } else {
        candidates.len()
    }
    &&& forall|i: int|
        0 <= i < out.len() ==> {
            let c = order[i] as int;
            reports(#[trigger] out[i], candidates[c], fused[c], sparse[c], dense[c])
        }
}

/// `out` is the fusion of `candidates` under the fused scores, cut after `top_k`;
/// the ranks are over all candidates.
pub open spec fn is_fusion(out: Seq<QueryResult>, candidates: Seq<Candidate>, fused: Seq<u32>, top_k: nat) -> bool {
    exists|sparse: Seq<u32>, dense: Seq<u32>, order: Seq<usize>|
        {
            &&& ranked(sparse, sparse_scores(candidates), candidate_ids(candidates))
            &&& ranked(dense, dense_scores(candidates), candidate_ids(candidates))
            &&& final_order(order, fused, dense)
            &&& #[trigger] is_top(out, candidates, fused, sparse, dense, order, top_k)
        }
}

/// Ranks `candidates` by their fused scores and returns the top `top_k`, best first.
///
/// Each result carries the scores of both passes, the fused score and its rank
/// under each score alone. Equal fused scores are ordered by dense rank.
pub fn fuse(candidates: &[Candidate], fused: &[u32], top_k: usize) -> (out: Vec<QueryResult>)
    requires
        fused@.len() == candidates@.len(),
        candidates@.len() <= u32::MAX,
    ensures
        is_fusion(out@, candidates@, fused@, top_k as nat),
{
    let n: usize = candidates.len();
    let sparse = sparse_ranks(candidates);
    let dense = dense_ranks(candidates);
    let by = ByFused { fused, dense: dense.as_slice() };
    let order = sorted_positions(&by, n);
    let keep: usize = if top_k < n {
        top_k
    } else {
        n
    };
    let mut out: Vec<QueryResult> = Vec::new();
    let mut i: usize = 0;
    while i < keep
        invariant
            i <= keep <= n,
            n == candidates@.len() == fused@.len() == sparse@.len() == dense@.len(),
            is_permutation(order@, n as nat),
            out@.len() == i,
            forall|k: int|
                0 <= k < i ==> {
                    let c = order@[k] as int;
                    reports(#[trigger] out@[k], candidates@[c], fused@[c], sparse@[c], dense@[c])
                },
        decreases keep - i,
    {
        let c: usize = order[i];
        let r = QueryResult {
            document_id: copy_bytes(candidates[c].document_id.as_slice()),
            dense_score: candidates[c].dense_score,
            sparse_score: candidates[c].sparse_score,
            fused_score: fused[c],
            dense_rank: dense[c],
            sparse_rank: sparse[c],
            error_bound: candidates[c].error_bound,
        };
        out.push(r);
        i = i + 1;
    }
    proof {
        assert forall|i: int, j: int| 0 <= i < j < order@.len() implies !finishes_before(
            fused@,
            dense@,
            #[trigger] order@[j] as int,
            #[trigger] order@[i] as int,
        ) by {
            assert(!by.before(order@[j] as int, order@[i] as int));
        }
        assert(final_order(order@, fused@, dense@));
        assert(is_top(out@, candidates@, fused@, sparse@, dense@, order@, top_k as nat));
    }
    out
}

proof fn lemma_ranks_agree(r: Seq<u32>, s: Seq<u32>, scores: Seq<u32>, ids: Seq<Seq<u8>>, v: int)
    requires
        scores.len() == ids.len(),
        ranked(r, scores, ids),
        ranked(s, scores, ids),
        distinct_ids(ids),
        0 <= v <= scores.len(),
    ensures
        forall|i: int| 0 <= i < r.len() && (r[i] <= v || s[i] <= v) ==> #[trigger] r[i] == #[trigger] s[i],
    decreases v,
{
    if v > 0 {
        lemma_ranks_agree(r, s, scores, ids, v - 1);
        assert(taken(r, v));
        assert(taken(s, v));
        let i = choose|i: int| 0 <= i < r.len() && #[trigger] r[i] == v;
        let j = choose|j: int| 0 <= j < s.len() && #[trigger] s[j] == v;
        if i != j {
            lemma_lex_total(ids[i], ids[j]);
            assert(ids[i] != ids[j]) by {
                if i < j {
                    assert(ids[i] != ids[j]);
                } else {
                    assert(ids[j] != ids[i]);
                }
            }
            if outranks(scores, ids, j, i) {
                assert(r[j] < v);
                assert(r[j] == s[j]);
            } else {
                assert(outranks(scores, ids, i, j));
                assert(s[i] < v);
                assert(r[i] == s[i]);
            }
        }
        assert forall|k: int| 0 <= k < r.len() && (r[k] <= v || s[k] <= v) implies #[trigger] r[k]
            == #[trigger] s[k] by {
            if r[k] == v && k != i {
                if k < i {
                    assert(r[k] != r[i]);
                } else {
                    assert(r[i] != r[k]);
                }
            }
            if s[k] == v && k != j {
                if k < j {
                    assert(s[k] != s[j]);
                } else {
                    assert(s[j] != s[k]);
                }
            }
        }
    }
}

/// With distinct identifiers there is one ranking only.
pub proof fn law_ranks_are_determined(r: Seq<u32>, s: Seq<u32>, scores: Seq<u32>, ids: Seq<Seq<u8>>)
    requires
        scores.len() == ids.len(),
        ranked(r, scores, ids),
        ranked(s, scores, ids),
        distinct_ids(ids),
    ensures
        r == s,
{
    lemma_ranks_agree(r, s, scores, ids, scores.len() as int);
    assert(r =~= s);
}

proof fn lemma_orders_agree(o: Seq<usize>, p: Seq<usize>, fused: Seq<u32>, dense: Seq<u32>, k: int)
    requires
        dense.len() == fused.len(),
        forall|i: int, j: int| 0 <= i < j < dense.len() ==> #[trigger] dense[i] != #[trigger] dense[j],
        final_order(o, fused, dense),
        final_order(p, fused, dense),
        0 <= k <= fused.len(),
    ensures
        forall|i: int| 0 <= i < k ==> #[trigger] o[i] == #[trigger] p[i],
    decreases k,
{
    if k > 0 {
        let m = k - 1;
        lemma_orders_agree(o, p, fused, dense, m);
        if o[m] != p[m] {
            assert(p.contains(o[m]));
            assert(o.contains(p[m]));
            let a = choose|a: int| 0 <= a < p.len() && p[a] == o[m];
            let b = choose|b: int| 0 <= b < o.len() && o[b] == p[m];
            if a < m {
                assert(o[a] == p[a]);
            }
            if b < m {
                assert(o[b] == p[b]);
            }
            assert(!finishes_before(fused, dense, p[a] as int, p[m] as int));
            assert(!finishes_before(fused, dense, o[b] as int, o[m] as int));
            let (x, y) = (o[m] as int, p[m] as int);
            if x < y {
                assert(dense[x] != dense[y]);
            } else {
                assert(dense[y] != dense[x]);
            }
        }
    }
}

/// Two results that report the same thing.
pub open spec fn same_result(a: QueryResult, b: QueryResult) -> bool {
    &&& a.document_id@ == b.document_id@
    &&& a.dense_score == b.dense_score
    &&& a.sparse_score == b.sparse_score
    &&& a.error_bound == b.error_bound
    &&& a.fused_score == b.fused_score
    &&& a.sparse_rank == b.sparse_rank
    &&& a.dense_rank == b.dense_rank
}

/// The fusion of candidates with distinct identifiers is determined by the
/// candidates and their fused scores, and a smaller `top_k` only cuts it shorter.
pub proof fn law_fusion_is_determined(
    short: Seq<QueryResult>,
    long: Seq<QueryResult>,
    candidates: Seq<Candidate>,
    fused: Seq<u32>,
    k: nat,
    l: nat,
)
    requires
        fused.len() == candidates.len(),
        distinct_ids(candidate_ids(candidates)),
        is_fusion(short, candidates, fused, k),
        is_fusion(long, candidates, fused, l),
        k <= l,
    ensures
        short.len() <= long.len(),
        k == l ==> short.len() == long.len(),
        forall|i: int| 0 <= i < short.len() ==> same_result(#[trigger] short[i], long[i]),
{
    let (s, d, o) = choose|sparse: Seq<u32>, dense: Seq<u32>, order: Seq<usize>|
        {
            &&& ranked(sparse, sparse_scores(candidates), candidate_ids(candidates))
            &&& ranked(dense, dense_scores(candidates), candidate_ids(candidates))
            &&& final_order(order, fused, dense)
            &&& #[trigger] is_top(short, candidates, fused, sparse, dense, order, k)
        };
    let (t, e, p) = choose|sparse: Seq<u32>, dense: Seq<u32>, order: Seq<usize>|
        {
            &&& ranked(sparse, sparse_scores(candidates), candidate_ids(candidates))
            &&& ranked(dense, dense_scores(candidates), candidate_ids(candidates))
            &&& final_order(order, fused, dense)
            &&& #[trigger] is_top(long, candidates, fused, sparse, dense, order, l)
        };
    law_ranks_are_determined(s, t, sparse_scores(candidates), candidate_ids(candidates));
    law_ranks_are_determined(d, e, dense_scores(candidates), candidate_ids(candidates));
    lemma_orders_agree(o, p, fused, d, fused.len() as int);
    assert forall|i: int| 0 <= i < short.len() implies same_result(#[trigger] short[i], long[i]) by {
        assert(o[i] == p[i]);
        let c = o[i] as int;
        assert(reports(short[i], candidates[c], fused[c], s[c], d[c]));
        assert(reports(long[i], candidates[c], fused[c], s[c], d[c]));
    }
}

proof fn lemma_places_from_below(dense: Seq<u32>, order: Seq<usize>, i: int)
    requires
        order.len() == dense.len(),
        forall|p: int| 0 <= p < order.len() ==> 1 <= dense[#[trigger] order[p] as int] <= order.len(),
        forall|p: int, q: int|
            0 <= p < q < order.len() ==> dense[#[trigger] order[p] as int] < dense[#[trigger] order[q] as int],
        0 <= i < order.len(),
    ensures
        dense[order[i] as int] >= i + 1,
    decreases i,
{
    if i > 0 {
        lemma_places_from_below(dense, order, i - 1);
        assert(dense[order[i - 1] as int] < dense[order[i] as int]);
    }
}

proof fn lemma_places_from_above(dense: Seq<u32>, order: Seq<usize>, i: int)
    requires
        order.len() == dense.len(),
        forall|p: int| 0 <= p < order.len() ==> 1 <= dense[#[trigger] order[p] as int] <= order.len(),
        forall|p: int, q: int|
            0 <= p < q < order.len() ==> dense[#[trigger] order[p] as int] < dense[#[trigger] order[q] as int],
        0 <= i < order.len(),
    ensures
        dense[order[i] as int] <= i + 1,
    decreases order.len() - i,
{
    if i + 1 < order.len() {
        lemma_places_from_above(dense, order, i + 1);
        assert(dense[order[i] as int] < dense[order[i + 1] as int]);
    }
}

/// Where the dense scores alone decide, the results come out by dense rank, without a gap.
pub proof fn law_dense_order_is_dense_rank(out: Seq<QueryResult>, candidates: Seq<Candidate>, top_k: nat)
    requires
        is_fusion(out, candidates, dense_scores(candidates), top_k),
    ensures
        forall|i: int| 0 <= i < out.len() ==> (#[trigger] out[i]).dense_rank == i + 1,
{
    let fused = dense_scores(candidates);
    let ids = candidate_ids(candidates);
    let (s, d, o) = choose|sparse: Seq<u32>, dense: Seq<u32>, order: Seq<usize>|
        {
            &&& ranked(sparse, sparse_scores(candidates), candidate_ids(candidates))
            &&& ranked(dense, dense_scores(candidates), candidate_ids(candidates))
            &&& final_order(order, fused, dense)
            &&& #[trigger] is_top(out, candidates, fused, sparse, dense, order, top_k)
        };
    assert forall|p: int, q: int| 0 <= p < q < o.len() implies d[#[trigger] o[p] as int] < d[#[trigger] o[q] as int] by {
        let (a, b) = (o[p] as int, o[q] as int);
        assert(!finishes_before(fused, d, b, a));
        assert(o[p] != o[q]);
        if a < b {
            assert(d[a] != d[b]);
        } else {
            assert(d[b] != d[a]);
        }
        if d[b] < d[a] {
            assert(!outranks(fused, ids, a, b));
        }
    }
    assert forall|i: int| 0 <= i < out.len() implies (#[trigger] out[i]).dense_rank == i + 1 by {
        let c = o[i] as int;
        assert(reports(out[i], candidates[c], fused[c], s[c], d[c]));
        lemma_places_from_below(d, o, i);
        lemma_places_from_above(d, o, i);
    }
}

/// An absent field of an override keeps the configured value, whatever the other fields
/// are, and a present one replaces it: no field looks at another.
pub proof fn law_absent_fields_keep_their_value(p: RankingParams, o: RankingOverride)
    ensures
        o.mode is None ==> p.overridden(o).mode == p.mode,
        o.rrf_k is None ==> p.overridden(o).rrf_k == p.rrf_k,
        o.sparse_weight is None ==> p.overridden(o).sparse_weight == p.sparse_weight,
        o.mode matches Some(m) ==> p.overridden(o).mode == m,
        o.rrf_k matches Some(k) ==> p.overridden(o).rrf_k == k,
        o.sparse_weight matches Some(w) ==> p.overridden(o).sparse_weight == w,
{
}

/// An empty override changes nothing, one that was applied changes nothing more, and of
/// two the later one decides field by field.
pub proof fn law_overrides_compose(p: RankingParams, first: RankingOverride, second: RankingOverride)
    ensures
        p.overridden(RankingOverride { mode: None, rrf_k: None, sparse_weight: None }) == p,
        p.overridden(first).overridden(first) == p.overridden(first),
        second.mode is None ==> p.overridden(first).overridden(second).mode == p.overridden(first).mode,
        second.rrf_k is None ==> p.overridden(first).overridden(second).rrf_k == p.overridden(first).rrf_k,
        second.sparse_weight is None ==> p.overridden(first).overridden(second).sparse_weight == p.overridden(
            first,
        ).sparse_weight,
{
}

/// Parameters are accepted exactly where the smoothing constant is a positive finite
/// number and the weight is one from 0 to 1, read off the bit patterns: a pattern from 1
/// to below that of infinity, and one up to that of 1 or the one of negative zero. The
/// smoothing constant is complained about first, and the error carries the number.
pub proof fn law_accepted_parameters(p: RankingParams)
    ensures
        p.verdict() is Ok <==> 0 < p.rrf_k < 0x7f80_0000 && (p.sparse_weight <= 0x3f80_0000 || p.sparse_weight
            == 0x8000_0000),
        (p.rrf_k == 0 || p.rrf_k >= 0x7f80_0000) ==> p.verdict() == Err::<(), RankingError>(
            RankingError::InvalidRrfK(p.rrf_k),
        ),
        0 < p.rrf_k < 0x7f80_0000 && p.verdict() is Err ==> p.verdict() == Err::<(), RankingError>(
            RankingError::InvalidSparseWeight(p.sparse_weight),
        ),
{
}

/// The number with bit pattern `a` is above the one with bit pattern `b`: a number
/// without a sign is above one with a sign; among those without, the larger pattern is
/// above; among those with, the smaller one.
pub open spec fn is_above(a: u32, b: u32) -> bool {
    if a < 0x8000_0000 && b < 0x8000_0000 {
        a > b
    } else if a >= 0x8000_0000 && b >= 0x8000_0000 {
        a < b
    } else {
        a < 0x8000_0000
    }
}

/// Scores are ordered as the numbers that their bit patterns stand for.
pub proof fn law_scores_are_ordered_as_numbers(a: u32, b: u32)
    ensures
        total_order(a) > total_order(b) <==> is_above(a, b),
        total_order(a) == total_order(b) <==> a == b,
{
}

/// The candidates that are placed before candidate `c` by these scores: those with a
/// higher score, and of those with the same score the ones with the smaller identifier.
pub open spec fn placed_before(scores: Seq<u32>, ids: Seq<Seq<u8>>, c: int) -> Set<int> {
    Set::new(
        |d: int|
            0 <= d < scores.len() && (is_above(scores[d], scores[c]) || (scores[d] == scores[c] && lex_lt(
                ids[d],
                ids[c],
            ))),
    )
}

/// The rank of a candidate is one more than the number of candidates placed before it.
pub proof fn law_rank_counts_those_before(ranks: Seq<u32>, scores: Seq<u32>, ids: Seq<Seq<u8>>, c: int)
    requires
        scores.len() == ids.len(),
        distinct_ids(ids),
        ranked(ranks, scores, ids),
        0 <= c < scores.len(),
    ensures
        placed_before(scores, ids, c).finite(),
        ranks[c] == placed_before(scores, ids, c).len() + 1,
{
    let n = scores.len() as int;
    let s = placed_before(scores, ids, c);
    let f = |d: int| ranks[d] as int;
    let t = vstd::set_lib::set_int_range(1, ranks[c] as int);
    vstd::set_lib::lemma_int_range(1, ranks[c] as int);
    assert forall|d: int| s.contains(d) implies t.contains(#[trigger] f(d)) by {
        assert(outranks(scores, ids, d, c));
    }
    assert forall|v: int| #[trigger] t.contains(v) implies exists|d: int| s.contains(d) && f(d) == v by {
        assert(taken(ranks, v));
        let d = choose|d: int| 0 <= d < ranks.len() && #[trigger] ranks[d] == v;
        if !s.contains(d) {
            lemma_lex_total(ids[d], ids[c]);
            if d == c {
            } else if d < c {
                assert(ids[d] != ids[c]);
            } else {
                assert(ids[c] != ids[d]);
            }
            assert(outranks(scores, ids, c, d));
        }
        assert(f(d) == v);
    }
    assert(vstd::relations::injective_on(f, s)) by {
        assert forall|x: int, y: int| s.contains(x) && s.contains(y) && #[trigger] f(x) == #[trigger] f(y) implies x == y by {
            if x < y {
                assert(ranks[x] != ranks[y]);
            } else if y < x {
                assert(ranks[y] != ranks[x]);
            }
        }
    }
    assert(s.subset_of(vstd::set_lib::set_int_range(0, n)));
    vstd::set_lib::lemma_int_range(0, n);
    vstd::set_lib::lemma_len_subset(s, vstd::set_lib::set_int_range(0, n));
    assert(s.map(f) =~= t) by {
        assert forall|v: int| s.map(f).contains(v) == t.contains(v) by {
            if t.contains(v) {
                let d = choose|d: int| s.contains(d) && f(d) == v;
                assert(s.map(f).contains(f(d)));
            }
        }
    }
    vstd::set_lib::lemma_map_size(s, t, f);
}

/// Result `r` is candidate `c`: its identifier, its own scores and error bound, and the
/// fused score at its position.
pub open spec fn is_candidate(r: QueryResult, c: Candidate, fused: u32) -> bool {
    &&& r.document_id@ == c.document_id@
    &&& r.dense_score == c.dense_score
    &&& r.sparse_score == c.sparse_score
    &&& r.error_bound == c.error_bound
    &&& r.fused_score == fused
}

/// The results are different candidates, as many as asked for or as there are. They come
/// by falling fused score, equal ones by dense rank; no candidate that is left out has a
/// higher fused score than one that is not; and each carries its rank by either score.
pub proof fn law_results_are_the_best(out: Seq<QueryResult>, candidates: Seq<Candidate>, fused: Seq<u32>, top_k: nat)
    requires
        fused.len() == candidates.len(),
        distinct_ids(candidate_ids(candidates)),
        is_fusion(out, candidates, fused, top_k),
    ensures
        top_k <= candidates.len() ==> out.len() == top_k,
        top_k > candidates.len() ==> out.len() == candidates.len(),
        forall|i: int, j: int|
            0 <= i < j < out.len() ==> is_above((#[trigger] out[i]).fused_score, (#[trigger] out[j]).fused_score) || (
            out[i].fused_score == out[j].fused_score && out[i].dense_rank < out[j].dense_rank),
        exists|from: Seq<int>|
            from.len() == out.len() && from.no_duplicates() && (forall|i: int|
                #![trigger from[i]]
                0 <= i < out.len() ==> 0 <= from[i] < candidates.len() && is_candidate(
                    out[i],
                    candidates[from[i]],
                    fused[from[i]],
                ) && out[i].dense_rank == placed_before(dense_scores(candidates), candidate_ids(candidates), from[i]).len()
                    + 1 && out[i].sparse_rank == placed_before(
                    sparse_scores(candidates),
                    candidate_ids(candidates),
                    from[i],
                ).len() + 1) && (forall|c: int, i: int|
                #![trigger fused[c], from[i]]
                0 <= c < candidates.len() && !from.contains(c) && 0 <= i < out.len() ==> !is_above(
                    fused[c],
                    fused[from[i]],
                )),
{
    let ids = candidate_ids(candidates);
    let (s, d, o) = choose|sparse: Seq<u32>, dense: Seq<u32>, order: Seq<usize>|
        {
            &&& ranked(sparse, sparse_scores(candidates), candidate_ids(candidates))
            &&& ranked(dense, dense_scores(candidates), candidate_ids(candidates))
            &&& final_order(order, fused, dense)
            &&& #[trigger] is_top(out, candidates, fused, sparse, dense, order, top_k)
        };
    let from = Seq::new(out.len(), |i: int| o[i] as int);
    assert forall|i: int| #![trigger from[i]] 0 <= i < out.len() implies 0 <= from[i] < candidates.len() && is_candidate(
        out[i],
        candidates[from[i]],
        fused[from[i]],
    ) && out[i].dense_rank == placed_before(dense_scores(candidates), ids, from[i]).len() + 1 && out[i].sparse_rank
        == placed_before(sparse_scores(candidates), ids, from[i]).len() + 1 by {
        let c = o[i] as int;
        assert(reports(out[i], candidates[c], fused[c], s[c], d[c]));
        law_rank_counts_those_before(s, sparse_scores(candidates), ids, c);
        law_rank_counts_those_before(d, dense_scores(candidates), ids, c);
    }
    assert(from.no_duplicates()) by {
        assert forall|i: int, j: int| 0 <= i < from.len() && 0 <= j < from.len() && i != j implies from[i] != from[j] by {
            assert(o[i] != o[j]);
        }
    }
    assert forall|c: int, i: int|
        #![trigger fused[c], from[i]]
        0 <= c < candidates.len() && !from.contains(c) && 0 <= i < out.len() implies !is_above(fused[c], fused[from[i]]) by {
        assert(candidates.len() == o.len());
        lemma_permutation_fits(o, o.len());
        assert(o.contains(c as usize));
        let p = choose|p: int| 0 <= p < o.len() && o[p] == c as usize;
        if p < out.len() {
            assert(from[p] == c);
        }
        assert(!finishes_before(fused, d, o[p] as int, o[i] as int));
    }
    assert forall|i: int, j: int| 0 <= i < j < out.len() implies is_above(
        (#[trigger] out[i]).fused_score,
        (#[trigger] out[j]).fused_score,
    ) || (out[i].fused_score == out[j].fused_score && out[i].dense_rank < out[j].dense_rank) by {
        let (a, b) = (o[i] as int, o[j] as int);
        assert(reports(out[i], candidates[a], fused[a], s[a], d[a]));
        assert(reports(out[j], candidates[b], fused[b], s[b], d[b]));
        assert(!finishes_before(fused, d, b, a));
        assert(o[i] != o[j]);
        if a < b {
            assert(d[a] != d[b]);
        } else {
            assert(d[b] != d[a]);
        }
    }
}

/// A permutation of positions has no more of them than there are positions.
proof fn lemma_permutation_fits(o: Seq<usize>, n: nat)
    requires
        is_permutation(o, n),
    ensures
        n <= usize::MAX + 1,
{
    let all = vstd::set_lib::set_int_range(0, usize::MAX + 1);
    vstd::set_lib::lemma_int_range(0, usize::MAX + 1);
    let f = Seq::new(n, |i: int| o[i] as int);
    assert(f.no_duplicates()) by {
        assert forall|i: int, j: int| 0 <= i < f.len() && 0 <= j < f.len() && i != j implies f[i] != f[j] by {
            assert(o[i] != o[j]);
        }
    }
    f.unique_seq_to_set();
    assert(f.to_set().subset_of(all));
    vstd::set_lib::lemma_len_subset(f.to_set(), all);
}

/// The signals of the candidates are their own scores and identifiers, in their order.
pub proof fn law_signals_are_the_candidates_own(candidates: Seq<Candidate>, i: int)
    requires
        0 <= i < candidates.len(),
    ensures
        dense_scores(candidates).len() == candidates.len(),
        sparse_scores(candidates).len() == candidates.len(),
        candidate_ids(candidates).len() == candidates.len(),
        dense_scores(candidates)[i] == candidates[i].dense_score,
        sparse_scores(candidates)[i] == candidates[i].sparse_score,
        candidate_ids(candidates)[i] == candidates[i].document_id@,
{
}

/// The byte strings of a list are those of its identifiers, all of them and in their order.
pub proof fn law_id_bytes(ids: Seq<Vec<u8>>, i: int)
    ensures
        id_bytes(ids).len() == ids.len(),
        0 <= i < ids.len() ==> id_bytes(ids)[i] == ids[i]@,
{
}

/// Applying an override: an absent field keeps the configured value, a present one
/// replaces it, and no field looks at another. It is refused exactly where the numbers
/// that come out cannot be worked with.
pub proof fn law_with_override(p: &RankingParams, o: &RankingOverride, r: Result<RankingParams, RankingError>)
    requires
        call_ensures(RankingParams::with_override, (p, o), r),
    ensures
        r matches Ok(q) ==> {
            &&& o.mode is None ==> q.mode == p.mode
            &&& o.rrf_k is None ==> q.rrf_k == p.rrf_k
            &&& o.sparse_weight is None ==> q.sparse_weight == p.sparse_weight
            &&& o.mode matches Some(m) ==> q.mode == m
            &&& o.rrf_k matches Some(k) ==> q.rrf_k == k
            &&& o.sparse_weight matches Some(w) ==> q.sparse_weight == w
        },
        r is Ok <==> ({
            let k = if o.rrf_k is Some {
                o.rrf_k->0
            } else {
                p.rrf_k
            };
            let w = if o.sparse_weight is Some {
                o.sparse_weight->0
            } else {
                p.sparse_weight
            };
            0 < k < 0x7f80_0000 && (w <= 0x3f80_0000 || w == 0x8000_0000)
        }),
{
    law_absent_fields_keep_their_value(*p, *o);
    law_accepted_parameters(p.overridden(*o));
}

/// Checking parameters: they are accepted exactly where the smoothing constant is positive
/// and finite and the weight lies from 0 to 1, and the first number that is not is told of.
pub proof fn law_validate(p: &RankingParams, r: Result<(), RankingError>)
    requires
        call_ensures(RankingParams::validate, (p,), r),
    ensures
        r is Ok <==> 0 < p.rrf_k < 0x7f80_0000 && (p.sparse_weight <= 0x3f80_0000 || p.sparse_weight == 0x8000_0000),
        r matches Err(e) ==> e == if 0 < p.rrf_k < 0x7f80_0000 {
            RankingError::InvalidSparseWeight(p.sparse_weight)
        } else {
            RankingError::InvalidRrfK(p.rrf_k)
        },
{
    law_accepted_parameters(*p);
}

/// Ranking: the results are the candidates with the highest fused scores, as many as asked
/// for or as there are, each once and with its own scores, the best first, equal ones by
/// dense rank.
pub proof fn law_fuse(candidates: &[Candidate], fused: &[u32], top_k: usize, out: Vec<QueryResult>)
    requires
        fused@.len() == candidates@.len(),
        distinct_ids(candidate_ids(candidates@)),
        call_ensures(fuse, (candidates, fused, top_k), out),
    ensures
        top_k <= candidates@.len() ==> out@.len() == top_k,
        top_k > candidates@.len() ==> out@.len() == candidates@.len(),
        forall|i: int, j: int|
            0 <= i < j < out@.len() ==> is_above((#[trigger] out@[i]).fused_score, (#[trigger] out@[j]).fused_score) || (
            out@[i].fused_score == out@[j].fused_score && out@[i].dense_rank < out@[j].dense_rank),
        exists|from: Seq<int>|
            from.len() == out@.len() && from.no_duplicates() && (forall|i: int|
                #![trigger from[i]]
                0 <= i < out@.len() ==> 0 <= from[i] < candidates@.len() && is_candidate(
                    out@[i],
                    candidates@[from[i]],
                    fused@[from[i]],
                )) && (forall|c: int, i: int|
                #![trigger fused@[c], from[i]]
                0 <= c < candidates@.len() && !from.contains(c) && 0 <= i < out@.len() ==> !is_above(
                    fused@[c],
                    fused@[from[i]],
                )),
{
    law_results_are_the_best(out@, candidates@, fused@, top_k as nat);
    let from = choose|from: Seq<int>|
        from.len() == out@.len() && from.no_duplicates() && (forall|i: int|
            #![trigger from[i]]
            0 <= i < out@.len() ==> 0 <= from[i] < candidates@.len() && is_candidate(
                out@[i],
                candidates@[from[i]],
                fused@[from[i]],
            ) && out@[i].dense_rank == placed_before(dense_scores(candidates@), candidate_ids(candidates@), from[i]).len()
                + 1 && out@[i].sparse_rank == placed_before(
                sparse_scores(candidates@),
                candidate_ids(candidates@),
                from[i],
            ).len() + 1) && (forall|c: int, i: int|
            #![trigger fused@[c], from[i]]
            0 <= c < candidates@.len() && !from.contains(c) && 0 <= i < out@.len() ==> !is_above(
                fused@[c],
                fused@[from[i]],
            ));
    assert(from.len() == out@.len());
}

/// The rank of a candidate by one score is one more than the number of candidates with a
/// higher score, or with the same score and a smaller identifier.
pub proof fn law_ranks(scores: &[u32], ids: &[Vec<u8>], ranks: Vec<u32>, c: int)
    requires
        scores@.len() == ids@.len(),
        distinct_ids(id_bytes(ids@)),
        call_ensures(ranks_desc, (scores, ids), ranks),
        0 <= c < scores@.len(),
    ensures
        ranks@.len() == scores@.len(),
        ranks@[c] == placed_before(scores@, id_bytes(ids@), c).len() + 1,
{
    law_rank_counts_those_before(ranks@, scores@, id_bytes(ids@), c);
}

/// One pass alone decides in the modes of that pass, with the candidates' own scores, and
/// in no other.
pub proof fn law_single_signal(candidates: &[Candidate], mode: RankFusion, scores: Option<Vec<u32>>, i: int)
    requires
        call_ensures(single_signal, (candidates, mode), scores),
        0 <= i < candidates@.len(),
    ensures
        scores is Some <==> mode is Dense || mode is Sparse,
        scores matches Some(v) ==> v@.len() == candidates@.len(),
        mode is Dense ==> scores->0@[i] == candidates@[i].dense_score,
        mode is Sparse ==> scores->0@[i] == candidates@[i].sparse_score,
{
    law_signals_are_the_candidates_own(candidates@, i);
}

/// The ranks by either score are over the candidates' own scores.
pub proof fn law_ranks_of_candidates(candidates: &[Candidate], sparse: Vec<u32>, dense: Vec<u32>, c: int)
    requires
        distinct_ids(candidate_ids(candidates@)),
        call_ensures(sparse_ranks, (candidates,), sparse),
        call_ensures(dense_ranks, (candidates,), dense),
        0 <= c < candidates@.len(),
    ensures
        sparse@.len() == candidates@.len(),
        dense@.len() == candidates@.len(),
        sparse@[c] == placed_before(sparse_scores(candidates@), candidate_ids(candidates@), c).len() + 1,
        dense@[c] == placed_before(dense_scores(candidates@), candidate_ids(candidates@), c).len() + 1,
{
    law_rank_counts_those_before(sparse@, sparse_scores(candidates@), candidate_ids(candidates@), c);
    law_rank_counts_those_before(dense@, dense_scores(candidates@), candidate_ids(candidates@), c);
}

/// Without configuration only the dense pass ranks, the smoothing constant is one and the
/// sparse weight is a tenth; these are accepted, and an override that gives nothing keeps
/// any parameters.
pub proof fn law_defaults(
    mode: RankFusion,
    p: RankingParams,
    r: Result<(), RankingError>,
    o: RankingOverride,
    base: &RankingParams,
    q: Result<RankingParams, RankingError>,
)
    requires
        call_ensures(RankFusion::default, (), mode),
        call_ensures(RankingParams::default, (), p),
        call_ensures(RankingParams::validate, (&p,), r),
        call_ensures(RankingOverride::default, (), o),
        call_ensures(RankingParams::with_override, (base, &o), q),
    ensures
        mode == RankFusion::Dense && p.mode == RankFusion::Dense,
        p.rrf_k == 0x3f80_0000 && p.sparse_weight == 0x3dcc_cccd,
        r is Ok,
        q matches Ok(kept) ==> kept == *base,
{
    law_accepted_parameters(p);
    law_absent_fields_keep_their_value(*base, o);
}

} // verus!
