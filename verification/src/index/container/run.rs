//! Run-length encoded value sets.

use vstd::prelude::*;

use crate::seqs;

verus! {

/// An inclusive range of values `start ..= start + length`.
#[derive(Clone, Copy, Debug, PartialEq, Eq, Structural)]
pub struct Run {
    pub start: u16,
    pub length: u16,
}

impl Run {
    /// The run ends inside the 16-bit value space.
    pub open spec fn wf(self) -> bool {
        self.start + self.length <= u16::MAX
    }

    /// `v` lies in the run.
    pub open spec fn covers(self, v: u16) -> bool {
        self.start <= v <= self.start + self.length
    }

    pub fn new(start: u16, length: u16) -> (run: Run)
        ensures
            run.start == start,
            run.length == length,
    {
        Run { start, length }
    }

    /// Last value of the run.
    pub fn end(&self) -> (end: u16)
        requires
            self.wf(),
        ensures
            end == self.start + self.length,
    {
        self.start + self.length
    }
}

/// Some run of `runs` covers `v`.
pub open spec fn any_covers(runs: Seq<Run>, v: u16) -> bool {
    exists|k: int| 0 <= k < runs.len() && (#[trigger] runs[k]).covers(v)
}

pub proof fn lemma_any_covers_push(runs: Seq<Run>, run: Run, v: u16)
    ensures
        any_covers(runs.push(run), v) <==> any_covers(runs, v) || run.covers(v),
{
    let all = runs.push(run);
    if any_covers(runs, v) {
        let k = choose|k: int| 0 <= k < runs.len() && (#[trigger] runs[k]).covers(v);
        assert(all[k].covers(v));
    }
    if run.covers(v) {
        assert(all[runs.len() as int].covers(v));
    }
    if any_covers(all, v) {
        let k = choose|k: int| 0 <= k < all.len() && (#[trigger] all[k]).covers(v);
        if k < runs.len() {
            assert(runs[k].covers(v));
        }
    }
}

/// Every run fits the value space and starts after the one before it ends.
pub open spec fn runs_wf(runs: Seq<Run>) -> bool {
    &&& forall|k: int| 0 <= k < runs.len() ==> (#[trigger] runs[k]).wf()
    &&& forall|j: int, k: int|
        0 <= j < k < runs.len() ==> (#[trigger] runs[j]).start + runs[j].length < (#[trigger] runs[k]).start
}

/// There is a gap between neighbouring runs.
pub open spec fn apart(runs: Seq<Run>) -> bool {
    forall|j: int, k: int|
        0 <= j < k < runs.len() ==> (#[trigger] runs[j]).start + runs[j].length + 1 < (#[trigger] runs[k]).start
}

/// The values of a set whose predecessor is not in it: one for each of its runs.
pub open spec fn run_starts(s: Set<u16>) -> Set<u16> {
    Set::new(|v: u16| s.contains(v) && (v == 0 || !s.contains((v - 1) as u16)))
}

/// Runs with gaps between them are as many as the runs of the set they cover.
proof fn lemma_run_starts(runs: Seq<Run>, s: Set<u16>)
    requires
        runs_wf(runs),
        apart(runs),
        forall|v: u16| #[trigger] s.contains(v) == any_covers(runs, v),
    ensures
        run_starts(s).len() == runs.len(),
{
    let starts = Seq::new(runs.len(), |k: int| runs[k].start);
    assert forall|j: int, k: int| 0 <= j < starts.len() && 0 <= k < starts.len() && j != k implies starts[j]
        != starts[k] by {
        if j < k {
            assert(runs[j].start + runs[j].length + 1 < runs[k].start);
        } else {
            assert(runs[k].start + runs[k].length + 1 < runs[j].start);
        }
    }
    starts.unique_seq_to_set();
    assert forall|v: u16| run_starts(s).contains(v) == starts.to_set().contains(v) by {
        if run_starts(s).contains(v) {
            let k = choose|k: int| 0 <= k < runs.len() && (#[trigger] runs[k]).covers(v);
            if runs[k].start != v {
                assert(runs[k].covers((v - 1) as u16));
                assert(s.contains((v - 1) as u16));
            }
            assert(starts[k] == v);
        }
        if starts.to_set().contains(v) {
            let k = choose|k: int| 0 <= k < starts.len() && starts[k] == v;
            assert(runs[k].covers(v));
            if v > 0 && s.contains((v - 1) as u16) {
                let j = choose|j: int| 0 <= j < runs.len() && (#[trigger] runs[j]).covers((v - 1) as u16);
                if j < k {
                    assert(runs[j].start + runs[j].length + 1 < runs[k].start);
                } else if k < j {
                    assert(runs[k].start + runs[k].length + 1 < runs[j].start);
                }
            }
        }
    }
    assert(run_starts(s) =~= starts.to_set());
}

/// Number of values in the first `n` runs.
pub open spec fn run_total(runs: Seq<Run>, n: nat) -> nat
    decreases n,
{
    if n == 0 {
        0
    } else {
        run_total(runs, (n - 1) as nat) + runs[n - 1].length as nat + 1
    }
}

/// A value set stored as the runs of consecutive values it consists of.
pub struct RunContainer {
    runs: Vec<Run>,
}

impl View for RunContainer {
    type V = Set<u16>;

    closed spec fn view(&self) -> Set<u16> {
        Set::new(|v: u16| any_covers(self.runs@, v))
    }
}

impl RunContainer {
    /// The runs, as listed.
    pub closed spec fn list(&self) -> Seq<Run> {
        self.runs@
    }

    /// The runs are disjoint and in increasing order.
    pub closed spec fn wf(&self) -> bool {
        runs_wf(self.runs@)
    }

    /// What the listed runs say of the container.
    pub proof fn lemma_list(&self)
        ensures
            forall|v: u16| self@.contains(v) == any_covers(self.list(), v),
            self.wf() == runs_wf(self.list()),
    {
    }

    /// Adopt `runs`.
    pub fn from_runs(runs: Vec<Run>) -> (c: Self)
        requires
            runs_wf(runs@),
        ensures
            c.wf(),
            c.list() == runs@,
    {
        RunContainer { runs }
    }

    /// The maximal runs of an increasing list of values.
    pub fn from_sorted_values(values: &[u16]) -> (c: Self)
        requires
            seqs::increasing(values@),
        ensures
            c.wf(),
            c@ == values@.to_set(),
            c.list().len() == run_starts(c@).len(),
    {
        let mut runs: Vec<Run> = Vec::new();
        let mut i: usize = 0;
        while i < values.len()
            invariant
                i <= values@.len(),
                seqs::increasing(values@),
                runs_wf(runs@),
                apart(runs@),
                forall|v: u16| #[trigger] any_covers(runs@, v) == values@.take(i as int).contains(v),
                i < values@.len() ==> forall|k: int|
                    0 <= k < runs@.len() ==> (#[trigger] runs@[k]).start + runs@[k].length + 1 < values@[i as int],
            decreases values.len() - i,
        {
            let start: u16 = values[i];
            let mut j: usize = i + 1;
            while j < values.len() && (values[j] - start) as usize == j - i
                invariant
                    i < j <= values@.len(),
                    seqs::increasing(values@),
                    start == values@[i as int],
                    forall|k: int| i <= k < j ==> values@[k] == start + (k - i),
                decreases values.len() - j,
            {
                j = j + 1;
            }
            let length: u16 = (j - i - 1) as u16;
            let run: Run = Run { start, length };
            let ghost before = runs@;
            runs.push(run);
            proof {
                assert(values@[j - 1] == start + (j - 1 - i));
                assert forall|v: u16| #[trigger] any_covers(runs@, v) == values@.take(j as int).contains(v) by {
                    lemma_any_covers_push(before, run, v);
                    assert(any_covers(before, v) == values@.take(i as int).contains(v));
                    if values@.take(i as int).contains(v) {
                        let k = choose|k: int| 0 <= k < i && values@.take(i as int)[k] == v;
                        assert(values@.take(j as int)[k] == v);
                    }
                    if run.covers(v) {
                        assert(values@.take(j as int)[i + (v - start)] == v);
                    }
                    if values@.take(j as int).contains(v) {
                        let k = choose|k: int| 0 <= k < j && values@.take(j as int)[k] == v;
                        if k < i {
                            assert(values@.take(i as int)[k] == v);
                        }
                    }
                }
            }
            i = j;
        }
        proof {
            assert(values@.take(i as int) =~= values@);
            assert(Set::new(|v: u16| any_covers(runs@, v)) =~= values@.to_set());
            lemma_run_starts(runs@, values@.to_set());
        }
        RunContainer { runs }
    }

    pub fn runs(&self) -> (runs: &[Run])
        ensures
            runs@ == self.list(),
    {
        self.runs.as_slice()
    }

    pub fn contains(&self, v: u16) -> (found: bool)
        requires
            self.wf(),
        ensures
            found == self@.contains(v),
    {
        let mut i: usize = 0;
        while i < self.runs.len()
            invariant
                i <= self.runs@.len(),
                runs_wf(self.runs@),
                forall|k: int| 0 <= k < i ==> !(#[trigger] self.runs@[k]).covers(v),
            decreases self.runs@.len() - i,
        {
            if self.runs[i].start <= v && v <= self.runs[i].end() {
                assert(self.runs@[i as int].covers(v));
                return true;
            }
            i = i + 1;
        }
        false
    }

    /// The values in increasing order.
    pub fn to_values(&self) -> (out: Vec<u16>)
        requires
            self.wf(),
        ensures
            seqs::increasing(out@),
            forall|v: u16| out@.contains(v) <==> self@.contains(v),
            out@.len() == run_total(self.list(), self.list().len()),
    {
        let mut out: Vec<u16> = Vec::new();
        let mut i: usize = 0;
        while i < self.runs.len()
            invariant
                i <= self.runs@.len(),
                runs_wf(self.runs@),
                seqs::increasing(out@),
                forall|v: u16| #[trigger] out@.contains(v) <==> any_covers(self.runs@.take(i as int), v),
                out@.len() == run_total(self.runs@, i as nat),
            decreases self.runs@.len() - i,
        {
            let run: Run = self.runs[i];
            let ghost done = self.runs@.take(i as int);
            let mut k: usize = 0;
            while k <= run.length as usize
                invariant
                    i < self.runs@.len(),
                    runs_wf(self.runs@),
                    run == self.runs@[i as int],
                    done == self.runs@.take(i as int),
                    k <= run.length + 1,
                    seqs::increasing(out@),
                    forall|v: u16| #[trigger]
                        out@.contains(v) <==> any_covers(done, v) || run.start <= v < run.start + k,
                    out@.len() == run_total(self.runs@, i as nat) + k,
                decreases run.length + 1 - k,
            {
                let v: u16 = run.start + k as u16;
                let ghost before = out@;
                out.push(v);
                proof {
                    assert forall|u: u16| #[trigger] before.contains(u) implies u < v by {
                        if any_covers(done, u) {
                            let j = choose|j: int| 0 <= j < done.len() && (#[trigger] done[j]).covers(u);
                            assert(self.runs@[j].start + self.runs@[j].length < self.runs@[i as int].start);
                        }
                    }
                    seqs::lemma_push_increasing(before, v);
                    assert forall|u: u16| #[trigger]
                        out@.contains(u) <==> any_covers(done, u) || run.start <= u < run.start + k + 1 by {
                        seqs::lemma_push_contains(before, v, u);
                    }
                }
                k = k + 1;
            }
            proof {
                assert(self.runs@.take(i + 1) =~= done.push(run));
                assert forall|v: u16| #[trigger]
                    out@.contains(v) <==> any_covers(self.runs@.take(i + 1), v) by {
                    lemma_any_covers_push(done, run, v);
                }
            }
            i = i + 1;
        }
        assert(self.runs@.take(i as int) =~= self.runs@);
        out
    }

    pub fn cardinality(&self) -> (n: usize)
        requires
            self.wf(),
        ensures
            n == self@.len(),
            self@.finite(),
    {
        let mut n: usize = 0;
        let mut i: usize = 0;
        proof {
            lemma_run_total_bound(self.runs@, 0);
        }
        while i < self.runs.len()
            invariant
                i <= self.runs@.len(),
                runs_wf(self.runs@),
                n == run_total(self.runs@, i as nat),
                n <= 65536,
            decreases self.runs@.len() - i,
        {
            n = n + self.runs[i].length as usize + 1;
            i = i + 1;
            proof {
                lemma_run_total_bound(self.runs@, i as nat);
            }
        }
        proof {
            lemma_run_set(self.runs@, self.runs@.len());
            assert(self@ =~= Set::new(|v: u16| any_covers(self.runs@.take(self.runs@.len() as int), v))) by {
                assert(self.runs@.take(self.runs@.len() as int) =~= self.runs@);
            }
        }
        n
    }
}

/// Disjoint runs hold no more values than there are below the end of the last.
proof fn lemma_run_total_bound(runs: Seq<Run>, n: nat)
    requires
        runs_wf(runs),
        n <= runs.len(),
    ensures
        n == 0 ==> run_total(runs, n) == 0,
        n > 0 ==> run_total(runs, n) <= runs[n - 1].start + runs[n - 1].length + 1,
        run_total(runs, n) <= 65536,
    decreases n,
{
    if n > 0 {
        lemma_run_total_bound(runs, (n - 1) as nat);
        if n > 1 {
            assert(runs[n - 2].start + runs[n - 2].length < runs[n - 1].start);
        }
        assert(runs[n - 1].wf());
    }
}

/// There are no more disjoint runs than values.
pub proof fn lemma_run_count(runs: Seq<Run>, n: nat)
    requires
        runs_wf(runs),
        n <= runs.len(),
    ensures
        n <= run_total(runs, n) <= 65536,
    decreases n,
{
    lemma_run_total_bound(runs, n);
    if n > 0 {
        lemma_run_count(runs, (n - 1) as nat);
    }
}

/// The values of the first `k` positions of a run.
proof fn lemma_range_set(start: u16, k: nat)
    requires
        start + k <= 65536,
    ensures
        Set::new(|v: u16| start <= v < start + k).finite(),
        Set::new(|v: u16| start <= v < start + k).len() == k,
    decreases k,
{
    let here = Set::new(|v: u16| start <= v < start + k);
    if k == 0 {
        assert(here =~= Set::empty());
    } else {
        lemma_range_set(start, (k - 1) as nat);
        let less = Set::new(|v: u16| start <= v < start + k - 1);
        assert(here =~= less.insert((start + k - 1) as u16));
    }
}

/// Disjoint runs hold as many values as their lengths add up to.
proof fn lemma_run_set(runs: Seq<Run>, n: nat)
    requires
        runs_wf(runs),
        n <= runs.len(),
    ensures
        Set::new(|v: u16| any_covers(runs.take(n as int), v)).finite(),
        Set::new(|v: u16| any_covers(runs.take(n as int), v)).len() == run_total(runs, n),
    decreases n,
{
    let here = Set::new(|v: u16| any_covers(runs.take(n as int), v));
    if n == 0 {
        assert(here =~= Set::empty());
    } else {
        lemma_run_set(runs, (n - 1) as nat);
        let run = runs[n - 1];
        let before = Set::new(|v: u16| any_covers(runs.take(n - 1), v));
        let range = Set::new(|v: u16| run.start <= v < run.start + (run.length + 1) as nat);
        lemma_range_set(run.start, (run.length + 1) as nat);
        assert(runs.take(n as int) =~= runs.take(n - 1).push(run));
        assert forall|v: u16| here.contains(v) == before.union(range).contains(v) by {
            lemma_any_covers_push(runs.take(n - 1), run, v);
        }
        assert(here =~= before.union(range));
        assert(before.disjoint(range)) by {
            assert forall|v: u16| before.contains(v) implies !range.contains(v) by {
                let j = choose|j: int|
                    0 <= j < runs.take(n - 1).len() && (#[trigger] runs.take(n - 1)[j]).covers(v);
                assert(runs[j].start + runs[j].length < run.start);
            }
        }
        vstd::set_lib::lemma_set_disjoint_lens(before, range);
    }
}

/// A run covers the values from its first one on, as many more as its length says: the
/// last one too, and none behind it.
pub proof fn law_runs_cover_both_ends(run: Run, v: u16)
    requires
        run.start + run.length <= 0xffff,
    ensures
        run.wf(),
        run.covers(v) <==> run.start <= v && v <= run.start + run.length,
        run.covers(run.start),
        run.covers((run.start + run.length) as u16),
{
}

/// The values of a run container are those of its runs, of each of them.
pub proof fn law_values_of_runs(c: RunContainer, v: u16)
    ensures
        c@.contains(v) <==> exists|k: int|
            0 <= k < c.list().len() && (#[trigger] c.list()[k]).start <= v && v <= c.list()[k].start + c.list()[k].length,
{
    c.lemma_list();
    if c@.contains(v) {
        let k = choose|k: int| 0 <= k < c.list().len() && (#[trigger] c.list()[k]).covers(v);
        assert(c.list()[k].start <= v && v <= c.list()[k].start + c.list()[k].length);
    }
    if exists|k: int|
        0 <= k < c.list().len() && (#[trigger] c.list()[k]).start <= v && v <= c.list()[k].start + c.list()[k].length {
        let k = choose|k: int|
            0 <= k < c.list().len() && (#[trigger] c.list()[k]).start <= v && v <= c.list()[k].start + c.list()[k].length;
        assert(c.list()[k].covers(v));
    }
}

/// A run of a set starts at each of its values whose predecessor is not in it.
pub proof fn law_runs_start(s: Set<u16>, v: u16)
    ensures
        run_starts(s).contains(v) <==> s.contains(v) && (v == 0 || !s.contains((v - 1) as u16)),
{
}

} // verus!
