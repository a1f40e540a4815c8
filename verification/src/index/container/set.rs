//! A value set in whichever representation suits it, and its word frame.

use vstd::prelude::*;

use super::array::ArrayContainer;
use super::bitset;
use super::bitset::{count_words, zero_words, BitsetContainer, BITSET_WORDS};
use super::run::{Run, RunContainer};
use super::run;
use crate::seqs;

verus! {

/// Frame tag of an array container.
pub const TAG_ARRAY: u64 = 0;

/// Frame tag of a bitset container.
pub const TAG_BITSET: u64 = 1;

/// Frame tag of a run container.
pub const TAG_RUN: u64 = 2;

/// A set of 16-bit values.
pub enum Container {
    Array(ArrayContainer),
    Bitset(BitsetContainer),
    Run(RunContainer),
}

impl View for Container {
    type V = Set<u16>;

    open spec fn view(&self) -> Set<u16> {
        match self {
            Container::Array(c) => c@,
            Container::Bitset(c) => c@,
            Container::Run(c) => c@,
        }
    }
}

/// One word per value.
pub open spec fn array_frame(list: Seq<u16>) -> Seq<u64> {
    Seq::new(list.len() + 1, |i: int| if i == 0 {
        TAG_ARRAY
    } else {
        list[i - 1] as u64
    })
}

/// The bitset's own words.
pub open spec fn bitset_frame(words: Seq<u64>) -> Seq<u64> {
    Seq::new(words.len() + 1, |i: int| if i == 0 {
        TAG_BITSET
    } else {
        words[i - 1]
    })
}

/// One word per run, its length above its start.
pub open spec fn run_word(r: Run) -> u64 {
    (r.start + 65536 * r.length) as u64
}

/// One word per run.
pub open spec fn run_frame(runs: Seq<Run>) -> Seq<u64> {
    Seq::new(runs.len() + 1, |i: int| if i == 0 {
        TAG_RUN
    } else {
        run_word(runs[i - 1])
    })
}

impl Container {
    /// The representation keeps its own invariant.
    pub open spec fn wf(&self) -> bool {
        match self {
            Container::Array(c) => c.wf(),
            Container::Bitset(c) => c.wf(),
            Container::Run(c) => c.wf(),
        }
    }

    /// The words that stand for the container on disk: a tag, then its contents.
    pub open spec fn frame(&self) -> Seq<u64> {
        match self {
            Container::Array(c) => array_frame(c.list()),
            Container::Bitset(c) => bitset_frame(c.words()),
            Container::Run(c) => run_frame(c.list()),
        }
    }

    /// Number of values.
    pub fn cardinality(&self) -> (n: usize)
        requires
            self.wf(),
        ensures
            n == self@.len(),
            self@.finite(),
            n <= 65536,
    {
        proof {
            lemma_u16_set_bound(self@);
        }
        match self {
            Container::Array(c) => c.cardinality(),
            Container::Bitset(c) => c.cardinality(),
            Container::Run(c) => c.cardinality(),
        }
    }

    /// The values in increasing order.
    pub fn to_values(&self) -> (out: Vec<u16>)
        requires
            self.wf(),
        ensures
            seqs::increasing(out@),
            forall|v: u16| out@.contains(v) <==> self@.contains(v),
    {
        match self {
            Container::Array(c) => {
                proof {
                    c.lemma_list();
                }
                let list: &[u16] = c.values();
                let mut out: Vec<u16> = Vec::new();
                let mut i: usize = 0;
                while i < list.len()
                    invariant
                        i <= list@.len(),
                        out@ == list@.take(i as int),
                    decreases list@.len() - i,
                {
                    out.push(list[i]);
                    i = i + 1;
                }
                assert(out@ =~= list@);
                out
            },
            Container::Bitset(c) => c.to_values(),
            Container::Run(c) => c.to_values(),
        }
    }

    /// The container's frame.
    pub fn to_words(&self) -> (words: Vec<u64>)
        requires
            self.wf(),
        ensures
            words@ == self.frame(),
            words@.len() <= 65537,
    {
        let mut words: Vec<u64> = Vec::new();
        match self {
            Container::Array(c) => {
                proof {
                    c.lemma_list();
                    lemma_u16_set_bound(c@);
                }
                let list: &[u16] = c.values();
                words.push(TAG_ARRAY);
                let mut i: usize = 0;
                while i < list.len()
                    invariant
                        i <= list@.len(),
                        words@ == array_frame(list@).take(i + 1),
                    decreases list@.len() - i,
                {
                    words.push(list[i] as u64);
                    i = i + 1;
                }
                assert(words@ =~= array_frame(list@));
            },
            Container::Bitset(c) => {
                let bits: &[u64; BITSET_WORDS] = c.bits();
                words.push(TAG_BITSET);
                let mut i: usize = 0;
                while i < BITSET_WORDS
                    invariant
                        i <= BITSET_WORDS,
                        words@ == bitset_frame(bits@).take(i + 1),
                    decreases BITSET_WORDS - i,
                {
                    words.push(bits[i]);
                    i = i + 1;
                }
                assert(words@ =~= bitset_frame(bits@));
            },
            Container::Run(c) => {
                proof {
                    c.lemma_list();
                    run::lemma_run_count(c.list(), c.list().len());
                }
                let runs: &[Run] = c.runs();
                words.push(TAG_RUN);
                let mut i: usize = 0;
                while i < runs.len()
                    invariant
                        i <= runs@.len(),
                        words@ == run_frame(runs@).take(i + 1),
                    decreases runs@.len() - i,
                {
                    words.push(runs[i].start as u64 + 65536 * (runs[i].length as u64));
                    i = i + 1;
                }
                assert(words@ =~= run_frame(runs@));
            },
        }
        words
    }

    /// The container that `words` frames, if they frame one.
    pub fn from_words(words: &[u64]) -> (r: Option<Container>)
        ensures
            match r {
                Some(c) => c.wf() && c.frame() == words@,
                None => forall|c: Container| c.wf() ==> #[trigger] c.frame() != words@,
            },
    {
        if words.len() == 0 {
            return None;
        }
        let tag: u64 = words[0];
        if tag == TAG_ARRAY {
            Self::array_from_words(words)
        } else if tag == TAG_BITSET {
            if words.len() != BITSET_WORDS + 1 {
                proof {
                    assert forall|c: Container| c.wf() implies #[trigger] c.frame() != words@ by {
                        match c {
                            Container::Array(a) => {
                                assert(array_frame(a.list())[0] == TAG_ARRAY);
                            },
                            Container::Bitset(b) => {
                                b.lemma_words();
                                assert(bitset_frame(b.words()).len() == BITSET_WORDS + 1);
                            },
                            Container::Run(r) => {
                                assert(run_frame(r.list())[0] == TAG_RUN);
                            },
                        }
                    }
                }
                return None;
            }
            let mut bits: [u64; BITSET_WORDS] = zero_words();
            let mut i: usize = 0;
            while i < BITSET_WORDS
                invariant
                    i <= BITSET_WORDS,
                    words@.len() == BITSET_WORDS + 1,
                    forall|k: int| 0 <= k < i ==> bits@[k] == words@[k + 1],
                decreases BITSET_WORDS - i,
            {
                bits[i] = words[i + 1];
                i = i + 1;
            }
            let cardinality: usize = count_words(&bits);
            let c: Container = Container::Bitset(BitsetContainer::from_raw_bits(Box::new(bits), cardinality));
            assert(c.frame() =~= words@);
            Some(c)
        } else if tag == TAG_RUN {
            Self::run_from_words(words)
        } else {
            None
        }
    }

    fn array_from_words(words: &[u64]) -> (r: Option<Container>)
        requires
            words@.len() > 0,
            words@[0] == TAG_ARRAY,
        ensures
            match r {
                Some(c) => c.wf() && c.frame() == words@,
                None => forall|c: Container| c.wf() ==> #[trigger] c.frame() != words@,
            },
    {
        let mut list: Vec<u16> = Vec::new();
        let mut i: usize = 1;
        while i < words.len()
            invariant
                1 <= i <= words@.len(),
                words@[0] == TAG_ARRAY,
                list@.len() == i - 1,
                seqs::increasing(list@),
                forall|k: int| 0 <= k < i - 1 ==> list@[k] == words@[k + 1],
            decreases words@.len() - i,
        {
            let w: u64 = words[i];
            if w > 65535 || (i > 1 && w <= words[i - 1]) {
                proof {
                    assert forall|c: Container| c.wf() implies #[trigger] c.frame() != words@ by {
                        if c.frame() == words@ {
                            assert(c.frame()[0] == TAG_ARRAY);
                            match c {
                                Container::Array(a) => {
                                    a.lemma_list();
                                    assert(array_frame(a.list())[i as int] == a.list()[i - 1] as u64);
                                    if i > 1 {
                                        assert(array_frame(a.list())[i - 1] == a.list()[i - 2] as u64);
                                    }
                                },
                                Container::Bitset(b) => {
                                    assert(bitset_frame(b.words())[0] == TAG_BITSET);
                                },
                                Container::Run(r) => {
                                    assert(run_frame(r.list())[0] == TAG_RUN);
                                },
                            }
                        }
                    }
                }
                return None;
            }
            let ghost before = list@;
            list.push(w as u16);
            proof {
                assert forall|a: int, b: int| 0 <= a < b < list@.len() implies list@[a] < list@[b] by {
                    if b == list@.len() - 1 {
                        assert(before[a] <= before[before.len() - 1]);
                        assert(before[before.len() - 1] == words@[i - 1]);
                    }
                }
            }
            i = i + 1;
        }
        let c: Container = Container::Array(ArrayContainer::from_sorted(list));
        assert(c.frame() =~= words@);
        Some(c)
    }

    fn run_from_words(words: &[u64]) -> (r: Option<Container>)
        requires
            words@.len() > 0,
            words@[0] == TAG_RUN,
        ensures
            match r {
                Some(c) => c.wf() && c.frame() == words@,
                None => forall|c: Container| c.wf() ==> #[trigger] c.frame() != words@,
            },
    {
        let mut list: Vec<Run> = Vec::new();
        let mut i: usize = 1;
        while i < words.len()
            invariant
                1 <= i <= words@.len(),
                words@[0] == TAG_RUN,
                list@.len() == i - 1,
                run::runs_wf(list@),
                forall|k: int| 0 <= k < i - 1 ==> run_word(list@[k]) == words@[k + 1],
            decreases words@.len() - i,
        {
            let w: u64 = words[i];
            let start: u64 = w % 65536;
            let length: u64 = w / 65536;
            let fits: bool = length <= 65535 && start + length <= 65535;
            let after: bool = fits && (i < 2 || list[i - 2].end() < start as u16);
            if !after {
                proof {
                    assert forall|c: Container| c.wf() implies #[trigger] c.frame() != words@ by {
                        if c.frame() == words@ {
                            assert(c.frame()[0] == TAG_RUN);
                            match c {
                                Container::Run(r) => {
                                    r.lemma_list();
                                    let here = r.list()[i - 1];
                                    assert(run_frame(r.list())[i as int] == run_word(here));
                                    assert(here.wf());
                                    assert(here.start == start && here.length == length);
                                    if i > 1 {
                                        let prev = r.list()[i - 2];
                                        assert(run_frame(r.list())[i - 1] == run_word(prev));
                                        assert(run_word(list@[i - 2]) == run_word(prev));
                                        assert(list@[i - 2].start == prev.start && list@[i - 2].length
                                            == prev.length);
                                    }
                                },
                                Container::Bitset(b) => {
                                    assert(bitset_frame(b.words())[0] == TAG_BITSET);
                                },
                                Container::Array(a) => {
                                    assert(array_frame(a.list())[0] == TAG_ARRAY);
                                },
                            }
                        }
                    }
                }
                return None;
            }
            let ghost before = list@;
            list.push(Run { start: start as u16, length: length as u16 });
            proof {
                let last = list@[i - 1];
                assert forall|a: int, b: int| 0 <= a < b < list@.len() implies (#[trigger] list@[a]).start
                    + list@[a].length < (#[trigger] list@[b]).start by {
                    if b == i - 1 && a < i - 2 {
                        assert(before[a].start + before[a].length < before[i - 2].start);
                    }
                }
            }
            i = i + 1;
        }
        let c: Container = Container::Run(RunContainer::from_runs(list));
        assert(c.frame() =~= words@);
        Some(c)
    }
}

/// A set of 16-bit values is finite and has at most 65536 elements.
pub proof fn lemma_u16_set_bound(s: Set<u16>)
    ensures
        s.finite(),
        s.len() <= 65536,
{
    lemma_u16_below(65536);
    let all = Set::new(|v: u16| v < 65536);
    assert(s.subset_of(all));
    vstd::set_lib::lemma_set_subset_finite(all, s);
    vstd::set_lib::lemma_len_subset(s, all);
}

proof fn lemma_u16_below(n: nat)
    requires
        n <= 65536,
    ensures
        Set::new(|v: u16| v < n).finite(),
        Set::new(|v: u16| v < n).len() == n,
    decreases n,
{
    let here = Set::new(|v: u16| v < n);
    if n == 0 {
        assert(here =~= Set::empty());
    } else {
        lemma_u16_below((n - 1) as nat);
        assert(here =~= Set::new(|v: u16| v < n - 1).insert((n - 1) as u16));
    }
}

/// Containers with the same frame hold the same values in the same
/// representation.
pub proof fn lemma_frame_injective(a: Container, b: Container)
    requires
        a.wf(),
        b.wf(),
        a.frame() == b.frame(),
    ensures
        a@ == b@,
        (a is Array) == (b is Array),
        (a is Bitset) == (b is Bitset),
{
    let tag = a.frame()[0];
    assert(b.frame()[0] == tag);
    match a {
        Container::Array(x) => {
            assert(array_frame(x.list())[0] == TAG_ARRAY);
            match b {
                Container::Array(y) => {
                    x.lemma_list();
                    y.lemma_list();
                    assert(array_frame(x.list()).len() == array_frame(y.list()).len());
                    assert forall|i: int| 0 <= i < x.list().len() implies x.list()[i] == y.list()[i] by {
                        assert(array_frame(x.list())[i + 1] == array_frame(y.list())[i + 1]);
                    }
                    assert(x.list() =~= y.list());
                },
                Container::Bitset(y) => {
                    assert(bitset_frame(y.words())[0] == TAG_BITSET);
                },
                Container::Run(y) => {
                    assert(run_frame(y.list())[0] == TAG_RUN);
                },
            }
        },
        Container::Bitset(x) => {
            assert(bitset_frame(x.words())[0] == TAG_BITSET);
            match b {
                Container::Bitset(y) => {
                    x.lemma_words();
                    y.lemma_words();
                    assert forall|i: int| 0 <= i < x.words().len() implies x.words()[i] == y.words()[i] by {
                        assert(bitset_frame(x.words())[i + 1] == bitset_frame(y.words())[i + 1]);
                    }
                    assert(x.words() =~= y.words());
                },
                Container::Array(y) => {
                    assert(array_frame(y.list())[0] == TAG_ARRAY);
                },
                Container::Run(y) => {
                    assert(run_frame(y.list())[0] == TAG_RUN);
                },
            }
        },
        Container::Run(x) => {
            assert(run_frame(x.list())[0] == TAG_RUN);
            match b {
                Container::Run(y) => {
                    x.lemma_list();
                    y.lemma_list();
                    assert(run_frame(x.list()).len() == run_frame(y.list()).len());
                    assert forall|i: int| 0 <= i < x.list().len() implies x.list()[i] == y.list()[i] by {
                        assert(run_frame(x.list())[i + 1] == run_frame(y.list())[i + 1]);
                        let (p, q) = (x.list()[i], y.list()[i]);
                        assert(p.start == q.start && p.length == q.length);
                    }
                    assert(x.list() =~= y.list());
                    assert(a@ =~= b@);
                },
                Container::Array(y) => {
                    assert(array_frame(y.list())[0] == TAG_ARRAY);
                },
                Container::Bitset(y) => {
                    assert(bitset_frame(y.words())[0] == TAG_BITSET);
                },
            }
        },
    }
}

} // verus!
