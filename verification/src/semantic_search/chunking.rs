//! Splitting documents into chunks for embedding.
//!
//! A document is split into sentences, and the sentences are grouped into
//! overlapping windows. Each window is one chunk.

use vstd::prelude::*;

use crate::text;
use crate::text::{chars_of, is_whitespace, join, string_of, trim_range};

verus! {

/// A character that may end a sentence.
pub open spec fn is_terminator(c: char) -> bool {
    c == '.' || c == '!' || c == '?'
}

/// A sentence ends before position `e`: after a terminator, where white space
/// or the end of the text follows.
pub open spec fn ends_at(t: Seq<char>, e: int) -> bool {
    &&& 0 < e <= t.len()
    &&& is_terminator(t[e - 1])
    &&& e == t.len() || text::is_space(t[e])
}

/// A piece of text as a list of at most one sentence.
pub open spec fn sentence(s: Seq<char>) -> Seq<Seq<char>> {
    if text::trim(s).len() == 0 {
        seq![]
    } else {
        seq![text::trim(s)]
    }
}

/// The sentences of `t` from `start` on, where none ends in `start .. i`: the
/// text is cut at each end, every piece is trimmed, and empty ones are dropped.
pub open spec fn sentences_from(t: Seq<char>, start: int, i: int) -> Seq<Seq<char>>
    decreases t.len() - i,
{
    if i >= t.len() {
        sentence(t.subrange(start, t.len() as int))
    } else if ends_at(t, i + 1) {
        sentence(t.subrange(start, i + 1)) + sentences_from(t, i + 1, i + 1)
    } else {
        sentences_from(t, start, i + 1)
    }
}

/// The sentences of a text.
pub open spec fn sentences(t: Seq<char>) -> Seq<Seq<char>> {
    sentences_from(t, 0, 0)
}

/// White space at the start of a piece does not change the sentences.
proof fn lemma_skip_space(t: Seq<char>, start: int, i: int)
    requires
        0 <= start < i <= t.len(),
        text::is_space(t[start]),
    ensures
        sentences_from(t, start, i) == sentences_from(t, start + 1, i),
    decreases t.len() - i,
{
    if i >= t.len() {
        lemma_sentence_skip(t, start, t.len() as int);
    } else if ends_at(t, i + 1) {
        lemma_sentence_skip(t, start, i + 1);
    } else {
        lemma_skip_space(t, start, i + 1);
    }
}

proof fn lemma_sentence_skip(t: Seq<char>, start: int, end: int)
    requires
        0 <= start < end <= t.len(),
        text::is_space(t[start]),
    ensures
        sentence(t.subrange(start, end)) == sentence(t.subrange(start + 1, end)),
{
    let s = t.subrange(start, end);
    assert(s[0] == t[start]);
    assert(s.subrange(1, s.len() as int) =~= t.subrange(start + 1, end));
}

/// Append `chars[from .. to]`, trimmed, unless nothing is left of it.
fn push_trimmed(chars: &[char], from: usize, to: usize, out: &mut Vec<String>)
    requires
        from <= to <= chars@.len(),
    ensures
        text::texts(final(out)@) == text::texts(old(out)@) + sentence(chars@.subrange(from as int, to as int)),
{
    let (lo, hi): (usize, usize) = trim_range(chars, from, to);
    if lo < hi {
        out.push(string_of(vstd::slice::slice_subrange(chars, lo, hi)));
    }
    assert(text::texts(out@) =~= text::texts(old(out)@) + sentence(chars@.subrange(from as int, to as int)));
}

/// Split a text into sentences.
///
/// A run of terminators that white space or the end of the text follows ends a
/// sentence; the terminators stay with it. There is no lexical knowledge: the
/// last dot of an abbreviation, an initial or a list marker ends a sentence too.
pub fn split_sentences(text: &str) -> (out: Vec<String>)
    ensures
        text::texts(out@) == sentences(text@),
{
    let chars: Vec<char> = chars_of(text);
    let n: usize = chars.len();
    let mut out: Vec<String> = Vec::new();
    let mut start: usize = 0;
    let mut i: usize = 0;
    let ghost t = text@;
    assert(text::texts(out@) + sentences_from(t, 0, 0) =~= sentences(t));
    while i < n
        invariant
            start <= i <= n,
            n == chars@.len(),
            t == chars@,
            text::texts(out@) + sentences_from(t, start as int, i as int) == sentences(t),
        decreases n - i,
    {
        let c: char = chars[i];
        if c == '.' || c == '!' || c == '?' {
            let mut end: usize = i + 1;
            while end < n && (chars[end] == '.' || chars[end] == '!' || chars[end] == '?')
                invariant
                    i < end <= n,
                    n == chars@.len(),
                    t == chars@,
                    forall|k: int| i <= k < end ==> is_terminator(#[trigger] t[k]),
                    sentences_from(t, start as int, i as int) == sentences_from(t, start as int, end - 1),
                decreases n - end,
            {
                assert(!text::is_space(t[end as int]));
                assert(!ends_at(t, end as int));
                end = end + 1;
            }
            if end >= n || is_whitespace(chars[end]) {
                let ghost before = text::texts(out@);
                assert(ends_at(t, end as int));
                push_trimmed(chars.as_slice(), start, end, &mut out);
                let mut next: usize = end;
                proof {
                    assert(text::texts(out@) + sentences_from(t, end as int, end as int) =~= before + (sentence(
                        t.subrange(start as int, end as int),
                    ) + sentences_from(t, end as int, end as int)));
                }
                while next < n && is_whitespace(chars[next])
                    invariant
                        end <= next <= n,
                        n == chars@.len(),
                        t == chars@,
                        sentences_from(t, end as int, end as int) == sentences_from(t, next as int, next as int),
                    decreases n - next,
                {
                    proof {
                        assert(!is_terminator(t[next as int]));
                        assert(!ends_at(t, next + 1));
                        lemma_skip_space(t, next as int, next + 1);
                    }
                    next = next + 1;
                }
                start = next;
                i = next;
            } else {
                assert(!ends_at(t, end as int));
                i = end;
            }
        } else {
            assert(!ends_at(t, i + 1));
            i = i + 1;
        }
    }
    if start < n {
        push_trimmed(chars.as_slice(), start, n, &mut out);
    } else {
        assert(t.subrange(start as int, n as int) =~= Seq::<char>::empty());
        assert(sentence(t.subrange(start as int, n as int)) =~= Seq::<Seq<char>>::empty());
        assert(text::texts(out@) + Seq::<Seq<char>>::empty() =~= text::texts(out@));
    }
    out
}

/// At least one.
pub open spec fn at_least_one(n: nat) -> nat {
    if n == 0 {
        1
    } else {
        n
    }
}

/// Where window `k` ends: after `window` units from its start, or at the end.
pub open spec fn window_end(len: int, window: int, slide: int, k: int) -> int {
    if k * slide + window < len {
        k * slide + window
    } else {
        len
    }
}

/// The text of window `k`.
pub open spec fn window_text(units: Seq<Seq<char>>, window: int, slide: int, k: int) -> Seq<char> {
    text::joined(units.subrange(k * slide, window_end(units.len() as int, window, slide, k)), " "@)
}

/// Window `k` starts before the end.
pub open spec fn starts_inside(len: int, slide: int, k: int) -> bool {
    k * slide < len
}

/// `out` lists the windows over `units`: window `k` starts `k * slide` units in
/// and joins the next `window` units; the last window is the first one that
/// reaches the end, or the last one that starts before it.
pub open spec fn windows_of(out: Seq<Seq<char>>, units: Seq<Seq<char>>, window: int, slide: int) -> bool {
    let len = units.len() as int;
    let n = out.len() as int;
    &&& forall|k: int| 0 <= k < n ==> #[trigger] starts_inside(len, slide, k)
    &&& forall|k: int| 0 <= k < n ==> #[trigger] out[k] == window_text(units, window, slide, k)
    &&& forall|k: int| 0 <= k < n - 1 ==> #[trigger] window_end(len, window, slide, k) < len
    &&& n * slide >= len || (n > 0 && window_end(len, window, slide, n - 1) == len)
}

/// Group units into overlapping windows, each joined with single spaces.
///
/// Sizes of zero count as one.
pub fn sliding_windows(units: &[String], window_size: usize, sliding_size: usize) -> (out: Vec<String>)
    ensures
        windows_of(
            text::texts(out@),
            text::texts(units@),
            at_least_one(window_size as nat) as int,
            at_least_one(sliding_size as nat) as int,
        ),
{
    let window: usize = if window_size == 0 {
        1
    } else {
        window_size
    };
    let slide: usize = if sliding_size == 0 {
        1
    } else {
        sliding_size
    };
    let len: usize = units.len();
    let ghost all = text::texts(units@);
    let mut out: Vec<String> = Vec::new();
    let mut i: usize = 0;
    let ghost mut n: int = 0;
    let mut done: bool = len == 0;
    while !done
        invariant
            n == out@.len(),
            window >= 1,
            slide >= 1,
            len == units@.len(),
            all == text::texts(units@),
            !done ==> i == n * slide && i < len,
            done ==> n * slide >= len || (n > 0 && window_end(len as int, window as int, slide as int, n - 1) == len),
            forall|k: int| 0 <= k < n ==> #[trigger] starts_inside(len as int, slide as int, k),
            forall|k: int|
                0 <= k < n ==> #[trigger] text::texts(out@)[k] == window_text(all, window as int, slide as int, k),
            forall|k: int|
                0 <= k < n - 1 ==> #[trigger] window_end(len as int, window as int, slide as int, k) < len,
            !done && n > 0 ==> window_end(len as int, window as int, slide as int, n - 1) < len,
        decreases
            (if done {
                0int
            } else {
                len - i + 1
            }),
    {
        let end: usize = if window >= len - i {
            len
        } else {
            i + window
        };
        let ghost before = out@;
        out.push(join(units, i, end, " "));
        proof {
            assert(end == window_end(len as int, window as int, slide as int, n));
            assert(starts_inside(len as int, slide as int, n));
            assert forall|k: int| 0 <= k < n + 1 implies #[trigger] text::texts(out@)[k] == window_text(
                all,
                window as int,
                slide as int,
                k,
            ) by {
                if k < n {
                    assert(text::texts(before)[k] == text::texts(out@)[k]);
                }
            }
            assert((n + 1) * slide == n * slide + slide) by (nonlinear_arith);
            n = n + 1;
        }
        if end >= len || slide >= len - i {
            done = true;
        } else {
            i = i + slide;
        }
    }
    out
}

/// Chunk a document: sentences, grouped into sliding windows.
pub fn chunk_document(text: &str, window_size: usize, sliding_size: usize) -> (out: Vec<String>)
    ensures
        windows_of(
            text::texts(out@),
            sentences(text@),
            at_least_one(window_size as nat) as int,
            at_least_one(sliding_size as nat) as int,
        ),
{
    let units: Vec<String> = split_sentences(text);
    sliding_windows(units.as_slice(), window_size, sliding_size)
}

/// Every sentence is non-empty, without white space at either end.
pub proof fn law_sentences_are_trimmed(t: Seq<char>, k: int)
    requires
        0 <= k < sentences(t).len(),
    ensures
        sentences(t)[k].len() > 0,
        !text::is_space(sentences(t)[k][0]),
        !text::is_space(sentences(t)[k][sentences(t)[k].len() - 1]),
{
    lemma_trimmed_from(t, 0, 0, k);
}

proof fn lemma_trimmed_from(t: Seq<char>, start: int, i: int, k: int)
    requires
        0 <= start <= i <= t.len(),
        0 <= k < sentences_from(t, start, i).len(),
    ensures
        ({
            let s = sentences_from(t, start, i)[k];
            s.len() > 0 && !text::is_space(s[0]) && !text::is_space(s[s.len() - 1])
        }),
    decreases t.len() - i,
{
    if i >= t.len() {
        text::lemma_trim_ends(t.subrange(start, t.len() as int));
    } else if ends_at(t, i + 1) {
        let first = sentence(t.subrange(start, i + 1));
        text::lemma_trim_ends(t.subrange(start, i + 1));
        if k >= first.len() {
            lemma_trimmed_from(t, i + 1, i + 1, k - first.len());
        }
    } else {
        lemma_trimmed_from(t, start, i + 1, k);
    }
}

/// A trimmed text in which no sentence ends before its own end.
pub open spec fn is_whole(s: Seq<char>) -> bool {
    &&& s.len() > 0
    &&& !text::is_space(s[0])
    &&& !text::is_space(s[s.len() - 1])
    &&& forall|e: int| 0 < e < s.len() ==> !#[trigger] ends_at(s, e)
}

/// Whole sentences, each but the last with a terminator at its end.
pub open spec fn well_split(r: Seq<Seq<char>>) -> bool {
    &&& forall|k: int| 0 <= k < r.len() ==> is_whole(#[trigger] r[k])
    &&& forall|k: int| 0 <= k < r.len() - 1 ==> is_terminator((#[trigger] r[k])[r[k].len() - 1])
}

/// The trimmed piece `start .. end` is whole where no sentence ends inside of it.
proof fn lemma_piece_is_whole(t: Seq<char>, start: int, end: int)
    requires
        0 <= start <= end <= t.len(),
        forall|e: int| start < e < end ==> !#[trigger] ends_at(t, e),
    ensures
        ({
            let s = text::trim(t.subrange(start, end));
            &&& s.len() > 0 ==> is_whole(s)
            &&& start < end && is_terminator(t[end - 1]) ==> s.len() > 0 && s[s.len() - 1] == t[end - 1]
        }),
{
    let piece = t.subrange(start, end);
    let s = text::trim(piece);
    let (a, b) = text::lemma_trim_is_range(piece);
    text::lemma_trim_ends(piece);
    assert forall|e: int| 0 < e < s.len() implies !#[trigger] ends_at(s, e) by {
        assert(s[e - 1] == t[start + a + e - 1]);
        assert(s[e] == t[start + a + e]);
        assert(!ends_at(t, start + a + e));
    }
    if start < end && is_terminator(t[end - 1]) {
        assert(piece[piece.len() - 1] == t[end - 1]);
    }
}

/// What is split off is well split.
proof fn lemma_well_split(t: Seq<char>, start: int, i: int)
    requires
        0 <= start <= i <= t.len(),
        forall|e: int| start < e <= i ==> !#[trigger] ends_at(t, e),
    ensures
        well_split(sentences_from(t, start, i)),
    decreases t.len() - i,
{
    if i >= t.len() {
        lemma_piece_is_whole(t, start, t.len() as int);
    } else if ends_at(t, i + 1) {
        lemma_piece_is_whole(t, start, i + 1);
        lemma_well_split(t, i + 1, i + 1);
        let first = sentence(t.subrange(start, i + 1));
        let rest = sentences_from(t, i + 1, i + 1);
        let all = first + rest;
        assert(first.len() == 1);
        assert forall|k: int| 0 <= k < all.len() implies is_whole(#[trigger] all[k]) by {
            if k > 0 {
                assert(all[k] == rest[k - 1]);
            }
        }
        assert forall|k: int| 0 <= k < all.len() - 1 implies is_terminator((#[trigger] all[k])[all[k].len() - 1]) by {
            if k > 0 {
                assert(all[k] == rest[k - 1]);
            }
        }
    } else {
        lemma_well_split(t, start, i + 1);
    }
}

/// Where no sentence ends, the text is walked over.
proof fn lemma_walk(t: Seq<char>, start: int, i: int, j: int)
    requires
        0 <= start <= i <= j <= t.len(),
        forall|e: int| i < e <= j ==> !#[trigger] ends_at(t, e),
    ensures
        sentences_from(t, start, i) == sentences_from(t, start, j),
    decreases j - i,
{
    if i < j {
        assert(!ends_at(t, i + 1));
        lemma_walk(t, start, i + 1, j);
    }
}

/// The sentences from a cut on are those of the rest alone.
proof fn lemma_rest_alone(p: Seq<char>, u: Seq<char>, start: int, i: int)
    requires
        0 <= start <= i <= u.len(),
    ensures
        sentences_from(p + u, p.len() + start, p.len() + i) == sentences_from(u, start, i),
    decreases u.len() - i,
{
    let (t, n) = (p + u, p.len() as int);
    if i >= u.len() {
        assert(t.subrange(n + start, t.len() as int) =~= u.subrange(start, u.len() as int));
    } else {
        assert(t[n + i] == u[i]);
        if i + 1 < u.len() {
            assert(t[n + i + 1] == u[i + 1]);
        }
        assert(ends_at(t, n + i + 1) == ends_at(u, i + 1));
        if ends_at(u, i + 1) {
            assert(t.subrange(n + start, n + i + 1) =~= u.subrange(start, i + 1));
            lemma_rest_alone(p, u, i + 1, i + 1);
        } else {
            lemma_rest_alone(p, u, start, i + 1);
        }
    }
}

/// A whole sentence is not split.
proof fn lemma_whole_stays(s: Seq<char>)
    requires
        is_whole(s),
    ensures
        sentences(s) == seq![s],
{
    let n = s.len() as int;
    lemma_walk(s, 0, 0, n - 1);
    assert(s.subrange(0, n) =~= s);
    assert(sentence(s) =~= seq![s]);
    if ends_at(s, n) {
        assert(s.subrange(n, n) =~= Seq::<char>::empty());
        assert(sentences_from(s, n, n) =~= Seq::<Seq<char>>::empty());
        assert(sentence(s) + Seq::<Seq<char>>::empty() =~= seq![s]);
    } else {
        assert(sentences_from(s, 0, n - 1) == sentences_from(s, 0, n));
    }
}

/// A closed sentence in front of a space is split off.
proof fn lemma_closed_comes_off(s: Seq<char>, u: Seq<char>)
    requires
        is_whole(s),
        is_terminator(s[s.len() - 1]),
    ensures
        sentences(s + " "@ + u) == seq![s] + sentences(u),
{
    reveal_strlit(" ");
    let n = s.len() as int;
    let p = s + " "@;
    let t = p + u;
    assert forall|e: int| 0 < e <= n - 1 implies !#[trigger] ends_at(t, e) by {
        assert(t[e - 1] == s[e - 1]);
        assert(t[e] == s[e]);
        assert(!ends_at(s, e));
    }
    lemma_walk(t, 0, 0, n - 1);
    assert(t[n - 1] == s[n - 1]);
    assert(t[n] == ' ');
    assert(ends_at(t, n));
    assert(t.subrange(0, n) =~= s);
    assert(sentence(s) =~= seq![s]);
    assert(sentences_from(t, 0, n - 1) == sentence(s) + sentences_from(t, n, n));
    assert(!ends_at(t, n + 1));
    assert(sentences_from(t, n, n) == sentences_from(t, n, n + 1));
    lemma_skip_space(t, n, n + 1);
    lemma_rest_alone(p, u, 0, 0);
    assert(p.len() == n + 1);
}

proof fn lemma_well_split_stays(r: Seq<Seq<char>>)
    requires
        well_split(r),
    ensures
        sentences(text::joined(r, " "@)) == r,
    decreases r.len(),
{
    if r.len() == 0 {
        let none = Seq::<char>::empty();
        assert(text::joined(r, " "@) =~= none);
        assert(none.subrange(0, 0) =~= none);
        assert(sentences(none) =~= r);
    } else if r.len() == 1 {
        lemma_whole_stays(r[0]);
        assert(seq![r[0]] =~= r);
    } else {
        let rest = r.subrange(1, r.len() as int);
        assert forall|k: int| 0 <= k < rest.len() implies is_whole(#[trigger] rest[k]) by {
            assert(rest[k] == r[k + 1]);
        }
        assert forall|k: int| 0 <= k < rest.len() - 1 implies is_terminator((#[trigger] rest[k])[rest[k].len() - 1]) by {
            assert(rest[k] == r[k + 1]);
        }
        lemma_well_split_stays(rest);
        text::lemma_joined_front(r, " "@);
        assert(is_whole(r[0]));
        lemma_closed_comes_off(r[0], text::joined(rest, " "@));
        assert(seq![r[0]] + rest =~= r);
    }
}

/// Splitting is stable: the sentences of a text, joined with single spaces, split into
/// themselves again.
pub proof fn law_joined_sentences_split_again(t: Seq<char>)
    ensures
        sentences(text::joined(sentences(t), " "@)) == sentences(t),
{
    lemma_well_split(t, 0, 0);
    lemma_well_split_stays(sentences(t));
}

/// A sentence splits into itself alone.
pub proof fn law_a_sentence_is_not_split(t: Seq<char>, k: int)
    requires
        0 <= k < sentences(t).len(),
    ensures
        sentences(sentences(t)[k]) == seq![sentences(t)[k]],
{
    lemma_well_split(t, 0, 0);
    assert(is_whole(sentences(t)[k]));
    lemma_whole_stays(sentences(t)[k]);
}

/// The pieces stand in `t` from `start` on, one behind the other with a gap between
/// them, and whatever is outside of them is white space.
pub open spec fn stand_at(t: Seq<char>, start: int, pieces: Seq<Seq<char>>, at: Seq<int>) -> bool {
    &&& at.len() == pieces.len()
    &&& forall|k: int|
        0 <= k < at.len() ==> start <= #[trigger] at[k] && at[k] + pieces[k].len() <= t.len() && pieces[k].len() > 0
            && pieces[k] == t.subrange(at[k], at[k] + pieces[k].len())
    &&& forall|k: int, l: int| 0 <= k < l < at.len() ==> #[trigger] at[k] + pieces[k].len() < #[trigger] at[l]
    &&& forall|i: int|
        start <= i < t.len() ==> text::is_space(#[trigger] t[i]) || exists|k: int|
            0 <= k < at.len() && #[trigger] at[k] <= i < at[k] + pieces[k].len()
}

/// The trimmed piece `start .. end` stands somewhere in it.
proof fn lemma_piece_stands(t: Seq<char>, start: int, end: int) -> (at: int)
    requires
        0 <= start <= end <= t.len(),
    ensures
        ({
            let s = text::trim(t.subrange(start, end));
            &&& start <= at && at + s.len() <= end
            &&& s == t.subrange(at, at + s.len())
            &&& s.len() > 0 ==> !text::is_space(t[at])
            &&& start < end && !text::is_space(t[end - 1]) ==> s.len() > 0 && at + s.len() == end
            &&& forall|i: int|
                start <= i < end ==> text::is_space(#[trigger] t[i]) || (at <= i < at + s.len())
        }),
{
    let piece = t.subrange(start, end);
    let s = text::trim(piece);
    let (a, b) = text::lemma_trim_is_range(piece);
    text::lemma_trim_ends(piece);
    assert(piece.subrange(a, b) =~= t.subrange(start + a, start + b));
    if start < end {
        assert(piece[piece.len() - 1] == t[end - 1]);
    }
    if s.len() > 0 {
        assert(s[0] == t[start + a]);
    }
    assert forall|i: int| start <= i < end implies text::is_space(#[trigger] t[i]) || (start + a <= i < start + a
        + s.len()) by {
        assert(piece[i - start] == t[i]);
    }
    start + a
}

proof fn lemma_sentences_stand(t: Seq<char>, start: int, i: int) -> (at: Seq<int>)
    requires
        0 <= start <= i <= t.len(),
    ensures
        stand_at(t, start, sentences_from(t, start, i), at),
        forall|k: int| 0 <= k < at.len() ==> !text::is_space(t[#[trigger] at[k]]),
    decreases t.len() - i,
{
    let n = t.len() as int;
    if i >= n {
        let p = lemma_piece_stands(t, start, n);
        if text::trim(t.subrange(start, n)).len() == 0 {
            Seq::empty()
        } else {
            let at = seq![p];
            assert(at[0] == p);
            at
        }
    } else if ends_at(t, i + 1) {
        let p = lemma_piece_stands(t, start, i + 1);
        let rest = lemma_sentences_stand(t, i + 1, i + 1);
        let first = text::trim(t.subrange(start, i + 1));
        let later = sentences_from(t, i + 1, i + 1);
        let all = sentences_from(t, start, i);
        let at = seq![p] + rest;
        assert(!text::is_space(t[i]));
        assert(all =~= seq![first] + later);
        assert(forall|k: int| 1 <= k < at.len() ==> #[trigger] at[k] == rest[k - 1] && all[k] == later[k - 1]);
        assert forall|k: int, l: int| 0 <= k < l < at.len() implies #[trigger] at[k] + all[k].len() < #[trigger] at[l] by {
            assert(at[l] == rest[l - 1]);
            if k == 0 {
                assert(!text::is_space(t[rest[l - 1]]));
                assert(rest[l - 1] >= i + 1);
                assert(i + 1 < n ==> text::is_space(t[i + 1]));
                assert(rest[l - 1] + later[l - 1].len() <= n && later[l - 1].len() > 0);
            } else {
                assert(rest[k - 1] + later[k - 1].len() < rest[l - 1]);
            }
        }
        assert forall|j: int| start <= j < n implies text::is_space(#[trigger] t[j]) || exists|k: int|
            0 <= k < at.len() && #[trigger] at[k] <= j < at[k] + all[k].len() by {
            if !text::is_space(t[j]) {
                if j < i + 1 {
                    assert(at[0] <= j < at[0] + all[0].len());
                } else {
                    let k = choose|k: int| 0 <= k < rest.len() && #[trigger] rest[k] <= j < rest[k] + later[k].len();
                    assert(at[k + 1] <= j < at[k + 1] + all[k + 1].len());
                }
            }
        }
        at
    } else {
        lemma_sentences_stand(t, start, i + 1)
    }
}

/// The sentences of a text are stretches of it, in order, and hold all of it but white
/// space. Between two of them there is white space; each but the last ends in a
/// terminator; and no terminator inside of one has white space behind it.
pub proof fn law_sentences_end_where_white_space_follows(t: Seq<char>)
    ensures
        exists|at: Seq<int>| #[trigger] stand_at(t, 0, sentences(t), at),
        forall|k: int, i: int|
            #![trigger sentences(t)[k][i]]
            0 <= k < sentences(t).len() && 0 <= i < sentences(t)[k].len() - 1 && (sentences(t)[k][i] == '.' || sentences(
                t,
            )[k][i] == '!' || sentences(t)[k][i] == '?') ==> !text::is_space(sentences(t)[k][i + 1]),
        forall|k: int|
            0 <= k < sentences(t).len() - 1 ==> ({
                let last = (#[trigger] sentences(t)[k])[sentences(t)[k].len() - 1];
                last == '.' || last == '!' || last == '?'
            }),
{
    let at = lemma_sentences_stand(t, 0, 0);
    assert(stand_at(t, 0, sentences(t), at));
    lemma_well_split(t, 0, 0);
    assert forall|k: int, i: int|
        #![trigger sentences(t)[k][i]]
        0 <= k < sentences(t).len() && 0 <= i < sentences(t)[k].len() - 1 && (sentences(t)[k][i] == '.' || sentences(
            t,
        )[k][i] == '!' || sentences(t)[k][i] == '?') implies !text::is_space(sentences(t)[k][i + 1]) by {
        assert(is_whole(sentences(t)[k]));
        assert(!ends_at(sentences(t)[k], i + 1));
    }
}

/// Two texts that differ in the kind of white space behind their terminators only, be it
/// a space, a tab or a line end, have the same sentences.
pub proof fn law_any_white_space_separates(a: Seq<char>, gap: char, b: Seq<char>)
    requires
        a.len() > 0,
        a[a.len() - 1] == '.' || a[a.len() - 1] == '!' || a[a.len() - 1] == '?',
        text::is_space(gap),
    ensures
        sentences(a + seq![gap] + b) == sentences(a + seq![' '] + b),
        sentences(a + seq![gap] + b) == sentences(a) + sentences(b),
{
    lemma_cut(a, gap, b);
    lemma_cut(a, ' ', b);
}

/// A text is cut behind a terminator that white space follows.
proof fn lemma_cut(a: Seq<char>, gap: char, b: Seq<char>)
    requires
        a.len() > 0,
        is_terminator(a[a.len() - 1]),
        text::is_space(gap),
    ensures
        sentences(a + seq![gap] + b) == sentences(a) + sentences(b),
{
    let p = a + seq![gap];
    let t = p + b;
    let n = a.len() as int;
    assert(t[n] == gap);
    lemma_cut_from(a, t, 0, 0);
    assert(!ends_at(t, n + 1));
    assert(sentences_from(t, n, n) == sentences_from(t, n, n + 1));
    lemma_skip_space(t, n, n + 1);
    lemma_rest_alone(p, b, 0, 0);
    assert(p.len() == n + 1);
}

proof fn lemma_cut_from(a: Seq<char>, t: Seq<char>, start: int, i: int)
    requires
        0 <= start <= i < a.len() < t.len(),
        forall|k: int| 0 <= k < a.len() ==> #[trigger] t[k] == a[k],
        is_terminator(a[a.len() - 1]),
        text::is_space(t[a.len() as int]),
    ensures
        sentences_from(t, start, i) == sentences_from(a, start, i) + sentences_from(t, a.len() as int, a.len() as int),
    decreases a.len() - i,
{
    let n = a.len() as int;
    let tail = sentences_from(t, n, n);
    assert(t[i] == a[i]);
    if i + 1 < n {
        assert(t[i + 1] == a[i + 1]);
    }
    assert(ends_at(t, i + 1) == ends_at(a, i + 1));
    if ends_at(a, i + 1) {
        assert(t.subrange(start, i + 1) =~= a.subrange(start, i + 1));
        let first = sentence(a.subrange(start, i + 1));
        if i + 1 < n {
            lemma_cut_from(a, t, i + 1, i + 1);
            assert(first + (sentences_from(a, i + 1, i + 1) + tail) =~= first + sentences_from(a, i + 1, i + 1) + tail);
        } else {
            assert(a.subrange(n, n) =~= Seq::<char>::empty());
            assert(sentences_from(a, n, n) =~= Seq::<Seq<char>>::empty());
            assert(first + sentences_from(a, n, n) =~= first);
        }
    } else {
        lemma_cut_from(a, t, start, i + 1);
    }
}

/// Window `k` joins, with single spaces, the `window` units from unit `k * slide` on, or
/// as many as there are. It is the last one exactly where it reaches the last unit, or
/// where there is no unit for the next one to start with.
pub proof fn law_window_holds_its_units(out: Seq<Seq<char>>, units: Seq<Seq<char>>, window: int, slide: int, k: int)
    requires
        window >= 1,
        slide >= 1,
        windows_of(out, units, window, slide),
        0 <= k < out.len(),
    ensures
        k * slide < units.len(),
        k * slide + window < units.len() ==> out[k] == text::joined(
            units.subrange(k * slide, k * slide + window),
            " "@,
        ),
        k * slide + window >= units.len() ==> out[k] == text::joined(
            units.subrange(k * slide, units.len() as int),
            " "@,
        ),
        k == out.len() - 1 <==> k * slide + window >= units.len() || (k + 1) * slide >= units.len(),
{
    let len = units.len() as int;
    assert(starts_inside(len, slide, k));
    assert(out[k] == window_text(units, window, slide, k));
    if k < out.len() - 1 {
        assert(window_end(len, window, slide, k) < len);
        assert(starts_inside(len, slide, k + 1));
    }
}

/// There are windows exactly where there are units.
pub proof fn law_windows_where_units(out: Seq<Seq<char>>, units: Seq<Seq<char>>, window: int, slide: int)
    requires
        window >= 1,
        slide >= 1,
        windows_of(out, units, window, slide),
    ensures
        out.len() == 0 <==> units.len() == 0,
{
    if out.len() > 0 {
        assert(starts_inside(units.len() as int, slide, 0));
        assert(0 * slide == 0) by (nonlinear_arith);
    }
}

/// Sizes of zero count as one, and no other size is changed.
pub proof fn law_sizes_of_zero_count_as_one(n: nat)
    ensures
        at_least_one(n) >= 1,
        n >= 1 ==> at_least_one(n) == n,
{
}

/// Without gaps between windows, every unit is in some window.
pub proof fn law_windows_cover(out: Seq<Seq<char>>, units: Seq<Seq<char>>, window: int, slide: int, j: int)
    requires
        1 <= slide <= window,
        windows_of(out, units, window, slide),
        0 <= j < units.len(),
    ensures
        exists|k: int|
            0 <= k < out.len() && k * slide <= j < #[trigger] window_end(units.len() as int, window, slide, k),
{
    let len = units.len() as int;
    let n = out.len() as int;
    let q = j / slide;
    vstd::arithmetic::div_mod::lemma_fundamental_div_mod(j, slide);
    vstd::arithmetic::div_mod::lemma_mod_bound(j, slide);
    vstd::arithmetic::div_mod::lemma_div_pos_is_pos(j, slide);
    vstd::arithmetic::mul::lemma_mul_is_commutative(slide, q);
    if q < n {
        assert(q * slide <= j < window_end(len, window, slide, q));
    } else {
        assert(n * slide <= q * slide) by (nonlinear_arith)
            requires
                n <= q,
                slide >= 1,
        ;
        assert(n > 0);
        assert((n - 1) * slide <= q * slide) by (nonlinear_arith)
            requires
                n - 1 <= q,
                slide >= 1,
        ;
        assert((n - 1) * slide <= j < window_end(len, window, slide, n - 1));
    }
}

/// Splitting a text: what comes out is the text cut behind every terminator that white
/// space follows, and nowhere else. The sentences are stretches of the text, in order and
/// without white space at their ends; all else is white space; there is some between any
/// two; each but the last ends in a terminator; and no terminator inside of one has white
/// space, be it a space, a tab or a line end, behind it.
pub proof fn law_split_sentences(text: &str, out: Vec<String>)
    requires
        call_ensures(split_sentences, (text,), out),
    ensures
        exists|at: Seq<int>| #[trigger] stand_at(text@, 0, text::texts(out@), at),
        forall|k: int|
            0 <= k < out@.len() ==> (#[trigger] out@[k])@.len() > 0 && !text::is_space(out@[k]@[0]) && !text::is_space(
                out@[k]@[out@[k]@.len() - 1],
            ),
        forall|k: int, i: int|
            #![trigger out@[k]@[i]]
            0 <= k < out@.len() && 0 <= i < out@[k]@.len() - 1 && (out@[k]@[i] == '.' || out@[k]@[i] == '!' || out@[k]@[i]
                == '?') ==> !text::is_space(out@[k]@[i + 1]),
        forall|k: int|
            0 <= k < out@.len() - 1 ==> ({
                let s = (#[trigger] out@[k])@;
                s[s.len() - 1] == '.' || s[s.len() - 1] == '!' || s[s.len() - 1] == '?'
            }),
{
    let r = sentences(text@);
    law_sentences_end_where_white_space_follows(text@);
    assert forall|k: int| 0 <= k < out@.len() implies r[k] == (#[trigger] out@[k])@ by {
        text::law_texts(out@, k);
    }
    assert(out@.len() == r.len());
    assert forall|k: int| 0 <= k < out@.len() implies (#[trigger] out@[k])@.len() > 0 && !text::is_space(out@[k]@[0])
        && !text::is_space(out@[k]@[out@[k]@.len() - 1]) by {
        law_sentences_are_trimmed(text@, k);
        assert(r[k] == out@[k]@);
    }
    assert forall|k: int, i: int|
        #![trigger out@[k]@[i]]
        0 <= k < out@.len() && 0 <= i < out@[k]@.len() - 1 && (out@[k]@[i] == '.' || out@[k]@[i] == '!' || out@[k]@[i]
            == '?') implies !text::is_space(out@[k]@[i + 1]) by {
        assert(r[k] == out@[k]@);
        assert(r[k][i] == out@[k]@[i]);
    }
    assert forall|k: int| 0 <= k < out@.len() - 1 implies ({
        let s = (#[trigger] out@[k])@;
        s[s.len() - 1] == '.' || s[s.len() - 1] == '!' || s[s.len() - 1] == '?'
    }) by {
        assert(r[k] == out@[k]@);
    }
}

/// Splitting two texts that stand behind each other: where the first ends in a terminator
/// and any white space is between them, the sentences are those of the first and then
/// those of the second.
pub proof fn law_split_at_any_white_space(
    whole: &str,
    a: &str,
    gap: char,
    b: &str,
    out: Vec<String>,
    first: Vec<String>,
    second: Vec<String>,
)
    requires
        a@.len() > 0,
        a@[a@.len() - 1] == '.' || a@[a@.len() - 1] == '!' || a@[a@.len() - 1] == '?',
        gap == ' ' || gap == '\t' || gap == '\n' || gap == '\r' || text::is_space(gap),
        whole@ == a@ + seq![gap] + b@,
        call_ensures(split_sentences, (whole,), out),
        call_ensures(split_sentences, (a,), first),
        call_ensures(split_sentences, (b,), second),
    ensures
        text::texts(out@) == text::texts(first@) + text::texts(second@),
{
    text::law_white_space(gap);
    law_any_white_space_separates(a@, gap, b@);
}

/// Windows over a list: window `k` joins, with single spaces, the units from unit
/// `k * slide` on, `window` of them or as many as there are; sizes of zero count as one;
/// the last window is the first one that reaches the last unit, or the last one that has a
/// unit to start with.
pub proof fn law_sliding_windows(units: &[String], window_size: usize, sliding_size: usize, out: Vec<String>, k: int)
    requires
        call_ensures(sliding_windows, (units, window_size, sliding_size), out),
    ensures
        out@.len() == 0 <==> units@.len() == 0,
        0 <= k < out@.len() ==> ({
            let window = if window_size == 0 {
                1int
            } else {
                window_size as int
            };
            let slide = if sliding_size == 0 {
                1int
            } else {
                sliding_size as int
            };
            let from = k * slide;
            let to = if from + window < units@.len() {
                from + window
            } else {
                units@.len() as int
            };
            &&& from < units@.len()
            &&& out@[k]@ == text::joined(text::texts(units@).subrange(from, to), " "@)
            &&& k == out@.len() - 1 <==> from + window >= units@.len() || from + slide >= units@.len()
        }),
{
    let window = at_least_one(window_size as nat) as int;
    let slide = at_least_one(sliding_size as nat) as int;
    law_sizes_of_zero_count_as_one(window_size as nat);
    law_sizes_of_zero_count_as_one(sliding_size as nat);
    let (o, u) = (text::texts(out@), text::texts(units@));
    law_windows_where_units(o, u, window, slide);
    assert(o.len() == out@.len() && u.len() == units@.len());
    if 0 <= k < out@.len() {
        law_window_holds_its_units(o, u, window, slide, k);
        assert(o[k] == out@[k]@);
        assert((k + 1) * slide == k * slide + slide) by (nonlinear_arith);
    }
}

proof fn lemma_windows_are_determined(a: Seq<Seq<char>>, b: Seq<Seq<char>>, units: Seq<Seq<char>>, window: int, slide: int)
    requires
        window >= 1,
        slide >= 1,
        windows_of(a, units, window, slide),
        windows_of(b, units, window, slide),
    ensures
        a == b,
{
    law_windows_where_units(a, units, window, slide);
    law_windows_where_units(b, units, window, slide);
    if units.len() > 0 {
        let k = if a.len() <= b.len() {
            a.len() - 1
        } else {
            b.len() - 1
        };
        law_window_holds_its_units(a, units, window, slide, k);
        law_window_holds_its_units(b, units, window, slide, k);
        assert(a.len() == b.len());
        assert forall|i: int| 0 <= i < a.len() implies a[i] == b[i] by {
            law_window_holds_its_units(a, units, window, slide, i);
            law_window_holds_its_units(b, units, window, slide, i);
        }
    }
    assert(a =~= b);
}

/// Chunking a document is splitting it into sentences and laying windows over them.
pub proof fn law_chunk_document(
    text: &str,
    window_size: usize,
    sliding_size: usize,
    out: Vec<String>,
    found: Vec<String>,
    units: &[String],
    windows: Vec<String>,
)
    requires
        call_ensures(chunk_document, (text, window_size, sliding_size), out),
        call_ensures(split_sentences, (text,), found),
        units@ == found@,
        call_ensures(sliding_windows, (units, window_size, sliding_size), windows),
    ensures
        text::texts(out@) == text::texts(windows@),
{
    law_sizes_of_zero_count_as_one(window_size as nat);
    law_sizes_of_zero_count_as_one(sliding_size as nat);
    lemma_windows_are_determined(
        text::texts(out@),
        text::texts(windows@),
        sentences(text@),
        at_least_one(window_size as nat) as int,
        at_least_one(sliding_size as nat) as int,
    );
}

/// No full stop, exclamation mark or question mark inside of a sentence has white space
/// behind it: no space, tab, line end or any other character that counts as such.
pub proof fn law_no_terminator_before_white_space(text: &str, out: Vec<String>, k: int, i: int)
    requires
        call_ensures(split_sentences, (text,), out),
        0 <= k < out@.len(),
        0 <= i < out@[k]@.len() - 1,
        out@[k]@[i] == '.' || out@[k]@[i] == '!' || out@[k]@[i] == '?',
    ensures
        ({
            let c = out@[k]@[i + 1];
            let u = c as u32;
            &&& c != ' ' && c != '\t' && c != '\n' && c != '\r'
            &&& !(0x9 <= u <= 0xd) && u != 0x20 && u != 0x85 && u != 0xa0 && u != 0x1680
            &&& !(0x2000 <= u <= 0x200a) && u != 0x2028 && u != 0x2029 && u != 0x202f && u != 0x205f && u != 0x3000
        }),
{
    law_split_sentences(text, out);
    text::law_white_space(out@[k]@[i + 1]);
}

} // verus!
