//! Text as sequences of characters.

use vstd::prelude::*;
use vstd::utf8::{decode_utf8, valid_utf8};

verus! {

/// The texts of a list of strings.
pub open spec fn texts(v: Seq<String>) -> Seq<Seq<char>> {
    Seq::new(v.len(), |i: int| v[i]@)
}

/// White space as Unicode defines it.
pub open spec fn is_space(c: char) -> bool {
    let u = c as u32;
    ||| 0x9 <= u <= 0xd
    ||| u == 0x20
    ||| u == 0x85
    ||| u == 0xa0
    ||| u == 0x1680
    ||| 0x2000 <= u <= 0x200a
    ||| u == 0x2028
    ||| u == 0x2029
    ||| u == 0x202f
    ||| u == 0x205f
    ||| u == 0x3000
}

/// Whether `c` is white space.
pub fn is_whitespace(c: char) -> (yes: bool)
    ensures
        yes == is_space(c),
        yes <==> (c == ' ' || c == '\t' || c == '\n' || c == '\r' || c as u32 == 0xb || c as u32 == 0xc || c as u32 == 0x85
            || c as u32 == 0xa0 || c as u32 == 0x1680 || 0x2000 <= c as u32 <= 0x200a || c as u32 == 0x2028 || c as u32
            == 0x2029 || c as u32 == 0x202f || c as u32 == 0x205f || c as u32 == 0x3000),
{
    let u: u32 = c as u32;
    (0x9 <= u && u <= 0xd) || u == 0x20 || u == 0x85 || u == 0xa0 || u == 0x1680 || (0x2000 <= u && u <= 0x200a) || u
        == 0x2028 || u == 0x2029 || u == 0x202f || u == 0x205f || u == 0x3000
}

/// White space is the space, the tab, the line ends and the other blank characters of
/// Unicode; no letter, digit or mark is.
pub proof fn law_white_space(c: char)
    ensures
        is_space(c) <==> (c == ' ' || c == '\t' || c == '\n' || c == '\r' || c as u32 == 0xb || c as u32 == 0xc || c as u32
            == 0x85 || c as u32 == 0xa0 || c as u32 == 0x1680 || 0x2000 <= c as u32 <= 0x200a || c as u32 == 0x2028
            || c as u32 == 0x2029 || c as u32 == 0x202f || c as u32 == 0x205f || c as u32 == 0x3000),
{
}

/// `s` without white space at either end.
pub open spec fn trim(s: Seq<char>) -> Seq<char>
    decreases s.len(),
{
    if s.len() > 0 && is_space(s[0]) {
        trim(s.subrange(1, s.len() as int))
    } else if s.len() > 0 && is_space(s[s.len() - 1]) {
        trim(s.subrange(0, s.len() - 1))
    } else {
        s
    }
}

/// What is left after trimming has no white space at either end.
pub proof fn lemma_trim_ends(s: Seq<char>)
    ensures
        trim(s).len() > 0 ==> !is_space(trim(s)[0]) && !is_space(trim(s)[trim(s).len() - 1]),
        trim(s).len() <= s.len(),
    decreases s.len(),
{
    if s.len() > 0 && is_space(s[0]) {
        lemma_trim_ends(s.subrange(1, s.len() as int));
    } else if s.len() > 0 && is_space(s[s.len() - 1]) {
        lemma_trim_ends(s.subrange(0, s.len() - 1));
    }
}

/// The ends of the range that trimming keeps.
pub fn trim_range(chars: &[char], from: usize, to: usize) -> (r: (usize, usize))
    requires
        from <= to <= chars@.len(),
    ensures
        from <= r.0 <= r.1 <= to,
        chars@.subrange(r.0 as int, r.1 as int) == trim(chars@.subrange(from as int, to as int)),
{
    let mut lo: usize = from;
    let mut hi: usize = to;
    while lo < hi && is_whitespace(chars[lo])
        invariant
            from <= lo <= hi == to <= chars@.len(),
            trim(chars@.subrange(lo as int, hi as int)) == trim(chars@.subrange(from as int, to as int)),
        decreases hi - lo,
    {
        proof {
            let s = chars@.subrange(lo as int, hi as int);
            assert(s[0] == chars@[lo as int]);
            assert(s.subrange(1, s.len() as int) =~= chars@.subrange(lo + 1, hi as int));
        }
        lo = lo + 1;
    }
    assert(lo < hi ==> !is_space(chars@[lo as int]));
    while lo < hi && is_whitespace(chars[hi - 1])
        invariant
            from <= lo <= hi <= to <= chars@.len(),
            lo < hi ==> !is_space(chars@[lo as int]),
            trim(chars@.subrange(lo as int, hi as int)) == trim(chars@.subrange(from as int, to as int)),
        decreases hi - lo,
    {
        proof {
            let s = chars@.subrange(lo as int, hi as int);
            assert(s[0] == chars@[lo as int]);
            assert(s[s.len() - 1] == chars@[hi - 1]);
            assert(s.subrange(0, s.len() - 1) =~= chars@.subrange(lo as int, hi - 1));
        }
        hi = hi - 1;
    }
    proof {
        let s = chars@.subrange(lo as int, hi as int);
        if s.len() > 0 {
            assert(s[0] == chars@[lo as int]);
            assert(s[s.len() - 1] == chars@[hi - 1]);
        }
    }
    (lo, hi)
}

/// The characters of a text.
pub fn chars_of(s: &str) -> (v: Vec<char>)
    ensures
        v@ == s@,
{
    let mut v: Vec<char> = Vec::new();
    for c in it: s.chars()
        invariant
            v@ == it.seq().take(it.index() as int),
            it.seq() == s@,
    {
        v.push(c);
        assert(v@ =~= it.seq().take(it.index() + 1));
    }
    assert(v@ =~= s@);
    v
}

/// Decode bytes with `String::from_utf8`.
///
/// Trusted: there is a text exactly where the bytes are valid UTF-8, and it is the
/// text that these bytes encode.
#[verifier::external_body]
pub(crate) fn utf8_text(bytes: &[u8]) -> (s: Option<String>)
    ensures
        s is Some <==> valid_utf8(bytes@),
        s is Some ==> s->0@ == decode_utf8(bytes@),
{
    String::from_utf8(bytes.to_vec()).ok()
}

/// Collect characters into a string with `String::from_iter`.
///
/// Trusted: the string consists of the given characters, in order.
#[verifier::external_body]
pub(crate) fn string_of(chars: &[char]) -> (s: String)
    ensures
        s@ == chars@,
{
    String::from_iter(chars)
}

/// Whether a list holds a text.
pub fn contains_text(list: &[String], text: &String) -> (found: bool)
    ensures
        found == texts(list@).contains(text@),
{
    let mut i: usize = 0;
    while i < list.len()
        invariant
            i <= list@.len(),
            forall|k: int| 0 <= k < i ==> (#[trigger] texts(list@)[k]) != text@,
        decreases list@.len() - i,
    {
        assert(texts(list@)[i as int] == list@[i as int]@);
        if list[i] == *text {
            return true;
        }
        i = i + 1;
    }
    false
}

/// Texts joined with a separator between neighbours.
pub open spec fn joined(parts: Seq<Seq<char>>, sep: Seq<char>) -> Seq<char>
    decreases parts.len(),
{
    if parts.len() == 0 {
        seq![]
    } else if parts.len() == 1 {
        parts[0]
    } else {
        joined(parts.drop_last(), sep) + sep + parts.last()
    }
}

/// The first text stands in front of the others, with a separator between.
pub proof fn lemma_joined_front(parts: Seq<Seq<char>>, sep: Seq<char>)
    requires
        parts.len() >= 2,
    ensures
        joined(parts, sep) == parts[0] + sep + joined(parts.subrange(1, parts.len() as int), sep),
    decreases parts.len(),
{
    let rest = parts.subrange(1, parts.len() as int);
    let front = parts.drop_last();
    if parts.len() == 2 {
        assert(joined(front, sep) == parts[0]);
        assert(joined(rest, sep) == parts.last());
    } else {
        lemma_joined_front(front, sep);
        assert(front.subrange(1, front.len() as int) =~= rest.drop_last());
        assert(rest.last() == parts.last());
        assert(joined(parts, sep) =~= parts[0] + sep + joined(rest, sep));
    }
}

/// Trimming keeps a range, and nothing but white space is outside of it; it keeps the
/// end of a text that does not end in white space.
pub proof fn lemma_trim_is_range(s: Seq<char>) -> (r: (int, int))
    ensures
        0 <= r.0 <= r.1 <= s.len(),
        trim(s) == s.subrange(r.0, r.1),
        forall|i: int| 0 <= i < r.0 ==> is_space(#[trigger] s[i]),
        forall|i: int| r.1 <= i < s.len() ==> is_space(#[trigger] s[i]),
        s.len() > 0 && !is_space(s[s.len() - 1]) ==> r.0 < r.1 == s.len(),
    decreases s.len(),
{
    if s.len() > 0 && is_space(s[0]) {
        let rest = s.subrange(1, s.len() as int);
        let (a, b) = lemma_trim_is_range(rest);
        assert(rest.subrange(a, b) =~= s.subrange(a + 1, b + 1));
        if rest.len() > 0 {
            assert(rest[rest.len() - 1] == s[s.len() - 1]);
        }
        assert forall|i: int| 0 <= i < a + 1 || b + 1 <= i < s.len() implies is_space(#[trigger] s[i]) by {
            if i > 0 {
                assert(rest[i - 1] == s[i]);
            }
        }
        (a + 1, b + 1)
    } else if s.len() > 0 && is_space(s[s.len() - 1]) {
        let rest = s.subrange(0, s.len() - 1);
        let (a, b) = lemma_trim_is_range(rest);
        assert(rest.subrange(a, b) =~= s.subrange(a, b));
        assert forall|i: int| 0 <= i < a || b <= i < s.len() implies is_space(#[trigger] s[i]) by {
            if i < s.len() - 1 {
                assert(rest[i] == s[i]);
            }
        }
        (a, b)
    } else {
        assert(s.subrange(0, s.len() as int) =~= s);
        (0, s.len() as int)
    }
}

/// Trimming takes white space from both ends, all of it, and nothing else: what is
/// kept is one stretch of the text, all around it is white space, and it does not begin
/// or end with any.
pub proof fn law_trimming_takes_white_space_only(s: Seq<char>)
    ensures
        exists|a: int, b: int|
            0 <= a <= b <= s.len() && #[trigger] s.subrange(a, b) == trim(s) && (forall|i: int|
                0 <= i < a || b <= i < s.len() ==> is_space(#[trigger] s[i])) && (a < b ==> !is_space(s[a]) && !is_space(
                s[b - 1],
            )),
        s.len() > 0 && !is_space(s[0]) && !is_space(s[s.len() - 1]) ==> trim(s) == s,
        trim(s).len() == 0 <==> forall|i: int| 0 <= i < s.len() ==> is_space(#[trigger] s[i]),
{
    let (a, b) = lemma_trim_is_range(s);
    lemma_trim_ends(s);
    if a < b {
        assert(trim(s)[0] == s[a]);
        assert(trim(s)[b - a - 1] == s[b - 1]);
    }
}

/// Joining puts the separator between neighbours: one text stays as it is, and one more
/// text comes behind one more separator.
pub proof fn law_joined(parts: Seq<Seq<char>>, last: Seq<char>, sep: Seq<char>)
    ensures
        joined(Seq::<Seq<char>>::empty(), sep).len() == 0,
        joined(seq![last], sep) == last,
        parts.len() > 0 ==> joined(parts.push(last), sep) == joined(parts, sep) + sep + last,
{
    assert(parts.push(last).drop_last() =~= parts);
}

/// Join the strings `units[from .. to]`.
pub fn join(units: &[String], from: usize, to: usize, sep: &str) -> (s: String)
    requires
        from <= to <= units@.len(),
    ensures
        s@ == joined(texts(units@).subrange(from as int, to as int), sep@),
{
    let mut out: String = String::new();
    let mut i: usize = from;
    let ghost all = texts(units@);
    assert(all.subrange(from as int, from as int) =~= Seq::<Seq<char>>::empty());
    while i < to
        invariant
            from <= i <= to <= units@.len(),
            all == texts(units@),
            out@ == joined(all.subrange(from as int, i as int), sep@),
        decreases to - i,
    {
        proof {
            let next = all.subrange(from as int, i + 1);
            assert(next.drop_last() =~= all.subrange(from as int, i as int));
            assert(next.last() == units@[i as int]@);
        }
        if i > from {
            out.append(sep);
        } else {
            assert(out@ =~= Seq::<char>::empty());
            assert(out@ + units@[i as int]@ =~= units@[i as int]@);
        }
        out.append(units[i].as_str());
        i = i + 1;
    }
    out
}

/// Position of the first `c` from `from` on; the length where there is none.
pub open spec fn first_at(s: Seq<char>, c: char, from: int) -> int
    decreases s.len() - from,
{
    if from >= s.len() {
        s.len() as int
    } else if s[from] == c {
        from
    } else {
        first_at(s, c, from + 1)
    }
}

/// Position of the first `c` from `from` on; the length where there is none.
pub fn find_char(chars: &[char], c: char, from: usize) -> (at: usize)
    requires
        from <= chars@.len(),
    ensures
        at == first_at(chars@, c, from as int),
        from <= at <= chars@.len(),
        forall|i: int| from <= i < at ==> chars@[i] != c,
        at < chars@.len() ==> chars@[at as int] == c,
{
    let mut at: usize = from;
    while at < chars.len() && chars[at] != c
        invariant
            from <= at <= chars@.len(),
            first_at(chars@, c, from as int) == first_at(chars@, c, at as int),
            forall|i: int| from <= i < at ==> chars@[i] != c,
        decreases chars@.len() - at,
    {
        at = at + 1;
    }
    at
}

/// The characters `chars[from .. to]`.
pub fn part(chars: &[char], from: usize, to: usize) -> (out: Vec<char>)
    requires
        from <= to <= chars@.len(),
    ensures
        out@ == chars@.subrange(from as int, to as int),
{
    let mut out: Vec<char> = Vec::with_capacity(to - from);
    let mut i: usize = from;
    while i < to
        invariant
            from <= i <= to <= chars@.len(),
            out@ =~= chars@.subrange(from as int, i as int),
        decreases to - i,
    {
        out.push(chars[i]);
        i = i + 1;
    }
    out
}

/// Whether two character strings are the same.
pub fn same_chars(a: &[char], b: &[char]) -> (same: bool)
    ensures
        same == (a@ == b@),
{
    if a.len() != b.len() {
        return false;
    }
    let mut i: usize = 0;
    while i < a.len()
        invariant
            i <= a@.len() == b@.len(),
            forall|k: int| 0 <= k < i ==> a@[k] == b@[k],
        decreases a@.len() - i,
    {
        if a[i] != b[i] {
            return false;
        }
        i = i + 1;
    }
    proof {
        assert(a@ =~= b@);
    }
    true
}

/// The first position of a character: it stands there and nowhere before, from `from` on;
/// the length means that it stands nowhere.
pub proof fn law_first_position(s: Seq<char>, c: char, from: int)
    requires
        0 <= from <= s.len(),
    ensures
        from <= first_at(s, c, from) <= s.len(),
        forall|i: int| from <= i < first_at(s, c, from) ==> s[i] != c,
        first_at(s, c, from) < s.len() ==> s[first_at(s, c, from)] == c,
    decreases s.len() - from,
{
    if from < s.len() && s[from] != c {
        law_first_position(s, c, from + 1);
    }
}

/// The texts of a list are those of its strings, all of them and in their order.
pub proof fn law_texts(v: Seq<String>, i: int)
    ensures
        texts(v).len() == v.len(),
        0 <= i < v.len() ==> texts(v)[i] == v[i]@,
{
}

} // verus!
