//! Counting behind the relevance metrics: judgements and what a ranking hits.

use vstd::prelude::*;

use crate::bytes::{be_value, get_be, lemma_be_value_bytes, lemma_pow256};
use crate::doc_store::json::{extract_field, field_views, lookup, DocumentField, FieldView};
use crate::doc_store::schema::{IndexType, IndexValue};
use crate::numbers::{parse_i64, parsed_i64};
use crate::sorting::{is_permutation, sorted_positions, Ranking};
use crate::text::{chars_of, find_char, first_at, law_first_position, part, string_of, trim, trim_range};

verus! {

/// Places that the gain and the first hit are counted over.
pub const NDCG_K: usize = 10;

/// Places that the recall is counted over.
pub const RECALL_K: usize = 100;

/// A document judged relevant for a query.
#[derive(Debug, Clone)]
pub struct Judgement {
    pub query: String,
    pub document: String,
    /// Degree of relevance.
    pub grade: u32,
}

/// Column `k` of a line, counted from the position `from`.
pub open spec fn column(line: Seq<char>, from: int, k: nat) -> Option<Seq<char>>
    decreases k,
{
    if !(0 <= from <= line.len()) {
        None
    } else {
        let end = first_at(line, '\t', from);
        if k == 0 {
            Some(line.subrange(from, end))
        } else if end < line.len() {
            column(line, end + 1, (k - 1) as nat)
        } else {
            None
        }
    }
}

/// The grade in the third column; zero where there is no number.
pub open spec fn grade_of(text: Seq<char>) -> i64 {
    match parsed_i64(trim(text)) {
        Some(n) => n,
        None => 0,
    }
}

/// The line has three columns and a grade above zero.
pub open spec fn is_judgement(line: Seq<char>) -> bool {
    column(line, 0, 2) is Some && grade_of(column(line, 0, 2)->0) > 0
}

/// Reads a line of a judgement file: query, document and grade between tabs. There
/// is a judgement where the grade is a number above zero.
pub fn parse_judgement(line: &str) -> (j: Option<Judgement>)
    ensures
        j is Some <==> is_judgement(line@),
        j is Some ==> Some(j->0.query@) == column(line@, 0, 0),
        j is Some ==> Some(j->0.document@) == column(line@, 0, 1),
        j is Some ==> j->0.grade == grade_of(column(line@, 0, 2)->0) % 0x1_0000_0000,
{
    let chars = chars_of(line);
    let n: usize = chars.len();
    let a: usize = find_char(chars.as_slice(), '\t', 0);
    proof {
        reveal_with_fuel(column, 3);
    }
    if a >= n {
        return None;
    }
    let b: usize = find_char(chars.as_slice(), '\t', a + 1);
    if b >= n {
        return None;
    }
    let c: usize = find_char(chars.as_slice(), '\t', b + 1);
    let (lo, hi) = trim_range(chars.as_slice(), b + 1, c);
    let digits = part(chars.as_slice(), lo, hi);
    let score: i64 = match parse_i64(digits.as_slice()) {
        Some(s) => s,
        None => 0,
    };
    if score <= 0 {
        return None;
    }
    let query = part(chars.as_slice(), 0, a);
    let document = part(chars.as_slice(), a + 1, b);
    Some(
        Judgement {
            query: string_of(query.as_slice()),
            document: string_of(document.as_slice()),
            grade: (score % 0x1_0000_0000) as u32,
        },
    )
}

/// A graded document.
#[derive(Debug, Clone)]
pub struct Graded {
    pub document: String,
    pub grade: u32,
}

/// The grade of a document; none where it was not judged relevant.
pub open spec fn grade_in(rels: Seq<Graded>, document: Seq<char>) -> Option<u32>
    decreases rels.len(),
{
    if rels.len() == 0 {
        None
    } else if rels.last().document@ == document {
        Some(rels.last().grade)
    } else {
        grade_in(rels.drop_last(), document)
    }
}

fn find_grade(rels: &[Graded], document: &String) -> (g: Option<u32>)
    ensures
        g == grade_in(rels@, document@),
{
    let mut i: usize = rels.len();
    proof {
        assert(rels@.take(i as int) =~= rels@);
    }
    while i > 0
        invariant
            i <= rels@.len(),
            grade_in(rels@, document@) == grade_in(rels@.take(i as int), document@),
        decreases i,
    {
        proof {
            assert(rels@.take(i as int).drop_last() =~= rels@.take(i - 1));
            assert(rels@.take(i as int).last() == rels@[i - 1]);
        }
        if rels[i - 1].document == *document {
            return Some(rels[i - 1].grade);
        }
        i = i - 1;
    }
    None
}

/// Number of relevant documents on the first `n` places.
pub open spec fn hits(ranked: Seq<String>, rels: Seq<Graded>, n: int) -> nat
    decreases n,
{
    if n <= 0 {
        0
    } else {
        hits(ranked, rels, n - 1) + if grade_in(rels, ranked[n - 1]@) is Some {
            1nat
        } else {
            0nat
        }
    }
}

/// What a ranking hits.
pub struct RankingCounts {
    /// Grades on the first [`NDCG_K`] places; zero where the document is not relevant.
    pub gains: Vec<u32>,
    /// All grades, the highest first: the gains of the best ranking.
    pub ideal: Vec<u32>,
    /// Place of the first relevant document among the first [`NDCG_K`], from zero.
    pub first_hit: Option<usize>,
    /// Relevant documents among the first [`RECALL_K`].
    pub hits_at_recall: usize,
    /// Relevant documents among all.
    pub hits_at_all: usize,
}

/// The smaller number.
pub open spec fn at_most(n: nat, k: nat) -> nat {
    if n < k {
        n
    } else {
        k
    }
}

struct ByGrade<'a> {
    rels: &'a [Graded],
}

impl<'a> Ranking for ByGrade<'a> {
    closed spec fn size(&self) -> nat {
        self.rels@.len()
    }

    closed spec fn before(&self, a: int, b: int) -> bool {
        self.rels@[a].grade > self.rels@[b].grade
    }

    proof fn lemma_not_after(&self, a: int, b: int, c: int) {
    }

    proof fn lemma_one_way(&self, a: int, b: int) {
    }

    fn is_before(&self, a: usize, b: usize) -> bool {
        self.rels[a].grade > self.rels[b].grade
    }
}

/// `grades` are the grades of `rels`, the highest first.
pub open spec fn is_ideal(grades: Seq<u32>, rels: Seq<Graded>) -> bool {
    &&& forall|i: int, j: int| 0 <= i < j < grades.len() ==> #[trigger] grades[i] >= #[trigger] grades[j]
    &&& exists|order: Seq<usize>|
        {
            &&& #[trigger] is_permutation(order, rels.len())
            &&& grades == Seq::new(order.len(), |i: int| rels[order[i] as int].grade)
        }
}

fn ideal_grades(rels: &[Graded]) -> (grades: Vec<u32>)
    ensures
        is_ideal(grades@, rels@),
{
    let by = ByGrade { rels };
    let order = sorted_positions(&by, rels.len());
    let mut grades: Vec<u32> = Vec::with_capacity(order.len());
    let mut i: usize = 0;
    while i < order.len()
        invariant
            i <= order@.len(),
            is_permutation(order@, rels@.len()),
            grades@.len() == i,
            forall|k: int| 0 <= k < i ==> #[trigger] grades@[k] == rels@[order@[k] as int].grade,
        decreases order@.len() - i,
    {
        grades.push(rels[order[i]].grade);
        i = i + 1;
    }
    proof {
        assert(grades@ =~= Seq::new(order@.len(), |i: int| rels@[order@[i] as int].grade));
        assert forall|i: int, j: int| 0 <= i < j < grades@.len() implies #[trigger] grades@[i] >= #[trigger] grades@[j] by {
            assert(!by.before(order@[j] as int, order@[i] as int));
        }
        assert(is_permutation(order@, rels@.len()));
    }
    grades
}

/// Counts what the ranking `ranked` hits of the relevant documents.
pub fn count_hits(ranked: &[String], rels: &[Graded]) -> (c: RankingCounts)
    ensures
        c.gains@ == Seq::new(
            at_most(ranked@.len(), NDCG_K as nat),
            |i: int|
                match grade_in(rels@, ranked@[i]@) {
                    Some(g) => g,
                    None => 0u32,
                },
        ),
        is_ideal(c.ideal@, rels@),
        c.first_hit matches Some(p) ==> p < at_most(ranked@.len(), NDCG_K as nat) && grade_in(rels@, ranked@[p as int]@)
            is Some && hits(ranked@, rels@, p as int) == 0,
        c.first_hit is None ==> hits(ranked@, rels@, at_most(ranked@.len(), NDCG_K as nat) as int) == 0,
        c.hits_at_recall == hits(ranked@, rels@, at_most(ranked@.len(), RECALL_K as nat) as int),
        c.hits_at_all == hits(ranked@, rels@, ranked@.len() as int),
{
    let mut gains: Vec<u32> = Vec::new();
    let mut first_hit: Option<usize> = None;
    let mut at_recall: usize = 0;
    let mut at_all: usize = 0;
    let mut i: usize = 0;
    while i < ranked.len()
        invariant
            i <= ranked@.len(),
            gains@.len() == at_most(i as nat, NDCG_K as nat),
            forall|k: int|
                0 <= k < gains@.len() ==> #[trigger] gains@[k] == (match grade_in(rels@, ranked@[k]@) {
                    Some(g) => g,
                    None => 0u32,
                }),
            first_hit matches Some(p) ==> p < i && p < NDCG_K && grade_in(rels@, ranked@[p as int]@) is Some && hits(
                ranked@,
                rels@,
                p as int,
            ) == 0,
            first_hit is None ==> hits(ranked@, rels@, at_most(i as nat, NDCG_K as nat) as int) == 0,
            at_recall == hits(ranked@, rels@, at_most(i as nat, RECALL_K as nat) as int),
            at_all == hits(ranked@, rels@, i as int),
            at_recall <= i,
            at_all <= i,
        decreases ranked@.len() - i,
    {
        let found: Option<u32> = find_grade(rels, &ranked[i]);
        let hit: bool = found.is_some();
        if i < NDCG_K {
            match found {
                Some(g) => {
                    gains.push(g);
                },
                None => {
                    gains.push(0);
                },
            }
            if hit && first_hit.is_none() {
                first_hit = Some(i);
            }
        }
        if hit {
            if i < RECALL_K {
                at_recall = at_recall + 1;
            }
            at_all = at_all + 1;
        }
        i = i + 1;
    }
    let ideal = ideal_grades(rels);
    RankingCounts { gains, ideal, first_hit, hits_at_recall: at_recall, hits_at_all: at_all }
}

/// The number of a document: its eight key bytes, big-endian.
pub fn doc_u64(id: &[u8]) -> (n: u64)
    requires
        id@.len() == 8,
    ensures
        n == be_value(id@),
{
    proof {
        lemma_be_value_bytes(id@);
        lemma_pow256();
    }
    get_be(id) as u64
}

/// The text of a field without white space at its ends; empty where there is no
/// such text.
pub open spec fn trimmed_field(fields: Seq<(Seq<char>, FieldView)>, key: Seq<char>) -> Seq<char> {
    match lookup(fields, key) {
        Some(FieldView::Text(s)) => trim(s),
        _ => seq![],
    }
}

/// The text of a field without white space at its ends; empty where there is no
/// such text.
pub fn str_field(fields: &[DocumentField], key: &String) -> (text: String)
    ensures
        text@ == trimmed_field(field_views(fields@), key@),
{
    match extract_field(fields, key, IndexType::Str) {
        Some(IndexValue::Str(s)) => {
            let chars = chars_of(s.as_str());
            let (lo, hi) = trim_range(chars.as_slice(), 0, chars.len());
            let kept = part(chars.as_slice(), lo, hi);
            proof {
                assert(chars@.subrange(0, chars@.len() as int) =~= chars@);
            }
            string_of(kept.as_slice())
        },
        _ => String::new(),
    }
}

/// The body of a corpus document: its text behind its title, where it has one.
pub fn corpus_body(title: &String, text: &String) -> (body: String)
    ensures
        body@ == if title@.len() == 0 {
            text@
        } else {
            title@ + ". "@ + text@
        },
{
    if title.as_str().is_empty() {
        text.clone()
    } else {
        let mut body: String = title.clone();
        body.append(". ");
        body.append(text.as_str());
        body
    }
}

/// Columns stand between tabs: the first one ends at the first tab, and the others are
/// those of what stands behind it. A line without a tab is one column.
pub proof fn law_columns_stand_between_tabs(first: Seq<char>, rest: Seq<char>, k: nat)
    requires
        forall|i: int| 0 <= i < first.len() ==> #[trigger] first[i] != '\t',
    ensures
        column(first + seq!['\t'] + rest, 0, 0) == Some(first),
        column(first + seq!['\t'] + rest, 0, k + 1) == column(rest, 0, k),
        column(first, 0, 0) == Some(first),
        column(first, 0, k + 1) is None,
{
    let line = first + seq!['\t'] + rest;
    let n = first.len() as int;
    law_first_position(line, '\t', 0);
    law_first_position(first, '\t', 0);
    assert(line[n] == '\t');
    let end = first_at(line, '\t', 0);
    if end < n {
        assert(line[end] == first[end]);
    }
    assert(line.subrange(0, n) =~= first);
    let whole = first_at(first, '\t', 0);
    if whole < n {
        assert(first[whole] != '\t');
    }
    assert(first.subrange(0, n) =~= first);
    lemma_columns_behind(first + seq!['\t'], rest, 0, k);
    assert((first + seq!['\t']).len() == n + 1);
}

proof fn lemma_columns_behind(head: Seq<char>, rest: Seq<char>, from: int, k: nat)
    requires
        0 <= from <= rest.len(),
    ensures
        column(head + rest, head.len() + from, k) == column(rest, from, k),
    decreases k,
{
    let (line, n) = (head + rest, head.len() as int);
    law_first_position(line, '\t', n + from);
    law_first_position(rest, '\t', from);
    let (a, b) = (first_at(line, '\t', n + from), first_at(rest, '\t', from));
    if a < n + b {
        assert(line[a] == rest[a - n]);
    } else if n + b < a {
        assert(line[n + b] == rest[b]);
    }
    assert(line.subrange(n + from, a) =~= rest.subrange(from, b));
    if k > 0 && b < rest.len() {
        lemma_columns_behind(head, rest, b + 1, (k - 1) as nat);
    }
}

/// A line is a judgement exactly where its third column, white space at its ends aside, is
/// a number above zero.
pub proof fn law_judgements(line: Seq<char>, grade: Seq<char>)
    requires
        column(line, 0, 2) == Some(grade),
    ensures
        is_judgement(line) <==> parsed_i64(trim(grade)) is Some && parsed_i64(trim(grade))->0 > 0,
        is_judgement(line) ==> grade_of(grade) == parsed_i64(trim(grade))->0,
{
}

/// A line without a third column is none.
pub proof fn law_short_lines_are_no_judgements(line: Seq<char>)
    requires
        column(line, 0, 2) is None,
    ensures
        !is_judgement(line),
{
}

/// The grade of a document is the last one it was given; it has none exactly where it was
/// given none.
pub proof fn law_last_grade_counts(rels: Seq<Graded>, document: Seq<char>, g: Graded)
    ensures
        grade_in(Seq::<Graded>::empty(), document) is None,
        g.document@ == document ==> grade_in(rels.push(g), document) == Some(g.grade),
        g.document@ != document ==> grade_in(rels.push(g), document) == grade_in(rels, document),
{
    assert(rels.push(g).drop_last() =~= rels);
}

/// Hits are counted over the first places: each document with a grade is one, whatever
/// the grade.
pub proof fn law_hits_are_graded_documents(ranked: Seq<String>, rels: Seq<Graded>, n: int)
    requires
        0 <= n <= ranked.len(),
    ensures
        hits(ranked, rels, n) == ranked.take(n).filter(|d: String| grade_in(rels, d@) is Some).len(),
        n < ranked.len() ==> hits(ranked, rels, n + 1) == hits(ranked, rels, n) + if grade_in(rels, ranked[n]@) is Some {
            1int
        } else {
            0int
        },
    decreases n,
{
    reveal(Seq::filter);
    if n > 0 {
        law_hits_are_graded_documents(ranked, rels, n - 1);
        assert(ranked.take(n).drop_last() =~= ranked.take(n - 1));
        assert(ranked.take(n).last() == ranked[n - 1]);
    }
}

/// The gain is counted over ten places and the recall over a hundred, or over as many as
/// there are.
pub proof fn law_places_that_count(n: nat)
    ensures
        n <= 10 ==> at_most(n, NDCG_K as nat) == n,
        n >= 10 ==> at_most(n, NDCG_K as nat) == 10,
        n <= 100 ==> at_most(n, RECALL_K as nat) == n,
        n >= 100 ==> at_most(n, RECALL_K as nat) == 100,
{
}

/// The ideal ranking has every grade once for each document that has it, the highest
/// first.
pub proof fn law_ideal_has_every_grade(grades: Seq<u32>, rels: Seq<Graded>)
    requires
        is_ideal(grades, rels),
    ensures
        grades.len() == rels.len(),
        forall|i: int, j: int| 0 <= i < j < grades.len() ==> #[trigger] grades[i] >= #[trigger] grades[j],
        exists|from: Seq<int>|
            from.len() == rels.len() && from.no_duplicates() && forall|i: int|
                0 <= i < from.len() ==> 0 <= #[trigger] from[i] < rels.len() && grades[i] == rels[from[i]].grade,
{
    let order = choose|order: Seq<usize>|
        {
            &&& #[trigger] is_permutation(order, rels.len())
            &&& grades == Seq::new(order.len(), |i: int| rels[order[i] as int].grade)
        };
    let from = Seq::new(order.len(), |i: int| order[i] as int);
    assert(from.no_duplicates()) by {
        assert forall|i: int, j: int| 0 <= i < from.len() && 0 <= j < from.len() && i != j implies from[i] != from[j] by {
            assert(order[i] != order[j]);
        }
    }
    assert forall|i: int| 0 <= i < from.len() implies 0 <= #[trigger] from[i] < rels.len() && grades[i]
        == rels[from[i]].grade by {
        assert(order[i] < rels.len());
    }
}

/// The text of a field is trimmed; where the field is missing or is no text there is none.
pub proof fn law_trimmed_texts(fields: Seq<(Seq<char>, FieldView)>, key: Seq<char>, text: Seq<char>)
    ensures
        lookup(fields, key) == Some(FieldView::Text(text)) ==> trimmed_field(fields, key) == trim(text),
        !(lookup(fields, key) matches Some(FieldView::Text(_))) ==> trimmed_field(fields, key).len() == 0,
{
}

/// A judgement of a line: its query and its document are the first two columns, and it is
/// one exactly where the third, trimmed, is a number above zero.
pub proof fn law_judgement_of_a_line(
    line: &str,
    j: Option<Judgement>,
    query: Seq<char>,
    document: Seq<char>,
    grade: Seq<char>,
)
    requires
        line@ == query + seq!['\t'] + (document + seq!['\t'] + grade),
        forall|i: int| 0 <= i < query.len() ==> #[trigger] query[i] != '\t',
        forall|i: int| 0 <= i < document.len() ==> #[trigger] document[i] != '\t',
        forall|i: int| 0 <= i < grade.len() ==> #[trigger] grade[i] != '\t',
        call_ensures(parse_judgement, (line,), j),
    ensures
        j is Some <==> parsed_i64(trim(grade)) is Some && parsed_i64(trim(grade))->0 > 0,
        j is Some ==> j->0.query@ == query && j->0.document@ == document,
        j is Some && parsed_i64(trim(grade))->0 <= u32::MAX ==> j->0.grade == parsed_i64(trim(grade))->0,
{
    let rest = document + seq!['\t'] + grade;
    law_columns_stand_between_tabs(query, rest, 0);
    law_columns_stand_between_tabs(query, rest, 1);
    law_columns_stand_between_tabs(document, grade, 0);
    law_columns_stand_between_tabs(grade, Seq::empty(), 0);
    assert(column(line@, 0, 1) == Some(document));
    assert(column(line@, 0, 2) == Some(grade));
    law_judgements(line@, grade);
}

/// The counts of a ranking: the gains are the grades of the first ten, zero for a document
/// without one; the hits are the ranked documents that have a grade, among the first
/// hundred and among all; the first hit is the first of the first ten with a grade.
pub proof fn law_counts_of_a_ranking(ranked: &[String], rels: &[Graded], c: RankingCounts, i: int, first: int)
    requires
        call_ensures(count_hits, (ranked, rels), c),
        0 <= i < ranked@.len(),
        i < 10,
    ensures
        c.gains@.len() == if ranked@.len() < 10 {
            ranked@.len()
        } else {
            10
        },
        grade_in(rels@, ranked@[i]@) matches Some(g) ==> c.gains@[i] == g,
        grade_in(rels@, ranked@[i]@) is None ==> c.gains@[i] == 0,
        c.hits_at_all == ranked@.filter(|d: String| grade_in(rels@, d@) is Some).len(),
        ranked@.len() >= 100 ==> c.hits_at_recall == ranked@.take(100).filter(|d: String| grade_in(rels@, d@) is Some).len(),
        ranked@.len() <= 100 ==> c.hits_at_recall == c.hits_at_all,
        c.ideal@.len() == rels@.len(),
        forall|a: int, b: int| 0 <= a < b < c.ideal@.len() ==> #[trigger] c.ideal@[a] >= #[trigger] c.ideal@[b],
        c.first_hit is None ==> grade_in(rels@, ranked@[i]@) is None,
        c.first_hit matches Some(p) ==> p < 10 && p < ranked@.len() && grade_in(rels@, ranked@[p as int]@) is Some && (i
            < p ==> grade_in(rels@, ranked@[i]@) is None),
{
    law_places_that_count(ranked@.len());
    law_hits_are_graded_documents(ranked@, rels@, ranked@.len() as int);
    assert(ranked@.take(ranked@.len() as int) =~= ranked@);
    if ranked@.len() >= 100 {
        law_hits_are_graded_documents(ranked@, rels@, 100);
    }
    law_ideal_has_every_grade(c.ideal@, rels@);
    match c.first_hit {
        Some(p) => {
            if i < p {
                lemma_no_hits_before(ranked@, rels@, p as int, i);
            }
        },
        None => lemma_no_hits_before(ranked@, rels@, at_most(ranked@.len(), NDCG_K as nat) as int, i),
    }
}

/// Where there are no hits among the first ones, none of them has a grade.
proof fn lemma_no_hits_before(ranked: Seq<String>, rels: Seq<Graded>, n: int, i: int)
    requires
        0 <= i < n,
        hits(ranked, rels, n) == 0,
    ensures
        grade_in(rels, ranked[i]@) is None,
    decreases n,
{
    if i < n - 1 {
        lemma_no_hits_before(ranked, rels, n - 1, i);
    }
}

/// The texts of a corpus: a field is its text, trimmed, or nothing; the body is the text,
/// behind the title and a full stop where there is a title. An identifier of eight bytes is
/// the number that they hold, the highest first.
pub proof fn law_corpus_texts(
    fields: &[DocumentField],
    key: &String,
    text: String,
    t: Seq<char>,
    title: &String,
    body: &String,
    whole: String,
    id: &[u8],
    n: u64,
)
    requires
        call_ensures(str_field, (fields, key), text),
        call_ensures(corpus_body, (title, body), whole),
        id@.len() == 8,
        call_ensures(doc_u64, (id,), n),
    ensures
        lookup(field_views(fields@), key@) == Some(FieldView::Text(t)) ==> text@ == trim(t),
        !(lookup(field_views(fields@), key@) matches Some(FieldView::Text(_))) ==> text@.len() == 0,
        title@.len() == 0 ==> whole@ == body@,
        title@.len() > 0 ==> whole@ == title@ + seq!['.', ' '] + body@,
        n == be_value(id@),
{
    law_trimmed_texts(field_views(fields@), key@, t);
    reveal_strlit(". ");
    assert(". "@ =~= seq!['.', ' ']);
}

} // verus!
