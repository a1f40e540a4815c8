//! Records of the form `name=value,name=value`.

use vstd::prelude::*;
use vstd::utf8::{decode_utf8, valid_utf8};

use super::schema::IndexValue;
use crate::numbers::{parse_i64, parsed_i64};
use crate::text::{chars_of, find_char, first_at, law_first_position, part, same_chars, string_of, utf8_text};

verus! {

/// `s` starts with `head`.
pub open spec fn starts_with(s: Seq<char>, head: Seq<char>) -> bool {
    head.len() <= s.len() && s.subrange(0, head.len() as int) == head
}

/// The first piece between commas, from `from` on, that starts with `field`.
pub open spec fn piece_of(s: Seq<char>, field: Seq<char>, from: int) -> Option<Seq<char>>
    decreases s.len() - from,
{
    if !(0 <= from <= s.len()) {
        None
    } else {
        let end = first_at(s, ',', from);
        let piece = s.subrange(from, end);
        if starts_with(piece, field) {
            Some(piece)
        } else if from <= end < s.len() {
            piece_of(s, field, end + 1)
        } else {
            None
        }
    }
}

/// What stands behind the first equals sign.
pub open spec fn after_equals(piece: Seq<char>) -> Option<Seq<char>> {
    let e = first_at(piece, '=', 0);
    if e < piece.len() {
        Some(piece.subrange(e + 1, piece.len() as int))
    } else {
        None
    }
}

/// The value of `field` in a record; the first piece that starts with the name counts.
pub open spec fn value_of(s: Seq<char>, field: Seq<char>) -> Option<Seq<char>> {
    match piece_of(s, field, 0) {
        Some(piece) => after_equals(piece),
        None => None,
    }
}

/// The value of `field` in stored bytes.
pub open spec fn stored_value(bytes: Seq<u8>, field: Seq<char>) -> Option<Seq<char>> {
    if valid_utf8(bytes) {
        value_of(decode_utf8(bytes), field)
    } else {
        None
    }
}

fn find_value(bytes: &[u8], field: &str) -> (v: Option<Vec<char>>)
    ensures
        v is Some <==> stored_value(bytes@, field@) is Some,
        v is Some ==> Some(v->0@) == stored_value(bytes@, field@),
{
    let chars: Vec<char> = match utf8_text(bytes) {
        Some(text) => chars_of(text.as_str()),
        None => {
            return None;
        },
    };
    let name = chars_of(field);
    let mut from: usize = 0;
    loop
        invariant
            valid_utf8(bytes@),
            chars@ == decode_utf8(bytes@),
            name@ == field@,
            from <= chars.len(),
            piece_of(chars@, field@, 0) == piece_of(chars@, field@, from as int),
        decreases chars@.len() - from,
    {
        let end: usize = find_char(chars.as_slice(), ',', from);
        let piece = part(chars.as_slice(), from, end);
        let mut found: bool = false;
        if name.len() <= piece.len() {
            let head = part(piece.as_slice(), 0, name.len());
            found = same_chars(head.as_slice(), name.as_slice());
        }
        if found {
            let e: usize = find_char(piece.as_slice(), '=', 0);
            if e < piece.len() {
                return Some(part(piece.as_slice(), e + 1, piece.len()));
            }
            return None;
        }
        if end >= chars.len() {
            return None;
        }
        from = end + 1;
    }
}

/// The text value of `field`.
pub fn extract_str(field: &str, bytes: &[u8]) -> (v: Option<IndexValue>)
    ensures
        v is Some <==> stored_value(bytes@, field@) is Some,
        v is Some ==> (v->0 matches IndexValue::Str(s) && Some(s@) == stored_value(bytes@, field@)),
{
    match find_value(bytes, field) {
        Some(chars) => Some(IndexValue::Str(string_of(chars.as_slice()))),
        None => None,
    }
}

/// The integer value of `field`, where it is one.
pub fn extract_int(field: &str, bytes: &[u8]) -> (v: Option<IndexValue>)
    ensures
        v is Some <==> stored_value(bytes@, field@) is Some && parsed_i64(stored_value(bytes@, field@)->0) is Some,
        v is Some ==> (v->0 matches IndexValue::Int(n) && Some(n) == parsed_i64(stored_value(bytes@, field@)->0)),
{
    match find_value(bytes, field) {
        Some(chars) => match parse_i64(chars.as_slice()) {
            Some(n) => Some(IndexValue::Int(n)),
            None => None,
        },
        None => None,
    }
}

/// The truth value of `field`, where it is `true` or `false`.
pub fn extract_bool(field: &str, bytes: &[u8]) -> (v: Option<IndexValue>)
    ensures
        v is Some <==> stored_value(bytes@, field@) is Some && (stored_value(bytes@, field@)->0 == "true"@
            || stored_value(bytes@, field@)->0 == "false"@),
        v is Some ==> (v->0 matches IndexValue::Bool(b) && (b <==> stored_value(bytes@, field@)->0 == "true"@)),
{
    match find_value(bytes, field) {
        Some(chars) => {
            let (yes, no) = (chars_of("true"), chars_of("false"));
            if same_chars(chars.as_slice(), yes.as_slice()) {
                Some(IndexValue::Bool(true))
            } else if same_chars(chars.as_slice(), no.as_slice()) {
                Some(IndexValue::Bool(false))
            } else {
                None
            }
        },
        None => None,
    }
}

/// No comma stands in the piece.
pub open spec fn without_comma(piece: Seq<char>) -> bool {
    forall|i: int| 0 <= i < piece.len() ==> #[trigger] piece[i] != ','
}

/// The value of a pair is all that stands behind its first equals sign; without one it
/// has none.
pub proof fn law_value_of_a_pair(name: Seq<char>, value: Seq<char>)
    requires
        forall|i: int| 0 <= i < name.len() ==> #[trigger] name[i] != '=',
    ensures
        after_equals(name + seq!['='] + value) == Some(value),
        after_equals(name) is None,
{
    let pair = name + seq!['='] + value;
    law_first_position(pair, '=', 0);
    law_first_position(name, '=', 0);
    let e = first_at(pair, '=', 0);
    assert(pair[name.len() as int] == '=');
    if e < name.len() {
        assert(pair[e] == name[e]);
    }
    assert(e == name.len());
    assert(pair.subrange(e + 1, pair.len() as int) =~= value);
}

/// A record is read piece by piece: the first piece that starts with the name of the
/// field decides, and a piece that does not is passed over.
pub proof fn law_first_piece_decides(piece: Seq<char>, rest: Seq<char>, field: Seq<char>)
    requires
        without_comma(piece),
    ensures
        field.len() <= piece.len() && piece.take(field.len() as int) == field ==> value_of(piece, field) == after_equals(
            piece,
        ) && value_of(piece + seq![','] + rest, field) == after_equals(piece),
        !(field.len() <= piece.len() && piece.take(field.len() as int) == field) ==> value_of(piece, field) is None
            && value_of(piece + seq![','] + rest, field) == value_of(rest, field),
{
    let s = piece + seq![','] + rest;
    let n = piece.len() as int;
    law_first_position(s, ',', 0);
    law_first_position(piece, ',', 0);
    assert(s[n] == ',');
    let end = first_at(s, ',', 0);
    if end < n {
        assert(s[end] == piece[end]);
    }
    assert(end == n);
    assert(s.subrange(0, n) =~= piece);
    let whole = first_at(piece, ',', 0);
    if whole < n {
        assert(piece[whole] != ',');
    }
    assert(piece.subrange(0, n) =~= piece);
    assert(piece.take(field.len() as int) =~= piece.subrange(0, field.len() as int));
    lemma_rest(piece + seq![','], rest, field, 0);
    assert((piece + seq![',']).len() == n + 1);
}

/// What stands before a piece does not matter to it.
proof fn lemma_rest(head: Seq<char>, rest: Seq<char>, field: Seq<char>, from: int)
    requires
        0 <= from <= rest.len(),
    ensures
        piece_of(head + rest, field, head.len() + from) == piece_of(rest, field, from),
    decreases rest.len() - from,
{
    let (s, n) = (head + rest, head.len() as int);
    law_first_position(s, ',', n + from);
    law_first_position(rest, ',', from);
    let (a, b) = (first_at(s, ',', n + from), first_at(rest, ',', from));
    if a < n + b {
        assert(s[a] == rest[a - n]);
    } else if n + b < a {
        assert(s[n + b] == rest[b]);
    }
    assert(a == n + b);
    assert(s.subrange(n + from, a) =~= rest.subrange(from, b));
    if b < rest.len() {
        lemma_rest(head, rest, field, b + 1);
    }
}

/// Stored bytes are a record where they are UTF-8, and have no values otherwise.
pub proof fn law_stored_records(bytes: Seq<u8>, field: Seq<char>)
    ensures
        valid_utf8(bytes) ==> stored_value(bytes, field) == value_of(decode_utf8(bytes), field),
        !valid_utf8(bytes) ==> stored_value(bytes, field) is None,
{
}

/// The values of a field of a record: its text as it is, its number where it is one, and
/// its truth value where it is `true` or `false`.
pub proof fn law_values_of_records(
    field: &str,
    bytes: &[u8],
    t: Option<IndexValue>,
    n: Option<IndexValue>,
    b: Option<IndexValue>,
)
    requires
        call_ensures(extract_str, (field, bytes), t),
        call_ensures(extract_int, (field, bytes), n),
        call_ensures(extract_bool, (field, bytes), b),
    ensures
        !valid_utf8(bytes@) ==> t is None && n is None && b is None,
        valid_utf8(bytes@) ==> match value_of(decode_utf8(bytes@), field@) {
            None => t is None && n is None && b is None,
            Some(v) => {
                &&& t is Some && t->0 is Str && t->0->Str_0@ == v
                &&& n is Some <==> parsed_i64(v) is Some
                &&& n matches Some(x) ==> x == IndexValue::Int(parsed_i64(v)->0)
                &&& v == seq!['t', 'r', 'u', 'e'] ==> b == Some(IndexValue::Bool(true))
                &&& v == seq!['f', 'a', 'l', 's', 'e'] ==> b == Some(IndexValue::Bool(false))
                &&& v != seq!['t', 'r', 'u', 'e'] && v != seq!['f', 'a', 'l', 's', 'e'] ==> b is None
            },
        },
{
    law_stored_records(bytes@, field@);
    reveal_strlit("true");
    reveal_strlit("false");
    assert("true"@ =~= seq!['t', 'r', 'u', 'e']);
    assert("false"@ =~= seq!['f', 'a', 'l', 's', 'e']);
    assert("true"@.len() == 4 && "false"@.len() == 5);
}

} // verus!
