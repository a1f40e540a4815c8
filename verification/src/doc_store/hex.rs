//! Bytes in hexadecimal, and document identifiers for the log.

use vstd::prelude::*;

use crate::text::{chars_of, string_of};

verus! {

/// The lower-case digit of value `n`.
pub open spec fn hex_digit(n: int) -> char {
    if n < 10 {
        (48 + n) as u8 as char
    } else {
        (87 + n) as u8 as char
    }
}

/// Two digits per byte, the high one first.
pub open spec fn hex_of(bytes: Seq<u8>) -> Seq<char> {
    Seq::new(
        2 * bytes.len(),
        |i: int|
            hex_digit(
                if i % 2 == 0 {
                    bytes[i / 2] as int / 16
                } else {
                    bytes[i / 2] as int % 16
                },
            ),
    )
}

/// The value of a digit, of either case; none for another character.
pub open spec fn digit_value(c: char) -> Option<int> {
    let u = c as u32;
    if 48 <= u <= 57 {
        Some(u - 48)
    } else if 97 <= u <= 102 {
        Some(u - 87)
    } else if 65 <= u <= 70 {
        Some(u - 55)
    } else {
        None
    }
}

/// An even number of digits and nothing else.
pub open spec fn is_hex(text: Seq<char>) -> bool {
    &&& text.len() % 2 == 0
    &&& forall|i: int| 0 <= i < text.len() ==> digit_value(#[trigger] text[i]) is Some
}

/// The bytes that pairs of digits stand for.
pub open spec fn unhex(text: Seq<char>) -> Seq<u8> {
    Seq::new(
        text.len() / 2,
        |i: int| (16 * digit_value(text[2 * i])->0 + digit_value(text[2 * i + 1])->0) as u8,
    )
}

fn digit(n: u8) -> (c: char)
    requires
        n < 16,
    ensures
        c == hex_digit(n as int),
{
    if n < 10 {
        (48 + n) as char
    } else {
        (87 + n) as char
    }
}

fn value_of(c: char) -> (n: Option<u8>)
    ensures
        n is Some <==> digit_value(c) is Some,
        n is Some ==> n->0 == digit_value(c)->0 && n->0 < 16,
{
    let u: u32 = c as u32;
    if 48 <= u && u <= 57 {
        Some((u - 48) as u8)
    } else if 97 <= u && u <= 102 {
        Some((u - 87) as u8)
    } else if 65 <= u && u <= 70 {
        Some((u - 55) as u8)
    } else {
        None
    }
}

fn hex_chars(bytes: &[u8]) -> (chars: Vec<char>)
    ensures
        chars@ == hex_of(bytes@),
{
    let mut chars: Vec<char> = Vec::new();
    let mut i: usize = 0;
    while i < bytes.len()
        invariant
            i <= bytes@.len(),
            chars@ =~= hex_of(bytes@.take(i as int)),
        decreases bytes@.len() - i,
    {
        let b: u8 = bytes[i];
        chars.push(digit(b / 16));
        chars.push(digit(b % 16));
        i = i + 1;
    }
    proof {
        assert(bytes@.take(i as int) =~= bytes@);
    }
    chars
}

/// The bytes in lower-case hexadecimal.
pub fn bytes_to_hex(bytes: &[u8]) -> (text: String)
    ensures
        text@ == hex_of(bytes@),
{
    let chars = hex_chars(bytes);
    string_of(chars.as_slice())
}

/// The bytes that a text of hexadecimal digits stands for; none for another text.
pub fn hex_to_bytes(text: &str) -> (bytes: Option<Vec<u8>>)
    ensures
        bytes is Some <==> is_hex(text@),
        bytes is Some ==> bytes->0@ == unhex(text@),
{
    let chars = chars_of(text);
    if chars.len() % 2 != 0 {
        return None;
    }
    let mut out: Vec<u8> = Vec::new();
    let mut i: usize = 0;
    while i < chars.len()
        invariant
            chars@ == text@,
            chars@.len() % 2 == 0,
            i <= chars.len(),
            i == 2 * out@.len(),
            forall|k: int| 0 <= k < i ==> digit_value(#[trigger] text@[k]) is Some,
            forall|k: int| 0 <= k < out@.len() ==> #[trigger] out@[k] == unhex(text@)[k],
        decreases chars@.len() - i,
    {
        match (value_of(chars[i]), value_of(chars[i + 1])) {
            (Some(h), Some(l)) => {
                out.push(16 * h + l);
            },
            _ => {
                proof {
                    assert(digit_value(text@[i as int]) is None || digit_value(text@[i + 1]) is None);
                }
                return None;
            },
        }
        i = i + 2;
    }
    proof {
        assert(out@ =~= unhex(text@));
    }
    Some(out)
}

/// Bytes come back from their hexadecimal form.
pub proof fn law_hex_round_trip(bytes: Seq<u8>)
    ensures
        is_hex(hex_of(bytes)),
        unhex(hex_of(bytes)) == bytes,
{
    let text = hex_of(bytes);
    assert forall|i: int| 0 <= i < text.len() implies digit_value(#[trigger] text[i]) is Some by {
        lemma_digit(bytes[i / 2] as int / 16);
        lemma_digit(bytes[i / 2] as int % 16);
    }
    assert forall|i: int| 0 <= i < bytes.len() implies unhex(text)[i] == bytes[i] by {
        lemma_digit(bytes[i] as int / 16);
        lemma_digit(bytes[i] as int % 16);
        assert(text[2 * i] == hex_digit(bytes[i] as int / 16));
        assert(text[2 * i + 1] == hex_digit(bytes[i] as int % 16));
    }
    assert(unhex(text) =~= bytes);
}

proof fn lemma_digit(n: int)
    requires
        0 <= n < 16,
    ensures
        digit_value(hex_digit(n)) == Some(n),
{
}

/// A printable ASCII character or a space.
pub open spec fn is_printable(b: u8) -> bool {
    0x20 <= b <= 0x7e
}

/// The text shown for key bytes: the bytes as characters where all are printable,
/// else hexadecimal.
pub open spec fn displayed(bytes: Seq<u8>) -> Seq<char> {
    if forall|i: int| 0 <= i < bytes.len() ==> is_printable(#[trigger] bytes[i]) {
        Seq::new(bytes.len(), |i: int| bytes[i] as char)
    } else {
        hex_of(bytes)
    }
}

/// Shows key bytes as text where all of them are printable, else in hexadecimal.
pub fn doc_id_display(bytes: &[u8]) -> (text: String)
    ensures
        text@ == displayed(bytes@),
{
    let mut chars: Vec<char> = Vec::new();
    let mut i: usize = 0;
    while i < bytes.len()
        invariant
            i <= bytes@.len(),
            chars@ =~= Seq::new(i as nat, |k: int| bytes@[k] as char),
            forall|k: int| 0 <= k < i ==> is_printable(#[trigger] bytes@[k]),
        decreases bytes@.len() - i,
    {
        let b: u8 = bytes[i];
        if b < 0x20 || b > 0x7e {
            proof {
                assert(!is_printable(bytes@[i as int]));
            }
            return bytes_to_hex(bytes);
        }
        chars.push(b as char);
        i = i + 1;
    }
    string_of(chars.as_slice())
}

/// The digits are `0` to `9` and `a` to `f`; upper-case letters are read as well, and
/// nothing else is a digit.
pub proof fn law_hex_digits(n: int, c: char)
    ensures
        0 <= n < 16 ==> hex_digit(n) == "0123456789abcdef"@[n],
        0 <= n < 16 ==> (digit_value(c) == Some(n) <==> c == "0123456789abcdef"@[n] || c == "0123456789ABCDEF"@[n]),
        digit_value(c) is Some ==> 0 <= digit_value(c)->0 < 16,
{
    reveal_strlit("0123456789abcdef");
    reveal_strlit("0123456789ABCDEF");
}

/// Every byte has two digits, the high one first, and the bytes keep their order.
pub proof fn law_two_digits_per_byte(bytes: Seq<u8>, text: Seq<char>, i: int)
    ensures
        hex_of(bytes).len() == 2 * bytes.len(),
        0 <= i < bytes.len() ==> hex_of(bytes)[2 * i] == hex_digit(bytes[i] as int / 16) && hex_of(bytes)[2 * i + 1]
            == hex_digit(bytes[i] as int % 16),
        is_hex(text) <==> text.len() % 2 == 0 && forall|k: int|
            0 <= k < text.len() ==> digit_value(#[trigger] text[k]) is Some,
        is_hex(text) ==> unhex(text).len() == text.len() / 2,
        is_hex(text) && 0 <= i < text.len() / 2 ==> unhex(text)[i] == 16 * digit_value(text[2 * i])->0 + digit_value(
            text[2 * i + 1],
        )->0,
{
    if is_hex(text) && 0 <= i < text.len() / 2 {
        assert(digit_value(text[2 * i]) is Some);
        assert(digit_value(text[2 * i + 1]) is Some);
    }
}

/// Key bytes are shown as they are where all of them are printable ASCII characters, the
/// space among them, and in hexadecimal otherwise.
pub proof fn law_shown_keys(bytes: Seq<u8>)
    ensures
        (forall|i: int| 0 <= i < bytes.len() ==> 0x20 <= #[trigger] bytes[i] <= 0x7e) ==> displayed(bytes).len()
            == bytes.len() && forall|i: int|
            0 <= i < bytes.len() ==> #[trigger] displayed(bytes)[i] as u32 == bytes[i] as u32,
        !(forall|i: int| 0 <= i < bytes.len() ==> 0x20 <= #[trigger] bytes[i] <= 0x7e) ==> displayed(bytes) == hex_of(
            bytes,
        ),
{
    if forall|i: int| 0 <= i < bytes.len() ==> 0x20 <= #[trigger] bytes[i] <= 0x7e {
        assert forall|i: int| 0 <= i < bytes.len() implies is_printable(#[trigger] bytes[i]) by {}
    } else {
        let i = choose|i: int| 0 <= i < bytes.len() && !(0x20 <= #[trigger] bytes[i] <= 0x7e);
        assert(!is_printable(bytes[i]));
    }
}

/// Bytes in hexadecimal, and bytes read from it: what is written is read back, and a text
/// is read exactly where it consists of pairs of digits. Key bytes that are printable are
/// shown as they are.
pub proof fn law_hexadecimal(bytes: &[u8], text: String, shown: String, s: &str, read: Option<Vec<u8>>)
    requires
        call_ensures(bytes_to_hex, (bytes,), text),
        call_ensures(hex_to_bytes, (s,), read),
        call_ensures(doc_id_display, (bytes,), shown),
    ensures
        text@.len() == 2 * bytes@.len(),
        forall|i: int|
            0 <= i < bytes@.len() ==> text@[2 * i] == "0123456789abcdef"@[(#[trigger] bytes@[i]) as int / 16] && text@[2 * i
                + 1] == "0123456789abcdef"@[bytes@[i] as int % 16],
        s@ == text@ ==> read is Some && read->0@ == bytes@,
        read is Some <==> s@.len() % 2 == 0 && forall|k: int| 0 <= k < s@.len() ==> digit_value(#[trigger] s@[k]) is Some,
        (forall|i: int| 0 <= i < bytes@.len() ==> 0x20 <= #[trigger] bytes@[i] <= 0x7e) ==> shown@.len() == bytes@.len(),
        !(forall|i: int| 0 <= i < bytes@.len() ==> 0x20 <= #[trigger] bytes@[i] <= 0x7e) ==> shown@ == text@,
{
    law_hex_round_trip(bytes@);
    law_shown_keys(bytes@);
    assert forall|i: int| 0 <= i < bytes@.len() implies text@[2 * i] == "0123456789abcdef"@[(#[trigger] bytes@[i]) as int
        / 16] && text@[2 * i + 1] == "0123456789abcdef"@[bytes@[i] as int % 16] by {
        law_two_digits_per_byte(bytes@, s@, i);
        law_hex_digits(bytes@[i] as int / 16, '0');
        law_hex_digits(bytes@[i] as int % 16, '0');
    }
    law_two_digits_per_byte(bytes@, s@, 0);
}

} // verus!
