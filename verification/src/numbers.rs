//! Decimal numbers in text.

use vstd::prelude::*;

use crate::text::string_of;

verus! {

/// A decimal digit.
pub open spec fn is_digit(c: char) -> bool {
    48 <= c as u32 <= 57
}

/// The value of decimal digits, the highest first.
pub open spec fn decimal_value(digits: Seq<char>) -> nat
    decreases digits.len(),
{
    if digits.len() == 0 {
        0
    } else {
        10 * decimal_value(digits.drop_last()) + (digits.last() as u32 - 48) as nat
    }
}

/// The digits behind an optional sign.
pub open spec fn unsigned_part(text: Seq<char>) -> Seq<char> {
    if text.len() > 0 && (text[0] == '+' || text[0] == '-') {
        text.subrange(1, text.len() as int)
    } else {
        text
    }
}

/// The number that a text of an optional sign and decimal digits stands for.
pub open spec fn integer_of(text: Seq<char>) -> Option<int> {
    let digits = unsigned_part(text);
    if digits.len() == 0 || !(forall|i: int| 0 <= i < digits.len() ==> is_digit(#[trigger] digits[i])) {
        None
    } else if text[0] == '-' {
        Some(-(decimal_value(digits) as int))
    } else {
        Some(decimal_value(digits) as int)
    }
}

/// The 64-bit integer that a text stands for; none where it is no number or does
/// not fit.
pub open spec fn parsed_i64(text: Seq<char>) -> Option<i64> {
    match integer_of(text) {
        Some(n) => if i64::MIN <= n <= i64::MAX {
            Some(n as i64)
        } else {
            None
        },
        None => None,
    }
}

proof fn lemma_value_mono(digits: Seq<char>, k: int)
    requires
        0 <= k <= digits.len(),
        forall|i: int| 0 <= i < digits.len() ==> is_digit(#[trigger] digits[i]),
    ensures
        decimal_value(digits.take(k)) <= decimal_value(digits),
    decreases digits.len() - k,
{
    if k < digits.len() {
        lemma_value_mono(digits, k + 1);
        assert(digits.take(k + 1).drop_last() =~= digits.take(k));
        assert(is_digit(digits[k]));
    } else {
        assert(digits.take(k) =~= digits);
    }
}

/// The 64-bit integer that a text stands for.
pub fn parse_i64(text: &[char]) -> (n: Option<i64>)
    ensures
        n == parsed_i64(text@),
{
    let negative: bool = text.len() > 0 && text[0] == '-';
    let signed: bool = text.len() > 0 && (text[0] == '+' || text[0] == '-');
    let from: usize = if signed {
        1
    } else {
        0
    };
    let ghost digits = unsigned_part(text@);
    proof {
        assert(digits =~= text@.subrange(from as int, text@.len() as int));
    }
    if text.len() == from {
        return None;
    }
    let mut value: u64 = 0;
    let mut i: usize = from;
    proof {
        assert(digits.take(0) =~= Seq::<char>::empty());
    }
    while i < text.len()
        invariant
            from <= i <= text.len(),
            from <= 1,
            digits == unsigned_part(text@),
            digits == text@.subrange(from as int, text@.len() as int),
            digits.len() > 0,
            negative == (text@[0] == '-'),
            forall|k: int| 0 <= k < i - from ==> is_digit(#[trigger] digits[k]),
            value == decimal_value(digits.take(i - from)),
            value <= 0x8000_0000_0000_0000,
        decreases text@.len() - i,
    {
        let c: u32 = text[i] as u32;
        proof {
            assert(digits[i - from] == text@[i as int]);
            assert(digits.take(i - from + 1).drop_last() =~= digits.take(i - from));
        }
        if c < 48 || c > 57 {
            proof {
                assert(!is_digit(digits[i - from]));
            }
            return None;
        }
        let next: u128 = 10 * value as u128 + (c - 48) as u128;
        if next > 0x8000_0000_0000_0000 {
            proof {
                if forall|k: int| 0 <= k < digits.len() ==> is_digit(#[trigger] digits[k]) {
                    lemma_value_mono(digits, i - from + 1);
                }
            }
            return None;
        }
        value = next as u64;
        i = i + 1;
    }
    proof {
        assert(digits.take(i - from) =~= digits);
    }
    if negative {
        if value == 0x8000_0000_0000_0000 {
            Some(i64::MIN)
        } else {
            Some(-(value as i64))
        }
    } else if value <= 0x7fff_ffff_ffff_ffff {
        Some(value as i64)
    } else {
        None
    }
}

/// The decimal digits of a number, the highest first; zero is a single one.
pub open spec fn decimal_digits(n: nat) -> Seq<char>
    decreases n,
{
    if n < 10 {
        seq![(48 + n) as u8 as char]
    } else {
        decimal_digits(n / 10).push((48 + n % 10) as u8 as char)
    }
}

/// A number in decimal.
pub fn decimal(n: u64) -> (text: String)
    ensures
        text@ == decimal_digits(n as nat),
{
    let chars = decimal_chars(n);
    string_of(chars.as_slice())
}

fn decimal_chars(n: u64) -> (chars: Vec<char>)
    ensures
        chars@ == decimal_digits(n as nat),
    decreases n,
{
    if n < 10 {
        let mut chars: Vec<char> = Vec::new();
        chars.push((48 + n as u8) as char);
        proof {
            assert(chars@ =~= decimal_digits(n as nat));
        }
        chars
    } else {
        let mut chars = decimal_chars(n / 10);
        chars.push((48 + (n % 10) as u8) as char);
        chars
    }
}

/// A number comes back from its decimal form.
pub proof fn law_decimal_round_trip(n: nat)
    ensures
        integer_of(decimal_digits(n)) == Some(n as int),
{
    lemma_digits(n);
    let d = decimal_digits(n);
    assert(is_digit(d[0]));
}

proof fn lemma_digits(n: nat)
    ensures
        decimal_digits(n).len() > 0,
        forall|i: int| 0 <= i < decimal_digits(n).len() ==> is_digit(#[trigger] decimal_digits(n)[i]),
        decimal_value(decimal_digits(n)) == n,
    decreases n,
{
    if n < 10 {
        let d = decimal_digits(n);
        assert(d.drop_last() =~= Seq::<char>::empty());
        assert(decimal_value(d.drop_last()) == 0);
    } else {
        lemma_digits(n / 10);
        let d = decimal_digits(n);
        assert(d.drop_last() =~= decimal_digits(n / 10));
    }
}

/// All characters are decimal digits.
pub open spec fn all_digits(t: Seq<char>) -> bool {
    forall|i: int| 0 <= i < t.len() ==> 48 <= (#[trigger] t[i]) as u32 <= 57
}

/// Digits are read from the left: a digit stands for itself, and one more digit behind
/// makes ten times the number, and the digit. A sign in front may be `+` or `-`, and
/// `-` makes the number negative.
pub proof fn law_digits_are_read_from_the_left(t: Seq<char>, d: char)
    requires
        all_digits(t),
        48 <= d as u32 <= 57,
    ensures
        integer_of(seq![d]) == Some(d as u32 - 48),
        t.len() > 0 ==> integer_of(t) is Some && integer_of(t)->0 >= 0,
        t.len() > 0 ==> integer_of(t.push(d)) == Some(10 * integer_of(t)->0 + (d as u32 - 48)),
        t.len() > 0 ==> integer_of(seq!['-'] + t) == Some(-integer_of(t)->0),
        t.len() > 0 ==> integer_of(seq!['+'] + t) == integer_of(t),
{
    let one = seq![d];
    assert(one.drop_last() =~= Seq::<char>::empty());
    assert(decimal_value(Seq::<char>::empty()) == 0);
    assert(decimal_value(one) == d as u32 - 48);
    assert(is_digit(one[0]));
    if t.len() > 0 {
        let (more, neg, pos) = (t.push(d), seq!['-'] + t, seq!['+'] + t);
        assert(more.drop_last() =~= t);
        assert(neg.subrange(1, neg.len() as int) =~= t);
        assert(pos.subrange(1, pos.len() as int) =~= t);
        assert(48 <= t[0] as u32 <= 57);
        assert(more[0] == t[0]);
        assert forall|i: int| 0 <= i < t.len() implies is_digit(#[trigger] t[i]) by {}
        assert forall|i: int| 0 <= i < more.len() implies is_digit(#[trigger] more[i]) by {
            if i < t.len() {
                assert(more[i] == t[i]);
            }
        }
    }
}

/// Nothing else is a number: a text that is one consists of digits, behind a sign or
/// without, and has one at least.
pub proof fn law_only_digits_are_numbers(t: Seq<char>)
    ensures
        integer_of(t) is Some ==> t.len() > 0 && (all_digits(t) || ((t[0] == '-' || t[0] == '+') && t.len() > 1
            && all_digits(t.subrange(1, t.len() as int)))),
        parsed_i64(t) is Some <==> integer_of(t) is Some && -0x8000_0000_0000_0000 <= integer_of(t)->0
            <= 0x7fff_ffff_ffff_ffff,
        parsed_i64(t) is Some ==> parsed_i64(t)->0 == integer_of(t)->0,
{
    if integer_of(t) is Some {
        let digits = unsigned_part(t);
        assert forall|i: int| 0 <= i < digits.len() implies 48 <= (#[trigger] digits[i]) as u32 <= 57 by {
            assert(is_digit(digits[i]));
        }
    }
}

/// The decimal form of a number consists of digits, and does not begin with a zero but
/// for the number zero itself.
pub proof fn law_decimal_form(n: nat)
    ensures
        all_digits(decimal_digits(n)),
        decimal_digits(n).len() > 0,
        n > 0 ==> decimal_digits(n)[0] as u32 > 48,
        n < 10 ==> decimal_digits(n).len() == 1,
        n >= 10 ==> decimal_digits(n).len() == decimal_digits(n / 10).len() + 1,
    decreases n,
{
    lemma_digits(n);
    assert forall|i: int| 0 <= i < decimal_digits(n).len() implies 48 <= (#[trigger] decimal_digits(n)[i]) as u32
        <= 57 by {
        assert(is_digit(decimal_digits(n)[i]));
    }
    if n >= 10 {
        law_decimal_form(n / 10);
        assert(decimal_digits(n)[0] == decimal_digits(n / 10)[0]);
    }
}

/// A number that is written in decimal is read again as itself, with a minus sign as its
/// opposite.
pub proof fn law_written_numbers_are_read(
    n: u64,
    text: String,
    chars: &[char],
    m: Option<i64>,
    below: &[char],
    o: Option<i64>,
)
    requires
        n <= i64::MAX,
        call_ensures(decimal, (n,), text),
        chars@ == text@,
        call_ensures(parse_i64, (chars,), m),
        below@ == seq!['-'] + text@,
        call_ensures(parse_i64, (below,), o),
    ensures
        m == Some(n as i64),
        o is Some && o->0 == -(n as int),
{
    law_decimal_round_trip(n as nat);
    law_decimal_form(n as nat);
    law_digits_are_read_from_the_left(text@, '0');
    law_only_digits_are_numbers(chars@);
    law_only_digits_are_numbers(below@);
}

} // verus!
