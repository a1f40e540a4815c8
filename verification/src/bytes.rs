//! Byte strings: fixed-width integers and in-place writes.

use vstd::prelude::*;

verus! {

/// The value of little-endian digits in base 256.
pub open spec fn le_value(s: Seq<u8>) -> nat
    decreases s.len(),
{
    if s.len() == 0 {
        0
    } else {
        s[0] as nat + 256 * le_value(s.subrange(1, s.len() as int))
    }
}

/// The `n` low little-endian digits of `x` in base 256.
pub open spec fn le_bytes(x: nat, n: nat) -> Seq<u8>
    decreases n,
{
    if n == 0 {
        seq![]
    } else {
        seq![(x % 256) as u8] + le_bytes(x / 256, (n - 1) as nat)
    }
}

/// The `n` low big-endian digits of `x` in base 256.
pub open spec fn be_bytes(x: nat, n: nat) -> Seq<u8> {
    le_bytes(x, n).reverse()
}

/// The value of big-endian digits in base 256.
pub open spec fn be_value(s: Seq<u8>) -> nat {
    le_value(s.reverse())
}

/// `256` to the power `n`.
pub open spec fn pow256(n: nat) -> nat
    decreases n,
{
    if n == 0 {
        1
    } else {
        256 * pow256((n - 1) as nat)
    }
}

/// The widths in use.
pub proof fn lemma_pow256()
    ensures
        pow256(4) == 0x1_0000_0000,
        pow256(8) == 0x1_0000_0000_0000_0000,
        pow256(16) == 0x1_0000_0000_0000_0000_0000_0000_0000_0000,
{
    reveal_with_fuel(pow256, 17);
}

/// Digits have a value below the next power.
pub proof fn lemma_le_value_bound(s: Seq<u8>)
    ensures
        le_value(s) < pow256(s.len()),
    decreases s.len(),
{
    if s.len() > 0 {
        lemma_le_value_bound(s.subrange(1, s.len() as int));
    }
}

pub proof fn lemma_le_bytes_len(x: nat, n: nat)
    ensures
        le_bytes(x, n).len() == n,
    decreases n,
{
    if n > 0 {
        lemma_le_bytes_len(x / 256, (n - 1) as nat);
    }
}

/// Reading back the digits of a number that fits gives the number.
pub proof fn lemma_le_round_trip(x: nat, n: nat)
    requires
        x < pow256(n),
    ensures
        le_value(le_bytes(x, n)) == x,
        le_bytes(x, n).len() == n,
    decreases n,
{
    lemma_le_bytes_len(x, n);
    if n > 0 {
        lemma_le_round_trip(x / 256, (n - 1) as nat);
        let s = le_bytes(x, n);
        assert(s.subrange(1, s.len() as int) =~= le_bytes(x / 256, (n - 1) as nat));
    }
}

/// Writing down the value of digits gives the digits.
pub proof fn lemma_le_value_bytes(s: Seq<u8>)
    ensures
        le_bytes(le_value(s), s.len()) == s,
    decreases s.len(),
{
    if s.len() > 0 {
        let t = s.subrange(1, s.len() as int);
        lemma_le_value_bytes(t);
        let x = le_value(s);
        assert(x % 256 == s[0] as nat);
        assert(x / 256 == le_value(t));
        assert(s =~= seq![s[0]] + t);
    }
    assert(le_bytes(le_value(s), s.len()) =~= s);
}

/// The big-endian counterpart of the two round trips.
pub proof fn lemma_be_round_trip(x: nat, n: nat)
    requires
        x < pow256(n),
    ensures
        be_value(be_bytes(x, n)) == x,
        be_bytes(x, n).len() == n,
{
    lemma_le_round_trip(x, n);
    assert(le_bytes(x, n).reverse().reverse() =~= le_bytes(x, n));
}

pub proof fn lemma_be_value_bytes(s: Seq<u8>)
    ensures
        be_bytes(be_value(s), s.len()) == s,
        be_value(s) < pow256(s.len()),
{
    lemma_le_value_bytes(s.reverse());
    lemma_le_value_bound(s.reverse());
    assert(s.reverse().reverse() =~= s);
}

/// The little-endian number in `data[at .. at + n]`.
pub open spec fn field(data: Seq<u8>, at: int, n: int) -> nat {
    le_value(data.subrange(at, at + n))
}

/// `data` with `b` written at `at`.
pub open spec fn splice(data: Seq<u8>, at: int, b: Seq<u8>) -> Seq<u8> {
    Seq::new(
        data.len(),
        |k: int|
            if at <= k < at + b.len() {
                b[k - at]
            } else {
                data[k]
            },
    )
}

/// A field depends on its own bytes only.
pub proof fn lemma_field_same(a: Seq<u8>, b: Seq<u8>, at: int, n: int)
    requires
        0 <= at,
        0 <= n,
        at + n <= a.len(),
        at + n <= b.len(),
        forall|k: int| at <= k < at + n ==> a[k] == b[k],
    ensures
        field(a, at, n) == field(b, at, n),
{
    assert(a.subrange(at, at + n) =~= b.subrange(at, at + n));
}

/// A field of `data` that holds the digits of `x` has the value `x`.
pub proof fn lemma_field_value(data: Seq<u8>, at: int, n: nat, x: nat)
    requires
        0 <= at,
        at + n <= data.len(),
        x < pow256(n),
        forall|k: int| at <= k < at + n ==> #[trigger] data[k] == le_bytes(x, n)[k - at],
    ensures
        field(data, at, n as int) == x,
{
    lemma_le_round_trip(x, n);
    assert(data.subrange(at, at + n) =~= le_bytes(x, n));
}

/// Read the 16-byte little-endian number at `at`.
pub fn get_u128(data: &[u8], at: usize) -> (x: u128)
    requires
        at + 16 <= data@.len(),
    ensures
        x == field(data@, at as int, 16),
{
    let mut x: u128 = 0;
    let mut k: usize = 16;
    proof {
        lemma_pow256();
        assert(pow256(0) == 1);
    }
    while k > 0
        invariant
            k <= 16,
            at + 16 <= data.len(),
            x == field(data@, at + k, 16 - k),
            pow256(16) == 0x1_0000_0000_0000_0000_0000_0000_0000_0000,
        decreases k,
    {
        let ghost rest = data@.subrange(at + k, at + 16);
        let ghost here = data@.subrange(at + k - 1, at + 16);
        proof {
            assert(here.subrange(1, here.len() as int) =~= rest);
            lemma_le_value_bound(here);
            lemma_pow256_mono(here.len(), 16);
        }
        let b: u8 = data[at + k - 1];
        x = x * 256 + b as u128;
        k = k - 1;
    }
    x
}

pub proof fn lemma_pow256_mono(a: nat, b: nat)
    requires
        a <= b,
    ensures
        1 <= pow256(a) <= pow256(b),
    decreases b,
{
    if a < b {
        lemma_pow256_mono(a, (b - 1) as nat);
    } else if a > 0 {
        lemma_pow256_mono((a - 1) as nat, (a - 1) as nat);
    }
}

/// Read the 8-byte little-endian number at `at`.
pub fn get_u64(data: &[u8], at: usize) -> (x: u64)
    requires
        at + 8 <= data@.len(),
    ensures
        x == field(data@, at as int, 8),
{
    let mut x: u64 = 0;
    let mut k: usize = 8;
    proof {
        lemma_pow256();
    }
    while k > 0
        invariant
            k <= 8,
            at + 8 <= data.len(),
            x == field(data@, at + k, 8 - k),
            pow256(8) == 0x1_0000_0000_0000_0000,
        decreases k,
    {
        let ghost rest = data@.subrange(at + k, at + 8);
        let ghost here = data@.subrange(at + k - 1, at + 8);
        proof {
            assert(here.subrange(1, here.len() as int) =~= rest);
            lemma_le_value_bound(here);
            lemma_pow256_mono(here.len(), 8);
        }
        let b: u8 = data[at + k - 1];
        x = x * 256 + b as u64;
        k = k - 1;
    }
    x
}

/// Read the 4-byte little-endian number at `at`.
pub fn get_u32(data: &[u8], at: usize) -> (x: u32)
    requires
        at + 4 <= data@.len(),
    ensures
        x == field(data@, at as int, 4),
{
    let mut x: u32 = 0;
    let mut k: usize = 4;
    proof {
        lemma_pow256();
    }
    while k > 0
        invariant
            k <= 4,
            at + 4 <= data.len(),
            x == field(data@, at + k, 4 - k),
            pow256(4) == 0x1_0000_0000,
        decreases k,
    {
        let ghost rest = data@.subrange(at + k, at + 4);
        let ghost here = data@.subrange(at + k - 1, at + 4);
        proof {
            assert(here.subrange(1, here.len() as int) =~= rest);
            lemma_le_value_bound(here);
            lemma_pow256_mono(here.len(), 4);
        }
        let b: u8 = data[at + k - 1];
        x = x * 256 + b as u32;
        k = k - 1;
    }
    x
}

/// Write `b` at `at`.
pub fn put_bytes(data: &mut Vec<u8>, at: usize, b: &[u8])
    requires
        at + b@.len() <= old(data)@.len(),
    ensures
        final(data)@ == splice(old(data)@, at as int, b@),
{
    let mut k: usize = 0;
    while k < b.len()
        invariant
            k <= b@.len(),
            at + b@.len() <= data.len(),
            data@.len() == old(data)@.len(),
            forall|j: int|
                0 <= j < data@.len() ==> #[trigger] data@[j] == (if at <= j < at + k {
                    b@[j - at]
                } else {
                    old(data)@[j]
                }),
        decreases b@.len() - k,
    {
        data[at + k] = b[k];
        k = k + 1;
    }
    assert(data@ =~= splice(old(data)@, at as int, b@));
}

/// Write `n` zero bytes at `at`.
pub fn put_zeros(data: &mut Vec<u8>, at: usize, n: usize)
    requires
        at + n <= old(data)@.len(),
    ensures
        final(data)@ == splice(old(data)@, at as int, Seq::new(n as nat, |k: int| 0u8)),
{
    let mut k: usize = 0;
    while k < n
        invariant
            k <= n,
            at + n <= data.len(),
            data@.len() == old(data)@.len(),
            forall|j: int|
                0 <= j < data@.len() ==> #[trigger] data@[j] == (if at <= j < at + k {
                    0u8
                } else {
                    old(data)@[j]
                }),
        decreases n - k,
    {
        data[at + k] = 0;
        k = k + 1;
    }
    assert(data@ =~= splice(old(data)@, at as int, Seq::new(n as nat, |k: int| 0u8)));
}

/// `n` zero bytes.
pub fn zeros(n: usize) -> (v: Vec<u8>)
    ensures
        v@ == Seq::new(n as nat, |k: int| 0u8),
{
    let mut v: Vec<u8> = Vec::new();
    while v.len() < n
        invariant
            v@.len() <= n,
            forall|j: int| 0 <= j < v@.len() ==> v@[j] == 0u8,
        decreases n - v@.len(),
    {
        v.push(0);
    }
    assert(v@ =~= Seq::new(n as nat, |k: int| 0u8));
    v
}

/// Zero bytes have the value zero.
pub proof fn lemma_zero_value(s: Seq<u8>)
    requires
        forall|k: int| 0 <= k < s.len() ==> s[k] == 0,
    ensures
        le_value(s) == 0,
    decreases s.len(),
{
    if s.len() > 0 {
        lemma_zero_value(s.subrange(1, s.len() as int));
    }
}

/// Two byte strings are equal.
pub fn bytes_eq(a: &[u8], b: &[u8]) -> (same: bool)
    ensures
        same == (a@ == b@),
{
    if a.len() != b.len() {
        return false;
    }
    let mut k: usize = 0;
    while k < a.len()
        invariant
            k <= a@.len(),
            a@.len() == b@.len(),
            forall|j: int| 0 <= j < k ==> a@[j] == b@[j],
        decreases a@.len() - k,
    {
        if a[k] != b[k] {
            return false;
        }
        k = k + 1;
    }
    assert(a@ =~= b@);
    true
}

/// An owned copy of `b`.
pub fn copy_bytes(b: &[u8]) -> (out: Vec<u8>)
    ensures
        out@ == b@,
{
    let mut out: Vec<u8> = Vec::with_capacity(b.len());
    out.extend_from_slice(b);
    proof {
        assert(out@ =~= b@);
    }
    out
}

/// Append the `n` low little-endian digits of `x`.
pub fn push_le(out: &mut Vec<u8>, n: usize, x: u128)
    ensures
        final(out)@ == old(out)@ + le_bytes(x as nat, n as nat),
{
    let mut y: u128 = x;
    let mut k: usize = 0;
    assert(out@ + le_bytes(y as nat, n as nat) =~= old(out)@ + le_bytes(x as nat, n as nat));
    while k < n
        invariant
            k <= n,
            out@ + le_bytes(y as nat, (n - k) as nat) == old(out)@ + le_bytes(x as nat, n as nat),
        decreases n - k,
    {
        let b: u8 = (y % 256) as u8;
        let ghost before = out@;
        out.push(b);
        proof {
            let next = le_bytes((y / 256) as nat, (n - k - 1) as nat);
            assert(le_bytes(y as nat, (n - k) as nat) =~= seq![b] + next);
            assert(out@ + next =~= before + (seq![b] + next));
        }
        y = y / 256;
        k = k + 1;
    }
    assert(out@ + le_bytes(y as nat, 0) =~= out@);
}

/// One more big-endian digit.
pub proof fn lemma_be_value_push(s: Seq<u8>, b: u8)
    ensures
        be_value(s.push(b)) == 256 * be_value(s) + b,
{
    let r = s.push(b).reverse();
    assert(r.subrange(1, r.len() as int) =~= s.reverse());
}

/// The last big-endian digit stands apart.
pub proof fn lemma_be_bytes_push(x: nat, n: nat)
    requires
        n > 0,
    ensures
        be_bytes(x, n) == be_bytes(x / 256, (n - 1) as nat).push((x % 256) as u8),
{
    let rest = le_bytes(x / 256, (n - 1) as nat);
    assert((seq![(x % 256) as u8] + rest).reverse() =~= rest.reverse().push((x % 256) as u8));
}

/// The big-endian number that up to sixteen bytes hold.
pub fn get_be(data: &[u8]) -> (x: u128)
    requires
        data@.len() <= 16,
    ensures
        x == be_value(data@),
{
    let mut x: u128 = 0;
    let mut i: usize = 0;
    proof {
        assert(data@.take(0).reverse() =~= Seq::<u8>::empty());
    }
    while i < data.len()
        invariant
            i <= data@.len() <= 16,
            x == be_value(data@.take(i as int)),
        decreases data@.len() - i,
    {
        proof {
            let here = data@.take(i + 1);
            assert(here =~= data@.take(i as int).push(data@[i as int]));
            lemma_be_value_push(data@.take(i as int), data@[i as int]);
            lemma_le_value_bound(here.reverse());
            lemma_pow256_mono((i + 1) as nat, 16);
            lemma_pow256();
        }
        x = x * 256 + data[i] as u128;
        i = i + 1;
    }
    proof {
        assert(data@.take(i as int) =~= data@);
    }
    x
}

/// The `n` low big-endian digits of `x`.
pub fn to_be(x: u128, n: usize) -> (out: Vec<u8>)
    ensures
        out@ == be_bytes(x as nat, n as nat),
{
    let mut le: Vec<u8> = Vec::with_capacity(n);
    push_le(&mut le, n, x);
    proof {
        lemma_le_bytes_len(x as nat, n as nat);
        assert(le@ =~= le_bytes(x as nat, n as nat));
    }
    let mut out: Vec<u8> = Vec::with_capacity(n);
    let mut i: usize = n;
    while i > 0
        invariant
            i <= n == le@.len(),
            out@.len() == n - i,
            forall|k: int| 0 <= k < out@.len() ==> #[trigger] out@[k] == le@[n - 1 - k],
        decreases i,
    {
        i = i - 1;
        out.push(le[i]);
    }
    proof {
        assert(out@ =~= le@.reverse());
    }
    out
}

/// Powers of 256: one to begin with, and 256 times as much each time.
pub proof fn law_powers(n: nat)
    ensures
        pow256(0) == 1,
        pow256(n + 1) == 256 * pow256(n),
{
}

/// The bytes of a number are its digits in base 256: byte `i` counts 256 to the power of
/// `i`. The lowest comes first in little-endian bytes and last in big-endian ones.
pub proof fn law_bytes_are_digits(x: nat, n: nat, i: int)
    requires
        0 <= i < n,
    ensures
        le_bytes(x, n).len() == n,
        be_bytes(x, n).len() == n,
        le_bytes(x, n)[i] == (x / pow256(i as nat)) % 256,
        be_bytes(x, n)[n - 1 - i] == (x / pow256(i as nat)) % 256,
    decreases n,
{
    lemma_le_bytes_len(x, n);
    if i > 0 {
        law_bytes_are_digits(x / 256, (n - 1) as nat, i - 1);
        assert(le_bytes(x, n)[i] == le_bytes(x / 256, (n - 1) as nat)[i - 1]);
        let p = pow256((i - 1) as nat);
        lemma_pow_positive((i - 1) as nat);
        vstd::arithmetic::div_mod::lemma_div_denominator(x as int, 256, p as int);
        assert(pow256(i as nat) == 256 * p);
        assert(x / pow256(i as nat) == (x / 256) / p);
    } else {
        assert(pow256(0) == 1);
        assert(x / pow256(0) == x) by (nonlinear_arith)
            requires
                pow256(0) == 1,
        ;
        assert(le_bytes(x, n)[0] == x % 256);
    }
}

proof fn lemma_pow_positive(n: nat)
    ensures
        pow256(n) > 0,
    decreases n,
{
    if n > 0 {
        lemma_pow_positive((n - 1) as nat);
    }
}

/// The number that bytes stand for: no bytes are zero; one more byte at the upper end
/// counts its power of 256. Big-endian bytes stand for what the same bytes stand for from
/// the other end.
pub proof fn law_bytes_stand_for_a_number(s: Seq<u8>, b: u8)
    ensures
        le_value(Seq::<u8>::empty()) == 0,
        le_value(seq![b] + s) == b + 256 * le_value(s),
        be_value(s.push(b)) == 256 * be_value(s) + b,
        be_value(Seq::<u8>::empty()) == 0,
{
    let t = seq![b] + s;
    assert(t.subrange(1, t.len() as int) =~= s);
    assert(s.push(b).reverse() =~= seq![b] + s.reverse());
    let u = seq![b] + s.reverse();
    assert(u.subrange(1, u.len() as int) =~= s.reverse());
    assert(Seq::<u8>::empty().reverse() =~= Seq::<u8>::empty());
}

/// Writing bytes into a region changes those bytes and no others.
pub proof fn law_writing_changes_its_bytes(data: Seq<u8>, at: int, b: Seq<u8>, k: int)
    requires
        0 <= at,
        at + b.len() <= data.len(),
        0 <= k < data.len(),
    ensures
        splice(data, at, b).len() == data.len(),
        at <= k < at + b.len() ==> splice(data, at, b)[k] == b[k - at],
        k < at || k >= at + b.len() ==> splice(data, at, b)[k] == data[k],
        splice(data, at, b).subrange(at, at + b.len()) == b,
{
    assert(splice(data, at, b).subrange(at, at + b.len()) =~= b);
}

/// A field of a region is the number that its bytes stand for, the lowest first.
pub proof fn law_fields(data: Seq<u8>, at: int, n: int)
    requires
        0 <= at,
        0 <= n,
        at + n <= data.len(),
    ensures
        n == 0 ==> field(data, at, n) == 0,
        n > 0 ==> field(data, at, n) == data[at] + 256 * field(data, at + 1, n - 1),
{
    if n > 0 {
        let s = data.subrange(at, at + n);
        assert(s.subrange(1, s.len() as int) =~= data.subrange(at + 1, at + n));
    }
}

} // verus!
