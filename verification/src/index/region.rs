//! Byte regions that grow by doubling.

use vstd::prelude::*;

use crate::bytes;

verus! {

/// `n` is a power of two.
pub open spec fn is_pow2(n: int) -> bool
    decreases n,
{
    if n <= 1 {
        n == 1
    } else {
        n % 2 == 0 && is_pow2(n / 2)
    }
}

/// Whether `n` is a power of two.
pub fn is_power_of_two(n: u64) -> (yes: bool)
    ensures
        yes == is_pow2(n as int),
{
    let mut m: u64 = n;
    while m > 1 && m % 2 == 0
        invariant
            is_pow2(m as int) == is_pow2(n as int),
        decreases m,
    {
        m = m / 2;
    }
    m == 1
}

/// `p` is the least power of two that is at least `n`.
pub open spec fn is_next_pow2(p: int, n: int) -> bool {
    is_pow2(p) && n <= p && (p == 1 || p < 2 * n)
}

/// Size of a region of `len` bytes once `needed` bytes fit.
pub open spec fn grown_len(len: int, needed: int, new_len: int) -> bool {
    if needed <= len {
        new_len == len
    } else {
        is_next_pow2(new_len, needed)
    }
}

/// Make `data` at least `needed` bytes long; new bytes are zero.
///
/// A region that has to grow gets the next power of two.
pub fn ensure_capacity(data: &mut Vec<u8>, needed: usize)
    requires
        needed <= usize::MAX / 2,
    ensures
        grown_len(old(data)@.len() as int, needed as int, final(data)@.len() as int),
        final(data)@.subrange(0, old(data)@.len() as int) == old(data)@,
        forall|k: int| old(data)@.len() <= k < final(data)@.len() ==> final(data)@[k] == 0,
{
    if needed <= data.len() {
        assert(data@.subrange(0, data@.len() as int) =~= data@);
        return;
    }
    let mut size: usize = 1;
    while size < needed
        invariant
            needed <= usize::MAX / 2,
            is_pow2(size as int),
            size >= 1,
            size == 1 || size < 2 * needed,
        decreases 2 * needed - size,
    {
        assert((2 * size) / 2 == size);
        size = size * 2;
    }
    while data.len() < size
        invariant
            old(data)@.len() <= data@.len() <= size,
            forall|k: int| 0 <= k < old(data)@.len() ==> data@[k] == old(data)@[k],
            forall|k: int| old(data)@.len() <= k < data@.len() ==> data@[k] == 0,
        decreases size - data@.len(),
    {
        data.push(0);
    }
    assert(data@.subrange(0, old(data)@.len() as int) =~= old(data)@);
}

/// The least multiple of `align` that is at least `offset`.
pub open spec fn aligned(offset: int, align: int) -> int {
    ((offset + align - 1) / align) * align
}

/// The least multiple of `align`, which must be positive, at or above `offset`.
pub fn align_up(offset: usize, align: usize) -> (at: usize)
    requires
        align > 0,
        offset + align <= usize::MAX,
    ensures
        at == aligned(offset as int, align as int),
        offset <= at < offset + align,
        at as int % align as int == 0,
{
    let q: usize = (offset + align - 1) / align;
    proof {
        let (o, a, n) = (offset as int, align as int, offset + align - 1);
        vstd::arithmetic::div_mod::lemma_fundamental_div_mod(n, a);
        vstd::arithmetic::div_mod::lemma_mod_bound(n, a);
        vstd::arithmetic::mul::lemma_mul_is_commutative(a, n / a);
        vstd::arithmetic::div_mod::lemma_mod_multiples_basic(n / a, a);
    }
    q * align
}

/// One is a power of two, twice a power of two is one, and nothing else is.
pub proof fn law_powers_of_two(n: int)
    ensures
        is_pow2(1),
        !is_pow2(0),
        n >= 1 ==> (is_pow2(2 * n) <==> is_pow2(n)),
        n >= 1 ==> !is_pow2(2 * n + 1),
        n < 0 ==> !is_pow2(n),
{
    if n >= 1 {
        assert((2 * n) / 2 == n);
        assert((2 * n) % 2 == 0);
        assert((2 * n + 1) % 2 == 1);
    }
}

/// A region is left alone where it is large enough, and otherwise grows to the least power
/// of two that is.
pub proof fn law_growth(len: int, needed: int, new_len: int)
    requires
        grown_len(len, needed, new_len),
    ensures
        new_len >= needed,
        needed <= len ==> new_len == len,
        needed > len ==> is_pow2(new_len) && (new_len == 1 || new_len / 2 < needed),
{
}

/// The aligned offset is the least multiple of the alignment from the offset on.
pub proof fn law_alignment(offset: int, align: int)
    requires
        offset >= 0,
        align > 0,
    ensures
        offset <= aligned(offset, align) < offset + align,
        aligned(offset, align) % align == 0,
{
    let n = offset + align - 1;
    vstd::arithmetic::div_mod::lemma_fundamental_div_mod(n, align);
    vstd::arithmetic::div_mod::lemma_mod_bound(n, align);
    vstd::arithmetic::mul::lemma_mul_is_commutative(n / align, align);
    vstd::arithmetic::div_mod::lemma_mod_multiples_basic(n / align, align);
}

/// Growing a region: what was in it stays, it is long enough, all that is new is zero, and
/// it does not grow without need. An aligned offset is the next multiple.
pub proof fn law_grown_regions(data: &mut Vec<u8>, needed: usize, offset: usize, align: usize, at: usize)
    requires
        needed <= usize::MAX / 2,
        call_ensures(ensure_capacity, (data, needed), ()),
        align > 0,
        offset + align <= usize::MAX,
        call_ensures(align_up, (offset, align), at),
    ensures
        final(data)@.len() >= needed && final(data)@.len() >= old(data)@.len(),
        needed <= old(data)@.len() ==> final(data)@ == old(data)@,
        forall|k: int| 0 <= k < old(data)@.len() ==> #[trigger] final(data)@[k] == old(data)@[k],
        forall|k: int| old(data)@.len() <= k < final(data)@.len() ==> #[trigger] final(data)@[k] == 0,
        offset <= at < offset + align && at as int % align as int == 0,
{
    law_growth(old(data)@.len() as int, needed as int, final(data)@.len() as int);
    let same = final(data)@.subrange(0, old(data)@.len() as int);
    assert forall|k: int| 0 <= k < old(data)@.len() implies #[trigger] final(data)@[k] == old(data)@[k] by {
        assert(same[k] == final(data)@[k]);
    }
    if needed <= old(data)@.len() {
        assert(final(data)@ =~= old(data)@);
    }
}

} // verus!
