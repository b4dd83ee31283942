use vstd::prelude::*;
use crate::bits::{bit, bit_val, lemma_bit_value, lemma_shl_bit, pack, lemma_pack_bit, lemma_zero_word};
use vstd::std_specs::bits::{u64_leading_zeros, axiom_u64_leading_zeros};

verus! {

/// The position of the first set bit of `x`, counted from the most significant
/// bit; 64 when `x` is 0.
pub open spec fn lead(x: u64) -> int {
    lead_from(x, 0)
}

/// The search of [`lead`] from position `i` on.
pub open spec fn lead_from(x: u64, i: int) -> int
    decreases 64 - i,
{
    if i >= 64 {
        64
    } else if bit(x, i) {
        i
    } else {
        lead_from(x, i + 1)
    }
}

/// `x` shifted left until its first set bit is the most significant one.
pub open spec fn aligned(x: u64) -> u64 {
    if x == 0 {
        0
    } else {
        x << (lead(x) as u64)
    }
}

proof fn lemma_lead_from(x: u64, p: int, i: int)
    requires
        0 <= i <= p < 64,
        bit(x, p),
        forall|q: int| 0 <= q < p ==> !bit(x, q),
    ensures
        lead_from(x, i) == p,
    decreases p - i,
{
    if i < p {
        lemma_lead_from(x, p, i + 1);
    }
}

/// The first set bit is the set bit with no set bit before it.
pub proof fn lemma_lead_at(x: u64, p: int)
    requires
        0 <= p < 64,
        bit(x, p),
        forall|q: int| 0 <= q < p ==> !bit(x, q),
    ensures
        lead(x) == p,
{
    lemma_lead_from(x, p, 0);
}

proof fn lemma_lead_from_props(x: u64, i: int)
    requires
        0 <= i <= 64,
        forall|q: int| 0 <= q < i ==> !bit(x, q),
    ensures
        i <= lead_from(x, i) <= 64,
        lead_from(x, i) < 64 ==> bit(x, lead_from(x, i)),
        forall|q: int| 0 <= q < lead_from(x, i) ==> !bit(x, q),
    decreases 64 - i,
{
    if i < 64 && !bit(x, i) {
        lemma_lead_from_props(x, i + 1);
    }
}

proof fn lemma_zero_bits_bv(x: u64, s: u64)
    by (bit_vector)
    requires
        x == 0,
    ensures
        (x >> s) & 1u64 == 0u64,
{
}

proof fn lemma_one_bit_bv(x: u64, s: u64)
    by (bit_vector)
    ensures
        (x >> s) & 1u64 != 0u64 ==> (x >> s) & 1u64 == 1u64,
{
}

/// The first set bit of a nonzero word exists, and no bit is set before it; the
/// word 0 has no set bit. It is what `leading_zeros` counts.
pub proof fn lemma_lead(x: u64)
    ensures
        0 <= lead(x) <= 64,
        forall|q: int| 0 <= q < lead(x) ==> !bit(x, q),
        x != 0 <==> lead(x) < 64,
        x != 0 ==> bit(x, lead(x)),
        lead(x) == u64_leading_zeros(x),
{
    lemma_lead_from_props(x, 0);
    axiom_u64_leading_zeros(x);
    let lz = u64_leading_zeros(x);
    if x == 0 {
        if lead(x) < 64 {
            lemma_zero_bits_bv(x, (63 - lead(x)) as u64);
        }
    } else {
        lemma_one_bit_bv(x, (63 - lz) as u64);
        assert(bit(x, lz));
        assert forall|q: int| 0 <= q < lz implies !bit(x, q) by {
            let j = (63 - q) as u64;
            assert(64 - lz <= j < 64);
            assert((x >> j) & 1u64 == 0u64);
        }
        lemma_lead_at(x, lz);
    }
}

/// Bits of [`aligned`]: the bits of `x` from its first set bit on, then zeros.
pub proof fn lemma_aligned_bit(x: u64, i: int)
    ensures
        bit(aligned(x), i) == (0 <= i && i + lead(x) < 64 && bit(x, i + lead(x))),
{
    lemma_lead(x);
    if x == 0 {
        if 0 <= i < 64 {
            lemma_zero_bits_bv(0u64, (63 - i) as u64);
        }
    } else {
        lemma_shl_bit(x, lead(x) as u64, i);
    }
}

/// Bits shifted in from the right and then shifted left: a run of at most 64 bits
/// that starts with a set bit becomes the first bits of the word.
pub proof fn lemma_aligned_pack(s: Seq<bool>)
    requires
        0 < s.len() <= 64,
        s[0],
    ensures
        lead(pack(s)) == 64 - s.len(),
        forall|k: int| #[trigger] bit(aligned(pack(s)), k) == (0 <= k < s.len() && s[k]),
        aligned(aligned(pack(s))) == aligned(pack(s)),
        aligned(pack(s)) != 0,
        bit(aligned(pack(s)), 0),
{
    let m = s.len() as int;
    let w = pack(s);
    let p = aligned(w);
    assert forall|j: int| 0 <= j < 64 implies #[trigger] bit(w, j) == (m - 64 + j >= 0 && s[m - 64 + j]) by {
        lemma_pack_bit(s, j);
    }
    assert(bit(w, 64 - m));
    assert forall|q: int| 0 <= q < 64 - m implies !bit(w, q) by {}
    lemma_lead_at(w, 64 - m);
    assert forall|k: int| #[trigger] bit(p, k) == (0 <= k < m && s[k]) by {
        lemma_aligned_bit(w, k);
    }
    lemma_zero_word(p, 0);
    assert(bit(p, 0));
    assert forall|q: int| 0 <= q < 0 implies !bit(p, q) by {}
    lemma_lead_at(p, 0);
}

/// The bit of `b` at position `i` counted from the most significant bit, as 0 or 1.
#[inline(always)]
pub fn get_bitl(b: &u64, i: u8) -> (r: u8)
    requires
        i < 64,
    ensures
        r == bit_val(*b, i as int),
{
    proof {
        lemma_bit_value(*b, i as int);
        assert(((63 - i) as u64) == ((63 - i as int) as u64));
    }
    ((*b >> (63 - i)) & 1) as u8
}

/// Shifts `b` left until its first set bit is the most significant one.
pub fn left_align(b: u64) -> (r: u64)
    ensures
        r == aligned(b),
{
    proof {
        lemma_lead(b);
    }
    if b == 0 {
        return 0;
    }
    let lz = b.leading_zeros();
    b << lz
}

} // verus!
