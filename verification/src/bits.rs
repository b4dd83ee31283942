use vstd::prelude::*;

verus! {

/// The bit of `x` at position `i`, where position 0 is the most significant bit
/// and position 63 the least significant one.
pub open spec fn bit(x: u64, i: int) -> bool {
    0 <= i < 64 && (x >> ((63 - i) as u64)) & 1u64 == 1u64
}

/// The bit at position `i` as a number, 0 or 1.
pub open spec fn bit_val(x: u64, i: int) -> nat {
    if bit(x, i) {
        1
    } else {
        0
    }
}

/// The number of set bits of `x` among positions `0 .. n`.
pub open spec fn ones(x: u64, n: int) -> nat
    decreases n,
{
    if n <= 0 {
        0
    } else {
        ones(x, n - 1) + bit_val(x, n - 1)
    }
}

proof fn lemma_shl_bit_bv(x: u64, k: u64, i: u64)
    by (bit_vector)
    requires
        k < 64,
        i < 64,
    ensures
        ((x << k) >> ((63 - i) as u64)) & 1u64 == if i + k < 64 {
            (x >> ((63 - i - k) as u64)) & 1u64
        } else {
            0u64
        },
{
}

/// Shifting left by `k` moves every bit `k` positions towards position 0.
pub proof fn lemma_shl_bit(x: u64, k: u64, i: int)
    requires
        k < 64,
    ensures
        bit(x << k, i) == (0 <= i && i + k < 64 && bit(x, i + k)),
{
    if 0 <= i < 64 {
        let j = i as u64;
        lemma_shl_bit_bv(x, k, j);
        assert(((63 - j) as u64) == ((63 - i) as u64));
        if i + k < 64 {
            assert(((63 - j - k) as u64) == ((63 - (i + k)) as u64));
        }
    }
}


/// A set bit counts one, a clear bit none, and the count never decreases:
/// the number of set bits in `m .. n` lies between 0 and `n - m`.
pub proof fn lemma_ones_mono(x: u64, m: int, n: int)
    requires
        0 <= m <= n,
    ensures
        ones(x, m) <= ones(x, n) <= ones(x, m) + (n - m),
    decreases n - m,
{
    if m < n {
        lemma_ones_mono(x, m, n - 1);
    }
}

/// Positions past 63 hold no bits.
pub proof fn lemma_ones_full(x: u64, n: int)
    requires
        n >= 64,
    ensures
        ones(x, n) == ones(x, 64),
    decreases n,
{
    if n > 64 {
        lemma_ones_full(x, n - 1);
    }
}

/// No count of set bits exceeds the width of the word.
pub proof fn lemma_ones_bound(x: u64, n: int)
    ensures
        ones(x, n) <= 64,
        0 <= n <= 64 ==> ones(x, n) <= n,
{
    if n <= 0 {
    } else if n <= 64 {
        lemma_ones_mono(x, 0, n);
        lemma_ones_mono(x, n, 64);
    } else {
        lemma_ones_full(x, n);
        lemma_ones_mono(x, 0, 64);
    }
}

proof fn lemma_chunk_bv(b: u64, o: u64)
    by (bit_vector)
    requires
        o <= 61,
    ensures
        (b >> ((61 - o) as u64)) & 7u64 == 4 * ((b >> ((63 - o) as u64)) & 1u64) + 2 * ((b >> ((
        62 - o) as u64)) & 1u64) + ((b >> ((61 - o) as u64)) & 1u64),
        (((b >> ((61 - o) as u64)) as u8) & 7u8) as u64 == (b >> ((61 - o) as u64)) & 7u64,
        (b >> ((63 - o) as u64)) & 1u64 <= 1u64,
        (b >> ((62 - o) as u64)) & 1u64 <= 1u64,
        (b >> ((61 - o) as u64)) & 1u64 <= 1u64,
{
}

/// The three bits at positions `o, o + 1, o + 2`, read as one number with
/// position `o` the most significant.
pub proof fn lemma_chunk(b: u64, o: int)
    requires
        0 <= o <= 61,
    ensures
        (b >> ((61 - o) as u64)) & 7u64 == 4 * bit_val(b, o) + 2 * bit_val(b, o + 1) + bit_val(
            b,
            o + 2,
        ),
        (((b >> ((61 - o) as u64)) as u8) & 7u8) as u64 == (b >> ((61 - o) as u64)) & 7u64,
{
    let u = o as u64;
    lemma_chunk_bv(b, u);
    assert(((63 - u) as u64) == ((63 - o) as u64));
    assert(((62 - u) as u64) == ((63 - (o + 1)) as u64));
    assert(((61 - u) as u64) == ((63 - (o + 2)) as u64));
    assert(((61 - u) as u64) == ((61 - o) as u64));
}

proof fn lemma_low_bit_bv(b: u64)
    by (bit_vector)
    ensures
        (b >> 0u64) & 1u64 == b & 1u64,
        b & 1u64 <= 1u64,
{
}

/// The least significant bit is the bit at position 63.
pub proof fn lemma_low_bit(b: u64)
    ensures
        (b & 1u64) as nat == bit_val(b, 63),
{
    lemma_low_bit_bv(b);
}


/// The first position `p` at which the number of set bits among positions
/// `0 ..= p` reaches `k`; 64 when no position does.
pub open spec fn nth_one(x: u64, k: int) -> int {
    nth_one_from(x, k, 0)
}

/// The search of [`nth_one`] from position `p` on.
pub open spec fn nth_one_from(x: u64, k: int, p: int) -> int
    decreases 64 - p,
{
    if p >= 64 {
        64
    } else if ones(x, p + 1) >= k {
        p
    } else {
        nth_one_from(x, k, p + 1)
    }
}

proof fn lemma_nth_one_from(x: u64, k: int, p: int, q: int)
    requires
        1 <= k,
        0 <= q <= p < 64,
        ones(x, p + 1) == k,
        bit(x, p),
    ensures
        nth_one_from(x, k, q) == p,
    decreases p - q,
{
    if q < p {
        lemma_ones_mono(x, q + 1, p);
        lemma_nth_one_from(x, k, p, q + 1);
    }
}

/// A set bit at `p` that brings the count to `k` is the `k`-th set bit.
pub proof fn lemma_nth_one_at(x: u64, k: int, p: int)
    requires
        1 <= k,
        0 <= p < 64,
        ones(x, p + 1) == k,
        bit(x, p),
    ensures
        nth_one(x, k) == p,
{
    lemma_nth_one_from(x, k, p, 0);
}

proof fn lemma_nth_one_found_from(x: u64, k: int, q: int)
    requires
        1 <= k <= ones(x, 64),
        0 <= q <= 64,
        ones(x, q) < k,
    ensures
        q <= nth_one_from(x, k, q) < 64,
        bit(x, nth_one_from(x, k, q)),
        ones(x, nth_one_from(x, k, q) + 1) == k,
    decreases 64 - q,
{
    if q >= 64 {
        assert(false);
    } else if ones(x, q + 1) >= k {
    } else {
        lemma_nth_one_found_from(x, k, q + 1);
    }
}

/// For `1 <= k <=` the number of set bits, the `k`-th set bit exists and is
/// where the count reaches `k`.
pub proof fn lemma_nth_one_found(x: u64, k: int)
    requires
        1 <= k <= ones(x, 64),
    ensures
        0 <= nth_one(x, k) < 64,
        bit(x, nth_one(x, k)),
        ones(x, nth_one(x, k) + 1) == k,
{
    lemma_nth_one_found_from(x, k, 0);
}


proof fn lemma_one_bit_bv(b: u64, s: u64)
    by (bit_vector)
    ensures
        (b >> s) & 1u64 <= 1u64,
        ((b >> s) & 1u64) as u8 as u64 == (b >> s) & 1u64,
{
}

/// The bit at position `k`, shifted down to the least significant place.
pub proof fn lemma_bit_value(b: u64, k: int)
    requires
        0 <= k < 64,
    ensures
        ((b >> ((63 - k) as u64)) & 1u64) as nat == bit_val(b, k),
        (((b >> ((63 - k) as u64)) & 1u64) as u8) as nat == bit_val(b, k),
{
    lemma_one_bit_bv(b, (63 - k) as u64);
}

/// Splitting a number `4 * b0 + 2 * b1 + b2` of three binary digits into its digits.
pub proof fn lemma_bits_of_chunk(v: u8, b0: u8, b1: u8, b2: u8)
    by (bit_vector)
    requires
        b0 <= 1,
        b1 <= 1,
        b2 <= 1,
        v == 4 * b0 + 2 * b1 + b2,
    ensures
        (v >> 2u8) & 1u8 == b0,
        (v >> 1u8) & 1u8 == b1,
        v & 1u8 == b2,
{
}


/// Shifting by a `u8` amount is shifting by the same `u64` amount.
pub proof fn lemma_shr_u8(b: u64, s: u8)
    by (bit_vector)
    requires
        s < 64,
    ensures
        b >> s == b >> (s as u64),
{
}

/// Shifting by a `usize` amount is shifting by the same `u64` amount.
pub proof fn lemma_shr_usize(b: u64, s: usize)
    by (bit_vector)
    requires
        s < 64,
    ensures
        b >> s == b >> (s as u64),
{
}


proof fn lemma_or_one_bv(w: u64, j: u64)
    by (bit_vector)
    requires
        j < 64,
    ensures
        (((w << 1u64) | 1u64) >> ((63 - j) as u64)) & 1u64 == if j == 63 {
            1u64
        } else {
            ((w << 1u64) >> ((63 - j) as u64)) & 1u64
        },
        (w << 0u64) == w,
        (0u64 >> ((63 - j) as u64)) & 1u64 == 0u64,
{
}

/// Setting the least significant bit after a shift by one.
pub proof fn lemma_shl_or_one_bit(w: u64, j: int)
    ensures
        bit((w << 1u64) | 1u64, j) == (j == 63 || (0 <= j < 63 && bit(w, j + 1))),
        bit(w << 1u64, j) == (0 <= j < 63 && bit(w, j + 1)),
{
    lemma_shl_bit(w, 1, j);
    if 0 <= j < 64 {
        lemma_or_one_bv(w, j as u64);
        assert(((63 - (j as u64)) as u64) == ((63 - j) as u64));
    }
}

/// The word 0 has no set bit, and shifting by 0 changes nothing.
pub proof fn lemma_zero_word(w: u64, j: int)
    ensures
        !bit(0u64, j),
        w << 0u64 == w,
{
    lemma_or_one_bv(w, 0);
    if 0 <= j < 64 {
        lemma_or_one_bv(w, j as u64);
        assert(((63 - (j as u64)) as u64) == ((63 - j) as u64));
    }
}

/// The word that a run of bits gives when they are shifted in from the right, one by
/// one, the last one least significant; only the last 64 stay.
pub open spec fn pack(s: Seq<bool>) -> u64
    decreases s.len(),
{
    if s.len() == 0 {
        0
    } else if s.last() {
        (pack(s.drop_last()) << 1u64) | 1u64
    } else {
        pack(s.drop_last()) << 1u64
    }
}


/// Shifting in one more bit.
pub proof fn lemma_pack_push(s: Seq<bool>, v: bool)
    ensures
        pack(s.push(v)) == if v {
            (pack(s) << 1u64) | 1u64
        } else {
            pack(s) << 1u64
        },
{
    assert(s.push(v).drop_last() =~= s);
}


/// The bits of [`pack`]: the last bits shifted in, at the least significant end.
pub proof fn lemma_pack_bit(s: Seq<bool>, j: int)
    requires
        0 <= j < 64,
    ensures
        bit(pack(s), j) == (s.len() - 64 + j >= 0 && s[s.len() - 64 + j]),
    decreases s.len(),
{
    lemma_zero_word(0, j);
    if s.len() > 0 {
        let t = s.drop_last();
        lemma_shl_or_one_bit(pack(t), j);
        if j < 63 {
            lemma_pack_bit(t, j + 1);
        }
    }
}


proof fn lemma_concat_step_bv(a: u64, b: u64, n: u64)
    by (bit_vector)
    requires
        n < 63,
    ensures
        ((a << n) | b) << 1u64 == (a << ((n + 1) as u64)) | (b << 1u64),
        (((a << n) | b) << 1u64) | 1u64 == (a << ((n + 1) as u64)) | ((b << 1u64) | 1u64),
        (a << 0u64) | 0u64 == a,
{
}

/// Shifting in `s` and then `t` is shifting the word of `s` left by the length of `t`
/// and setting the word of `t` below it.
pub proof fn lemma_pack_concat(s: Seq<bool>, t: Seq<bool>)
    requires
        t.len() < 64,
    ensures
        pack(s + t) == (pack(s) << (t.len() as u64)) | pack(t),
    decreases t.len(),
{
    lemma_concat_step_bv(pack(s), 0, 0);
    if t.len() == 0 {
        assert(s + t =~= s);
    } else {
        let t2 = t.drop_last();
        let v = t.last();
        assert(s + t =~= (s + t2).push(v));
        assert(t =~= t2.push(v));
        lemma_pack_concat(s, t2);
        lemma_pack_push(s + t2, v);
        lemma_pack_push(t2, v);
        lemma_concat_step_bv(pack(s), pack(t2), t2.len() as u64);
    }
}

proof fn lemma_ones_step_bv(k: u64)
    by (bit_vector)
    requires
        k < 63,
    ensures
        (((1u64 << k) - 1) as u64) << 1u64 | 1u64 == ((1u64 << ((k + 1) as u64)) - 1) as u64,
        1u64 << k >= 1,
        (1u64 << 0u64) - 1 == 0,
{
}

proof fn lemma_top_bit_bv()
    by (bit_vector)
    ensures
        1u64 << 63u64 >= 1,
{
}

/// A run of `k` set bits is the word `2^k - 1`.
pub proof fn lemma_pack_ones(k: int)
    requires
        0 <= k < 64,
    ensures
        pack(Seq::new(k as nat, |i: int| true)) == ((1u64 << (k as u64)) - 1) as u64,
        1u64 << (k as u64) >= 1,
    decreases k,
{
    lemma_ones_step_bv(0);
    if k < 63 {
        lemma_ones_step_bv(k as u64);
    } else {
        lemma_top_bit_bv();
    }
    if k > 0 {
        let s = Seq::new(k as nat, |i: int| true);
        let s2 = Seq::new((k - 1) as nat, |i: int| true);
        assert(s =~= s2.push(true));
        lemma_pack_ones(k - 1);
        lemma_pack_push(s2, true);
        lemma_ones_step_bv((k - 1) as u64);
        assert(((k - 1) as u64 + 1) as u64 == k as u64);
    } else {
        assert(Seq::new(k as nat, |i: int| true) =~= Seq::<bool>::empty());
    }
}

proof fn lemma_not_bit_bv(x: u64, j: u64)
    by (bit_vector)
    requires
        j < 64,
    ensures
        ((x ^ 0xffff_ffff_ffff_ffffu64) >> j) & 1u64 == 1u64 <==> (x >> j) & 1u64 != 1u64,
{
}

/// The bits of the complement are the bits of `x` flipped.
pub proof fn lemma_not_bit(x: u64, j: int)
    ensures
        bit(x ^ 0xffff_ffff_ffff_ffffu64, j) == (0 <= j < 64 && !bit(x, j)),
{
    if 0 <= j < 64 {
        lemma_not_bit_bv(x, (63 - j) as u64);
    }
}


/// Shifting left by a `u32` or `usize` amount is shifting by the same `u64` amount.
pub proof fn lemma_shl_widths(b: u64, s32: u32, su: usize)
    by (bit_vector)
    requires
        s32 < 64,
        su < 64,
    ensures
        b << s32 == b << (s32 as u64),
        b << su == b << (su as u64),
{
}

proof fn lemma_shl_or_bv(x: u64, y: u64, m: u64)
    by (bit_vector)
    ensures
        (x | y) << m == (x << m) | (y << m),
{
}

proof fn lemma_shl_add_bv(b: u64, n: u64, m: u64)
    by (bit_vector)
    requires
        n + m < 64,
    ensures
        (b << n) << m == b << ((n + m) as u64),
{
}

proof fn lemma_or_assoc_bv(a: u64, b: u64, c: u64)
    by (bit_vector)
    ensures
        (a | b) | c == a | (b | c),
        (a << 1u64) | 0u64 == a << 1u64,
{
}

/// Shifting a shifted word further, with a word set below.
pub proof fn lemma_shl_shl(b: u64, p: u64, q: u64, n: u64, m: u64)
    requires
        n + m < 64,
    ensures
        (((b << n) | p) << m) | q == (b << ((n + m) as u64)) | ((p << m) | q),
        (b << 1u64) | 0u64 == b << 1u64,
{
    lemma_shl_or_bv(b << n, p, m);
    lemma_shl_add_bv(b, n, m);
    lemma_or_assoc_bv(b << ((n + m) as u64), p << m, q);
    lemma_or_assoc_bv(b, 0, 0);
}

} // verus!
