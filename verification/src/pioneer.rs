use vstd::prelude::*;
use crate::bits::{bit, ones, pack, lemma_pack_bit};
use crate::util::{aligned, lemma_aligned_pack};
use crate::paren::{
    close_of, matched, closes, excess, lemma_close_of, lemma_closes_clear,
    lemma_matched_close_before_end, lemma_nested, lemma_closes_unique, lemma_excess_parity,
    lemma_open_of, lemma_close_of_is, lemma_scan_end,
};

verus! {

/// Positions are grouped in blocks of `B_SIZE` for the pioneer index.
pub const B_SIZE: usize = 2;

/// A `(` is far when its closing `)` lies in another block.
pub open spec fn far(x: u64, o: int) -> bool {
    matched(x, o) && o / (B_SIZE as int) < close_of(x, o) / (B_SIZE as int)
}

/// The last far `(` before position `i`; -1 when there is none.
pub open spec fn prev_far(x: u64, i: int) -> int
    decreases i,
{
    if i <= 0 {
        -1
    } else if far(x, i - 1) {
        i - 1
    } else {
        prev_far(x, i - 1)
    }
}

/// A far `(` is an opening pioneer when it is the first far `(`, or when the `)` of the
/// previous far `(` lies in another block than its own `)`.
pub open spec fn pioneer_open(x: u64, o: int) -> bool {
    &&& far(x, o)
    &&& (prev_far(x, o) == -1 || close_of(x, prev_far(x, o)) / (B_SIZE as int) != close_of(x, o)
        / (B_SIZE as int))
}

/// The `)` at `c` closes an opening pioneer.
pub open spec fn pioneer_close(x: u64, c: int) -> bool {
    exists|o: int| #[trigger] pioneer_open(x, o) && close_of(x, o) == c
}

/// An opening pioneer or the `)` that closes one.
pub open spec fn pioneer(x: u64, j: int) -> bool {
    pioneer_open(x, j) || pioneer_close(x, j)
}

/// The pioneer marks of all 64 positions.
pub open spec fn pioneer_bits(x: u64) -> Seq<bool> {
    Seq::new(64, |j: int| pioneer(x, j))
}

/// The parentheses at the pioneers among positions `0 .. n`, in order (`true` for `(`).
pub open spec fn pioneer_kinds(x: u64, n: int) -> Seq<bool>
    decreases n,
{
    if n <= 0 {
        Seq::empty()
    } else if pioneer(x, n - 1) {
        pioneer_kinds(x, n - 1).push(bit(x, n - 1))
    } else {
        pioneer_kinds(x, n - 1)
    }
}

/// The last far `(` before `i`, when there is one, is a far `(` before `i`.
pub proof fn lemma_prev_far(x: u64, i: int)
    ensures
        prev_far(x, i) >= -1,
        prev_far(x, i) >= 0 ==> prev_far(x, i) < i && far(x, prev_far(x, i)),
    decreases i,
{
    if i > 0 && !far(x, i - 1) {
        lemma_prev_far(x, i - 1);
    }
}

/// No far `(` lies between the last far `(` before `i` and `i`.
pub proof fn lemma_prev_far_ge(x: u64, i: int, o: int)
    requires
        0 <= o < i,
        far(x, o),
    ensures
        prev_far(x, i) >= o,
    decreases i,
{
    if !far(x, i - 1) {
        lemma_prev_far_ge(x, i - 1, o);
    }
}

/// A far `(` that is not an opening pioneer follows one directly, and its `)` comes
/// directly before the `)` of that pioneer.
pub proof fn lemma_non_pioneer_far(x: u64, i: int)
    requires
        far(x, i),
        !pioneer_open(x, i),
    ensures
        i >= 1,
        pioneer_open(x, i - 1),
        close_of(x, i - 1) == close_of(x, i) + 1,
{
    lemma_prev_far(x, i);
    let q = prev_far(x, i);
    let cq = close_of(x, q);
    let ci = close_of(x, i);
    lemma_matched_close_before_end(x, q);
    lemma_matched_close_before_end(x, i);
    lemma_scan_end(x);
    lemma_nested(x, q, cq, i, ci);
    lemma_closes_clear(x, q, cq);
    lemma_closes_clear(x, i, ci);
    assert(ci < cq);
    assert(cq == ci + 1 && ci % 2 == 0);
    lemma_excess_parity(x, i);
    lemma_excess_parity(x, ci + 1);
    assert(i % 2 == 1);
    let k = i - 1;
    if q < k {
        assert(excess(x, k) > excess(x, q));
        if bit(x, k) {
            lemma_close_of(x, k);
            if close_of(x, k) == 64 {
                assert(excess(x, cq + 1) > excess(x, k));
            }
            let ck = close_of(x, k);
            lemma_closes_clear(x, k, ck);
            lemma_nested(x, k, ck, i, ci);
            lemma_nested(x, q, cq, k, ck);
            assert(false);
        } else {
            assert(excess(x, i) > excess(x, q));
            assert forall|t: int| q < t <= k implies #[trigger] excess(x, t) > excess(x, q) by {}
            let o = lemma_open_of(x, q, k);
            lemma_close_of_is(x, o, k);
            assert(far(x, o));
            lemma_prev_far_ge(x, i, o);
            assert(false);
        }
    }
    assert(q == i - 1);
    lemma_prev_far(x, q);
    let q2 = prev_far(x, q);
    if q2 >= 0 {
        let cq2 = close_of(x, q2);
        lemma_matched_close_before_end(x, q2);
        if cq2 / 2 == cq / 2 {
            if cq2 == cq {
                lemma_closes_unique(x, q2, q, cq);
            } else {
                assert(cq2 == ci);
                lemma_closes_unique(x, q2, i, ci);
            }
        }
    }
}


/// The `)` at `j` closes an opening pioneer before `n`.
pub open spec fn closed_before(x: u64, j: int, n: int) -> bool {
    exists|o: int| 0 <= o < n && #[trigger] pioneer_open(x, o) && close_of(x, o) == j
}

pub proof fn lemma_closed_before_step(x: u64, j: int, i: int)
    requires
        0 <= i,
    ensures
        closed_before(x, j, i + 1) == (closed_before(x, j, i) || (pioneer_open(x, i) && close_of(
            x,
            i,
        ) == j)),
{
    if closed_before(x, j, i + 1) {
        let o = choose|o: int| 0 <= o < i + 1 && #[trigger] pioneer_open(x, o) && close_of(x, o) == j;
        if o < i {
            assert(closed_before(x, j, i));
        }
    }
    if closed_before(x, j, i) {
        let o = choose|o: int| 0 <= o < i && #[trigger] pioneer_open(x, o) && close_of(x, o) == j;
        assert(0 <= o < i + 1 && pioneer_open(x, o) && close_of(x, o) == j);
    }
    if pioneer_open(x, i) && close_of(x, i) == j {
        assert(0 <= i < i + 1 && pioneer_open(x, i) && close_of(x, i) == j);
    }
}

/// Opening pioneers lie within the word, and closing ones are `)`.
pub proof fn lemma_closed_before_all(x: u64, j: int)
    ensures
        closed_before(x, j, 64) == pioneer_close(x, j),
        closed_before(x, j, j) == pioneer_close(x, j),
        pioneer_open(x, j) ==> bit(x, j) && 0 <= j < 64 && closes(x, j, close_of(x, j)),
        pioneer_close(x, j) ==> !bit(x, j),
{
    lemma_scan_end(x);
    if pioneer_open(x, j) {
        lemma_matched_close_before_end(x, j);
    }
    if pioneer_close(x, j) {
        let o = choose|o: int| #[trigger] pioneer_open(x, o) && close_of(x, o) == j;
        lemma_matched_close_before_end(x, o);
        lemma_closes_clear(x, o, j);
        assert(0 <= o < 64 && pioneer_open(x, o) && close_of(x, o) == j);
        assert(0 <= o < j && pioneer_open(x, o) && close_of(x, o) == j);
    }
}

/// The number of opening pioneers before `k` whose `)` is at or after `n`.
pub open spec fn open_pioneers(x: u64, n: int, k: int) -> nat
    decreases k,
{
    if k <= 0 {
        0
    } else {
        open_pioneers(x, n, k - 1) + if pioneer_open(x, k - 1) && close_of(x, k - 1) >= n {
            1nat
        } else {
            0nat
        }
    }
}

/// The number of `(` minus the number of `)` among the pioneers before `n`.
pub open spec fn pioneer_excess(x: u64, n: int) -> int
    decreases n,
{
    if n <= 0 {
        0
    } else {
        pioneer_excess(x, n - 1) + if pioneer(x, n - 1) {
            if bit(x, n - 1) {
                1int
            } else {
                -1int
            }
        } else {
            0int
        }
    }
}

proof fn lemma_open_pioneers_mono(x: u64, n1: int, n2: int, k: int)
    requires
        forall|o: int|
            0 <= o < k && #[trigger] pioneer_open(x, o) && close_of(x, o) >= n1 ==> close_of(x, o)
                >= n2,
    ensures
        open_pioneers(x, n1, k) <= open_pioneers(x, n2, k),
    decreases k,
{
    if k > 0 {
        lemma_open_pioneers_mono(x, n1, n2, k - 1);
    }
}

proof fn lemma_open_pioneers_tail(x: u64, n: int, k1: int, k2: int)
    requires
        0 <= k1 <= k2,
    ensures
        open_pioneers(x, n, k1) <= open_pioneers(x, n, k2),
        (forall|o: int|
            k1 <= o < k2 && #[trigger] pioneer_open(x, o) ==> close_of(x, o) < n) ==> open_pioneers(
            x,
            n,
            k1,
        ) == open_pioneers(x, n, k2),
    decreases k2 - k1,
{
    if k1 < k2 {
        lemma_open_pioneers_tail(x, n, k1, k2 - 1);
    }
}

proof fn lemma_open_pioneers_step(x: u64, n: int, k: int)
    requires
        0 <= k,
    ensures
        open_pioneers(x, n, k) == open_pioneers(x, n + 1, k) + if closed_before(x, n, k) {
            1int
        } else {
            0int
        },
    decreases k,
{
    if k > 0 {
        lemma_closed_before_step(x, n, k - 1);
        lemma_open_pioneers_step(x, n, k - 1);
        if closed_before(x, n, k - 1) && pioneer_open(x, k - 1) && close_of(x, k - 1) == n {
            let o = choose|o: int|
                0 <= o < k - 1 && #[trigger] pioneer_open(x, o) && close_of(x, o) == n;
            lemma_closed_before_all(x, o);
            lemma_closed_before_all(x, k - 1);
            lemma_closes_unique(x, o, k - 1, n);
        }
    }
}

/// The pioneer excess counts the opening pioneers still open.
pub proof fn lemma_pioneer_excess(x: u64, n: int)
    requires
        0 <= n <= 64,
    ensures
        pioneer_excess(x, n) == open_pioneers(x, n, n),
    decreases n,
{
    if n > 0 {
        let m = n - 1;
        lemma_pioneer_excess(x, m);
        lemma_open_pioneers_step(x, m, m);
        lemma_closed_before_all(x, m);
        if pioneer_open(x, m) {
            lemma_close_of(x, m);
        }
    }
}

/// Within the pair of an opening pioneer the pioneer excess stays above its value at
/// the pioneer, and it comes back to that value right after the pair.
pub proof fn lemma_pioneer_span(x: u64, s: int, t: int)
    requires
        pioneer_open(x, s),
        s < t <= close_of(x, s) + 1,
    ensures
        t <= close_of(x, s) ==> pioneer_excess(x, t) > pioneer_excess(x, s),
        t == close_of(x, s) + 1 ==> pioneer_excess(x, t) == pioneer_excess(x, s),
{
    let cs = close_of(x, s);
    lemma_closed_before_all(x, s);
    lemma_pioneer_excess(x, s);
    lemma_pioneer_excess(x, t);
    // the pioneers before s that are still open at s hold the pair of s
    assert forall|o: int|
        0 <= o < s && #[trigger] pioneer_open(x, o) && close_of(x, o) >= s implies close_of(x, o)
        > cs by {
        lemma_closed_before_all(x, o);
        lemma_closes_clear(x, o, close_of(x, o));
        lemma_nested(x, o, close_of(x, o), s, cs);
    }
    lemma_open_pioneers_mono(x, s, t, s);
    lemma_open_pioneers_tail(x, t, s, t);
    lemma_open_pioneers_tail(x, t, s, s + 1);
    lemma_open_pioneers_tail(x, t, s + 1, t);
    if t == cs + 1 {
        assert forall|o: int| s <= o < t && #[trigger] pioneer_open(x, o) implies close_of(x, o) < t by {
            if o > s {
                lemma_closed_before_all(x, o);
                lemma_closes_clear(x, o, close_of(x, o));
                lemma_nested(x, s, cs, o, close_of(x, o));
            }
        }
        lemma_open_pioneers_tail(x, t, s, t);
        lemma_open_pioneers_mono(x, t, s, s);
    }
}


/// The pioneer parentheses before `n` begin those before any later `m`.
pub proof fn lemma_kinds_prefix(x: u64, n: int, m: int)
    requires
        0 <= n <= m,
    ensures
        pioneer_kinds(x, n).len() <= pioneer_kinds(x, m).len() <= pioneer_kinds(x, n).len() + (m
            - n),
        forall|k: int|
            0 <= k < pioneer_kinds(x, n).len() ==> #[trigger] pioneer_kinds(x, m)[k]
                == pioneer_kinds(x, n)[k],
    decreases m - n,
{
    if n < m {
        lemma_kinds_prefix(x, n, m - 1);
    }
}

/// The parenthesis at a pioneer `j` has the index of the number of pioneers before it.
pub proof fn lemma_kinds_at(x: u64, j: int, m: int)
    requires
        0 <= j < m,
        pioneer(x, j),
    ensures
        pioneer_kinds(x, j).len() < pioneer_kinds(x, m).len(),
        pioneer_kinds(x, m)[pioneer_kinds(x, j).len() as int] == bit(x, j),
{
    lemma_kinds_prefix(x, j + 1, m);
}

/// Between `lo` and `hi`, each count of pioneers is reached at some position.
pub proof fn lemma_kinds_hit(x: u64, lo: int, hi: int, k: int) -> (t: int)
    requires
        0 <= lo <= hi,
        pioneer_kinds(x, lo).len() <= k <= pioneer_kinds(x, hi).len(),
    ensures
        lo <= t <= hi,
        pioneer_kinds(x, t).len() == k,
    decreases hi - lo,
{
    if k == pioneer_kinds(x, hi).len() {
        hi
    } else {
        lemma_kinds_prefix(x, hi - 1, hi);
        lemma_kinds_hit(x, lo, hi - 1, k)
    }
}

/// The pioneer with `k` pioneers before it.
pub proof fn lemma_nth_pioneer(x: u64, k: int, n: int) -> (j: int)
    requires
        0 <= k < pioneer_kinds(x, n).len(),
    ensures
        0 <= j < n,
        pioneer(x, j),
        pioneer_kinds(x, j).len() == k,
    decreases n,
{
    if k < pioneer_kinds(x, n - 1).len() {
        lemma_nth_pioneer(x, k, n - 1)
    } else {
        n - 1
    }
}

/// The pioneer marks, packed, count the pioneers.
pub proof fn lemma_ones_kinds(x: u64, n: int)
    requires
        0 <= n <= 64,
    ensures
        ones(pack(pioneer_bits(x)), n) == pioneer_kinds(x, n).len(),
        forall|j: int| 0 <= j < 64 ==> #[trigger] bit(pack(pioneer_bits(x)), j) == pioneer(x, j),
    decreases n,
{
    assert forall|j: int| 0 <= j < 64 implies #[trigger] bit(pack(pioneer_bits(x)), j) == pioneer(
        x,
        j,
    ) by {
        lemma_pack_bit(pioneer_bits(x), j);
    }
    if n > 0 {
        lemma_ones_kinds(x, n - 1);
    }
}

/// The first pioneer is a `(`.
pub proof fn lemma_first_pioneer(x: u64)
    requires
        pioneer_kinds(x, 64).len() > 0,
    ensures
        pioneer_kinds(x, 64)[0],
{
    let j = lemma_nth_pioneer(x, 0, 64);
    lemma_kinds_at(x, j, 64);
    if pioneer_close(x, j) {
        let o = choose|o: int| #[trigger] pioneer_open(x, o) && close_of(x, o) == j;
        lemma_closed_before_all(x, o);
        lemma_kinds_at(x, o, j);
    }
    lemma_closed_before_all(x, j);
}

/// The word of the pioneer parentheses, shifted left: its bits are those parentheses,
/// then zeros.
pub proof fn lemma_p1_bits(x: u64)
    requires
        pioneer_kinds(x, 64).len() > 0,
    ensures
        pioneer_kinds(x, 64).len() <= 64,
        forall|k: int|
            #[trigger] bit(aligned(pack(pioneer_kinds(x, 64))), k) == (0 <= k < pioneer_kinds(
                x,
                64,
            ).len() && pioneer_kinds(x, 64)[k]),
        aligned(aligned(pack(pioneer_kinds(x, 64)))) == aligned(pack(pioneer_kinds(x, 64))),
        aligned(pack(pioneer_kinds(x, 64))) != 0,
{
    lemma_kinds_prefix(x, 0, 64);
    lemma_first_pioneer(x);
    lemma_aligned_pack(pioneer_kinds(x, 64));
}

/// The excess of the pioneer parentheses, read in the word of them, is the pioneer
/// excess.
pub proof fn lemma_p1_excess(x: u64, n: int)
    requires
        pioneer_kinds(x, 64).len() > 0,
        0 <= n <= 64,
    ensures
        excess(aligned(pack(pioneer_kinds(x, 64))), pioneer_kinds(x, n).len() as int)
            == pioneer_excess(x, n),
    decreases n,
{
    if n > 0 {
        lemma_p1_excess(x, n - 1);
        lemma_p1_bits(x);
        if pioneer(x, n - 1) {
            lemma_kinds_at(x, n - 1, 64);
        }
    }
}

} // verus!
