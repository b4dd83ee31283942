use vstd::prelude::*;
use crate::bits::bit;

verus! {

// A word read as a sequence of 64 parentheses: a set bit is `(`, a clear bit `)`,
// position 0 (the most significant bit) first.

/// The number of `(` minus the number of `)` among positions `0 .. n`.
pub open spec fn excess(x: u64, n: int) -> int
    decreases n,
{
    if n <= 0 {
        0
    } else {
        excess(x, n - 1) + if bit(x, n - 1) {
            1int
        } else {
            -1int
        }
    }
}

/// The first position whose `)` has no `(` to match, that is where the excess of
/// the prefix first drops below 0; 64 when there is none.
pub open spec fn scan_end(x: u64) -> int {
    scan_end_from(x, 0)
}

/// The search of [`scan_end`] from position `i` on.
pub open spec fn scan_end_from(x: u64, i: int) -> int
    decreases 64 - i,
{
    if i >= 64 {
        64
    } else if excess(x, i + 1) < 0 {
        i
    } else {
        scan_end_from(x, i + 1)
    }
}

/// The position of the `)` that closes the `(` at `o`: the first position after `o`
/// at which the excess returns to its value before `o`; 64 when there is none.
pub open spec fn close_of(x: u64, o: int) -> int {
    close_from(x, o, o + 1)
}

/// The search of [`close_of`] from position `j` on.
pub open spec fn close_from(x: u64, o: int, j: int) -> int
    decreases 64 - j,
{
    if j >= 64 {
        64
    } else if excess(x, j + 1) == excess(x, o) {
        j
    } else {
        close_from(x, o, j + 1)
    }
}

/// The `(` at `o` is closed by a `)` of the word, before any unmatched `)`.
pub open spec fn matched(x: u64, o: int) -> bool {
    0 <= o < scan_end(x) && bit(x, o) && close_of(x, o) < 64
}

/// Between `o` and `c`, the excess stays above its value before `o`.
pub open spec fn stays_above(x: u64, o: int, c: int) -> bool {
    forall|t: int| o < t <= c ==> #[trigger] excess(x, t) > excess(x, o)
}

/// The `)` at `c` closes the `(` at `o`.
pub open spec fn closes(x: u64, o: int, c: int) -> bool {
    &&& 0 <= o < c < 64
    &&& bit(x, o)
    &&& excess(x, c + 1) == excess(x, o)
    &&& stays_above(x, o, c)
}

/// Each position moves the excess by one.
pub proof fn lemma_excess_step(x: u64, n: int)
    requires
        0 <= n,
    ensures
        excess(x, n + 1) == excess(x, n) + if bit(x, n) {
            1int
        } else {
            -1int
        },
{
}

proof fn lemma_close_from(x: u64, o: int, j: int)
    requires
        0 <= o < j <= 64,
        bit(x, o),
        stays_above(x, o, j),
    ensures
        j <= close_from(x, o, j) <= 64,
        close_from(x, o, j) < 64 ==> closes(x, o, close_from(x, o, j)),
        close_from(x, o, j) == 64 ==> stays_above(x, o, 64),
    decreases 64 - j,
{
    if j < 64 {
        if excess(x, j + 1) != excess(x, o) {
            assert(excess(x, j) > excess(x, o));
            lemma_excess_step(x, j);
            assert(excess(x, j + 1) > excess(x, o));
            lemma_close_from(x, o, j + 1);
        }
    }
}

/// What [`close_of`] finds: the closing `)`, or that the excess never comes back.
pub proof fn lemma_close_of(x: u64, o: int)
    requires
        0 <= o < 64,
        bit(x, o),
    ensures
        o < close_of(x, o) <= 64,
        close_of(x, o) < 64 ==> closes(x, o, close_of(x, o)),
        close_of(x, o) == 64 ==> stays_above(x, o, 64),
{
    lemma_close_from(x, o, o + 1);
}

proof fn lemma_close_from_is(x: u64, o: int, c: int, j: int)
    requires
        closes(x, o, c),
        o < j <= c,
    ensures
        close_from(x, o, j) == c,
    decreases c - j,
{
    if j < c {
        assert(excess(x, j + 1) > excess(x, o));
        lemma_close_from_is(x, o, c, j + 1);
    }
}

/// A `)` that closes the `(` at `o` is the one [`close_of`] finds.
pub proof fn lemma_close_of_is(x: u64, o: int, c: int)
    requires
        closes(x, o, c),
    ensures
        close_of(x, o) == c,
{
    lemma_close_from_is(x, o, c, o + 1);
}

proof fn lemma_scan_end_from(x: u64, i: int)
    requires
        0 <= i <= 64,
        forall|k: int| 0 <= k <= i ==> #[trigger] excess(x, k) >= 0,
    ensures
        i <= scan_end_from(x, i) <= 64,
        forall|k: int| 0 <= k <= scan_end_from(x, i) ==> #[trigger] excess(x, k) >= 0,
        scan_end_from(x, i) < 64 ==> excess(x, scan_end_from(x, i) + 1) == -1,
    decreases 64 - i,
{
    if i < 64 {
        assert(excess(x, i) >= 0);
        lemma_excess_step(x, i);
        if excess(x, i + 1) >= 0 {
            lemma_scan_end_from(x, i + 1);
        }
    }
}

/// What [`scan_end`] finds: the excess is never negative up to it, and it is the
/// place where the excess first drops to -1.
pub proof fn lemma_scan_end(x: u64)
    ensures
        0 <= scan_end(x) <= 64,
        forall|k: int| 0 <= k <= scan_end(x) ==> #[trigger] excess(x, k) >= 0,
        scan_end(x) < 64 ==> excess(x, scan_end(x) + 1) == -1,
        scan_end(x) < 64 ==> !bit(x, scan_end(x)),
{
    lemma_scan_end_from(x, 0);
    let u = scan_end(x);
    if u < 64 {
        assert(excess(x, u) >= 0);
        lemma_excess_step(x, u);
    }
}

proof fn lemma_scan_end_from_is(x: u64, u: int, i: int)
    requires
        0 <= i <= u <= 64,
        forall|k: int| 0 <= k <= u ==> #[trigger] excess(x, k) >= 0,
        u < 64 ==> excess(x, u + 1) < 0,
    ensures
        scan_end_from(x, i) == u,
    decreases u - i,
{
    if i < u {
        assert(excess(x, i + 1) >= 0);
        lemma_scan_end_from_is(x, u, i + 1);
    }
}

/// The place where the excess first drops below 0 is the one [`scan_end`] finds.
pub proof fn lemma_scan_end_is(x: u64, u: int)
    requires
        0 <= u <= 64,
        forall|k: int| 0 <= k <= u ==> #[trigger] excess(x, k) >= 0,
        u < 64 ==> excess(x, u + 1) < 0,
    ensures
        scan_end(x) == u,
{
    lemma_scan_end_from_is(x, u, 0);
}

/// A matched `(` is closed before the first unmatched `)`.
pub proof fn lemma_matched_close_before_end(x: u64, o: int)
    requires
        matched(x, o),
    ensures
        closes(x, o, close_of(x, o)),
        close_of(x, o) < scan_end(x),
{
    lemma_close_of(x, o);
    lemma_scan_end(x);
    let c = close_of(x, o);
    let u = scan_end(x);
    if u <= c {
        if u < c {
            assert(excess(x, u + 1) > excess(x, o));
        }
        assert(excess(x, o) >= 0);
    }
}


/// A `)` that closes a `(` is a `)`.
pub proof fn lemma_closes_clear(x: u64, o: int, c: int)
    requires
        closes(x, o, c),
    ensures
        !bit(x, c),
        excess(x, o) < excess(x, o + 1),
{
    assert(excess(x, c) > excess(x, o));
    lemma_excess_step(x, c);
    lemma_excess_step(x, o);
}

/// The positions of the `(` not yet closed after scanning positions `0 .. i`, the
/// innermost last: the entry at depth `d` is a `(` before `i` with `d` unclosed
/// `(` before it and the excess above `d` ever since.
pub open spec fn stack_inv(x: u64, st: Seq<u8>, i: int) -> bool {
    &&& 0 <= i <= 64
    &&& st.len() == excess(x, i)
    &&& forall|k: int| 0 <= k <= i ==> #[trigger] excess(x, k) >= 0
    &&& forall|d: int|
        0 <= d < st.len() ==> {
            let o = #[trigger] st[d] as int;
            &&& o < i
            &&& bit(x, o)
            &&& excess(x, o) == d
            &&& stays_above(x, o, i)
        }
}

/// Scanning a `(` pushes its position.
pub proof fn lemma_stack_push(x: u64, st: Seq<u8>, i: int)
    requires
        stack_inv(x, st, i),
        i < 64,
        bit(x, i),
    ensures
        stack_inv(x, st.push(i as u8), i + 1),
{
    lemma_excess_step(x, i);
    let st2 = st.push(i as u8);
    assert forall|d: int| 0 <= d < st2.len() implies {
        let o = #[trigger] st2[d] as int;
        &&& o < i + 1
        &&& bit(x, o)
        &&& excess(x, o) == d
        &&& stays_above(x, o, i + 1)
    } by {
        if d < st.len() {
            let o = st[d] as int;
            assert(st2[d] == st[d]);
            assert forall|t: int| o < t <= i + 1 implies #[trigger] excess(x, t) > excess(x, o) by {
                if t <= i {
                } else {
                    assert(excess(x, i) > excess(x, o));
                }
            }
        } else {
            assert(st2[d] as int == i);
        }
    }
}

/// Scanning a `)` with an open `(` pops that `(`, which the `)` closes.
pub proof fn lemma_stack_pop(x: u64, st: Seq<u8>, i: int)
    requires
        stack_inv(x, st, i),
        i < 64,
        !bit(x, i),
        st.len() > 0,
    ensures
        stack_inv(x, st.drop_last(), i + 1),
        closes(x, st.last() as int, i),
{
    lemma_excess_step(x, i);
    let st2 = st.drop_last();
    let top = st.last() as int;
    assert(st[st.len() - 1] == st.last());
    assert forall|d: int| 0 <= d < st2.len() implies {
        let o = #[trigger] st2[d] as int;
        &&& o < i + 1
        &&& bit(x, o)
        &&& excess(x, o) == d
        &&& stays_above(x, o, i + 1)
    } by {
        let o = st[d] as int;
        assert(st2[d] == st[d]);
        assert forall|t: int| o < t <= i + 1 implies #[trigger] excess(x, t) > excess(x, o) by {
            if t <= i {
            } else {
                assert(excess(x, i + 1) == st.len() - 1);
            }
        }
    }
}

/// A `(` before `i` whose excess has stayed above ever since is on the stack, at
/// its depth.
pub proof fn lemma_stack_holds(x: u64, st: Seq<u8>, i: int, o: int)
    requires
        stack_inv(x, st, i),
        0 <= o < i,
        bit(x, o),
        stays_above(x, o, i),
    ensures
        0 <= excess(x, o) < st.len(),
        st[excess(x, o)] as int == o,
{
    assert(excess(x, i) > excess(x, o));
    let d = excess(x, o);
    let o2 = st[d] as int;
    if o2 < o {
        assert(excess(x, o) > excess(x, o2));
    } else if o < o2 {
        assert(excess(x, o2) > excess(x, o));
    }
}


/// The `(` popped by a `)` is the only `(` that this `)` closes.
pub proof fn lemma_pop_unique(x: u64, st: Seq<u8>, i: int, o: int)
    requires
        stack_inv(x, st, i),
        i < 64,
        !bit(x, i),
        st.len() > 0,
        0 <= o < i,
        bit(x, o),
        close_of(x, o) == i,
    ensures
        o == st.last() as int,
{
    lemma_close_of(x, o);
    lemma_stack_holds(x, st, i, o);
    lemma_excess_step(x, i);
    assert(st[st.len() - 1] == st.last());
}


/// The excess of a prefix is at most its length.
pub proof fn lemma_excess_le(x: u64, n: int)
    requires
        0 <= n,
    ensures
        -n <= excess(x, n) <= n,
    decreases n,
{
    if n > 0 {
        lemma_excess_le(x, n - 1);
    }
}


/// The excess of a prefix has the parity of its length.
pub proof fn lemma_excess_parity(x: u64, n: int)
    requires
        0 <= n,
    ensures
        excess(x, n) % 2 == n % 2,
    decreases n,
{
    if n > 0 {
        lemma_excess_parity(x, n - 1);
    }
}

/// Two matched pairs are disjoint or one holds the other.
pub proof fn lemma_nested(x: u64, o1: int, c1: int, o2: int, c2: int)
    requires
        closes(x, o1, c1),
        closes(x, o2, c2),
        o1 < o2,
    ensures
        c1 < o2 || c2 < c1,
{
    lemma_closes_clear(x, o1, c1);
    lemma_closes_clear(x, o2, c2);
    if o2 < c1 {
        assert(excess(x, o2) > excess(x, o1));
        if c2 == c1 {
        } else if c2 > c1 {
            assert(excess(x, c1 + 1) > excess(x, o2));
        }
    }
}

/// A `)` closes only one `(`.
pub proof fn lemma_closes_unique(x: u64, o1: int, o2: int, c: int)
    requires
        closes(x, o1, c),
        closes(x, o2, c),
    ensures
        o1 == o2,
{
    if o1 < o2 {
        lemma_nested(x, o1, c, o2, c);
    } else if o2 < o1 {
        lemma_nested(x, o2, c, o1, c);
    }
}

/// Going back from `hi`, where the excess is above `e`, towards `lo`, where it is not,
/// the excess meets `e` at a last position, and stays above `e` after it.
pub proof fn lemma_last_at_level(x: u64, lo: int, hi: int, e: int) -> (o: int)
    requires
        0 <= lo < hi,
        excess(x, lo) <= e < excess(x, hi),
    ensures
        lo <= o < hi,
        excess(x, o) == e,
        forall|t: int| o < t <= hi ==> #[trigger] excess(x, t) > e,
    decreases hi - lo,
{
    lemma_excess_step(x, hi - 1);
    if excess(x, hi - 1) == e {
        hi - 1
    } else {
        let o = lemma_last_at_level(x, lo, hi - 1, e);
        o
    }
}

/// A `)` inside a matched pair closes a `(` that lies in the same pair.
pub proof fn lemma_open_of(x: u64, lo: int, k: int) -> (o: int)
    requires
        0 <= lo < k < 64,
        !bit(x, k),
        excess(x, lo) < excess(x, k + 1),
        forall|t: int| lo < t <= k ==> #[trigger] excess(x, t) > excess(x, lo),
    ensures
        lo < o < k,
        closes(x, o, k),
{
    lemma_excess_step(x, k);
    let e = excess(x, k + 1);
    let o = lemma_last_at_level(x, lo, k, e);
    lemma_excess_step(x, o);
    assert(excess(x, o + 1) > e);
    o
}


/// The word is one pair of parentheses that holds all the others, followed by clear
/// bits.
pub open spec fn single_pair(x: u64) -> bool {
    &&& bit(x, 0)
    &&& close_of(x, 0) < 64
    &&& forall|j: int| close_of(x, 0) < j < 64 ==> !#[trigger] bit(x, j)
}

/// In a single pair every `(` is matched.
pub proof fn lemma_single_pair_matched(x: u64, j: int)
    requires
        single_pair(x),
        0 <= j < 64,
        bit(x, j),
    ensures
        matched(x, j),
        j < close_of(x, 0) || j == 0,
{
    let c0 = close_of(x, 0);
    lemma_close_of(x, 0);
    lemma_closes_clear(x, 0, c0);
    lemma_scan_end(x);
    let u = scan_end(x);
    if u <= c0 {
        assert(excess(x, u + 1) >= 0);
    }
    assert(j <= c0);
    if j > 0 {
        assert(excess(x, j) > excess(x, 0));
        lemma_close_of(x, j);
        if close_of(x, j) == 64 {
            assert(excess(x, c0 + 1) > excess(x, j));
        }
    }
}

} // verus!
