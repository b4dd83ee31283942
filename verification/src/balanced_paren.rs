use vstd::prelude::*;
use crate::bits::{
    pack, lemma_pack_push, bit, bit_val, ones, lemma_bit_value, lemma_shr_u8, lemma_shr_usize,
    lemma_nth_one_at,
};
use crate::paren::{
    excess, scan_end, close_of, closes, stays_above, stack_inv, lemma_excess_step, lemma_close_of,
    lemma_close_of_is, lemma_scan_end, lemma_scan_end_is, lemma_stack_push, lemma_stack_pop,
    lemma_stack_holds, lemma_pop_unique, lemma_closes_clear, matched,
    lemma_matched_close_before_end, lemma_excess_le,
};
use crate::pioneer::{
    B_SIZE, far, prev_far, pioneer_open, pioneer_close, pioneer, pioneer_bits, pioneer_kinds,
    closed_before, lemma_closed_before_step, lemma_closed_before_all, lemma_prev_far,
    lemma_non_pioneer_far, lemma_kinds_at, lemma_kinds_prefix, lemma_kinds_hit, lemma_ones_kinds,
    lemma_p1_bits, lemma_p1_excess, lemma_pioneer_span, lemma_pioneer_excess,
};
use crate::rank_select::{RankSelectIndex, select_spec};
use crate::util::{
    aligned, left_align, get_bitl, lemma_aligned_bit, lemma_lead,
};

verus! {

/// What `naive_find_close(b, idx)` answers, reading `b` after [`aligned`]: the
/// position of the `)` that closes the `(` at `idx` when it comes before the first
/// unmatched `)`; otherwise the position just before the first unmatched `)`, or 100
/// when every `)` is matched.
pub open spec fn naive_close_spec(b: u64, idx: int) -> int {
    let a = aligned(b);
    let u = scan_end(a);
    if 0 <= idx < u && bit(a, idx) && close_of(a, idx) < 64 {
        close_of(a, idx)
    } else if u < 64 {
        u - 1
    } else {
        100
    }
}

/// A word of 64 parentheses with an index that finds the `)` closing any `(` in
/// constant time: `p_idx` answers rank and select on `p`, `b` marks the pioneers (the far
/// `(` that start a new block of closing positions, and their `)`), and `p1` holds the
/// parentheses at the pioneers, one after the other.
pub struct BP {
    pub p: u64,
    pub p_idx: RankSelectIndex,
    pub b: RankSelectIndex,
    pub p1: u64,
}

/// The mark that `calc_p1` gives position `j` once the far `(` before `n` are done:
/// 1 for an opening pioneer, -1 for the `)` of one, 0 otherwise.
spec fn pioneer_flag(x: u64, j: int, n: int) -> int {
    if j < n && pioneer_open(x, j) {
        1
    } else if closed_before(x, j, n) {
        -1
    } else {
        0
    }
}

/// At an opening pioneer the parenthesis is `(`, at a closing one `)`.
proof fn lemma_pioneer_kind(x: u64, j: int)
    ensures
        pioneer_open(x, j) ==> bit(x, j),
        pioneer_close(x, j) ==> !bit(x, j),
        pioneer_kinds(x, j + 1) == if pioneer(x, j) {
            pioneer_kinds(x, j).push(bit(x, j))
        } else {
            pioneer_kinds(x, j)
        },
{
    lemma_closed_before_all(x, j);
}

/// The parentheses of a string, `true` for `(`.
pub open spec fn paren_bits(s: Seq<char>) -> Seq<bool> {
    s.map_values(|c: char| c == '(')
}

/// The text of a parenthesis word up to its first unmatched `)`.
pub open spec fn paren_text(x: u64) -> Seq<char> {
    Seq::new(scan_end(x) as nat, |j: int| if bit(x, j) { '(' } else { ')' })
}

/// The text of a word is the word read up to its first unmatched `)`: character `j`
/// is `(` exactly when bit `j` is set, the excess stays non-negative over every prefix
/// of the text, and the text ends before 64 characters only where the next `)` takes
/// the excess below zero.
pub proof fn lemma_paren_text_law(x: u64)
    ensures
        paren_text(x).len() <= 64,
        forall|j: int|
            0 <= j < paren_text(x).len() ==> (#[trigger] paren_text(x)[j] == '(') == bit(x, j),
        forall|j: int|
            0 <= j < paren_text(x).len() ==> #[trigger] paren_text(x)[j] == '(' || paren_text(x)[j] == ')',
        forall|k: int| 0 <= k <= paren_text(x).len() ==> #[trigger] excess(x, k) >= 0,
        paren_text(x).len() < 64 ==> !bit(x, paren_text(x).len() as int) && excess(
            x,
            paren_text(x).len() + 1 as int,
        ) < 0,
{
    lemma_scan_end(x);
}

proof fn lemma_shift_in_one_bv(p: u64)
    by (bit_vector)
    ensures
        (p << 1u64) + 1 <= 0xffff_ffff_ffff_ffffu64,
        ((p << 1u64) + 1) as u64 == (p << 1u64) | 1u64,
{
}

/// Through the parentheses of the pioneers, `mu` finds the `)` of an opening pioneer.
proof fn lemma_mu(x: u64, s: int)
    requires
        pioneer_open(x, s),
    ensures
        ones(pack(pioneer_bits(x)), s + 1) >= 1,
        aligned(pack(pioneer_kinds(x, 64))) != 0,
        select_spec(
            pack(pioneer_bits(x)),
            naive_close_spec(aligned(pack(pioneer_kinds(x, 64))), ones(pack(pioneer_bits(x)), s + 1) - 1)
                + 1,
        ) == close_of(x, s),
{
    let bw = pack(pioneer_bits(x));
    let p1 = aligned(pack(pioneer_kinds(x, 64)));
    let cs = close_of(x, s);
    lemma_closed_before_all(x, s);
    lemma_closes_clear(x, s, cs);
    assert(pioneer_close(x, cs));
    lemma_ones_kinds(x, s + 1);
    lemma_ones_kinds(x, cs + 1);
    lemma_ones_kinds(x, 64);
    lemma_kinds_at(x, s, 64);
    lemma_kinds_at(x, cs, 64);
    lemma_kinds_prefix(x, s + 1, cs);
    lemma_kinds_prefix(x, cs + 1, 64);
    lemma_kinds_prefix(x, 0, 64);
    let r = pioneer_kinds(x, s).len() as int;
    let rc = pioneer_kinds(x, cs).len() as int;
    let m = pioneer_kinds(x, 64).len() as int;
    lemma_p1_bits(x);
    assert(bit(p1, r));
    lemma_p1_excess(x, s);
    lemma_p1_excess(x, cs + 1);
    lemma_pioneer_span(x, s, cs + 1);
    assert forall|k: int| r < k <= rc implies #[trigger] excess(p1, k) > excess(p1, r) by {
        let t = lemma_kinds_hit(x, s + 1, cs, k);
        lemma_p1_excess(x, t);
        lemma_pioneer_span(x, s, t);
    }
    assert(closes(p1, r, rc));
    lemma_close_of_is(p1, r, rc);
    lemma_scan_end(p1);
    let u = scan_end(p1);
    if u <= r {
        let t = lemma_kinds_hit(x, 0, 64, u + 1);
        lemma_p1_excess(x, t);
        lemma_pioneer_excess(x, t);
        assert(false);
    }
    assert(naive_close_spec(p1, r) == rc);
    lemma_nth_one_at(bw, rc + 1, cs);
}

proof fn lemma_and_bits_bv(a: u8, b: u8)
    by (bit_vector)
    requires
        a <= 1,
        b <= 1,
    ensures
        ((a & b) == 1u8) == (a == 1u8 && b == 1u8),
{
}

impl BP {
    /// The index is consistent with its word `p`.
    pub open spec fn wf(&self) -> bool {
        &&& self.p_idx.wf()
        &&& self.p_idx.b == self.p
        &&& self.b.wf()
        &&& self.b.b == pack(pioneer_bits(self.p))
        &&& self.p1 == aligned(pack(pioneer_kinds(self.p, 64)))
    }

    /// Builds the index of the parenthesis word `p`, which starts with `(`.
    pub fn new(p: u64) -> (res: Self)
        requires
            bit(p, 0),
        ensures
            res.p == p,
            res.wf(),
    {
        let (raw_b, p1) = Self::calc_p1(p);
        let p_idx = RankSelectIndex::new(p);
        let b = RankSelectIndex::new(raw_b);
        BP { p: p, p_idx: p_idx, b: b, p1: p1 }
    }

    /// Builds the index of a string of parentheses; the last 64 of them are kept.
    pub fn of_string(s: String) -> (res: Self)
        requires
            forall|k: int| 0 <= k < s@.len() ==> s@[k] == '(' || s@[k] == ')',
            pack(paren_bits(s@)) != 0,
        ensures
            res.p == aligned(pack(paren_bits(s@))),
            res.wf(),
    {
        let mut p: u64 = 0;
        let st = s.as_str();
        let n = st.unicode_len();
        let mut i: usize = 0;
        while i < n
            invariant
                st@ == s@,
                n == s@.len(),
                i <= n,
                p == pack(paren_bits(s@).take(i as int)),
            decreases n - i,
        {
            let c = st.get_char(i);
            proof {
                assert(paren_bits(s@).take(i + 1) =~= paren_bits(s@).take(i as int).push(c == '('));
                lemma_pack_push(paren_bits(s@).take(i as int), c == '(');
                lemma_shift_in_one_bv(p);
            }
            p <<= 1;
            if c == '(' {
                p += 1;
            }
            i = i + 1;
        }
        proof {
            assert(paren_bits(s@).take(n as int) =~= paren_bits(s@));
            lemma_lead(p);
            lemma_aligned_bit(p, 0);
        }
        Self::new(left_align(p))
    }

    /// Marks the pioneers of `b`: returns the word of pioneer marks, one bit per position
    /// of `b`, and the word of the parentheses at the pioneers, shifted to the left.
    fn calc_p1(b: u64) -> (res: (u64, u64))
        requires
            bit(b, 0),
        ensures
            res.0 == pack(pioneer_bits(b)),
            res.1 == aligned(pack(pioneer_kinds(b, 64))),
    {
        let mut stack: Vec<u8> = Vec::new();
        let mut paren = [0usize; 64];
        let mut far_open = [false; 64];
        let sz: usize = 64;
        let mut i: usize = 0;
        let ghost mut broke = false;
        while i < 64
            invariant_except_break
                !broke,
            invariant
                sz == 64,
                0 <= i <= 64,
                stack_inv(b, stack@, i as int),
                forall|o: int|
                    0 <= o < 64 ==> #[trigger] far_open[o] == (o < i && bit(b, o) && close_of(b, o) < i
                        && o / 2 < close_of(b, o) / 2),
                forall|o: int|
                    0 <= o < i && bit(b, o) && close_of(b, o) < i ==> #[trigger] paren[o] == close_of(
                        b,
                        o,
                    ),
            ensures
                broke ==> i < 64 && excess(b, i + 1) < 0,
                !broke ==> i == 64,
            decreases 64 - i,
        {
            proof {
                lemma_excess_step(b, i as int);
                lemma_bit_value(b, i as int);
                lemma_shr_usize(b, (sz - 1 - i) as usize);
                assert(((sz - 1 - i) as u64) == ((63 - i as int) as u64));
            }
            if ((b >> (sz - 1 - i)) & 1) != 0 {
                proof {
                    lemma_stack_push(b, stack@, i as int);
                    assert forall|o: int| 0 <= o < i && bit(b, o) implies close_of(b, o) != i by {
                        lemma_close_of(b, o);
                        if close_of(b, o) == i {
                            lemma_closes_clear(b, o, i as int);
                        }
                    }
                }
                stack.push(i as u8);
                proof {
                    assert forall|o: int|
                        0 <= o < i + 1 && bit(b, o) && close_of(b, o) < i + 1 implies #[trigger] paren[o]
                        == close_of(b, o) by {
                        if o == i {
                            lemma_close_of(b, o);
                        }
                    }
                }
            } else {
                if stack.len() == 0 {
                    proof {
                        broke = true;
                    }
                    break;
                }
                proof {
                    lemma_stack_pop(b, stack@, i as int);
                }
                let ghost st = stack@;
                let pre = stack.pop().unwrap() as usize;
                proof {
                    assert(pre == st.last());
                    lemma_close_of_is(b, pre as int, i as int);
                    assert forall|o: int|
                        0 <= o < i && bit(b, o) && close_of(b, o) == i implies o == pre by {
                        lemma_pop_unique(b, st, i as int, o);
                    }
                }
                let ghost old_paren = paren;
                paren[pre as usize] = i as usize;
                paren[i as usize] = pre as usize;
                proof {
                    assert forall|o: int|
                        0 <= o < i + 1 && bit(b, o) && close_of(b, o) < i + 1 implies #[trigger] paren[o]
                        == close_of(b, o) by {
                        if o != pre as int {
                            assert(old_paren[o] == close_of(b, o));
                        }
                    }
                }
                if pre / B_SIZE < (i as usize) / B_SIZE {
                    far_open[pre as usize] = true;  // the `(` at `pre` is far
                }
            }
            i = i + 1;
        }
        proof {
            lemma_scan_end_is(b, i as int);
            assert forall|o: int| 0 <= o < 64 implies #[trigger] far_open[o] == far(b, o) by {
                if bit(b, o) && o < i && close_of(b, o) < 64 {
                    lemma_matched_close_before_end(b, o);
                }
            }
            assert forall|o: int| 0 <= o < 64 && far(b, o) implies #[trigger] paren[o] == close_of(b, o) by {
                lemma_matched_close_before_end(b, o);
            }
        }
        let ghost x = b;
        let mut pioneer_parens = [0i32; 64];
        let mut pre_far_open: i32 = -1;
        let mut i: usize = 0;
        while i < 64
            invariant
                x == b,
                0 <= i <= 64,
                forall|o: int| 0 <= o < 64 ==> #[trigger] far_open[o] == far(b, o),
                forall|o: int| 0 <= o < 64 && far(b, o) ==> #[trigger] paren[o] == close_of(b, o),
                pre_far_open == prev_far(b, i as int),
                forall|j: int|
                    0 <= j < 64 ==> #[trigger] pioneer_parens[j] == pioneer_flag(b, j, i as int),
            decreases 64 - i,
        {
            if far_open[i] {
                proof {
                    lemma_matched_close_before_end(b, i as int);
                    lemma_scan_end(b);
                    lemma_prev_far(b, i as int);
                }
                let ghost old_flags = pioneer_parens;
                if pre_far_open == -1 || (0 <= pre_far_open && paren[pre_far_open as usize] / B_SIZE
                    != paren[i] / B_SIZE) {
                    // the `(` at `i` is an opening pioneer
                    pioneer_parens[i] = 1;
                    // and the `)` that closes it a closing one
                    pioneer_parens[paren[i]] = -1;
                    proof {
                        assert(pioneer_open(b, i as int));
                        assert forall|j: int| 0 <= j < 64 implies #[trigger] pioneer_parens[j]
                            == pioneer_flag(b, j, i + 1) by {
                            lemma_closed_before_step(b, j, i as int);
                            if j != i && j != close_of(b, i as int) {
                                assert(pioneer_parens[j] == old_flags[j]);
                            }
                            lemma_closes_clear(b, i as int, close_of(b, i as int));
                        }
                    }
                } else {
                    proof {
                        assert(!pioneer_open(b, i as int));
                        assert forall|j: int| 0 <= j < 64 implies #[trigger] pioneer_parens[j]
                            == pioneer_flag(b, j, i + 1) by {
                            lemma_closed_before_step(b, j, i as int);
                        }
                    }
                }
                pre_far_open = i as i32;
            } else {
                proof {
                    assert forall|j: int| 0 <= j < 64 implies #[trigger] pioneer_parens[j]
                        == pioneer_flag(b, j, i + 1) by {
                        lemma_closed_before_step(b, j, i as int);
                    }
                }
            }
            i = i + 1;
        }
        proof {
            assert forall|j: int| 0 <= j < 64 implies #[trigger] pioneer_parens[j] == (if pioneer_open(b, j) {
                1int
            } else if pioneer_close(b, j) {
                -1int
            } else {
                0int
            }) by {
                lemma_closed_before_all(b, j);
            }
        }
        let mut b: u64 = 0;
        let mut p1: u64 = 0;
        let mut k: usize = 0;
        while k < 64
            invariant
                0 <= k <= 64,
                b == pack(pioneer_bits(x).take(k as int)),
                p1 == pack(pioneer_kinds(x, k as int)),
                forall|j: int| 0 <= j < 64 ==> #[trigger] pioneer_parens[j] == (if pioneer_open(x, j) {
                    1int
                } else if pioneer_close(x, j) {
                    -1int
                } else {
                    0int
                }),
            decreases 64 - k,
        {
            proof {
                assert(pioneer_bits(x).take(k + 1).drop_last() =~= pioneer_bits(x).take(k as int));
                lemma_pioneer_kind(x, k as int);
                lemma_pack_push(pioneer_kinds(x, k as int), true);
                lemma_pack_push(pioneer_kinds(x, k as int), false);
            }
            match pioneer_parens[k] {
                1 => {
                    b = (b << 1) | 1;
                    p1 = (p1 << 1) | 1;
                },
                -1 => {
                    b = (b << 1) | 1;
                    p1 <<= 1;
                },
                _ => b <<= 1,
            }
            k = k + 1;
        }
        proof {
            assert(pioneer_bits(x).take(64) =~= pioneer_bits(x));
        }
        (b, left_align(p1))
    }

    /// The position of the `(` of rank `i + 1` (see [`select_spec`]).
    pub fn ith_opening_paren(bp: &Self, i: u8) -> (res: u8)
        requires
            bp.wf(),
            i < 255,
        ensures
            res == select_spec(bp.p, i + 1),
    {
        RankSelectIndex::select(&bp.p_idx, i + 1)
    }

    /// The text of the parentheses, from position 0 to the first unmatched `)`.
    pub fn render(bp: &Self) -> (text: Vec<char>)
        ensures
            text@ == paren_text(bp.p),
            text@.len() <= 64,
            forall|j: int| 0 <= j < text@.len() ==> (#[trigger] text@[j] == '(') == bit(bp.p, j),
            forall|k: int| 0 <= k <= text@.len() ==> #[trigger] excess(bp.p, k) >= 0,
            text@.len() < 64 ==> excess(bp.p, text@.len() + 1 as int) < 0,
    {
        let mut text: Vec<char> = Vec::new();
        let mut c: i32 = 0;
        let mut i: u8 = 0;
        let ghost mut broke = false;
        while i < 64
            invariant_except_break
                !broke,
            invariant
                0 <= i <= 64,
                c == excess(bp.p, i as int),
                forall|k: int| 0 <= k <= i ==> #[trigger] excess(bp.p, k) >= 0,
                text@ == Seq::new(i as nat, |j: int| if bit(bp.p, j) { '(' } else { ')' }),
            ensures
                broke ==> i < 64 && excess(bp.p, i + 1) < 0,
                !broke ==> i == 64,
                text@ == Seq::new(i as nat, |j: int| if bit(bp.p, j) { '(' } else { ')' }),
            decreases 64 - i,
        {
            proof {
                lemma_excess_step(bp.p, i as int);
                assert(c <= 64) by {
                    lemma_excess_le(bp.p, i as int);
                }
            }
            if get_bitl(&bp.p, i) == 0 {
                if c == 0 {
                    proof {
                        broke = true;
                    }
                    break;
                }
                text.push(')');
                c -= 1;
            } else {
                text.push('(');
                c += 1;
            }
            i = i + 1;
        }
        proof {
            lemma_scan_end_is(bp.p, i as int);
            lemma_paren_text_law(bp.p);
        }
        text
    }

    /// The position of the `)` that closes the `(` at `p_idx`. A `(` closed within its
    /// block of two is answered at once; otherwise the search starts from the nearest
    /// opening pioneer, whose `)` the pioneer parentheses give.
    pub fn find_close(bp: &Self, p_idx: u8) -> (res: u8)
        requires
            bp.wf(),
            matched(bp.p, p_idx as int),
        ensures
            res == close_of(bp.p, p_idx as int),
    {
        let ghost x = bp.p;
        let ghost i = p_idx as int;
        let ghost ci = close_of(x, i);
        proof {
            lemma_matched_close_before_end(x, i);
            lemma_scan_end(x);
            lemma_closes_clear(x, i, ci);
            lemma_ones_kinds(x, 0);
        }
        if p_idx % 2 == 0 && get_bitl(&bp.p, p_idx + 1) == 0 {
            // the `(` at p_idx is not far
            proof {
                lemma_excess_step(x, i);
                lemma_excess_step(x, i + 1);
                assert(closes(x, i, i + 1));
                lemma_close_of_is(x, i, i + 1);
            }
            return p_idx + 1;
        }
        proof {
            if i % 2 == 0 {
                assert(bit(x, i + 1));
                assert(ci != i + 1);
            }
            assert(far(x, i));
        }
        let mut p_star = p_idx;
        let mut depth_diff: i32 = 0;
        while !((get_bitl(&bp.p, p_star) & get_bitl(&bp.b.b, p_star)) == 1)
            invariant
                bp.wf(),
                x == bp.p,
                bp.b.b == pack(pioneer_bits(x)),
                forall|j: int| 0 <= j < 64 ==> #[trigger] bit(pack(pioneer_bits(x)), j) == pioneer(x, j),
                i == p_idx as int,
                far(x, i),
                bit(x, i),
                (p_star == i && depth_diff == 0) || (p_star == i - 1 && depth_diff == 1
                    && !pioneer_open(x, i) && pioneer_open(x, i - 1) && close_of(x, i - 1) == close_of(x, i) + 1),
            decreases p_star,
        {
            proof {
                lemma_closed_before_all(x, p_star as int);
                lemma_and_bits_bv(
                    bit_val(x, p_star as int) as u8,
                    bit_val(pack(pioneer_bits(x)), p_star as int) as u8,
                );
                if p_star == i {
                    lemma_non_pioneer_far(x, i);
                } else {
                    lemma_closed_before_all(x, i - 1);
                }
            }
            if get_bitl(&bp.p, p_star) == 1 {
                depth_diff += 1;
            }
            p_star -= 1;
        }
        proof {
            lemma_closed_before_all(x, p_star as int);
            lemma_and_bits_bv(
                bit_val(x, p_star as int) as u8,
                bit_val(pack(pioneer_bits(x)), p_star as int) as u8,
            );
            if p_star == i {
                if !pioneer_open(x, i) {
                    lemma_non_pioneer_far(x, i);
                }
            }
            assert(pioneer_open(x, p_star as int));
            lemma_mu(x, p_star as int);
        }
        let mut close_idx = Self::mu(p_star, &bp.b, bp.p1) as u8;
        while depth_diff > 0
            invariant
                x == bp.p,
                ci == close_of(x, i),
                0 <= ci < 64,
                (depth_diff == 0 && close_idx == ci) || (depth_diff == 1 && close_idx == ci + 1
                    && close_idx < 64 && !bit(x, close_idx as int)),
            decreases depth_diff,
        {
            if get_bitl(&bp.p, close_idx) == 0 {
                depth_diff -= 1;
            }
            close_idx -= 1;
        }
        close_idx
    }

    /// The position of the `)` that closes the opening pioneer at `i`, found through the
    /// parentheses of the pioneers alone.
    fn mu(i: u8, b: &RankSelectIndex, p1: u64) -> (res: u8)
        requires
            b.wf(),
            i < 64,
            ones(b.b, i + 1) >= 1,
            p1 != 0,
        ensures
            res == select_spec(b.b, naive_close_spec(p1, ones(b.b, i + 1) - 1) + 1),
    {
        let r = RankSelectIndex::rank(b, i) - 1;
        let x = Self::naive_find_close(p1, r) + 1;
        let y = RankSelectIndex::select(b, x as u8);
        y
    }

    /// Finds the `)` that closes the `(` at `idx` by scanning the word with a stack.
    pub fn naive_find_close(b: u64, idx: u8) -> (res: u8)
        requires
            b != 0,
        ensures
            res == naive_close_spec(b, idx as int),
            res <= 100,
    {
        let mut stack: Vec<u8> = Vec::new();
        let word = left_align(b);
        let ghost a = word;
        proof {
            lemma_lead(b);
            lemma_aligned_bit(b, 0);
        }
        let sz: u8 = 64;
        let mut i: u8 = 0;
        while i < sz
            invariant
                sz == 64,
                b != 0,
                a == aligned(b),
                word == a,
                bit(a, 0),
                i <= 64,
                stack_inv(a, stack@, i as int),
                (idx as int) < (i as int) && bit(a, idx as int) ==> stays_above(a, idx as int, i as int),
            decreases 64 - i,
        {
            proof {
                lemma_excess_step(a, i as int);
                lemma_bit_value(a, i as int);
                lemma_shr_u8(word, (sz - 1 - i) as u8);
                assert(((sz - 1 - i) as u64) == ((63 - i as int) as u64));
            }
            if ((word >> (sz - 1 - i)) & 1) != 0 {
                proof {
                    assert(((sz - 1 - i) as u64) == ((63 - i as int) as u64));
                    assert(bit(a, i as int));
                    lemma_stack_push(a, stack@, i as int);
                }
                stack.push(i);
            } else {
                proof {
                    assert(((sz - 1 - i) as u64) == ((63 - i as int) as u64));
                    assert(!bit(a, i as int));
                }
                if stack.len() == 0 {
                    proof {
                        assert(excess(a, i as int + 1) == -1);
                        lemma_scan_end_is(a, i as int);
                        if (idx as int) < (i as int) && bit(a, idx as int) {
                            lemma_close_of(a, idx as int);
                            let c = close_of(a, idx as int);
                            if c < 64 {
                                if c < i {
                                    assert(excess(a, c + 1) > excess(a, idx as int));
                                } else if c > i {
                                    assert(excess(a, i as int + 1) > excess(a, idx as int));
                                }
                            }
                        }
                    }
                    return i - 1;
                }
                proof {
                    lemma_stack_pop(a, stack@, i as int);
                }
                let ghost st = stack@;
                let pre = stack.pop().unwrap() as usize;
                proof {
                    assert(pre == st.last());
                    lemma_scan_end(a);
                    if scan_end(a) <= i {
                        assert(excess(a, scan_end(a) + 1) >= 0);
                    }
                }
                if pre == (idx as usize) {
                    proof {
                        lemma_close_of_is(a, idx as int, i as int);
                    }
                    return i as u8;
                }
                proof {
                    if (idx as int) < (i as int) && bit(a, idx as int) {
                        if excess(a, i as int + 1) == excess(a, idx as int) {
                            lemma_stack_holds(a, st, i as int, idx as int);
                        }
                    }
                }
            }
            i = i + 1;
        }
        proof {
            lemma_scan_end_is(a, 64);
            if (idx as int) < 64 && bit(a, idx as int) {
                lemma_close_of(a, idx as int);
            }
        }
        100
    }
}

} // verus!
