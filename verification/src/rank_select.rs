use vstd::prelude::*;
use crate::bits::{
    bit, bit_val, ones, nth_one, lemma_ones_mono, lemma_ones_full, lemma_ones_bound, lemma_chunk,
    lemma_low_bit, lemma_nth_one_at, lemma_bit_value, lemma_bits_of_chunk, lemma_nth_one_found,
};

verus! {

/// A 64-bit vector with the tables that answer rank and select in constant time.
///
/// Bits are numbered from the most significant one (position 0).
pub struct RankSelectIndex {
    pub b: u64,
    /// `r1[k]` is the number of set bits before position `35 * k`, in two large blocks.
    pub r1: [u8; 2],
    /// `r2[i]` is the number of set bits before position `3 * i`, counted from the
    /// start of the large block that holds that position.
    pub r2: [u8; 24],
    /// A complete ternary tree of height 3 over blocks of three bits: each node
    /// holds the number of set bits below it (1 + 3 + 9 + 27 = 40 nodes).
    pub tree: [u8; 40],
}

/// Where `select` answers for `x`: the position of the `x`-th set bit (counting
/// from 1), 100 when there are fewer than `x` set bits, and for `x == 0` position 0
/// when bit 0 is clear and position 2 when it is set.
pub open spec fn select_spec(b: u64, x: int) -> int {
    if x == 0 {
        if bit(b, 0) {
            2
        } else {
            0
        }
    } else if x > ones(b, 64) {
        100
    } else {
        nth_one(b, x)
    }
}

/// Rank undoes select: for `1 <= k <=` the number of set bits, select gives a set bit
/// and rank there gives `k` back.
pub proof fn lemma_rank_of_select(b: u64, k: int)
    requires
        1 <= k <= ones(b, 64),
    ensures
        0 <= select_spec(b, k) < 64,
        bit(b, select_spec(b, k)),
        ones(b, select_spec(b, k) + 1) == k,
{
    lemma_nth_one_found(b, k);
}

/// Select undoes rank at a set bit: the set bit at `p` is the one whose rank is the
/// number of set bits up to `p`.
pub proof fn lemma_select_of_rank(b: u64, p: int)
    requires
        0 <= p < 64,
        bit(b, p),
    ensures
        select_spec(b, ones(b, p + 1) as int) == p,
{
    lemma_ones_mono(b, p + 1, 64);
    lemma_nth_one_at(b, ones(b, p + 1) as int, p);
}

/// The value of entry `idx` of the table of prefix counts within a block of three bits:
/// three fields of two bits, counting the set bits among the first one, two and three.
pub open spec fn rank_table_entry(idx: u8) -> u8 {
    if idx == 0 {
        0b000000u8
    } else if idx == 1 {
        0b000001u8
    } else if idx == 2 {
        0b000101u8
    } else if idx == 3 {
        0b000110u8
    } else if idx == 4 {
        0b010101u8
    } else if idx == 5 {
        0b010110u8
    } else if idx == 6 {
        0b011010u8
    } else {
        0b011011u8
    }
}

proof fn lemma_rank_table(idx: u8, b0: u8, b1: u8, b2: u8)
    by (bit_vector)
    requires
        b0 <= 1,
        b1 <= 1,
        b2 <= 1,
        idx == 4 * b0 + 2 * b1 + b2,
    ensures
        (rank_table_entry(idx) >> 4u8) & 3u8 == b0,
        (rank_table_entry(idx) >> 2u8) & 3u8 == b0 + b1,
        (rank_table_entry(idx) >> 0u8) & 3u8 == b0 + b1 + b2,
{
}

/// Facts about three consecutive blocks of width `w` from `lo`: the counts add up
/// and stay within the word.
proof fn lemma_level(b: u64, lo: int, w: int)
    requires
        0 <= lo,
        0 < w,
    ensures
        ones(b, lo) <= ones(b, lo + w) <= ones(b, lo + 2 * w) <= ones(b, lo + 3 * w) <= 64,
{
    lemma_ones_mono(b, lo, lo + w);
    lemma_ones_mono(b, lo + w, lo + 2 * w);
    lemma_ones_mono(b, lo + 2 * w, lo + 3 * w);
    lemma_ones_bound(b, lo + 3 * w);
}

/// One step down the select tree: with `acc` set bits before block `lo` and the
/// target inside the three child blocks of width `w`, the chosen child `k` keeps
/// the target inside it.
proof fn lemma_descend(b: u64, x: int, acc: int, lo: int, w: int, acc2: int, k: int)
    requires
        0 <= lo,
        0 < w,
        acc == ones(b, lo),
        x <= ones(b, lo + 3 * w),
        x >= 1 ==> acc < x,
        x == 0 ==> lo == 0,
        (k == 0 && acc2 == acc && x <= ones(b, lo + w)) || (k == 1 && acc2 == ones(b, lo + w)
            && ones(b, lo + w) < x <= ones(b, lo + 2 * w)) || (k == 2 && acc2 == ones(
            b,
            lo + 2 * w,
        ) && ones(b, lo + 2 * w) < x),
    ensures
        acc2 == ones(b, lo + k * w),
        x <= ones(b, lo + k * w + w),
        x >= 1 ==> acc2 < x,
        x == 0 ==> lo + k * w == 0,
{
    if k == 1 {
        assert(lo + k * w == lo + w);
    } else if k == 2 {
        assert(lo + k * w == lo + 2 * w);
    }
}

/// The last step of select, inside one block of three bits at `lo`.
proof fn lemma_leaf(bb: u64, x: int, lo: int, acc: int, b: u8, f: int)
    requires
        0 <= lo <= 60,
        0 <= x,
        acc == ones(bb, lo),
        x <= ones(bb, lo + 3),
        x >= 1 ==> acc < x,
        x == 0 ==> lo == 0,
        b as int == 4 * bit_val(bb, lo) + 2 * bit_val(bb, lo + 1) + bit_val(bb, lo + 2),
        f == (if x == acc + ((b >> 2u8) & 1u8) {
            0int
        } else if x == acc + ((b >> 2u8) & 1u8) + ((b >> 1u8) & 1u8) {
            1int
        } else {
            2int
        }),
    ensures
        lo + f == select_spec(bb, x),
{
    lemma_bits_of_chunk(
        b,
        bit_val(bb, lo) as u8,
        bit_val(bb, lo + 1) as u8,
        bit_val(bb, lo + 2) as u8,
    );
    assert(ones(bb, lo + 1) == ones(bb, lo) + bit_val(bb, lo));
    assert(ones(bb, lo + 2) == ones(bb, lo + 1) + bit_val(bb, lo + 1));
    assert(ones(bb, lo + 3) == ones(bb, lo + 2) + bit_val(bb, lo + 2));
    lemma_ones_mono(bb, lo + 3, 64);
    assert((b >> 2u8) & 1u8 == bit_val(bb, lo));
    assert((b >> 1u8) & 1u8 == bit_val(bb, lo + 1));
    if x == 0 {
        assert(lo == 0);
        assert(f == (if bit(bb, 0) { 2int } else { 0int }));
    } else {
        if f == 0 {
            assert(bit_val(bb, lo) == 1);
        } else if f == 1 {
            assert(bit_val(bb, lo + 1) == 1);
        } else {
            assert(bit_val(bb, lo + 2) == 1);
        }
        lemma_nth_one_at(bb, x, lo + f);
    }
}

impl RankSelectIndex {
    /// The tables agree with `b`.
    pub open spec fn wf(&self) -> bool {
        &&& self.r1[0] == 0
        &&& self.r1[1] == ones(self.b, 35)
        &&& forall|i: int| 0 <= i < 12 ==> #[trigger] self.r2[i] == ones(self.b, 3 * i)
        &&& forall|i: int|
            12 <= i < 22 ==> #[trigger] self.r2[i] == ones(self.b, 3 * i) - ones(self.b, 35)
        &&& self.r2[22] == 0
        &&& self.r2[23] == 0
        &&& self.tree[0] == ones(self.b, 64)
        &&& forall|k: int|
            1 <= k < 4 ==> #[trigger] self.tree[k] == ones(self.b, 27 * (k - 1) + 27) - ones(
                self.b,
                27 * (k - 1),
            )
        &&& forall|k: int|
            4 <= k < 13 ==> #[trigger] self.tree[k] == ones(self.b, 9 * (k - 4) + 9) - ones(
                self.b,
                9 * (k - 4),
            )
        &&& forall|k: int|
            13 <= k < 40 ==> #[trigger] self.tree[k] == ones(self.b, 3 * (k - 13) + 3) - ones(
                self.b,
                3 * (k - 13),
            )
    }

    pub fn new(b: u64) -> (res: Self)
        ensures
            res.wf(),
            res.b == b,
    {
        let (r1, r2) = Self::create_rank_index(b);
        let tree = Self::create_select_index(b);
        RankSelectIndex { b: b, r1: r1, r2: r2, tree: tree }
    }

    /// The number of set bits among positions `0 ..= x`.
    pub fn rank(r: &Self, x: u8) -> (res: u8)
        requires
            r.wf(),
            x < 64,
        ensures
            res == ones(r.b, x + 1),
    {
        let ghost q: int = x as int / 3;
        proof {
            lemma_ones_bound(r.b, 3 * q);
            if 3 * q >= 35 {
                lemma_ones_mono(r.b, 35, 3 * q);
            }
            assert(r.r2[q] == r.r2[(x / 3) as int]);
        }
        let a = r.r1[(x / 36) as usize];
        let b = r.r2[(x / 3) as usize];
        assert(a + b == ones(r.b, 3 * q));
        if x == 63 {
            proof {
                lemma_low_bit(r.b);
                lemma_ones_bound(r.b, 64);
            }
            return a + b + ((r.b & 1) as u8);
        }
        let idx = ((r.b >> ((63 - ((x / 3) * 3 + 2)) as u64)) as u8) & 0b111;
        let rank_table: [u8; 8] = [
            0b000000,
            0b000001,
            0b000101,
            0b000110,
            0b010101,
            0b010110,
            0b011010,
            0b011011,
        ];
        proof {
            lemma_chunk(r.b, 3 * q);
            assert(((63 - ((x / 3) * 3 + 2)) as u64) == ((61 - 3 * q) as u64));
            let b0 = bit_val(r.b, 3 * q) as u8;
            let b1 = bit_val(r.b, 3 * q + 1) as u8;
            let b2 = bit_val(r.b, 3 * q + 2) as u8;
            lemma_rank_table(idx, b0, b1, b2);
            assert(rank_table@[idx as int] == rank_table_entry(idx));
            lemma_ones_bound(r.b, 3 * q + 3);
        }
        let shift: u8 = ((3 - ((x + 1) % 3)) % 3) * 2;
        let c = (rank_table[idx as usize] >> shift) & 0b11;
        proof {
            assert(ones(r.b, 3 * q + 1) == ones(r.b, 3 * q) + bit_val(r.b, 3 * q));
            assert(ones(r.b, 3 * q + 2) == ones(r.b, 3 * q + 1) + bit_val(r.b, 3 * q + 1));
            assert(ones(r.b, 3 * q + 3) == ones(r.b, 3 * q + 2) + bit_val(r.b, 3 * q + 2));
            if x % 3 == 0 {
                assert(shift == 4);
                assert(x + 1 == 3 * q + 1);
            } else if x % 3 == 1 {
                assert(shift == 2);
                assert(x + 1 == 3 * q + 2);
            } else {
                assert(shift == 0);
                assert(x + 1 == 3 * q + 3);
            }
        }
        a + b + c
    }

    /// The position of the `x`-th set bit (see [`select_spec`]).
    #[verifier::spinoff_prover]
    #[verifier::rlimit(60)]
    pub fn select(s: &Self, x: u8) -> (res: u8)
        requires
            s.wf(),
        ensures
            res == select_spec(s.b, x as int),
    {
        let ghost bb = s.b;
        proof {
            lemma_ones_full(bb, 81);
            assert(s.tree[1] == ones(bb, 27) - ones(bb, 0));
            assert(s.tree[2] == ones(bb, 54) - ones(bb, 27));
            assert(s.tree[3] == ones(bb, 81) - ones(bb, 54));
            lemma_level(bb, 0, 27);
        }
        if s.tree[0] < x {
            return 100;
        }
        // second level
        let c2: usize = 1;
        let (acc, second_idx) = if x <= s.tree[c2] {
            (0u8, c2)
        } else if x <= s.tree[c2] + s.tree[c2 + 1] {
            (s.tree[c2], c2 + 1)
        } else {
            (s.tree[c2] + s.tree[c2 + 1], c2 + 2)
        };
        let ghost lo2: int = 27 * (second_idx - c2);
        proof {
            lemma_descend(bb, x as int, 0, 0, 27, acc as int, (second_idx - c2) as int);
        }
        // third level
        let c3 = 4 + 3 * (second_idx - c2);
        proof {
            assert(s.tree[c3 as int] == ones(bb, lo2 + 9) - ones(bb, lo2));
            assert(s.tree[c3 + 1] == ones(bb, lo2 + 18) - ones(bb, lo2 + 9));
            assert(s.tree[c3 + 2] == ones(bb, lo2 + 27) - ones(bb, lo2 + 18));
            lemma_level(bb, lo2, 9);
        }
        let (acc, third_idx) = if x <= acc + s.tree[c3] {
            (acc, c3)
        } else if x <= acc + s.tree[c3] + s.tree[c3 + 1] {
            (acc + s.tree[c3], c3 + 1)
        } else {
            (acc + s.tree[c3] + s.tree[c3 + 1], c3 + 2)
        };
        let ghost lo3: int = lo2 + 9 * (third_idx - c3);
        proof {
            lemma_descend(bb, x as int, ones(bb, lo2) as int, lo2, 9, acc as int, (third_idx - c3) as int);
        }
        // fourth level
        let c4 = 13 + 9 * (second_idx - c2) + (third_idx - c3) * 3;
        proof {
            assert(s.tree[c4 as int] == ones(bb, lo3 + 3) - ones(bb, lo3));
            assert(s.tree[c4 + 1] == ones(bb, lo3 + 6) - ones(bb, lo3 + 3));
            assert(s.tree[c4 + 2] == ones(bb, lo3 + 9) - ones(bb, lo3 + 6));
            lemma_level(bb, lo3, 3);
        }
        let (acc, forth_idx) = if x <= acc + s.tree[c4] {
            (acc, c4)
        } else if x <= acc + s.tree[c4] + s.tree[c4 + 1] {
            (acc + s.tree[c4], c4 + 1)
        } else {
            (acc + s.tree[c4] + s.tree[c4 + 1], c4 + 2)
        };
        let bit_offset = 27 * (second_idx - c2) + 9 * (third_idx - c3) + 3 * (forth_idx - c4);
        let ghost lo: int = bit_offset as int;
        proof {
            lemma_descend(bb, x as int, ones(bb, lo3) as int, lo3, 3, acc as int, (forth_idx - c4) as int);
            if lo >= 64 {
                lemma_ones_full(bb, lo);
                lemma_ones_full(bb, lo + 3);
            }
        }
        if bit_offset == 63 {
            proof {
                lemma_ones_full(bb, 66);
                if x >= 1 {
                    lemma_nth_one_at(bb, x as int, 63);
                }
            }
            return bit_offset as u8;
        }
        assert(bit_offset <= 60);
        let b: u8 = ((s.b >> (61 - bit_offset)) & 0b111) as u8;
        proof {
            lemma_chunk(bb, lo);
            assert(((61 - bit_offset) as u64) == ((61 - lo) as u64));
            lemma_bits_of_chunk(
                b,
                bit_val(bb, lo) as u8,
                bit_val(bb, lo + 1) as u8,
                bit_val(bb, lo + 2) as u8,
            );
            lemma_ones_bound(bb, lo);
        }
        let bits = [(b >> 2) & 1, (b >> 1) & 1, b & 1];
        let fifth_index = if x == acc + bits[0] {
            0
        } else if x == acc + bits[0] + bits[1] {
            1
        } else {
            2
        };
        proof {
            lemma_leaf(bb, x as int, lo, acc as int, b, fifth_index as int);
        }
        (bit_offset + fifth_index) as u8
    }

    fn create_rank_index(b: u64) -> (res: ([u8; 2], [u8; 24]))
        ensures
            res.0[0] == 0,
            res.0[1] == ones(b, 35),
            forall|i: int| 0 <= i < 12 ==> #[trigger] res.1[i] == ones(b, 3 * i),
            forall|i: int| 12 <= i < 22 ==> #[trigger] res.1[i] == ones(b, 3 * i) - ones(b, 35),
            res.1[22] == 0,
            res.1[23] == 0,
    {
        let mut rank = [0u8; 65];
        for i in 1usize..65
            invariant
                forall|k: int| 0 <= k < i ==> #[trigger] rank[k] == ones(b, k),
        {
            proof {
                lemma_bit_value(b, i as int - 1);
                assert(((64 - i) as u64) == ((63 - (i as int - 1)) as u64));
                lemma_ones_bound(b, i as int);
            }
            rank[i] = rank[i - 1] + ((b >> (64 - i)) & 1) as u8;
        }
        let r1 = [0, rank[35]];
        let mut r2 = [0u8; 24];
        for i in 0usize..22
            invariant
                forall|k: int| 0 <= k < 65 ==> #[trigger] rank[k] == ones(b, k),
                forall|k: int| 0 <= k < i && k < 12 ==> #[trigger] r2[k] == ones(b, 3 * k),
                forall|k: int|
                    12 <= k < i ==> #[trigger] r2[k] == ones(b, 3 * k) - ones(b, 35),
                forall|k: int| i <= k < 24 ==> #[trigger] r2[k] == 0,
        {
            proof {
                if i >= 12 {
                    lemma_ones_mono(b, 35, 3 * i);
                }
            }
            r2[i] = if i < 12 {
                rank[i * 3]
            } else {
                rank[i * 3] - rank[35]
            }
        }
        (r1, r2)
    }

    fn create_select_index(b: u64) -> (tree: [u8; 40])
        ensures
            tree[0] == ones(b, 64),
            forall|k: int|
                1 <= k < 4 ==> #[trigger] tree[k] == ones(b, 27 * (k - 1) + 27) - ones(
                    b,
                    27 * (k - 1),
                ),
            forall|k: int|
                4 <= k < 13 ==> #[trigger] tree[k] == ones(b, 9 * (k - 4) + 9) - ones(b, 9 * (k - 4)),
            forall|k: int|
                13 <= k < 40 ==> #[trigger] tree[k] == ones(b, 3 * (k - 13) + 3) - ones(b, 3 * (k - 13)),
    {
        // tbl[i] is the number of set bits in the binary form of i
        let tbl: [u8; 8] = [0, 1, 1, 2, 1, 2, 2, 3];
        let mut tree = [0u8; 40];
        // fourth level
        for i in 0usize..21
            invariant
                forall|k: int| 13 <= k < 13 + i ==> #[trigger] tree[k] == ones(b, 3 * (k - 13) + 3) - ones(b, 3 * (k - 13)),
                forall|k: int| 13 + i <= k < 40 ==> #[trigger] tree[k] == 0,
                tbl@ == seq![0u8, 1u8, 1u8, 2u8, 1u8, 2u8, 2u8, 3u8],
        {
            proof {
                let o = 3 * i as int;
                lemma_chunk(b, o);
                assert(((64 - (i + 1) * 3) as u64) == ((61 - o) as u64));
                assert(ones(b, o + 1) == ones(b, o) + bit_val(b, o));
                assert(ones(b, o + 2) == ones(b, o + 1) + bit_val(b, o + 1));
                assert(ones(b, o + 3) == ones(b, o + 2) + bit_val(b, o + 2));
                assert(3 * ((13 + i) - 13) == o);
                let w: u64 = (b >> ((61 - o) as u64)) & 7u64;
                assert(tbl@[0] == 0 && tbl@[1] == 1 && tbl@[2] == 1 && tbl@[3] == 2);
                assert(tbl@[4] == 1 && tbl@[5] == 2 && tbl@[6] == 2 && tbl@[7] == 3);
                assert(tbl@[w as int] == bit_val(b, o) + bit_val(b, o + 1) + bit_val(b, o + 2));
            }
            tree[13 + i] = tbl[((b >> (64 - (i + 1) * 3)) & 0b111) as usize];
        }
        proof {
            lemma_low_bit(b);
            lemma_ones_full(b, 66);
            lemma_ones_full(b, 69);
            lemma_ones_full(b, 72);
            lemma_ones_full(b, 75);
            lemma_ones_full(b, 78);
            lemma_ones_full(b, 81);
        }
        tree[34] = (b & 1) as u8;
        // third level
        for i in 0usize..9
            invariant
                forall|k: int| 13 <= k < 40 ==> #[trigger] tree[k] == ones(b, 3 * (k - 13) + 3) - ones(b, 3 * (k - 13)),
                forall|k: int| 4 <= k < 4 + i ==> #[trigger] tree[k] == ones(b, 9 * (k - 4) + 9) - ones(b, 9 * (k - 4)),
        {
            proof {
                let lo = 9 * i as int;
                lemma_ones_mono(b, lo, lo + 3);
                lemma_ones_mono(b, lo + 3, lo + 6);
                lemma_ones_mono(b, lo + 6, lo + 9);
                lemma_ones_bound(b, lo + 9);
                assert(tree[13 + i * 3] == ones(b, lo + 3) - ones(b, lo));
                assert(tree[13 + i * 3 + 1] == ones(b, lo + 6) - ones(b, lo + 3));
                assert(tree[13 + i * 3 + 2] == ones(b, lo + 9) - ones(b, lo + 6));
            }
            tree[4 + i] = tree[13 + i * 3] + tree[13 + i * 3 + 1] + tree[13 + i * 3 + 2];
        }
        // second level
        for i in 0usize..3
            invariant
                forall|k: int| 13 <= k < 40 ==> #[trigger] tree[k] == ones(b, 3 * (k - 13) + 3) - ones(b, 3 * (k - 13)),
                forall|k: int| 4 <= k < 13 ==> #[trigger] tree[k] == ones(b, 9 * (k - 4) + 9) - ones(b, 9 * (k - 4)),
                forall|k: int| 1 <= k < 1 + i ==> #[trigger] tree[k] == ones(b, 27 * (k - 1) + 27) - ones(b, 27 * (k - 1)),
        {
            proof {
                let lo = 27 * i as int;
                lemma_ones_mono(b, lo, lo + 9);
                lemma_ones_mono(b, lo + 9, lo + 18);
                lemma_ones_mono(b, lo + 18, lo + 27);
                lemma_ones_bound(b, lo + 27);
                assert(tree[4 + i * 3] == ones(b, lo + 9) - ones(b, lo));
                assert(tree[4 + i * 3 + 1] == ones(b, lo + 18) - ones(b, lo + 9));
                assert(tree[4 + i * 3 + 2] == ones(b, lo + 27) - ones(b, lo + 18));
            }
            tree[1 + i] = tree[4 + i * 3] + tree[4 + i * 3 + 1] + tree[4 + i * 3 + 2];
        }
        // first level
        proof {
            lemma_ones_full(b, 81);
            lemma_ones_mono(b, 0, 27);
            lemma_ones_mono(b, 27, 54);
            lemma_ones_mono(b, 54, 81);
            lemma_ones_bound(b, 81);
            assert(tree[1] == ones(b, 27) - ones(b, 0));
            assert(tree[2] == ones(b, 54) - ones(b, 27));
            assert(tree[3] == ones(b, 81) - ones(b, 54));
        }
        tree[0] = tree[1] + tree[2] + tree[3];
        tree
    }
}

} // verus!
