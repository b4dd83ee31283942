use vstd::prelude::*;
use crate::bits::{
    bit, ones, pack, lemma_pack_concat, lemma_pack_push, lemma_pack_ones, lemma_shl_widths,
    lemma_shl_shl, lemma_not_bit, lemma_ones_mono, lemma_nth_one_found, lemma_nth_one_at,
};
use crate::util::{aligned, left_align, lemma_aligned_pack};
use crate::paren::{
    close_of, closes, excess, single_pair, lemma_single_pair_matched, lemma_close_of_is,
};
use crate::tree::{
    Tree, size, forest_size, dfuds_seq, dfuds_forest, lemma_tree_lengths, lemma_forest_lengths,
    lemma_dfuds_balanced, lemma_word_single_pair, preorder, children, desc, seq_opens, seq_excess,
    lemma_preorder_len, lemma_dfuds_offset, lemma_dfuds_split, lemma_dfuds_forest_prefix,
    lemma_dfuds_forest_excess, lemma_dfuds_forest_opens, lemma_preorder_block,
    lemma_preorder_forest_start, lemma_seq_window, lemma_seq_excess_prefix, lemma_word_window,
    lemma_seq_excess_concat,
};
use crate::balanced_paren::{BP, paren_text};
use crate::rank_select::{RankSelectIndex, select_spec};

verus! {

/// The word with every bit flipped.
pub open spec fn complement(x: u64) -> u64 {
    x ^ 0xffff_ffff_ffff_ffffu64
}

/// DFUDS (depth-first unary degree sequence) representation of a tree, preceded by
/// one `(` so that the parentheses balance.
pub struct DFUDSTree {
    dfuds: BP,
    inv: RankSelectIndex,
}

impl DFUDSTree {
    /// The indexes are consistent, the word is one pair of parentheses, and `inv`
    /// indexes its complement.
    #[verifier::type_invariant]
    spec fn inv(self) -> bool {
        &&& self.dfuds.wf()
        &&& single_pair(self.dfuds.p)
        &&& self.inv.wf()
        &&& self.inv.b == complement(self.dfuds.p)
    }

    /// The position of the first `)` after position `v`.
    pub open spec fn desc_end(&self, v: int) -> int {
        select_spec(complement(self.word()), ones(complement(self.word()), v + 1) as int + 1)
    }

    /// The parentheses: a `(`, then the degree sequence of the tree.
    pub closed spec fn word(&self) -> u64 {
        self.dfuds.p
    }

    pub fn new(t: &Tree) -> (res: Self)
        requires
            size(*t) <= 32,
        ensures
            res.word() == aligned(pack(seq![true] + dfuds_seq(*t))),
    {
        let ghost d = dfuds_seq(*t);
        proof {
            lemma_tree_lengths(*t);
            lemma_dfuds_balanced(*t);
            lemma_aligned_pack(seq![true] + d);
            lemma_word_single_pair(seq![true] + d);
            lemma_pack_concat(seq![true], d);
            assert(seq![true] =~= Seq::<bool>::empty().push(true));
            lemma_pack_push(Seq::<bool>::empty(), true);
            lemma_small_bv();
        }
        let p = left_align(Self::tree_to_bp(t, 0b1));
        let inv = RankSelectIndex::new(p ^ 0xffffffffffffffff);
        DFUDSTree { dfuds: BP::new(p), inv: inv }
    }

    /// The position of the `)` before the description of the `i`-th node (counting from
    /// 1); for node 1, position 0.
    pub fn ith_node(t: &Self, i: u8) -> (res: u8)
        requires
            i >= 1,
        ensures
            res == select_spec(complement(t.word()), i - 1),
    {
        proof {
            use_type_invariant(t);
        }
        RankSelectIndex::select(&t.inv, i - 1)
    }

    /// The number, counting from 1, of the node whose description starts at `v`: one
    /// more than the number of `)` before `v`.
    pub fn node_id(t: &Self, v: u8) -> (res: u8)
        requires
            1 <= v <= 64,
        ensures
            res == ones(complement(t.word()), v as int) + 1,
    {
        proof {
            use_type_invariant(t);
            crate::bits::lemma_ones_bound(t.inv.b, v as int);
        }
        RankSelectIndex::rank(&t.inv, v - 1) + 1
    }

    /// The distance from `v` to the next `)` after it: for the position of a node as
    /// given by [`Self::ith_node`], one more than its number of children.
    pub fn degree(t: &Self, v: u8) -> (res: u8)
        requires
            v < 64,
        ensures
            res == t.desc_end(v as int) - v,
            res >= 1,
            v + res < 64 ==> !bit(t.word(), v + res),
            forall|q: int| v < q < v + res && q < 64 ==> #[trigger] bit(t.word(), q),
    {
        proof {
            lemma_desc_end_next_close(*t, v as int);
            use_type_invariant(t);
            lemma_next_after(t.inv.b, v as int);
            crate::bits::lemma_ones_bound(t.inv.b, v + 1);
        }
        let r = RankSelectIndex::rank(&t.inv, v);
        let s = RankSelectIndex::select(&t.inv, r + 1);
        s - v
    }

    /// The number, counting from 0, of the node whose description follows the `)` that
    /// closes the `(` at `i` places before the next `)` after `v`.
    pub fn ith_child(t: &Self, v: u8, i: u8) -> (res: u8)
        requires
            v < 64,
            i <= t.desc_end(v as int),
            bit(
                t.word(),
                t.desc_end(v as int) - i,
            ),
        ensures
            res == ones(
                complement(t.word()),
                close_of(
                    t.word(),
                    t.desc_end(v as int) - i,
                ) + 1,
            ),
    {
        proof {
            use_type_invariant(t);
            crate::bits::lemma_ones_bound(t.inv.b, v + 1);
            let s = t.desc_end(v as int);
            lemma_single_pair_matched(t.dfuds.p, s - i);
            crate::paren::lemma_matched_close_before_end(t.dfuds.p, s - i);
            crate::paren::lemma_scan_end(t.dfuds.p);
        }
        let r = RankSelectIndex::rank(&t.inv, v);
        let s = RankSelectIndex::select(&t.inv, r + 1);
        let vj = BP::find_close(&t.dfuds, s - i) + 1;
        Self::node_id(t, vj) - 1
    }

    /// The text of the parentheses.
    pub fn render(t: &Self) -> (text: Vec<char>)
        ensures
            text@ == paren_text(t.word()),
    {
        BP::render(&t.dfuds)
    }

    fn tree_to_bp(t: &Tree, b: u64) -> (res: u64)
        requires
            size(*t) <= 32,
        ensures
            res == (b << (dfuds_seq(*t).len() as u64)) | pack(dfuds_seq(*t)),
        decreases t,
    {
        proof {
            lemma_tree_lengths(*t);
        }
        match t {
            Tree::Leaf(_) => {
                proof {
                    assert(dfuds_seq(*t) =~= Seq::<bool>::empty().push(false));
                    lemma_pack_push(Seq::<bool>::empty(), false);
                    lemma_small_bv();
                    lemma_shl_shl(b, 0, 0, 0, 0);
                }
                b << 1
            },
            Tree::Node(_, children) => {
                let size = children.len();
                let ghost ones_k = Seq::new(size as nat, |i: int| true);
                let ghost h = ones_k + seq![false];
                proof {
                    lemma_forest_lengths(children@);
                    lemma_pack_ones(size as int);
                    assert(h =~= ones_k.push(false));
                    lemma_pack_push(ones_k, false);
                    lemma_shl_widths(b, 0, (size + 1) as usize);
                    lemma_shl_widths(1, 0, size);
                    lemma_small_bv();
                    assert(h + dfuds_forest(children@.take(0)) =~= h);
                    assert forall|k: int| 0 <= k < children@.len() implies decreases_to!(*t => #[trigger] children@[k]) by {
                        assert(decreases_to!(*t => *children));
                        assert(decreases_to!(*children => children@));
                        assert(decreases_to!(children@ => children@[k]));
                    }
                }
                let mut bits: u64 = (b << (size + 1)) | (((1 << size) - 1) << 1);
                let mut j: usize = 0;
                while j < children.len()
                    invariant
                        j <= children.len(),
                        size == children.len(),
                        crate::tree::size(*t) <= 32,
                        dfuds_seq(*t) == h + dfuds_forest(children@),
                        h.len() == size + 1,
                        crate::tree::size(*t) == 1 + forest_size(children@),
                        dfuds_seq(*t).len() == 2 * crate::tree::size(*t) - 1,
                        forall|k: int| 0 <= k < children@.len() ==> crate::tree::size(#[trigger] children@[k]) <= forest_size(children@),
                        forall|k: int| 0 <= k < children@.len() ==> decreases_to!(*t => #[trigger] children@[k]),
                        bits == (b << ((h + dfuds_forest(children@.take(j as int))).len() as u64)) | pack(
                            h + dfuds_forest(children@.take(j as int)),
                        ),
                    decreases children.len() - j,
                {
                    let ghost prefix = h + dfuds_forest(children@.take(j as int));
                    let ghost d = dfuds_seq(children@[j as int]);
                    proof {
                        lemma_tree_lengths(children@[j as int]);
                        assert(children@.take(j + 1).drop_last() =~= children@.take(j as int));
                        assert(h + dfuds_forest(children@.take(j + 1)) =~= prefix + d);
                        lemma_forest_lengths(children@.take(j + 1));
                        lemma_dfuds_prefix_len(children@, j as int + 1);
                        lemma_pack_concat(prefix, d);
                        lemma_shl_shl(b, pack(prefix), pack(d), prefix.len() as u64, d.len() as u64);
                    }
                    bits = Self::tree_to_bp(&children[j], bits);
                    j = j + 1;
                }
                proof {
                    assert(children@.take(children@.len() as int) =~= children@);
                }
                bits
            },
        }
    }
}

/// The complement of the word of a run of parentheses counts the run's `)`.
proof fn lemma_comp_ones(ws: Seq<bool>, n: int)
    requires
        0 < ws.len() <= 64,
        ws[0],
        0 <= n <= ws.len(),
    ensures
        ones(complement(aligned(pack(ws))), n) == n - seq_opens(ws, n),
    decreases n,
{
    if n > 0 {
        lemma_comp_ones(ws, n - 1);
        lemma_aligned_pack(ws);
        lemma_not_bit(aligned(pack(ws)), n - 1);
    }
}

/// Where the `k`-th node in preorder stands in the word of a tree's degree sequence:
/// its sequence starts at `e`, right after the `k`-th `)`.
proof fn lemma_dfuds_node(t: Tree, k: int) -> (e: int)
    requires
        size(t) <= 32,
        0 <= k < size(t),
    ensures
        ({
            let ws = seq![true] + dfuds_seq(t);
            let comp = complement(aligned(pack(ws)));
            let du = dfuds_seq(preorder(t)[k]);
            let deg = children(preorder(t)[k]).len() as int;
            &&& 1 <= e
            &&& e + du.len() <= ws.len() <= 64
            &&& ws.subrange(e, e + du.len()) == du
            &&& seq_opens(ws, e) == e - k
            &&& select_spec(comp, k) == e - 1
            &&& ones(comp, e) == k
            &&& select_spec(comp, k + 1) == e + deg
        }),
{
    let d = dfuds_seq(t);
    let ws = seq![true] + d;
    let w = aligned(pack(ws));
    let comp = complement(w);
    let u = preorder(t)[k];
    let deg = children(u).len() as int;
    let du = dfuds_seq(u);
    lemma_tree_lengths(t);
    lemma_preorder_len(t);
    lemma_aligned_pack(ws);
    let off = lemma_dfuds_offset(t, k);
    let e = 1 + off;
    lemma_tree_lengths(u);
    lemma_dfuds_split(u);
    assert(ws.subrange(e, e + du.len()) =~= d.subrange(off, off + du.len()));
    let a = seq![true];
    assert(a[0]);
    assert(seq_opens(a, 0) == 0);
    assert(seq_opens(a, 1) == 1);
    crate::tree::lemma_seq_opens_concat(a, d, e);
    lemma_comp_ones(ws, e);
    lemma_comp_ones(ws, e + deg + 1);
    lemma_seq_window(ws, e, du, deg + 1);
    lemma_ones_mono(comp, ws.len() as int, 64);
    lemma_ones_mono(comp, e, ws.len() as int);
    lemma_ones_mono(comp, e + deg + 1, ws.len() as int);
    lemma_not_bit(w, e - 1);
    if k == 0 {
        lemma_not_bit(w, 0);
    } else {
        assert(d[off - 1] == ws[1 + (off - 1)]);
        lemma_nth_one_at(comp, k, e - 1);
    }
    let h = desc(u);
    assert(du[deg] == h[deg]);
    assert(ws[e + deg] == du[deg]);
    lemma_not_bit(w, e + deg);
    assert(du.subrange(0, deg + 1) =~= h.subrange(0, deg + 1));
    lemma_seq_excess_prefix(du, h, deg + 1);
    crate::tree::lemma_seq_opens_all_true(h, deg);
    lemma_nth_one_at(comp, k + 1, e + deg);
    e
}

/// In the word of a run of parentheses, the `(` at `j` places before the end of the
/// description of a node is closed by the last `)` of the sequences of its first
/// `j - 1` children.
proof fn lemma_dfuds_child_close(ws: Seq<bool>, e: int, u: Tree, j: int)
    requires
        0 < ws.len() <= 64,
        ws[0],
        1 <= e,
        e + dfuds_seq(u).len() <= ws.len(),
        ws.subrange(e, e + dfuds_seq(u).len()) == dfuds_seq(u),
        1 <= j <= children(u).len(),
    ensures
        ({
            let deg = children(u).len() as int;
            let fj = dfuds_forest(children(u).take(j - 1));
            let w = aligned(pack(ws));
            &&& bit(w, e + deg - j)
            &&& close_of(w, e + deg - j) == e + deg + fj.len()
            &&& e + deg + fj.len() < ws.len()
            &&& seq_opens(ws, e + deg + fj.len() + 1) == seq_opens(ws, e) + deg + seq_opens(
                fj,
                fj.len() as int,
            )
        }),
{
    let w = aligned(pack(ws));
    let cs = children(u);
    let deg = cs.len() as int;
    let du = dfuds_seq(u);
    let h = desc(u);
    let f = dfuds_forest(cs);
    let fj = dfuds_forest(cs.take(j - 1));
    lemma_tree_lengths(u);
    lemma_dfuds_split(u);
    lemma_aligned_pack(ws);
    lemma_dfuds_forest_prefix(cs, j - 1);
    lemma_dfuds_forest_excess(cs.take(j - 1));
    lemma_forest_lengths(cs.take(j - 1));
    crate::tree::lemma_seq_opens_all_true(h, deg);
    let p = e + deg - j;
    let q = e + deg + fj.len();
    assert(ws[p] == du[deg - j]);
    assert(du[deg - j] == h[deg - j]);
    assert forall|y: int| 0 <= y <= du.len() implies #[trigger] excess(w, e + y) == excess(w, e)
        + seq_excess(du, y) by {
        lemma_word_window(ws, e, du, y);
    }
    assert forall|y: int| 0 <= y <= deg implies #[trigger] seq_excess(du, y) == y by {
        assert(du.subrange(0, y) =~= h.subrange(0, y));
        lemma_seq_excess_prefix(du, h, y);
        crate::tree::lemma_seq_excess_run(h, y, deg);
    }
    assert forall|z: int| 0 <= z <= fj.len() implies #[trigger] seq_excess(du, deg + 1 + z) == deg
        - 1 + seq_excess(fj, z) by {
        lemma_seq_excess_concat(h, f, deg + 1 + z);
        assert(f.subrange(0, z) =~= fj.subrange(0, z));
        lemma_seq_excess_prefix(f, fj, z);
        lemma_seq_excess_concat(h, f, deg + 1);
        assert(h.subrange(0, deg + 1) =~= h);
        crate::tree::lemma_seq_excess_run(h, deg, deg);
        assert(seq_excess(h, deg) == deg);
    }
    assert forall|t2: int| p < t2 <= q implies #[trigger] excess(w, t2) > excess(w, p) by {
        let y = t2 - e;
        assert(excess(w, e + y) == excess(w, e) + seq_excess(du, y));
        assert(excess(w, e + (deg - j)) == excess(w, e) + seq_excess(du, deg - j));
        if y > deg {
            let z = y - deg - 1;
            assert(seq_excess(du, deg + 1 + z) == deg - 1 + seq_excess(fj, z));
        }
    }
    assert(excess(w, e + (deg - j)) == excess(w, e) + seq_excess(du, deg - j));
    assert(excess(w, e + (deg + 1 + fj.len())) == excess(w, e) + seq_excess(
        du,
        deg + 1 + fj.len(),
    ));
    assert(closes(w, p, q));
    lemma_close_of_is(w, p, q);
    lemma_seq_window(ws, e, du, deg + 1 + fj.len());
    crate::tree::lemma_seq_opens_concat(h, f, deg + 1 + fj.len());
    assert(f.subrange(0, fj.len() as int) =~= fj.subrange(0, fj.len() as int));
    lemma_seq_excess_prefix(f, fj, fj.len() as int);
    assert(h.subrange(0, deg + 1) =~= h);
}

/// Navigation in the degree sequence of a tree, read from the word that
/// [`DFUDSTree::new`] builds: for the `k`-th node in preorder, `ith_node(k + 1)` is a
/// position `v` where `degree` gives one more than the node's number of children, and
/// for its `j`-th child `ith_child(v, j)` gives that child's number in preorder.
pub proof fn lemma_dfuds_navigation(t: Tree, k: int, j: int)
    requires
        size(t) <= 32,
        0 <= k < size(t),
        0 <= j <= children(preorder(t)[k]).len(),
    ensures
        ({
            let w = aligned(pack(seq![true] + dfuds_seq(t)));
            let comp = complement(w);
            let v = select_spec(comp, k);
            let s = select_spec(comp, ones(comp, v + 1) as int + 1);
            let cs = children(preorder(t)[k]);
            &&& 0 <= v < 64
            &&& s - v == cs.len() + 1
            &&& (j >= 1 ==> {
                &&& j <= s
                &&& bit(w, s - j)
                &&& ones(comp, close_of(w, s - j) + 1) == k + 1 + forest_size(cs.take(j - 1))
                &&& k + 1 + forest_size(cs.take(j - 1)) < size(t)
                &&& preorder(t)[k + 1 + forest_size(cs.take(j - 1))] == cs[j - 1]
            })
        }),
{
    let ws = seq![true] + dfuds_seq(t);
    let w = aligned(pack(ws));
    let comp = complement(w);
    let u = preorder(t)[k];
    let cs = children(u);
    let deg = cs.len() as int;
    lemma_tree_lengths(t);
    let e = lemma_dfuds_node(t, k);
    if j >= 1 {
        lemma_dfuds_child_close(ws, e, u, j);
        let fj = dfuds_forest(cs.take(j - 1));
        lemma_dfuds_forest_opens(cs.take(j - 1));
        lemma_forest_lengths(cs.take(j - 1));
        let q = e + deg + fj.len();
        lemma_comp_ones(ws, q + 1);
        lemma_preorder_forest_start(cs, j - 1);
        let x = 1 + forest_size(cs.take(j - 1)) as int;
        lemma_preorder_len(t);
        match u {
            Tree::Leaf(_) => {},
            Tree::Node(_, ccs) => {
                crate::tree::lemma_preorder_forest_len(ccs@);
                lemma_preorder_block(t, k, x);
            },
        }
    }
}

/// [`DFUDSTree::desc_end`] is the first `)` after `v`: it lies after `v`, every
/// position strictly between them is a `(`, and it is a `)` of the word, or 100 where
/// no `)` follows `v`.
pub proof fn lemma_desc_end_next_close(d: DFUDSTree, v: int)
    requires
        0 <= v < 64,
    ensures
        v < d.desc_end(v),
        d.desc_end(v) < 64 ==> !bit(d.word(), d.desc_end(v)),
        d.desc_end(v) >= 64 ==> d.desc_end(v) == 100,
        forall|q: int| v < q < 64 && q < d.desc_end(v) ==> #[trigger] bit(d.word(), q),
{
    let w = d.word();
    let comp = complement(w);
    let r = ones(comp, v + 1) as int;
    lemma_next_after(comp, v);
    if r + 1 <= ones(comp, 64) {
        lemma_nth_one_found(comp, r + 1);
        let p = select_spec(comp, r + 1);
        lemma_not_bit(w, p);
        assert forall|q: int| v < q < 64 && q < d.desc_end(v) implies #[trigger] bit(d.word(), q) by {
            lemma_ones_mono(comp, v + 1, q);
            lemma_ones_mono(comp, q + 1, p);
            lemma_not_bit(w, q);
        }
    } else {
        assert forall|q: int| v < q < 64 && q < d.desc_end(v) implies #[trigger] bit(d.word(), q) by {
            lemma_ones_mono(comp, v + 1, q);
            lemma_ones_mono(comp, q + 1, 64);
            lemma_not_bit(w, q);
        }
    }
}

/// Navigation in a [`DFUDSTree`] built from the tree `t`: for the `k`-th node in
/// preorder, at its position `v = ith_node(k + 1)`, the first `)` after `v` lies one
/// more than the node's number of children after `v`, so `degree(v)` is that number
/// plus one; and for its `j`-th child, `ith_child(v, j)` is the child's number in
/// preorder, `k + 1` plus the sizes of the subtrees of the children before it.
pub proof fn lemma_dfuds_tree_navigation(d: DFUDSTree, t: Tree, k: int, j: int)
    requires
        d.word() == aligned(pack(seq![true] + dfuds_seq(t))),
        size(t) <= 32,
        0 <= k < size(t),
        0 <= j <= children(preorder(t)[k]).len(),
    ensures
        ({
            let v = select_spec(complement(d.word()), k);
            let cs = children(preorder(t)[k]);
            &&& 0 <= v < 64
            &&& d.desc_end(v) - v == cs.len() + 1
            &&& (j >= 1 ==> {
                &&& j <= d.desc_end(v)
                &&& bit(d.word(), d.desc_end(v) - j)
                &&& ones(complement(d.word()), close_of(d.word(), d.desc_end(v) - j) + 1) == k + 1
                    + forest_size(cs.take(j - 1))
                &&& preorder(t)[k + 1 + forest_size(cs.take(j - 1))] == cs[j - 1]
            })
        }),
{
    lemma_dfuds_navigation(t, k, j);
}

/// A [`DFUDSTree`] built from a tree renders all of its parentheses: a `(`, then the
/// degree sequence of the tree, two parentheses per node in all.
pub proof fn lemma_dfuds_tree_text(t: Tree)
    requires
        size(t) <= 32,
    ensures
        paren_text(aligned(pack(seq![true] + dfuds_seq(t)))).len() == 2 * size(t),
        forall|j: int|
            0 <= j < 2 * size(t) ==> #[trigger] paren_text(aligned(pack(seq![true] + dfuds_seq(t))))[j]
                == if (seq![true] + dfuds_seq(t))[j] {
                '('
            } else {
                ')'
            },
{
    lemma_tree_lengths(t);
    lemma_dfuds_balanced(t);
    crate::bp_tree::lemma_pair_text(seq![true] + dfuds_seq(t));
}

/// The degree sequences of the first trees of a sequence are no longer than all of them.
proof fn lemma_dfuds_prefix_len(cs: Seq<Tree>, j: int)
    requires
        0 <= j <= cs.len(),
    ensures
        dfuds_forest(cs.take(j)).len() <= dfuds_forest(cs).len(),
    decreases cs.len(),
{
    if j < cs.len() {
        assert(cs.drop_last().take(j) =~= cs.take(j));
        lemma_dfuds_prefix_len(cs.drop_last(), j);
    } else {
        assert(cs.take(j) =~= cs);
    }
}

/// The next set bit after `v` in the numbering of [`select_spec`] lies after `v`.
proof fn lemma_next_after(x: u64, v: int)
    requires
        0 <= v < 64,
    ensures
        select_spec(x, ones(x, v + 1) as int + 1) > v,
{
    let k = ones(x, v + 1) as int + 1;
    if k <= ones(x, 64) {
        lemma_nth_one_found(x, k);
        let p = select_spec(x, k);
        if p <= v {
            lemma_ones_mono(x, p + 1, v + 1);
        }
    }
}

proof fn lemma_small_bv()
    by (bit_vector)
    ensures
        (0u64 << 1u64) | 1u64 == 1u64,
        0u64 << 1u64 == 0u64,
{
}

} // verus!
