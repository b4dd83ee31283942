use vstd::prelude::*;
use crate::bits::{
    bit, ones, pack, lemma_pack_concat, lemma_pack_push, lemma_shl_widths, lemma_nth_one_found,
    lemma_nth_one_at,
};
use crate::util::{aligned, left_align, lemma_lead, lemma_aligned_pack};
use crate::paren::{close_of, closes, excess, single_pair, lemma_single_pair_matched, lemma_close_of_is};
use crate::tree::{
    Tree, size, forest_size, bp_seq, forest_bp, lemma_tree_lengths, lemma_forest_lengths,
    lemma_bp_balanced, lemma_word_single_pair, preorder, seq_excess, lemma_preorder_len,
    lemma_preorder_offset, lemma_word_opens, lemma_word_window, lemma_opens_excess, balanced_pair,
};
use crate::balanced_paren::{BP, paren_text};
use crate::rank_select::select_spec;

verus! {

/// BP (balanced parentheses) representation of a tree.
pub struct BPTree {
    bp: BP,
}

impl BPTree {
    /// The index is consistent and its word is one pair of parentheses.
    #[verifier::type_invariant]
    spec fn inv(self) -> bool {
        &&& self.bp.wf()
        &&& single_pair(self.bp.p)
    }

    /// The parentheses of the tree, from the most significant bit on.
    pub closed spec fn word(&self) -> u64 {
        self.bp.p
    }

    pub fn new(t: &Tree) -> (res: Self)
        requires
            size(*t) <= 32,
        ensures
            res.word() == aligned(pack(bp_seq(*t))),
    {
        proof {
            lemma_tree_lengths(*t);
            lemma_bp_balanced(*t);
            lemma_aligned_pack(bp_seq(*t));
            lemma_word_single_pair(bp_seq(*t));
        }
        let p = left_align(Self::tree_to_bp(t));
        BPTree { bp: BP::new(p) }
    }

    /// The position of the `(` of the `i`-th node in preorder, counting from 0.
    pub fn ith_node(t: &Self, i: u8) -> (res: u8)
        requires
            i < 255,
        ensures
            res == select_spec(t.word(), i + 1),
    {
        proof {
            use_type_invariant(t);
        }
        BP::ith_opening_paren(&t.bp, i)
    }

    /// The size of the subtree rooted at the `i`-th node in preorder: half the length
    /// of its pair of parentheses.
    pub fn subtree_size(t: &Self, i: u8) -> (res: u8)
        requires
            i < ones(t.word(), 64),
        ensures
            res == (close_of(t.word(), select_spec(t.word(), i + 1)) - select_spec(t.word(), i + 1)
                + 1) / 2,
    {
        proof {
            use_type_invariant(t);
            lemma_nth_one_found(t.bp.p, i + 1);
            lemma_single_pair_matched(t.bp.p, select_spec(t.bp.p, i + 1));
            crate::paren::lemma_close_of(t.bp.p, select_spec(t.bp.p, i + 1));
        }
        let root = Self::ith_node(t, i);
        (BP::find_close(&t.bp, root) - root + 1) / 2
    }

    /// The text of the parentheses.
    pub fn render(t: &Self) -> (text: Vec<char>)
        ensures
            text@ == paren_text(t.word()),
    {
        BP::render(&t.bp)
    }

    fn tree_to_bp(t: &Tree) -> (res: u64)
        requires
            size(*t) <= 32,
        ensures
            res == pack(bp_seq(*t)),
        decreases t,
    {
        match t {
            Tree::Leaf(_) => {
                proof {
                    let s = bp_seq(*t);
                    assert(s =~= seq![true].push(false));
                    assert(seq![true] =~= Seq::<bool>::empty().push(true));
                    lemma_pack_push(Seq::<bool>::empty(), true);
                    lemma_pack_push(seq![true], false);
                    lemma_two_bv();
                }
                0b10
            },
            Tree::Node(_, children) => {
                proof {
                    lemma_forest_lengths(children@);
                    assert(seq![true] =~= Seq::<bool>::empty().push(true));
                    lemma_pack_push(Seq::<bool>::empty(), true);
                    lemma_two_bv();
                    assert(seq![true] + forest_bp(children@.take(0)) =~= seq![true]);
                    assert forall|k: int| 0 <= k < children@.len() implies decreases_to!(*t => #[trigger] children@[k]) by {
                        assert(decreases_to!(*t => *children));
                        assert(decreases_to!(*children => children@));
                        assert(decreases_to!(children@ => children@[k]));
                    }
                }
                let mut bits: u64 = 0b1;
                let mut j: usize = 0;
                while j < children.len()
                    invariant
                        j <= children.len(),
                        size(*t) <= 32,
                        bp_seq(*t) == seq![true] + forest_bp(children@) + seq![false],
                        size(*t) == 1 + forest_size(children@),
                        forall|k: int| 0 <= k < children@.len() ==> size(#[trigger] children@[k]) <= forest_size(children@),
                        bits == pack(seq![true] + forest_bp(children@.take(j as int))),
                        forall|k: int| 0 <= k < children@.len() ==> decreases_to!(*t => #[trigger] children@[k]),
                    decreases children.len() - j,
                {
                    let ghost prefix = seq![true] + forest_bp(children@.take(j as int));
                    let ghost cb = bp_seq(children@[j as int]);
                    proof {
                        lemma_tree_lengths(children@[j as int]);
                        assert(children@.take(j + 1).drop_last() =~= children@.take(j as int));
                        assert(seq![true] + forest_bp(children@.take(j + 1)) =~= prefix + cb);
                    }
                    let c_bits = Self::tree_to_bp(&children[j]);
                    // the binary length of c_bits
                    proof {
                        lemma_aligned_pack(cb);
                        lemma_lead(c_bits);
                        lemma_pack_concat(prefix, cb);
                        lemma_shl_widths(bits, cb.len() as u32, 0);
                    }
                    let c_size = 64 - c_bits.leading_zeros();
                    bits = (bits << c_size) | c_bits;
                    j = j + 1;
                }
                proof {
                    assert(children@.take(children@.len() as int) =~= children@);
                    lemma_pack_push(seq![true] + forest_bp(children@), false);
                    assert(bp_seq(*t) =~= (seq![true] + forest_bp(children@)).push(false));
                }
                bits <<= 1;
                bits
            },
        }
    }
}

/// On the word of a tree, `subtree_size` computes the number of nodes of the subtree
/// rooted at the `i`-th node in preorder; the word holds one `(` per node, so every
/// node number below the size of the tree is admitted.
pub proof fn lemma_subtree_size_is_size(t: Tree, i: int)
    requires
        size(t) <= 32,
        0 <= i < size(t),
    ensures
        ones(aligned(pack(bp_seq(t))), 64) == size(t),
        (close_of(aligned(pack(bp_seq(t))), select_spec(aligned(pack(bp_seq(t))), i + 1))
            - select_spec(aligned(pack(bp_seq(t))), i + 1) + 1) / 2 == size(preorder(t)[i]),
{
    let s = bp_seq(t);
    let w = aligned(pack(s));
    lemma_tree_lengths(t);
    lemma_bp_balanced(t);
    lemma_preorder_len(t);
    lemma_opens_excess(s, s.len() as int);
    lemma_word_opens(s, 64);
    let off = lemma_preorder_offset(t, i);
    let sub = bp_seq(preorder(t)[i]);
    let l = sub.len() as int;
    lemma_tree_lengths(preorder(t)[i]);
    lemma_bp_balanced(preorder(t)[i]);
    assert(s[off] == sub[0]);
    lemma_aligned_pack(s);
    lemma_word_opens(s, off + 1);
    lemma_nth_one_at(w, i + 1, off);
    assert forall|j: int| 0 <= j <= l implies #[trigger] excess(w, off + j) == excess(w, off) + seq_excess(sub, j) by {
        lemma_word_window(s, off, sub, j);
    }
    assert forall|t2: int| off < t2 <= off + l - 1 implies #[trigger] excess(w, t2) > excess(w, off) by {
        assert(excess(w, off + (t2 - off)) == excess(w, off) + seq_excess(sub, t2 - off));
    }
    assert(excess(w, off + l) == excess(w, off) + seq_excess(sub, l));
    assert(closes(w, off, off + l - 1));
    lemma_close_of_is(w, off, off + l - 1);
}

/// The text of the word of one pair of parentheses is the whole pair: its length is
/// the length of the pair, and each character is `(` exactly where the pair has one.
pub proof fn lemma_pair_text(s: Seq<bool>)
    requires
        balanced_pair(s),
        s.len() <= 64,
    ensures
        paren_text(aligned(pack(s))).len() == s.len(),
        forall|j: int|
            0 <= j < s.len() ==> #[trigger] paren_text(aligned(pack(s)))[j] == if s[j] {
                '('
            } else {
                ')'
            },
{
    let x = aligned(pack(s));
    let n = s.len() as int;
    assert(seq_excess(s, 1) > 0);
    assert(seq_excess(s, 0) == 0);
    assert(s[0]);
    lemma_aligned_pack(s);
    assert forall|k: int| 0 <= k <= n implies #[trigger] excess(x, k) >= 0 by {
        crate::tree::lemma_word_excess(s, k);
    }
    if n < 64 {
        crate::tree::lemma_word_excess(s, n);
        assert(!bit(x, n));
        assert(excess(x, n + 1) == excess(x, n) - 1);
    }
    crate::paren::lemma_scan_end_is(x, n);
}

/// A [`BPTree`] built from a tree renders all of its parentheses: two per node, each
/// `(` or `)` as in the parentheses of the tree.
pub proof fn lemma_bp_tree_text(t: Tree)
    requires
        size(t) <= 32,
    ensures
        paren_text(aligned(pack(bp_seq(t)))).len() == 2 * size(t),
        forall|j: int|
            0 <= j < 2 * size(t) ==> #[trigger] paren_text(aligned(pack(bp_seq(t))))[j] == if bp_seq(
                t,
            )[j] {
                '('
            } else {
                ')'
            },
{
    lemma_tree_lengths(t);
    lemma_bp_balanced(t);
    lemma_pair_text(bp_seq(t));
}

proof fn lemma_two_bv()
    by (bit_vector)
    ensures
        (0u64 << 1u64) | 1u64 == 1u64,
        1u64 << 1u64 == 2u64,
{
}

} // verus!
