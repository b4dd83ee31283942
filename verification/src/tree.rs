use vstd::prelude::*;
use crate::bits::{bit, ones, pack};
use crate::paren::{excess, close_of, closes, single_pair, lemma_close_of_is};
use crate::util::{aligned, lemma_aligned_pack};

verus! {

/// An ordinal tree whose nodes carry an `i32`.
#[derive(Debug)]
pub enum Tree {
    Leaf(i32),
    Node(i32, Vec<Tree>),
}

/// Two trees with the same labels and shape.
pub open spec fn same_tree(a: Tree, b: Tree) -> bool
    decreases a,
{
    match a {
        Tree::Leaf(x) => b == Tree::Leaf(x),
        Tree::Node(x, cs) => match b {
            Tree::Leaf(_) => false,
            Tree::Node(y, ds) => x == y && same_forest(cs@, ds@),
        },
    }
}

/// Two sequences of trees, pairwise with the same labels and shape.
pub open spec fn same_forest(cs: Seq<Tree>, ds: Seq<Tree>) -> bool
    decreases cs,
{
    &&& cs.len() == ds.len()
    &&& (cs.len() == 0 || (same_forest(cs.drop_last(), ds.drop_last()) && same_tree(
        cs.last(),
        ds.last(),
    )))
}

impl Clone for Tree {
    /// A copy with the same labels and shape.
    fn clone(&self) -> (res: Self)
        ensures
            same_tree(*self, res),
        decreases self,
    {
        match self {
            Tree::Leaf(v) => Tree::Leaf(*v),
            Tree::Node(v, cs) => {
                let mut out: Vec<Tree> = Vec::new();
                let mut i: usize = 0;
                proof {
                    assert(cs@.take(0) =~= Seq::<Tree>::empty());
                }
                while i < cs.len()
                    invariant
                        i <= cs.len(),
                        same_forest(cs@.take(i as int), out@),
                        forall|k: int| 0 <= k < cs@.len() ==> decreases_to!(*self => #[trigger] cs@[k]),
                    decreases cs.len() - i,
                {
                    let c = cs[i].clone();
                    proof {
                        let t2 = cs@.take(i + 1);
                        let o2 = out@.push(c);
                        assert(t2.drop_last() =~= cs@.take(i as int));
                        assert(o2.drop_last() =~= out@);
                        assert(t2.last() == cs@[i as int]);
                    }
                    out.push(c);
                    i = i + 1;
                }
                proof {
                    assert(cs@.take(cs@.len() as int) =~= cs@);
                }
                Tree::Node(*v, out)
            },
        }
    }
}

pub fn leaf(v: i32) -> (t: Tree)
    ensures
        t == Tree::Leaf(v),
{
    Tree::Leaf(v)
}

pub fn node(v: i32, cs: Vec<Tree>) -> (t: Tree)
    ensures
        t == Tree::Node(v, cs),
{
    Tree::Node(v, cs)
}

/// The number of nodes.
pub open spec fn size(t: Tree) -> nat
    decreases t,
{
    match t {
        Tree::Leaf(_) => 1,
        Tree::Node(_, cs) => 1 + forest_size(cs@),
    }
}

/// The number of nodes of a sequence of trees.
pub open spec fn forest_size(cs: Seq<Tree>) -> nat
    decreases cs,
{
    if cs.len() == 0 {
        0
    } else {
        forest_size(cs.drop_last()) + size(cs.last())
    }
}

/// The balanced parentheses of a tree, in depth-first order: `(`, the parentheses
/// of the children, `)`. `true` stands for `(`.
pub open spec fn bp_seq(t: Tree) -> Seq<bool>
    decreases t,
{
    match t {
        Tree::Leaf(_) => seq![true, false],
        Tree::Node(_, cs) => seq![true] + forest_bp(cs@) + seq![false],
    }
}

/// The balanced parentheses of a sequence of trees, one after the other.
pub open spec fn forest_bp(cs: Seq<Tree>) -> Seq<bool>
    decreases cs,
{
    if cs.len() == 0 {
        Seq::empty()
    } else {
        forest_bp(cs.drop_last()) + bp_seq(cs.last())
    }
}

/// The depth-first unary degree sequence of a tree: for each node in preorder, a `(`
/// per child and one `)`.
pub open spec fn dfuds_seq(t: Tree) -> Seq<bool>
    decreases t,
{
    match t {
        Tree::Leaf(_) => seq![false],
        Tree::Node(_, cs) => Seq::new(cs.len() as nat, |i: int| true) + seq![false] + dfuds_forest(
            cs@,
        ),
    }
}

/// The degree sequences of a sequence of trees, one after the other.
pub open spec fn dfuds_forest(cs: Seq<Tree>) -> Seq<bool>
    decreases cs,
{
    if cs.len() == 0 {
        Seq::empty()
    } else {
        dfuds_forest(cs.drop_last()) + dfuds_seq(cs.last())
    }
}

/// The number of `(` minus the number of `)` among the first `n` parentheses.
pub open spec fn seq_excess(s: Seq<bool>, n: int) -> int
    decreases n,
{
    if n <= 0 {
        0
    } else {
        seq_excess(s, n - 1) + if s[n - 1] {
            1int
        } else {
            -1int
        }
    }
}

/// One pair of parentheses that holds all the others.
pub open spec fn balanced_pair(s: Seq<bool>) -> bool {
    &&& s.len() >= 2
    &&& seq_excess(s, s.len() as int) == 0
    &&& forall|k: int| 0 < k < s.len() ==> #[trigger] seq_excess(s, k) > 0
}

/// The excess of a concatenation.
pub proof fn lemma_seq_excess_concat(a: Seq<bool>, b: Seq<bool>, k: int)
    requires
        0 <= k <= a.len() + b.len(),
    ensures
        k <= a.len() ==> seq_excess(a + b, k) == seq_excess(a, k),
        k >= a.len() ==> seq_excess(a + b, k) == seq_excess(a, a.len() as int) + seq_excess(
            b,
            k - a.len(),
        ),
    decreases k,
{
    if k > 0 {
        lemma_seq_excess_concat(a, b, k - 1);
    }
}

/// Sizes and lengths.
pub proof fn lemma_tree_lengths(t: Tree)
    ensures
        size(t) >= 1,
        bp_seq(t).len() == 2 * size(t),
        dfuds_seq(t).len() == 2 * size(t) - 1,
        bp_seq(t)[0],
    decreases t,
{
    if let Tree::Node(_, cs) = t {
        lemma_forest_lengths(cs@);
    }
}

pub proof fn lemma_forest_lengths(cs: Seq<Tree>)
    ensures
        forest_bp(cs).len() == 2 * forest_size(cs),
        dfuds_forest(cs).len() + cs.len() == 2 * forest_size(cs),
        cs.len() <= forest_size(cs),
        forall|i: int| 0 <= i < cs.len() ==> size(#[trigger] cs[i]) <= forest_size(cs),
    decreases cs,
{
    if cs.len() > 0 {
        lemma_forest_lengths(cs.drop_last());
        lemma_tree_lengths(cs.last());
        assert forall|i: int| 0 <= i < cs.len() implies size(#[trigger] cs[i]) <= forest_size(cs) by {
            if i < cs.len() - 1 {
                assert(cs[i] == cs.drop_last()[i]);
            }
        }
    }
}

/// The parentheses of a tree form one pair.
pub proof fn lemma_bp_balanced(t: Tree)
    ensures
        balanced_pair(bp_seq(t)),
    decreases t,
{
    lemma_tree_lengths(t);
    match t {
        Tree::Leaf(_) => {
            let s = bp_seq(t);
            assert(s[0] && !s[1]);
            assert(seq_excess(s, 0) == 0);
            assert(seq_excess(s, 1) == 1);
            assert(seq_excess(s, 2) == 0);
        },
        Tree::Node(_, cs) => {
            let f = forest_bp(cs@);
            lemma_forest_balanced(cs@);
            let a = seq![true];
            let s = a + f + seq![false];
            assert(bp_seq(t) == s);
            assert forall|k: int| 0 < k <= s.len() implies #[trigger] seq_excess(s, k) == if k < s.len() {
                1 + seq_excess(f, k - 1)
            } else {
                0
            } by {
                let z = seq![false];
                assert(!z[0]);
                assert(seq_excess(z, 0) == 0);
                assert(seq_excess(z, 1) == -1);
                lemma_seq_excess_concat(a + f, z, k);
                lemma_seq_excess_concat(a, f, if k < s.len() { k } else { k - 1 });
                assert(a[0]);
                assert(seq_excess(a, 0) == 0);
    assert(seq_excess(a, 1) == 1);
            }
        },
    }
}

/// The parentheses of a sequence of trees never close more than they open, and end
/// balanced.
pub proof fn lemma_forest_balanced(cs: Seq<Tree>)
    ensures
        seq_excess(forest_bp(cs), forest_bp(cs).len() as int) == 0,
        forall|k: int| 0 <= k <= forest_bp(cs).len() ==> #[trigger] seq_excess(forest_bp(cs), k) >= 0,
    decreases cs,
{
    if cs.len() > 0 {
        let f0 = forest_bp(cs.drop_last());
        let b = bp_seq(cs.last());
        lemma_forest_balanced(cs.drop_last());
        lemma_bp_balanced(cs.last());
        assert forall|k: int| 0 <= k <= forest_bp(cs).len() implies #[trigger] seq_excess(forest_bp(cs), k) >= 0 by {
            lemma_seq_excess_concat(f0, b, k);
        }
        lemma_seq_excess_concat(f0, b, forest_bp(cs).len() as int);
    }
}

/// A `(` followed by the degree sequence of a tree forms one pair.
pub proof fn lemma_dfuds_balanced(t: Tree)
    ensures
        balanced_pair(seq![true] + dfuds_seq(t)),
{
    lemma_tree_lengths(t);
    lemma_dfuds_excess(t);
    let a = seq![true];
    let d = dfuds_seq(t);
    let s = a + d;
    assert(a[0]);
    assert(seq_excess(a, 0) == 0);
    assert(seq_excess(a, 1) == 1);
    assert forall|k: int| 0 < k <= s.len() implies #[trigger] seq_excess(s, k) == 1 + seq_excess(d, k - 1) by {
        lemma_seq_excess_concat(a, d, k);
    }
}

/// The degree sequence of a tree ends one `)` short, and stays balanced before that.
pub proof fn lemma_dfuds_excess(t: Tree)
    ensures
        seq_excess(dfuds_seq(t), dfuds_seq(t).len() as int) == -1,
        forall|k: int| 0 <= k < dfuds_seq(t).len() ==> #[trigger] seq_excess(dfuds_seq(t), k) >= 0,
    decreases t,
{
    match t {
        Tree::Leaf(_) => {
            assert(!dfuds_seq(t)[0]);
            assert(seq_excess(dfuds_seq(t), 0) == 0);
            assert(seq_excess(dfuds_seq(t), 1) == -1);
        },
        Tree::Node(_, cs) => {
            let m = cs.len() as int;
            let ones = Seq::new(m as nat, |i: int| true);
            let h = ones + seq![false];
            let f = dfuds_forest(cs@);
            lemma_dfuds_forest_excess(cs@);
            assert forall|k: int| 0 <= k <= m implies #[trigger] seq_excess(ones, k) == k by {
                lemma_seq_excess_ones(m, k);
            }
            assert forall|k: int| 0 <= k <= h.len() implies #[trigger] seq_excess(h, k) == if k <= m {
                k
            } else {
                m - 1
            } by {
                let z = seq![false];
                assert(!z[0]);
                assert(seq_excess(z, 0) == 0);
                assert(seq_excess(z, 1) == -1);
                lemma_seq_excess_concat(ones, z, k);
            }
            assert(dfuds_seq(t) == h + f);
            assert forall|k: int| 0 <= k <= (h + f).len() implies #[trigger] seq_excess(h + f, k) == if k <= h.len() {
                seq_excess(h, k)
            } else {
                m - 1 + seq_excess(f, k - h.len())
            } by {
                lemma_seq_excess_concat(h, f, k);
            }
            assert forall|k: int| 0 <= k < dfuds_seq(t).len() implies #[trigger] seq_excess(dfuds_seq(t), k) >= 0 by {
                if k > h.len() {
                    assert(seq_excess(f, k - h.len()) >= -(m - 1));
                }
            }
        },
    }
}

proof fn lemma_seq_excess_ones(m: int, k: int)
    requires
        0 <= k <= m,
    ensures
        seq_excess(Seq::new(m as nat, |i: int| true), k) == k,
    decreases k,
{
    if k > 0 {
        lemma_seq_excess_ones(m, k - 1);
    }
}

/// The degree sequences of `m` trees end `m` short, and before the end never more
/// than `m - 1` short.
pub proof fn lemma_dfuds_forest_excess(cs: Seq<Tree>)
    ensures
        seq_excess(dfuds_forest(cs), dfuds_forest(cs).len() as int) == -cs.len(),
        forall|k: int|
            0 <= k < dfuds_forest(cs).len() ==> #[trigger] seq_excess(dfuds_forest(cs), k) >= -(
            cs.len() - 1),
    decreases cs,
{
    if cs.len() > 0 {
        let f0 = dfuds_forest(cs.drop_last());
        let d = dfuds_seq(cs.last());
        lemma_dfuds_forest_excess(cs.drop_last());
        lemma_dfuds_excess(cs.last());
        assert forall|k: int|
            0 <= k < dfuds_forest(cs).len() implies #[trigger] seq_excess(dfuds_forest(cs), k) >= -(cs.len() - 1) by {
            lemma_seq_excess_concat(f0, d, k);
        }
        lemma_seq_excess_concat(f0, d, dfuds_forest(cs).len() as int);
    }
}


/// The word of a run of parentheses that starts with `(` has the run's excess.
pub proof fn lemma_word_excess(s: Seq<bool>, n: int)
    requires
        0 < s.len() <= 64,
        s[0],
        0 <= n <= s.len(),
    ensures
        excess(aligned(pack(s)), n) == seq_excess(s, n),
    decreases n,
{
    if n > 0 {
        lemma_word_excess(s, n - 1);
        lemma_aligned_pack(s);
        assert(bit(aligned(pack(s)), n - 1) == s[n - 1]);
    }
}

/// The word of one pair of parentheses is a single pair, closed by its last bit.
pub proof fn lemma_word_single_pair(s: Seq<bool>)
    requires
        s.len() <= 64,
        balanced_pair(s),
    ensures
        single_pair(aligned(pack(s))),
        close_of(aligned(pack(s)), 0) == s.len() - 1,
{
    let x = aligned(pack(s));
    let n = s.len() as int;
    assert(seq_excess(s, 0) == 0);
    assert(seq_excess(s, 1) > 0);
    assert(s[0]);
    lemma_aligned_pack(s);
    assert forall|t: int| 0 <= t <= n implies #[trigger] excess(x, t) == seq_excess(s, t) by {
        lemma_word_excess(s, t);
    }
    assert(closes(x, 0, n - 1));
    lemma_close_of_is(x, 0, n - 1);
}


/// The subtrees of a tree in preorder: the tree itself, then the subtrees of its
/// children, child by child.
pub open spec fn preorder(t: Tree) -> Seq<Tree>
    decreases t,
{
    match t {
        Tree::Leaf(_) => seq![t],
        Tree::Node(_, cs) => seq![t] + preorder_forest(cs@),
    }
}

/// The subtrees of a sequence of trees in preorder.
pub open spec fn preorder_forest(cs: Seq<Tree>) -> Seq<Tree>
    decreases cs,
{
    if cs.len() == 0 {
        Seq::empty()
    } else {
        preorder_forest(cs.drop_last()) + preorder(cs.last())
    }
}

/// The number of `(` among the first `n` parentheses.
pub open spec fn seq_opens(s: Seq<bool>, n: int) -> int
    decreases n,
{
    if n <= 0 {
        0
    } else {
        seq_opens(s, n - 1) + if s[n - 1] {
            1int
        } else {
            0int
        }
    }
}

/// The opens and the excess of a prefix determine each other.
pub proof fn lemma_opens_excess(s: Seq<bool>, n: int)
    requires
        0 <= n,
    ensures
        2 * seq_opens(s, n) == n + seq_excess(s, n),
    decreases n,
{
    if n > 0 {
        lemma_opens_excess(s, n - 1);
    }
}

/// The opens of a concatenation.
pub proof fn lemma_seq_opens_concat(a: Seq<bool>, b: Seq<bool>, k: int)
    requires
        a.len() <= k <= a.len() + b.len(),
    ensures
        seq_opens(a + b, k) == seq_opens(a, a.len() as int) + seq_opens(b, k - a.len()),
{
    lemma_opens_excess(a + b, k);
    lemma_opens_excess(a, a.len() as int);
    lemma_opens_excess(b, k - a.len());
    lemma_seq_excess_concat(a, b, k);
}

/// There is one subtree in preorder per node.
pub proof fn lemma_preorder_len(t: Tree)
    ensures
        preorder(t).len() == size(t),
        preorder(t)[0] == t,
    decreases t,
{
    if let Tree::Node(_, cs) = t {
        lemma_preorder_forest_len(cs@);
    }
}

pub proof fn lemma_preorder_forest_len(cs: Seq<Tree>)
    ensures
        preorder_forest(cs).len() == forest_size(cs),
    decreases cs,
{
    if cs.len() > 0 {
        lemma_preorder_forest_len(cs.drop_last());
        lemma_preorder_len(cs.last());
    }
}

/// The parentheses of the `k`-th subtree in preorder lie in those of the tree, at a
/// position with `k` `(` before it.
pub proof fn lemma_preorder_offset(t: Tree, k: int) -> (off: int)
    requires
        0 <= k < size(t),
    ensures
        0 <= off,
        off + bp_seq(preorder(t)[k]).len() <= bp_seq(t).len(),
        bp_seq(t).subrange(off, off + bp_seq(preorder(t)[k]).len()) == bp_seq(preorder(t)[k]),
        seq_opens(bp_seq(t), off) == k,
    decreases t,
{
    lemma_preorder_len(t);
    lemma_tree_lengths(t);
    if k == 0 {
        assert(bp_seq(t).subrange(0, bp_seq(t).len() as int) =~= bp_seq(t));
        0
    } else {
        match t {
            Tree::Leaf(_) => {
                assert(false);
                0
            },
            Tree::Node(_, cs) => {
                let f = forest_bp(cs@);
                let o = lemma_forest_offset(cs@, k - 1);
                let sub = preorder_forest(cs@)[k - 1];
                assert(preorder(t)[k] == sub);
                let a = seq![true];
                assert(bp_seq(t) == a + f + seq![false]);
                assert(bp_seq(t).subrange(1 + o, 1 + o + bp_seq(sub).len()) =~= f.subrange(
                    o,
                    o + bp_seq(sub).len(),
                ));
                assert(a[0]);
                assert(seq_opens(a, 0) == 0);
                assert(seq_opens(a, 1) == 1);
                lemma_seq_opens_concat(a, f, 1 + o);
                assert(bp_seq(t).subrange(0, 1 + o) =~= (a + f).subrange(0, 1 + o));
                lemma_seq_opens_prefix(bp_seq(t), a + f, 1 + o);
                1 + o
            },
        }
    }
}

/// The `k`-th subtree in preorder of a sequence of trees, in their parentheses.
pub proof fn lemma_forest_offset(cs: Seq<Tree>, k: int) -> (off: int)
    requires
        0 <= k < forest_size(cs),
    ensures
        0 <= off,
        off + bp_seq(preorder_forest(cs)[k]).len() <= forest_bp(cs).len(),
        forest_bp(cs).subrange(off, off + bp_seq(preorder_forest(cs)[k]).len()) == bp_seq(
            preorder_forest(cs)[k],
        ),
        seq_opens(forest_bp(cs), off) == k,
    decreases cs,
{
    let c0 = cs.drop_last();
    let last = cs.last();
    let f0 = forest_bp(c0);
    let b = bp_seq(last);
    lemma_preorder_forest_len(c0);
    lemma_preorder_len(last);
    lemma_forest_lengths(c0);
    lemma_forest_balanced(c0);
    lemma_opens_excess(f0, f0.len() as int);
    if k < forest_size(c0) {
        let o = lemma_forest_offset(c0, k);
        let sub = preorder_forest(c0)[k];
        assert(preorder_forest(cs)[k] == sub);
        assert(forest_bp(cs).subrange(o, o + bp_seq(sub).len()) =~= f0.subrange(o, o + bp_seq(sub).len()));
        assert(forest_bp(cs).subrange(0, o) =~= f0.subrange(0, o));
        lemma_seq_opens_prefix(forest_bp(cs), f0, o);
        o
    } else {
        let k2 = k - forest_size(c0);
        let o = lemma_preorder_offset(last, k2);
        let sub = preorder(last)[k2];
        assert(preorder_forest(cs)[k] == sub);
        let off = f0.len() + o;
        assert(forest_bp(cs).subrange(off, off + bp_seq(sub).len()) =~= b.subrange(o, o + bp_seq(sub).len()));
        lemma_seq_opens_concat(f0, b, off);
        assert(b.subrange(0, o) =~= b.subrange(0, o));
        off
    }
}

/// The opens of a prefix depend on the prefix alone.
pub proof fn lemma_seq_opens_prefix(s: Seq<bool>, t: Seq<bool>, n: int)
    requires
        0 <= n <= s.len(),
        n <= t.len(),
        s.subrange(0, n) == t.subrange(0, n),
    ensures
        seq_opens(s, n) == seq_opens(t, n),
    decreases n,
{
    if n > 0 {
        assert(s[n - 1] == s.subrange(0, n)[n - 1]);
        assert(t[n - 1] == t.subrange(0, n)[n - 1]);
        assert(s.subrange(0, n - 1) =~= s.subrange(0, n).subrange(0, n - 1));
        assert(t.subrange(0, n - 1) =~= t.subrange(0, n).subrange(0, n - 1));
        lemma_seq_opens_prefix(s, t, n - 1);
    }
}


/// The word of a run of parentheses that starts with `(` counts the run's `(`, and
/// none after it.
pub proof fn lemma_word_opens(s: Seq<bool>, n: int)
    requires
        0 < s.len() <= 64,
        s[0],
        0 <= n <= 64,
    ensures
        ones(aligned(pack(s)), n) == if n <= s.len() {
            seq_opens(s, n)
        } else {
            seq_opens(s, s.len() as int)
        },
    decreases n,
{
    if n > 0 {
        lemma_word_opens(s, n - 1);
        lemma_aligned_pack(s);
    }
}

/// Within a window of the run, the excess of the word follows the excess of the window.
pub proof fn lemma_word_window(s: Seq<bool>, off: int, sub: Seq<bool>, j: int)
    requires
        0 < s.len() <= 64,
        s[0],
        0 <= off,
        off + sub.len() <= s.len(),
        s.subrange(off, off + sub.len()) == sub,
        0 <= j <= sub.len(),
    ensures
        excess(aligned(pack(s)), off + j) == excess(aligned(pack(s)), off) + seq_excess(sub, j),
    decreases j,
{
    if j > 0 {
        lemma_word_window(s, off, sub, j - 1);
        lemma_aligned_pack(s);
        assert(sub[j - 1] == s[off + j - 1]);
    }
}


/// The children of a node; a leaf has none.
pub open spec fn children(t: Tree) -> Seq<Tree> {
    match t {
        Tree::Leaf(_) => Seq::empty(),
        Tree::Node(_, cs) => cs@,
    }
}

/// The description of a node in its degree sequence: a `(` per child, then `)`.
pub open spec fn desc(t: Tree) -> Seq<bool> {
    Seq::new(children(t).len(), |i: int| true) + seq![false]
}

/// A degree sequence is the description of the root, then the sequences of the children.
pub proof fn lemma_dfuds_split(t: Tree)
    ensures
        dfuds_seq(t) == desc(t) + dfuds_forest(children(t)),
        desc(t).len() == children(t).len() + 1,
        !desc(t)[children(t).len() as int],
        forall|y: int| 0 <= y < children(t).len() ==> #[trigger] desc(t)[y],
{
    if let Tree::Leaf(_) = t {
        assert(dfuds_seq(t) =~= desc(t) + dfuds_forest(children(t)));
    }
}

/// The sequences of the first trees begin the sequences of all of them.
pub proof fn lemma_dfuds_forest_prefix(cs: Seq<Tree>, i: int)
    requires
        0 <= i <= cs.len(),
    ensures
        dfuds_forest(cs.take(i)).len() <= dfuds_forest(cs).len(),
        dfuds_forest(cs).subrange(0, dfuds_forest(cs.take(i)).len() as int) == dfuds_forest(cs.take(i)),
    decreases cs.len(),
{
    if i < cs.len() {
        assert(cs.drop_last().take(i) =~= cs.take(i));
        lemma_dfuds_forest_prefix(cs.drop_last(), i);
        let f0 = dfuds_forest(cs.drop_last());
        let ft = dfuds_forest(cs.take(i));
        assert(dfuds_forest(cs).subrange(0, ft.len() as int) =~= f0.subrange(0, ft.len() as int));
    } else {
        assert(cs.take(i) =~= cs);
        assert(dfuds_forest(cs).subrange(0, dfuds_forest(cs).len() as int) =~= dfuds_forest(cs));
    }
}

/// A degree sequence has one `(` fewer than nodes, and a sequence of them one `(` fewer
/// than nodes per tree.
pub proof fn lemma_dfuds_opens(t: Tree)
    ensures
        seq_opens(dfuds_seq(t), dfuds_seq(t).len() as int) == size(t) - 1,
        !dfuds_seq(t).last(),
    decreases t,
{
    lemma_tree_lengths(t);
    lemma_dfuds_excess(t);
    lemma_opens_excess(dfuds_seq(t), dfuds_seq(t).len() as int);
    lemma_dfuds_split(t);
    let cs = children(t);
    if cs.len() > 0 {
        lemma_dfuds_forest_last(cs);
    }
}

pub proof fn lemma_dfuds_forest_last(cs: Seq<Tree>)
    requires
        cs.len() > 0,
    ensures
        dfuds_forest(cs).len() > 0,
        !dfuds_forest(cs).last(),
    decreases cs,
{
    lemma_tree_lengths(cs.last());
    lemma_dfuds_opens(cs.last());
}

pub proof fn lemma_dfuds_forest_opens(cs: Seq<Tree>)
    ensures
        seq_opens(dfuds_forest(cs), dfuds_forest(cs).len() as int) == forest_size(cs) - cs.len(),
{
    lemma_forest_lengths(cs);
    lemma_dfuds_forest_excess(cs);
    lemma_opens_excess(dfuds_forest(cs), dfuds_forest(cs).len() as int);
}

/// The degree sequence of the `k`-th subtree in preorder lies in the tree's, at a
/// position with `k` `)` before it, right after a `)` unless `k` is 0.
pub proof fn lemma_dfuds_offset(t: Tree, k: int) -> (off: int)
    requires
        0 <= k < size(t),
    ensures
        0 <= off,
        off + dfuds_seq(preorder(t)[k]).len() <= dfuds_seq(t).len(),
        dfuds_seq(t).subrange(off, off + dfuds_seq(preorder(t)[k]).len()) == dfuds_seq(preorder(t)[k]),
        seq_opens(dfuds_seq(t), off) == off - k,
        k == 0 ==> off == 0,
        k > 0 ==> off > 0 && !dfuds_seq(t)[off - 1],
    decreases t,
{
    lemma_preorder_len(t);
    lemma_tree_lengths(t);
    if k == 0 {
        assert(dfuds_seq(t).subrange(0, dfuds_seq(t).len() as int) =~= dfuds_seq(t));
        0
    } else {
        match t {
            Tree::Leaf(_) => {
                assert(false);
                0
            },
            Tree::Node(_, cs) => {
                lemma_dfuds_split(t);
                let h = desc(t);
                let f = dfuds_forest(cs@);
                let o = lemma_dfuds_forest_offset(cs@, k - 1);
                let sub = preorder_forest(cs@)[k - 1];
                assert(preorder(t)[k] == sub);
                let off = h.len() + o;
                assert(dfuds_seq(t).subrange(off, off + dfuds_seq(sub).len()) =~= f.subrange(
                    o,
                    o + dfuds_seq(sub).len(),
                ));
                lemma_seq_opens_all_true(h, cs.len() as int);
                lemma_seq_opens_concat(h, f, off);
                assert(h[h.len() - 1] == false);
                if o > 0 {
                    assert(dfuds_seq(t)[off - 1] == f[o - 1]);
                } else {
                    assert(dfuds_seq(t)[off - 1] == h[h.len() - 1]);
                }
                off
            },
        }
    }
}

/// The opens of a description.
pub proof fn lemma_seq_opens_all_true(h: Seq<bool>, m: int)
    requires
        0 <= m,
        h.len() == m + 1,
        forall|y: int| 0 <= y < m ==> #[trigger] h[y],
        !h[m],
    ensures
        seq_opens(h, m + 1) == m,
        forall|n: int| 0 <= n <= m ==> #[trigger] seq_opens(h, n) == n,
{
    lemma_seq_opens_run(h, m, m);
    assert forall|n: int| 0 <= n <= m implies #[trigger] seq_opens(h, n) == n by {
        lemma_seq_opens_run(h, n, m);
    }
}

/// The excess of a run of `(`.
pub proof fn lemma_seq_excess_run(h: Seq<bool>, n: int, m: int)
    requires
        0 <= n <= m,
        m < h.len(),
        forall|y: int| 0 <= y < m ==> #[trigger] h[y],
    ensures
        seq_excess(h, n) == n,
    decreases n,
{
    if n > 0 {
        lemma_seq_excess_run(h, n - 1, m);
    }
}

proof fn lemma_seq_opens_run(h: Seq<bool>, n: int, m: int)
    requires
        0 <= n <= m,
        m < h.len(),
        forall|y: int| 0 <= y < m ==> #[trigger] h[y],
    ensures
        seq_opens(h, n) == n,
    decreases n,
{
    if n > 0 {
        lemma_seq_opens_run(h, n - 1, m);
    }
}

/// The degree sequence of the `k`-th subtree in preorder of a sequence of trees.
pub proof fn lemma_dfuds_forest_offset(cs: Seq<Tree>, k: int) -> (off: int)
    requires
        0 <= k < forest_size(cs),
    ensures
        0 <= off,
        off + dfuds_seq(preorder_forest(cs)[k]).len() <= dfuds_forest(cs).len(),
        dfuds_forest(cs).subrange(off, off + dfuds_seq(preorder_forest(cs)[k]).len()) == dfuds_seq(
            preorder_forest(cs)[k],
        ),
        seq_opens(dfuds_forest(cs), off) == off - k,
        off > 0 ==> !dfuds_forest(cs)[off - 1],
    decreases cs,
{
    let c0 = cs.drop_last();
    let last = cs.last();
    let f0 = dfuds_forest(c0);
    let d = dfuds_seq(last);
    lemma_preorder_forest_len(c0);
    lemma_preorder_len(last);
    lemma_forest_lengths(c0);
    lemma_dfuds_forest_opens(c0);
    if k < forest_size(c0) {
        let o = lemma_dfuds_forest_offset(c0, k);
        let sub = preorder_forest(c0)[k];
        assert(preorder_forest(cs)[k] == sub);
        assert(dfuds_forest(cs).subrange(o, o + dfuds_seq(sub).len()) =~= f0.subrange(o, o + dfuds_seq(sub).len()));
        assert(dfuds_forest(cs).subrange(0, o) =~= f0.subrange(0, o));
        lemma_seq_opens_prefix(dfuds_forest(cs), f0, o);
        if o > 0 {
            assert(dfuds_forest(cs)[o - 1] == f0[o - 1]);
        }
        o
    } else {
        let k2 = k - forest_size(c0);
        let o = lemma_dfuds_offset(last, k2);
        let sub = preorder(last)[k2];
        assert(preorder_forest(cs)[k] == sub);
        let off = f0.len() + o;
        assert(dfuds_forest(cs).subrange(off, off + dfuds_seq(sub).len()) =~= d.subrange(o, o + dfuds_seq(sub).len()));
        lemma_seq_opens_concat(f0, d, off);
        if o > 0 {
            assert(dfuds_forest(cs)[off - 1] == d[o - 1]);
        } else if off > 0 {
            lemma_dfuds_forest_last(c0);
            assert(dfuds_forest(cs)[off - 1] == f0[f0.len() - 1]);
        }
        off
    }
}

/// The preorder of a tree holds the preorder of each of its subtrees as a block.
pub proof fn lemma_preorder_block(t: Tree, k: int, x: int)
    requires
        0 <= k < size(t),
        0 <= x < size(preorder(t)[k]),
    ensures
        k + x < size(t),
        preorder(t)[k + x] == preorder(preorder(t)[k])[x],
    decreases t,
{
    lemma_preorder_len(t);
    if k == 0 {
    } else {
        match t {
            Tree::Leaf(_) => {},
            Tree::Node(_, cs) => {
                lemma_preorder_forest_block(cs@, k - 1, x);
            },
        }
    }
}

pub proof fn lemma_preorder_forest_block(cs: Seq<Tree>, k: int, x: int)
    requires
        0 <= k < forest_size(cs),
        0 <= x < size(preorder_forest(cs)[k]),
    ensures
        k + x < forest_size(cs),
        preorder_forest(cs)[k + x] == preorder(preorder_forest(cs)[k])[x],
    decreases cs,
{
    let c0 = cs.drop_last();
    let last = cs.last();
    lemma_preorder_forest_len(c0);
    lemma_preorder_len(last);
    lemma_preorder_forest_len(cs);
    if k < forest_size(c0) {
        lemma_preorder_forest_block(c0, k, x);
    } else {
        lemma_preorder_block(last, k - forest_size(c0), x);
    }
}

/// In the preorder of a sequence of trees, tree `i` comes after the nodes of the trees
/// before it.
pub proof fn lemma_preorder_forest_start(cs: Seq<Tree>, i: int)
    requires
        0 <= i < cs.len(),
    ensures
        forest_size(cs.take(i)) < forest_size(cs),
        preorder_forest(cs)[forest_size(cs.take(i)) as int] == cs[i],
    decreases cs.len(),
{
    let c0 = cs.drop_last();
    lemma_preorder_forest_len(c0);
    lemma_preorder_forest_len(cs);
    lemma_preorder_len(cs.last());
    if i < cs.len() - 1 {
        assert(c0.take(i) =~= cs.take(i));
        lemma_preorder_forest_start(c0, i);
        assert(c0[i] == cs[i]);
        lemma_forest_size_take(c0, i);
    } else {
        assert(cs.take(i) =~= c0);
    }
}

/// The first trees have no more nodes than all of them.
pub proof fn lemma_forest_size_take(cs: Seq<Tree>, i: int)
    requires
        0 <= i <= cs.len(),
    ensures
        forest_size(cs.take(i)) <= forest_size(cs),
    decreases cs.len(),
{
    if i < cs.len() {
        assert(cs.drop_last().take(i) =~= cs.take(i));
        lemma_forest_size_take(cs.drop_last(), i);
    } else {
        assert(cs.take(i) =~= cs);
    }
}


/// Within a window, the opens and the excess of a run follow those of the window.
pub proof fn lemma_seq_window(s: Seq<bool>, off: int, sub: Seq<bool>, y: int)
    requires
        0 <= off,
        off + sub.len() <= s.len(),
        s.subrange(off, off + sub.len()) == sub,
        0 <= y <= sub.len(),
    ensures
        seq_opens(s, off + y) == seq_opens(s, off) + seq_opens(sub, y),
        seq_excess(s, off + y) == seq_excess(s, off) + seq_excess(sub, y),
    decreases y,
{
    if y > 0 {
        lemma_seq_window(s, off, sub, y - 1);
        assert(sub[y - 1] == s[off + y - 1]);
    }
}

/// The excess of a prefix depends on the prefix alone.
pub proof fn lemma_seq_excess_prefix(s: Seq<bool>, t: Seq<bool>, n: int)
    requires
        0 <= n <= s.len(),
        n <= t.len(),
        s.subrange(0, n) == t.subrange(0, n),
    ensures
        seq_excess(s, n) == seq_excess(t, n),
        seq_opens(s, n) == seq_opens(t, n),
{
    lemma_seq_opens_prefix(s, t, n);
    lemma_opens_excess(s, n);
    lemma_opens_excess(t, n);
}

} // verus!
