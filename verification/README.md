# Succinct trees in one 64-bit word

A verified library of succinct data structures over a 64-bit word, read from its
most significant bit:

- `rank_select`: a bit vector with constant-time rank and select tables.
- `balanced_paren`: a word of parentheses with `find_close`, which finds the `)` that
  closes any matched `(` through the pioneer index, and a scanning `naive_find_close`.
- `bp_tree`, `dfuds_tree`: ordinal trees in balanced-parentheses (BP) and depth-first
  unary degree sequence (DFUDS) form, with subtree sizes, degrees and children.

The model lives in `bits` (bits, counts, packing), `util` (left alignment), `paren`
(excess, matching, the scanning stack), `pioneer` (far parentheses and pioneers) and
`tree` (trees, their parenthesis sequences, preorder). Every function carries a
contract over that model; the proof functions named `lemma_*` at the end of
`rank_select`, `balanced_paren`, `bp_tree` and `dfuds_tree` state the laws that tie the
operations together, down to the tree: `subtree_size` counts the nodes of a subtree,
and the DFUDS operations find a node's children in preorder.

`app/main.rs` builds a small tree and prints both representations.
