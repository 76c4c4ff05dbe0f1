use vstd::prelude::*;
use crate::node::{Node};
use crate::shape::{Shape, live, node_struct_ok, struct_ok, sum_len, len_node_ok, lengths_ok, total_fits,
    iter_parent, is_anc, same_links, lemma_sum_split, lemma_sum_mono, lemma_sum_one, lemma_child_not_anc,
    lemma_same_links, frame_outside};

verus! {

/// Root and recorded black height of the red-black tree over the node arena.
pub struct RedBlackTree {
    pub black_height: usize,
    pub root_node: usize,
    pub shape: Ghost<Shape>,
}

pub open spec fn with_lengths(nd: Node, st: int, lst: int) -> Node {
    Node { subtree_length: st as usize, left_subtree_length: lst as usize, ..nd }
}

impl RedBlackTree {
    /// A tree record with the given black height and root slot, described by `shape`.
    pub(crate) fn new(black_height: usize, root_node: usize, Ghost(shape): Ghost<Shape>) -> (r: Self)
        ensures
            r.black_height == black_height,
            r.root_node == root_node,
            r.shape@ == shape,
    {
        RedBlackTree { black_height, root_node, shape: Ghost(shape) }
    }

    /// Recomputes the cached lengths of `node_idx` from its children.
    pub(crate) fn update_subtree_length(nodes: &mut Vec<Node>, node_idx: usize)
        requires
            node_idx < old(nodes).len(),
            old(nodes)@[node_idx as int].left < old(nodes).len(),
            old(nodes)@[node_idx as int].right < old(nodes).len(),
            old(nodes)@[old(nodes)@[node_idx as int].left as int].subtree_length
                + old(nodes)@[old(nodes)@[node_idx as int].right as int].subtree_length
                + old(nodes)@[node_idx as int].length <= usize::MAX,
        ensures
            final(nodes)@ == old(nodes)@.update(
                node_idx as int,
                with_lengths(
                    old(nodes)@[node_idx as int],
                    old(nodes)@[old(nodes)@[node_idx as int].left as int].subtree_length
                        + old(nodes)@[old(nodes)@[node_idx as int].right as int].subtree_length
                        + old(nodes)@[node_idx as int].length,
                    old(nodes)@[old(nodes)@[node_idx as int].left as int].subtree_length as int,
                ),
            ),
    {
        let left = nodes[node_idx].left;
        let right = nodes[node_idx].right;
        let left_len = nodes[left].subtree_length;
        let right_len = nodes[right].subtree_length;
        let total = left_len + right_len + nodes[node_idx].length;
        nodes[node_idx].subtree_length = total;
        nodes[node_idx].left_subtree_length = left_len;
    }

    /// Recomputes the cached lengths of `node_idx` in a tree where all its descendants
    /// already hold correct lengths.
    pub(crate) proof fn lemma_update_ok(nodes: Seq<Node>, root: usize, g: Shape, n: usize)
        requires
            struct_ok(nodes, root, g),
            total_fits(nodes, g),
            live(g, n),
            nodes[n as int].left != 0 ==> len_node_ok(nodes, g, nodes[n as int].left),
            nodes[n as int].right != 0 ==> len_node_ok(nodes, g, nodes[n as int].right),
        ensures
            nodes[nodes[n as int].left as int].subtree_length + nodes[nodes[n as int].right as int].subtree_length
                + nodes[n as int].length == sum_len(nodes, g.ord, g.lo[n], g.hi[n]),
            nodes[nodes[n as int].left as int].subtree_length == sum_len(nodes, g.ord, g.lo[n], g.pos[n]),
            sum_len(nodes, g.ord, g.lo[n], g.hi[n]) <= usize::MAX,
    {
        assert(node_struct_ok(nodes, root, g, n));
        let p = g.pos[n];
        lemma_sum_split(nodes, g.ord, g.lo[n], p, g.hi[n]);
        lemma_sum_split(nodes, g.ord, p, p + 1, g.hi[n]);
        lemma_sum_one(nodes, g.ord, p);
        lemma_sum_mono(nodes, g.ord, 0, g.lo[n], g.hi[n], g.ord.len() as int);
    }

    /// Walks from `curr` up to the root, recomputing the cached lengths of `curr` and of each
    /// of its ancestors from their children. The children off that path must hold correct
    /// cached lengths; nothing off the path changes.
    pub(crate) fn update_ancestors(nodes: &mut Vec<Node>, curr: usize, Ghost(root): Ghost<usize>, Ghost(g): Ghost<Shape>)
        requires
            struct_ok(old(nodes)@, root, g),
            total_fits(old(nodes)@, g),
            curr == 0 || live(g, curr),
            forall|m: usize| live(g, m) && !is_anc(old(nodes)@, curr, m) && old(nodes)@[m as int].parent != 0
                && is_anc(old(nodes)@, curr, old(nodes)@[m as int].parent) ==> #[trigger] len_node_ok(old(nodes)@, g, m),
        ensures
            same_links(old(nodes)@, final(nodes)@),
            final(nodes)@[0] == old(nodes)@[0],
            frame_outside(old(nodes)@, final(nodes)@, g),
            struct_ok(final(nodes)@, root, g),
            total_fits(final(nodes)@, g),
            forall|a: int, b: int| 0 <= a && b <= g.ord.len() ==> sum_len(old(nodes)@, g.ord, a, b) == #[trigger] sum_len(final(nodes)@, g.ord, a, b),
            forall|m: usize| live(g, m) && !is_anc(old(nodes)@, curr, m) ==> #[trigger] final(nodes)@[m as int] == old(nodes)@[m as int],
            forall|m: usize| live(g, m) && is_anc(old(nodes)@, curr, m) ==> #[trigger] len_node_ok(final(nodes)@, g, m)
                && final(nodes)@[m as int].left_subtree_length == final(nodes)@[final(nodes)@[m as int].left as int].subtree_length
                && final(nodes)@[m as int].subtree_length == final(nodes)@[final(nodes)@[m as int].left as int].subtree_length
                    + final(nodes)@[final(nodes)@[m as int].right as int].subtree_length + final(nodes)@[m as int].length,
            (forall|m: usize| live(g, m) ==> #[trigger] len_node_ok(old(nodes)@, g, m) || is_anc(old(nodes)@, curr, m))
                ==> lengths_ok(final(nodes)@, g),
    {
        let ghost n0 = nodes@;
        let ghost curr0 = curr;
        let mut curr = curr;
        proof {
            lemma_same_links(n0, nodes@, root, g);
            assert(iter_parent(n0, curr0, 0) == curr0);
        }
        while curr != 0
            invariant
                struct_ok(n0, root, g),
                same_links(n0, nodes@),
                nodes@[0] == n0[0],
                frame_outside(n0, nodes@, g),
                struct_ok(nodes@, root, g),
                total_fits(nodes@, g),
                forall|a: int, b: int| 0 <= a && b <= g.ord.len() ==> sum_len(n0, g.ord, a, b) == #[trigger] sum_len(nodes@, g.ord, a, b),
                curr == 0 || live(g, curr),
                curr == 0 || is_anc(n0, curr0, curr),
                forall|m: usize| live(g, m) && !is_anc(n0, curr0, m) && n0[m as int].parent != 0
                    && is_anc(n0, curr0, n0[m as int].parent) ==> #[trigger] len_node_ok(n0, g, m),
                forall|m: usize| live(g, m) && !is_anc(n0, curr0, m) ==> #[trigger] nodes@[m as int] == n0[m as int],
                forall|m: usize| live(g, m) && is_anc(n0, curr0, m) && !is_anc(n0, curr, m) ==> #[trigger] len_node_ok(nodes@, g, m),
            decreases if curr == 0 { 0 } else { g.ord.len() + 1 - (g.hi[curr] - g.lo[curr]) },
        {
            let ghost before = nodes@;
            proof {
                assert(node_struct_ok(n0, root, g, curr));
                assert(node_struct_ok(nodes@, root, g, curr));
                let nd = nodes@[curr as int];
                if nd.left != 0 {
                    Self::lemma_child_done(n0, nodes@, root, g, curr0, curr, nd.left);
                }
                if nd.right != 0 {
                    Self::lemma_child_done(n0, nodes@, root, g, curr0, curr, nd.right);
                }
                Self::lemma_update_ok(nodes@, root, g, curr);
            }
            Self::update_subtree_length(nodes, curr);
            proof {
                assert(same_links(n0, nodes@));
                lemma_same_links(n0, nodes@, root, g);
                assert(len_node_ok(nodes@, g, curr));
            }
            let next = nodes[curr].parent;
            proof {
                assert(node_struct_ok(nodes@, root, g, curr));
                if next != 0 {
                    assert(node_struct_ok(nodes@, root, g, next));
                    let k = choose|k: nat| iter_parent(n0, curr0, k) == curr;
                    lemma_iter_parent_next(n0, curr0, k);
                    assert(iter_parent(n0, curr0, k + 1) == next);
                }
                assert forall|m: usize| live(g, m) && !is_anc(n0, curr0, m) implies #[trigger] nodes@[m as int] == n0[m as int] by {
                    if m == curr {
                    }
                }
                assert forall|m: usize| live(g, m) && is_anc(n0, curr0, m) && !is_anc(n0, next, m) implies #[trigger] len_node_ok(nodes@, g, m) by {
                    if m != curr {
                        assert(len_node_ok(before, g, m) == len_node_ok(nodes@, g, m)) by {
                            assert(nodes@[m as int] == before[m as int]);
                            assert(node_struct_ok(nodes@, root, g, m));
                            assert(sum_len(before, g.ord, g.lo[m], g.hi[m]) == sum_len(n0, g.ord, g.lo[m], g.hi[m]));
                            assert(sum_len(before, g.ord, g.lo[m], g.pos[m]) == sum_len(n0, g.ord, g.lo[m], g.pos[m]));
                            assert(sum_len(nodes@, g.ord, g.lo[m], g.hi[m]) == sum_len(n0, g.ord, g.lo[m], g.hi[m]));
                            assert(sum_len(nodes@, g.ord, g.lo[m], g.pos[m]) == sum_len(n0, g.ord, g.lo[m], g.pos[m]));
                        }
                        if is_anc(n0, curr, m) {
                            let k = choose|k: nat| iter_parent(n0, curr, k) == m;
                            assert(k > 0);
                            assert(iter_parent(n0, next, (k - 1) as nat) == m);
                        }
                    }
                }
            }
            curr = next;
        }
        proof {
            assert forall|m: usize| live(g, m) implies !is_anc(n0, 0, m) by {
                if is_anc(n0, 0, m) {
                    let k = choose|k: nat| iter_parent(n0, 0, k) == m;
                    assert(iter_parent(n0, 0, k) == 0);
                }
            }
            assert forall|m: usize| live(g, m) && is_anc(n0, curr0, m) implies #[trigger] len_node_ok(nodes@, g, m)
                && nodes@[m as int].left_subtree_length == nodes@[nodes@[m as int].left as int].subtree_length
                && nodes@[m as int].subtree_length == nodes@[nodes@[m as int].left as int].subtree_length
                    + nodes@[nodes@[m as int].right as int].subtree_length + nodes@[m as int].length by {
                assert(node_struct_ok(nodes@, root, g, m));
                assert(node_struct_ok(n0, root, g, m));
                let l = nodes@[m as int].left;
                let r = nodes@[m as int].right;
                if l != 0 {
                    Self::lemma_child_done(n0, nodes@, root, g, curr0, 0, l);
                }
                if r != 0 {
                    Self::lemma_child_done(n0, nodes@, root, g, curr0, 0, r);
                }
                Self::lemma_update_ok(nodes@, root, g, m);
                assert(!is_anc(n0, 0, m));
                assert(len_node_ok(nodes@, g, m));
                assert(nodes@[0].subtree_length == 0);
            }
            if forall|m: usize| live(g, m) ==> #[trigger] len_node_ok(n0, g, m) || is_anc(n0, curr0, m) {
                assert forall|m: usize| live(g, m) implies #[trigger] len_node_ok(nodes@, g, m) by {
                    if !is_anc(n0, curr0, m) {
                        assert(len_node_ok(n0, g, m));
                        assert(nodes@[m as int] == n0[m as int]);
                        assert(node_struct_ok(n0, root, g, m));
                    }
                }
            }
        }
    }

    /// A child `c` of a slot on the path from `curr0` up, taken when the walk is at `curr`
    /// (`c`'s parent, or NIL once the walk is over), holds correct cached lengths.
    proof fn lemma_child_done(n0: Seq<Node>, n1: Seq<Node>, root: usize, g: Shape, curr0: usize, curr: usize, c: usize)
        requires
            struct_ok(n0, root, g),
            struct_ok(n1, root, g),
            same_links(n0, n1),
            live(g, c),
            n0[c as int].parent != 0,
            is_anc(n0, curr0, n0[c as int].parent),
            curr == 0 || curr == n0[c as int].parent,
            curr == 0 ==> forall|m: usize| live(g, m) ==> !is_anc(n0, 0, m),
            forall|a: int, b: int| 0 <= a && b <= g.ord.len() ==> sum_len(n0, g.ord, a, b) == #[trigger] sum_len(n1, g.ord, a, b),
            forall|m: usize| live(g, m) && !is_anc(n0, curr0, m) && n0[m as int].parent != 0
                && is_anc(n0, curr0, n0[m as int].parent) ==> #[trigger] len_node_ok(n0, g, m),
            forall|m: usize| live(g, m) && !is_anc(n0, curr0, m) ==> #[trigger] n1[m as int] == n0[m as int],
            forall|m: usize| live(g, m) && is_anc(n0, curr0, m) && !is_anc(n0, curr, m) ==> #[trigger] len_node_ok(n1, g, m),
        ensures
            len_node_ok(n1, g, c),
    {
        assert(node_struct_ok(n0, root, g, c));
        assert(node_struct_ok(n1, root, g, c));
        if is_anc(n0, curr0, c) {
            if curr != 0 {
                lemma_child_not_anc(n0, root, g, curr, c);
            }
            assert(len_node_ok(n1, g, c));
        } else {
            assert(len_node_ok(n0, g, c));
            assert(n1[c as int] == n0[c as int]);
        }
    }
}

/// One more step up from the `k`-th ancestor of `c`.
pub proof fn lemma_iter_parent_next(nodes: Seq<Node>, c: usize, k: nat)
    ensures
        iter_parent(nodes, c, k + 1) == (if iter_parent(nodes, c, k) == 0 { 0 } else {
            nodes[iter_parent(nodes, c, k) as int].parent
        }),
    decreases k,
{
    if k == 0 {
        assert(iter_parent(nodes, c, 1) == (if c == 0 { 0 } else { iter_parent(nodes, nodes[c as int].parent, 0) }));
    } else if c != 0 {
        lemma_iter_parent_next(nodes, nodes[c as int].parent, (k - 1) as nat);
        assert(iter_parent(nodes, c, k + 1) == iter_parent(nodes, nodes[c as int].parent, k));
        assert(iter_parent(nodes, c, k) == iter_parent(nodes, nodes[c as int].parent, (k - 1) as nat));
        assert(((k - 1) as nat) + 1 == k);
    }
}

} // verus!
