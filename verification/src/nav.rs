use vstd::prelude::*;
use crate::node::{Node};
use crate::shape::{Shape, live, struct_ok, node_struct_ok, len_node_ok, lengths_ok, total_fits, sum_len,
    lemma_sum_split, lemma_sum_nonneg};
use crate::rbtree::RedBlackTree;

verus! {

/// `n` with `v` put where `u` hung under its parent, and `v` pointing back to that parent.
pub open spec fn transplanted(n: Seq<Node>, u: usize, v: usize) -> Seq<Node> {
    let up = n[u as int].parent;
    let n1 = if up == 0 {
        n
    } else if u == n[up as int].left {
        n.update(up as int, Node { left: v, ..n[up as int] })
    } else {
        n.update(up as int, Node { right: v, ..n[up as int] })
    };
    n1.update(v as int, Node { parent: up, ..n1[v as int] })
}

impl RedBlackTree {
    /// Puts `v` in the place of `u` under `u`'s parent (or at the root).
    pub(crate) fn transplant(&mut self, nodes: &mut Vec<Node>, u: usize, v: usize)
        requires
            u < old(nodes).len(),
            v < old(nodes).len(),
            old(nodes)@[u as int].parent < old(nodes).len(),
        ensures
            final(nodes)@ == transplanted(old(nodes)@, u, v),
            final(self).root_node == (if old(nodes)@[u as int].parent == 0 { v } else { old(self).root_node }),
            final(self).black_height == old(self).black_height,
            final(self).shape == old(self).shape,
    {
        let up = nodes[u].parent;
        if up == 0 {
            self.root_node = v;
        } else if u == nodes[up].left {
            nodes[up].left = v;
        } else {
            nodes[up].right = v;
        }
        nodes[v].parent = up;
    }

    /// The leftmost slot of the subtree under `x`.
    pub(crate) fn minimum(nodes: &Vec<Node>, x: usize, Ghost(root): Ghost<usize>, Ghost(g): Ghost<Shape>) -> (r: usize)
        requires
            struct_ok(nodes@, root, g),
            live(g, x),
        ensures
            live(g, r),
            g.pos[r] == g.lo[x],
            g.lo[r] == g.lo[x],
            nodes@[r as int].left == 0,
    {
        let mut left_most = x;
        while nodes[left_most].left != 0
            invariant
                struct_ok(nodes@, root, g),
                live(g, left_most),
                g.lo[left_most] == g.lo[x],
            decreases g.hi[left_most] - g.lo[left_most],
        {
            proof {
                assert(node_struct_ok(nodes@, root, g, left_most));
                assert(node_struct_ok(nodes@, root, g, nodes@[left_most as int].left));
            }
            left_most = nodes[left_most].left;
        }
        proof {
            assert(node_struct_ok(nodes@, root, g, left_most));
        }
        left_most
    }

    /// The in-order successor of `node`, or NIL after the last piece.
    pub(crate) fn successor(nodes: &Vec<Node>, node: usize, Ghost(root): Ghost<usize>, Ghost(g): Ghost<Shape>) -> (r: usize)
        requires
            struct_ok(nodes@, root, g),
            live(g, node),
        ensures
            g.pos[node] + 1 < g.ord.len() ==> r == g.ord[g.pos[node] + 1],
            g.pos[node] + 1 == g.ord.len() ==> r == 0,
    {
        proof {
            assert(node_struct_ok(nodes@, root, g, node));
        }
        if nodes[node].right != 0 {
            let mut curr = nodes[node].right;
            proof {
                assert(node_struct_ok(nodes@, root, g, curr));
            }
            while nodes[curr].left != 0
                invariant
                    struct_ok(nodes@, root, g),
                    live(g, curr),
                    g.lo[curr] == g.pos[node] + 1,
                decreases g.hi[curr] - g.lo[curr],
            {
                proof {
                    assert(node_struct_ok(nodes@, root, g, curr));
                    assert(node_struct_ok(nodes@, root, g, nodes@[curr as int].left));
                }
                curr = nodes[curr].left;
            }
            proof {
                assert(node_struct_ok(nodes@, root, g, curr));
                assert(g.pos.dom().contains(curr));
            }
            curr
        } else {
            let mut curr = node;
            let mut parent = nodes[curr].parent;
            while parent != 0 && curr == nodes[parent].right
                invariant
                    struct_ok(nodes@, root, g),
                    live(g, curr),
                    g.hi[curr] == g.pos[node] + 1,
                    parent == nodes@[curr as int].parent,
                    parent == 0 || live(g, parent),
                decreases g.ord.len() - (g.hi[curr] - g.lo[curr]),
            {
                proof {
                    assert(node_struct_ok(nodes@, root, g, curr));
                    assert(node_struct_ok(nodes@, root, g, parent));
                }
                curr = parent;
                parent = nodes[parent].parent;
            }
            proof {
                assert(node_struct_ok(nodes@, root, g, curr));
                if parent != 0 {
                    assert(node_struct_ok(nodes@, root, g, parent));
                    assert(g.ord[g.pos[parent]] == parent);
                }
            }
            parent
        }
    }

    /// The piece holding document offset `index`, with the offset inside it.
    pub(crate) fn find_node(&self, nodes: &Vec<Node>, index: usize) -> (r: (usize, usize))
        requires
            struct_ok(nodes@, self.root_node, self.shape@),
            lengths_ok(nodes@, self.shape@),
            total_fits(nodes@, self.shape@),
        ensures
            index < sum_len(nodes@, self.shape@.ord, 0, self.shape@.ord.len() as int) ==> {
                &&& live(self.shape@, r.0)
                &&& sum_len(nodes@, self.shape@.ord, 0, self.shape@.pos[r.0]) + r.1 == index
                &&& r.1 < nodes@[r.0 as int].length
            },
            index >= sum_len(nodes@, self.shape@.ord, 0, self.shape@.ord.len() as int) ==> r == (0usize, 0usize),
    {
        let ghost g = self.shape@;
        let ghost ns = nodes@;
        let ghost root = self.root_node;
        let mut idx = index;
        let mut curr = self.root_node;
        proof {
            if root != 0 {
                assert(node_struct_ok(ns, root, g, root));
                assert(len_node_ok(ns, g, root));
                assert(sum_len(ns, g.ord, 0, 0) == 0);
            } else {
                assert(sum_len(ns, g.ord, 0, 0) == 0);
            }
        }
        while curr != 0
            invariant
                struct_ok(ns, root, g),
                lengths_ok(ns, g),
                total_fits(ns, g),
                nodes@ == ns,
                g == self.shape@,
                curr == 0 || live(g, curr),
                curr != 0 ==> sum_len(ns, g.ord, 0, g.lo[curr]) + idx == index,
                curr != 0 ==> (idx < sum_len(ns, g.ord, g.lo[curr], g.hi[curr]) <==> index < sum_len(ns, g.ord, 0, g.ord.len() as int)),
                curr == 0 ==> index >= sum_len(ns, g.ord, 0, g.ord.len() as int),
            decreases if curr == 0 { 0 } else { g.hi[curr] - g.lo[curr] + 1 },
        {
            proof {
                Self::lemma_descend(ns, root, g, curr);
                let l = ns[curr as int].left;
                let r = ns[curr as int].right;
                if l != 0 { assert(len_node_ok(ns, g, l)); assert(node_struct_ok(ns, root, g, l)); }
                if r != 0 { assert(len_node_ok(ns, g, r)); assert(node_struct_ok(ns, root, g, r)); }
                lemma_sum_split(ns, g.ord, 0, g.lo[curr], g.hi[curr]);
                lemma_sum_split(ns, g.ord, 0, g.hi[curr], g.ord.len() as int);
                lemma_sum_nonneg(ns, g.ord, g.hi[curr], g.ord.len() as int);
                lemma_sum_nonneg(ns, g.ord, g.pos[curr] + 1, g.hi[curr]);
                lemma_sum_nonneg(ns, g.ord, 0, g.lo[curr]);
            }
            let left_len = nodes[curr].left_subtree_length;
            let node_len = nodes[curr].length;
            if idx < left_len {
                curr = nodes[curr].left;
            } else if idx >= left_len + node_len {
                idx = idx - (left_len + node_len);
                curr = nodes[curr].right;
            } else {
                proof {
                    assert(idx < sum_len(ns, g.ord, g.lo[curr], g.hi[curr]));
                    assert(index < sum_len(ns, g.ord, 0, g.ord.len() as int));
                    assert(sum_len(ns, g.ord, 0, g.pos[curr]) + (idx - left_len) == index);
                }
                return (curr, idx - left_len);
            }
        }
        (0, 0)
    }
}

} // verus!
