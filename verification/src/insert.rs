use vstd::prelude::*;
use crate::node::{Node, Color};
use crate::shape::{lemma_sum_same_pieces, same_links, same_pieces, pieces_nonempty, lemma_sum_ge_count,
    Shape, live, nil_ok, ord_ok, node_struct_ok, struct_ok, sum_len, len_node_ok, lengths_ok, total_fits,
    bh_node_ok, red_node_ok, colors_ok, iter_parent, is_anc, lemma_sum_split, lemma_sum_shift, lemma_sum_one,
    lemma_anc_interval, lemma_contains_is_anc};
use crate::rbtree::RedBlackTree;
use crate::fix_insert::{red_fix_inv};

verus! {

/// Shape after placing the fresh slot `nn` at position `k` of the order, as a leaf;
/// `as_left` tells whether it hangs as a left child (its parent then starts at `k`).
pub open spec fn attach_shape(g: Shape, k: int, nn: usize, as_left: bool) -> Shape {
    Shape {
        ord: g.ord.insert(k, nn),
        pos: Map::new(
            |n: usize| g.pos.dom().contains(n) || n == nn,
            |n: usize|
                if n == nn {
                    k
                } else if g.pos[n] >= k {
                    g.pos[n] + 1
                } else {
                    g.pos[n]
                },
        ),
        lo: Map::new(
            |n: usize| g.pos.dom().contains(n) || n == nn,
            |n: usize|
                if n == nn {
                    k
                } else if g.lo[n] > k || (!as_left && g.lo[n] == k) {
                    g.lo[n] + 1
                } else {
                    g.lo[n]
                },
        ),
        hi: Map::new(
            |n: usize| g.pos.dom().contains(n) || n == nn,
            |n: usize|
                if n == nn {
                    k + 1
                } else if g.hi[n] > k || (!as_left && g.hi[n] == k) {
                    g.hi[n] + 1
                } else {
                    g.hi[n]
                },
        ),
        bh: g.bh.insert(nn, 0),
    }
}

/// `n2` is `n1` with the fresh slot `nn` hung as a red leaf under `dest`.
pub open spec fn attach_links(n1: Seq<Node>, n2: Seq<Node>, dest: usize, nn: usize, as_left: bool) -> bool {
    &&& n2.len() == n1.len()
    &&& forall|i: int| 0 <= i < n1.len() && i != dest && i != nn ==> #[trigger] n2[i] == n1[i]
    &&& n2[nn as int] == (Node { left: 0, right: 0, color: Color::Red, parent: dest, ..n1[nn as int] })
    &&& n2[dest as int] == (if as_left {
        Node { left: nn, ..n1[dest as int] }
    } else {
        Node { right: nn, ..n1[dest as int] }
    })
}

proof fn lemma_attach_struct(n1: Seq<Node>, n2: Seq<Node>, root: usize, g: Shape, dest: usize, nn: usize, as_left: bool, k: int)
    requires
        k == (if as_left { g.pos[dest] } else { g.pos[dest] + 1 }),
        struct_ok(n1, root, g),
        live(g, dest),
        !live(g, nn),
        0 < nn < n1.len(),
        as_left ==> n1[dest as int].left == 0,
        !as_left ==> n1[dest as int].right == 0,
        attach_links(n1, n2, dest, nn, as_left),
    ensures
        struct_ok(n2, root, attach_shape(g, k, nn, as_left)),
{
    let g2 = attach_shape(g, k, nn, as_left);
    assert(node_struct_ok(n1, root, g, dest));
    assert(nil_ok(n2)) by {
        assert(n2[0] == n1[0]);
    }
    assert(ord_ok(n2, g2)) by {
        assert forall|i: int| 0 <= i < g2.ord.len() implies #[trigger] g2.pos.dom().contains(g2.ord[i]) && g2.pos[g2.ord[i]] == i by {
            if i < k {
                assert(g2.ord[i] == g.ord[i]);
                assert(g.pos.dom().contains(g.ord[i]));
            } else if i > k {
                assert(g2.ord[i] == g.ord[i - 1]);
                assert(g.pos.dom().contains(g.ord[i - 1]));
            }
        }
        assert forall|n: usize| #[trigger] g2.pos.dom().contains(n) implies 0 <= g2.pos[n] < g2.ord.len() && g2.ord[g2.pos[n]] == n
            && 0 < n < n2.len() by {
            if n != nn {
                assert(g.pos.dom().contains(n));
            }
        }
    }
    assert forall|q: usize| live(g2, q) implies #[trigger] node_struct_ok(n2, root, g2, q) by {
        if q != nn {
            assert(live(g, q));
            assert(node_struct_ok(n1, root, g, q));
            let nd = n1[q as int];
            if nd.left != 0 { assert(node_struct_ok(n1, root, g, nd.left)); }
            if nd.right != 0 { assert(node_struct_ok(n1, root, g, nd.right)); }
            if nd.parent != 0 { assert(node_struct_ok(n1, root, g, nd.parent)); }
            let nd2 = n2[q as int];
            let p = g2.pos[q];
            assert(0 <= g2.lo[q] <= p < g2.hi[q] <= g2.ord.len());
            assert(nd2.left == 0 <==> g2.lo[q] == p);
            assert(nd2.left != 0 ==> live(g2, nd2.left) && g2.lo[nd2.left] == g2.lo[q] && g2.hi[nd2.left] == p
                && n2[nd2.left as int].parent == q);
            assert(nd2.right == 0 <==> g2.hi[q] == p + 1);
            assert(nd2.right != 0 ==> live(g2, nd2.right) && g2.lo[nd2.right] == p + 1 && g2.hi[nd2.right] == g2.hi[q]
                && n2[nd2.right as int].parent == q);
            assert(nd2.parent == 0 <==> q == root);
            assert(nd2.parent != 0 ==> live(g2, nd2.parent) && (n2[nd2.parent as int].left == q
                || n2[nd2.parent as int].right == q));
        } else {
            let nd2 = n2[q as int];
            let p = g2.pos[q];
            assert(0 <= g2.lo[q] <= p < g2.hi[q] <= g2.ord.len());
            assert(nd2.left == 0 <==> g2.lo[q] == p);
            assert(nd2.right == 0 <==> g2.hi[q] == p + 1);
            assert(nd2.parent == 0 <==> q == root);
            assert(nd2.parent != 0 ==> live(g2, nd2.parent) && (n2[nd2.parent as int].left == q
                || n2[nd2.parent as int].right == q));
        }
    }
}

proof fn lemma_stale_contains(n1: Seq<Node>, root: usize, g: Shape, target: usize, m: usize, k: int, nn: usize, as_left: bool)
    requires
        struct_ok(n1, root, g),
        live(g, target),
        live(g, m),
        m != nn,
        target != nn,
        is_anc(n1, target, m),
        attach_shape(g, k, nn, as_left).lo[target] <= k < attach_shape(g, k, nn, as_left).hi[target],
    ensures
        attach_shape(g, k, nn, as_left).lo[m] <= k < attach_shape(g, k, nn, as_left).hi[m],
{
    let j = choose|j: nat| iter_parent(n1, target, j) == m;
    lemma_anc_interval(n1, root, g, target, j);
}

proof fn lemma_attach_len_near(n2: Seq<Node>, root: usize, g2: Shape, dest: usize, nn: usize, m: usize)
    requires
        struct_ok(n2, root, g2),
        live(g2, m),
        live(g2, nn),
        nn != 0,
        m != nn,
        n2[nn as int].parent == dest,
        g2.lo[m] <= g2.pos[nn] < g2.hi[m],
    ensures
        is_anc(n2, dest, m),
{
    lemma_contains_is_anc(n2, root, g2, m, nn);
    let j = choose|j: nat| iter_parent(n2, nn, j) == m;
    assert(j > 0);
    assert(iter_parent(n2, dest, (j - 1) as nat) == m);
}

proof fn lemma_attach_len_far(n1: Seq<Node>, n2: Seq<Node>, root: usize, g: Shape, g2: Shape, m: usize, d: int)
    requires
        struct_ok(n1, root, g),
        live(g, m),
        len_node_ok(n1, g, m),
        n2[m as int].subtree_length == n1[m as int].subtree_length,
        n2[m as int].left_subtree_length == n1[m as int].left_subtree_length,
        g2.lo[m] == g.lo[m] + d,
        g2.hi[m] == g.hi[m] + d,
        g2.pos[m] == g.pos[m] + d,
        forall|i: int| g.lo[m] <= i < g.hi[m] ==> n1[g.ord[i] as int].length == n2[g2.ord[i + d] as int].length,
    ensures
        len_node_ok(n2, g2, m),
{
    assert(node_struct_ok(n1, root, g, m));
    lemma_sum_shift(n1, g.ord, n2, g2.ord, g.lo[m], g.hi[m], d);
    lemma_sum_shift(n1, g.ord, n2, g2.ord, g.lo[m], g.pos[m], d);
}

#[verifier::rlimit(40)]
proof fn lemma_attach_len_one(n1: Seq<Node>, n2: Seq<Node>, root: usize, g: Shape, dest: usize, nn: usize, as_left: bool, k: int, target: usize, m: usize)
    requires
        k == (if as_left { g.pos[dest] } else { g.pos[dest] + 1 }),
        struct_ok(n1, root, g),
        struct_ok(n2, root, attach_shape(g, k, nn, as_left)),
        live(g, target),
        target != nn,
        forall|m: usize| live(g, m) ==> #[trigger] len_node_ok(n1, g, m) || is_anc(n1, target, m),
        attach_shape(g, k, nn, as_left).lo[target] <= k < attach_shape(g, k, nn, as_left).hi[target],
        live(g, dest),
        !live(g, nn),
        0 < nn < n1.len(),
        attach_links(n1, n2, dest, nn, as_left),
        n1[nn as int].subtree_length == n1[nn as int].length,
        n1[nn as int].left_subtree_length == 0,
        forall|i: int| 0 <= i < k ==> n1[g.ord[i] as int].length == n2[g.ord.insert(k, nn)[i + 0] as int].length,
        forall|i: int| k <= i < g.ord.len() ==> n1[g.ord[i] as int].length == n2[g.ord.insert(k, nn)[i + 1] as int].length,
        live(attach_shape(g, k, nn, as_left), m),
    ensures
        len_node_ok(n2, attach_shape(g, k, nn, as_left), m) || is_anc(n2, dest, m),
{
    let g2 = attach_shape(g, k, nn, as_left);
    if m == nn {
        assert(sum_len(n2, g2.ord, k, k) == 0);
        assert(g2.ord[k] == nn);
        lemma_sum_one(n2, g2.ord, k);
    } else if g2.lo[m] <= k < g2.hi[m] {
        lemma_attach_len_near(n2, root, g2, dest, nn, m);
    } else {
        assert(live(g, m));
        assert(node_struct_ok(n1, root, g, m));
        if !len_node_ok(n1, g, m) {
            lemma_stale_contains(n1, root, g, target, m, k, nn, as_left);
        }
        if g2.hi[m] <= k {
            lemma_attach_len_far(n1, n2, root, g, g2, m, 0);
        } else {
            lemma_attach_len_far(n1, n2, root, g, g2, m, 1);
        }
    }
}

#[verifier::rlimit(50)]
proof fn lemma_attach_lengths(n1: Seq<Node>, n2: Seq<Node>, root: usize, g: Shape, dest: usize, nn: usize, as_left: bool, k: int, target: usize)
    requires
        k == (if as_left { g.pos[dest] } else { g.pos[dest] + 1 }),
        struct_ok(n1, root, g),
        live(g, target),
        forall|m: usize| live(g, m) ==> #[trigger] len_node_ok(n1, g, m) || is_anc(n1, target, m),
        attach_shape(g, k, nn, as_left).lo[target] <= k < attach_shape(g, k, nn, as_left).hi[target],
        live(g, dest),
        !live(g, nn),
        0 < nn < n1.len(),
        as_left ==> n1[dest as int].left == 0,
        !as_left ==> n1[dest as int].right == 0,
        attach_links(n1, n2, dest, nn, as_left),
        n1[nn as int].subtree_length == n1[nn as int].length,
        n1[nn as int].left_subtree_length == 0,
        sum_len(n1, g.ord, 0, g.ord.len() as int) + n1[nn as int].length <= usize::MAX,
    ensures
        total_fits(n2, attach_shape(g, k, nn, as_left)),
        sum_len(n2, g.ord.insert(k, nn), 0, g.ord.len() + 1int)
            == sum_len(n1, g.ord, 0, g.ord.len() as int) + n1[nn as int].length,
        forall|m: usize| live(attach_shape(g, k, nn, as_left), m)
            ==> #[trigger] len_node_ok(n2, attach_shape(g, k, nn, as_left), m)
            || is_anc(n2, dest, m),
{
    let g2 = attach_shape(g, k, nn, as_left);
    let nl = g.ord.len() as int;
    lemma_attach_struct(n1, n2, root, g, dest, nn, as_left, k);
    assert(node_struct_ok(n1, root, g, dest));
    assert forall|i: int| 0 <= i < k implies n1[g.ord[i] as int].length == n2[g2.ord[i + 0] as int].length by {
        assert(g.pos.dom().contains(g.ord[i]));
        assert(g2.ord[i] == g.ord[i]);
        assert(n2[g.ord[i] as int].length == n1[g.ord[i] as int].length);
    }
    assert forall|i: int| k <= i < nl implies n1[g.ord[i] as int].length == n2[g2.ord[i + 1] as int].length by {
        assert(g.pos.dom().contains(g.ord[i]));
        assert(g2.ord[i + 1] == g.ord[i]);
        assert(n2[g.ord[i] as int].length == n1[g.ord[i] as int].length);
    }
    assert(g2.ord[k] == nn);
    assert(n2[nn as int].length == n1[nn as int].length);
    lemma_sum_shift(n1, g.ord, n2, g2.ord, 0, k, 0);
    lemma_sum_shift(n1, g.ord, n2, g2.ord, k, nl, 1);
    lemma_sum_split(n2, g2.ord, 0, k, nl + 1);
    lemma_sum_split(n2, g2.ord, k, k + 1, nl + 1);
    lemma_sum_one(n2, g2.ord, k);
    lemma_sum_split(n1, g.ord, 0, k, nl);
    assert(target != nn);
    assert forall|m: usize| live(g2, m) implies #[trigger] len_node_ok(n2, g2, m) || is_anc(n2, dest, m) by {
        lemma_attach_len_one(n1, n2, root, g, dest, nn, as_left, k, target, m);
    }
}

proof fn lemma_attach_colors(n1: Seq<Node>, n2: Seq<Node>, n3: Seq<Node>, root: usize, g: Shape, dest: usize, nn: usize, as_left: bool, k: int, bhf: usize)
    requires
        k == (if as_left { g.pos[dest] } else { g.pos[dest] + 1 }),
        struct_ok(n1, root, g),
        colors_ok(n1, root, g, bhf),
        live(g, dest),
        !live(g, nn),
        0 < nn < n1.len(),
        as_left ==> n1[dest as int].left == 0,
        !as_left ==> n1[dest as int].right == 0,
        attach_links(n1, n2, dest, nn, as_left),
        same_links(n2, n3),
        n3[0] == n2[0],
    ensures
        red_fix_inv(n3, root, attach_shape(g, k, nn, as_left), bhf, nn),
{
    let g2 = attach_shape(g, k, nn, as_left);
    lemma_attach_struct(n1, n2, root, g, dest, nn, as_left, k);
    assert(node_struct_ok(n1, root, g, dest));
    assert(bh_node_ok(n1, g, dest));
    assert(red_node_ok(n1, dest));
    assert(n3[nn as int].parent == dest);
    assert(n3[0] == n1[0]);
    assert forall|n: usize| live(g2, n) implies #[trigger] bh_node_ok(n3, g2, n) by {
        if n != nn {
            assert(live(g, n));
            assert(bh_node_ok(n1, g, n));
            assert(node_struct_ok(n1, root, g, n));
            let nd = n1[n as int];
            assert(n3[n as int].color == n1[n as int].color);
            if nd.left != 0 { assert(node_struct_ok(n1, root, g, nd.left)); }
            if nd.right != 0 { assert(node_struct_ok(n1, root, g, nd.right)); }
        }
    }
    assert forall|n: usize| live(g2, n) && n != n3[nn as int].parent implies #[trigger] red_node_ok(n3, n) by {
        if n != nn {
            assert(live(g, n));
            assert(red_node_ok(n1, n));
            assert(node_struct_ok(n1, root, g, n));
            let nd = n1[n as int];
            if nd.left != 0 { assert(node_struct_ok(n1, root, g, nd.left)); }
            if nd.right != 0 { assert(node_struct_ok(n1, root, g, nd.right)); }
        }
    }
    assert(n3[root as int].color == n1[root as int].color);
}

impl RedBlackTree {
    /// Hangs the fresh piece `new_node` as the in-order successor of `target` and rebalances.
    pub(crate) fn insert_node_after(&mut self, nodes: &mut Vec<Node>, target_node: usize, new_node: usize)
        requires
            struct_ok(old(nodes)@, old(self).root_node, old(self).shape@),
            forall|m: usize| live(old(self).shape@, m) ==> #[trigger] len_node_ok(old(nodes)@, old(self).shape@, m)
                || is_anc(old(nodes)@, target_node, m),
            colors_ok(old(nodes)@, old(self).root_node, old(self).shape@, old(self).black_height),
            pieces_nonempty(old(nodes)@, old(self).shape@),
            live(old(self).shape@, target_node),
            !live(old(self).shape@, new_node),
            0 < new_node < old(nodes).len(),
            old(nodes)@[new_node as int].subtree_length == old(nodes)@[new_node as int].length,
            old(nodes)@[new_node as int].left_subtree_length == 0,
            old(nodes)@[new_node as int].length > 0,
            sum_len(old(nodes)@, old(self).shape@.ord, 0, old(self).shape@.ord.len() as int)
                + old(nodes)@[new_node as int].length <= usize::MAX,
        ensures
            struct_ok(final(nodes)@, final(self).root_node, final(self).shape@),
            lengths_ok(final(nodes)@, final(self).shape@),
            colors_ok(final(nodes)@, final(self).root_node, final(self).shape@, final(self).black_height),
            pieces_nonempty(final(nodes)@, final(self).shape@),
            final(self).shape@.ord == old(self).shape@.ord.insert(old(self).shape@.pos[target_node] + 1, new_node),
            same_pieces(old(nodes)@, final(nodes)@),
            forall|i: int| 0 <= i < old(nodes).len() && !live(old(self).shape@, i as usize) && i != new_node ==> #[trigger] final(nodes)@[i] == old(nodes)@[i],
            sum_len(final(nodes)@, final(self).shape@.ord, 0, final(self).shape@.ord.len() as int)
                == sum_len(old(nodes)@, old(self).shape@.ord, 0, old(self).shape@.ord.len() as int) + old(nodes)@[new_node as int].length,
            final(self).black_height == old(self).black_height || final(self).black_height == old(self).black_height + 1,
    {
        let ghost n0 = nodes@;
        let ghost g0 = self.shape@;
        let ghost root0 = self.root_node;
        proof {
            assert(node_struct_ok(n0, root0, g0, target_node));
        }
        nodes[new_node].left = 0;
        nodes[new_node].right = 0;
        nodes[new_node].color = Color::Red;
        let ghost dest_g: usize;
        let ghost as_left: bool;
        if nodes[target_node].right == 0 {
            nodes[target_node].right = new_node;
            nodes[new_node].parent = target_node;
            proof {
                dest_g = target_node;
                as_left = false;
            }
        } else {
            let mut curr = nodes[target_node].right;
            let mut dest: usize = 0;
            proof {
                assert(node_struct_ok(n0, root0, g0, curr));
            }
            while curr != 0
                invariant
                    nodes@.len() == n0.len(),
                    forall|i: int| 0 <= i < n0.len() && i != new_node ==> nodes@[i] == n0[i],
                    new_node != curr,
                    0 < new_node,
                    curr == 0 || (live(g0, curr) && g0.lo[curr] == g0.pos[target_node] + 1),
                    dest == 0 ==> curr == n0[target_node as int].right,
                    dest != 0 ==> live(g0, dest) && g0.lo[dest] == g0.pos[target_node] + 1 && n0[dest as int].left == curr,
                    struct_ok(n0, root0, g0),
                    live(g0, target_node),
                    !live(g0, new_node),
                decreases if curr == 0 { 0 } else { g0.hi[curr] - g0.lo[curr] + 1 },
            {
                proof {
                    assert(node_struct_ok(n0, root0, g0, curr));
                    let l = n0[curr as int].left;
                    if l != 0 {
                        assert(node_struct_ok(n0, root0, g0, l));
                    }
                }
                dest = curr;
                curr = nodes[curr].left;
            }
            proof {
                assert(node_struct_ok(n0, root0, g0, dest));
            }
            nodes[dest].left = new_node;
            nodes[new_node].parent = dest;
            proof {
                dest_g = dest;
                as_left = true;
            }
        }
        let ghost n1 = nodes@;
        let ghost k = if as_left { g0.pos[dest_g] } else { g0.pos[dest_g] + 1 };
        let ghost g1 = attach_shape(g0, k, new_node, as_left);
        proof {
            assert(attach_links(n0, n1, dest_g, new_node, as_left));
            lemma_attach_struct(n0, n1, root0, g0, dest_g, new_node, as_left, k);
            assert(node_struct_ok(n0, root0, g0, dest_g));
            lemma_attach_lengths(n0, n1, root0, g0, dest_g, new_node, as_left, k, target_node);
            assert(k == g0.pos[target_node] + 1);
        }
        self.shape = Ghost(g1);
        let parent = nodes[new_node].parent;
        proof {
            assert(parent == dest_g);
            assert(g1 == attach_shape(g0, if as_left { g0.pos[dest_g] } else { g0.pos[dest_g] + 1 }, new_node, as_left));
            assert forall|m: usize| live(g1, m) implies #[trigger] len_node_ok(n1, g1, m) || crate::shape::is_anc(n1, parent, m) by {
                assert(live(g1, m) ==> len_node_ok(n1, g1, m) || crate::shape::is_anc(n1, dest_g, m));
            }
        }
        Self::update_ancestors(nodes, parent, Ghost(root0), Ghost(g1));
        proof {
            lemma_attach_colors(n0, n1, nodes@, root0, g0, dest_g, new_node, as_left, k, self.black_height);
            assert forall|i: int| 0 <= i < g1.ord.len() implies #[trigger] nodes@[g1.ord[i] as int].length > 0 by {
                if i != k {
                    let j = if i < k { i } else { i - 1 };
                    assert(g1.ord[i] == g0.ord[j]);
                    assert(n0[g0.ord[j] as int].length > 0);
                    assert(g0.pos.dom().contains(g0.ord[j]));
                }
            }
            lemma_sum_ge_count(nodes@, g1.ord, 0, g1.ord.len() as int);
        }
        let ghost n2 = nodes@;
        self.insert_fix(nodes, new_node);
        proof {
            lemma_sum_same_pieces(n2, nodes@, g1);
            assert forall|i: int| 0 <= i < g1.ord.len() implies #[trigger] nodes@[g1.ord[i] as int].length > 0 by {
                assert(g1.pos.dom().contains(g1.ord[i]));
            }
        }
    }

    /// Hangs the fresh piece `new_node` as the in-order predecessor of `target` and rebalances.
    pub(crate) fn insert_node_before(&mut self, nodes: &mut Vec<Node>, target_node: usize, new_node: usize)
        requires
            struct_ok(old(nodes)@, old(self).root_node, old(self).shape@),
            forall|m: usize| live(old(self).shape@, m) ==> #[trigger] len_node_ok(old(nodes)@, old(self).shape@, m)
                || is_anc(old(nodes)@, target_node, m),
            colors_ok(old(nodes)@, old(self).root_node, old(self).shape@, old(self).black_height),
            pieces_nonempty(old(nodes)@, old(self).shape@),
            live(old(self).shape@, target_node),
            !live(old(self).shape@, new_node),
            0 < new_node < old(nodes).len(),
            old(nodes)@[new_node as int].subtree_length == old(nodes)@[new_node as int].length,
            old(nodes)@[new_node as int].left_subtree_length == 0,
            old(nodes)@[new_node as int].length > 0,
            sum_len(old(nodes)@, old(self).shape@.ord, 0, old(self).shape@.ord.len() as int)
                + old(nodes)@[new_node as int].length <= usize::MAX,
        ensures
            struct_ok(final(nodes)@, final(self).root_node, final(self).shape@),
            lengths_ok(final(nodes)@, final(self).shape@),
            colors_ok(final(nodes)@, final(self).root_node, final(self).shape@, final(self).black_height),
            pieces_nonempty(final(nodes)@, final(self).shape@),
            final(self).shape@.ord == old(self).shape@.ord.insert(old(self).shape@.pos[target_node], new_node),
            same_pieces(old(nodes)@, final(nodes)@),
            forall|i: int| 0 <= i < old(nodes).len() && !live(old(self).shape@, i as usize) && i != new_node ==> #[trigger] final(nodes)@[i] == old(nodes)@[i],
            sum_len(final(nodes)@, final(self).shape@.ord, 0, final(self).shape@.ord.len() as int)
                == sum_len(old(nodes)@, old(self).shape@.ord, 0, old(self).shape@.ord.len() as int) + old(nodes)@[new_node as int].length,
            final(self).black_height == old(self).black_height || final(self).black_height == old(self).black_height + 1,
    {
        let ghost n0 = nodes@;
        let ghost g0 = self.shape@;
        let ghost root0 = self.root_node;
        proof {
            assert(node_struct_ok(n0, root0, g0, target_node));
        }
        nodes[new_node].left = 0;
        nodes[new_node].right = 0;
        nodes[new_node].color = Color::Red;
        let ghost dest_g: usize;
        let ghost as_left: bool;
        if nodes[target_node].left == 0 {
            nodes[target_node].left = new_node;
            nodes[new_node].parent = target_node;
            proof {
                dest_g = target_node;
                as_left = true;
            }
        } else {
            let mut curr = nodes[target_node].left;
            let mut dest: usize = 0;
            proof {
                assert(node_struct_ok(n0, root0, g0, curr));
            }
            while curr != 0
                invariant
                    nodes@.len() == n0.len(),
                    forall|i: int| 0 <= i < n0.len() && i != new_node ==> nodes@[i] == n0[i],
                    new_node != curr,
                    0 < new_node,
                    curr == 0 || (live(g0, curr) && g0.hi[curr] == g0.pos[target_node]),
                    dest == 0 ==> curr == n0[target_node as int].left,
                    dest != 0 ==> live(g0, dest) && g0.hi[dest] == g0.pos[target_node] && n0[dest as int].right == curr,
                    struct_ok(n0, root0, g0),
                    live(g0, target_node),
                    !live(g0, new_node),
                decreases if curr == 0 { 0 } else { g0.hi[curr] - g0.lo[curr] + 1 },
            {
                proof {
                    assert(node_struct_ok(n0, root0, g0, curr));
                    let l = n0[curr as int].right;
                    if l != 0 {
                        assert(node_struct_ok(n0, root0, g0, l));
                    }
                }
                dest = curr;
                curr = nodes[curr].right;
            }
            proof {
                assert(node_struct_ok(n0, root0, g0, dest));
            }
            nodes[dest].right = new_node;
            nodes[new_node].parent = dest;
            proof {
                dest_g = dest;
                as_left = false;
            }
        }
        let ghost n1 = nodes@;
        let ghost k = if as_left { g0.pos[dest_g] } else { g0.pos[dest_g] + 1 };
        let ghost g1 = attach_shape(g0, k, new_node, as_left);
        proof {
            assert(attach_links(n0, n1, dest_g, new_node, as_left));
            lemma_attach_struct(n0, n1, root0, g0, dest_g, new_node, as_left, k);
            assert(node_struct_ok(n0, root0, g0, dest_g));
            lemma_attach_lengths(n0, n1, root0, g0, dest_g, new_node, as_left, k, target_node);
            assert(k == g0.pos[target_node]);
        }
        self.shape = Ghost(g1);
        let parent = nodes[new_node].parent;
        proof {
            assert(parent == dest_g);
            assert(g1 == attach_shape(g0, if as_left { g0.pos[dest_g] } else { g0.pos[dest_g] + 1 }, new_node, as_left));
            assert forall|m: usize| live(g1, m) implies #[trigger] len_node_ok(n1, g1, m) || crate::shape::is_anc(n1, parent, m) by {
                assert(live(g1, m) ==> len_node_ok(n1, g1, m) || crate::shape::is_anc(n1, dest_g, m));
            }
        }
        Self::update_ancestors(nodes, parent, Ghost(root0), Ghost(g1));
        proof {
            lemma_attach_colors(n0, n1, nodes@, root0, g0, dest_g, new_node, as_left, k, self.black_height);
            assert forall|i: int| 0 <= i < g1.ord.len() implies #[trigger] nodes@[g1.ord[i] as int].length > 0 by {
                if i != k {
                    let j = if i < k { i } else { i - 1 };
                    assert(g1.ord[i] == g0.ord[j]);
                    assert(n0[g0.ord[j] as int].length > 0);
                    assert(g0.pos.dom().contains(g0.ord[j]));
                }
            }
            lemma_sum_ge_count(nodes@, g1.ord, 0, g1.ord.len() as int);
        }
        let ghost n2 = nodes@;
        self.insert_fix(nodes, new_node);
        proof {
            lemma_sum_same_pieces(n2, nodes@, g1);
            assert forall|i: int| 0 <= i < g1.ord.len() implies #[trigger] nodes@[g1.ord[i] as int].length > 0 by {
                assert(g1.pos.dom().contains(g1.ord[i]));
            }
        }
    }
}

} // verus!
