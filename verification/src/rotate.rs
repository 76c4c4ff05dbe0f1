use vstd::prelude::*;
use crate::node::{Node};
use crate::shape::{frame_outside, Shape, live, struct_ok, node_struct_ok, nil_ok, ord_ok, lengths_ok,
    len_node_ok, total_fits, sum_len, same_payload, same_piece_lengths, lemma_same_lengths_sums,
    lemma_sum_mono};
use crate::rbtree::RedBlackTree;

verus! {

/// Shape after rotating `x` to the left: `x` and its right child `y` swap roles.
pub open spec fn left_rot_shape(g: Shape, x: usize, y: usize) -> Shape {
    Shape { lo: g.lo.insert(y, g.lo[x]), hi: g.hi.insert(x, g.pos[y]).insert(y, g.hi[x]), ..g }
}

/// Shape after rotating `x` to the right: `x` and its left child `y` swap roles.
pub open spec fn right_rot_shape(g: Shape, x: usize, y: usize) -> Shape {
    Shape { hi: g.hi.insert(y, g.hi[x]), lo: g.lo.insert(x, g.pos[y] + 1).insert(y, g.lo[x]), ..g }
}

/// The links of `n2` are those of `n1` after rotating `x` to the left.
pub open spec fn left_rot_links(n1: Seq<Node>, n2: Seq<Node>, x: usize) -> bool {
    let y = n1[x as int].right;
    let b = n1[y as int].left;
    let p = n1[x as int].parent;
    &&& n2.len() == n1.len()
    &&& forall|i: int|
        0 <= i < n1.len() && i != x && i != y && (b == 0 || i != b) && (p == 0 || i != p) ==> #[trigger] n2[i]
            == n1[i]
    &&& same_payload(n2[x as int], n1[x as int])
    &&& n2[x as int].left == n1[x as int].left
    &&& n2[x as int].right == b
    &&& n2[x as int].parent == y
    &&& same_payload(n2[y as int], n1[y as int])
    &&& n2[y as int].left == x
    &&& n2[y as int].right == n1[y as int].right
    &&& n2[y as int].parent == p
    &&& b != 0 ==> n2[b as int] == (Node { parent: x, ..n1[b as int] })
    &&& p != 0 ==> n2[p as int] == (if n1[p as int].left == x {
        Node { left: y, ..n1[p as int] }
    } else {
        Node { right: y, ..n1[p as int] }
    })
}

/// The links of `n2` are those of `n1` after rotating `x` to the right.
pub open spec fn right_rot_links(n1: Seq<Node>, n2: Seq<Node>, x: usize) -> bool {
    let y = n1[x as int].left;
    let b = n1[y as int].right;
    let p = n1[x as int].parent;
    &&& n2.len() == n1.len()
    &&& forall|i: int|
        0 <= i < n1.len() && i != x && i != y && (b == 0 || i != b) && (p == 0 || i != p) ==> #[trigger] n2[i]
            == n1[i]
    &&& same_payload(n2[x as int], n1[x as int])
    &&& n2[x as int].right == n1[x as int].right
    &&& n2[x as int].left == b
    &&& n2[x as int].parent == y
    &&& same_payload(n2[y as int], n1[y as int])
    &&& n2[y as int].right == x
    &&& n2[y as int].left == n1[y as int].left
    &&& n2[y as int].parent == p
    &&& b != 0 ==> n2[b as int] == (Node { parent: x, ..n1[b as int] })
    &&& p != 0 ==> n2[p as int] == (if n1[p as int].right == x {
        Node { right: y, ..n1[p as int] }
    } else {
        Node { left: y, ..n1[p as int] }
    })
}

proof fn lemma_left_rot_struct(n1: Seq<Node>, n2: Seq<Node>, root: usize, g: Shape, x: usize)
    requires
        struct_ok(n1, root, g),
        live(g, x),
        n1[x as int].right != 0,
        left_rot_links(n1, n2, x),
    ensures
        struct_ok(
            n2,
            if n1[x as int].parent == 0 { n1[x as int].right } else { root },
            left_rot_shape(g, x, n1[x as int].right),
        ),
        same_piece_lengths(n1, n2),
{
    let y = n1[x as int].right;
    let b = n1[y as int].left;
    let p = n1[x as int].parent;
    let root2 = if p == 0 { y } else { root };
    let g2 = left_rot_shape(g, x, y);
    assert(node_struct_ok(n1, root, g, x));
    assert(node_struct_ok(n1, root, g, y));
    if b != 0 { assert(node_struct_ok(n1, root, g, b)); }
    if p != 0 { assert(node_struct_ok(n1, root, g, p)); }
    let a = n1[x as int].left;
    let c = n1[y as int].right;
    if a != 0 { assert(node_struct_ok(n1, root, g, a)); }
    if c != 0 { assert(node_struct_ok(n1, root, g, c)); }
    assert(nil_ok(n2)) by {
        assert(n2[0] == n1[0]);
    }
    assert(ord_ok(n2, g2)) by {
        assert(g2.ord == g.ord);
        assert(g2.pos == g.pos);
    }
    assert forall|q: usize| live(g2, q) implies #[trigger] node_struct_ok(n2, root2, g2, q) by {
        assert(node_struct_ok(n1, root, g, q));
        let nd = n1[q as int];
        if nd.left != 0 { assert(node_struct_ok(n1, root, g, nd.left)); }
        if nd.right != 0 { assert(node_struct_ok(n1, root, g, nd.right)); }
        if nd.parent != 0 { assert(node_struct_ok(n1, root, g, nd.parent)); }
    }
    assert(same_piece_lengths(n1, n2)) by {
        assert forall|i: int| 0 <= i < n1.len() implies #[trigger] n2[i].length == n1[i].length by {
        }
    }
}

proof fn lemma_right_rot_struct(n1: Seq<Node>, n2: Seq<Node>, root: usize, g: Shape, x: usize)
    requires
        struct_ok(n1, root, g),
        live(g, x),
        n1[x as int].left != 0,
        right_rot_links(n1, n2, x),
    ensures
        struct_ok(
            n2,
            if n1[x as int].parent == 0 { n1[x as int].left } else { root },
            right_rot_shape(g, x, n1[x as int].left),
        ),
        same_piece_lengths(n1, n2),
{
    let y = n1[x as int].left;
    let b = n1[y as int].right;
    let p = n1[x as int].parent;
    let root2 = if p == 0 { y } else { root };
    let g2 = right_rot_shape(g, x, y);
    assert(node_struct_ok(n1, root, g, x));
    assert(node_struct_ok(n1, root, g, y));
    if b != 0 { assert(node_struct_ok(n1, root, g, b)); }
    if p != 0 { assert(node_struct_ok(n1, root, g, p)); }
    let a = n1[x as int].right;
    let c = n1[y as int].left;
    if a != 0 { assert(node_struct_ok(n1, root, g, a)); }
    if c != 0 { assert(node_struct_ok(n1, root, g, c)); }
    assert(nil_ok(n2)) by {
        assert(n2[0] == n1[0]);
    }
    assert(ord_ok(n2, g2)) by {
        assert(g2.ord == g.ord);
        assert(g2.pos == g.pos);
    }
    assert forall|q: usize| live(g2, q) implies #[trigger] node_struct_ok(n2, root2, g2, q) by {
        assert(node_struct_ok(n1, root, g, q));
        let nd = n1[q as int];
        if nd.left != 0 { assert(node_struct_ok(n1, root, g, nd.left)); }
        if nd.right != 0 { assert(node_struct_ok(n1, root, g, nd.right)); }
        if nd.parent != 0 { assert(node_struct_ok(n1, root, g, nd.parent)); }
    }
    assert(same_piece_lengths(n1, n2)) by {
        assert forall|i: int| 0 <= i < n1.len() implies #[trigger] n2[i].length == n1[i].length by {
        }
    }
}

impl RedBlackTree {
    /// Rotates `x` down to the left under its right child.
    #[verifier::rlimit(40)]
    pub(crate) fn left_rotate(&mut self, nodes: &mut Vec<Node>, x: usize)
        requires
            struct_ok(old(nodes)@, old(self).root_node, old(self).shape@),
            lengths_ok(old(nodes)@, old(self).shape@),
            total_fits(old(nodes)@, old(self).shape@),
            live(old(self).shape@, x),
            old(nodes)@[x as int].right != 0,
        ensures
            left_rot_links(old(nodes)@, final(nodes)@, x),
            frame_outside(old(nodes)@, final(nodes)@, old(self).shape@),
            final(self).root_node == (if old(nodes)@[x as int].parent == 0 {
                old(nodes)@[x as int].right
            } else {
                old(self).root_node
            }),
            final(self).shape@ == left_rot_shape(old(self).shape@, x, old(nodes)@[x as int].right),
            final(self).black_height == old(self).black_height,
            struct_ok(final(nodes)@, final(self).root_node, final(self).shape@),
            lengths_ok(final(nodes)@, final(self).shape@),
            total_fits(final(nodes)@, final(self).shape@),
    {
        let ghost n1 = nodes@;
        let ghost g = self.shape@;
        proof {
            assert(node_struct_ok(n1, self.root_node, g, x));
            let yy = n1[x as int].right;
            assert(node_struct_ok(n1, self.root_node, g, yy));
            if n1[x as int].parent != 0 {
                assert(node_struct_ok(n1, self.root_node, g, n1[x as int].parent));
            }
        }
        let y = nodes[x].right;
        let yl = nodes[y].left;
        nodes[x].right = yl;
        if yl != 0 {
            nodes[yl].parent = x;
        }
        let xp = nodes[x].parent;
        nodes[y].parent = xp;
        if xp == 0 {
            self.root_node = y;
        } else if x == nodes[xp].left {
            nodes[xp].left = y;
        } else {
            nodes[xp].right = y;
        }
        nodes[y].left = x;
        nodes[x].parent = y;
        let ghost g2 = left_rot_shape(g, x, y);
        self.shape = Ghost(g2);
        proof {
            assert(left_rot_links(n1, nodes@, x));
            lemma_left_rot_struct(n1, nodes@, old(self).root_node, g, x);
            Self::lemma_rot_lengths(n1, nodes@, self.root_node, g, g2, x, y);
            Self::lemma_update_ok(nodes@, self.root_node, g2, x);
        }
        let ghost n2 = nodes@;
        Self::update_subtree_length(nodes, x);
        proof {
            Self::lemma_after_update(n2, nodes@, self.root_node, g2, x);
            Self::lemma_update_ok(nodes@, self.root_node, g2, y);
        }
        let ghost n3 = nodes@;
        Self::update_subtree_length(nodes, y);
        proof {
            Self::lemma_after_update(n3, nodes@, self.root_node, g2, y);
            assert forall|q: usize| live(g2, q) implies #[trigger] len_node_ok(nodes@, g2, q) by {
                if q != x && q != y {
                    assert(len_node_ok(n2, g2, q));
                    assert(len_node_ok(n3, g2, q));
                } else if q == x {
                    assert(len_node_ok(n3, g2, q));
                }
            }
        }
    }

    /// Rotates `x` down to the right under its left child.
    #[verifier::rlimit(40)]
    pub(crate) fn right_rotate(&mut self, nodes: &mut Vec<Node>, x: usize)
        requires
            struct_ok(old(nodes)@, old(self).root_node, old(self).shape@),
            lengths_ok(old(nodes)@, old(self).shape@),
            total_fits(old(nodes)@, old(self).shape@),
            live(old(self).shape@, x),
            old(nodes)@[x as int].left != 0,
        ensures
            right_rot_links(old(nodes)@, final(nodes)@, x),
            frame_outside(old(nodes)@, final(nodes)@, old(self).shape@),
            final(self).root_node == (if old(nodes)@[x as int].parent == 0 {
                old(nodes)@[x as int].left
            } else {
                old(self).root_node
            }),
            final(self).shape@ == right_rot_shape(old(self).shape@, x, old(nodes)@[x as int].left),
            final(self).black_height == old(self).black_height,
            struct_ok(final(nodes)@, final(self).root_node, final(self).shape@),
            lengths_ok(final(nodes)@, final(self).shape@),
            total_fits(final(nodes)@, final(self).shape@),
    {
        let ghost n1 = nodes@;
        let ghost g = self.shape@;
        proof {
            assert(node_struct_ok(n1, self.root_node, g, x));
            let yy = n1[x as int].left;
            assert(node_struct_ok(n1, self.root_node, g, yy));
            if n1[x as int].parent != 0 {
                assert(node_struct_ok(n1, self.root_node, g, n1[x as int].parent));
            }
        }
        let y = nodes[x].left;
        let yr = nodes[y].right;
        nodes[x].left = yr;
        if yr != 0 {
            nodes[yr].parent = x;
        }
        let xp = nodes[x].parent;
        nodes[y].parent = xp;
        if xp == 0 {
            self.root_node = y;
        } else if x == nodes[xp].right {
            nodes[xp].right = y;
        } else {
            nodes[xp].left = y;
        }
        nodes[y].right = x;
        nodes[x].parent = y;
        let ghost g2 = right_rot_shape(g, x, y);
        self.shape = Ghost(g2);
        proof {
            assert(right_rot_links(n1, nodes@, x));
            lemma_right_rot_struct(n1, nodes@, old(self).root_node, g, x);
            Self::lemma_rot_lengths(n1, nodes@, self.root_node, g, g2, x, y);
            Self::lemma_update_ok(nodes@, self.root_node, g2, x);
        }
        let ghost n2 = nodes@;
        Self::update_subtree_length(nodes, x);
        proof {
            Self::lemma_after_update(n2, nodes@, self.root_node, g2, x);
            Self::lemma_update_ok(nodes@, self.root_node, g2, y);
        }
        let ghost n3 = nodes@;
        Self::update_subtree_length(nodes, y);
        proof {
            Self::lemma_after_update(n3, nodes@, self.root_node, g2, y);
            assert forall|q: usize| live(g2, q) implies #[trigger] len_node_ok(nodes@, g2, q) by {
                if q != x && q != y {
                    assert(len_node_ok(n2, g2, q));
                    assert(len_node_ok(n3, g2, q));
                } else if q == x {
                    assert(len_node_ok(n3, g2, q));
                }
            }
        }
    }

    /// After a rotation, every slot but the two rotated ones keeps correct lengths.
    proof fn lemma_rot_lengths(n1: Seq<Node>, n2: Seq<Node>, root2: usize, g: Shape, g2: Shape, x: usize, y: usize)
        requires
            ord_ok(n1, g),
            lengths_ok(n1, g),
            total_fits(n1, g),
            same_piece_lengths(n1, n2),
            g2.ord == g.ord,
            g2.pos == g.pos,
            forall|q: usize| q != x && q != y ==> g2.lo[q] == g.lo[q] && g2.hi[q] == g.hi[q],
            forall|q: usize| q != x && q != y && 0 <= q < n1.len() ==> n2[q as int].subtree_length == n1[q as int].subtree_length
                && n2[q as int].left_subtree_length == n1[q as int].left_subtree_length,
            struct_ok(n2, root2, g2),
        ensures
            forall|q: usize| live(g2, q) && q != x && q != y ==> #[trigger] len_node_ok(n2, g2, q),
            total_fits(n2, g2),
    {
        lemma_same_lengths_sums(n1, n2, g);
        assert forall|q: usize| live(g2, q) && q != x && q != y implies #[trigger] len_node_ok(n2, g2, q) by {
            assert(len_node_ok(n1, g, q));
            assert(node_struct_ok(n2, root2, g2, q));
        }
    }

    /// Recomputing one slot's lengths keeps the structure and fixes that slot.
    proof fn lemma_after_update(n1: Seq<Node>, n2: Seq<Node>, root: usize, g: Shape, x: usize)
        requires
            struct_ok(n1, root, g),
            total_fits(n1, g),
            live(g, x),
            n1[n1[x as int].left as int].subtree_length + n1[n1[x as int].right as int].subtree_length
                + n1[x as int].length == sum_len(n1, g.ord, g.lo[x], g.hi[x]),
            n1[n1[x as int].left as int].subtree_length == sum_len(n1, g.ord, g.lo[x], g.pos[x]),
            n2 == n1.update(
                x as int,
                crate::rbtree::with_lengths(
                    n1[x as int],
                    n1[n1[x as int].left as int].subtree_length + n1[n1[x as int].right as int].subtree_length
                        + n1[x as int].length,
                    n1[n1[x as int].left as int].subtree_length as int,
                ),
            ),
        ensures
            struct_ok(n2, root, g),
            total_fits(n2, g),
            len_node_ok(n2, g, x),
            forall|q: usize| q != x && 0 <= q < n1.len() ==> n2[q as int] == n1[q as int],
            forall|a: int, b: int|
                0 <= a && b <= g.ord.len() ==> sum_len(n1, g.ord, a, b) == #[trigger] sum_len(n2, g.ord, a, b),
            forall|q: usize| live(g, q) && q != x && len_node_ok(n1, g, q) ==> #[trigger] len_node_ok(n2, g, q),
    {
        assert(crate::shape::same_links(n1, n2));
        crate::shape::lemma_same_links(n1, n2, root, g);
        assert(node_struct_ok(n1, root, g, x));
        lemma_sum_mono(n1, g.ord, 0, g.lo[x], g.hi[x], g.ord.len() as int);
        crate::shape::lemma_sum_nonneg(n1, g.ord, g.lo[x], g.pos[x]);
        crate::shape::lemma_sum_nonneg(n1, g.ord, g.lo[x], g.hi[x]);
        lemma_sum_mono(n1, g.ord, 0, g.lo[x], g.pos[x], g.ord.len() as int);
        assert forall|q: usize| live(g, q) && q != x && len_node_ok(n1, g, q) implies #[trigger] len_node_ok(n2, g, q) by {
            assert(node_struct_ok(n1, root, g, q));
        }
    }
}

} // verus!
