use vstd::prelude::*;
use crate::node::{Node, Color};
use crate::shape::{frame_outside, lemma_shape_same_intervals, same_pieces, lemma_bh_bound, Shape, live, bhv,
    is_black, node_struct_ok, struct_ok, lengths_ok, total_fits, bh_node_ok, red_node_ok, colors_ok,
    same_but_colors, lemma_recolor};
use crate::rbtree::RedBlackTree;
use crate::rotate::{left_rot_links, right_rot_links, left_rot_shape, right_rot_shape};

verus! {

/// Every child of `p` other than `z` is black.
pub open spec fn other_children_black(nodes: Seq<Node>, p: usize, z: usize) -> bool {
    &&& (nodes[p as int].left == z || is_black(nodes, nodes[p as int].left))
    &&& (nodes[p as int].right == z || is_black(nodes, nodes[p as int].right))
}

/// The red-black rules hold except that the red slot `z` may have a red parent
/// (and, when `z` is the root, the root may be red).
pub open spec fn red_fix_inv(nodes: Seq<Node>, root: usize, g: Shape, black_height: usize, z: usize) -> bool {
    &&& live(g, z)
    &&& nodes[z as int].color == Color::Red
    &&& forall|n: usize| live(g, n) ==> #[trigger] bh_node_ok(nodes, g, n)
    &&& forall|n: usize| live(g, n) && n != nodes[z as int].parent ==> #[trigger] red_node_ok(nodes, n)
    &&& nodes[z as int].parent != 0 && nodes[nodes[z as int].parent as int].color == Color::Red
        ==> other_children_black(nodes, nodes[z as int].parent, z)
    &&& (is_black(nodes, root) || z == root)
    &&& black_height == bhv(g, root)
}

/// Uncle red: parent and uncle turn black, grandparent red; the violation moves up two levels.
proof fn lemma_fix_recolor(n1: Seq<Node>, n2: Seq<Node>, root: usize, g: Shape, bhf: usize, z: usize)
    requires
        struct_ok(n1, root, g),
        red_fix_inv(n1, root, g, bhf, z),
        n1[z as int].parent != 0,
        n1[n1[z as int].parent as int].color == Color::Red,
        ({
            let p = n1[z as int].parent;
            let gp = n1[p as int].parent;
            let y = if n1[gp as int].left == p { n1[gp as int].right } else { n1[gp as int].left };
            &&& gp != 0
            &&& n1[y as int].color == Color::Red
            &&& n2 == n1.update(p as int, Node { color: Color::Black, ..n1[p as int] }).update(
                y as int,
                Node { color: Color::Black, ..n1[y as int] },
            ).update(gp as int, Node { color: Color::Red, ..n1[gp as int] })
        }),
    ensures
        ({
            let p = n1[z as int].parent;
            let gp = n1[p as int].parent;
            let y = if n1[gp as int].left == p { n1[gp as int].right } else { n1[gp as int].left };
            let g2 = Shape { bh: g.bh.insert(p, g.bh[p] + 1).insert(y, g.bh[y] + 1), ..g };
            &&& red_fix_inv(n2, root, g2, bhf, gp)
            &&& same_but_colors(n1, n2)
            &&& g.hi[gp] - g.lo[gp] > g.hi[z] - g.lo[z]
        }),
{
    let p = n1[z as int].parent;
    let gp = n1[p as int].parent;
    let y = if n1[gp as int].left == p { n1[gp as int].right } else { n1[gp as int].left };
    let g2 = Shape { bh: g.bh.insert(p, g.bh[p] + 1).insert(y, g.bh[y] + 1), ..g };
    assert(node_struct_ok(n1, root, g, z));
    assert(node_struct_ok(n1, root, g, p));
    assert(node_struct_ok(n1, root, g, gp));
    assert(p != root);
    assert(red_node_ok(n1, gp));
    assert(n1[gp as int].color == Color::Black);
    assert(y != 0);
    assert(node_struct_ok(n1, root, g, y));
    assert(y != p && y != gp && p != gp);
    assert(bh_node_ok(n1, g, p));
    assert(bh_node_ok(n1, g, y));
    assert(bh_node_ok(n1, g, gp));
    assert(red_node_ok(n1, z));
    let ggp = n1[gp as int].parent;
    if ggp != 0 {
        assert(node_struct_ok(n1, root, g, ggp));
        assert(bh_node_ok(n1, g, ggp));
    }
    assert(same_but_colors(n1, n2));
    assert forall|n: usize| live(g2, n) implies #[trigger] bh_node_ok(n2, g2, n) by {
        assert(bh_node_ok(n1, g, n));
        assert(node_struct_ok(n1, root, g, n));
    }
    assert forall|n: usize| live(g2, n) && n != n2[gp as int].parent implies #[trigger] red_node_ok(n2, n) by {
        assert(node_struct_ok(n1, root, g, n));
        if n != p {
            assert(red_node_ok(n1, n));
        }
    }
    if ggp != 0 && n2[ggp as int].color == Color::Red {
        assert(red_node_ok(n1, ggp));
    }
}

/// Red `z` is the inner grandchild on the left: rotating its parent left makes the old
/// parent the outer grandchild, with the same violation.
proof fn lemma_fix_inner_left(n1: Seq<Node>, n2: Seq<Node>, root: usize, g: Shape, bhf: usize, z: usize)
    requires
        struct_ok(n1, root, g),
        red_fix_inv(n1, root, g, bhf, z),
        n1[z as int].parent != 0,
        n1[n1[z as int].parent as int].color == Color::Red,
        n1[n1[n1[z as int].parent as int].parent as int].left == n1[z as int].parent,
        n1[n1[z as int].parent as int].right == z,
        left_rot_links(n1, n2, n1[z as int].parent),
        struct_ok(n2, root, left_rot_shape(g, n1[z as int].parent, z)),
    ensures
        red_fix_inv(n2, root, left_rot_shape(g, n1[z as int].parent, z), bhf, n1[z as int].parent),
        n2[n1[z as int].parent as int].parent == z,
{
    let p = n1[z as int].parent;
    let gp = n1[p as int].parent;
    let g2 = left_rot_shape(g, p, z);
    assert(node_struct_ok(n1, root, g, z));
    assert(node_struct_ok(n1, root, g, p));
    assert(p != root);
    assert(gp != 0);
    assert(node_struct_ok(n1, root, g, gp));
    assert(bh_node_ok(n1, g, p));
    assert(bh_node_ok(n1, g, z));
    assert(bh_node_ok(n1, g, gp));
    assert(red_node_ok(n1, z));
    assert(red_node_ok(n1, gp));
    let a = n1[p as int].left;
    let b = n1[z as int].left;
    let c = n1[z as int].right;
    if a != 0 { assert(node_struct_ok(n1, root, g, a)); }
    if b != 0 { assert(node_struct_ok(n1, root, g, b)); }
    if c != 0 { assert(node_struct_ok(n1, root, g, c)); }
    assert forall|n: usize| live(g2, n) implies #[trigger] bh_node_ok(n2, g2, n) by {
        assert(bh_node_ok(n1, g, n));
        assert(node_struct_ok(n1, root, g, n));
    }
    assert forall|n: usize| live(g2, n) && n != n2[p as int].parent implies #[trigger] red_node_ok(n2, n) by {
        assert(node_struct_ok(n1, root, g, n));
        if n != p {
            assert(red_node_ok(n1, n));
        }
    }
}

/// Mirror image of `lemma_fix_inner_left`.
proof fn lemma_fix_inner_right(n1: Seq<Node>, n2: Seq<Node>, root: usize, g: Shape, bhf: usize, z: usize)
    requires
        struct_ok(n1, root, g),
        red_fix_inv(n1, root, g, bhf, z),
        n1[z as int].parent != 0,
        n1[n1[z as int].parent as int].color == Color::Red,
        n1[n1[n1[z as int].parent as int].parent as int].right == n1[z as int].parent,
        n1[n1[z as int].parent as int].left == z,
        right_rot_links(n1, n2, n1[z as int].parent),
        struct_ok(n2, root, right_rot_shape(g, n1[z as int].parent, z)),
    ensures
        red_fix_inv(n2, root, right_rot_shape(g, n1[z as int].parent, z), bhf, n1[z as int].parent),
        n2[n1[z as int].parent as int].parent == z,
{
    let p = n1[z as int].parent;
    let gp = n1[p as int].parent;
    let g2 = right_rot_shape(g, p, z);
    assert(node_struct_ok(n1, root, g, z));
    assert(node_struct_ok(n1, root, g, p));
    assert(p != root);
    assert(gp != 0);
    assert(node_struct_ok(n1, root, g, gp));
    assert(bh_node_ok(n1, g, p));
    assert(bh_node_ok(n1, g, z));
    assert(bh_node_ok(n1, g, gp));
    assert(red_node_ok(n1, z));
    assert(red_node_ok(n1, gp));
    let a = n1[p as int].right;
    let b = n1[z as int].right;
    let c = n1[z as int].left;
    if a != 0 { assert(node_struct_ok(n1, root, g, a)); }
    if b != 0 { assert(node_struct_ok(n1, root, g, b)); }
    if c != 0 { assert(node_struct_ok(n1, root, g, c)); }
    assert forall|n: usize| live(g2, n) implies #[trigger] bh_node_ok(n2, g2, n) by {
        assert(bh_node_ok(n1, g, n));
        assert(node_struct_ok(n1, root, g, n));
    }
    assert forall|n: usize| live(g2, n) && n != n2[p as int].parent implies #[trigger] red_node_ok(n2, n) by {
        assert(node_struct_ok(n1, root, g, n));
        if n != p {
            assert(red_node_ok(n1, n));
        }
    }
}

/// Red `z` is the outer grandchild on the left: recolouring and rotating the grandparent
/// right restores every red-black rule.
proof fn lemma_fix_outer_left(n1: Seq<Node>, n2: Seq<Node>, n3: Seq<Node>, root: usize, root3: usize, g: Shape, bhf: usize, z: usize)
    requires
        struct_ok(n1, root, g),
        red_fix_inv(n1, root, g, bhf, z),
        n1[z as int].parent != 0,
        n1[n1[z as int].parent as int].color == Color::Red,
        n1[n1[n1[z as int].parent as int].parent as int].left == n1[z as int].parent,
        n1[n1[z as int].parent as int].left == z,
        is_black(n1, n1[n1[n1[z as int].parent as int].parent as int].right),
        ({
            let p = n1[z as int].parent;
            let gp = n1[p as int].parent;
            n2 == n1.update(p as int, Node { color: Color::Black, ..n1[p as int] }).update(
                gp as int,
                Node { color: Color::Red, ..n1[gp as int] },
            )
        }),
        struct_ok(n2, root, g),
        right_rot_links(n2, n3, n1[n1[z as int].parent as int].parent),
        root3 == (if n2[n1[n1[z as int].parent as int].parent as int].parent == 0 { n1[z as int].parent } else { root }),
        struct_ok(n3, root3, right_rot_shape(g, n1[n1[z as int].parent as int].parent, n1[z as int].parent)),
    ensures
        ({
            let p = n1[z as int].parent;
            let gp = n1[p as int].parent;
            let g3 = right_rot_shape(g, gp, p);
            colors_ok(n3, root3, Shape { bh: g3.bh.insert(p, g.bh[gp]).insert(gp, g.bh[p]), ..g3 }, bhf)
        }),
{
    let p = n1[z as int].parent;
    let gp = n1[p as int].parent;
    let g3 = right_rot_shape(g, gp, p);
    let g4 = Shape { bh: g3.bh.insert(p, g.bh[gp]).insert(gp, g.bh[p]), ..g3 };
    assert(node_struct_ok(n1, root, g, z));
    assert(node_struct_ok(n1, root, g, p));
    assert(p != root);
    assert(gp != 0);
    assert(node_struct_ok(n1, root, g, gp));
    assert(bh_node_ok(n1, g, p));
    assert(bh_node_ok(n1, g, z));
    assert(bh_node_ok(n1, g, gp));
    assert(red_node_ok(n1, z));
    assert(red_node_ok(n1, gp));
    let d = n1[p as int].right;
    let y = n1[gp as int].right;
    let ggp = n1[gp as int].parent;
    if d != 0 { assert(node_struct_ok(n1, root, g, d)); }
    if y != 0 { assert(node_struct_ok(n1, root, g, y)); }
    if ggp != 0 {
        assert(node_struct_ok(n1, root, g, ggp));
        assert(bh_node_ok(n1, g, ggp));
    }
    assert forall|n: usize| live(g4, n) implies #[trigger] bh_node_ok(n3, g4, n) by {
        assert(bh_node_ok(n1, g, n));
        assert(node_struct_ok(n1, root, g, n));
    }
    assert forall|n: usize| live(g4, n) implies #[trigger] red_node_ok(n3, n) by {
        assert(node_struct_ok(n1, root, g, n));
        if n != p {
            assert(red_node_ok(n1, n));
        }
    }
    if ggp == 0 {
        assert(root == gp);
    }
}

/// Mirror image of `lemma_fix_outer_left`.
proof fn lemma_fix_outer_right(n1: Seq<Node>, n2: Seq<Node>, n3: Seq<Node>, root: usize, root3: usize, g: Shape, bhf: usize, z: usize)
    requires
        struct_ok(n1, root, g),
        red_fix_inv(n1, root, g, bhf, z),
        n1[z as int].parent != 0,
        n1[n1[z as int].parent as int].color == Color::Red,
        n1[n1[n1[z as int].parent as int].parent as int].right == n1[z as int].parent,
        n1[n1[z as int].parent as int].right == z,
        is_black(n1, n1[n1[n1[z as int].parent as int].parent as int].left),
        ({
            let p = n1[z as int].parent;
            let gp = n1[p as int].parent;
            n2 == n1.update(p as int, Node { color: Color::Black, ..n1[p as int] }).update(
                gp as int,
                Node { color: Color::Red, ..n1[gp as int] },
            )
        }),
        struct_ok(n2, root, g),
        left_rot_links(n2, n3, n1[n1[z as int].parent as int].parent),
        root3 == (if n2[n1[n1[z as int].parent as int].parent as int].parent == 0 { n1[z as int].parent } else { root }),
        struct_ok(n3, root3, left_rot_shape(g, n1[n1[z as int].parent as int].parent, n1[z as int].parent)),
    ensures
        ({
            let p = n1[z as int].parent;
            let gp = n1[p as int].parent;
            let g3 = left_rot_shape(g, gp, p);
            colors_ok(n3, root3, Shape { bh: g3.bh.insert(p, g.bh[gp]).insert(gp, g.bh[p]), ..g3 }, bhf)
        }),
{
    let p = n1[z as int].parent;
    let gp = n1[p as int].parent;
    let g3 = left_rot_shape(g, gp, p);
    let g4 = Shape { bh: g3.bh.insert(p, g.bh[gp]).insert(gp, g.bh[p]), ..g3 };
    assert(node_struct_ok(n1, root, g, z));
    assert(node_struct_ok(n1, root, g, p));
    assert(p != root);
    assert(gp != 0);
    assert(node_struct_ok(n1, root, g, gp));
    assert(bh_node_ok(n1, g, p));
    assert(bh_node_ok(n1, g, z));
    assert(bh_node_ok(n1, g, gp));
    assert(red_node_ok(n1, z));
    assert(red_node_ok(n1, gp));
    let d = n1[p as int].left;
    let y = n1[gp as int].left;
    let ggp = n1[gp as int].parent;
    if d != 0 { assert(node_struct_ok(n1, root, g, d)); }
    if y != 0 { assert(node_struct_ok(n1, root, g, y)); }
    if ggp != 0 {
        assert(node_struct_ok(n1, root, g, ggp));
        assert(bh_node_ok(n1, g, ggp));
    }
    assert forall|n: usize| live(g4, n) implies #[trigger] bh_node_ok(n3, g4, n) by {
        assert(bh_node_ok(n1, g, n));
        assert(node_struct_ok(n1, root, g, n));
    }
    assert forall|n: usize| live(g4, n) implies #[trigger] red_node_ok(n3, n) by {
        assert(node_struct_ok(n1, root, g, n));
        if n != p {
            assert(red_node_ok(n1, n));
        }
    }
    if ggp == 0 {
        assert(root == gp);
    }
}

impl RedBlackTree {
    /// One step of the repair when the parent of `z` is a left child.
    #[verifier::rlimit(30)]
    fn insert_fix_left(&mut self, nodes: &mut Vec<Node>, z0: usize) -> (r: (usize, bool))
        requires
            struct_ok(old(nodes)@, old(self).root_node, old(self).shape@),
            lengths_ok(old(nodes)@, old(self).shape@),
            total_fits(old(nodes)@, old(self).shape@),
            red_fix_inv(old(nodes)@, old(self).root_node, old(self).shape@, old(self).black_height, z0),
            old(nodes)@[z0 as int].parent != 0,
            old(nodes)@[old(nodes)@[z0 as int].parent as int].color == Color::Red,
            old(nodes)@[old(nodes)@[old(nodes)@[z0 as int].parent as int].parent as int].left == old(nodes)@[z0 as int].parent,
        ensures
            struct_ok(final(nodes)@, final(self).root_node, final(self).shape@),
            lengths_ok(final(nodes)@, final(self).shape@),
            total_fits(final(nodes)@, final(self).shape@),
            final(self).shape@.ord == old(self).shape@.ord,
            final(self).shape@.pos == old(self).shape@.pos,
            same_pieces(old(nodes)@, final(nodes)@),
            frame_outside(old(nodes)@, final(nodes)@, old(self).shape@),
            live(final(self).shape@, r.0),
            r.1 ==> colors_ok(final(nodes)@, final(self).root_node, final(self).shape@, final(self).black_height),
            !r.1 ==> red_fix_inv(final(nodes)@, final(self).root_node, final(self).shape@, final(self).black_height, r.0),
            final(self).black_height == old(self).black_height,
            !r.1 ==> old(self).shape@.hi[z0] - old(self).shape@.lo[z0] < final(self).shape@.hi[r.0] - final(self).shape@.lo[r.0],
    {
        let mut z = z0;
        let ghost n1 = nodes@;
        let ghost g1 = self.shape@;
        let ghost root1 = self.root_node;
        proof {
            assert(node_struct_ok(n1, root1, g1, z));
            let pp = n1[z as int].parent;
            assert(node_struct_ok(n1, root1, g1, pp));
            assert(pp != root1);
            let gg = n1[pp as int].parent;
            assert(node_struct_ok(n1, root1, g1, gg));
            let l = n1[gg as int].left;
            let r = n1[gg as int].right;
            if l != 0 { assert(node_struct_ok(n1, root1, g1, l)); }
            if r != 0 { assert(node_struct_ok(n1, root1, g1, r)); }
        }
        let p = nodes[z].parent;
        let gp = nodes[p].parent;
        let y = nodes[gp].right;
        if nodes[y].color == Color::Red {
            nodes[p].color = Color::Black;
            nodes[y].color = Color::Black;
            nodes[gp].color = Color::Red;
            proof {
                lemma_fix_recolor(n1, nodes@, root1, g1, self.black_height, z);
                lemma_recolor(n1, nodes@, root1, g1);
            }
            self.shape = Ghost(Shape { bh: g1.bh.insert(p, g1.bh[p] + 1).insert(y, g1.bh[y] + 1), ..g1 });
            proof {
                lemma_shape_same_intervals(nodes@, root1, g1, self.shape@);
                assert(node_struct_ok(nodes@, root1, self.shape@, gp));
            }
            return (gp, false);
        } else {
            if z == nodes[p].right {
                z = p;
                self.left_rotate(nodes, z);
                proof {
                    lemma_fix_inner_left(n1, nodes@, root1, g1, self.black_height, n1[p as int].right);
                }
            }
            let ghost n2 = nodes@;
            let ghost g2 = self.shape@;
            proof {
                assert(node_struct_ok(n2, root1, g2, z));
                let pp = n2[z as int].parent;
                assert(node_struct_ok(n2, root1, g2, pp));
                let gg = n2[pp as int].parent;
                assert(node_struct_ok(n2, root1, g2, gg));
            }
            let p2 = nodes[z].parent;
            let gp2 = nodes[p2].parent;
            nodes[p2].color = Color::Black;
            nodes[gp2].color = Color::Red;
            let ghost n3 = nodes@;
            proof {
                lemma_recolor(n2, n3, root1, g2);
            }
            self.right_rotate(nodes, gp2);
            proof {
                lemma_fix_outer_left(n2, n3, nodes@, root1, self.root_node, g2, self.black_height, z);
            }
            let ghost g3 = self.shape@;
            self.shape = Ghost(Shape { bh: self.shape@.bh.insert(p2, g2.bh[gp2]).insert(gp2, g2.bh[p2]), ..self.shape@ });
            proof {
                lemma_shape_same_intervals(nodes@, self.root_node, g3, self.shape@);
            }
            return (z, true);
        }
    }

    /// One step of the repair when the parent of `z` is a right child.
    #[verifier::rlimit(30)]
    fn insert_fix_right(&mut self, nodes: &mut Vec<Node>, z0: usize) -> (r: (usize, bool))
        requires
            struct_ok(old(nodes)@, old(self).root_node, old(self).shape@),
            lengths_ok(old(nodes)@, old(self).shape@),
            total_fits(old(nodes)@, old(self).shape@),
            red_fix_inv(old(nodes)@, old(self).root_node, old(self).shape@, old(self).black_height, z0),
            old(nodes)@[z0 as int].parent != 0,
            old(nodes)@[old(nodes)@[z0 as int].parent as int].color == Color::Red,
            old(nodes)@[old(nodes)@[old(nodes)@[z0 as int].parent as int].parent as int].right == old(nodes)@[z0 as int].parent,
        ensures
            struct_ok(final(nodes)@, final(self).root_node, final(self).shape@),
            lengths_ok(final(nodes)@, final(self).shape@),
            total_fits(final(nodes)@, final(self).shape@),
            final(self).shape@.ord == old(self).shape@.ord,
            final(self).shape@.pos == old(self).shape@.pos,
            same_pieces(old(nodes)@, final(nodes)@),
            frame_outside(old(nodes)@, final(nodes)@, old(self).shape@),
            live(final(self).shape@, r.0),
            r.1 ==> colors_ok(final(nodes)@, final(self).root_node, final(self).shape@, final(self).black_height),
            !r.1 ==> red_fix_inv(final(nodes)@, final(self).root_node, final(self).shape@, final(self).black_height, r.0),
            final(self).black_height == old(self).black_height,
            !r.1 ==> old(self).shape@.hi[z0] - old(self).shape@.lo[z0] < final(self).shape@.hi[r.0] - final(self).shape@.lo[r.0],
    {
        let mut z = z0;
        let ghost n1 = nodes@;
        let ghost g1 = self.shape@;
        let ghost root1 = self.root_node;
        proof {
            assert(node_struct_ok(n1, root1, g1, z));
            let pp = n1[z as int].parent;
            assert(node_struct_ok(n1, root1, g1, pp));
            assert(pp != root1);
            let gg = n1[pp as int].parent;
            assert(node_struct_ok(n1, root1, g1, gg));
            let l = n1[gg as int].left;
            let r = n1[gg as int].right;
            if l != 0 { assert(node_struct_ok(n1, root1, g1, l)); }
            if r != 0 { assert(node_struct_ok(n1, root1, g1, r)); }
        }
        let p = nodes[z].parent;
        let gp = nodes[p].parent;
        let y = nodes[gp].left;
        if nodes[y].color == Color::Red {
            nodes[p].color = Color::Black;
            nodes[y].color = Color::Black;
            nodes[gp].color = Color::Red;
            proof {
                lemma_fix_recolor(n1, nodes@, root1, g1, self.black_height, z);
                lemma_recolor(n1, nodes@, root1, g1);
            }
            self.shape = Ghost(Shape { bh: g1.bh.insert(p, g1.bh[p] + 1).insert(y, g1.bh[y] + 1), ..g1 });
            proof {
                lemma_shape_same_intervals(nodes@, root1, g1, self.shape@);
                assert(node_struct_ok(nodes@, root1, self.shape@, gp));
            }
            return (gp, false);
        } else {
            if z == nodes[p].left {
                z = p;
                self.right_rotate(nodes, z);
                proof {
                    lemma_fix_inner_right(n1, nodes@, root1, g1, self.black_height, n1[p as int].left);
                }
            }
            let ghost n2 = nodes@;
            let ghost g2 = self.shape@;
            proof {
                assert(node_struct_ok(n2, root1, g2, z));
                let pp = n2[z as int].parent;
                assert(node_struct_ok(n2, root1, g2, pp));
                let gg = n2[pp as int].parent;
                assert(node_struct_ok(n2, root1, g2, gg));
            }
            let p2 = nodes[z].parent;
            let gp2 = nodes[p2].parent;
            nodes[p2].color = Color::Black;
            nodes[gp2].color = Color::Red;
            let ghost n3 = nodes@;
            proof {
                lemma_recolor(n2, n3, root1, g2);
            }
            self.left_rotate(nodes, gp2);
            proof {
                lemma_fix_outer_right(n2, n3, nodes@, root1, self.root_node, g2, self.black_height, z);
            }
            let ghost g3 = self.shape@;
            self.shape = Ghost(Shape { bh: self.shape@.bh.insert(p2, g2.bh[gp2]).insert(gp2, g2.bh[p2]), ..self.shape@ });
            proof {
                lemma_shape_same_intervals(nodes@, self.root_node, g3, self.shape@);
            }
            return (z, true);
        }
    }

    /// Restores the red-black rules after the red slot `z` was hung into the tree.
    pub(crate) fn insert_fix(&mut self, nodes: &mut Vec<Node>, z: usize)
        requires
            struct_ok(old(nodes)@, old(self).root_node, old(self).shape@),
            lengths_ok(old(nodes)@, old(self).shape@),
            total_fits(old(nodes)@, old(self).shape@),
            red_fix_inv(old(nodes)@, old(self).root_node, old(self).shape@, old(self).black_height, z),
            old(self).shape@.ord.len() <= usize::MAX,
        ensures
            struct_ok(final(nodes)@, final(self).root_node, final(self).shape@),
            lengths_ok(final(nodes)@, final(self).shape@),
            total_fits(final(nodes)@, final(self).shape@),
            colors_ok(final(nodes)@, final(self).root_node, final(self).shape@, final(self).black_height),
            final(self).shape@.ord == old(self).shape@.ord,
            final(self).shape@.pos == old(self).shape@.pos,
            same_pieces(old(nodes)@, final(nodes)@),
            frame_outside(old(nodes)@, final(nodes)@, old(self).shape@),
            final(self).black_height == old(self).black_height || final(self).black_height == old(self).black_height + 1,
    {
        let ghost n0 = nodes@;
        let ghost g0 = self.shape@;
        let mut z = z;
        proof {
            assert(node_struct_ok(n0, self.root_node, g0, z));
        }
        while nodes[z].parent != 0 && nodes[nodes[z].parent].color == Color::Red
            invariant_except_break
                red_fix_inv(nodes@, self.root_node, self.shape@, self.black_height, z),
            invariant
                struct_ok(nodes@, self.root_node, self.shape@),
                lengths_ok(nodes@, self.shape@),
                total_fits(nodes@, self.shape@),
                self.shape@.ord == g0.ord,
                self.shape@.pos == g0.pos,
                same_pieces(n0, nodes@),
                frame_outside(n0, nodes@, g0),
                live(self.shape@, z),
                nodes@[z as int].parent < nodes@.len(),
                self.shape@.ord.len() <= usize::MAX,
                self.black_height == old(self).black_height,
            ensures
                colors_ok(nodes@, self.root_node, self.shape@, self.black_height) || (red_fix_inv(
                    nodes@,
                    self.root_node,
                    self.shape@,
                    self.black_height,
                    z,
                ) && !(nodes@[z as int].parent != 0 && nodes@[nodes@[z as int].parent as int].color
                    == Color::Red)),
            decreases self.shape@.ord.len() - (self.shape@.hi[z] - self.shape@.lo[z]),
        {
            let ghost n1 = nodes@;
            proof {
                assert(node_struct_ok(n1, self.root_node, self.shape@, z));
                let pp = n1[z as int].parent;
                assert(node_struct_ok(n1, self.root_node, self.shape@, pp));
                assert(pp != self.root_node);
                let gg = n1[pp as int].parent;
                assert(node_struct_ok(n1, self.root_node, self.shape@, gg));
            }
            let p = nodes[z].parent;
            let gp = nodes[p].parent;
            let step = if p == nodes[gp].left {
                self.insert_fix_left(nodes, z)
            } else {
                self.insert_fix_right(nodes, z)
            };
            z = step.0;
            proof {
                assert(node_struct_ok(nodes@, self.root_node, self.shape@, z));
            }
            if step.1 {
                break;
            }
            if z == self.root_node {
                break;
            }
        }
        let ghost n4 = nodes@;
        let ghost g4 = self.shape@;
        let root = self.root_node;
        proof {
            assert(live(g4, root));
            lemma_bh_bound(n4, root, g4, root);
            assert(node_struct_ok(n4, root, g4, root));
        }
        if nodes[root].color == Color::Red {
            self.black_height = self.black_height + 1;
        }
        nodes[root].color = Color::Black;
        proof {
            let g5 = if n4[root as int].color == Color::Red {
                Shape { bh: g4.bh.insert(root, g4.bh[root] + 1), ..g4 }
            } else {
                g4
            };
            lemma_recolor(n4, nodes@, root, g4);
            assert forall|n: usize| live(g5, n) implies #[trigger] bh_node_ok(nodes@, g5, n) by {
                assert(bh_node_ok(n4, g4, n));
                assert(node_struct_ok(n4, root, g4, n));
            }
            assert forall|n: usize| live(g5, n) implies #[trigger] red_node_ok(nodes@, n) by {
                assert(node_struct_ok(n4, root, g4, n));
                if n != n4[z as int].parent || colors_ok(n4, root, g4, self.black_height) {
                    assert(red_node_ok(n4, n));
                }
            }
            self.shape = Ghost(g5);
            lemma_shape_same_intervals(nodes@, root, g4, g5);
        }
    }
}

} // verus!
