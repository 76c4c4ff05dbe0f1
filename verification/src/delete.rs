use vstd::prelude::*;
use crate::node::{Node, Color};
use crate::shape::{Shape, live, is_black, nil_ok, ord_ok, node_struct_ok, struct_ok, sum_len, len_node_ok,
    lengths_ok, total_fits, bh_node_ok, red_node_ok, colors_ok, iter_parent, is_anc, same_pieces,
    lemma_sum_split, lemma_sum_mono, lemma_sum_shift, lemma_sum_one, lemma_anc_interval, lemma_contains_is_anc};
use crate::rbtree::RedBlackTree;
use crate::nav::transplanted;
use crate::fix_delete::{dfix_inv, sibling, lemma_colors_same_links};
use crate::shape::{same_links};

verus! {

/// Shape after removing the slot `z` (at position `pz`) from the tree. With `two`, `z` had
/// two children and its successor `y` took its place.
pub open spec fn rm_shape(g: Shape, z: usize, pz: int, y: usize, two: bool) -> Shape {
    Shape {
        ord: g.ord.remove(pz),
        pos: Map::new(
            |n: usize| g.pos.dom().contains(n) && n != z,
            |n: usize|
                if g.pos[n] > pz {
                    g.pos[n] - 1
                } else {
                    g.pos[n]
                },
        ),
        lo: Map::new(
            |n: usize| g.pos.dom().contains(n) && n != z,
            |n: usize|
                if two && n == y {
                    g.lo[z]
                } else if g.lo[n] > pz + (if two { 1int } else { 0int }) {
                    g.lo[n] - 1
                } else {
                    g.lo[n]
                },
        ),
        hi: Map::new(
            |n: usize| g.pos.dom().contains(n) && n != z,
            |n: usize|
                if two && n == y {
                    g.hi[z] - 1
                } else if g.hi[n] > pz {
                    g.hi[n] - 1
                } else {
                    g.hi[n]
                },
        ),
        bh: if two { g.bh.insert(y, g.bh[z]) } else { g.bh },
    }
}

pub proof fn lemma_rm_ord(n0: Seq<Node>, n1: Seq<Node>, g: Shape, z: usize, pz: int, y: usize, two: bool)
    requires
        ord_ok(n0, g),
        n1.len() == n0.len(),
        live(g, z),
        pz == g.pos[z],
    ensures
        ord_ok(n1, rm_shape(g, z, pz, y, two)),
{
    let g2 = rm_shape(g, z, pz, y, two);
    assert forall|i: int| 0 <= i < g2.ord.len() implies #[trigger] g2.pos.dom().contains(g2.ord[i]) && g2.pos[g2.ord[i]] == i by {
        let j = if i < pz { i } else { i + 1 };
        assert(g2.ord[i] == g.ord[j]);
        assert(g.pos.dom().contains(g.ord[j]));
    }
    assert forall|n: usize| #[trigger] g2.pos.dom().contains(n) implies 0 <= g2.pos[n] < g2.ord.len() && g2.ord[g2.pos[n]] == n
        && 0 < n < n1.len() by {
        assert(g.pos.dom().contains(n));
    }
}

#[verifier::rlimit(50)]
proof fn lemma_rm_one_node(n0: Seq<Node>, n1: Seq<Node>, root: usize, g: Shape, z: usize, x: usize, q: usize)
    requires
        struct_ok(n0, root, g),
        live(g, z),
        (n0[z as int].left == 0 && x == n0[z as int].right) || (n0[z as int].right == 0 && x == n0[z as int].left),
        n1 == transplanted(n0, z, x),
        live(rm_shape(g, z, g.pos[z], 0, false), q),
    ensures
        node_struct_ok(n1, if n0[z as int].parent == 0 { x } else { root }, rm_shape(g, z, g.pos[z], 0, false), q),
{
    let pz = g.pos[z];
    let g2 = rm_shape(g, z, pz, 0, false);
    let zp = n0[z as int].parent;
    assert(node_struct_ok(n0, root, g, z));
    if zp != 0 { assert(node_struct_ok(n0, root, g, zp)); }
    if x != 0 { assert(node_struct_ok(n0, root, g, x)); }
    assert(live(g, q));
    assert(node_struct_ok(n0, root, g, q));
    let nd = n0[q as int];
    if nd.left != 0 { assert(node_struct_ok(n0, root, g, nd.left)); }
    if nd.right != 0 { assert(node_struct_ok(n0, root, g, nd.right)); }
    if nd.parent != 0 { assert(node_struct_ok(n0, root, g, nd.parent)); }
}

/// Removing a slot with at most one child `x`: `x` takes its place.
pub proof fn lemma_rm_struct_one(n0: Seq<Node>, n1: Seq<Node>, root: usize, g: Shape, z: usize, x: usize)
    requires
        struct_ok(n0, root, g),
        live(g, z),
        (n0[z as int].left == 0 && x == n0[z as int].right) || (n0[z as int].right == 0 && x == n0[z as int].left),
        n1 == transplanted(n0, z, x),
    ensures
        struct_ok(n1, if n0[z as int].parent == 0 { x } else { root }, rm_shape(g, z, g.pos[z], 0, false)),
{
    let pz = g.pos[z];
    let g2 = rm_shape(g, z, pz, 0, false);
    let zp = n0[z as int].parent;
    let root2 = if zp == 0 { x } else { root };
    assert(node_struct_ok(n0, root, g, z));
    if zp != 0 { assert(node_struct_ok(n0, root, g, zp)); }
    if x != 0 { assert(node_struct_ok(n0, root, g, x)); }
    assert(nil_ok(n1)) by {
        assert(n1[0].left == n0[0].left);
    }
    lemma_rm_ord(n0, n1, g, z, pz, 0, false);
    assert forall|q: usize| live(g2, q) implies #[trigger] node_struct_ok(n1, root2, g2, q) by {
        lemma_rm_one_node(n0, n1, root, g, z, x, q);
    }
    if root2 != 0 {
        if zp == 0 {
            assert(z == root);
        } else {
            assert(root != z);
            assert(node_struct_ok(n0, root, g, root));
        }
    }
}

/// Links after removing `z`, which has two children, by moving its successor `y` into its place.
#[verifier::opaque]
pub open spec fn rm_two_links(n0: Seq<Node>, z: usize, y: usize) -> Seq<Node> {
    let x = n0[y as int].right;
    let yp = n0[y as int].parent;
    let zl = n0[z as int].left;
    let zr = n0[z as int].right;
    let na = if yp == z {
        n0.update(x as int, Node { parent: y, ..n0[x as int] })
    } else {
        let t = transplanted(n0, y, x);
        let t2 = t.update(y as int, Node { right: zr, ..t[y as int] });
        t2.update(zr as int, Node { parent: y, ..t2[zr as int] })
    };
    let nb = transplanted(na, z, y);
    let nc = nb.update(y as int, Node { left: zl, ..nb[y as int] });
    let nd = nc.update(zl as int, Node { parent: y, ..nc[zl as int] });
    nd.update(y as int, Node { color: n0[z as int].color, ..nd[y as int] })
}

/// The preconditions of removing `z` with two children through its successor `y`.
pub open spec fn two_case(n0: Seq<Node>, root: usize, g: Shape, z: usize, y: usize) -> bool {
    &&& struct_ok(n0, root, g)
    &&& live(g, z)
    &&& n0[z as int].left != 0
    &&& n0[z as int].right != 0
    &&& live(g, y)
    &&& g.pos[y] == g.pos[z] + 1
    &&& g.lo[y] == g.pos[z] + 1
    &&& n0[y as int].left == 0
}

/// Distinctness of the slots touched when `y` takes the place of `z`.
pub open spec fn two_distinct(n0: Seq<Node>, z: usize, y: usize) -> bool {
    let zp = n0[z as int].parent;
    let x = n0[y as int].right;
    let yp = n0[y as int].parent;
    let zl = n0[z as int].left;
    let zr = n0[z as int].right;
    &&& 0 < z < n0.len() && 0 < y < n0.len() && 0 < zl < n0.len() && 0 < zr < n0.len() && 0 < yp < n0.len()
    &&& x < n0.len() && zp < n0.len()
    &&& y != z && zl != z && zr != z && y != zl && zl != zr && yp != zl && y != yp
    &&& (yp == z || n0[yp as int].left == y)
    &&& (yp == z <==> zr == y)
    &&& (x != 0 ==> x != z && x != zl && x != y && x != yp && x != zr)
    &&& (zp != 0 ==> zp != y && zp != zl && zp != zr && zp != yp && zp != x && zp != z)
    &&& (zp != 0 ==> n0[zp as int].left == z || n0[zp as int].right == z)
    &&& n0[y as int].left == 0
    &&& n0[z as int].right == zr
}

proof fn lemma_two_distinct(n0: Seq<Node>, root: usize, g: Shape, z: usize, y: usize)
    requires
        two_case(n0, root, g, z, y),
    ensures
        two_distinct(n0, z, y),
{
    let pz = g.pos[z];
    let zp = n0[z as int].parent;
    let x = n0[y as int].right;
    let yp = n0[y as int].parent;
    let zl = n0[z as int].left;
    let zr = n0[z as int].right;
    assert(node_struct_ok(n0, root, g, z));
    assert(node_struct_ok(n0, root, g, y));
    assert(node_struct_ok(n0, root, g, zl));
    assert(node_struct_ok(n0, root, g, zr));
    assert(node_struct_ok(n0, root, g, yp));
    if zp != 0 { assert(node_struct_ok(n0, root, g, zp)); }
    if x != 0 { assert(node_struct_ok(n0, root, g, x)); }
    if zp != 0 {
        assert(g.lo[zp] <= g.lo[z] && g.hi[z] <= g.hi[zp]);
    }
}

/// The fields of the slots touched when `y` takes the place of `z`.
proof fn lemma_rm_two_fields(n0: Seq<Node>, z: usize, y: usize)
    requires
        two_distinct(n0, z, y),
    ensures
        ({
            let n1 = rm_two_links(n0, z, y);
            let x = n0[y as int].right;
            let yp = n0[y as int].parent;
            let zl = n0[z as int].left;
            let zr = n0[z as int].right;
            let zp = n0[z as int].parent;
            &&& n1.len() == n0.len()
            &&& forall|i: int|
                0 <= i < n0.len() && i != x && i != yp && i != y && i != zr && i != zp && i != zl ==> #[trigger] n1[i] == n0[i]
            &&& n1[y as int] == (Node { left: zl, right: if yp == z { x } else { zr }, parent: zp, color: n0[z as int].color, ..n0[y as int] })
            &&& n1[zl as int] == (Node { parent: y, ..n0[zl as int] })
            &&& yp != z ==> n1[zr as int].parent == y && n1[zr as int].right == n0[zr as int].right
                && n1[zr as int].color == n0[zr as int].color
            &&& yp != z ==> n1[zr as int].left == (if zr == yp { x } else { n0[zr as int].left })
            &&& yp != z && yp != zr ==> n1[yp as int] == (Node { left: x, ..n0[yp as int] })
            &&& n1[x as int].parent == (if yp == z { y } else { yp })
            &&& x != 0 ==> n1[x as int] == (Node { parent: if yp == z { y } else { yp }, ..n0[x as int] })
            &&& zp != 0 ==> n1[zp as int] == (if n0[zp as int].left == z {
                Node { left: y, ..n0[zp as int] }
            } else {
                Node { right: y, ..n0[zp as int] }
            })
            &&& n1[0].left == n0[0].left && n1[0].right == n0[0].right && n1[0].color == n0[0].color
                && n1[0].length == n0[0].length && n1[0].subtree_length == n0[0].subtree_length
                && n1[0].left_subtree_length == n0[0].left_subtree_length
            &&& forall|i: int| 0 <= i < n0.len() ==> (#[trigger] n1[i]).start == n0[i].start && n1[i].length == n0[i].length
                && n1[i].buffer_type == n0[i].buffer_type && n1[i].subtree_length == n0[i].subtree_length
                && n1[i].left_subtree_length == n0[i].left_subtree_length
            &&& forall|i: int| 0 <= i < n0.len() && i != y ==> (#[trigger] n1[i]).color == n0[i].color
        }),
{
    if n0[y as int].parent == z {
        lemma_rm_two_fields_near(n0, z, y);
    } else {
        lemma_rm_two_fields_far(n0, z, y);
    }
}

#[verifier::rlimit(60)]
proof fn lemma_rm_two_fields_near(n0: Seq<Node>, z: usize, y: usize)
    requires
        two_distinct(n0, z, y),
        n0[y as int].parent == z,
    ensures
        ({
            let n1 = rm_two_links(n0, z, y);
            let x = n0[y as int].right;
            let yp = n0[y as int].parent;
            let zl = n0[z as int].left;
            let zr = n0[z as int].right;
            let zp = n0[z as int].parent;
            &&& n1.len() == n0.len()
            &&& forall|i: int|
                0 <= i < n0.len() && i != x && i != yp && i != y && i != zr && i != zp && i != zl ==> #[trigger] n1[i] == n0[i]
            &&& n1[y as int] == (Node { left: zl, right: if yp == z { x } else { zr }, parent: zp, color: n0[z as int].color, ..n0[y as int] })
            &&& n1[zl as int] == (Node { parent: y, ..n0[zl as int] })
            &&& yp != z ==> n1[zr as int].parent == y && n1[zr as int].right == n0[zr as int].right
                && n1[zr as int].color == n0[zr as int].color
            &&& yp != z ==> n1[zr as int].left == (if zr == yp { x } else { n0[zr as int].left })
            &&& yp != z && yp != zr ==> n1[yp as int] == (Node { left: x, ..n0[yp as int] })
            &&& n1[x as int].parent == (if yp == z { y } else { yp })
            &&& x != 0 ==> n1[x as int] == (Node { parent: if yp == z { y } else { yp }, ..n0[x as int] })
            &&& zp != 0 ==> n1[zp as int] == (if n0[zp as int].left == z {
                Node { left: y, ..n0[zp as int] }
            } else {
                Node { right: y, ..n0[zp as int] }
            })
            &&& n1[0].left == n0[0].left && n1[0].right == n0[0].right && n1[0].color == n0[0].color
                && n1[0].length == n0[0].length && n1[0].subtree_length == n0[0].subtree_length
                && n1[0].left_subtree_length == n0[0].left_subtree_length
            &&& forall|i: int| 0 <= i < n0.len() ==> (#[trigger] n1[i]).start == n0[i].start && n1[i].length == n0[i].length
                && n1[i].buffer_type == n0[i].buffer_type && n1[i].subtree_length == n0[i].subtree_length
                && n1[i].left_subtree_length == n0[i].left_subtree_length
            &&& forall|i: int| 0 <= i < n0.len() && i != y ==> (#[trigger] n1[i]).color == n0[i].color
        }),
{
    reveal(rm_two_links);
}

#[verifier::rlimit(60)]
proof fn lemma_rm_two_fields_far(n0: Seq<Node>, z: usize, y: usize)
    requires
        two_distinct(n0, z, y),
        n0[y as int].parent != z,
    ensures
        ({
            let n1 = rm_two_links(n0, z, y);
            let x = n0[y as int].right;
            let yp = n0[y as int].parent;
            let zl = n0[z as int].left;
            let zr = n0[z as int].right;
            let zp = n0[z as int].parent;
            &&& n1.len() == n0.len()
            &&& forall|i: int|
                0 <= i < n0.len() && i != x && i != yp && i != y && i != zr && i != zp && i != zl ==> #[trigger] n1[i] == n0[i]
            &&& n1[y as int] == (Node { left: zl, right: if yp == z { x } else { zr }, parent: zp, color: n0[z as int].color, ..n0[y as int] })
            &&& n1[zl as int] == (Node { parent: y, ..n0[zl as int] })
            &&& yp != z ==> n1[zr as int].parent == y && n1[zr as int].right == n0[zr as int].right
                && n1[zr as int].color == n0[zr as int].color
            &&& yp != z ==> n1[zr as int].left == (if zr == yp { x } else { n0[zr as int].left })
            &&& yp != z && yp != zr ==> n1[yp as int] == (Node { left: x, ..n0[yp as int] })
            &&& n1[x as int].parent == (if yp == z { y } else { yp })
            &&& x != 0 ==> n1[x as int] == (Node { parent: if yp == z { y } else { yp }, ..n0[x as int] })
            &&& zp != 0 ==> n1[zp as int] == (if n0[zp as int].left == z {
                Node { left: y, ..n0[zp as int] }
            } else {
                Node { right: y, ..n0[zp as int] }
            })
            &&& n1[0].left == n0[0].left && n1[0].right == n0[0].right && n1[0].color == n0[0].color
                && n1[0].length == n0[0].length && n1[0].subtree_length == n0[0].subtree_length
                && n1[0].left_subtree_length == n0[0].left_subtree_length
            &&& forall|i: int| 0 <= i < n0.len() ==> (#[trigger] n1[i]).start == n0[i].start && n1[i].length == n0[i].length
                && n1[i].buffer_type == n0[i].buffer_type && n1[i].subtree_length == n0[i].subtree_length
                && n1[i].left_subtree_length == n0[i].left_subtree_length
            &&& forall|i: int| 0 <= i < n0.len() && i != y ==> (#[trigger] n1[i]).color == n0[i].color
        }),
{
    reveal(rm_two_links);
}

#[verifier::rlimit(60)]
proof fn lemma_rm_two_node(n0: Seq<Node>, n1: Seq<Node>, root: usize, g: Shape, z: usize, y: usize, q: usize)
    requires
        two_case(n0, root, g, z, y),
        n1 == rm_two_links(n0, z, y),
        live(rm_shape(g, z, g.pos[z], y, true), q),
    ensures
        node_struct_ok(n1, if n0[z as int].parent == 0 { y } else { root }, rm_shape(g, z, g.pos[z], y, true), q),
{
    let pz = g.pos[z];
    let zp = n0[z as int].parent;
    let x = n0[y as int].right;
    let yp = n0[y as int].parent;
    let zl = n0[z as int].left;
    let zr = n0[z as int].right;
    lemma_two_distinct(n0, root, g, z, y);
    lemma_rm_two_fields(n0, z, y);
    assert(node_struct_ok(n0, root, g, z));
    assert(node_struct_ok(n0, root, g, y));
    assert(node_struct_ok(n0, root, g, zl));
    assert(node_struct_ok(n0, root, g, zr));
    assert(node_struct_ok(n0, root, g, yp));
    if zp != 0 { assert(node_struct_ok(n0, root, g, zp)); }
    if x != 0 { assert(node_struct_ok(n0, root, g, x)); }
    assert(live(g, q));
    assert(node_struct_ok(n0, root, g, q));
    let nd = n0[q as int];
    if nd.left != 0 { assert(node_struct_ok(n0, root, g, nd.left)); }
    if nd.right != 0 { assert(node_struct_ok(n0, root, g, nd.right)); }
    if nd.parent != 0 { assert(node_struct_ok(n0, root, g, nd.parent)); }
}

pub proof fn lemma_rm_struct_two(n0: Seq<Node>, n1: Seq<Node>, root: usize, g: Shape, z: usize, y: usize)
    requires
        two_case(n0, root, g, z, y),
        n1 == rm_two_links(n0, z, y),
    ensures
        struct_ok(n1, if n0[z as int].parent == 0 { y } else { root }, rm_shape(g, z, g.pos[z], y, true)),
{
    let pz = g.pos[z];
    let g2 = rm_shape(g, z, pz, y, true);
    let zp = n0[z as int].parent;
    let root2 = if zp == 0 { y } else { root };
    assert(node_struct_ok(n0, root, g, z));
    assert(node_struct_ok(n0, root, g, y));
    lemma_two_distinct(n0, root, g, z, y);
    lemma_rm_two_fields(n0, z, y);
    assert(nil_ok(n1));
    lemma_rm_ord(n0, n1, g, z, pz, y, true);
    assert forall|q: usize| live(g2, q) implies #[trigger] node_struct_ok(n1, root2, g2, q) by {
        lemma_rm_two_node(n0, n1, root, g, z, y, q);
    }
    if zp == 0 {
        assert(z == root);
    } else {
        assert(root != z);
        assert(node_struct_ok(n0, root, g, root));
    }
}

/// Sums over the order with `pz` removed, against sums over the old order.
proof fn lemma_rm_sums(n0: Seq<Node>, n1: Seq<Node>, g: Shape, pz: int)
    requires
        ord_ok(n0, g),
        0 <= pz < g.ord.len(),
        n1.len() == n0.len(),
        forall|i: int| 0 <= i < n0.len() ==> (#[trigger] n1[i]).length == n0[i].length,
    ensures
        forall|a: int, b: int| 0 <= a <= b <= pz ==> #[trigger] sum_len(n1, g.ord.remove(pz), a, b) == sum_len(n0, g.ord, a, b),
        forall|a: int, b: int| pz < a <= b <= g.ord.len() ==> #[trigger] sum_len(n1, g.ord.remove(pz), a - 1, b - 1) == sum_len(n0, g.ord, a, b),
        sum_len(n1, g.ord.remove(pz), 0, g.ord.len() - 1) == sum_len(n0, g.ord, 0, g.ord.len() as int) - n0[g.ord[pz] as int].length,
{
    let o2 = g.ord.remove(pz);
    let nl = g.ord.len() as int;
    assert forall|a: int, b: int| 0 <= a <= b <= pz implies #[trigger] sum_len(n1, o2, a, b) == sum_len(n0, g.ord, a, b) by {
        assert forall|i: int| a <= i < b implies n0[g.ord[i] as int].length == n1[o2[i + 0] as int].length by {
            assert(g.pos.dom().contains(g.ord[i]));
        }
        lemma_sum_shift(n0, g.ord, n1, o2, a, b, 0);
    }
    assert forall|a: int, b: int| pz < a <= b <= nl implies #[trigger] sum_len(n1, o2, a - 1, b - 1) == sum_len(n0, g.ord, a, b) by {
        assert forall|i: int| a <= i < b implies n0[g.ord[i] as int].length == n1[o2[i + -1] as int].length by {
            assert(g.pos.dom().contains(g.ord[i]));
            assert(o2[i - 1] == g.ord[i]);
        }
        lemma_sum_shift(n0, g.ord, n1, o2, a, b, -1);
    }
    lemma_sum_split(n0, g.ord, 0, pz, nl);
    lemma_sum_split(n0, g.ord, pz, pz + 1, nl);
    lemma_sum_one(n0, g.ord, pz);
    lemma_sum_split(n1, o2, 0, pz, nl - 1);
    assert(sum_len(n1, o2, 0, pz) == sum_len(n0, g.ord, 0, pz));
    assert(sum_len(n1, o2, pz + 1 - 1, nl - 1) == sum_len(n0, g.ord, pz + 1, nl));
}

/// After taking out `z` (at most one child), only ancestors of its parent have stale lengths.
proof fn lemma_rm_len_one(n0: Seq<Node>, n1: Seq<Node>, root: usize, g: Shape, z: usize, x: usize)
    requires
        struct_ok(n0, root, g),
        lengths_ok(n0, g),
        total_fits(n0, g),
        live(g, z),
        (n0[z as int].left == 0 && x == n0[z as int].right) || (n0[z as int].right == 0 && x == n0[z as int].left),
        n1 == transplanted(n0, z, x),
    ensures
        total_fits(n1, rm_shape(g, z, g.pos[z], 0, false)),
        sum_len(n1, g.ord.remove(g.pos[z]), 0, g.ord.len() - 1) == sum_len(n0, g.ord, 0, g.ord.len() as int) - n0[z as int].length,
        forall|m: usize| live(rm_shape(g, z, g.pos[z], 0, false), m) ==> #[trigger] len_node_ok(n1, rm_shape(g, z, g.pos[z], 0, false), m)
            || is_anc(n1, n0[z as int].parent, m),
{
    let pz = g.pos[z];
    let g2 = rm_shape(g, z, pz, 0, false);
    let zp = n0[z as int].parent;
    let root2 = if zp == 0 { x } else { root };
    lemma_rm_struct_one(n0, n1, root, g, z, x);
    assert(node_struct_ok(n0, root, g, z));
    if zp != 0 { assert(node_struct_ok(n0, root, g, zp)); }
    if x != 0 { assert(node_struct_ok(n0, root, g, x)); }
    assert forall|i: int| 0 <= i < n0.len() implies (#[trigger] n1[i]).length == n0[i].length by {}
    lemma_rm_sums(n0, n1, g, pz);
    assert(g.ord[pz] == z);
    assert forall|m: usize| live(g2, m) implies #[trigger] len_node_ok(n1, g2, m) || is_anc(n1, zp, m) by {
        assert(live(g, m));
        assert(node_struct_ok(n0, root, g, m));
        assert(len_node_ok(n0, g, m));
        assert(n1[m as int].subtree_length == n0[m as int].subtree_length);
        assert(n1[m as int].left_subtree_length == n0[m as int].left_subtree_length);
        if g.lo[m] <= pz < g.hi[m] {
            lemma_contains_is_anc(n0, root, g, m, z);
            let k = choose|k: nat| iter_parent(n0, z, k) == m;
            assert(k > 0);
            assert(iter_parent(n0, zp, (k - 1) as nat) == m);
            if zp == 0 {
                crate::shape::lemma_iter_parent_zero(n0, (k - 1) as nat);
            }
            lemma_anc_interval(n0, root, g, zp, (k - 1) as nat);
            assert(g2.lo[m] <= g2.pos[zp] < g2.hi[m]);
            lemma_contains_is_anc(n1, root2, g2, m, zp);
        }
    }
    crate::shape::lemma_sum_mono(n1, g2.ord, 0, 0, g2.ord.len() as int, g2.ord.len() as int);
}

/// After `y` took the place of `z`, only ancestors of the slot where `y` was detached have
/// stale lengths (`y` itself included).
#[verifier::rlimit(40)]
proof fn lemma_rm_len_two(n0: Seq<Node>, n1: Seq<Node>, root: usize, g: Shape, z: usize, y: usize)
    requires
        two_case(n0, root, g, z, y),
        lengths_ok(n0, g),
        total_fits(n0, g),
        n1 == rm_two_links(n0, z, y),
    ensures
        total_fits(n1, rm_shape(g, z, g.pos[z], y, true)),
        sum_len(n1, g.ord.remove(g.pos[z]), 0, g.ord.len() - 1) == sum_len(n0, g.ord, 0, g.ord.len() as int) - n0[z as int].length,
        forall|m: usize| live(rm_shape(g, z, g.pos[z], y, true), m) ==> #[trigger] len_node_ok(n1, rm_shape(g, z, g.pos[z], y, true), m)
            || m == y || is_anc(n1, if n0[y as int].parent == z { n0[z as int].parent } else { n0[y as int].parent }, m),
        n0[y as int].parent != z ==> is_anc(n1, n0[y as int].parent, y),
{
    let pz = g.pos[z];
    let g2 = rm_shape(g, z, pz, y, true);
    let zp = n0[z as int].parent;
    let yp = n0[y as int].parent;
    let root2 = if zp == 0 { y } else { root };
    lemma_rm_struct_two(n0, n1, root, g, z, y);
    lemma_two_distinct(n0, root, g, z, y);
    lemma_rm_two_fields(n0, z, y);
    assert(node_struct_ok(n0, root, g, z));
    assert(node_struct_ok(n0, root, g, y));
    assert(node_struct_ok(n0, root, g, yp));
    lemma_rm_sums(n0, n1, g, pz);
    assert(g.ord[pz] == z);
    let start = if yp == z { zp } else { yp };
    if zp != 0 { assert(node_struct_ok(n0, root, g, zp)); }
    let zr = n0[z as int].right;
    assert(node_struct_ok(n0, root, g, zr));
    if yp != z {
        lemma_contains_is_anc(n0, root, g, zr, y);
        let k = choose|k: nat| iter_parent(n0, y, k) == zr;
        assert(k > 0);
        assert(iter_parent(n0, yp, (k - 1) as nat) == zr);
        lemma_anc_interval(n0, root, g, yp, (k - 1) as nat);
        assert(pz < g.pos[yp] < g.hi[z]);
    }
    assert forall|m: usize| live(g2, m) implies #[trigger] len_node_ok(n1, g2, m) || m == y || is_anc(n1, start, m) by {
        if m != y {
            assert(live(g, m));
            assert(node_struct_ok(n0, root, g, m));
            assert(len_node_ok(n0, g, m));
            assert(n1[m as int].subtree_length == n0[m as int].subtree_length);
            assert(n1[m as int].left_subtree_length == n0[m as int].left_subtree_length);
            if g.lo[m] <= pz < g.hi[m] {
                lemma_contains_is_anc(n0, root, g, m, z);
                let k = choose|k: nat| iter_parent(n0, z, k) == m;
                lemma_anc_interval(n0, root, g, z, k);
                if yp == z {
                    assert(k > 0);
                    assert(iter_parent(n0, zp, (k - 1) as nat) == m);
                    if zp == 0 {
                        crate::shape::lemma_iter_parent_zero(n0, (k - 1) as nat);
                    }
                    lemma_anc_interval(n0, root, g, zp, (k - 1) as nat);
                    assert(g2.lo[m] <= g2.pos[zp] < g2.hi[m]);
                    lemma_contains_is_anc(n1, root2, g2, m, zp);
                } else {
                    assert(g2.lo[m] <= g2.pos[yp] < g2.hi[m]);
                    lemma_contains_is_anc(n1, root2, g2, m, yp);
                }
            } else if g.lo[m] <= pz + 1 < g.hi[m] {
                lemma_contains_is_anc(n0, root, g, m, y);
                let k = choose|k: nat| iter_parent(n0, y, k) == m;
                assert(k > 0);
                assert(iter_parent(n0, yp, (k - 1) as nat) == m);
                lemma_anc_interval(n0, root, g, yp, (k - 1) as nat);
                assert(node_struct_ok(n0, root, g, yp));
                assert(yp != z);
                assert(g2.lo[m] <= g2.pos[yp] < g2.hi[m]);
                lemma_contains_is_anc(n1, root2, g2, m, yp);
            }
        }
    }
    if yp != z {
        assert(g2.lo[y] <= g2.pos[yp] < g2.hi[y]);
        lemma_contains_is_anc(n1, root2, g2, y, yp);
    }
    crate::shape::lemma_sum_mono(n1, g2.ord, 0, 0, g2.ord.len() as int, g2.ord.len() as int);
}

/// Taking out `z` with at most one child `x`: a red `z` leaves the red-black rules intact,
/// a black one leaves one black missing on the paths through `x`.
#[verifier::rlimit(40)]
pub proof fn lemma_rm_colors_one(n0: Seq<Node>, n1: Seq<Node>, root: usize, g: Shape, bhf: usize, z: usize, x: usize)
    requires
        struct_ok(n0, root, g),
        colors_ok(n0, root, g, bhf),
        live(g, z),
        (n0[z as int].left == 0 && x == n0[z as int].right) || (n0[z as int].right == 0 && x == n0[z as int].left),
        n1 == transplanted(n0, z, x),
    ensures
        is_black(n0, z) ==> dfix_inv(n1, if n0[z as int].parent == 0 { x } else { root }, rm_shape(g, z, g.pos[z], 0, false), bhf, x),
        !is_black(n0, z) ==> colors_ok(n1, if n0[z as int].parent == 0 { x } else { root }, rm_shape(g, z, g.pos[z], 0, false), bhf),
{
    let pz = g.pos[z];
    let g2 = rm_shape(g, z, pz, 0, false);
    let zp = n0[z as int].parent;
    let root2 = if zp == 0 { x } else { root };
    lemma_rm_struct_one(n0, n1, root, g, z, x);
    assert(node_struct_ok(n0, root, g, z));
    assert(bh_node_ok(n0, g, z));
    assert(red_node_ok(n0, z));
    if zp != 0 {
        assert(node_struct_ok(n0, root, g, zp));
        assert(bh_node_ok(n0, g, zp));
        assert(red_node_ok(n0, zp));
        let ol = n0[zp as int].left;
        let or = n0[zp as int].right;
        if ol != 0 { assert(node_struct_ok(n0, root, g, ol)); }
        if or != 0 { assert(node_struct_ok(n0, root, g, or)); }
    }
    if x != 0 {
        assert(node_struct_ok(n0, root, g, x));
        assert(bh_node_ok(n0, g, x));
    }
    assert forall|n: usize| live(g2, n) && n != zp implies #[trigger] bh_node_ok(n1, g2, n) by {
        assert(node_struct_ok(n0, root, g, n));
        assert(bh_node_ok(n0, g, n));
    }
    assert forall|n: usize| live(g2, n) && n != zp implies #[trigger] red_node_ok(n1, n) by {
        assert(node_struct_ok(n0, root, g, n));
        assert(red_node_ok(n0, n));
    }
    if !is_black(n0, z) {
        assert(x == 0);
        assert(zp != 0);
        assert(bh_node_ok(n1, g2, zp));
        assert(red_node_ok(n1, zp));
    } else {
        if zp != 0 {
            assert(sibling(n1, zp, x) == (if n0[zp as int].left == z { n0[zp as int].right } else { n0[zp as int].left }));
        }
    }
}

/// Taking out `z` with two children through its successor `y`: a red `y` leaves the
/// red-black rules intact, a black one leaves one black missing on the paths through the
/// right child of `y`.
#[verifier::rlimit(80)]
pub proof fn lemma_rm_colors_two(n0: Seq<Node>, n1: Seq<Node>, root: usize, g: Shape, bhf: usize, z: usize, y: usize)
    requires
        two_case(n0, root, g, z, y),
        colors_ok(n0, root, g, bhf),
        n1 == rm_two_links(n0, z, y),
    ensures
        is_black(n0, y) ==> dfix_inv(n1, if n0[z as int].parent == 0 { y } else { root },
            rm_shape(g, z, g.pos[z], y, true), bhf, n0[y as int].right),
        !is_black(n0, y) ==> colors_ok(n1, if n0[z as int].parent == 0 { y } else { root },
            rm_shape(g, z, g.pos[z], y, true), bhf),
{
    let pz = g.pos[z];
    let g2 = rm_shape(g, z, pz, y, true);
    let zp = n0[z as int].parent;
    let root2 = if zp == 0 { y } else { root };
    let x = n0[y as int].right;
    let yp = n0[y as int].parent;
    let zl = n0[z as int].left;
    let zr = n0[z as int].right;
    let xp = if yp == z { y } else { yp };
    lemma_rm_struct_two(n0, n1, root, g, z, y);
    lemma_two_distinct(n0, root, g, z, y);
    lemma_rm_two_fields(n0, z, y);
    assert(node_struct_ok(n0, root, g, z));
    assert(bh_node_ok(n0, g, z));
    assert(red_node_ok(n0, z));
    assert(node_struct_ok(n0, root, g, y));
    assert(bh_node_ok(n0, g, y));
    assert(red_node_ok(n0, y));
    assert(node_struct_ok(n0, root, g, yp));
    assert(bh_node_ok(n0, g, yp));
    assert(red_node_ok(n0, yp));
    assert(node_struct_ok(n0, root, g, zl));
    assert(node_struct_ok(n0, root, g, zr));
    assert(bh_node_ok(n0, g, zr));
    if zp != 0 {
        assert(node_struct_ok(n0, root, g, zp));
        assert(bh_node_ok(n0, g, zp));
        assert(red_node_ok(n0, zp));
    }
    let ypr = n0[yp as int].right;
    if ypr != 0 {
        assert(node_struct_ok(n0, root, g, ypr));
    }
    if x != 0 {
        assert(node_struct_ok(n0, root, g, x));
        assert(bh_node_ok(n0, g, x));
    }
    assert(node_struct_ok(n1, root2, g2, y));
    assert(node_struct_ok(n1, root2, g2, xp));
    assert forall|n: usize| live(g2, n) && n != xp implies #[trigger] bh_node_ok(n1, g2, n) by {
        assert(node_struct_ok(n0, root, g, n));
        if n != y {
            assert(bh_node_ok(n0, g, n));
        }
    }
    assert forall|n: usize| live(g2, n) && n != xp && n != x implies #[trigger] red_node_ok(n1, n) by {
        assert(node_struct_ok(n0, root, g, n));
        if n != y {
            assert(red_node_ok(n0, n));
        }
    }
    if !is_black(n0, y) {
        assert(x == 0);
        assert(bh_node_ok(n1, g2, xp));
        assert(red_node_ok(n1, xp));
    } else {
        assert(sibling(n1, xp, x) == (if yp == z { zl } else { ypr }));
    }
    if zp == 0 {
        assert(z == root);
    } else {
        assert(root != y && root != z);
    }
}

/// Clearing the links and cached lengths of the sentinel keeps every rule of the tree.
pub proof fn lemma_reset_nil(n1: Seq<Node>, n2: Seq<Node>, root: usize, g: Shape, bhf: usize)
    requires
        struct_ok(n1, root, g),
        n2 == n1.update(0, Node { parent: 0, left: 0, right: 0, subtree_length: 0, left_subtree_length: 0, ..n1[0] }),
    ensures
        struct_ok(n2, root, g),
        lengths_ok(n1, g) ==> lengths_ok(n2, g),
        total_fits(n1, g) ==> total_fits(n2, g),
        colors_ok(n1, root, g, bhf) ==> colors_ok(n2, root, g, bhf),
        same_pieces(n1, n2),
{
    assert(crate::shape::same_piece_lengths(n1, n2));
    crate::shape::lemma_same_lengths_sums(n1, n2, g);
    assert forall|n: usize| live(g, n) implies #[trigger] node_struct_ok(n2, root, g, n) by {
        assert(node_struct_ok(n1, root, g, n));
    }
    if lengths_ok(n1, g) {
        assert forall|n: usize| live(g, n) implies #[trigger] len_node_ok(n2, g, n) by {
            assert(len_node_ok(n1, g, n));
            assert(node_struct_ok(n1, root, g, n));
        }
    }
    if colors_ok(n1, root, g, bhf) {
        assert forall|n: usize| live(g, n) implies #[trigger] bh_node_ok(n2, g, n) by {
            assert(bh_node_ok(n1, g, n));
            assert(node_struct_ok(n1, root, g, n));
        }
        assert forall|n: usize| live(g, n) implies #[trigger] red_node_ok(n2, n) by {
            assert(red_node_ok(n1, n));
            assert(node_struct_ok(n1, root, g, n));
        }
    }
}

impl RedBlackTree {
    /// Recomputes the cached lengths after the successor `y` was moved up: first above the
    /// slot where it was detached (when that was below `z`), then from `y` upwards.
    fn fix_lengths_after_two(&self, nodes: &mut Vec<Node>, y: usize, far: bool, yp: usize, Ghost(zp): Ghost<usize>)
        requires
            struct_ok(old(nodes)@, self.root_node, self.shape@),
            total_fits(old(nodes)@, self.shape@),
            live(self.shape@, y),
            far ==> live(self.shape@, yp) && is_anc(old(nodes)@, yp, y),
            !far ==> old(nodes)@[y as int].parent == zp,
            forall|m: usize| live(self.shape@, m) ==> #[trigger] len_node_ok(old(nodes)@, self.shape@, m) || m == y
                || is_anc(old(nodes)@, if far { yp } else { zp }, m),
        ensures
            same_links(old(nodes)@, final(nodes)@),
            final(nodes)@[0] == old(nodes)@[0],
            struct_ok(final(nodes)@, self.root_node, self.shape@),
            lengths_ok(final(nodes)@, self.shape@),
            total_fits(final(nodes)@, self.shape@),
    {
        let ghost n0 = nodes@;
        let ghost g = self.shape@;
        if far {
            proof {
                assert forall|m: usize| live(g, m) implies #[trigger] len_node_ok(n0, g, m) || is_anc(n0, yp, m) by {
                }
            }
            Self::update_ancestors(nodes, yp, Ghost(self.root_node), Ghost(g));
        } else {
            proof {
                assert forall|m: usize| live(g, m) implies #[trigger] len_node_ok(n0, g, m) || is_anc(n0, y, m) by {
                    if m == y {
                        assert(iter_parent(n0, y, 0) == y);
                    } else if !len_node_ok(n0, g, m) {
                        let k = choose|k: nat| iter_parent(n0, zp, k) == m;
                        assert(iter_parent(n0, y, k + 1) == iter_parent(n0, zp, k));
                    }
                }
            }
        }
        let ghost n1 = nodes@;
        proof {
            assert forall|m: usize| live(g, m) implies #[trigger] len_node_ok(n1, g, m) || is_anc(n1, y, m) by {
                if !far {
                    assert(n1 == n0);
                }
            }
        }
        Self::update_ancestors(nodes, y, Ghost(self.root_node), Ghost(g));
        proof {
            assert forall|i: int| 0 <= i < n0.len() implies #[trigger] nodes@[i] == (Node {
                subtree_length: nodes@[i].subtree_length,
                left_subtree_length: nodes@[i].left_subtree_length,
                ..n0[i]
            }) by {
                assert(nodes@[i] == (Node { subtree_length: nodes@[i].subtree_length, left_subtree_length: nodes@[i].left_subtree_length, ..n1[i] }));
                assert(n1[i] == (Node { subtree_length: n1[i].subtree_length, left_subtree_length: n1[i].left_subtree_length, ..n0[i] }));
            }
        }
    }

    /// Takes out `z`, which has at most one child; returns that child and whether a black
    /// slot left the tree.
    fn remove_one(&mut self, nodes: &mut Vec<Node>, z: usize) -> (r: (usize, bool))
        requires
            struct_ok(old(nodes)@, old(self).root_node, old(self).shape@),
            lengths_ok(old(nodes)@, old(self).shape@),
            total_fits(old(nodes)@, old(self).shape@),
            colors_ok(old(nodes)@, old(self).root_node, old(self).shape@, old(self).black_height),
            live(old(self).shape@, z),
            old(nodes)@[z as int].left == 0 || old(nodes)@[z as int].right == 0,
        ensures
            struct_ok(final(nodes)@, final(self).root_node, final(self).shape@),
            lengths_ok(final(nodes)@, final(self).shape@),
            total_fits(final(nodes)@, final(self).shape@),
            final(self).shape@.ord == old(self).shape@.ord.remove(old(self).shape@.pos[z]),
            same_pieces(old(nodes)@, final(nodes)@),
            final(self).black_height == old(self).black_height,
            r.0 < final(nodes)@.len(),
            r.1 ==> dfix_inv(final(nodes)@, final(self).root_node, final(self).shape@, final(self).black_height, r.0),
            !r.1 ==> colors_ok(final(nodes)@, final(self).root_node, final(self).shape@, final(self).black_height),
    {
        let ghost n0 = nodes@;
        let ghost g0 = self.shape@;
        let ghost root0 = self.root_node;
        let ghost bhf = self.black_height;
        let ghost pz = g0.pos[z];
        proof {
            assert(node_struct_ok(n0, root0, g0, z));
        }
        let zl = nodes[z].left;
        let x = if zl == 0 { nodes[z].right } else { zl };
        let y_black = nodes[z].color == Color::Black;
        let parent = nodes[z].parent;
        self.transplant(nodes, z, x);
        let ghost n1 = nodes@;
        let ghost g1 = rm_shape(g0, z, pz, 0, false);
        self.shape = Ghost(g1);
        proof {
            lemma_rm_struct_one(n0, n1, root0, g0, z, x);
            lemma_rm_len_one(n0, n1, root0, g0, z, x);
            lemma_rm_colors_one(n0, n1, root0, g0, bhf, z, x);
            if parent != 0 {
                assert(node_struct_ok(n0, root0, g0, parent));
            }
        }
        Self::update_ancestors(nodes, parent, Ghost(self.root_node), Ghost(g1));
        proof {
            lemma_colors_same_links(n1, nodes@, self.root_node, g1, bhf, x);
            assert(same_pieces(n0, nodes@));
        }
        (x, y_black)
    }

    /// Takes out `z`, which has two children, by moving its successor into its place;
    /// returns the slot that took the successor's place and whether a black slot left the tree.
    #[verifier::rlimit(60)]
    fn remove_two(&mut self, nodes: &mut Vec<Node>, z: usize) -> (r: (usize, bool))
        requires
            struct_ok(old(nodes)@, old(self).root_node, old(self).shape@),
            lengths_ok(old(nodes)@, old(self).shape@),
            total_fits(old(nodes)@, old(self).shape@),
            colors_ok(old(nodes)@, old(self).root_node, old(self).shape@, old(self).black_height),
            live(old(self).shape@, z),
            old(nodes)@[z as int].left != 0,
            old(nodes)@[z as int].right != 0,
        ensures
            struct_ok(final(nodes)@, final(self).root_node, final(self).shape@),
            lengths_ok(final(nodes)@, final(self).shape@),
            total_fits(final(nodes)@, final(self).shape@),
            final(self).shape@.ord == old(self).shape@.ord.remove(old(self).shape@.pos[z]),
            same_pieces(old(nodes)@, final(nodes)@),
            final(self).black_height == old(self).black_height,
            r.0 < final(nodes)@.len(),
            r.1 ==> dfix_inv(final(nodes)@, final(self).root_node, final(self).shape@, final(self).black_height, r.0),
            !r.1 ==> colors_ok(final(nodes)@, final(self).root_node, final(self).shape@, final(self).black_height),
    {
        let ghost n0 = nodes@;
        let ghost g0 = self.shape@;
        let ghost root0 = self.root_node;
        let ghost bhf = self.black_height;
        let ghost pz = g0.pos[z];
        proof {
            assert(node_struct_ok(n0, root0, g0, z));
        }
        let zr = nodes[z].right;
        let y = Self::minimum(nodes, zr, Ghost(root0), Ghost(g0));
        proof {
            assert(node_struct_ok(n0, root0, g0, zr));
            assert(two_case(n0, root0, g0, z, y));
            lemma_two_distinct(n0, root0, g0, z, y);
        }
        let y_black = nodes[y].color == Color::Black;
        let x = nodes[y].right;
        let y_parent = nodes[y].parent;
        if y_parent == z {
            nodes[x].parent = y;
        } else {
            self.transplant(nodes, y, x);
            let zr2 = nodes[z].right;
            nodes[y].right = zr2;
            nodes[zr2].parent = y;
        }
        self.transplant(nodes, z, y);
        let zl2 = nodes[z].left;
        nodes[y].left = zl2;
        nodes[zl2].parent = y;
        let zc = nodes[z].color;
        nodes[y].color = zc;
        let ghost n1 = nodes@;
        let ghost g1 = rm_shape(g0, z, pz, y, true);
        self.shape = Ghost(g1);
        proof {
            reveal(rm_two_links);
            assert(n1 == rm_two_links(n0, z, y));
            lemma_rm_struct_two(n0, n1, root0, g0, z, y);
            lemma_rm_len_two(n0, n1, root0, g0, z, y);
            lemma_rm_colors_two(n0, n1, root0, g0, bhf, z, y);
            lemma_rm_two_fields(n0, z, y);
            assert(node_struct_ok(n0, root0, g0, y));
            assert(y_parent == n0[y as int].parent);
            if y_parent != z {
                assert(live(g1, y_parent));
            }
            assert(same_pieces(n0, n1));
        }
        self.fix_lengths_after_two(nodes, y, y_parent != z, y_parent, Ghost(n0[z as int].parent));
        proof {
            lemma_colors_same_links(n1, nodes@, self.root_node, g1, bhf, x);
        }
        (x, y_black)
    }

    /// Takes the slot `z` out of the tree and restores every rule of the tree.
    pub(crate) fn delete_node(&mut self, nodes: &mut Vec<Node>, z: usize)
        requires
            struct_ok(old(nodes)@, old(self).root_node, old(self).shape@),
            lengths_ok(old(nodes)@, old(self).shape@),
            total_fits(old(nodes)@, old(self).shape@),
            colors_ok(old(nodes)@, old(self).root_node, old(self).shape@, old(self).black_height),
            live(old(self).shape@, z),
        ensures
            struct_ok(final(nodes)@, final(self).root_node, final(self).shape@),
            lengths_ok(final(nodes)@, final(self).shape@),
            total_fits(final(nodes)@, final(self).shape@),
            colors_ok(final(nodes)@, final(self).root_node, final(self).shape@, final(self).black_height),
            final(self).shape@.ord == old(self).shape@.ord.remove(old(self).shape@.pos[z]),
            same_pieces(old(nodes)@, final(nodes)@),
            final(nodes)@[0].parent == 0,
            final(self).black_height == old(self).black_height || final(self).black_height + 1 == old(self).black_height,
    {
        proof {
            assert(node_struct_ok(nodes@, self.root_node, self.shape@, z));
            let g = self.shape@;
            let rt = self.root_node;
            if g.ord.len() == 1 {
                assert(node_struct_ok(nodes@, rt, g, rt));
                assert(bh_node_ok(nodes@, g, rt));
                assert(old(self).black_height == 1);
            }
        }
        let r = if nodes[z].left == 0 || nodes[z].right == 0 {
            self.remove_one(nodes, z)
        } else {
            self.remove_two(nodes, z)
        };
        let x = r.0;
        if r.1 {
            self.delete_fix(nodes, x);
        }
        let ghost n5 = nodes@;
        nodes[0].parent = 0;
        nodes[0].left = 0;
        nodes[0].right = 0;
        nodes[0].subtree_length = 0;
        nodes[0].left_subtree_length = 0;
        proof {
            assert(nodes@ =~= n5.update(0, Node { parent: 0, left: 0, right: 0, subtree_length: 0, left_subtree_length: 0, ..n5[0] }));
            lemma_reset_nil(n5, nodes@, self.root_node, self.shape@,
                if self.root_node == 0 { 0 } else { self.black_height });
        }
        if self.root_node == 0 {
            self.black_height = 0;
        }
    }
}

} // verus!
