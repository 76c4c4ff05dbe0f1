use vstd::prelude::*;
use crate::node::{Node, Color};
use crate::shape::{Shape, live, bhv, is_black, black_count, node_struct_ok, struct_ok, bh_node_ok,
    red_node_ok, colors_ok, same_but_colors, lengths_ok, total_fits, same_pieces, frame_outside,
    lemma_recolor, lemma_shape_same_intervals, same_links};
use crate::rbtree::RedBlackTree;
use crate::rotate::{left_rot_links, right_rot_links, left_rot_shape, right_rot_shape};

verus! {

/// The other child of `p`, next to `x`.
pub open spec fn sibling(nodes: Seq<Node>, p: usize, x: usize) -> usize {
    if nodes[p as int].left == x {
        nodes[p as int].right
    } else {
        nodes[p as int].left
    }
}

/// Number of slots in the subtree under `x` (none under NIL).
pub open spec fn xsize(g: Shape, x: usize) -> int {
    if x == 0 {
        0
    } else {
        g.hi[x] - g.lo[x]
    }
}

/// The red-black rules while a black slot is missing on the paths through `x`.
///
/// `x` (possibly NIL, whose parent link then names its parent) lacks one black node
/// against its sibling; the recorded black height of its parent still counts it, so every
/// other slot keeps its rules. `x` and its parent may break the red rule (fixed by making
/// `x` black), and the root may be red only when it is `x`.
pub open spec fn dfix_inv(nodes: Seq<Node>, root: usize, g: Shape, bhf: usize, x: usize) -> bool {
    let xp = nodes[x as int].parent;
    let w = sibling(nodes, xp, x);
    &&& x == 0 || live(g, x)
    &&& (xp == 0 <==> x == root)
    &&& xp != 0 ==> live(g, xp) && (nodes[xp as int].left == x || nodes[xp as int].right == x)
    &&& xp != 0 ==> bhv(g, w) == bhv(g, x) + 1 && g.bh[xp] == bhv(g, w) + black_count(nodes, xp)
    &&& xp != 0 && !is_black(nodes, xp) ==> is_black(nodes, w)
    &&& forall|n: usize| live(g, n) && n != xp ==> #[trigger] bh_node_ok(nodes, g, n)
    &&& forall|n: usize| live(g, n) && n != xp && n != x ==> #[trigger] red_node_ok(nodes, n)
    &&& is_black(nodes, root) || x == root
    &&& x != root ==> bhf == bhv(g, root)
    &&& x == root && x != 0 ==> bhf == bhv(g, root) + (if is_black(nodes, x) { 0nat } else { 1nat })
}

/// Sibling black with black children: it turns red and the missing black moves up to the parent.
pub proof fn lemma_dfix_push_up(n1: Seq<Node>, n2: Seq<Node>, root: usize, g: Shape, bhf: usize, x: usize)
    requires
        struct_ok(n1, root, g),
        dfix_inv(n1, root, g, bhf, x),
        x != root,
        is_black(n1, x),
        is_black(n1, sibling(n1, n1[x as int].parent, x)),
        is_black(n1, n1[sibling(n1, n1[x as int].parent, x) as int].left),
        is_black(n1, n1[sibling(n1, n1[x as int].parent, x) as int].right),
        n2 == n1.update(
            sibling(n1, n1[x as int].parent, x) as int,
            Node { color: Color::Red, ..n1[sibling(n1, n1[x as int].parent, x) as int] },
        ),
    ensures
        ({
            let xp = n1[x as int].parent;
            let w = sibling(n1, xp, x);
            let g2 = Shape { bh: g.bh.insert(w, (g.bh[w] - 1) as nat).insert(xp, (g.bh[xp] - 1) as nat), ..g };
            &&& w != 0
            &&& g.bh[w] >= 1
            &&& xp == root ==> bhf >= 1
            &&& dfix_inv(n2, root, g2, if xp == root { (bhf - 1) as usize } else { bhf }, xp)
            &&& same_but_colors(n1, n2)
            &&& xsize(g, xp) > xsize(g, x)
        }),
{
    let xp = n1[x as int].parent;
    let w = sibling(n1, xp, x);
    let g2 = Shape { bh: g.bh.insert(w, (g.bh[w] - 1) as nat).insert(xp, (g.bh[xp] - 1) as nat), ..g };
    let xpp = n1[xp as int].parent;
    assert(node_struct_ok(n1, root, g, xp));
    assert(w != 0);
    assert(node_struct_ok(n1, root, g, w));
    assert(bh_node_ok(n1, g, w));
    if x != 0 {
        assert(node_struct_ok(n1, root, g, x));
    }
    assert(w != xp && x != xp && w != x);
    if xpp != 0 {
        assert(node_struct_ok(n1, root, g, xpp));
        assert(bh_node_ok(n1, g, xpp));
        assert(red_node_ok(n1, xpp));
    }
    assert(same_but_colors(n1, n2));
    assert forall|n: usize| live(g2, n) && n != xpp implies #[trigger] bh_node_ok(n2, g2, n) by {
        assert(node_struct_ok(n1, root, g, n));
        if n != xp {
            assert(bh_node_ok(n1, g, n));
        }
    }
    assert forall|n: usize| live(g2, n) && n != xpp && n != xp implies #[trigger] red_node_ok(n2, n) by {
        assert(node_struct_ok(n1, root, g, n));
        if n != x && n != w {
            assert(red_node_ok(n1, n));
        }
    }
    if xp == root {
        assert(bh_node_ok(n1, g, w));
    } else {
        assert(root != w);
    }
}

/// `x` reached the root or is red: painting it black restores every red-black rule.
pub proof fn lemma_dfix_finish(n1: Seq<Node>, n2: Seq<Node>, root: usize, g: Shape, bhf: usize, x: usize)
    requires
        struct_ok(n1, root, g),
        dfix_inv(n1, root, g, bhf, x),
        x == root || !is_black(n1, x),
        n2 == (if is_black(n1, x) { n1 } else { n1.update(x as int, Node { color: Color::Black, ..n1[x as int] }) }),
    ensures
        colors_ok(
            n2,
            root,
            if is_black(n1, x) { g } else { Shape { bh: g.bh.insert(x, g.bh[x] + 1), ..g } },
            if root == 0 { 0 } else { bhf },
        ),
        same_but_colors(n1, n2),
{
    let xp = n1[x as int].parent;
    let w = sibling(n1, xp, x);
    let g2 = if is_black(n1, x) { g } else { Shape { bh: g.bh.insert(x, g.bh[x] + 1), ..g } };
    assert(same_but_colors(n1, n2));
    if x != 0 {
        assert(node_struct_ok(n1, root, g, x));
    }
    if xp != 0 {
        assert(node_struct_ok(n1, root, g, xp));
        if w != 0 {
            assert(node_struct_ok(n1, root, g, w));
        }
    }
    if root == 0 {
        assert(g.ord.len() == 0);
        assert forall|n: usize| live(g2, n) implies #[trigger] bh_node_ok(n2, g2, n) by {
            assert(g.ord[g.pos[n]] == n);
        }
        assert forall|n: usize| live(g2, n) implies #[trigger] red_node_ok(n2, n) by {
            assert(g.ord[g.pos[n]] == n);
        }
    } else {
        assert forall|n: usize| live(g2, n) implies #[trigger] bh_node_ok(n2, g2, n) by {
            assert(node_struct_ok(n1, root, g, n));
            if n != xp {
                assert(bh_node_ok(n1, g, n));
            }
        }
        assert forall|n: usize| live(g2, n) implies #[trigger] red_node_ok(n2, n) by {
            assert(node_struct_ok(n1, root, g, n));
            if n != xp && n != x {
                assert(red_node_ok(n1, n));
            }
        }
    }
}

/// `x` on the left, red sibling: recolouring and rotating the parent left gives `x` a
/// black sibling, with the same missing black.
pub proof fn lemma_dfix_red_sibling_left(
    n1: Seq<Node>, n2: Seq<Node>, n3: Seq<Node>, root: usize, root3: usize, g: Shape, bhf: usize, x: usize,
)
    requires
        struct_ok(n1, root, g),
        dfix_inv(n1, root, g, bhf, x),
        x != root,
        is_black(n1, x),
        n1[n1[x as int].parent as int].left == x,
        !is_black(n1, n1[n1[x as int].parent as int].right),
        n2 == n1.update(n1[n1[x as int].parent as int].right as int,
            Node { color: Color::Black, ..n1[n1[n1[x as int].parent as int].right as int] }).update(
            n1[x as int].parent as int, Node { color: Color::Red, ..n1[n1[x as int].parent as int] }),
        left_rot_links(n2, n3, n1[x as int].parent),
        struct_ok(n3, root3, left_rot_shape(g, n1[x as int].parent, n1[n1[x as int].parent as int].right)),
        root3 == (if n1[n1[x as int].parent as int].parent == 0 { n1[n1[x as int].parent as int].right } else { root }),
    ensures
        ({
            let xp = n1[x as int].parent;
            let w = n1[xp as int].right;
            let g3 = Shape { bh: g.bh.insert(xp, g.bh[w]).insert(w, g.bh[xp]), ..left_rot_shape(g, xp, w) };
            &&& dfix_inv(n3, root3, g3, bhf, x)
            &&& n3[x as int].parent == xp
            &&& n3[xp as int].left == x
            &&& is_black(n3, n3[xp as int].right)
            &&& is_black(n3, x)
            &&& xsize(g3, x) == xsize(g, x)
        }),
{
    let xp = n1[x as int].parent;
    let w = n1[xp as int].right;
    let g2 = left_rot_shape(g, xp, w);
    let g3 = Shape { bh: g.bh.insert(xp, g.bh[w]).insert(w, g.bh[xp]), ..g2 };
    let xpp = n1[xp as int].parent;
    assert(node_struct_ok(n1, root, g, xp));
    assert(w != 0);
    assert(node_struct_ok(n1, root, g, w));
    assert(bh_node_ok(n1, g, w));
    assert(red_node_ok(n1, w));
    let wl = n1[w as int].left;
    let wr = n1[w as int].right;
    assert(wl != 0);
    assert(node_struct_ok(n1, root, g, wl));
    if wr != 0 {
        assert(node_struct_ok(n1, root, g, wr));
    }
    if x != 0 {
        assert(node_struct_ok(n1, root, g, x));
    }
    if xpp != 0 {
        assert(node_struct_ok(n1, root, g, xpp));
        assert(bh_node_ok(n1, g, xpp));
        assert(red_node_ok(n1, xpp));
    }
    assert forall|n: usize| live(g3, n) && n != xp implies #[trigger] bh_node_ok(n3, g3, n) by {
        assert(node_struct_ok(n1, root, g, n));
        assert(bh_node_ok(n1, g, n));
    }
    assert forall|n: usize| live(g3, n) && n != xp && n != x implies #[trigger] red_node_ok(n3, n) by {
        assert(node_struct_ok(n1, root, g, n));
        assert(red_node_ok(n1, n));
    }
    if root3 == root {
        assert(root != w && root != xp);
    }
}

/// `x` on the left, black sibling whose only red child is the near one: recolouring and
/// rotating the sibling right makes the far child of the new sibling red.
pub proof fn lemma_dfix_near_red_left(n1: Seq<Node>, n2: Seq<Node>, n3: Seq<Node>, root: usize, g: Shape, bhf: usize, x: usize)
    requires
        struct_ok(n1, root, g),
        dfix_inv(n1, root, g, bhf, x),
        x != root,
        is_black(n1, x),
        n1[n1[x as int].parent as int].left == x,
        is_black(n1, n1[n1[x as int].parent as int].right),
        is_black(n1, n1[n1[n1[x as int].parent as int].right as int].right),
        !is_black(n1, n1[n1[n1[x as int].parent as int].right as int].left),
        n2 == n1.update(n1[n1[n1[x as int].parent as int].right as int].left as int,
            Node { color: Color::Black, ..n1[n1[n1[n1[x as int].parent as int].right as int].left as int] }).update(
            n1[n1[x as int].parent as int].right as int,
            Node { color: Color::Red, ..n1[n1[n1[x as int].parent as int].right as int] }),
        right_rot_links(n2, n3, n1[n1[x as int].parent as int].right),
        struct_ok(n3, root, right_rot_shape(g, n1[n1[x as int].parent as int].right,
            n1[n1[n1[x as int].parent as int].right as int].left)),
    ensures
        ({
            let xp = n1[x as int].parent;
            let w = n1[xp as int].right;
            let wl = n1[w as int].left;
            let g3 = Shape { bh: g.bh.insert(w, g.bh[wl]).insert(wl, g.bh[w]), ..right_rot_shape(g, w, wl) };
            &&& dfix_inv(n3, root, g3, bhf, x)
            &&& n3[x as int].parent == xp
            &&& n3[xp as int].left == x
            &&& n3[xp as int].right == wl
            &&& is_black(n3, wl)
            &&& !is_black(n3, n3[wl as int].right)
            &&& xsize(g3, x) == xsize(g, x)
        }),
{
    let xp = n1[x as int].parent;
    let w = n1[xp as int].right;
    let wl = n1[w as int].left;
    let wr = n1[w as int].right;
    let g2 = right_rot_shape(g, w, wl);
    let g3 = Shape { bh: g.bh.insert(w, g.bh[wl]).insert(wl, g.bh[w]), ..g2 };
    assert(node_struct_ok(n1, root, g, xp));
    assert(w != 0);
    assert(node_struct_ok(n1, root, g, w));
    assert(bh_node_ok(n1, g, w));
    assert(wl != 0);
    assert(node_struct_ok(n1, root, g, wl));
    assert(bh_node_ok(n1, g, wl));
    assert(red_node_ok(n1, wl));
    let wll = n1[wl as int].left;
    let wlr = n1[wl as int].right;
    if wr != 0 {
        assert(node_struct_ok(n1, root, g, wr));
    }
    if wll != 0 {
        assert(node_struct_ok(n1, root, g, wll));
    }
    if wlr != 0 {
        assert(node_struct_ok(n1, root, g, wlr));
    }
    if x != 0 {
        assert(node_struct_ok(n1, root, g, x));
    }
    assert forall|n: usize| live(g3, n) && n != xp implies #[trigger] bh_node_ok(n3, g3, n) by {
        assert(node_struct_ok(n1, root, g, n));
        assert(bh_node_ok(n1, g, n));
    }
    assert forall|n: usize| live(g3, n) && n != xp && n != x implies #[trigger] red_node_ok(n3, n) by {
        assert(node_struct_ok(n1, root, g, n));
        assert(red_node_ok(n1, n));
    }
    assert(root != w && root != wl);
}

/// `x` on the left, black sibling with a red far child: recolouring and rotating the
/// parent left supplies the missing black and restores every red-black rule.
pub proof fn lemma_dfix_far_red_left(
    n1: Seq<Node>, n2: Seq<Node>, n3: Seq<Node>, root: usize, root3: usize, g: Shape, bhf: usize, x: usize,
)
    requires
        struct_ok(n1, root, g),
        dfix_inv(n1, root, g, bhf, x),
        x != root,
        is_black(n1, x),
        n1[n1[x as int].parent as int].left == x,
        is_black(n1, n1[n1[x as int].parent as int].right),
        !is_black(n1, n1[n1[n1[x as int].parent as int].right as int].right),
        n2 == n1.update(n1[n1[x as int].parent as int].right as int,
            Node { color: n1[n1[x as int].parent as int].color, ..n1[n1[n1[x as int].parent as int].right as int] }).update(
            n1[x as int].parent as int, Node { color: Color::Black, ..n1[n1[x as int].parent as int] }).update(
            n1[n1[n1[x as int].parent as int].right as int].right as int,
            Node { color: Color::Black, ..n1[n1[n1[n1[x as int].parent as int].right as int].right as int] }),
        left_rot_links(n2, n3, n1[x as int].parent),
        struct_ok(n3, root3, left_rot_shape(g, n1[x as int].parent, n1[n1[x as int].parent as int].right)),
        root3 == (if n1[n1[x as int].parent as int].parent == 0 { n1[n1[x as int].parent as int].right } else { root }),
    ensures
        ({
            let xp = n1[x as int].parent;
            let w = n1[xp as int].right;
            let wr = n1[w as int].right;
            let g3 = Shape {
                bh: g.bh.insert(wr, g.bh[wr] + 1).insert(xp, g.bh[w]).insert(w, g.bh[xp]),
                ..left_rot_shape(g, xp, w)
            };
            &&& dfix_inv(n3, root3, g3, bhf, root3)
            &&& is_black(n3, root3)
        }),
{
    let xp = n1[x as int].parent;
    let w = n1[xp as int].right;
    let wl = n1[w as int].left;
    let wr = n1[w as int].right;
    let g2 = left_rot_shape(g, xp, w);
    let g3 = Shape { bh: g.bh.insert(wr, g.bh[wr] + 1).insert(xp, g.bh[w]).insert(w, g.bh[xp]), ..g2 };
    let xpp = n1[xp as int].parent;
    assert(node_struct_ok(n1, root, g, xp));
    assert(w != 0);
    assert(node_struct_ok(n1, root, g, w));
    assert(bh_node_ok(n1, g, w));
    assert(wr != 0);
    assert(node_struct_ok(n1, root, g, wr));
    assert(bh_node_ok(n1, g, wr));
    if wl != 0 {
        assert(node_struct_ok(n1, root, g, wl));
    }
    if x != 0 {
        assert(node_struct_ok(n1, root, g, x));
    }
    if xpp != 0 {
        assert(node_struct_ok(n1, root, g, xpp));
        assert(bh_node_ok(n1, g, xpp));
        assert(red_node_ok(n1, xpp));
    }
    assert forall|n: usize| live(g3, n) implies #[trigger] bh_node_ok(n3, g3, n) by {
        assert(node_struct_ok(n1, root, g, n));
        if n != xp {
            assert(bh_node_ok(n1, g, n));
        }
    }
    assert forall|n: usize| live(g3, n) && n != root3 implies #[trigger] red_node_ok(n3, n) by {
        assert(node_struct_ok(n1, root, g, n));
        if n != xp && n != x {
            assert(red_node_ok(n1, n));
        }
    }
    assert(node_struct_ok(n3, root3, g2, root3));
    if root3 == root {
        assert(root != w && root != xp && root != wr);
        assert(is_black(n3, root3));
        assert(bhf == bhv(g3, root3));
    } else {
        assert(xp == root);
        assert(is_black(n3, root3));
        assert(bhf == bhv(g3, root3));
    }
    assert(n3[root3 as int].parent == 0);
}

/// `x` on the right, red sibling: recolouring and rotating the parent right gives `x` a
/// black sibling, with the same missing black.
pub proof fn lemma_dfix_red_sibling_right(
    n1: Seq<Node>, n2: Seq<Node>, n3: Seq<Node>, root: usize, root3: usize, g: Shape, bhf: usize, x: usize,
)
    requires
        struct_ok(n1, root, g),
        dfix_inv(n1, root, g, bhf, x),
        x != root,
        is_black(n1, x),
        n1[n1[x as int].parent as int].right == x,
        !is_black(n1, n1[n1[x as int].parent as int].left),
        n2 == n1.update(n1[n1[x as int].parent as int].left as int,
            Node { color: Color::Black, ..n1[n1[n1[x as int].parent as int].left as int] }).update(
            n1[x as int].parent as int, Node { color: Color::Red, ..n1[n1[x as int].parent as int] }),
        right_rot_links(n2, n3, n1[x as int].parent),
        struct_ok(n3, root3, right_rot_shape(g, n1[x as int].parent, n1[n1[x as int].parent as int].left)),
        root3 == (if n1[n1[x as int].parent as int].parent == 0 { n1[n1[x as int].parent as int].left } else { root }),
    ensures
        ({
            let xp = n1[x as int].parent;
            let w = n1[xp as int].left;
            let g3 = Shape { bh: g.bh.insert(xp, g.bh[w]).insert(w, g.bh[xp]), ..right_rot_shape(g, xp, w) };
            &&& dfix_inv(n3, root3, g3, bhf, x)
            &&& n3[x as int].parent == xp
            &&& n3[xp as int].right == x
            &&& is_black(n3, n3[xp as int].left)
            &&& is_black(n3, x)
            &&& xsize(g3, x) == xsize(g, x)
        }),
{
    let xp = n1[x as int].parent;
    let w = n1[xp as int].left;
    let g2 = right_rot_shape(g, xp, w);
    let g3 = Shape { bh: g.bh.insert(xp, g.bh[w]).insert(w, g.bh[xp]), ..g2 };
    let xpp = n1[xp as int].parent;
    assert(node_struct_ok(n1, root, g, xp));
    assert(w != 0);
    assert(node_struct_ok(n1, root, g, w));
    assert(bh_node_ok(n1, g, w));
    assert(red_node_ok(n1, w));
    let wl = n1[w as int].right;
    let wr = n1[w as int].left;
    assert(wl != 0);
    assert(node_struct_ok(n1, root, g, wl));
    if wr != 0 {
        assert(node_struct_ok(n1, root, g, wr));
    }
    if x != 0 {
        assert(node_struct_ok(n1, root, g, x));
    }
    if xpp != 0 {
        assert(node_struct_ok(n1, root, g, xpp));
        assert(bh_node_ok(n1, g, xpp));
        assert(red_node_ok(n1, xpp));
    }
    assert forall|n: usize| live(g3, n) && n != xp implies #[trigger] bh_node_ok(n3, g3, n) by {
        assert(node_struct_ok(n1, root, g, n));
        assert(bh_node_ok(n1, g, n));
    }
    assert forall|n: usize| live(g3, n) && n != xp && n != x implies #[trigger] red_node_ok(n3, n) by {
        assert(node_struct_ok(n1, root, g, n));
        assert(red_node_ok(n1, n));
    }
    if root3 == root {
        assert(root != w && root != xp);
    }
}

/// `x` on the right, black sibling whose only red child is the near one: recolouring and
/// rotating the sibling left makes the far child of the new sibling red.
pub proof fn lemma_dfix_near_red_right(n1: Seq<Node>, n2: Seq<Node>, n3: Seq<Node>, root: usize, g: Shape, bhf: usize, x: usize)
    requires
        struct_ok(n1, root, g),
        dfix_inv(n1, root, g, bhf, x),
        x != root,
        is_black(n1, x),
        n1[n1[x as int].parent as int].right == x,
        is_black(n1, n1[n1[x as int].parent as int].left),
        is_black(n1, n1[n1[n1[x as int].parent as int].left as int].left),
        !is_black(n1, n1[n1[n1[x as int].parent as int].left as int].right),
        n2 == n1.update(n1[n1[n1[x as int].parent as int].left as int].right as int,
            Node { color: Color::Black, ..n1[n1[n1[n1[x as int].parent as int].left as int].right as int] }).update(
            n1[n1[x as int].parent as int].left as int,
            Node { color: Color::Red, ..n1[n1[n1[x as int].parent as int].left as int] }),
        left_rot_links(n2, n3, n1[n1[x as int].parent as int].left),
        struct_ok(n3, root, left_rot_shape(g, n1[n1[x as int].parent as int].left,
            n1[n1[n1[x as int].parent as int].left as int].right)),
    ensures
        ({
            let xp = n1[x as int].parent;
            let w = n1[xp as int].left;
            let wl = n1[w as int].right;
            let g3 = Shape { bh: g.bh.insert(w, g.bh[wl]).insert(wl, g.bh[w]), ..left_rot_shape(g, w, wl) };
            &&& dfix_inv(n3, root, g3, bhf, x)
            &&& n3[x as int].parent == xp
            &&& n3[xp as int].right == x
            &&& n3[xp as int].left == wl
            &&& is_black(n3, wl)
            &&& !is_black(n3, n3[wl as int].left)
            &&& xsize(g3, x) == xsize(g, x)
        }),
{
    let xp = n1[x as int].parent;
    let w = n1[xp as int].left;
    let wl = n1[w as int].right;
    let wr = n1[w as int].left;
    let g2 = left_rot_shape(g, w, wl);
    let g3 = Shape { bh: g.bh.insert(w, g.bh[wl]).insert(wl, g.bh[w]), ..g2 };
    assert(node_struct_ok(n1, root, g, xp));
    assert(w != 0);
    assert(node_struct_ok(n1, root, g, w));
    assert(bh_node_ok(n1, g, w));
    assert(wl != 0);
    assert(node_struct_ok(n1, root, g, wl));
    assert(bh_node_ok(n1, g, wl));
    assert(red_node_ok(n1, wl));
    let wll = n1[wl as int].right;
    let wlr = n1[wl as int].left;
    if wr != 0 {
        assert(node_struct_ok(n1, root, g, wr));
    }
    if wll != 0 {
        assert(node_struct_ok(n1, root, g, wll));
    }
    if wlr != 0 {
        assert(node_struct_ok(n1, root, g, wlr));
    }
    if x != 0 {
        assert(node_struct_ok(n1, root, g, x));
    }
    assert forall|n: usize| live(g3, n) && n != xp implies #[trigger] bh_node_ok(n3, g3, n) by {
        assert(node_struct_ok(n1, root, g, n));
        assert(bh_node_ok(n1, g, n));
    }
    assert forall|n: usize| live(g3, n) && n != xp && n != x implies #[trigger] red_node_ok(n3, n) by {
        assert(node_struct_ok(n1, root, g, n));
        assert(red_node_ok(n1, n));
    }
    assert(root != w && root != wl);
}

/// `x` on the right, black sibling with a red far child: recolouring and rotating the
/// parent right supplies the missing black and restores every red-black rule.
pub proof fn lemma_dfix_far_red_right(
    n1: Seq<Node>, n2: Seq<Node>, n3: Seq<Node>, root: usize, root3: usize, g: Shape, bhf: usize, x: usize,
)
    requires
        struct_ok(n1, root, g),
        dfix_inv(n1, root, g, bhf, x),
        x != root,
        is_black(n1, x),
        n1[n1[x as int].parent as int].right == x,
        is_black(n1, n1[n1[x as int].parent as int].left),
        !is_black(n1, n1[n1[n1[x as int].parent as int].left as int].left),
        n2 == n1.update(n1[n1[x as int].parent as int].left as int,
            Node { color: n1[n1[x as int].parent as int].color, ..n1[n1[n1[x as int].parent as int].left as int] }).update(
            n1[x as int].parent as int, Node { color: Color::Black, ..n1[n1[x as int].parent as int] }).update(
            n1[n1[n1[x as int].parent as int].left as int].left as int,
            Node { color: Color::Black, ..n1[n1[n1[n1[x as int].parent as int].left as int].left as int] }),
        right_rot_links(n2, n3, n1[x as int].parent),
        struct_ok(n3, root3, right_rot_shape(g, n1[x as int].parent, n1[n1[x as int].parent as int].left)),
        root3 == (if n1[n1[x as int].parent as int].parent == 0 { n1[n1[x as int].parent as int].left } else { root }),
    ensures
        ({
            let xp = n1[x as int].parent;
            let w = n1[xp as int].left;
            let wr = n1[w as int].left;
            let g3 = Shape {
                bh: g.bh.insert(wr, g.bh[wr] + 1).insert(xp, g.bh[w]).insert(w, g.bh[xp]),
                ..right_rot_shape(g, xp, w)
            };
            &&& dfix_inv(n3, root3, g3, bhf, root3)
            &&& is_black(n3, root3)
        }),
{
    let xp = n1[x as int].parent;
    let w = n1[xp as int].left;
    let wl = n1[w as int].right;
    let wr = n1[w as int].left;
    let g2 = right_rot_shape(g, xp, w);
    let g3 = Shape { bh: g.bh.insert(wr, g.bh[wr] + 1).insert(xp, g.bh[w]).insert(w, g.bh[xp]), ..g2 };
    let xpp = n1[xp as int].parent;
    assert(node_struct_ok(n1, root, g, xp));
    assert(w != 0);
    assert(node_struct_ok(n1, root, g, w));
    assert(bh_node_ok(n1, g, w));
    assert(wr != 0);
    assert(node_struct_ok(n1, root, g, wr));
    assert(bh_node_ok(n1, g, wr));
    if wl != 0 {
        assert(node_struct_ok(n1, root, g, wl));
    }
    if x != 0 {
        assert(node_struct_ok(n1, root, g, x));
    }
    if xpp != 0 {
        assert(node_struct_ok(n1, root, g, xpp));
        assert(bh_node_ok(n1, g, xpp));
        assert(red_node_ok(n1, xpp));
    }
    assert forall|n: usize| live(g3, n) implies #[trigger] bh_node_ok(n3, g3, n) by {
        assert(node_struct_ok(n1, root, g, n));
        if n != xp {
            assert(bh_node_ok(n1, g, n));
        }
    }
    assert forall|n: usize| live(g3, n) && n != root3 implies #[trigger] red_node_ok(n3, n) by {
        assert(node_struct_ok(n1, root, g, n));
        if n != xp && n != x {
            assert(red_node_ok(n1, n));
        }
    }
    assert(node_struct_ok(n3, root3, g2, root3));
    if root3 == root {
        assert(root != w && root != xp && root != wr);
        assert(is_black(n3, root3));
        assert(bhf == bhv(g3, root3));
    } else {
        assert(xp == root);
        assert(is_black(n3, root3));
        assert(bhf == bhv(g3, root3));
    }
    assert(n3[root3 as int].parent == 0);
}

/// The colour rules read only links and colours, which recomputing cached lengths keeps.
pub proof fn lemma_colors_same_links(n1: Seq<Node>, n2: Seq<Node>, root: usize, g: Shape, bhf: usize, x: usize)
    requires
        struct_ok(n1, root, g),
        same_links(n1, n2),
        x < n1.len(),
    ensures
        dfix_inv(n1, root, g, bhf, x) ==> dfix_inv(n2, root, g, bhf, x),
        colors_ok(n1, root, g, bhf) ==> colors_ok(n2, root, g, bhf),
{
    assert(n2[x as int] == (Node { subtree_length: n2[x as int].subtree_length, left_subtree_length: n2[x as int].left_subtree_length, ..n1[x as int] }));
    assert(n2[root as int] == (Node { subtree_length: n2[root as int].subtree_length, left_subtree_length: n2[root as int].left_subtree_length, ..n1[root as int] }));
    assert(n2[0] == (Node { subtree_length: n2[0].subtree_length, left_subtree_length: n2[0].left_subtree_length, ..n1[0] }));
    let xp = n1[x as int].parent;
    if xp != 0 && live(g, xp) {
        assert(node_struct_ok(n1, root, g, xp));
        let w = sibling(n1, xp, x);
        assert(n2[xp as int] == (Node { subtree_length: n2[xp as int].subtree_length, left_subtree_length: n2[xp as int].left_subtree_length, ..n1[xp as int] }));
        assert(n2[w as int] == (Node { subtree_length: n2[w as int].subtree_length, left_subtree_length: n2[w as int].left_subtree_length, ..n1[w as int] }));
    }
    assert forall|n: usize| live(g, n) && bh_node_ok(n1, g, n) implies #[trigger] bh_node_ok(n2, g, n) by {
        assert(node_struct_ok(n1, root, g, n));
        let nd = n1[n as int];
        assert(n2[n as int] == (Node { subtree_length: n2[n as int].subtree_length, left_subtree_length: n2[n as int].left_subtree_length, ..n1[n as int] }));
    }
    assert forall|n: usize| live(g, n) && red_node_ok(n1, n) implies #[trigger] red_node_ok(n2, n) by {
        assert(node_struct_ok(n1, root, g, n));
        let nd = n1[n as int];
        assert(n2[n as int] == (Node { subtree_length: n2[n as int].subtree_length, left_subtree_length: n2[n as int].left_subtree_length, ..n1[n as int] }));
        assert(n2[nd.left as int] == (Node { subtree_length: n2[nd.left as int].subtree_length, left_subtree_length: n2[nd.left as int].left_subtree_length, ..n1[nd.left as int] }));
        assert(n2[nd.right as int] == (Node { subtree_length: n2[nd.right as int].subtree_length, left_subtree_length: n2[nd.right as int].left_subtree_length, ..n1[nd.right as int] }));
    }
}

impl RedBlackTree {
    /// Red sibling of the left child `x`: turns it into a black one.
    #[verifier::rlimit(40)]
    fn dfix_red_sibling_left(&mut self, nodes: &mut Vec<Node>, x: usize)
        requires
            struct_ok(old(nodes)@, old(self).root_node, old(self).shape@),
            lengths_ok(old(nodes)@, old(self).shape@),
            total_fits(old(nodes)@, old(self).shape@),
            dfix_inv(old(nodes)@, old(self).root_node, old(self).shape@, old(self).black_height, x),
            x != old(self).root_node,
            is_black(old(nodes)@, x),
            old(nodes)@[old(nodes)@[x as int].parent as int].left == x,
            !is_black(old(nodes)@, old(nodes)@[old(nodes)@[x as int].parent as int].right),
        ensures
            struct_ok(final(nodes)@, final(self).root_node, final(self).shape@),
            lengths_ok(final(nodes)@, final(self).shape@),
            total_fits(final(nodes)@, final(self).shape@),
            final(self).shape@.ord == old(self).shape@.ord,
            final(self).shape@.pos == old(self).shape@.pos,
            same_pieces(old(nodes)@, final(nodes)@),
            frame_outside(old(nodes)@, final(nodes)@, old(self).shape@),
            dfix_inv(final(nodes)@, final(self).root_node, final(self).shape@, final(self).black_height, x),
            final(self).black_height == old(self).black_height,
            final(nodes)@[x as int].parent == old(nodes)@[x as int].parent,
            final(nodes)@[old(nodes)@[x as int].parent as int].left == x,
            is_black(final(nodes)@, final(nodes)@[old(nodes)@[x as int].parent as int].right),
            is_black(final(nodes)@, x),
            xsize(final(self).shape@, x) == xsize(old(self).shape@, x),
    {
        let ghost n1 = nodes@;
        let ghost g1 = self.shape@;
        let ghost root1 = self.root_node;
        let ghost bhf = self.black_height;
        proof {
            let pp = n1[x as int].parent;
            assert(node_struct_ok(n1, root1, g1, pp));
            let ww = n1[pp as int].right;
            assert(ww != 0);
            assert(node_struct_ok(n1, root1, g1, ww));
        }
        let xp = nodes[x].parent;
        let w = nodes[xp].right;
        nodes[w].color = Color::Black;
        nodes[xp].color = Color::Red;
        let ghost n2 = nodes@;
        proof {
            assert(same_but_colors(n1, n2));
            lemma_recolor(n1, n2, root1, g1);
        }
        self.left_rotate(nodes, xp);
        proof {
            lemma_dfix_red_sibling_left(n1, n2, nodes@, root1, self.root_node, g1, bhf, x);
        }
        let ghost g2 = self.shape@;
        self.shape = Ghost(Shape { bh: g1.bh.insert(xp, g1.bh[w]).insert(w, g1.bh[xp]), ..g2 });
        proof {
            lemma_shape_same_intervals(nodes@, self.root_node, g2, self.shape@);
        }
    }

    /// Black sibling of the left child `x` with a red child: rotations supply the missing
    /// black, and the repair is complete.
    #[verifier::rlimit(60)]
    fn dfix_rotate_left(&mut self, nodes: &mut Vec<Node>, x: usize)
        requires
            struct_ok(old(nodes)@, old(self).root_node, old(self).shape@),
            lengths_ok(old(nodes)@, old(self).shape@),
            total_fits(old(nodes)@, old(self).shape@),
            dfix_inv(old(nodes)@, old(self).root_node, old(self).shape@, old(self).black_height, x),
            x != old(self).root_node,
            is_black(old(nodes)@, x),
            old(nodes)@[old(nodes)@[x as int].parent as int].left == x,
            is_black(old(nodes)@, old(nodes)@[old(nodes)@[x as int].parent as int].right),
            !is_black(old(nodes)@, old(nodes)@[old(nodes)@[old(nodes)@[x as int].parent as int].right as int].left)
                || !is_black(old(nodes)@, old(nodes)@[old(nodes)@[old(nodes)@[x as int].parent as int].right as int].right),
        ensures
            struct_ok(final(nodes)@, final(self).root_node, final(self).shape@),
            lengths_ok(final(nodes)@, final(self).shape@),
            total_fits(final(nodes)@, final(self).shape@),
            final(self).shape@.ord == old(self).shape@.ord,
            final(self).shape@.pos == old(self).shape@.pos,
            same_pieces(old(nodes)@, final(nodes)@),
            frame_outside(old(nodes)@, final(nodes)@, old(self).shape@),
            dfix_inv(final(nodes)@, final(self).root_node, final(self).shape@, final(self).black_height, final(self).root_node),
            final(self).root_node < final(nodes)@.len(),
            final(self).black_height == old(self).black_height,
    {
        let ghost n4 = nodes@;
        let ghost g4 = self.shape@;
        let ghost root4 = self.root_node;
        let ghost bhf = self.black_height;
        proof {
            let pp = n4[x as int].parent;
            assert(node_struct_ok(n4, root4, g4, pp));
            let ww = n4[pp as int].right;
            assert(ww != 0);
            assert(node_struct_ok(n4, root4, g4, ww));
        }
        let xp = nodes[x].parent;
        let mut w = nodes[xp].right;
        let wl = nodes[w].left;
        let wr = nodes[w].right;
        if nodes[wr].color == Color::Black {
            nodes[wl].color = Color::Black;
            nodes[w].color = Color::Red;
            let ghost n5 = nodes@;
            proof {
                assert(same_but_colors(n4, n5));
                lemma_recolor(n4, n5, root4, g4);
            }
            self.right_rotate(nodes, w);
            proof {
                lemma_dfix_near_red_left(n4, n5, nodes@, root4, g4, bhf, x);
            }
            let ghost g5 = self.shape@;
            self.shape = Ghost(Shape { bh: g4.bh.insert(w, g4.bh[wl]).insert(wl, g4.bh[w]), ..g5 });
            proof {
                lemma_shape_same_intervals(nodes@, self.root_node, g5, self.shape@);
            }
            w = nodes[xp].right;
        }
        let ghost n6 = nodes@;
        let ghost g6 = self.shape@;
        let ghost root6 = self.root_node;
        proof {
            assert(node_struct_ok(n6, root6, g6, xp));
            assert(node_struct_ok(n6, root6, g6, w));
        }
        let xpc = nodes[xp].color;
        nodes[w].color = xpc;
        nodes[xp].color = Color::Black;
        let far = nodes[w].right;
        nodes[far].color = Color::Black;
        let ghost n7 = nodes@;
        proof {
            assert(same_but_colors(n6, n7));
            lemma_recolor(n6, n7, root6, g6);
        }
        self.left_rotate(nodes, xp);
        proof {
            lemma_dfix_far_red_left(n6, n7, nodes@, root6, self.root_node, g6, bhf, x);
        }
        let ghost g7 = self.shape@;
        self.shape = Ghost(Shape { bh: g6.bh.insert(far, g6.bh[far] + 1).insert(xp, g6.bh[w]).insert(w, g6.bh[xp]), ..g7 });
        proof {
            lemma_shape_same_intervals(nodes@, self.root_node, g7, self.shape@);
            assert(node_struct_ok(nodes@, self.root_node, self.shape@, self.root_node));
        }
    }

    /// One step of the repair when `x` is a left child: returns the new `x`, and whether
    /// the repair is complete.
    fn delete_fix_left(&mut self, nodes: &mut Vec<Node>, x: usize) -> (r: (usize, bool))
        requires
            struct_ok(old(nodes)@, old(self).root_node, old(self).shape@),
            lengths_ok(old(nodes)@, old(self).shape@),
            total_fits(old(nodes)@, old(self).shape@),
            dfix_inv(old(nodes)@, old(self).root_node, old(self).shape@, old(self).black_height, x),
            x != old(self).root_node,
            is_black(old(nodes)@, x),
            old(nodes)@[old(nodes)@[x as int].parent as int].left == x,
        ensures
            struct_ok(final(nodes)@, final(self).root_node, final(self).shape@),
            lengths_ok(final(nodes)@, final(self).shape@),
            total_fits(final(nodes)@, final(self).shape@),
            final(self).shape@.ord == old(self).shape@.ord,
            final(self).shape@.pos == old(self).shape@.pos,
            same_pieces(old(nodes)@, final(nodes)@),
            frame_outside(old(nodes)@, final(nodes)@, old(self).shape@),
            dfix_inv(final(nodes)@, final(self).root_node, final(self).shape@, final(self).black_height, r.0),
            r.0 < final(nodes)@.len(),
            r.1 ==> r.0 == final(self).root_node,
            !r.1 ==> xsize(final(self).shape@, r.0) > xsize(old(self).shape@, x),
            final(self).black_height == old(self).black_height || (final(self).black_height + 1 == old(self).black_height
                && r.0 == final(self).root_node),
    {
        let ghost n1 = nodes@;
        let ghost g1 = self.shape@;
        let ghost root1 = self.root_node;
        proof {
            let pp = n1[x as int].parent;
            assert(node_struct_ok(n1, root1, g1, pp));
            let ww = n1[pp as int].right;
            assert(ww != 0);
            assert(node_struct_ok(n1, root1, g1, ww));
        }
        let xp = nodes[x].parent;
        let w0 = nodes[xp].right;
        if nodes[w0].color == Color::Red {
            self.dfix_red_sibling_left(nodes, x);
        }
        let ghost n4 = nodes@;
        let ghost g4 = self.shape@;
        let ghost root4 = self.root_node;
        let ghost bhf = self.black_height;
        proof {
            assert(node_struct_ok(n4, root4, g4, xp));
            assert(node_struct_ok(n4, root4, g4, n4[xp as int].right));
        }
        let w = nodes[xp].right;
        let wl = nodes[w].left;
        let wr = nodes[w].right;
        if nodes[wl].color == Color::Black && nodes[wr].color == Color::Black {
            nodes[w].color = Color::Red;
            proof {
                lemma_dfix_push_up(n4, nodes@, root4, g4, bhf, x);
                lemma_recolor(n4, nodes@, root4, g4);
            }
            self.shape = Ghost(Shape { bh: g4.bh.insert(w, (g4.bh[w] - 1) as nat).insert(xp, (g4.bh[xp] - 1) as nat), ..g4 });
            proof {
                lemma_shape_same_intervals(nodes@, root4, g4, self.shape@);
            }
            if xp == self.root_node {
                self.black_height = self.black_height - 1;
            }
            (xp, false)
        } else {
            self.dfix_rotate_left(nodes, x);
            (self.root_node, true)
        }
    }

    /// Red sibling of the right child `x`: turns it into a black one.
    #[verifier::rlimit(40)]
    fn dfix_red_sibling_right(&mut self, nodes: &mut Vec<Node>, x: usize)
        requires
            struct_ok(old(nodes)@, old(self).root_node, old(self).shape@),
            lengths_ok(old(nodes)@, old(self).shape@),
            total_fits(old(nodes)@, old(self).shape@),
            dfix_inv(old(nodes)@, old(self).root_node, old(self).shape@, old(self).black_height, x),
            x != old(self).root_node,
            is_black(old(nodes)@, x),
            old(nodes)@[old(nodes)@[x as int].parent as int].right == x,
            !is_black(old(nodes)@, old(nodes)@[old(nodes)@[x as int].parent as int].left),
        ensures
            struct_ok(final(nodes)@, final(self).root_node, final(self).shape@),
            lengths_ok(final(nodes)@, final(self).shape@),
            total_fits(final(nodes)@, final(self).shape@),
            final(self).shape@.ord == old(self).shape@.ord,
            final(self).shape@.pos == old(self).shape@.pos,
            same_pieces(old(nodes)@, final(nodes)@),
            frame_outside(old(nodes)@, final(nodes)@, old(self).shape@),
            dfix_inv(final(nodes)@, final(self).root_node, final(self).shape@, final(self).black_height, x),
            final(self).black_height == old(self).black_height,
            final(nodes)@[x as int].parent == old(nodes)@[x as int].parent,
            final(nodes)@[old(nodes)@[x as int].parent as int].right == x,
            is_black(final(nodes)@, final(nodes)@[old(nodes)@[x as int].parent as int].left),
            is_black(final(nodes)@, x),
            xsize(final(self).shape@, x) == xsize(old(self).shape@, x),
    {
        let ghost n1 = nodes@;
        let ghost g1 = self.shape@;
        let ghost root1 = self.root_node;
        let ghost bhf = self.black_height;
        proof {
            let pp = n1[x as int].parent;
            assert(node_struct_ok(n1, root1, g1, pp));
            let ww = n1[pp as int].left;
            assert(ww != 0);
            assert(node_struct_ok(n1, root1, g1, ww));
        }
        let xp = nodes[x].parent;
        let w = nodes[xp].left;
        nodes[w].color = Color::Black;
        nodes[xp].color = Color::Red;
        let ghost n2 = nodes@;
        proof {
            assert(same_but_colors(n1, n2));
            lemma_recolor(n1, n2, root1, g1);
        }
        self.right_rotate(nodes, xp);
        proof {
            lemma_dfix_red_sibling_right(n1, n2, nodes@, root1, self.root_node, g1, bhf, x);
        }
        let ghost g2 = self.shape@;
        self.shape = Ghost(Shape { bh: g1.bh.insert(xp, g1.bh[w]).insert(w, g1.bh[xp]), ..g2 });
        proof {
            lemma_shape_same_intervals(nodes@, self.root_node, g2, self.shape@);
        }
    }

    /// Black sibling of the right child `x` with a red child: rotations supply the missing
    /// black, and the repair is complete.
    #[verifier::rlimit(60)]
    fn dfix_rotate_right(&mut self, nodes: &mut Vec<Node>, x: usize)
        requires
            struct_ok(old(nodes)@, old(self).root_node, old(self).shape@),
            lengths_ok(old(nodes)@, old(self).shape@),
            total_fits(old(nodes)@, old(self).shape@),
            dfix_inv(old(nodes)@, old(self).root_node, old(self).shape@, old(self).black_height, x),
            x != old(self).root_node,
            is_black(old(nodes)@, x),
            old(nodes)@[old(nodes)@[x as int].parent as int].right == x,
            is_black(old(nodes)@, old(nodes)@[old(nodes)@[x as int].parent as int].left),
            !is_black(old(nodes)@, old(nodes)@[old(nodes)@[old(nodes)@[x as int].parent as int].left as int].right)
                || !is_black(old(nodes)@, old(nodes)@[old(nodes)@[old(nodes)@[x as int].parent as int].left as int].left),
        ensures
            struct_ok(final(nodes)@, final(self).root_node, final(self).shape@),
            lengths_ok(final(nodes)@, final(self).shape@),
            total_fits(final(nodes)@, final(self).shape@),
            final(self).shape@.ord == old(self).shape@.ord,
            final(self).shape@.pos == old(self).shape@.pos,
            same_pieces(old(nodes)@, final(nodes)@),
            frame_outside(old(nodes)@, final(nodes)@, old(self).shape@),
            dfix_inv(final(nodes)@, final(self).root_node, final(self).shape@, final(self).black_height, final(self).root_node),
            final(self).root_node < final(nodes)@.len(),
            final(self).black_height == old(self).black_height,
    {
        let ghost n4 = nodes@;
        let ghost g4 = self.shape@;
        let ghost root4 = self.root_node;
        let ghost bhf = self.black_height;
        proof {
            let pp = n4[x as int].parent;
            assert(node_struct_ok(n4, root4, g4, pp));
            let ww = n4[pp as int].left;
            assert(ww != 0);
            assert(node_struct_ok(n4, root4, g4, ww));
        }
        let xp = nodes[x].parent;
        let mut w = nodes[xp].left;
        let wl = nodes[w].right;
        let wr = nodes[w].left;
        if nodes[wr].color == Color::Black {
            nodes[wl].color = Color::Black;
            nodes[w].color = Color::Red;
            let ghost n5 = nodes@;
            proof {
                assert(same_but_colors(n4, n5));
                lemma_recolor(n4, n5, root4, g4);
            }
            self.left_rotate(nodes, w);
            proof {
                lemma_dfix_near_red_right(n4, n5, nodes@, root4, g4, bhf, x);
            }
            let ghost g5 = self.shape@;
            self.shape = Ghost(Shape { bh: g4.bh.insert(w, g4.bh[wl]).insert(wl, g4.bh[w]), ..g5 });
            proof {
                lemma_shape_same_intervals(nodes@, self.root_node, g5, self.shape@);
            }
            w = nodes[xp].left;
        }
        let ghost n6 = nodes@;
        let ghost g6 = self.shape@;
        let ghost root6 = self.root_node;
        proof {
            assert(node_struct_ok(n6, root6, g6, xp));
            assert(node_struct_ok(n6, root6, g6, w));
        }
        let xpc = nodes[xp].color;
        nodes[w].color = xpc;
        nodes[xp].color = Color::Black;
        let far = nodes[w].left;
        nodes[far].color = Color::Black;
        let ghost n7 = nodes@;
        proof {
            assert(same_but_colors(n6, n7));
            lemma_recolor(n6, n7, root6, g6);
        }
        self.right_rotate(nodes, xp);
        proof {
            lemma_dfix_far_red_right(n6, n7, nodes@, root6, self.root_node, g6, bhf, x);
        }
        let ghost g7 = self.shape@;
        self.shape = Ghost(Shape { bh: g6.bh.insert(far, g6.bh[far] + 1).insert(xp, g6.bh[w]).insert(w, g6.bh[xp]), ..g7 });
        proof {
            lemma_shape_same_intervals(nodes@, self.root_node, g7, self.shape@);
            assert(node_struct_ok(nodes@, self.root_node, self.shape@, self.root_node));
        }
    }

    /// One step of the repair when `x` is a right child: returns the new `x`, and whether
    /// the repair is complete.
    fn delete_fix_right(&mut self, nodes: &mut Vec<Node>, x: usize) -> (r: (usize, bool))
        requires
            struct_ok(old(nodes)@, old(self).root_node, old(self).shape@),
            lengths_ok(old(nodes)@, old(self).shape@),
            total_fits(old(nodes)@, old(self).shape@),
            dfix_inv(old(nodes)@, old(self).root_node, old(self).shape@, old(self).black_height, x),
            x != old(self).root_node,
            is_black(old(nodes)@, x),
            old(nodes)@[old(nodes)@[x as int].parent as int].right == x,
        ensures
            struct_ok(final(nodes)@, final(self).root_node, final(self).shape@),
            lengths_ok(final(nodes)@, final(self).shape@),
            total_fits(final(nodes)@, final(self).shape@),
            final(self).shape@.ord == old(self).shape@.ord,
            final(self).shape@.pos == old(self).shape@.pos,
            same_pieces(old(nodes)@, final(nodes)@),
            frame_outside(old(nodes)@, final(nodes)@, old(self).shape@),
            dfix_inv(final(nodes)@, final(self).root_node, final(self).shape@, final(self).black_height, r.0),
            r.0 < final(nodes)@.len(),
            r.1 ==> r.0 == final(self).root_node,
            !r.1 ==> xsize(final(self).shape@, r.0) > xsize(old(self).shape@, x),
            final(self).black_height == old(self).black_height || (final(self).black_height + 1 == old(self).black_height
                && r.0 == final(self).root_node),
    {
        let ghost n1 = nodes@;
        let ghost g1 = self.shape@;
        let ghost root1 = self.root_node;
        proof {
            let pp = n1[x as int].parent;
            assert(node_struct_ok(n1, root1, g1, pp));
            let ww = n1[pp as int].left;
            assert(ww != 0);
            assert(node_struct_ok(n1, root1, g1, ww));
        }
        let xp = nodes[x].parent;
        let w0 = nodes[xp].left;
        if nodes[w0].color == Color::Red {
            self.dfix_red_sibling_right(nodes, x);
        }
        let ghost n4 = nodes@;
        let ghost g4 = self.shape@;
        let ghost root4 = self.root_node;
        let ghost bhf = self.black_height;
        proof {
            assert(node_struct_ok(n4, root4, g4, xp));
            assert(node_struct_ok(n4, root4, g4, n4[xp as int].left));
        }
        let w = nodes[xp].left;
        let wl = nodes[w].right;
        let wr = nodes[w].left;
        if nodes[wl].color == Color::Black && nodes[wr].color == Color::Black {
            nodes[w].color = Color::Red;
            proof {
                lemma_dfix_push_up(n4, nodes@, root4, g4, bhf, x);
                lemma_recolor(n4, nodes@, root4, g4);
            }
            self.shape = Ghost(Shape { bh: g4.bh.insert(w, (g4.bh[w] - 1) as nat).insert(xp, (g4.bh[xp] - 1) as nat), ..g4 });
            proof {
                lemma_shape_same_intervals(nodes@, root4, g4, self.shape@);
            }
            if xp == self.root_node {
                self.black_height = self.black_height - 1;
            }
            (xp, false)
        } else {
            self.dfix_rotate_right(nodes, x);
            (self.root_node, true)
        }
    }
}

impl RedBlackTree {
    /// Restores the red-black rules after a black slot was taken out above `x`.
    pub(crate) fn delete_fix(&mut self, nodes: &mut Vec<Node>, x: usize)
        requires
            struct_ok(old(nodes)@, old(self).root_node, old(self).shape@),
            lengths_ok(old(nodes)@, old(self).shape@),
            total_fits(old(nodes)@, old(self).shape@),
            dfix_inv(old(nodes)@, old(self).root_node, old(self).shape@, old(self).black_height, x),
        ensures
            struct_ok(final(nodes)@, final(self).root_node, final(self).shape@),
            lengths_ok(final(nodes)@, final(self).shape@),
            total_fits(final(nodes)@, final(self).shape@),
            colors_ok(final(nodes)@, final(self).root_node, final(self).shape@,
                if final(self).root_node == 0 { 0 } else { final(self).black_height }),
            final(self).shape@.ord == old(self).shape@.ord,
            final(self).shape@.pos == old(self).shape@.pos,
            same_pieces(old(nodes)@, final(nodes)@),
            frame_outside(old(nodes)@, final(nodes)@, old(self).shape@),
            final(self).black_height == old(self).black_height || final(self).black_height + 1 == old(self).black_height,
    {
        let ghost n0 = nodes@;
        let ghost g0 = self.shape@;
        let ghost bh0 = self.black_height;
        let mut x = x;
        proof {
            if x != 0 {
                assert(node_struct_ok(n0, self.root_node, g0, x));
            }
        }
        while x != self.root_node && nodes[x].color == Color::Black
            invariant
                struct_ok(nodes@, self.root_node, self.shape@),
                lengths_ok(nodes@, self.shape@),
                total_fits(nodes@, self.shape@),
                self.shape@.ord == g0.ord,
                self.shape@.pos == g0.pos,
                same_pieces(n0, nodes@),
                frame_outside(n0, nodes@, g0),
                dfix_inv(nodes@, self.root_node, self.shape@, self.black_height, x),
                x < nodes@.len(),
                self.black_height == bh0 || (self.black_height + 1 == bh0 && x == self.root_node),
            ensures
                x == self.root_node || !is_black(nodes@, x),
                self.black_height == bh0 || self.black_height + 1 == bh0,
            decreases self.shape@.ord.len() - xsize(self.shape@, x),
        {
            let ghost n1 = nodes@;
            proof {
                let pp = n1[x as int].parent;
                assert(node_struct_ok(n1, self.root_node, self.shape@, pp));
                if x != 0 {
                    assert(node_struct_ok(n1, self.root_node, self.shape@, x));
                }
            }
            let xp = nodes[x].parent;
            let step = if x == nodes[xp].left {
                self.delete_fix_left(nodes, x)
            } else {
                self.delete_fix_right(nodes, x)
            };
            x = step.0;
            proof {
                if x != 0 {
                    assert(node_struct_ok(nodes@, self.root_node, self.shape@, x));
                }
            }
            if step.1 {
                break;
            }
        }
        let ghost n4 = nodes@;
        let ghost g4 = self.shape@;
        let ghost root4 = self.root_node;
        if nodes[x].color == Color::Red {
            nodes[x].color = Color::Black;
        }
        proof {
            lemma_dfix_finish(n4, nodes@, root4, g4, self.black_height, x);
            lemma_recolor(n4, nodes@, root4, g4);
        }
        self.shape = Ghost(if is_black(n4, x) { g4 } else { Shape { bh: g4.bh.insert(x, g4.bh[x] + 1), ..g4 } });
        proof {
            lemma_shape_same_intervals(nodes@, root4, g4, self.shape@);
        }
    }
}

} // verus!
