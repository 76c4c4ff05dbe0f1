use vstd::prelude::*;
use crate::node::{Node, Color, BufferType};
use crate::lengths::{prefix_sum, all_positive};

verus! {

/// Ghost description of the tree held in the node arena.
///
/// `ord` lists the live slots in document order; `pos` is its inverse. Every live slot
/// `n` spans the positions `[lo[n], hi[n])` of `ord` with its subtree, and `bh[n]` is
/// the number of black nodes on every path from `n` (itself included) down to NIL.
pub ghost struct Shape {
    pub ord: Seq<usize>,
    pub pos: Map<usize, int>,
    pub lo: Map<usize, int>,
    pub hi: Map<usize, int>,
    pub bh: Map<usize, nat>,
}

pub open spec fn live(g: Shape, n: usize) -> bool {
    g.pos.dom().contains(n)
}

/// Black height of a slot; NIL has black height 0.
pub open spec fn bhv(g: Shape, c: usize) -> nat {
    if c == 0 {
        0
    } else {
        g.bh[c]
    }
}

pub open spec fn is_black(nodes: Seq<Node>, c: usize) -> bool {
    nodes[c as int].color == Color::Black
}

pub open spec fn black_count(nodes: Seq<Node>, c: usize) -> nat {
    if nodes[c as int].color == Color::Black {
        1
    } else {
        0
    }
}

/// The sentinel at slot 0: black, childless, of length zero.
pub open spec fn nil_ok(nodes: Seq<Node>) -> bool {
    &&& nodes.len() >= 1
    &&& nodes[0].left == 0
    &&& nodes[0].right == 0
    &&& nodes[0].length == 0
    &&& nodes[0].subtree_length == 0
    &&& nodes[0].left_subtree_length == 0
    &&& nodes[0].color == Color::Black
}

/// `ord` and `pos` are inverse to each other and name slots of the arena.
pub open spec fn ord_ok(nodes: Seq<Node>, g: Shape) -> bool {
    &&& forall|i: int|
        0 <= i < g.ord.len() ==> #[trigger] g.pos.dom().contains(g.ord[i]) && g.pos[g.ord[i]] == i
    &&& forall|n: usize|
        #[trigger] g.pos.dom().contains(n) ==> 0 <= g.pos[n] < g.ord.len() && g.ord[g.pos[n]] == n
            && 0 < n < nodes.len()
}

/// Links of one live slot agree with the intervals of the shape.
pub open spec fn node_struct_ok(nodes: Seq<Node>, root: usize, g: Shape, n: usize) -> bool {
    let nd = nodes[n as int];
    let p = g.pos[n];
    &&& 0 <= g.lo[n] <= p < g.hi[n] <= g.ord.len()
    &&& (nd.left == 0 <==> g.lo[n] == p)
    &&& nd.left != 0 ==> live(g, nd.left) && g.lo[nd.left] == g.lo[n] && g.hi[nd.left] == p
        && nodes[nd.left as int].parent == n
    &&& (nd.right == 0 <==> g.hi[n] == p + 1)
    &&& nd.right != 0 ==> live(g, nd.right) && g.lo[nd.right] == p + 1 && g.hi[nd.right] == g.hi[n]
        && nodes[nd.right as int].parent == n
    &&& (nd.parent == 0 <==> n == root)
    &&& nd.parent != 0 ==> live(g, nd.parent) && (nodes[nd.parent as int].left == n
        || nodes[nd.parent as int].right == n)
}

/// The arena holds a binary tree rooted at `root` whose in-order sequence is `g.ord`.
pub open spec fn struct_ok(nodes: Seq<Node>, root: usize, g: Shape) -> bool {
    &&& nil_ok(nodes)
    &&& ord_ok(nodes, g)
    &&& forall|n: usize| live(g, n) ==> #[trigger] node_struct_ok(nodes, root, g, n)
    &&& (root == 0 <==> g.ord.len() == 0)
    &&& root != 0 ==> live(g, root) && g.lo[root] == 0 && g.hi[root] == g.ord.len()
}

/// Sum of the piece lengths at positions `[a, b)` of the order.
pub open spec fn sum_len(nodes: Seq<Node>, ord: Seq<usize>, a: int, b: int) -> int
    decreases b - a,
{
    if b <= a {
        0
    } else {
        sum_len(nodes, ord, a, b - 1) + nodes[ord[b - 1] as int].length
    }
}

/// The cached lengths of a live slot are the sums over its subtree.
pub open spec fn len_node_ok(nodes: Seq<Node>, g: Shape, n: usize) -> bool {
    &&& nodes[n as int].subtree_length == sum_len(nodes, g.ord, g.lo[n], g.hi[n])
    &&& nodes[n as int].left_subtree_length == sum_len(nodes, g.ord, g.lo[n], g.pos[n])
}

pub open spec fn lengths_ok(nodes: Seq<Node>, g: Shape) -> bool {
    forall|n: usize| live(g, n) ==> #[trigger] len_node_ok(nodes, g, n)
}

/// Total length of the document fits in a machine word.
pub open spec fn total_fits(nodes: Seq<Node>, g: Shape) -> bool {
    sum_len(nodes, g.ord, 0, g.ord.len() as int) <= usize::MAX
}

/// Black-height bookkeeping of one live slot.
pub open spec fn bh_node_ok(nodes: Seq<Node>, g: Shape, n: usize) -> bool {
    let nd = nodes[n as int];
    &&& bhv(g, nd.left) == bhv(g, nd.right)
    &&& g.bh[n] == bhv(g, nd.left) + black_count(nodes, n)
}

/// A red slot has black children.
pub open spec fn red_node_ok(nodes: Seq<Node>, n: usize) -> bool {
    nodes[n as int].color == Color::Red ==> is_black(nodes, nodes[n as int].left) && is_black(
        nodes,
        nodes[n as int].right,
    )
}

/// The red-black rules, with the recorded black height of the whole tree.
pub open spec fn colors_ok(nodes: Seq<Node>, root: usize, g: Shape, black_height: usize) -> bool {
    &&& forall|n: usize| live(g, n) ==> #[trigger] bh_node_ok(nodes, g, n)
    &&& forall|n: usize| live(g, n) ==> #[trigger] red_node_ok(nodes, n)
    &&& is_black(nodes, root)
    &&& black_height == bhv(g, root)
}

/// The `k`-th ancestor of `c` (stopping at NIL).
pub open spec fn iter_parent(nodes: Seq<Node>, c: usize, k: nat) -> usize
    decreases k,
{
    if k == 0 {
        c
    } else if c == 0 {
        0
    } else {
        iter_parent(nodes, nodes[c as int].parent, (k - 1) as nat)
    }
}

pub open spec fn is_anc(nodes: Seq<Node>, c: usize, m: usize) -> bool {
    exists|k: nat| iter_parent(nodes, c, k) == m
}

// ---------------------------------------------------------------------------
// Lemmas on sums
// ---------------------------------------------------------------------------

pub proof fn lemma_sum_split(nodes: Seq<Node>, ord: Seq<usize>, a: int, b: int, c: int)
    requires
        a <= b <= c,
    ensures
        sum_len(nodes, ord, a, c) == sum_len(nodes, ord, a, b) + sum_len(nodes, ord, b, c),
    decreases c - b,
{
    if c > b {
        lemma_sum_split(nodes, ord, a, b, c - 1);
    }
}

pub proof fn lemma_sum_nonneg(nodes: Seq<Node>, ord: Seq<usize>, a: int, b: int)
    ensures
        sum_len(nodes, ord, a, b) >= 0,
    decreases b - a,
{
    if b > a {
        lemma_sum_nonneg(nodes, ord, a, b - 1);
    }
}

pub proof fn lemma_sum_mono(nodes: Seq<Node>, ord: Seq<usize>, a: int, b: int, c: int, d: int)
    requires
        a <= b <= c <= d,
    ensures
        sum_len(nodes, ord, b, c) <= sum_len(nodes, ord, a, d),
{
    lemma_sum_split(nodes, ord, a, b, d);
    lemma_sum_split(nodes, ord, b, c, d);
    lemma_sum_nonneg(nodes, ord, a, b);
    lemma_sum_nonneg(nodes, ord, c, d);
}

/// Sums agree on two orders that list pieces of equal lengths, shifted by `d`.
pub proof fn lemma_sum_shift(
    n1: Seq<Node>,
    o1: Seq<usize>,
    n2: Seq<Node>,
    o2: Seq<usize>,
    a: int,
    b: int,
    d: int,
)
    requires
        forall|i: int| a <= i < b ==> n1[o1[i] as int].length == n2[o2[i + d] as int].length,
    ensures
        sum_len(n1, o1, a, b) == sum_len(n2, o2, a + d, b + d),
    decreases b - a,
{
    if b > a {
        lemma_sum_shift(n1, o1, n2, o2, a, b - 1, d);
    }
}

/// Lengths of the pieces listed by `ord`, in that order.
pub open spec fn lens_of(nodes: Seq<Node>, ord: Seq<usize>) -> Seq<int> {
    ord.map_values(|n: usize| nodes[n as int].length as int)
}

/// Buffer, first byte in that buffer and length of each piece listed by `ord`.
pub open spec fn spans_of(nodes: Seq<Node>, ord: Seq<usize>) -> Seq<(BufferType, int, int)> {
    ord.map_values(|n: usize| (nodes[n as int].buffer_type, nodes[n as int].start as int, nodes[n as int].length as int))
}

/// Prefix sums of `lens_of` are the sums of piece lengths.
pub proof fn lemma_lens_prefix(nodes: Seq<Node>, ord: Seq<usize>, k: int)
    requires
        0 <= k <= ord.len(),
    ensures
        prefix_sum(lens_of(nodes, ord), k) == sum_len(nodes, ord, 0, k),
    decreases k,
{
    if k > 0 {
        lemma_lens_prefix(nodes, ord, k - 1);
    }
}

/// The pieces of a well-formed tree are non-empty.
pub proof fn lemma_lens_positive(nodes: Seq<Node>, g: Shape)
    requires
        pieces_nonempty(nodes, g),
    ensures
        all_positive(lens_of(nodes, g.ord)),
{
    assert forall|q: int| 0 <= q < lens_of(nodes, g.ord).len() implies #[trigger] lens_of(nodes, g.ord)[q] > 0 by {
        assert(nodes[g.ord[q] as int].length > 0);
    }
}

/// Offset `i` of the document is where a piece begins, or lies at or past its end.
pub open spec fn at_piece_start(nodes: Seq<Node>, ord: Seq<usize>, i: int) -> bool {
    ||| i >= sum_len(nodes, ord, 0, ord.len() as int)
    ||| exists|q: int| 0 <= q < ord.len() && #[trigger] sum_len(nodes, ord, 0, q) == i
}

/// An offset strictly inside the piece at position `p` is no piece start.
pub proof fn lemma_inside_piece(nodes: Seq<Node>, ord: Seq<usize>, p: int, i: int)
    requires
        0 <= p < ord.len(),
        sum_len(nodes, ord, 0, p) < i < sum_len(nodes, ord, 0, p + 1),
    ensures
        !at_piece_start(nodes, ord, i),
{
    lemma_sum_mono(nodes, ord, 0, 0, p + 1, ord.len() as int);
    assert forall|q: int| 0 <= q < ord.len() implies #[trigger] sum_len(nodes, ord, 0, q) != i by {
        if q <= p {
            lemma_sum_mono(nodes, ord, 0, 0, q, p);
        } else {
            lemma_sum_mono(nodes, ord, 0, 0, p + 1, q);
        }
    }
}

pub proof fn lemma_sum_one(nodes: Seq<Node>, ord: Seq<usize>, a: int)
    ensures
        sum_len(nodes, ord, a, a + 1) == nodes[ord[a] as int].length,
{
    assert(sum_len(nodes, ord, a, a) == 0);
}

// ---------------------------------------------------------------------------
// Lemmas on ancestors
// ---------------------------------------------------------------------------

/// Every live ancestor of a live slot spans an interval that contains the slot's one,
/// strictly so for a proper ancestor.
pub proof fn lemma_anc_interval(nodes: Seq<Node>, root: usize, g: Shape, c: usize, k: nat)
    requires
        struct_ok(nodes, root, g),
        live(g, c),
    ensures
        iter_parent(nodes, c, k) == 0 || live(g, iter_parent(nodes, c, k)),
        live(g, iter_parent(nodes, c, k)) ==> g.lo[iter_parent(nodes, c, k)] <= g.lo[c] && g.hi[c]
            <= g.hi[iter_parent(nodes, c, k)],
        live(g, iter_parent(nodes, c, k)) && k > 0 ==> g.hi[iter_parent(nodes, c, k)] - g.lo[iter_parent(
            nodes,
            c,
            k,
        )] > g.hi[c] - g.lo[c],
    decreases k,
{
    if k > 0 {
        let q = nodes[c as int].parent;
        assert(node_struct_ok(nodes, root, g, c));
        if q != 0 {
            assert(node_struct_ok(nodes, root, g, q));
            lemma_anc_interval(nodes, root, g, q, (k - 1) as nat);
        } else {
            assert(iter_parent(nodes, c, k) == 0) by {
                lemma_iter_parent_zero(nodes, (k - 1) as nat);
            }
        }
    }
}

pub proof fn lemma_iter_parent_zero(nodes: Seq<Node>, k: nat)
    ensures
        iter_parent(nodes, 0, k) == 0,
    decreases k,
{
}

/// A child is never an ancestor of its parent.
pub proof fn lemma_child_not_anc(nodes: Seq<Node>, root: usize, g: Shape, c: usize, ch: usize)
    requires
        struct_ok(nodes, root, g),
        live(g, c),
        ch != 0,
        nodes[c as int].left == ch || nodes[c as int].right == ch,
    ensures
        !is_anc(nodes, c, ch),
{
    assert(node_struct_ok(nodes, root, g, c));
    if is_anc(nodes, c, ch) {
        let k = choose|k: nat| iter_parent(nodes, c, k) == ch;
        lemma_anc_interval(nodes, root, g, c, k);
    }
}

/// Two arenas that differ at most in the cached subtree lengths.
pub open spec fn same_links(n1: Seq<Node>, n2: Seq<Node>) -> bool {
    &&& n1.len() == n2.len()
    &&& forall|i: int|
        0 <= i < n1.len() ==> #[trigger] n2[i] == (Node {
            subtree_length: n2[i].subtree_length,
            left_subtree_length: n2[i].left_subtree_length,
            ..n1[i]
        })
}

pub proof fn lemma_sum_same(n1: Seq<Node>, n2: Seq<Node>, ord: Seq<usize>, a: int, b: int)
    requires
        forall|i: int| a <= i < b ==> n1[ord[i] as int].length == n2[ord[i] as int].length,
    ensures
        sum_len(n1, ord, a, b) == sum_len(n2, ord, a, b),
    decreases b - a,
{
    if b > a {
        lemma_sum_same(n1, n2, ord, a, b - 1);
    }
}

pub proof fn lemma_same_links_node(n1: Seq<Node>, n2: Seq<Node>, root: usize, g: Shape, n: usize)
    requires
        node_struct_ok(n1, root, g, n),
        same_links(n1, n2),
        0 < n < n1.len(),
        n1[n as int].left < n1.len(),
        n1[n as int].right < n1.len(),
        n1[n as int].parent < n1.len(),
    ensures
        node_struct_ok(n2, root, g, n),
{
    let nd = n1[n as int];
    assert(n2[n as int].left == nd.left);
    assert(n2[nd.left as int].parent == n1[nd.left as int].parent);
    assert(n2[nd.right as int].parent == n1[nd.right as int].parent);
    assert(n2[nd.parent as int].left == n1[nd.parent as int].left);
}

pub proof fn lemma_same_links_sums(n1: Seq<Node>, n2: Seq<Node>, root: usize, g: Shape)
    requires
        ord_ok(n1, g),
        same_links(n1, n2),
    ensures
        forall|a: int, b: int|
            0 <= a && b <= g.ord.len() ==> sum_len(n1, g.ord, a, b) == #[trigger] sum_len(n2, g.ord, a, b),
{
    assert forall|a: int, b: int| 0 <= a && b <= g.ord.len() implies sum_len(n1, g.ord, a, b) == #[trigger] sum_len(n2, g.ord, a, b) by {
        assert forall|i: int| a <= i < b implies n1[g.ord[i] as int].length == n2[g.ord[i] as int].length by {
            assert(g.pos.dom().contains(g.ord[i]));
        }
        lemma_sum_same(n1, n2, g.ord, a, b);
    }
}

pub proof fn lemma_same_links(n1: Seq<Node>, n2: Seq<Node>, root: usize, g: Shape)
    requires
        struct_ok(n1, root, g),
        same_links(n1, n2),
        n2[0].subtree_length == 0,
        n2[0].left_subtree_length == 0,
    ensures
        struct_ok(n2, root, g),
        forall|a: int, b: int|
            0 <= a && b <= g.ord.len() ==> sum_len(n1, g.ord, a, b) == #[trigger] sum_len(n2, g.ord, a, b),
{
    assert(n2[0] == n1[0]);
    assert forall|n: usize| live(g, n) implies #[trigger] node_struct_ok(n2, root, g, n) by {
        assert(node_struct_ok(n1, root, g, n));
        let nd = n1[n as int];
        if nd.left != 0 { assert(live(g, nd.left)); }
        if nd.right != 0 { assert(live(g, nd.right)); }
        if nd.parent != 0 { assert(live(g, nd.parent)); }
        lemma_same_links_node(n1, n2, root, g, n);
    }
    lemma_same_links_sums(n1, n2, root, g);
}

/// Two arenas that agree on every piece length.
pub open spec fn same_piece_lengths(n1: Seq<Node>, n2: Seq<Node>) -> bool {
    &&& n1.len() == n2.len()
    &&& forall|i: int| 0 <= i < n1.len() ==> #[trigger] n2[i].length == n1[i].length
}

pub proof fn lemma_same_lengths_sums(n1: Seq<Node>, n2: Seq<Node>, g: Shape)
    requires
        ord_ok(n1, g),
        same_piece_lengths(n1, n2),
    ensures
        forall|a: int, b: int|
            0 <= a && b <= g.ord.len() ==> sum_len(n1, g.ord, a, b) == #[trigger] sum_len(n2, g.ord, a, b),
{
    assert forall|a: int, b: int| 0 <= a && b <= g.ord.len() implies sum_len(n1, g.ord, a, b) == #[trigger] sum_len(n2, g.ord, a, b) by {
        assert forall|i: int| a <= i < b implies n1[g.ord[i] as int].length == n2[g.ord[i] as int].length by {
            assert(g.pos.dom().contains(g.ord[i]));
        }
        lemma_sum_same(n1, n2, g.ord, a, b);
    }
}

/// Colour, buffer and range of a piece.
pub open spec fn same_payload(a: Node, b: Node) -> bool {
    &&& a.color == b.color
    &&& a.buffer_type == b.buffer_type
    &&& a.start == b.start
    &&& a.length == b.length
}

pub proof fn lemma_iter_parent_step(nodes: Seq<Node>, c: usize, k: nat)
    requires
        iter_parent(nodes, c, k) != 0,
    ensures
        iter_parent(nodes, c, k + 1) == nodes[iter_parent(nodes, c, k) as int].parent,
    decreases k,
{
    reveal_with_fuel(iter_parent, 2);
    if k > 0 {
        lemma_iter_parent_step(nodes, nodes[c as int].parent, (k - 1) as nat);
    }
}

/// A live slot whose interval holds the position of `c` is an ancestor of `c`.
pub proof fn lemma_contains_is_anc(nodes: Seq<Node>, root: usize, g: Shape, m: usize, c: usize)
    requires
        struct_ok(nodes, root, g),
        live(g, m),
        live(g, c),
        g.lo[m] <= g.pos[c] < g.hi[m],
    ensures
        is_anc(nodes, c, m),
    decreases g.hi[m] - g.lo[m],
{
    assert(node_struct_ok(nodes, root, g, m));
    if c == m {
        assert(iter_parent(nodes, c, 0) == m);
    } else if g.pos[c] < g.pos[m] {
        let l = nodes[m as int].left;
        assert(node_struct_ok(nodes, root, g, l));
        lemma_contains_is_anc(nodes, root, g, l, c);
        let k = choose|k: nat| iter_parent(nodes, c, k) == l;
        lemma_iter_parent_step(nodes, c, k);
        assert(iter_parent(nodes, c, k + 1) == m);
    } else {
        assert(g.pos[c] != g.pos[m]);
        let r = nodes[m as int].right;
        assert(node_struct_ok(nodes, root, g, r));
        lemma_contains_is_anc(nodes, root, g, r, c);
        let k = choose|k: nat| iter_parent(nodes, c, k) == r;
        lemma_iter_parent_step(nodes, c, k);
        assert(iter_parent(nodes, c, k + 1) == m);
    }
}

/// Two arenas that differ at most in the colours of slots.
pub open spec fn same_but_colors(n1: Seq<Node>, n2: Seq<Node>) -> bool {
    &&& n1.len() == n2.len()
    &&& forall|i: int| 0 <= i < n1.len() ==> #[trigger] n2[i] == (Node { color: n2[i].color, ..n1[i] })
}

pub proof fn lemma_recolor(n1: Seq<Node>, n2: Seq<Node>, root: usize, g: Shape)
    requires
        struct_ok(n1, root, g),
        lengths_ok(n1, g),
        total_fits(n1, g),
        same_but_colors(n1, n2),
        n2[0].color == Color::Black,
    ensures
        struct_ok(n2, root, g),
        lengths_ok(n2, g),
        total_fits(n2, g),
{
    assert(n2[0] == n1[0]);
    assert forall|n: usize| live(g, n) implies #[trigger] node_struct_ok(n2, root, g, n) by {
        assert(node_struct_ok(n1, root, g, n));
        let nd = n1[n as int];
        if nd.left != 0 { assert(live(g, nd.left)); }
        if nd.right != 0 { assert(live(g, nd.right)); }
        if nd.parent != 0 { assert(live(g, nd.parent)); }
        assert(n2[n as int].left == nd.left);
        assert(n2[n as int].right == nd.right);
        assert(n2[n as int].parent == nd.parent);
        assert(n2[nd.left as int].parent == n1[nd.left as int].parent);
        assert(n2[nd.right as int].parent == n1[nd.right as int].parent);
        assert(n2[nd.parent as int].left == n1[nd.parent as int].left);
        assert(n2[nd.parent as int].right == n1[nd.parent as int].right);
    }
    assert(same_piece_lengths(n1, n2));
    lemma_same_lengths_sums(n1, n2, g);
    assert forall|n: usize| live(g, n) implies #[trigger] len_node_ok(n2, g, n) by {
        assert(len_node_ok(n1, g, n));
        assert(node_struct_ok(n1, root, g, n));
    }
}

/// Two arenas that hold the same pieces in every slot (links and colours may differ).
pub open spec fn same_pieces(n1: Seq<Node>, n2: Seq<Node>) -> bool {
    &&& n1.len() == n2.len()
    &&& forall|i: int|
        0 <= i < n1.len() ==> (#[trigger] n2[i]).start == n1[i].start && n2[i].length == n1[i].length
            && n2[i].buffer_type == n1[i].buffer_type
}

/// The black height of a slot is at most the size of its subtree.
pub proof fn lemma_bh_bound(nodes: Seq<Node>, root: usize, g: Shape, n: usize)
    requires
        struct_ok(nodes, root, g),
        forall|m: usize| live(g, m) ==> #[trigger] bh_node_ok(nodes, g, m),
        live(g, n),
    ensures
        g.bh[n] <= g.hi[n] - g.lo[n],
        nodes[n as int].color == Color::Red ==> g.bh[n] < g.hi[n] - g.lo[n],
    decreases g.hi[n] - g.lo[n],
{
    assert(node_struct_ok(nodes, root, g, n));
    assert(bh_node_ok(nodes, g, n));
    let l = nodes[n as int].left;
    if l != 0 {
        assert(node_struct_ok(nodes, root, g, l));
        lemma_bh_bound(nodes, root, g, l);
    }
}

/// Structure, lengths and fit only read the order and the intervals of a shape.
pub proof fn lemma_shape_same_intervals(nodes: Seq<Node>, root: usize, g1: Shape, g2: Shape)
    requires
        g2.ord == g1.ord,
        g2.pos == g1.pos,
        g2.lo == g1.lo,
        g2.hi == g1.hi,
    ensures
        struct_ok(nodes, root, g1) ==> struct_ok(nodes, root, g2),
        lengths_ok(nodes, g1) ==> lengths_ok(nodes, g2),
        total_fits(nodes, g1) ==> total_fits(nodes, g2),
{
    if struct_ok(nodes, root, g1) {
        assert forall|n: usize| live(g2, n) implies #[trigger] node_struct_ok(nodes, root, g2, n) by {
            assert(node_struct_ok(nodes, root, g1, n));
        }
    }
    if lengths_ok(nodes, g1) {
        assert forall|n: usize| live(g2, n) implies #[trigger] len_node_ok(nodes, g2, n) by {
            assert(len_node_ok(nodes, g1, n));
        }
    }
}

/// Every live piece is non-empty.
pub open spec fn pieces_nonempty(nodes: Seq<Node>, g: Shape) -> bool {
    forall|i: int| 0 <= i < g.ord.len() ==> #[trigger] nodes[g.ord[i] as int].length > 0
}

pub proof fn lemma_sum_ge_count(nodes: Seq<Node>, ord: Seq<usize>, a: int, b: int)
    requires
        forall|i: int| a <= i < b ==> #[trigger] nodes[ord[i] as int].length > 0,
    ensures
        sum_len(nodes, ord, a, b) >= b - a,
    decreases b - a,
{
    if b > a {
        lemma_sum_ge_count(nodes, ord, a, b - 1);
    }
}

pub proof fn lemma_sum_same_pieces(n1: Seq<Node>, n2: Seq<Node>, g: Shape)
    requires
        same_pieces(n1, n2),
        ord_ok(n1, g),
    ensures
        sum_len(n1, g.ord, 0, g.ord.len() as int) == sum_len(n2, g.ord, 0, g.ord.len() as int),
{
    assert forall|i: int| 0 <= i < g.ord.len() implies n1[g.ord[i] as int].length == n2[g.ord[i] as int].length by {
        assert(g.pos.dom().contains(g.ord[i]));
    }
    lemma_sum_same(n1, n2, g.ord, 0, g.ord.len() as int);
}

/// Slots outside the tree keep their contents.
pub open spec fn frame_outside(n1: Seq<Node>, n2: Seq<Node>, g: Shape) -> bool {
    &&& n1.len() == n2.len()
    &&& forall|i: int| 0 <= i < n1.len() && !live(g, i as usize) ==> #[trigger] n2[i] == n1[i]
}

} // verus!
