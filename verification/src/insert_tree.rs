use vstd::prelude::*;
use vstd::utf8::valid_utf8;
use crate::node::{Node, Color};
use crate::shape::{at_piece_start, lemma_inside_piece, lens_of, spans_of, lemma_lens_prefix, lemma_lens_positive, lemma_sum_same_pieces, Shape, live, nil_ok, ord_ok, node_struct_ok, struct_ok, sum_len,
    len_node_ok, lengths_ok, total_fits, bh_node_ok, red_node_ok, colors_ok, is_anc, same_pieces,
    pieces_nonempty, lemma_sum_split, lemma_sum_nonneg, lemma_sum_mono, lemma_sum_same, lemma_sum_one,
    lemma_contains_is_anc};
use crate::text::{piece_bytes, piece_in_bounds, pieces_in_bounds, text_of, doc, lemma_text_split,
    lemma_text_one, pieces_utf8, cut_ok, lemma_cut_utf8, lemma_text_len, lemma_text_insert};
use crate::rbtree::{RedBlackTree, with_lengths};
use crate::lengths::{prefix_sum, spans_kept, lemma_prefix_mono, lengths_after_insert, piece_with_insert,
    lemma_insert_within, lemma_insert_at_end};

verus! {

/// All invariants of the tree over the arena.
pub open spec fn tree_ok(nodes: Seq<Node>, root: usize, g: Shape, black_height: usize) -> bool {
    &&& struct_ok(nodes, root, g)
    &&& lengths_ok(nodes, g)
    &&& total_fits(nodes, g)
    &&& colors_ok(nodes, root, g, black_height)
    &&& pieces_nonempty(nodes, g)
}

/// Links and colours agree between two arenas of the same size.
pub open spec fn same_links_colors(n1: Seq<Node>, n2: Seq<Node>) -> bool {
    &&& n1.len() <= n2.len()
    &&& forall|i: int|
        0 <= i < n1.len() ==> (#[trigger] n2[i]).left == n1[i].left && n2[i].right == n1[i].right && n2[i].parent
            == n1[i].parent && n2[i].color == n1[i].color
}

pub proof fn lemma_links_colors_frame(n1: Seq<Node>, n2: Seq<Node>, root: usize, g: Shape, bhf: usize)
    requires
        struct_ok(n1, root, g),
        same_links_colors(n1, n2),
        nil_ok(n2),
    ensures
        struct_ok(n2, root, g),
        colors_ok(n1, root, g, bhf) ==> colors_ok(n2, root, g, bhf),
{
    assert forall|n: usize| live(g, n) implies #[trigger] node_struct_ok(n2, root, g, n) by {
        assert(node_struct_ok(n1, root, g, n));
        let nd = n1[n as int];
        if nd.left != 0 { assert(live(g, nd.left)); }
        if nd.right != 0 { assert(live(g, nd.right)); }
        if nd.parent != 0 { assert(live(g, nd.parent)); }
        assert(n2[n as int].left == nd.left);
        assert(n2[nd.left as int].parent == n1[nd.left as int].parent);
        assert(n2[nd.right as int].parent == n1[nd.right as int].parent);
        assert(n2[nd.parent as int].left == n1[nd.parent as int].left);
    }
    if colors_ok(n1, root, g, bhf) {
        assert forall|n: usize| live(g, n) implies #[trigger] bh_node_ok(n2, g, n) by {
            assert(node_struct_ok(n1, root, g, n));
            assert(bh_node_ok(n1, g, n));
            let nd = n1[n as int];
            assert(n2[n as int].left == nd.left);
        }
        assert forall|n: usize| live(g, n) implies #[trigger] red_node_ok(n2, n) by {
            assert(node_struct_ok(n1, root, g, n));
            assert(red_node_ok(n1, n));
            let nd = n1[n as int];
            assert(n2[n as int].left == nd.left);
            assert(n2[nd.left as int].color == n1[nd.left as int].color);
            assert(n2[nd.right as int].color == n1[nd.right as int].color);
        }
        if root != 0 {
            assert(live(g, root));
        }
    }
}

/// Shortening the piece at `curr` to `o` bytes and refreshing its own lengths leaves stale
/// lengths only on slots whose interval holds `curr`.
proof fn lemma_shorten(n1: Seq<Node>, n2: Seq<Node>, n3: Seq<Node>, root: usize, g: Shape, bhf: usize, curr: usize, o: usize)
    requires
        tree_ok(n1, root, g, bhf),
        live(g, curr),
        0 < o < n1[curr as int].length,
        n2 == n1.update(curr as int, Node { length: o, ..n1[curr as int] }),
        n3 == n2.update(
            curr as int,
            with_lengths(
                n2[curr as int],
                n2[n2[curr as int].left as int].subtree_length + n2[n2[curr as int].right as int].subtree_length + o,
                n2[n2[curr as int].left as int].subtree_length as int,
            ),
        ),
    ensures
        struct_ok(n3, root, g),
        colors_ok(n3, root, g, bhf),
        pieces_nonempty(n3, g),
        total_fits(n3, g),
        sum_len(n3, g.ord, 0, g.ord.len() as int) == sum_len(n1, g.ord, 0, g.ord.len() as int) - (n1[curr as int].length - o),
        forall|m: usize| live(g, m) ==> #[trigger] len_node_ok(n3, g, m) || (g.lo[m] <= g.pos[curr] < g.hi[m] && m != curr),
        same_links_colors(n1, n3),
{
    let p = g.pos[curr];
    let nl = g.ord.len() as int;
    assert(node_struct_ok(n1, root, g, curr));
    assert(len_node_ok(n1, g, curr));
    assert(n3[0] == n1[0]);
    assert(same_links_colors(n1, n3));
    lemma_links_colors_frame(n1, n3, root, g, bhf);
    // sums away from position p are unchanged
    assert forall|a: int, b: int| 0 <= a <= b <= nl && (b <= p || p < a) implies sum_len(n1, g.ord, a, b) == #[trigger] sum_len(n3, g.ord, a, b) by {
        assert forall|i: int| a <= i < b implies n1[g.ord[i] as int].length == n3[g.ord[i] as int].length by {
            assert(g.pos.dom().contains(g.ord[i]));
            assert(g.ord[i] != curr);
        }
        lemma_sum_same(n1, n3, g.ord, a, b);
    }
    lemma_sum_split(n1, g.ord, 0, p, nl);
    lemma_sum_split(n1, g.ord, p, p + 1, nl);
    lemma_sum_split(n3, g.ord, 0, p, nl);
    lemma_sum_split(n3, g.ord, p, p + 1, nl);
    lemma_sum_one(n1, g.ord, p);
    lemma_sum_one(n3, g.ord, p);
    assert(g.ord[p] == curr);
    let l = n1[curr as int].left;
    let r = n1[curr as int].right;
    if l != 0 {
        assert(node_struct_ok(n1, root, g, l));
        assert(len_node_ok(n1, g, l));
    }
    if r != 0 {
        assert(node_struct_ok(n1, root, g, r));
        assert(len_node_ok(n1, g, r));
    }
    lemma_sum_split(n3, g.ord, g.lo[curr], p, g.hi[curr]);
    lemma_sum_split(n3, g.ord, p, p + 1, g.hi[curr]);
    lemma_sum_mono(n3, g.ord, 0, g.lo[curr], g.hi[curr], nl);
    lemma_sum_nonneg(n3, g.ord, g.lo[curr], p);
    lemma_sum_nonneg(n3, g.ord, p + 1, g.hi[curr]);
    assert(len_node_ok(n3, g, curr));
    assert forall|m: usize| live(g, m) implies #[trigger] len_node_ok(n3, g, m) || (g.lo[m] <= g.pos[curr] < g.hi[m] && m != curr) by {
        if m != curr && !(g.lo[m] <= g.pos[curr] < g.hi[m]) {
            assert(node_struct_ok(n1, root, g, m));
            assert(len_node_ok(n1, g, m));
        }
    }
    assert forall|i: int| 0 <= i < nl implies #[trigger] n3[g.ord[i] as int].length > 0 by {
        assert(n1[g.ord[i] as int].length > 0);
        assert(g.pos.dom().contains(g.ord[i]));
    }
}

/// Appending a fresh slot to the arena changes nothing about the tree.
pub(crate) proof fn lemma_push_frame(n1: Seq<Node>, x: Node, root: usize, g: Shape, bhf: usize)
    requires
        struct_ok(n1, root, g),
        total_fits(n1, g),
    ensures
        struct_ok(n1.push(x), root, g),
        total_fits(n1.push(x), g),
        colors_ok(n1, root, g, bhf) ==> colors_ok(n1.push(x), root, g, bhf),
        pieces_nonempty(n1, g) ==> pieces_nonempty(n1.push(x), g),
        forall|m: usize| live(g, m) ==> (#[trigger] len_node_ok(n1.push(x), g, m) <==> len_node_ok(n1, g, m)),
        sum_len(n1.push(x), g.ord, 0, g.ord.len() as int) == sum_len(n1, g.ord, 0, g.ord.len() as int),
        same_pieces(n1, n1.push(x).subrange(0, n1.len() as int)),
{
    let n2 = n1.push(x);
    assert(same_links_colors(n1, n2));
    lemma_links_colors_frame(n1, n2, root, g, bhf);
    assert forall|a: int, b: int| 0 <= a && b <= g.ord.len() implies sum_len(n1, g.ord, a, b) == #[trigger] sum_len(n2, g.ord, a, b) by {
        assert forall|i: int| a <= i < b implies n1[g.ord[i] as int].length == n2[g.ord[i] as int].length by {
            assert(g.pos.dom().contains(g.ord[i]));
        }
        lemma_sum_same(n1, n2, g.ord, a, b);
    }
    assert forall|m: usize| live(g, m) implies (#[trigger] len_node_ok(n2, g, m) <==> len_node_ok(n1, g, m)) by {
        assert(node_struct_ok(n1, root, g, m));
    }
    if pieces_nonempty(n1, g) {
        assert forall|i: int| 0 <= i < g.ord.len() implies #[trigger] n2[g.ord[i] as int].length > 0 by {
            assert(g.pos.dom().contains(g.ord[i]));
            assert(n1[g.ord[i] as int].length > 0);
        }
    }
    assert(same_pieces(n1, n2.subrange(0, n1.len() as int)));
}

/// Text after splitting the piece at position `p` at offset `o` and placing `nn` and the
/// right half `rn` after the left half.
proof fn lemma_split_text(
    n0: Seq<Node>,
    n3: Seq<Node>,
    n5: Seq<Node>,
    ord: Seq<usize>,
    orig: Seq<u8>,
    add: Seq<u8>,
    p: int,
    o: int,
    curr: usize,
    nn: usize,
    rn: usize,
)
    requires
        0 <= p < ord.len(),
        ord[p] == curr,
        forall|i: int| 0 <= i < ord.len() && i != p ==> #[trigger] piece_bytes(n3[ord[i] as int], orig, add) == piece_bytes(n0[ord[i] as int], orig, add),
        forall|i: int| 0 <= i < ord.len() ==> #[trigger] piece_bytes(n5[ord[i] as int], orig, add) == piece_bytes(n3[ord[i] as int], orig, add),
        piece_bytes(n5[rn as int], orig, add) == piece_bytes(n0[curr as int], orig, add).subrange(o, n0[curr as int].length as int),
        piece_bytes(n3[curr as int], orig, add) == piece_bytes(n0[curr as int], orig, add).subrange(0, o),
        piece_bytes(n5[nn as int], orig, add) == piece_bytes(n0[nn as int], orig, add),
    ensures
        text_of(n5, ord.insert(p + 1, nn).insert(p + 2, rn), orig, add, 0, ord.len() + 2int) == text_of(n0, ord, orig, add, 0, p) + piece_bytes(n0[curr as int], orig, add).subrange(0, o)
            + piece_bytes(n0[nn as int], orig, add) + piece_bytes(n0[curr as int], orig, add).subrange(o, n0[curr as int].length as int)
            + text_of(n0, ord, orig, add, p + 1, ord.len() as int),
{
    let nl = ord.len() as int;
    let ord4 = ord.insert(p + 1, nn);
    let ord5 = ord4.insert(p + 2, rn);
    assert forall|i: int| 0 <= i < p implies #[trigger] piece_bytes(n3[ord[i] as int], orig, add) == piece_bytes(n0[ord[i + 0] as int], orig, add) by {}
    crate::text::lemma_text_shift(n3, ord, orig, add, n0, ord, orig, add, 0, p, 0);
    assert forall|i: int| p + 1 <= i < nl implies #[trigger] piece_bytes(n3[ord[i] as int], orig, add) == piece_bytes(n0[ord[i + 0] as int], orig, add) by {}
    crate::text::lemma_text_shift(n3, ord, orig, add, n0, ord, orig, add, p + 1, nl, 0);
    lemma_text_split(n3, ord, orig, add, 0, p, p + 1);
    lemma_text_one(n3, ord, orig, add, p);
    lemma_text_insert(n3, ord, n5, ord4, orig, add, p + 1, nn);
    lemma_text_insert(n5, ord4, n5, ord5, orig, add, p + 2, rn);
    lemma_text_split(n5, ord4, orig, add, 0, p + 1, p + 2);
    lemma_text_one(n5, ord4, orig, add, p + 1);
    assert(ord4[p + 1] == nn);
    let a = text_of(n0, ord, orig, add, 0, p);
    let b = piece_bytes(n0[curr as int], orig, add).subrange(0, o);
    let c = piece_bytes(n0[nn as int], orig, add);
    let d = piece_bytes(n0[curr as int], orig, add).subrange(o, n0[curr as int].length as int);
    let e = text_of(n0, ord, orig, add, p + 1, nl);
    assert(text_of(n5, ord5, orig, add, 0, nl + 2) =~= a + b + c + d + e);
}

/// Splicing `c` at offset `o` of the middle part of `a + P + e`.
proof fn lemma_splice_mid(a: Seq<u8>, pp: Seq<u8>, c: Seq<u8>, e: Seq<u8>, o: int)
    requires
        0 <= o <= pp.len(),
    ensures
        ({
            let t = a + pp + e;
            let i = a.len() + o;
            t.subrange(0, i) + c + t.subrange(i, t.len() as int) == a + pp.subrange(0, o) + c + pp.subrange(o, pp.len() as int) + e
        }),
{
    let t = a + pp + e;
    let i = a.len() + o;
    assert(t.subrange(0, i) =~= a + pp.subrange(0, o));
    assert(t.subrange(i, t.len() as int) =~= pp.subrange(o, pp.len() as int) + e);
    assert(t.subrange(0, i) + c + t.subrange(i, t.len() as int) =~= a + pp.subrange(0, o) + c + pp.subrange(o, pp.len() as int) + e);
}

/// Adding a well-formed piece to an order of well-formed pieces keeps them all well-formed.
proof fn lemma_utf8_insert(n0: Seq<Node>, g0: Shape, n1: Seq<Node>, g1: Shape, orig: Seq<u8>, add: Seq<u8>, k: int, nn: usize)
    requires
        ord_ok(n0, g0),
        pieces_utf8(n0, g0, orig, add),
        same_pieces(n0, n1),
        0 <= k <= g0.ord.len(),
        g1.ord == g0.ord.insert(k, nn),
        0 <= nn < n0.len(),
        valid_utf8(piece_bytes(n0[nn as int], orig, add)),
    ensures
        pieces_utf8(n1, g1, orig, add),
{
    assert forall|i: int| 0 <= i < g1.ord.len() implies #[trigger] valid_utf8(piece_bytes(n1[g1.ord[i] as int], orig, add)) by {
        if i == k {
            assert(piece_bytes(n1[nn as int], orig, add) == piece_bytes(n0[nn as int], orig, add));
        } else {
            let j = if i < k { i } else { i - 1 };
            assert(g1.ord[i] == g0.ord[j]);
            assert(g0.pos.dom().contains(g0.ord[j]));
            assert(valid_utf8(piece_bytes(n0[g0.ord[j] as int], orig, add)));
            assert(piece_bytes(n1[g0.ord[j] as int], orig, add) == piece_bytes(n0[g0.ord[j] as int], orig, add));
        }
    }
}

impl RedBlackTree {
    proof fn lemma_split_finish(
        n0: Seq<Node>,
        n2: Seq<Node>,
        n3: Seq<Node>,
        n4: Seq<Node>,
        n5: Seq<Node>,
        g0: Shape,
        g4: Shape,
        g5: Shape,
        orig: Seq<u8>,
        add: Seq<u8>,
        p: int,
        o: int,
        curr: usize,
        nn: usize,
        rn: usize,
    )
        requires
            ord_ok(n0, g0),
            pieces_in_bounds(n0, g0, orig.len(), add.len()),
            orig.len() <= usize::MAX,
            add.len() <= usize::MAX,
            live(g0, curr),
            g0.pos[curr] == p,
            0 < o < n0[curr as int].length,
            n2.len() == n0.len(),
            forall|i: int| 0 <= i < n0.len() && i != curr ==> (#[trigger] n2[i]).start == n0[i].start && n2[i].length == n0[i].length
                && n2[i].buffer_type == n0[i].buffer_type,
            n2[curr as int].start == n0[curr as int].start,
            n2[curr as int].buffer_type == n0[curr as int].buffer_type,
            n2[curr as int].length == o,
            n3 == n2.push(crate::node::fresh_piece(n0[curr as int].buffer_type, (n0[curr as int].start + o) as usize, (n0[curr as int].length - o) as usize)),
            same_pieces(n3, n4),
            same_pieces(n4, n5),
            g4.ord == g0.ord.insert(p + 1, nn),
            g5.ord == g4.ord.insert(p + 2, rn),
            0 < nn < n0.len(),
            !live(g0, nn),
            rn == n0.len(),
            piece_in_bounds(n0[nn as int], orig.len(), add.len()),
        ensures
            pieces_in_bounds(n5, g5, orig.len(), add.len()),
            ({
                let t = doc(n0, g0, orig, add);
                let i = sum_len(n0, g0.ord, 0, p) + o;
                doc(n5, g5, orig, add) == t.subrange(0, i) + piece_bytes(n0[nn as int], orig, add) + t.subrange(i, t.len() as int)
            }),
            pieces_utf8(n0, g0, orig, add) && valid_utf8(piece_bytes(n0[nn as int], orig, add))
                && valid_utf8(piece_bytes(n0[curr as int], orig, add).subrange(0, o))
                && valid_utf8(piece_bytes(n0[curr as int], orig, add).subrange(o, n0[curr as int].length as int))
                ==> pieces_utf8(n5, g5, orig, add),
    {
        let ord = g0.ord;
        let nl = ord.len() as int;
        let pp = piece_bytes(n0[curr as int], orig, add);
        assert(ord[p] == curr);
        assert(piece_in_bounds(n0[ord[p] as int], orig.len(), add.len()));
        assert forall|i: int| 0 <= i < nl && i != p implies #[trigger] piece_bytes(n3[ord[i] as int], orig, add) == piece_bytes(n0[ord[i] as int], orig, add) by {
            assert(g0.pos.dom().contains(ord[i]));
            assert(ord[i] != curr);
            assert(n3[ord[i] as int] == n2[ord[i] as int]);
        }
        assert forall|i: int| 0 <= i < nl implies #[trigger] piece_bytes(n5[ord[i] as int], orig, add) == piece_bytes(n3[ord[i] as int], orig, add) by {
            assert(g0.pos.dom().contains(ord[i]));
            assert(n5[ord[i] as int].start == n3[ord[i] as int].start);
            assert(n5[ord[i] as int].length == n3[ord[i] as int].length);
            assert(n5[ord[i] as int].buffer_type == n3[ord[i] as int].buffer_type);
        }
        assert(piece_bytes(n3[curr as int], orig, add) =~= pp.subrange(0, o));
        assert(piece_bytes(n5[rn as int], orig, add) =~= pp.subrange(o, n0[curr as int].length as int)) by {
            assert(n3[rn as int].start == n0[curr as int].start + o);
            assert(n3[rn as int].length == n0[curr as int].length - o);
            assert(n5[rn as int].start == n3[rn as int].start);
            assert(n5[rn as int].length == n3[rn as int].length);
            assert(n5[rn as int].buffer_type == n3[rn as int].buffer_type);
        }
        assert(piece_bytes(n5[nn as int], orig, add) == piece_bytes(n0[nn as int], orig, add)) by {
            assert(n3[nn as int] == n2[nn as int]);
            assert(n5[nn as int].start == n3[nn as int].start);
            assert(n5[nn as int].length == n3[nn as int].length);
            assert(n5[nn as int].buffer_type == n3[nn as int].buffer_type);
        }
        lemma_split_text(n0, n3, n5, ord, orig, add, p, o, curr, nn, rn);
        lemma_text_split(n0, ord, orig, add, 0, p, nl);
        lemma_text_split(n0, ord, orig, add, p, p + 1, nl);
        lemma_text_one(n0, ord, orig, add, p);
        assert forall|i: int| 0 <= i < p implies #[trigger] piece_in_bounds(n0[ord[i] as int], orig.len(), add.len()) by {}
        lemma_text_len(n0, ord, orig, add, 0, p);
        lemma_splice_mid(text_of(n0, ord, orig, add, 0, p), pp, piece_bytes(n0[nn as int], orig, add), text_of(n0, ord, orig, add, p + 1, nl), o);
        assert(pp.len() == n0[curr as int].length);
        assert forall|i: int| 0 <= i < g5.ord.len() implies #[trigger] piece_in_bounds(n5[g5.ord[i] as int], orig.len(), add.len()) by {
            let x = g5.ord[i];
            if x != rn && x != nn {
                let j = if i <= p { i } else { i - 2 };
                assert(g5.ord[i] == ord[j]) by {
                    if i <= p {
                        assert(g5.ord[i] == g4.ord[i]);
                    } else {
                        assert(i > p + 2);
                        assert(g5.ord[i] == g4.ord[i - 1]);
                    }
                }
                assert(0 <= j < nl);
                assert(g0.pos.dom().contains(ord[j]));
                assert(piece_in_bounds(n0[ord[j] as int], orig.len(), add.len()));
                assert(n5[x as int].start == n3[x as int].start);
                assert(n5[x as int].length == n3[x as int].length);
                assert(n5[x as int].buffer_type == n3[x as int].buffer_type);
            } else {
                assert(n5[x as int].start == n3[x as int].start);
                assert(n5[x as int].length == n3[x as int].length);
                assert(n5[x as int].buffer_type == n3[x as int].buffer_type);
            }
        }
        if pieces_utf8(n0, g0, orig, add) && valid_utf8(piece_bytes(n0[nn as int], orig, add))
            && valid_utf8(pp.subrange(0, o)) && valid_utf8(pp.subrange(o, n0[curr as int].length as int)) {
            assert forall|i: int| 0 <= i < g5.ord.len() implies #[trigger] valid_utf8(piece_bytes(n5[g5.ord[i] as int], orig, add)) by {
                let x = g5.ord[i];
                if x != rn && x != nn {
                    let j = if i <= p { i } else { i - 2 };
                    assert(g5.ord[i] == ord[j]) by {
                        if i <= p {
                            assert(g5.ord[i] == g4.ord[i]);
                        } else {
                            assert(i > p + 2);
                            assert(g5.ord[i] == g4.ord[i - 1]);
                        }
                    }
                    assert(valid_utf8(piece_bytes(n0[ord[j] as int], orig, add)));
                    if j == p {
                        assert(piece_bytes(n5[x as int], orig, add) == piece_bytes(n3[x as int], orig, add));
                    }
                }
            }
        }
    }

    /// Places the fresh piece `new_node` so that its bytes start at document offset `index`
    /// (or at the end when `index` is past it).
    #[verifier::spinoff_prover]
    #[verifier::rlimit(40)]
    pub(crate) fn insert_into_tree(
        &mut self,
        nodes: &mut Vec<Node>,
        new_node: usize,
        index: usize,
        Ghost(orig): Ghost<Seq<u8>>,
        Ghost(add): Ghost<Seq<u8>>,
    )
        requires
            tree_ok(old(nodes)@, old(self).root_node, old(self).shape@, old(self).black_height),
            pieces_in_bounds(old(nodes)@, old(self).shape@, orig.len(), add.len()),
            orig.len() <= usize::MAX,
            add.len() <= usize::MAX,
            !live(old(self).shape@, new_node),
            0 < new_node < old(nodes).len(),
            old(nodes)@[new_node as int].left == 0,
            old(nodes)@[new_node as int].right == 0,
            old(nodes)@[new_node as int].parent == 0,
            old(nodes)@[new_node as int].subtree_length == old(nodes)@[new_node as int].length,
            old(nodes)@[new_node as int].left_subtree_length == 0,
            old(nodes)@[new_node as int].length > 0,
            piece_in_bounds(old(nodes)@[new_node as int], orig.len(), add.len()),
            sum_len(old(nodes)@, old(self).shape@.ord, 0, old(self).shape@.ord.len() as int) + old(nodes)@[new_node as int].length
                <= usize::MAX,
        ensures
            tree_ok(final(nodes)@, final(self).root_node, final(self).shape@, final(self).black_height),
            pieces_in_bounds(final(nodes)@, final(self).shape@, orig.len(), add.len()),
            old(nodes).len() <= final(nodes).len(),
            ({
                let t = doc(old(nodes)@, old(self).shape@, orig, add);
                let i = if index < t.len() { index as int } else { t.len() as int };
                doc(final(nodes)@, final(self).shape@, orig, add) == t.subrange(0, i) + piece_bytes(
                    old(nodes)@[new_node as int],
                    orig,
                    add,
                ) + t.subrange(i, t.len() as int)
            }),
            ({
                let t = doc(old(nodes)@, old(self).shape@, orig, add);
                let i = if index < t.len() { index as int } else { t.len() as int };
                pieces_utf8(old(nodes)@, old(self).shape@, orig, add) && valid_utf8(piece_bytes(old(nodes)@[new_node as int], orig, add))
                    && cut_ok(t, i) ==> pieces_utf8(final(nodes)@, final(self).shape@, orig, add)
            }),
            final(self).shape@.ord.len() == old(self).shape@.ord.len() + (if at_piece_start(
                old(nodes)@,
                old(self).shape@.ord,
                index as int,
            ) {
                1int
            } else {
                2int
            }),
            old(self).black_height <= final(self).black_height <= old(self).black_height + 2,
            old(self).root_node == 0 ==> final(self).root_node == new_node && final(self).black_height == 1
                && final(nodes)@[new_node as int].color == Color::Black,
            ({
                let o0 = old(self).shape@.ord;
                let tot = sum_len(old(nodes)@, o0, 0, o0.len() as int);
                let k = if index < tot { index as int } else { tot };
                spans_kept(lens_of(old(nodes)@, o0), spans_of(old(nodes)@, o0), spans_of(final(nodes)@, final(self).shape@.ord), k, k)
            }),
            ({
                let o0 = old(self).shape@.ord;
                let tot = sum_len(old(nodes)@, o0, 0, o0.len() as int);
                let k = if index < tot { index as int } else { tot };
                lens_of(final(nodes)@, final(self).shape@.ord) == lengths_after_insert(lens_of(old(nodes)@, o0), k,
                    old(nodes)@[new_node as int].length as int)
            }),
    {
        let ghost n0 = nodes@;
        let ghost g0 = self.shape@;
        let ghost root0 = self.root_node;
        let ghost nl = g0.ord.len() as int;
        let ghost t0 = doc(n0, g0, orig, add);
        proof {
            assert forall|i: int| 0 <= i < nl implies #[trigger] piece_in_bounds(n0[g0.ord[i] as int], orig.len(), add.len()) by {}
            lemma_text_len(n0, g0.ord, orig, add, 0, nl);
        }
        if self.root_node == 0 {
            nodes[new_node].color = Color::Black;
            self.root_node = new_node;
            self.black_height = 1;
            let ghost g1 = Shape {
                ord: seq![new_node],
                pos: map![new_node => 0int],
                lo: map![new_node => 0int],
                hi: map![new_node => 1int],
                bh: map![new_node => 1nat],
            };
            self.shape = Ghost(g1);
            proof {
                Self::lemma_first_piece(n0, nodes@, g0, g1, new_node, orig, add);
                assert(spans_of(n0, g0.ord).len() == 0);
                assert(lens_of(n0, g0.ord) =~= Seq::<int>::empty());
                assert(lengths_after_insert(lens_of(n0, g0.ord), 0, n0[new_node as int].length as int)
                    =~= seq![n0[new_node as int].length as int]);
                assert(lens_of(nodes@, g1.ord) =~= seq![n0[new_node as int].length as int]);
            }
            return;
        }
        proof {
            assert(node_struct_ok(n0, root0, g0, root0));
            assert(len_node_ok(n0, g0, root0));
        }
        if index >= nodes[self.root_node].subtree_length {
            let mut rightmost = self.root_node;
            while nodes[rightmost].right != 0
                invariant
                    nodes@ == n0,
                    struct_ok(n0, root0, g0),
                    live(g0, rightmost),
                    g0.hi[rightmost] == nl,
                decreases g0.hi[rightmost] - g0.lo[rightmost],
            {
                proof {
                    assert(node_struct_ok(n0, root0, g0, rightmost));
                    assert(node_struct_ok(n0, root0, g0, n0[rightmost as int].right));
                }
                rightmost = nodes[rightmost].right;
            }
            proof {
                assert(node_struct_ok(n0, root0, g0, rightmost));
                assert(forall|m: usize| live(g0, m) ==> #[trigger] len_node_ok(n0, g0, m));
            }
            self.insert_node_after(nodes, rightmost, new_node);
            proof {
                crate::shape::lemma_sum_same_pieces(n0, n0, g0);
                Self::lemma_insert_text(n0, nodes@, g0, self.shape@, orig, add, nl, new_node);
                assert(t0.subrange(0, t0.len() as int) =~= t0);
                assert(t0.subrange(t0.len() as int, t0.len() as int) =~= Seq::<u8>::empty());
                assert(t0.subrange(0, t0.len() as int) + piece_bytes(n0[new_node as int], orig, add) + t0.subrange(t0.len() as int, t0.len() as int) =~= text_of(n0, g0.ord, orig, add, 0, nl) + piece_bytes(n0[new_node as int], orig, add) + text_of(n0, g0.ord, orig, add, nl, nl));
                if pieces_utf8(n0, g0, orig, add) && valid_utf8(piece_bytes(n0[new_node as int], orig, add)) {
                    lemma_utf8_insert(n0, g0, nodes@, self.shape@, orig, add, nl, new_node);
                }
                Self::lemma_spans_insert(n0, g0, nodes@, self.shape@.ord, nl, nl, sum_len(n0, g0.ord, 0, nl));
                Self::lemma_lens_insert_at(n0, g0, nodes@, self.shape@.ord, nl, new_node);
                lemma_lens_positive(n0, g0);
                lemma_lens_prefix(n0, g0.ord, nl);
                lemma_insert_at_end(lens_of(n0, g0.ord), n0[new_node as int].length as int);
            }
            return;
        }
        let mut idx = index;
        let mut curr = self.root_node;
        while curr != 0
            invariant
                nodes@ == n0,
                tree_ok(n0, root0, g0, self.black_height),
                curr != 0,
                live(g0, curr),
                sum_len(n0, g0.ord, 0, g0.lo[curr]) + idx == index,
                idx < sum_len(n0, g0.ord, g0.lo[curr], g0.hi[curr]),
            ensures
                live(g0, curr),
                sum_len(n0, g0.ord, 0, g0.lo[curr]) + idx == index,
                n0[curr as int].left_subtree_length <= idx < n0[curr as int].left_subtree_length + n0[curr as int].length,
            decreases g0.hi[curr] - g0.lo[curr],
        {
            proof {
                Self::lemma_descend(n0, root0, g0, curr);
            }
            let left_len = nodes[curr].left_subtree_length;
            let node_len = nodes[curr].length;
            if idx < left_len {
                curr = nodes[curr].left;
            } else if idx >= left_len + node_len {
                idx = idx - (left_len + node_len);
                curr = nodes[curr].right;
            } else {
                break;
            }
        }
        let ghost p = g0.pos[curr];
        proof {
            Self::lemma_descend(n0, root0, g0, curr);
            assert(forall|m: usize| live(g0, m) ==> #[trigger] len_node_ok(n0, g0, m));
        }
        let offset = idx - nodes[curr].left_subtree_length;
        if offset == 0 {
            self.insert_node_before(nodes, curr, new_node);
            proof {
                Self::lemma_insert_text(n0, nodes@, g0, self.shape@, orig, add, p, new_node);
                lemma_text_split(n0, g0.ord, orig, add, 0, p, nl);
                assert forall|i: int| 0 <= i < p implies #[trigger] piece_in_bounds(n0[g0.ord[i] as int], orig.len(), add.len()) by {}
                lemma_text_len(n0, g0.ord, orig, add, 0, p);
                assert(t0.subrange(0, index as int) =~= text_of(n0, g0.ord, orig, add, 0, p));
                assert(t0.subrange(index as int, t0.len() as int) =~= text_of(n0, g0.ord, orig, add, p, nl));
                if pieces_utf8(n0, g0, orig, add) && valid_utf8(piece_bytes(n0[new_node as int], orig, add)) {
                    lemma_utf8_insert(n0, g0, nodes@, self.shape@, orig, add, p, new_node);
                }
                assert(sum_len(n0, g0.ord, 0, p) == index as int);
                assert(at_piece_start(n0, g0.ord, index as int));
                Self::lemma_spans_insert(n0, g0, nodes@, self.shape@.ord, p, p, index as int);
                Self::lemma_lens_insert_at(n0, g0, nodes@, self.shape@.ord, p, new_node);
                Self::lemma_lens_within(n0, g0, p, index as int, n0[new_node as int].length as int);
            }
        } else {
            proof {
                lemma_inside_piece(n0, g0.ord, p, index as int);
            }
            self.split_and_insert(nodes, idx, curr, new_node, Ghost(orig), Ghost(add));
            proof {
                Self::lemma_spans_insert(n0, g0, nodes@, self.shape@.ord, p, p + 1, index as int);
                Self::lemma_lens_within(n0, g0, p, index as int, n0[new_node as int].length as int);
            }
        }
    }

    /// A piece insertion at offset `k` that keeps the pieces below position `pa` in place,
    /// those from `pb` on as the tail of the new order, and their buffer ranges: `k` starts
    /// the piece at `pa == pb`, or lies inside the piece at `pa == pb - 1`.
    proof fn lemma_spans_insert(n0: Seq<Node>, g0: Shape, n1: Seq<Node>, o1: Seq<usize>, pa: int, pb: int, k: int)
        requires
            ord_ok(n0, g0),
            pieces_nonempty(n0, g0),
            0 <= pa <= pb <= g0.ord.len(),
            pb == pa || pb == pa + 1,
            pa == pb ==> k == sum_len(n0, g0.ord, 0, pa),
            pb == pa + 1 ==> sum_len(n0, g0.ord, 0, pa) < k < sum_len(n0, g0.ord, 0, pa + 1),
            g0.ord.len() - pb <= o1.len() - pa,
            forall|q: int| 0 <= q < pa ==> #[trigger] o1[q] == g0.ord[q],
            forall|q: int| pb <= q < g0.ord.len() ==> o1[q + o1.len() - g0.ord.len()] == #[trigger] g0.ord[q],
            forall|x: int| 0 <= x < n0.len() && (pa == pb || x != g0.ord[pa]) ==> (#[trigger] n1[x]).start == n0[x].start
                && n1[x].length == n0[x].length && n1[x].buffer_type == n0[x].buffer_type,
        ensures
            spans_kept(lens_of(n0, g0.ord), spans_of(n0, g0.ord), spans_of(n1, o1), k, k),
    {
        let o0 = g0.ord;
        let nl = o0.len() as int;
        let l0 = lens_of(n0, o0);
        lemma_lens_positive(n0, g0);
        lemma_lens_prefix(n0, o0, pa);
        if pa < nl {
            lemma_lens_prefix(n0, o0, pa + 1);
            assert(g0.pos.dom().contains(o0[pa]));
            assert(prefix_sum(l0, pa + 1) == prefix_sum(l0, pa) + l0[pa]);
        }
        if pb > 0 {
            lemma_lens_prefix(n0, o0, pb - 1);
            assert(g0.pos.dom().contains(o0[pb - 1]));
            assert(prefix_sum(l0, pb) == prefix_sum(l0, pb - 1) + l0[pb - 1]);
            lemma_lens_prefix(n0, o0, pb);
        }
        let sp0 = spans_of(n0, o0);
        let sp1 = spans_of(n1, o1);
        assert forall|q: int| 0 <= q < sp0.len() && prefix_sum(l0, q + 1) <= k implies sp1[q] == #[trigger] sp0[q] by {
            if q >= pa {
                lemma_prefix_mono(l0, pa + 1, q + 1);
            }
            assert(o1[q] == o0[q]);
            assert(g0.pos.dom().contains(o0[q]));
        }
        assert forall|q: int| 0 <= q < sp0.len() && prefix_sum(l0, q) >= k implies sp1[q + sp1.len() - sp0.len()]
            == #[trigger] sp0[q] by {
            if q < pb {
                lemma_prefix_mono(l0, q, pb - 1);
            }
            assert(o1[q + o1.len() - o0.len()] == o0[q]);
            assert(g0.pos.dom().contains(o0[q]));
            if pb == pa + 1 {
                assert(g0.pos.dom().contains(o0[pa]));
            }
        }
    }

    /// Piece lengths after the piece `curr` at position `p` keeps its first `off` bytes, the
    /// fresh piece `nn` follows it, and the fresh slot `right` holds the rest of `curr`.
    proof fn lemma_split_lens(n0: Seq<Node>, g0: Shape, n1: Seq<Node>, o1: Seq<usize>, p: int, curr: usize, nn: usize,
        right: usize, off: int)
        requires
            ord_ok(n0, g0),
            0 <= p < g0.ord.len(),
            g0.ord[p] == curr,
            !live(g0, nn),
            nn < n0.len(),
            n0.len() <= right,
            o1 == g0.ord.insert(p + 1, nn).insert(p + 2, right),
            forall|x: int| 0 <= x < n0.len() && x != curr ==> (#[trigger] n1[x]).length == n0[x].length,
            n1[curr as int].length == off,
            n1[right as int].length == n0[curr as int].length - off,
        ensures
            lens_of(n1, o1) == lens_of(n0, g0.ord).subrange(0, p) + seq![off, n0[nn as int].length as int, n0[curr as int].length - off]
                + lens_of(n0, g0.ord).subrange(p + 1, g0.ord.len() as int),
    {
        let l0 = lens_of(n0, g0.ord);
        let nl = g0.ord.len() as int;
        let want = l0.subrange(0, p) + seq![off, n0[nn as int].length as int, n0[curr as int].length - off] + l0.subrange(p + 1, nl);
        let l1 = lens_of(n1, o1);
        assert(l1.len() == want.len());
        assert(nn != curr) by {
            assert(g0.pos.dom().contains(g0.ord[p]));
        }
        assert forall|k: int| 0 <= k < l1.len() implies #[trigger] l1[k] == want[k] by {
            if k < p {
                assert(o1[k] == g0.ord[k]);
                assert(g0.pos.dom().contains(g0.ord[k]));
                assert(g0.ord[k] != curr);
            } else if k > p + 2 {
                assert(o1[k] == g0.ord[k - 2]);
                assert(g0.pos.dom().contains(g0.ord[k - 2]));
                assert(g0.ord[k - 2] != curr);
            } else if k == p {
                assert(o1[k] == curr);
            } else if k == p + 1 {
                assert(o1[k] == nn);
            } else {
                assert(o1[k] == right);
            }
        }
        assert(l1 =~= want);
    }

    /// Piece lengths after the fresh piece `nn` goes in at position `p` of the order.
    proof fn lemma_lens_insert_at(n0: Seq<Node>, g0: Shape, n1: Seq<Node>, o1: Seq<usize>, p: int, nn: usize)
        requires
            ord_ok(n0, g0),
            0 <= p <= g0.ord.len(),
            0 < nn < n0.len(),
            same_pieces(n0, n1),
            o1 == g0.ord.insert(p, nn),
        ensures
            lens_of(n1, o1) == lens_of(n0, g0.ord).insert(p, n0[nn as int].length as int),
    {
        let l1 = lens_of(n1, o1);
        let want = lens_of(n0, g0.ord).insert(p, n0[nn as int].length as int);
        assert forall|k: int| 0 <= k < l1.len() implies #[trigger] l1[k] == want[k] by {
            if k < p {
                assert(g0.pos.dom().contains(g0.ord[k]));
            } else if k > p {
                assert(g0.pos.dom().contains(g0.ord[k - 1]));
            }
        }
        assert(l1 =~= want);
    }

    /// `lengths_after_insert` at an offset inside the piece at position `p`, or at its start.
    proof fn lemma_lens_within(n0: Seq<Node>, g0: Shape, p: int, i: int, c: int)
        requires
            ord_ok(n0, g0),
            pieces_nonempty(n0, g0),
            0 <= p < g0.ord.len(),
            sum_len(n0, g0.ord, 0, p) <= i < sum_len(n0, g0.ord, 0, p + 1),
        ensures
            ({
                let l0 = lens_of(n0, g0.ord);
                let b = sum_len(n0, g0.ord, 0, p);
                let len = n0[g0.ord[p] as int].length as int;
                lengths_after_insert(l0, i, c) == if i == b {
                    l0.insert(p, c)
                } else {
                    l0.subrange(0, p) + seq![i - b, c, len - (i - b)] + l0.subrange(p + 1, l0.len() as int)
                }
            }),
    {
        let l0 = lens_of(n0, g0.ord);
        let nl = g0.ord.len() as int;
        lemma_lens_positive(n0, g0);
        lemma_lens_prefix(n0, g0.ord, p);
        lemma_lens_prefix(n0, g0.ord, p + 1);
        lemma_insert_within(l0, i, c, p);
        if i == sum_len(n0, g0.ord, 0, p) {
            assert(l0.subrange(0, p) + piece_with_insert(l0, i, c, p) + l0.subrange(p + 1, nl) =~= l0.insert(p, c));
        }
    }

    /// Facts about one step of the descent towards a document offset.
    pub(crate) proof fn lemma_descend(n0: Seq<Node>, root0: usize, g0: Shape, curr: usize)
        requires
            struct_ok(n0, root0, g0),
            lengths_ok(n0, g0),
            total_fits(n0, g0),
            live(g0, curr),
        ensures
            n0[curr as int].left_subtree_length == sum_len(n0, g0.ord, g0.lo[curr], g0.pos[curr]),
            n0[curr as int].left_subtree_length + n0[curr as int].length == sum_len(n0, g0.ord, g0.lo[curr], g0.pos[curr] + 1),
            sum_len(n0, g0.ord, g0.lo[curr], g0.hi[curr]) == sum_len(n0, g0.ord, g0.lo[curr], g0.pos[curr] + 1)
                + sum_len(n0, g0.ord, g0.pos[curr] + 1, g0.hi[curr]),
            sum_len(n0, g0.ord, 0, g0.pos[curr]) == sum_len(n0, g0.ord, 0, g0.lo[curr]) + sum_len(n0, g0.ord, g0.lo[curr], g0.pos[curr]),
            sum_len(n0, g0.ord, 0, g0.pos[curr] + 1) == sum_len(n0, g0.ord, 0, g0.lo[curr]) + sum_len(n0, g0.ord, g0.lo[curr], g0.pos[curr] + 1),
            sum_len(n0, g0.ord, g0.lo[curr], g0.hi[curr]) <= usize::MAX,
            sum_len(n0, g0.ord, g0.lo[curr], g0.pos[curr] + 1) <= usize::MAX,
            n0[curr as int].left != 0 ==> live(g0, n0[curr as int].left) && g0.lo[n0[curr as int].left] == g0.lo[curr]
                && g0.hi[n0[curr as int].left] == g0.pos[curr],
            n0[curr as int].left == 0 ==> g0.lo[curr] == g0.pos[curr],
            n0[curr as int].right != 0 ==> live(g0, n0[curr as int].right) && g0.lo[n0[curr as int].right] == g0.pos[curr] + 1
                && g0.hi[n0[curr as int].right] == g0.hi[curr],
            n0[curr as int].right == 0 ==> g0.hi[curr] == g0.pos[curr] + 1,
            g0.lo[curr] <= g0.pos[curr] < g0.hi[curr],
            g0.ord[g0.pos[curr]] == curr,
    {
        assert(node_struct_ok(n0, root0, g0, curr));
        assert(len_node_ok(n0, g0, curr));
        let p = g0.pos[curr];
        lemma_sum_split(n0, g0.ord, g0.lo[curr], p, p + 1);
        lemma_sum_one(n0, g0.ord, p);
        lemma_sum_split(n0, g0.ord, g0.lo[curr], p + 1, g0.hi[curr]);
        lemma_sum_split(n0, g0.ord, 0, g0.lo[curr], p);
        lemma_sum_split(n0, g0.ord, 0, g0.lo[curr], p + 1);
        lemma_sum_mono(n0, g0.ord, 0, g0.lo[curr], g0.hi[curr], g0.ord.len() as int);
        lemma_sum_nonneg(n0, g0.ord, p + 1, g0.hi[curr]);
    }

    /// Text after a piece insertion at position `k`.
    proof fn lemma_insert_text(n0: Seq<Node>, n1: Seq<Node>, g0: Shape, g1: Shape, orig: Seq<u8>, add: Seq<u8>, k: int, nn: usize)
        requires
            ord_ok(n0, g0),
            0 <= k <= g0.ord.len(),
            0 < nn < n0.len(),
            g1.ord == g0.ord.insert(k, nn),
            same_pieces(n0, n1),
        ensures
            pieces_in_bounds(n0, g0, orig.len(), add.len()) && piece_in_bounds(n0[nn as int], orig.len(), add.len())
                ==> pieces_in_bounds(n1, g1, orig.len(), add.len()),
            doc(n1, g1, orig, add) == text_of(n0, g0.ord, orig, add, 0, k) + piece_bytes(n0[nn as int], orig, add)
                + text_of(n0, g0.ord, orig, add, k, g0.ord.len() as int),
    {
        assert forall|i: int| 0 <= i < g0.ord.len() implies #[trigger] piece_bytes(n1[g0.ord[i] as int], orig, add) == piece_bytes(n0[g0.ord[i] as int], orig, add) by {
            assert(g0.pos.dom().contains(g0.ord[i]));
            assert(n1[g0.ord[i] as int].start == n0[g0.ord[i] as int].start);
        }
        lemma_text_insert(n0, g0.ord, n1, g1.ord, orig, add, k, nn);
        assert(n1[nn as int].start == n0[nn as int].start);
        if pieces_in_bounds(n0, g0, orig.len(), add.len()) && piece_in_bounds(n0[nn as int], orig.len(), add.len()) {
            assert forall|i: int| 0 <= i < g1.ord.len() implies #[trigger] piece_in_bounds(n1[g1.ord[i] as int], orig.len(), add.len()) by {
                let x = g1.ord[i];
                if i != k {
                    let j = if i < k { i } else { i - 1 };
                    assert(x == g0.ord[j]);
                    assert(g0.pos.dom().contains(g0.ord[j]));
                    assert(piece_in_bounds(n0[g0.ord[j] as int], orig.len(), add.len()));
                }
                assert(n1[x as int].start == n0[x as int].start);
            }
        }
    }

    /// The first piece of an empty tree becomes its black root.
    proof fn lemma_first_piece(n0: Seq<Node>, n1: Seq<Node>, g0: Shape, g1: Shape, nn: usize, orig: Seq<u8>, add: Seq<u8>)
        requires
            struct_ok(n0, 0, g0),
            g0.ord.len() == 0,
            0 < nn < n0.len(),
            n0[nn as int].left == 0,
            n0[nn as int].right == 0,
            n0[nn as int].parent == 0,
            n0[nn as int].subtree_length == n0[nn as int].length,
            n0[nn as int].left_subtree_length == 0,
            n0[nn as int].length > 0,
            n1 == n0.update(nn as int, Node { color: Color::Black, ..n0[nn as int] }),
            g1 == (Shape {
                ord: seq![nn],
                pos: map![nn => 0int],
                lo: map![nn => 0int],
                hi: map![nn => 1int],
                bh: map![nn => 1nat],
            }),
        ensures
            tree_ok(n1, nn, g1, 1),
            pieces_in_bounds(n0, g0, orig.len(), add.len()) && piece_in_bounds(n0[nn as int], orig.len(), add.len())
                ==> pieces_in_bounds(n1, g1, orig.len(), add.len()),
            doc(n1, g1, orig, add) == piece_bytes(n0[nn as int], orig, add),
            doc(n0, g0, orig, add) == Seq::<u8>::empty(),
            valid_utf8(piece_bytes(n0[nn as int], orig, add)) ==> pieces_utf8(n1, g1, orig, add),
    {
        assert(n1[0] == n0[0]);
        assert(g1.pos.dom().contains(nn));
        assert(node_struct_ok(n1, nn, g1, nn));
        assert(forall|n: usize| live(g1, n) ==> n == nn);
        lemma_sum_one(n1, g1.ord, 0);
        assert(sum_len(n1, g1.ord, 0, 0) == 0);
        assert(len_node_ok(n1, g1, nn));
        assert(bh_node_ok(n1, g1, nn));
        assert(red_node_ok(n1, nn));
        assert(n1[nn as int].length > 0);
        lemma_text_one(n1, g1.ord, orig, add, 0);
        assert(piece_in_bounds(n1[g1.ord[0] as int], orig.len(), add.len()) == piece_in_bounds(n0[nn as int], orig.len(), add.len()));
    }

    /// Splits the piece `curr_node_idx` at the in-subtree offset `index` and places the
    /// fresh piece `new_node` between the two halves.
    #[verifier::spinoff_prover]
    #[verifier::rlimit(100)]
    pub(crate) fn split_and_insert(
        &mut self,
        nodes: &mut Vec<Node>,
        index: usize,
        curr_node_idx: usize,
        new_node: usize,
        Ghost(orig): Ghost<Seq<u8>>,
        Ghost(add): Ghost<Seq<u8>>,
    )
        requires
            tree_ok(old(nodes)@, old(self).root_node, old(self).shape@, old(self).black_height),
            pieces_in_bounds(old(nodes)@, old(self).shape@, orig.len(), add.len()),
            orig.len() <= usize::MAX,
            add.len() <= usize::MAX,
            live(old(self).shape@, curr_node_idx),
            old(nodes)@[curr_node_idx as int].left_subtree_length < index,
            index < old(nodes)@[curr_node_idx as int].left_subtree_length + old(nodes)@[curr_node_idx as int].length,
            !live(old(self).shape@, new_node),
            0 < new_node < old(nodes).len(),
            old(nodes)@[new_node as int].subtree_length == old(nodes)@[new_node as int].length,
            old(nodes)@[new_node as int].left_subtree_length == 0,
            old(nodes)@[new_node as int].length > 0,
            piece_in_bounds(old(nodes)@[new_node as int], orig.len(), add.len()),
            sum_len(old(nodes)@, old(self).shape@.ord, 0, old(self).shape@.ord.len() as int) + old(nodes)@[new_node as int].length
                <= usize::MAX,
        ensures
            tree_ok(final(nodes)@, final(self).root_node, final(self).shape@, final(self).black_height),
            pieces_in_bounds(final(nodes)@, final(self).shape@, orig.len(), add.len()),
            old(nodes).len() <= final(nodes).len(),
            sum_len(final(nodes)@, final(self).shape@.ord, 0, final(self).shape@.ord.len() as int) == sum_len(
                old(nodes)@,
                old(self).shape@.ord,
                0,
                old(self).shape@.ord.len() as int,
            ) + old(nodes)@[new_node as int].length,
            ({
                let t = doc(old(nodes)@, old(self).shape@, orig, add);
                let i = sum_len(old(nodes)@, old(self).shape@.ord, 0, old(self).shape@.pos[curr_node_idx])
                    + (index - old(nodes)@[curr_node_idx as int].left_subtree_length);
                doc(final(nodes)@, final(self).shape@, orig, add) == t.subrange(0, i) + piece_bytes(
                    old(nodes)@[new_node as int],
                    orig,
                    add,
                ) + t.subrange(i, t.len() as int)
            }),
            ({
                let t = doc(old(nodes)@, old(self).shape@, orig, add);
                let i = sum_len(old(nodes)@, old(self).shape@.ord, 0, old(self).shape@.pos[curr_node_idx])
                    + (index - old(nodes)@[curr_node_idx as int].left_subtree_length);
                pieces_utf8(old(nodes)@, old(self).shape@, orig, add) && valid_utf8(piece_bytes(old(nodes)@[new_node as int], orig, add))
                    && cut_ok(t, i) ==> pieces_utf8(final(nodes)@, final(self).shape@, orig, add)
            }),            final(self).shape@.ord.len() == old(self).shape@.ord.len() + 2,
            old(self).black_height <= final(self).black_height <= old(self).black_height + 2,
            forall|q: int| 0 <= q < old(self).shape@.pos[curr_node_idx] ==> final(self).shape@.ord[q] == #[trigger] old(self).shape@.ord[q],
            forall|q: int| old(self).shape@.pos[curr_node_idx] < q < old(self).shape@.ord.len() ==> final(self).shape@.ord[q + 2]
                == #[trigger] old(self).shape@.ord[q],
            forall|x: int| 0 <= x < old(nodes)@.len() && x != curr_node_idx ==> (#[trigger] final(nodes)@[x]).start == old(nodes)@[x].start
                && final(nodes)@[x].length == old(nodes)@[x].length && final(nodes)@[x].buffer_type == old(nodes)@[x].buffer_type,            ({
                let g = old(self).shape@;
                let l0 = lens_of(old(nodes)@, g.ord);
                let p = g.pos[curr_node_idx];
                let off = index - old(nodes)@[curr_node_idx as int].left_subtree_length;
                lens_of(final(nodes)@, final(self).shape@.ord) == l0.subrange(0, p) + seq![
                    off,
                    old(nodes)@[new_node as int].length as int,
                    old(nodes)@[curr_node_idx as int].length - off,
                ] + l0.subrange(p + 1, l0.len() as int)
            }),
    {
        let ghost n0 = nodes@;
        let ghost g0 = self.shape@;
        let ghost root0 = self.root_node;
        let ghost p = g0.pos[curr_node_idx];
        proof {
            assert(node_struct_ok(n0, root0, g0, curr_node_idx));
            assert(len_node_ok(n0, g0, curr_node_idx));
            assert(g0.ord[p] == curr_node_idx);
            assert(piece_in_bounds(n0[curr_node_idx as int], orig.len(), add.len()));
        }
        let offset_in_node = index - nodes[curr_node_idx].left_subtree_length;
        if offset_in_node > 0 && offset_in_node < nodes[curr_node_idx].length {
            let right_start = nodes[curr_node_idx].start + offset_in_node;
            let right_len = nodes[curr_node_idx].length - offset_in_node;
            let buffer_type = nodes[curr_node_idx].buffer_type;
            nodes[curr_node_idx].length = offset_in_node;
            let ghost n1 = nodes@;
            proof {
                let l = n0[curr_node_idx as int].left;
                let r = n0[curr_node_idx as int].right;
                let nl = g0.ord.len() as int;
                if l != 0 {
                    assert(node_struct_ok(n0, root0, g0, l));
                    assert(len_node_ok(n0, g0, l));
                }
                if r != 0 {
                    assert(node_struct_ok(n0, root0, g0, r));
                    assert(len_node_ok(n0, g0, r));
                }
                lemma_sum_split(n0, g0.ord, g0.lo[curr_node_idx], p, g0.hi[curr_node_idx]);
                lemma_sum_split(n0, g0.ord, p, p + 1, g0.hi[curr_node_idx]);
                lemma_sum_one(n0, g0.ord, p);
                lemma_sum_mono(n0, g0.ord, 0, g0.lo[curr_node_idx], g0.hi[curr_node_idx], nl);
            }
            Self::update_subtree_length(nodes, curr_node_idx);
            let ghost n2 = nodes@;
            proof {
                lemma_shorten(n0, n1, n2, root0, g0, self.black_height, curr_node_idx, offset_in_node);
            }
            let right_node_idx = nodes.len();
            let right = Node::new(buffer_type, right_start, right_len);
            nodes.push(right);
            let ghost n3 = nodes@;
            proof {
                lemma_push_frame(n2, right, root0, g0, self.black_height);
                assert forall|m: usize| live(g0, m) implies #[trigger] len_node_ok(n3, g0, m) || is_anc(n3, curr_node_idx, m) by {
                    if !len_node_ok(n3, g0, m) {
                        assert(!len_node_ok(n2, g0, m));
                        lemma_contains_is_anc(n3, root0, g0, m, curr_node_idx);
                    }
                }
                assert(n3[new_node as int] == n0[new_node as int]);
                assert(right_node_idx >= n0.len());
            }
            self.insert_node_after(nodes, curr_node_idx, new_node);
            let ghost n4 = nodes@;
            let ghost g4 = self.shape@;
            proof {
                assert(g4.ord[p + 1] == new_node);
                assert(g4.pos.dom().contains(new_node));
                assert(g4.pos[new_node] == p + 1);
                assert(!live(g4, right_node_idx)) by {
                    if live(g4, right_node_idx) {
                        let j = g4.pos[right_node_idx];
                        assert(g4.ord[j] == right_node_idx);
                        if j < p + 1 {
                            assert(g4.ord[j] == g0.ord[j]);
                            assert(g0.pos.dom().contains(g0.ord[j]));
                        } else if j > p + 1 {
                            assert(g4.ord[j] == g0.ord[j - 1]);
                            assert(g0.pos.dom().contains(g0.ord[j - 1]));
                        }
                    }
                }
                assert(n4[right_node_idx as int].length == right_len);
                assert(n4[right_node_idx as int].subtree_length == right_len);
                assert(n4[right_node_idx as int].left_subtree_length == 0);
            }
            self.insert_node_after(nodes, new_node, right_node_idx);
            proof {
                assert(nodes@[curr_node_idx as int].length == offset_in_node);
                assert(nodes@[right_node_idx as int].length == right_len);
                assert(nodes@[new_node as int].length == n0[new_node as int].length);
                Self::lemma_split_lens(n0, g0, nodes@, self.shape@.ord, p, curr_node_idx, new_node, right_node_idx,
                    offset_in_node as int);
                let g5 = self.shape@;
                assert(g5.ord == g4.ord.insert(p + 2, right_node_idx));
                assert forall|q: int| 0 <= q < p implies g5.ord[q] == #[trigger] g0.ord[q] by {
                    assert(g4.ord[q] == g0.ord[q]);
                }
                assert forall|q: int| p < q < g0.ord.len() implies g5.ord[q + 2] == #[trigger] g0.ord[q] by {
                    assert(g4.ord[q + 1] == g0.ord[q]);
                }
                Self::lemma_split_finish(n0, n2, n3, n4, nodes@, g0, g4, self.shape@, orig, add, p, offset_in_node as int, curr_node_idx, new_node, right_node_idx);
                let t0 = doc(n0, g0, orig, add);
                if pieces_utf8(n0, g0, orig, add) && cut_ok(t0, sum_len(n0, g0.ord, 0, p) + offset_in_node) {
                    assert(valid_utf8(piece_bytes(n0[g0.ord[p] as int], orig, add)));
                    lemma_cut_utf8(n0, g0.ord, orig, add, p, offset_in_node as int);
                }
            }
        }
    }
}

} // verus!
