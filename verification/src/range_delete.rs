use vstd::prelude::*;
use vstd::utf8::valid_utf8;
use crate::node::{Node, BufferType};
use crate::shape::{Shape, live, node_struct_ok, struct_ok, sum_len, len_node_ok, total_fits, colors_ok,
    is_anc, same_pieces, pieces_nonempty, lemma_sum_split, lemma_sum_nonneg, lemma_sum_same, lemma_sum_one,
    lemma_contains_is_anc};
use crate::text::{piece_bytes, piece_in_bounds, pieces_in_bounds, text_of, doc, lemma_text_split,
    lemma_text_one, lemma_text_cut, pieces_utf8, cut_ok, lemma_cut_utf8, lemma_text_len, lemma_text_shift};
use crate::insert_tree::{tree_ok, same_links_colors, lemma_links_colors_frame};
use crate::rbtree::RedBlackTree;
use crate::shape::{lens_of, spans_of, lemma_lens_prefix, lemma_lens_positive};
use crate::lengths::{prefix_sum, spans_kept, rest_lengths, piece_rest, all_positive, lemma_rest_within, lemma_rest_span};

verus! {

/// Giving the live piece `curr` another range of its buffer, no longer than before, leaves
/// stale cached lengths only on `curr` and its ancestors.
proof fn lemma_retrim(n1: Seq<Node>, n2: Seq<Node>, root: usize, g: Shape, bhf: usize, curr: usize, s: usize, l: usize)
    requires
        tree_ok(n1, root, g, bhf),
        live(g, curr),
        0 < l <= n1[curr as int].length,
        n2 == n1.update(curr as int, Node { start: s, length: l, ..n1[curr as int] }),
    ensures
        struct_ok(n2, root, g),
        colors_ok(n2, root, g, bhf),
        pieces_nonempty(n2, g),
        total_fits(n2, g),
        forall|m: usize| live(g, m) ==> #[trigger] len_node_ok(n2, g, m) || is_anc(n2, curr, m),
{
    let p = g.pos[curr];
    let nl = g.ord.len() as int;
    assert(node_struct_ok(n1, root, g, curr));
    assert(n2[0] == n1[0]);
    assert(same_links_colors(n1, n2));
    lemma_links_colors_frame(n1, n2, root, g, bhf);
    assert forall|a: int, b: int| 0 <= a <= b <= nl && (b <= p || p < a) implies sum_len(n1, g.ord, a, b) == #[trigger] sum_len(n2, g.ord, a, b) by {
        assert forall|i: int| a <= i < b implies n1[g.ord[i] as int].length == n2[g.ord[i] as int].length by {
            assert(g.pos.dom().contains(g.ord[i]));
            assert(g.ord[i] != curr);
        }
        lemma_sum_same(n1, n2, g.ord, a, b);
    }
    lemma_sum_split(n1, g.ord, 0, p, nl);
    lemma_sum_split(n1, g.ord, p, p + 1, nl);
    lemma_sum_split(n2, g.ord, 0, p, nl);
    lemma_sum_split(n2, g.ord, p, p + 1, nl);
    lemma_sum_one(n1, g.ord, p);
    lemma_sum_one(n2, g.ord, p);
    assert(g.ord[p] == curr);
    assert forall|m: usize| live(g, m) implies #[trigger] len_node_ok(n2, g, m) || is_anc(n2, curr, m) by {
        if g.lo[m] <= p < g.hi[m] {
            lemma_contains_is_anc(n2, root, g, m, curr);
        } else {
            assert(node_struct_ok(n1, root, g, m));
            assert(len_node_ok(n1, g, m));
        }
    }
    assert forall|i: int| 0 <= i < nl implies #[trigger] n2[g.ord[i] as int].length > 0 by {
        assert(n1[g.ord[i] as int].length > 0);
        assert(g.pos.dom().contains(g.ord[i]));
    }
}

/// Text over an order with the positions `[a, b)` taken out.
proof fn lemma_text_remove_range(
    n1: Seq<Node>,
    o1: Seq<usize>,
    n2: Seq<Node>,
    o2: Seq<usize>,
    orig: Seq<u8>,
    add: Seq<u8>,
    a: int,
    b: int,
)
    requires
        0 <= a <= b <= o1.len(),
        o2 == o1.subrange(0, a) + o1.subrange(b, o1.len() as int),
        forall|i: int| 0 <= i < o1.len() && !(a <= i < b) ==> #[trigger] piece_bytes(n2[o1[i] as int], orig, add) == piece_bytes(n1[o1[i] as int], orig, add),
    ensures
        text_of(n2, o2, orig, add, 0, o2.len() as int) == text_of(n1, o1, orig, add, 0, a) + text_of(n1, o1, orig, add, b, o1.len() as int),
{
    let nl = o1.len() as int;
    let l2 = o2.len() as int;
    assert forall|i: int| 0 <= i < a implies #[trigger] piece_bytes(n1[o1[i] as int], orig, add) == piece_bytes(n2[o2[i + 0] as int], orig, add) by {
        assert(o2[i] == o1[i]);
    }
    lemma_text_shift(n1, o1, orig, add, n2, o2, orig, add, 0, a, 0);
    assert forall|i: int| b <= i < nl implies #[trigger] piece_bytes(n1[o1[i] as int], orig, add) == piece_bytes(n2[o2[i + (a - b)] as int], orig, add) by {
        assert(o2[i + (a - b)] == o1[i]);
    }
    lemma_text_shift(n1, o1, orig, add, n2, o2, orig, add, b, nl, a - b);
    lemma_text_split(n2, o2, orig, add, 0, a, l2);
}

/// Text after trimming the pieces at `ps` (to its first `so` bytes, or marking it for
/// removal when `so` is 0) and at `pe` (dropping its first `eo` bytes), and taking out
/// every piece strictly between them.
proof fn lemma_span_text(
    n0: Seq<Node>,
    n2: Seq<Node>,
    ord: Seq<usize>,
    orig: Seq<u8>,
    add: Seq<u8>,
    ps: int,
    so: int,
    pe: int,
    eo: int,
)
    requires
        0 <= ps < pe <= ord.len(),
        forall|i: int| 0 <= i < ord.len() ==> #[trigger] piece_in_bounds(n0[ord[i] as int], orig.len(), add.len()),
        forall|i: int| 0 <= i < ord.len() && i != ps && i != pe ==> #[trigger] piece_bytes(n2[ord[i] as int], orig, add) == piece_bytes(n0[ord[i] as int], orig, add),
        0 <= so < n0[ord[ps] as int].length,
        so > 0 ==> piece_bytes(n2[ord[ps] as int], orig, add) == piece_bytes(n0[ord[ps] as int], orig, add).subrange(0, so),
        pe < ord.len() ==> 0 <= eo < n0[ord[pe] as int].length
            && piece_bytes(n2[ord[pe] as int], orig, add) == piece_bytes(n0[ord[pe] as int], orig, add).subrange(eo, n0[ord[pe] as int].length as int),
    ensures
        ({
            let nl = ord.len() as int;
            let t = text_of(n0, ord, orig, add, 0, nl);
            let a = if so == 0 { ps } else { ps + 1 };
            let i = sum_len(n0, ord, 0, ps) + so;
            let j = if pe < nl { sum_len(n0, ord, 0, pe) + eo } else { t.len() as int };
            text_of(n2, ord, orig, add, 0, a) + text_of(n2, ord, orig, add, pe, nl) == t.subrange(0, i) + t.subrange(j, t.len() as int)
        }),
{
    let nl = ord.len() as int;
    let t = text_of(n0, ord, orig, add, 0, nl);
    let pps = piece_bytes(n0[ord[ps] as int], orig, add);
    lemma_text_cut(n0, ord, orig, add, ps, so);
    assert forall|i: int| 0 <= i < ps implies #[trigger] piece_bytes(n2[ord[i] as int], orig, add) == piece_bytes(n0[ord[i + 0] as int], orig, add) by {}
    lemma_text_shift(n2, ord, orig, add, n0, ord, orig, add, 0, ps, 0);
    let left = text_of(n2, ord, orig, add, 0, if so == 0 { ps } else { ps + 1 });
    if so == 0 {
        assert(pps.subrange(0, 0) =~= Seq::<u8>::empty());
        assert(left =~= t.subrange(0, sum_len(n0, ord, 0, ps) + so));
    } else {
        lemma_text_split(n2, ord, orig, add, 0, ps, ps + 1);
        lemma_text_one(n2, ord, orig, add, ps);
        assert(left =~= t.subrange(0, sum_len(n0, ord, 0, ps) + so));
    }
    let right = text_of(n2, ord, orig, add, pe, nl);
    if pe < nl {
        lemma_text_cut(n0, ord, orig, add, pe, eo);
        assert forall|i: int| pe + 1 <= i < nl implies #[trigger] piece_bytes(n2[ord[i] as int], orig, add) == piece_bytes(n0[ord[i + 0] as int], orig, add) by {}
        lemma_text_shift(n2, ord, orig, add, n0, ord, orig, add, pe + 1, nl, 0);
        lemma_text_split(n2, ord, orig, add, pe, pe + 1, nl);
        lemma_text_one(n2, ord, orig, add, pe);
        assert(right =~= t.subrange(sum_len(n0, ord, 0, pe) + eo, t.len() as int));
    } else {
        assert(right =~= Seq::<u8>::empty());
        assert(t.subrange(t.len() as int, t.len() as int) =~= Seq::<u8>::empty());
    }
}

/// Taking a slot out of the order keeps the pieces of the others non-empty and in bounds.
proof fn lemma_remove_keeps(n0: Seq<Node>, g0: Shape, n1: Seq<Node>, g1: Shape, orig: Seq<u8>, add: Seq<u8>, p: int)
    requires
        crate::shape::ord_ok(n0, g0),
        0 <= p < g0.ord.len(),
        g1.ord == g0.ord.remove(p),
        same_pieces(n0, n1),
        pieces_nonempty(n0, g0),
        pieces_in_bounds(n0, g0, orig.len(), add.len()),
    ensures
        pieces_nonempty(n1, g1),
        pieces_in_bounds(n1, g1, orig.len(), add.len()),
        forall|i: int| 0 <= i < g0.ord.len() ==> 0 <= #[trigger] g0.ord[i] < n0.len(),
        pieces_utf8(n0, g0, orig, add) ==> pieces_utf8(n1, g1, orig, add),
{
    assert forall|i: int| 0 <= i < g0.ord.len() implies 0 <= #[trigger] g0.ord[i] < n0.len() by {
        assert(g0.pos.dom().contains(g0.ord[i]));
    }
    assert forall|i: int| 0 <= i < g1.ord.len() implies #[trigger] n1[g1.ord[i] as int].length > 0
        && piece_in_bounds(n1[g1.ord[i] as int], orig.len(), add.len()) by {
        let j = if i < p { i } else { i + 1 };
        assert(g1.ord[i] == g0.ord[j]);
        assert(g0.pos.dom().contains(g0.ord[j]));
        assert(n0[g0.ord[j] as int].length > 0);
        assert(piece_in_bounds(n0[g0.ord[j] as int], orig.len(), add.len()));
    }
    if pieces_utf8(n0, g0, orig, add) {
        assert forall|i: int| 0 <= i < g1.ord.len() implies #[trigger] valid_utf8(piece_bytes(n1[g1.ord[i] as int], orig, add)) by {
            let j = if i < p { i } else { i + 1 };
            assert(g1.ord[i] == g0.ord[j]);
            assert(g0.pos.dom().contains(g0.ord[j]));
            assert(valid_utf8(piece_bytes(n0[g0.ord[j] as int], orig, add)));
            assert(piece_bytes(n1[g1.ord[i] as int], orig, add) == piece_bytes(n0[g0.ord[j] as int], orig, add));
        }
    }
}

/// Text after the piece at `node` was narrowed to bytes `[a, b)` of itself.
proof fn lemma_after_trim(n0: Seq<Node>, g0: Shape, n1: Seq<Node>, node: usize, orig: Seq<u8>, add: Seq<u8>, a: int, b: int)
    requires
        crate::shape::ord_ok(n0, g0),
        pieces_in_bounds(n0, g0, orig.len(), add.len()),
        live(g0, node),
        0 <= a < b <= n0[node as int].length,
        n1.len() == n0.len(),
        forall|i: int| 0 <= i < n0.len() && i != node ==> (#[trigger] n1[i]).start == n0[i].start
            && n1[i].length == n0[i].length && n1[i].buffer_type == n0[i].buffer_type,
        n1[node as int].start == n0[node as int].start + a,
        n1[node as int].length == b - a,
        n1[node as int].buffer_type == n0[node as int].buffer_type,
    ensures
        pieces_in_bounds(n1, g0, orig.len(), add.len()),
        doc(n1, g0, orig, add) == text_of(n0, g0.ord, orig, add, 0, g0.pos[node])
            + piece_bytes(n0[node as int], orig, add).subrange(a, b)
            + text_of(n0, g0.ord, orig, add, g0.pos[node] + 1, g0.ord.len() as int),
        piece_bytes(n1[node as int], orig, add) == piece_bytes(n0[node as int], orig, add).subrange(a, b),
        forall|i: int| 0 <= i < n0.len() && i != node ==> #[trigger] piece_bytes(n1[i], orig, add) == piece_bytes(n0[i], orig, add),
{
    let p = g0.pos[node];
    let nl = g0.ord.len() as int;
    assert(g0.ord[p] == node);
    assert(piece_in_bounds(n0[node as int], orig.len(), add.len()));
    assert forall|i: int| 0 <= i < nl implies #[trigger] piece_in_bounds(n1[g0.ord[i] as int], orig.len(), add.len()) by {
        assert(g0.pos.dom().contains(g0.ord[i]));
        assert(piece_in_bounds(n0[g0.ord[i] as int], orig.len(), add.len()));
    }
    assert forall|i: int| 0 <= i < nl && i != p implies #[trigger] piece_bytes(n1[g0.ord[i] as int], orig, add) == piece_bytes(n0[g0.ord[i + 0] as int], orig, add) by {
        assert(g0.pos.dom().contains(g0.ord[i]));
        assert(g0.ord[i] != node);
    }
    lemma_text_shift(n1, g0.ord, orig, add, n0, g0.ord, orig, add, 0, p, 0);
    lemma_text_shift(n1, g0.ord, orig, add, n0, g0.ord, orig, add, p + 1, nl, 0);
    lemma_text_split(n1, g0.ord, orig, add, 0, p, nl);
    lemma_text_split(n1, g0.ord, orig, add, p, p + 1, nl);
    lemma_text_one(n1, g0.ord, orig, add, p);
    assert(piece_bytes(n1[node as int], orig, add) =~= piece_bytes(n0[node as int], orig, add).subrange(a, b));
}

/// Total length after the piece at `node` became shorter.
proof fn lemma_trim_sum(n0: Seq<Node>, n1: Seq<Node>, g0: Shape, node: usize)
    requires
        crate::shape::ord_ok(n0, g0),
        live(g0, node),
        n1.len() == n0.len(),
        forall|i: int| 0 <= i < n0.len() && i != node ==> (#[trigger] n1[i]).length == n0[i].length,
    ensures
        sum_len(n1, g0.ord, 0, g0.ord.len() as int) == sum_len(n0, g0.ord, 0, g0.ord.len() as int) - n0[node as int].length
            + n1[node as int].length,
{
    let p = g0.pos[node];
    let nl = g0.ord.len() as int;
    assert(g0.ord[p] == node);
    assert forall|i: int| 0 <= i < nl && i != p implies n0[g0.ord[i] as int].length == n1[g0.ord[i] as int].length by {
        assert(g0.pos.dom().contains(g0.ord[i]));
        assert(g0.ord[i] != node);
    }
    lemma_sum_same(n0, n1, g0.ord, 0, p);
    lemma_sum_same(n0, n1, g0.ord, p + 1, nl);
    lemma_sum_split(n0, g0.ord, 0, p, nl);
    lemma_sum_split(n0, g0.ord, p, p + 1, nl);
    lemma_sum_split(n1, g0.ord, 0, p, nl);
    lemma_sum_split(n1, g0.ord, p, p + 1, nl);
    lemma_sum_one(n0, g0.ord, p);
    lemma_sum_one(n1, g0.ord, p);
}

/// Text after the piece at `node` was cut to its first `off` bytes and a piece `rn` holding
/// its bytes from `off + len` on was placed right after it.
proof fn lemma_after_split(
    n0: Seq<Node>,
    g0: Shape,
    n1: Seq<Node>,
    n3: Seq<Node>,
    g3: Shape,
    node: usize,
    rn: usize,
    orig: Seq<u8>,
    add: Seq<u8>,
    off: int,
    len: int,
)
    requires
        crate::shape::ord_ok(n0, g0),
        pieces_in_bounds(n0, g0, orig.len(), add.len()),
        live(g0, node),
        0 < off,
        0 < len,
        off + len < n0[node as int].length,
        n1.len() == n0.len(),
        forall|i: int| 0 <= i < n0.len() && i != node ==> (#[trigger] n1[i]).start == n0[i].start
            && n1[i].length == n0[i].length && n1[i].buffer_type == n0[i].buffer_type,
        n1[node as int].start == n0[node as int].start,
        n1[node as int].length == off,
        n1[node as int].buffer_type == n0[node as int].buffer_type,
        rn == n1.len(),
        n3.len() > rn,
        forall|i: int| 0 <= i < n1.len() ==> (#[trigger] n3[i]).start == n1[i].start && n3[i].length == n1[i].length
            && n3[i].buffer_type == n1[i].buffer_type,
        n3[rn as int].start == n0[node as int].start + off + len,
        n3[rn as int].length == n0[node as int].length - off - len,
        n3[rn as int].buffer_type == n0[node as int].buffer_type,
        g3.ord == g0.ord.insert(g0.pos[node] + 1, rn),
    ensures
        pieces_in_bounds(n3, g3, orig.len(), add.len()),
        doc(n3, g3, orig, add) == text_of(n0, g0.ord, orig, add, 0, g0.pos[node])
            + piece_bytes(n0[node as int], orig, add).subrange(0, off)
            + piece_bytes(n0[node as int], orig, add).subrange(off + len, n0[node as int].length as int)
            + text_of(n0, g0.ord, orig, add, g0.pos[node] + 1, g0.ord.len() as int),
        piece_bytes(n3[node as int], orig, add) == piece_bytes(n0[node as int], orig, add).subrange(0, off),
        piece_bytes(n3[rn as int], orig, add) == piece_bytes(n0[node as int], orig, add).subrange(off + len, n0[node as int].length as int),
        forall|i: int| 0 <= i < n0.len() && i != node ==> #[trigger] piece_bytes(n3[i], orig, add) == piece_bytes(n0[i], orig, add),
{
    let p = g0.pos[node];
    let nl = g0.ord.len() as int;
    let pl = n0[node as int].length as int;
    lemma_after_trim(n0, g0, n1, node, orig, add, 0, off);
    assert forall|i: int| 0 <= i < nl implies #[trigger] piece_bytes(n3[g0.ord[i] as int], orig, add) == piece_bytes(n1[g0.ord[i] as int], orig, add) by {
        assert(g0.pos.dom().contains(g0.ord[i]));
    }
    crate::text::lemma_text_insert(n1, g0.ord, n3, g3.ord, orig, add, p + 1, rn);
    assert(g0.ord[p] == node);
    assert(piece_in_bounds(n0[node as int], orig.len(), add.len()));
    lemma_text_split(n1, g0.ord, orig, add, 0, p + 1, nl);
    assert(piece_bytes(n3[rn as int], orig, add) =~= piece_bytes(n0[node as int], orig, add).subrange(off + len, pl));
    lemma_text_split(n1, g0.ord, orig, add, 0, p, p + 1);
    lemma_text_one(n1, g0.ord, orig, add, p);
    lemma_text_split(n1, g0.ord, orig, add, p, p + 1, nl);
    assert forall|i: int| 0 <= i < nl && i != p implies #[trigger] piece_bytes(n1[g0.ord[i] as int], orig, add) == piece_bytes(n0[g0.ord[i + 0] as int], orig, add) by {
        assert(g0.pos.dom().contains(g0.ord[i]));
        assert(g0.ord[i] != node);
    }
    lemma_text_shift(n1, g0.ord, orig, add, n0, g0.ord, orig, add, 0, p, 0);
    lemma_text_shift(n1, g0.ord, orig, add, n0, g0.ord, orig, add, p + 1, nl, 0);
    assert forall|i: int| 0 <= i < g3.ord.len() implies #[trigger] piece_in_bounds(n3[g3.ord[i] as int], orig.len(), add.len()) by {
        if i != p + 1 {
            let j = if i <= p { i } else { i - 1 };
            assert(g3.ord[i] == g0.ord[j]);
            assert(piece_in_bounds(n1[g0.ord[j] as int], orig.len(), add.len()));
            assert(g0.pos.dom().contains(g0.ord[j]));
        }
    }
}

/// Where only the piece at `node` changed, and it is well-formed, the pieces stay well-formed.
proof fn lemma_utf8_same_slots(n0: Seq<Node>, g0: Shape, n1: Seq<Node>, orig: Seq<u8>, add: Seq<u8>, node: usize)
    requires
        crate::shape::ord_ok(n0, g0),
        pieces_utf8(n0, g0, orig, add),
        n1.len() == n0.len(),
        forall|i: int| 0 <= i < n0.len() && i != node ==> #[trigger] piece_bytes(n1[i], orig, add) == piece_bytes(n0[i], orig, add),
        valid_utf8(piece_bytes(n1[node as int], orig, add)),
    ensures
        pieces_utf8(n1, g0, orig, add),
{
    assert forall|j: int| 0 <= j < g0.ord.len() implies #[trigger] valid_utf8(piece_bytes(n1[g0.ord[j] as int], orig, add)) by {
        assert(g0.pos.dom().contains(g0.ord[j]));
        assert(valid_utf8(piece_bytes(n0[g0.ord[j] as int], orig, add)));
    }
}

/// Piece lengths after taking `length` bytes at offset `off` out of the live piece `node`:
/// the whole piece goes (`case` 0), its front or back is cut (`case` 1 or 2), or it is split
/// around the gap, the part after it in the fresh slot `right` (`case` 3).
proof fn lemma_within_lens(n0: Seq<Node>, g0: Shape, n1: Seq<Node>, g1: Shape, node: usize, right: usize, off: int, length: int, case: int)
    requires
        crate::shape::ord_ok(n0, g0),
        pieces_nonempty(n0, g0),
        live(g0, node),
        0 <= off,
        0 < length,
        off + length <= n0[node as int].length,
        case == 0 ==> off == 0 && length == n0[node as int].length && same_pieces(n0, n1)
            && g1.ord == g0.ord.subrange(0, g0.pos[node]) + g0.ord.subrange(g0.pos[node] + 1, g0.ord.len() as int),
        case == 1 || case == 2 ==> g1.ord == g0.ord && n1.len() == n0.len()
            && (forall|i: int| 0 <= i < n0.len() && i != node ==> (#[trigger] n1[i]).length == n0[i].length),
        case == 1 ==> off == 0 && length < n0[node as int].length && n1[node as int].length == n0[node as int].length - length,
        case == 2 ==> off > 0 && off + length == n0[node as int].length && n1[node as int].length == off,
        case == 3 ==> off > 0 && off + length < n0[node as int].length
            && (forall|i: int| 0 <= i < n0.len() && i != node ==> (#[trigger] n1[i]).length == n0[i].length)
            && n1[node as int].length == off && n0.len() <= right
            && g1.ord == g0.ord.insert(g0.pos[node] + 1, right)
            && n1[right as int].length == n0[node as int].length - off - length,
        0 <= case <= 3,
    ensures
        ({
            let l0 = lens_of(n0, g0.ord);
            let i = sum_len(n0, g0.ord, 0, g0.pos[node]) + off;
            lens_of(n1, g1.ord) == rest_lengths(l0, i, i + length, l0.len() as int)
        }),
{
    let l0 = lens_of(n0, g0.ord);
    let p = g0.pos[node];
    let nl = g0.ord.len() as int;
    let i = sum_len(n0, g0.ord, 0, p) + off;
    let len0 = n0[node as int].length as int;
    assert(g0.ord[p] == node);
    lemma_lens_positive(n0, g0);
    lemma_lens_prefix(n0, g0.ord, p);
    lemma_lens_prefix(n0, g0.ord, p + 1);
    lemma_sum_split(n0, g0.ord, 0, p, p + 1);
    lemma_sum_one(n0, g0.ord, p);
    lemma_rest_within(l0, i, i + length, p);
    let l1 = lens_of(n1, g1.ord);
    let want = l0.subrange(0, p) + piece_rest(l0, i, i + length, p) + l0.subrange(p + 1, nl);
    if case == 0 {
        assert(piece_rest(l0, i, i + length, p) =~= Seq::<int>::empty());
        assert forall|k: int| 0 <= k < nl - 1 implies #[trigger] l1[k] == want[k] by {
            let kk = if k < p { k } else { k + 1 };
            assert(g1.ord[k] == g0.ord[kk]);
            assert(g0.pos.dom().contains(g0.ord[kk]));
        }
    } else if case == 1 || case == 2 {
        if case == 1 {
            assert(piece_rest(l0, i, i + length, p) =~= seq![len0 - length]);
        } else {
            assert(piece_rest(l0, i, i + length, p) =~= seq![off]);
        }
        assert forall|k: int| 0 <= k < nl implies #[trigger] l1[k] == want[k] by {
            assert(g0.pos.dom().contains(g0.ord[k]));
        }
    } else {
        assert(piece_rest(l0, i, i + length, p) =~= seq![off, len0 - off - length]);
        assert(g1.ord.len() == nl + 1);
        assert(want.len() == nl + 1);
        assert forall|k: int| 0 <= k < nl + 1 implies #[trigger] l1[k] == want[k] by {
            assert(l1[k] == n1[g1.ord[k] as int].length as int);
            if k < p {
                assert(g1.ord[k] == g0.ord[k]);
                assert(g0.pos.dom().contains(g0.ord[k]));
                assert(want[k] == l0[k]);
            } else if k > p + 1 {
                assert(g1.ord[k] == g0.ord[k - 1]);
                assert(g0.pos.dom().contains(g0.ord[k - 1]));
                assert(want[k] == l0[k - 1]);
            } else if k == p {
                assert(g1.ord[k] == node);
                assert(want[k] == off);
            } else {
                assert(g1.ord[k] == right);
            }
        }
    }
    assert(l1 =~= want);
}

/// Piece lengths after taking out the bytes from offset `so` of the piece at position `ps`
/// to offset `eo` of the piece at position `pe` (the end of the document when `pe` is past
/// the last piece): the pieces strictly between go, the two ends are cut.
proof fn lemma_span_lens(n0: Seq<Node>, g0: Shape, n2: Seq<Node>, n3: Seq<Node>, o3: Seq<usize>, ps: int, so: int, pe: int, eo: int, a: int)
    requires
        crate::shape::ord_ok(n0, g0),
        pieces_nonempty(n0, g0),
        0 <= ps < pe <= g0.ord.len(),
        0 <= so < n0[g0.ord[ps] as int].length,
        pe < g0.ord.len() ==> 0 <= eo < n0[g0.ord[pe] as int].length,
        a == (if so == 0 { ps } else { ps + 1 }),
        o3 == g0.ord.subrange(0, a) + g0.ord.subrange(pe, g0.ord.len() as int),
        same_pieces(n2, n3),
        n2.len() == n0.len(),
        forall|k: int| 0 <= k < g0.ord.len() && k != ps && k != pe ==> (#[trigger] n2[g0.ord[k] as int]).length
            == n0[g0.ord[k] as int].length,
        so > 0 ==> n2[g0.ord[ps] as int].length == so,
        pe < g0.ord.len() ==> n2[g0.ord[pe] as int].length == n0[g0.ord[pe] as int].length - eo,
    ensures
        ({
            let l0 = lens_of(n0, g0.ord);
            let nl = g0.ord.len() as int;
            let i = sum_len(n0, g0.ord, 0, ps) + so;
            let j = if pe < nl { sum_len(n0, g0.ord, 0, pe) + eo } else { sum_len(n0, g0.ord, 0, nl) };
            lens_of(n3, o3) == rest_lengths(l0, i, j, nl)
        }),
{
    let o0 = g0.ord;
    let l0 = lens_of(n0, o0);
    let nl = o0.len() as int;
    let i = sum_len(n0, o0, 0, ps) + so;
    let j = if pe < nl { sum_len(n0, o0, 0, pe) + eo } else { sum_len(n0, o0, 0, nl) };
    lemma_lens_positive(n0, g0);
    lemma_lens_prefix(n0, o0, ps);
    lemma_lens_prefix(n0, o0, ps + 1);
    lemma_sum_split(n0, o0, 0, ps, ps + 1);
    lemma_sum_one(n0, o0, ps);
    lemma_lens_prefix(n0, o0, nl);
    if pe < nl {
        lemma_lens_prefix(n0, o0, pe);
        lemma_lens_prefix(n0, o0, pe + 1);
        lemma_sum_split(n0, o0, 0, pe, pe + 1);
        lemma_sum_one(n0, o0, pe);
    }
    crate::lengths::lemma_prefix_mono(l0, ps + 1, pe);
    crate::lengths::lemma_prefix_mono(l0, pe, nl);
    lemma_rest_span(l0, i, j, ps, pe);
    let head: Seq<int> = if so > 0 { seq![so] } else { Seq::empty() };
    assert(piece_rest(l0, i, j, ps) =~= head);
    let want = l0.subrange(0, ps) + head + (if pe < nl { seq![l0[pe] - eo] + l0.subrange(pe + 1, nl) } else { Seq::empty() });
    if pe < nl {
        assert(piece_rest(l0, i, j, pe) =~= seq![l0[pe] - eo]);
        assert(l0.subrange(0, ps) + head + (piece_rest(l0, i, j, pe) + l0.subrange(pe + 1, nl)) =~= want);
    } else {
        assert(l0.subrange(0, ps) + head + Seq::<int>::empty() =~= want);
    }
    let l3 = lens_of(n3, o3);
    assert(l3.len() == want.len());
    assert forall|k: int| 0 <= k < l3.len() implies #[trigger] l3[k] == want[k] by {
        let kk = if k < a { k } else { k - a + pe };
        assert(o3[k] == o0[kk]);
        assert(g0.pos.dom().contains(o0[kk]));
        assert(n3[o0[kk] as int].length == n2[o0[kk] as int].length);
        if kk != ps && kk != pe {
            assert(n2[o0[kk] as int].length == n0[o0[kk] as int].length);
        }
    }
    assert(l3 =~= want);
}

/// Slots other than `node` keep their buffer range.
pub open spec fn same_spans_except(n0: Seq<Node>, n1: Seq<Node>, node: usize) -> bool {
    forall|x: int| 0 <= x < n0.len() && x != node ==> (#[trigger] n1[x]).buffer_type == n0[x].buffer_type
        && n1[x].start == n0[x].start && n1[x].length == n0[x].length
}

/// Bytes taken from inside the piece `node` leave every other piece as it was: the piece
/// itself is gone (`case` 0), stays in place (`case` 1), or is followed by the fresh slot
/// `right` holding its part after the gap (`case` 2).
proof fn lemma_within_spans(n0: Seq<Node>, g0: Shape, n1: Seq<Node>, g1: Shape, node: usize, right: usize, off: int, length: int, case: int)
    requires
        crate::shape::ord_ok(n0, g0),
        pieces_nonempty(n0, g0),
        live(g0, node),
        0 <= off,
        0 < length,
        off + length <= n0[node as int].length,
        n0.len() <= n1.len(),
        same_spans_except(n0, n1, node),
        case == 0 ==> g1.ord == g0.ord.subrange(0, g0.pos[node]) + g0.ord.subrange(g0.pos[node] + 1, g0.ord.len() as int),
        case == 1 ==> g1.ord == g0.ord,
        case == 2 ==> n0.len() <= right && g1.ord == g0.ord.insert(g0.pos[node] + 1, right),
        0 <= case <= 2,
    ensures
        ({
            let l0 = lens_of(n0, g0.ord);
            let i = sum_len(n0, g0.ord, 0, g0.pos[node]) + off;
            spans_kept(l0, spans_of(n0, g0.ord), spans_of(n1, g1.ord), i, i + length)
        }),
{
    let l0 = lens_of(n0, g0.ord);
    let p = g0.pos[node];
    let nl = g0.ord.len() as int;
    let i = sum_len(n0, g0.ord, 0, p) + off;
    let sp0 = spans_of(n0, g0.ord);
    let sp1 = spans_of(n1, g1.ord);
    assert(g0.ord[p] == node);
    lemma_lens_positive(n0, g0);
    lemma_lens_prefix(n0, g0.ord, p);
    lemma_lens_prefix(n0, g0.ord, p + 1);
    lemma_sum_split(n0, g0.ord, 0, p, p + 1);
    lemma_sum_one(n0, g0.ord, p);
    assert(sp1.len() == nl + (if case == 0 { -1int } else if case == 2 { 1int } else { 0int }));
    assert forall|q: int| 0 <= q < sp0.len() && prefix_sum(l0, q + 1) <= i implies sp1[q] == #[trigger] sp0[q] by {
        if q >= p {
            crate::lengths::lemma_prefix_mono(l0, p + 1, q + 1);
        }
        assert(g1.ord[q] == g0.ord[q]);
        assert(g0.pos.dom().contains(g0.ord[q]));
    }
    assert forall|q: int| 0 <= q < sp0.len() && prefix_sum(l0, q) >= i + length implies sp1[q + sp1.len() - sp0.len()]
        == #[trigger] sp0[q] by {
        if q <= p {
            crate::lengths::lemma_prefix_mono(l0, q, p);
        }
        let k = q + sp1.len() - sp0.len();
        assert(g1.ord[k] == g0.ord[q]);
        assert(g0.pos.dom().contains(g0.ord[q]));
    }
}

/// A span deletion leaves the pieces before and after the range as they were.
proof fn lemma_span_spans(n0: Seq<Node>, g0: Shape, n2: Seq<Node>, n3: Seq<Node>, o3: Seq<usize>, ps: int, so: int, pe: int, eo: int, a: int)
    requires
        crate::shape::ord_ok(n0, g0),
        pieces_nonempty(n0, g0),
        0 <= ps < pe <= g0.ord.len(),
        0 <= so < n0[g0.ord[ps] as int].length,
        pe < g0.ord.len() ==> 0 <= eo < n0[g0.ord[pe] as int].length,
        a == (if so == 0 { ps } else { ps + 1 }),
        o3 == g0.ord.subrange(0, a) + g0.ord.subrange(pe, g0.ord.len() as int),
        same_pieces(n2, n3),
        n2.len() == n0.len(),
        forall|k: int| 0 <= k < g0.ord.len() && k != ps && k != pe ==> (#[trigger] n2[g0.ord[k] as int]).start
            == n0[g0.ord[k] as int].start && n2[g0.ord[k] as int].length == n0[g0.ord[k] as int].length
            && n2[g0.ord[k] as int].buffer_type == n0[g0.ord[k] as int].buffer_type,
        pe < g0.ord.len() && eo == 0 ==> n2[g0.ord[pe] as int].start == n0[g0.ord[pe] as int].start
            && n2[g0.ord[pe] as int].length == n0[g0.ord[pe] as int].length
            && n2[g0.ord[pe] as int].buffer_type == n0[g0.ord[pe] as int].buffer_type,
    ensures
        ({
            let l0 = lens_of(n0, g0.ord);
            let nl = g0.ord.len() as int;
            let i = sum_len(n0, g0.ord, 0, ps) + so;
            let j = if pe < nl { sum_len(n0, g0.ord, 0, pe) + eo } else { sum_len(n0, g0.ord, 0, nl) };
            spans_kept(l0, spans_of(n0, g0.ord), spans_of(n3, o3), i, j)
        }),
{
    let o0 = g0.ord;
    let l0 = lens_of(n0, o0);
    let nl = o0.len() as int;
    let i = sum_len(n0, o0, 0, ps) + so;
    let j = if pe < nl { sum_len(n0, o0, 0, pe) + eo } else { sum_len(n0, o0, 0, nl) };
    let sp0 = spans_of(n0, o0);
    let sp1 = spans_of(n3, o3);
    lemma_lens_positive(n0, g0);
    lemma_lens_prefix(n0, o0, ps);
    lemma_lens_prefix(n0, o0, ps + 1);
    lemma_sum_split(n0, o0, 0, ps, ps + 1);
    lemma_sum_one(n0, o0, ps);
    lemma_lens_prefix(n0, o0, nl);
    if pe < nl {
        lemma_lens_prefix(n0, o0, pe);
        lemma_lens_prefix(n0, o0, pe + 1);
        lemma_sum_split(n0, o0, 0, pe, pe + 1);
        lemma_sum_one(n0, o0, pe);
    }
    assert(sp1.len() == a + nl - pe);
    assert forall|q: int| 0 <= q < sp0.len() && prefix_sum(l0, q + 1) <= i implies sp1[q] == #[trigger] sp0[q] by {
        if q >= ps {
            crate::lengths::lemma_prefix_mono(l0, ps + 1, q + 1);
        }
        assert(o3[q] == o0[q]);
        assert(g0.pos.dom().contains(o0[q]));
        assert(n3[o0[q] as int].start == n2[o0[q] as int].start);
    }
    assert forall|q: int| 0 <= q < sp0.len() && prefix_sum(l0, q) >= j implies sp1[q + sp1.len() - sp0.len()]
        == #[trigger] sp0[q] by {
        if q < pe {
            crate::lengths::lemma_prefix_mono(l0, q + 1, pe);
            crate::lengths::lemma_prefix_mono(l0, q, q + 1);
        }
        if pe == nl {
            crate::lengths::lemma_prefix_mono(l0, q, nl);
            crate::lengths::lemma_prefix_mono(l0, q, q + 1);
        }
        if q > pe {
            crate::lengths::lemma_prefix_mono(l0, pe + 1, q);
        }
        let k = q + sp1.len() - sp0.len();
        assert(o3[k] == o0[q]);
        assert(g0.pos.dom().contains(o0[q]));
        assert(n3[o0[q] as int].start == n2[o0[q] as int].start);
    }
}

impl RedBlackTree {
    /// Makes the live piece `curr` cover `[s, s + l)` of its buffer and refreshes the cached
    /// lengths above it.
    fn retrim(&mut self, nodes: &mut Vec<Node>, curr: usize, s: usize, l: usize)
        requires
            tree_ok(old(nodes)@, old(self).root_node, old(self).shape@, old(self).black_height),
            live(old(self).shape@, curr),
            0 < l <= old(nodes)@[curr as int].length,
        ensures
            tree_ok(final(nodes)@, final(self).root_node, final(self).shape@, final(self).black_height),
            *final(self) == *old(self),
            final(nodes)@.len() == old(nodes)@.len(),
            forall|i: int| 0 <= i < old(nodes)@.len() && i != curr ==> (#[trigger] final(nodes)@[i]).start == old(nodes)@[i].start
                && final(nodes)@[i].length == old(nodes)@[i].length && final(nodes)@[i].buffer_type == old(nodes)@[i].buffer_type,
            final(nodes)@[curr as int].start == s,
            final(nodes)@[curr as int].length == l,
            final(nodes)@[curr as int].buffer_type == old(nodes)@[curr as int].buffer_type,
    {
        let ghost n0 = nodes@;
        proof {
            assert(node_struct_ok(n0, self.root_node, self.shape@, curr));
        }
        nodes[curr].start = s;
        nodes[curr].length = l;
        proof {
            assert(nodes@ =~= n0.update(curr as int, Node { start: s, length: l, ..n0[curr as int] }));
            lemma_retrim(n0, nodes@, self.root_node, self.shape@, self.black_height, curr, s, l);
        }
        let ghost n1 = nodes@;
        Self::update_ancestors(nodes, curr, Ghost(self.root_node), Ghost(self.shape@));
        proof {
            crate::fix_delete::lemma_colors_same_links(n1, nodes@, self.root_node, self.shape@, self.black_height, 0);
            assert forall|i: int| 0 <= i < self.shape@.ord.len() implies #[trigger] nodes@[self.shape@.ord[i] as int].length > 0 by {
                assert(n1[self.shape@.ord[i] as int].length > 0);
                assert(self.shape@.pos.dom().contains(self.shape@.ord[i]));
            }
        }
    }

    /// Removes `length` bytes at offset `off` of the live piece `node`.
    #[verifier::spinoff_prover]
    #[verifier::rlimit(60)]
    fn delete_within(
        &mut self,
        nodes: &mut Vec<Node>,
        node: usize,
        off: usize,
        length: usize,
        Ghost(orig): Ghost<Seq<u8>>,
        Ghost(add): Ghost<Seq<u8>>,
    )
        requires
            tree_ok(old(nodes)@, old(self).root_node, old(self).shape@, old(self).black_height),
            pieces_in_bounds(old(nodes)@, old(self).shape@, orig.len(), add.len()),
            orig.len() <= usize::MAX,
            add.len() <= usize::MAX,
            live(old(self).shape@, node),
            0 < length,
            off + length <= old(nodes)@[node as int].length,
        ensures
            tree_ok(final(nodes)@, final(self).root_node, final(self).shape@, final(self).black_height),
            pieces_in_bounds(final(nodes)@, final(self).shape@, orig.len(), add.len()),
            ({
                let t = doc(old(nodes)@, old(self).shape@, orig, add);
                let i = sum_len(old(nodes)@, old(self).shape@.ord, 0, old(self).shape@.pos[node]) + off;
                doc(final(nodes)@, final(self).shape@, orig, add) == t.subrange(0, i) + t.subrange(i + length, t.len() as int)
            }),
            ({
                let t = doc(old(nodes)@, old(self).shape@, orig, add);
                let i = sum_len(old(nodes)@, old(self).shape@.ord, 0, old(self).shape@.pos[node]) + off;
                pieces_utf8(old(nodes)@, old(self).shape@, orig, add) && cut_ok(t, i) && cut_ok(t, i + length)
                    ==> pieces_utf8(final(nodes)@, final(self).shape@, orig, add)
            }),
            ({
                let l0 = lens_of(old(nodes)@, old(self).shape@.ord);
                let i = sum_len(old(nodes)@, old(self).shape@.ord, 0, old(self).shape@.pos[node]) + off;
                lens_of(final(nodes)@, final(self).shape@.ord) == rest_lengths(l0, i, i + length, l0.len() as int)
            }),
            ({
                let l0 = lens_of(old(nodes)@, old(self).shape@.ord);
                let i = sum_len(old(nodes)@, old(self).shape@.ord, 0, old(self).shape@.pos[node]) + off;
                spans_kept(l0, spans_of(old(nodes)@, old(self).shape@.ord), spans_of(final(nodes)@, final(self).shape@.ord), i, i + length)
            }),
    {
        let ghost n0 = nodes@;
        let ghost g0 = self.shape@;
        let ghost p = g0.pos[node];
        let ghost nl = g0.ord.len() as int;
        let ghost t0 = doc(n0, g0, orig, add);
        let ghost pp = piece_bytes(n0[node as int], orig, add);
        let ghost i = sum_len(n0, g0.ord, 0, p) + off;
        proof {
            assert(node_struct_ok(n0, self.root_node, g0, node));
            assert(g0.ord[p] == node);
            assert(piece_in_bounds(n0[node as int], orig.len(), add.len()));
            lemma_text_cut(n0, g0.ord, orig, add, p, off as int);
            lemma_text_cut(n0, g0.ord, orig, add, p, off + length);
        }
        let node_len = nodes[node].length;
        if off == 0 && length == node_len {
            self.delete_node(nodes, node);
            proof {
                lemma_remove_keeps(n0, g0, nodes@, self.shape@, orig, add, p);
                assert(self.shape@.ord =~= g0.ord.subrange(0, p) + g0.ord.subrange(p + 1, nl));
                assert forall|i: int| 0 <= i < nl && !(p <= i < p + 1) implies #[trigger] piece_bytes(nodes@[g0.ord[i] as int], orig, add) == piece_bytes(n0[g0.ord[i] as int], orig, add) by {
                    assert(0 <= g0.ord[i] < n0.len());
                }
                lemma_text_remove_range(n0, g0.ord, nodes@, self.shape@.ord, orig, add, p, p + 1);
                assert(doc(nodes@, self.shape@, orig, add) =~= t0.subrange(0, i) + t0.subrange(i + length, t0.len() as int));
                lemma_within_lens(n0, g0, nodes@, self.shape@, node, 0, off as int, length as int, 0);
                lemma_within_spans(n0, g0, nodes@, self.shape@, node, 0, off as int, length as int, 0);
            }
        } else if off == 0 {
            let s = nodes[node].start + length;
            self.retrim(nodes, node, s, node_len - length);
            proof {
                lemma_after_trim(n0, g0, nodes@, node, orig, add, length as int, node_len as int);
                assert(doc(nodes@, self.shape@, orig, add) =~= t0.subrange(0, i) + t0.subrange(i + length, t0.len() as int));
                lemma_within_lens(n0, g0, nodes@, self.shape@, node, 0, off as int, length as int, 1);
                lemma_within_spans(n0, g0, nodes@, self.shape@, node, 0, off as int, length as int, 1);
                if pieces_utf8(n0, g0, orig, add) && cut_ok(t0, i + length) {
                    assert(valid_utf8(piece_bytes(n0[g0.ord[p] as int], orig, add)));
                    lemma_cut_utf8(n0, g0.ord, orig, add, p, length as int);
                    lemma_utf8_same_slots(n0, g0, nodes@, orig, add, node);
                }
            }
        } else if off + length == node_len {
            let s = nodes[node].start;
            self.retrim(nodes, node, s, off);
            proof {
                lemma_after_trim(n0, g0, nodes@, node, orig, add, 0, off as int);
                assert(doc(nodes@, self.shape@, orig, add) =~= t0.subrange(0, i) + t0.subrange(i + length, t0.len() as int));
                lemma_within_lens(n0, g0, nodes@, self.shape@, node, 0, off as int, length as int, 2);
                lemma_within_spans(n0, g0, nodes@, self.shape@, node, 0, off as int, length as int, 1);
                if pieces_utf8(n0, g0, orig, add) && cut_ok(t0, i) {
                    assert(valid_utf8(piece_bytes(n0[g0.ord[p] as int], orig, add)));
                    lemma_cut_utf8(n0, g0.ord, orig, add, p, off as int);
                    lemma_utf8_same_slots(n0, g0, nodes@, orig, add, node);
                }
            }
        } else {
            let right_start = nodes[node].start + off + length;
            let right_len = node_len - off - length;
            let buffer_type = nodes[node].buffer_type;
            let s = nodes[node].start;
            self.retrim(nodes, node, s, off);
            let ghost n1 = nodes@;
            let right_node_idx = nodes.len();
            let right = crate::node::Node::new(buffer_type, right_start, right_len);
            nodes.push(right);
            let ghost n2 = nodes@;
            proof {
                crate::insert_tree::lemma_push_frame(n1, right, self.root_node, g0, self.black_height);
                assert(forall|m: usize| live(g0, m) ==> #[trigger] len_node_ok(n2, g0, m));
                assert(!live(g0, right_node_idx));
                lemma_trim_sum(n0, n1, g0, node);
            }
            self.insert_node_after(nodes, node, right_node_idx);
            proof {
                lemma_after_split(n0, g0, n1, nodes@, self.shape@, node, right_node_idx, orig, add, off as int, length as int);
                assert(doc(nodes@, self.shape@, orig, add) =~= t0.subrange(0, i) + t0.subrange(i + length, t0.len() as int));
                lemma_within_lens(n0, g0, nodes@, self.shape@, node, right_node_idx, off as int, length as int, 3);
                lemma_within_spans(n0, g0, nodes@, self.shape@, node, right_node_idx, off as int, length as int, 2);
                if pieces_utf8(n0, g0, orig, add) && cut_ok(t0, i) && cut_ok(t0, i + length) {
                    assert(valid_utf8(piece_bytes(n0[g0.ord[p] as int], orig, add)));
                    lemma_cut_utf8(n0, g0.ord, orig, add, p, off as int);
                    lemma_cut_utf8(n0, g0.ord, orig, add, p, off + length);
                    let g3 = self.shape@;
                    assert forall|j: int| 0 <= j < g3.ord.len() implies #[trigger] valid_utf8(piece_bytes(nodes@[g3.ord[j] as int], orig, add)) by {
                        if j != p + 1 {
                            let jj = if j <= p { j } else { j - 1 };
                            assert(g3.ord[j] == g0.ord[jj]);
                            assert(g0.pos.dom().contains(g0.ord[jj]));
                            assert(valid_utf8(piece_bytes(n0[g0.ord[jj] as int], orig, add)));
                        }
                    }
                }
            }
        }
    }
}

impl RedBlackTree {
    /// Takes out the pieces at positions `[a, a + count)` of the order, one after the other.
    fn delete_run(&mut self, nodes: &mut Vec<Node>, run: &Vec<usize>, Ghost(a): Ghost<int>, Ghost(orig): Ghost<Seq<u8>>, Ghost(add): Ghost<Seq<u8>>)
        requires
            tree_ok(old(nodes)@, old(self).root_node, old(self).shape@, old(self).black_height),
            pieces_in_bounds(old(nodes)@, old(self).shape@, orig.len(), add.len()),
            0 <= a,
            a + run@.len() <= old(self).shape@.ord.len(),
            run@ == old(self).shape@.ord.subrange(a, a + run@.len()),
        ensures
            tree_ok(final(nodes)@, final(self).root_node, final(self).shape@, final(self).black_height),
            pieces_in_bounds(final(nodes)@, final(self).shape@, orig.len(), add.len()),
            final(self).shape@.ord == old(self).shape@.ord.subrange(0, a)
                + old(self).shape@.ord.subrange(a + run@.len(), old(self).shape@.ord.len() as int),
            same_pieces(old(nodes)@, final(nodes)@),
            pieces_utf8(old(nodes)@, old(self).shape@, orig, add) ==> pieces_utf8(final(nodes)@, final(self).shape@, orig, add),
    {
        let ghost n0 = nodes@;
        let ghost g0 = self.shape@;
        let ghost o0 = self.shape@.ord;
        let mut k: usize = 0;
        proof {
            assert(o0 =~= o0.subrange(0, a) + o0.subrange(a, o0.len() as int));
            assert forall|i: int| 0 <= i < n0.len() implies (#[trigger] nodes@[i]).start == n0[i].start
                && nodes@[i].length == n0[i].length && nodes@[i].buffer_type == n0[i].buffer_type by {}
        }
        while k < run.len()
            invariant
                tree_ok(nodes@, self.root_node, self.shape@, self.black_height),
                pieces_in_bounds(nodes@, self.shape@, orig.len(), add.len()),
                0 <= a,
                a + run@.len() <= o0.len(),
                run@ == o0.subrange(a, a + run@.len()),
                k <= run@.len(),
                self.shape@.ord == o0.subrange(0, a) + o0.subrange(a + k, o0.len() as int),
                same_pieces(n0, nodes@),
                pieces_utf8(n0, g0, orig, add) ==> pieces_utf8(nodes@, self.shape@, orig, add),
            decreases run@.len() - k,
        {
            let node = run[k];
            let ghost n1 = nodes@;
            let ghost g1 = self.shape@;
            proof {
                assert(g1.ord[a] == o0[a + k]);
                assert(g1.pos.dom().contains(g1.ord[a]));
                assert(g1.pos[node] == a);
            }
            self.delete_node(nodes, node);
            proof {
                lemma_remove_keeps(n1, g1, nodes@, self.shape@, orig, add, a);
                assert(self.shape@.ord =~= o0.subrange(0, a) + o0.subrange(a + k + 1, o0.len() as int));
            }
            k = k + 1;
        }
    }

    /// Removes the document bytes from offset `so` of the piece `start_node` (at position
    /// `ps`) up to offset `eo` of the piece at position `pe` (`pe` past the last piece: to the
    /// end of the document).
    #[verifier::spinoff_prover]
    #[verifier::rlimit(60)]
    fn delete_span(
        &mut self,
        nodes: &mut Vec<Node>,
        start_node: usize,
        so: usize,
        end_node: usize,
        eo: usize,
        Ghost(ps): Ghost<int>,
        Ghost(pe): Ghost<int>,
        Ghost(orig): Ghost<Seq<u8>>,
        Ghost(add): Ghost<Seq<u8>>,
    )
        requires
            tree_ok(old(nodes)@, old(self).root_node, old(self).shape@, old(self).black_height),
            pieces_in_bounds(old(nodes)@, old(self).shape@, orig.len(), add.len()),
            orig.len() <= usize::MAX,
            add.len() <= usize::MAX,
            live(old(self).shape@, start_node),
            ps == old(self).shape@.pos[start_node],
            so < old(nodes)@[start_node as int].length,
            ps < pe <= old(self).shape@.ord.len(),
            pe < old(self).shape@.ord.len() ==> end_node == old(self).shape@.ord[pe] && eo < old(nodes)@[end_node as int].length,
            pe == old(self).shape@.ord.len() ==> end_node == 0 && eo == 0,
        ensures
            tree_ok(final(nodes)@, final(self).root_node, final(self).shape@, final(self).black_height),
            pieces_in_bounds(final(nodes)@, final(self).shape@, orig.len(), add.len()),
            ({
                let g = old(self).shape@;
                let t = doc(old(nodes)@, g, orig, add);
                let i = sum_len(old(nodes)@, g.ord, 0, ps) + so;
                let j = if pe < g.ord.len() { sum_len(old(nodes)@, g.ord, 0, pe) + eo } else { t.len() as int };
                doc(final(nodes)@, final(self).shape@, orig, add) == t.subrange(0, i) + t.subrange(j, t.len() as int)
            }),
            ({
                let g = old(self).shape@;
                let t = doc(old(nodes)@, g, orig, add);
                let i = sum_len(old(nodes)@, g.ord, 0, ps) + so;
                let j = if pe < g.ord.len() { sum_len(old(nodes)@, g.ord, 0, pe) + eo } else { t.len() as int };
                pieces_utf8(old(nodes)@, g, orig, add) && cut_ok(t, i) && cut_ok(t, j)
                    ==> pieces_utf8(final(nodes)@, final(self).shape@, orig, add)
            }),
            ({
                let g = old(self).shape@;
                let nl = g.ord.len() as int;
                let i = sum_len(old(nodes)@, g.ord, 0, ps) + so;
                let j = if pe < nl { sum_len(old(nodes)@, g.ord, 0, pe) + eo } else { sum_len(old(nodes)@, g.ord, 0, nl) };
                lens_of(final(nodes)@, final(self).shape@.ord) == rest_lengths(lens_of(old(nodes)@, g.ord), i, j, nl)
            }),
            ({
                let g = old(self).shape@;
                let nl = g.ord.len() as int;
                let i = sum_len(old(nodes)@, g.ord, 0, ps) + so;
                let j = if pe < nl { sum_len(old(nodes)@, g.ord, 0, pe) + eo } else { sum_len(old(nodes)@, g.ord, 0, nl) };
                spans_kept(lens_of(old(nodes)@, g.ord), spans_of(old(nodes)@, g.ord), spans_of(final(nodes)@, final(self).shape@.ord), i, j)
            }),
    {
        let ghost n0 = nodes@;
        let ghost g0 = self.shape@;
        let ghost o0 = g0.ord;
        let ghost nl = o0.len() as int;
        let ghost root0 = self.root_node;
        proof {
            assert(o0[ps] == start_node);
            if pe < nl {
                assert(g0.pos.dom().contains(o0[pe]));
                assert(end_node != 0);
                assert(g0.pos[end_node] == pe);
            }
        }
        let mut run: Vec<usize> = Vec::new();
        if so == 0 {
            run.push(start_node);
        } else {
            let s = nodes[start_node].start;
            self.retrim(nodes, start_node, s, so);
        }
        let ghost n1 = nodes@;
        let ghost a: int = if so == 0 { ps } else { ps + 1 };
        proof {
            assert(run@ =~= o0.subrange(a, ps + 1));
        }
        let mut curr = Self::successor(nodes, start_node, Ghost(root0), Ghost(g0));
        let ghost mut i: int = ps + 1;
        while curr != 0 && curr != end_node
            invariant
                nodes@ == n1,
                self.shape@ == g0,
                self.root_node == root0,
                tree_ok(n1, root0, g0, self.black_height),
                0 <= ps,
                ps + 1 <= i <= pe,
                pe <= nl,
                nl == o0.len(),
                o0 == g0.ord,
                i < nl ==> curr == o0[i],
                i == nl ==> curr == 0,
                pe < nl ==> end_node == o0[pe],
                pe == nl ==> end_node == 0,
                a == (if so == 0 { ps } else { ps + 1 }),
                run@ == o0.subrange(a, i),
            decreases pe - i,
        {
            proof {
                assert(struct_ok(n1, root0, g0));
                assert(crate::shape::ord_ok(n1, g0));
                if pe < nl && i < nl {
                    assert(g0.pos.dom().contains(o0[i]));
                    assert(g0.pos.dom().contains(o0[pe]));
                }
                assert(i < pe);
                assert(g0.pos.dom().contains(o0[i]));
                assert(g0.pos[curr] == i);
            }
            run.push(curr);
            curr = Self::successor(nodes, curr, Ghost(root0), Ghost(g0));
            proof {
                i = i + 1;
                assert(run@ =~= o0.subrange(a, i));
            }
        }
        proof {
            if i < pe {
                if i < nl {
                    assert(g0.pos.dom().contains(o0[i]));
                    if pe < nl {
                        assert(g0.pos.dom().contains(o0[pe]));
                    }
                }
            }
            assert(i == pe);
            if pe < nl {
                assert(piece_in_bounds(n0[end_node as int], orig.len(), add.len()));
                assert(end_node != start_node);
                assert(n1[end_node as int].start == n0[end_node as int].start);
                assert(n1[end_node as int].length == n0[end_node as int].length);
            }
        }
        if end_node != 0 {
            if eo == nodes[end_node].length {
                run.push(end_node);
            } else if eo > 0 {
                let s = nodes[end_node].start + eo;
                let l = nodes[end_node].length - eo;
                self.retrim(nodes, end_node, s, l);
            }
        }
        let ghost n2 = nodes@;
        proof {
            assert(piece_in_bounds(n0[start_node as int], orig.len(), add.len()));
            if pe < nl {
                assert(piece_in_bounds(n0[end_node as int], orig.len(), add.len()));
                assert(end_node != start_node);
            }
            assert forall|k: int| 0 <= k < nl implies #[trigger] piece_in_bounds(n2[o0[k] as int], orig.len(), add.len()) by {
                assert(g0.pos.dom().contains(o0[k]));
                assert(piece_in_bounds(n0[o0[k] as int], orig.len(), add.len()));
            }
            assert forall|k: int| 0 <= k < nl && k != ps && k != pe implies #[trigger] piece_bytes(n2[o0[k] as int], orig, add) == piece_bytes(n0[o0[k] as int], orig, add) by {
                assert(g0.pos.dom().contains(o0[k]));
            }
            if so > 0 {
                assert(piece_bytes(n2[o0[ps] as int], orig, add) =~= piece_bytes(n0[o0[ps] as int], orig, add).subrange(0, so as int));
            }
            if pe < nl {
                assert(piece_bytes(n2[o0[pe] as int], orig, add) =~= piece_bytes(n0[o0[pe] as int], orig, add).subrange(eo as int, n0[end_node as int].length as int));
            }
            lemma_span_text(n0, n2, o0, orig, add, ps, so as int, pe, eo as int);
            let t0 = doc(n0, g0, orig, add);
            let ci = sum_len(n0, o0, 0, ps) + so;
            let cj = if pe < nl { sum_len(n0, o0, 0, pe) + eo } else { t0.len() as int };
            if pieces_utf8(n0, g0, orig, add) && cut_ok(t0, ci) && cut_ok(t0, cj) {
                assert(valid_utf8(piece_bytes(n0[o0[ps] as int], orig, add)));
                lemma_cut_utf8(n0, o0, orig, add, ps, so as int);
                if pe < nl {
                    assert(valid_utf8(piece_bytes(n0[o0[pe] as int], orig, add)));
                    lemma_cut_utf8(n0, o0, orig, add, pe, eo as int);
                }
                if so == 0 {
                    assert(piece_bytes(n2[o0[ps] as int], orig, add) == piece_bytes(n0[o0[ps] as int], orig, add));
                }
                assert forall|k: int| 0 <= k < nl implies #[trigger] valid_utf8(piece_bytes(n2[o0[k] as int], orig, add)) by {
                    assert(valid_utf8(piece_bytes(n0[o0[k] as int], orig, add)));
                }
            }
        }
        self.delete_run(nodes, &run, Ghost(a), Ghost(orig), Ghost(add));
        proof {
            assert forall|k: int| 0 <= k < nl && !(a <= k < pe) implies #[trigger] piece_bytes(nodes@[o0[k] as int], orig, add) == piece_bytes(n2[o0[k] as int], orig, add) by {
                assert(g0.pos.dom().contains(o0[k]));
            }
            lemma_text_remove_range(n2, o0, nodes@, self.shape@.ord, orig, add, a, pe);
            assert(self.shape@.ord =~= o0.subrange(0, a) + o0.subrange(pe, nl));
            assert forall|k: int| 0 <= k < nl && k != ps && k != pe implies (#[trigger] n2[o0[k] as int]).length
                == n0[o0[k] as int].length by {
                assert(g0.pos.dom().contains(o0[k]));
            }
            assert forall|k: int| 0 <= k < nl && k != ps && k != pe implies (#[trigger] n2[o0[k] as int]).start
                == n0[o0[k] as int].start && n2[o0[k] as int].length == n0[o0[k] as int].length
                && n2[o0[k] as int].buffer_type == n0[o0[k] as int].buffer_type by {
                assert(g0.pos.dom().contains(o0[k]));
            }
            lemma_span_lens(n0, g0, n2, nodes@, self.shape@.ord, ps, so as int, pe, eo as int, a);
            if pe < nl {
                assert(end_node != start_node);
            }
            lemma_span_spans(n0, g0, n2, nodes@, self.shape@.ord, ps, so as int, pe, eo as int, a);
        }
    }
}

impl RedBlackTree {
    /// Removes `length` bytes of the document from offset `start` on (clipped to the end of
    /// the document); nothing when `length` is 0 or `start` is past the end.
    #[verifier::spinoff_prover]
    pub(crate) fn delete(
        &mut self,
        nodes: &mut Vec<Node>,
        start: usize,
        length: usize,
        Ghost(orig): Ghost<Seq<u8>>,
        Ghost(add): Ghost<Seq<u8>>,
    )
        requires
            tree_ok(old(nodes)@, old(self).root_node, old(self).shape@, old(self).black_height),
            pieces_in_bounds(old(nodes)@, old(self).shape@, orig.len(), add.len()),
            orig.len() <= usize::MAX,
            add.len() <= usize::MAX,
        ensures
            tree_ok(final(nodes)@, final(self).root_node, final(self).shape@, final(self).black_height),
            pieces_in_bounds(final(nodes)@, final(self).shape@, orig.len(), add.len()),
            ({
                let t = doc(old(nodes)@, old(self).shape@, orig, add);
                let s = if start < t.len() { start as int } else { t.len() as int };
                let e = if start + length < t.len() { start + length } else { t.len() as int };
                doc(final(nodes)@, final(self).shape@, orig, add) == t.subrange(0, s) + t.subrange(e, t.len() as int)
            }),
            ({
                let t = doc(old(nodes)@, old(self).shape@, orig, add);
                let s = if start < t.len() { start as int } else { t.len() as int };
                let e = if start + length < t.len() { start + length } else { t.len() as int };
                pieces_utf8(old(nodes)@, old(self).shape@, orig, add) && cut_ok(t, s) && cut_ok(t, e)
                    ==> pieces_utf8(final(nodes)@, final(self).shape@, orig, add)
            }),
            length == 0 || start >= doc(old(nodes)@, old(self).shape@, orig, add).len() ==> *final(nodes) == *old(nodes)
                && *final(self) == *old(self),
            ({
                let t = doc(old(nodes)@, old(self).shape@, orig, add);
                let l0 = lens_of(old(nodes)@, old(self).shape@.ord);
                let e = if start + length < t.len() { start + length } else { t.len() as int };
                length > 0 && start < t.len() ==> lens_of(final(nodes)@, final(self).shape@.ord) == rest_lengths(
                    l0,
                    start as int,
                    e,
                    l0.len() as int,
                )
            }),
            ({
                let t = doc(old(nodes)@, old(self).shape@, orig, add);
                let l0 = lens_of(old(nodes)@, old(self).shape@.ord);
                let e = if start + length < t.len() { start + length } else { t.len() as int };
                length > 0 && start < t.len() ==> spans_kept(l0, spans_of(old(nodes)@, old(self).shape@.ord), spans_of(
                    final(nodes)@,
                    final(self).shape@.ord,
                ), start as int, e)
            }),
    {
        let ghost n0 = nodes@;
        let ghost g0 = self.shape@;
        let ghost nl = g0.ord.len() as int;
        let ghost t0 = doc(n0, g0, orig, add);
        proof {
            assert forall|i: int| 0 <= i < nl implies #[trigger] piece_in_bounds(n0[g0.ord[i] as int], orig.len(), add.len()) by {}
            lemma_text_len(n0, g0.ord, orig, add, 0, nl);
            assert(t0.subrange(0, t0.len() as int) =~= t0);
            assert(t0.subrange(t0.len() as int, t0.len() as int) =~= Seq::<u8>::empty());
        }
        if length == 0 || self.root_node == 0 {
            proof {
                if self.root_node == 0 {
                    assert(t0 =~= Seq::<u8>::empty());
                } else {
                    let s = if start < t0.len() { start as int } else { t0.len() as int };
                    assert(t0.subrange(0, s) + t0.subrange(s, t0.len() as int) =~= t0);
                }
            }
            return;
        }
        proof {
            assert(node_struct_ok(n0, self.root_node, g0, self.root_node));
            assert(len_node_ok(n0, g0, self.root_node));
        }
        let total_len = nodes[self.root_node].subtree_length;
        if start >= total_len {
            return;
        }
        let length = if length < total_len - start { length } else { total_len - start };
        let (start_node, start_offset) = self.find_node(nodes, start);
        let end = start + length;
        let (end_node, end_offset) = if end >= total_len { (0, 0) } else { self.find_node(nodes, end) };
        let ghost ps = g0.pos[start_node];
        let ghost pe = if end >= total_len { nl } else { g0.pos[end_node] };
        proof {
            assert(g0.pos.dom().contains(start_node));
            assert(g0.ord[ps] == start_node);
            if end < total_len {
                assert(g0.ord[pe] == end_node);
                assert(0 <= pe < nl);
                if pe < ps {
                    lemma_sum_split(n0, g0.ord, 0, pe, pe + 1);
                    lemma_sum_one(n0, g0.ord, pe);
                    lemma_sum_split(n0, g0.ord, 0, pe + 1, ps);
                    lemma_sum_nonneg(n0, g0.ord, pe + 1, ps);
                }
            }
        }
        if start_node == end_node && start_node != 0 {
            self.delete_within(nodes, start_node, start_offset, length, Ghost(orig), Ghost(add));
            return;
        }
        proof {
            if end < total_len {
                assert(pe != ps);
            }
        }
        self.delete_span(nodes, start_node, start_offset, end_node, end_offset, Ghost(ps), Ghost(pe), Ghost(orig), Ghost(add));
    }
}

} // verus!
