use vstd::prelude::*;
use vstd::utf8::{valid_utf8, decode_utf8, encode_utf8, decode_utf8_encode_utf8, is_continuation_byte,
    valid_utf8_concat, valid_utf8_split, is_char_boundary_iff_not_is_continuation_byte};
use crate::node::{Node, BufferType};
use crate::shape::{Shape, sum_len, live, same_pieces};

verus! {

/// The buffer a piece reads from.
pub open spec fn buffer_of(nd: Node, orig: Seq<u8>, add: Seq<u8>) -> Seq<u8> {
    if nd.buffer_type == BufferType::Original {
        orig
    } else {
        add
    }
}

/// The bytes a piece stands for.
pub open spec fn piece_bytes(nd: Node, orig: Seq<u8>, add: Seq<u8>) -> Seq<u8> {
    buffer_of(nd, orig, add).subrange(nd.start as int, nd.start + nd.length)
}

/// A piece lies inside its buffer.
pub open spec fn piece_in_bounds(nd: Node, orig_len: nat, add_len: nat) -> bool {
    nd.start + nd.length <= (if nd.buffer_type == BufferType::Original { orig_len } else { add_len })
}

/// Every live piece lies inside its buffer.
pub open spec fn pieces_in_bounds(nodes: Seq<Node>, g: Shape, orig_len: nat, add_len: nat) -> bool {
    forall|i: int| 0 <= i < g.ord.len() ==> #[trigger] piece_in_bounds(nodes[g.ord[i] as int], orig_len, add_len)
}

/// Concatenation of the pieces at positions `[a, b)` of the order.
pub open spec fn text_of(nodes: Seq<Node>, ord: Seq<usize>, orig: Seq<u8>, add: Seq<u8>, a: int, b: int) -> Seq<u8>
    decreases b - a,
{
    if b <= a {
        Seq::empty()
    } else {
        text_of(nodes, ord, orig, add, a, b - 1) + piece_bytes(nodes[ord[b - 1] as int], orig, add)
    }
}

pub proof fn lemma_text_split(nodes: Seq<Node>, ord: Seq<usize>, orig: Seq<u8>, add: Seq<u8>, a: int, b: int, c: int)
    requires
        a <= b <= c,
    ensures
        text_of(nodes, ord, orig, add, a, c) == text_of(nodes, ord, orig, add, a, b) + text_of(nodes, ord, orig, add, b, c),
    decreases c - b,
{
    if c > b {
        lemma_text_split(nodes, ord, orig, add, a, b, c - 1);
        assert(text_of(nodes, ord, orig, add, a, c) =~= text_of(nodes, ord, orig, add, a, b) + text_of(nodes, ord, orig, add, b, c));
    } else {
        assert(text_of(nodes, ord, orig, add, a, c) =~= text_of(nodes, ord, orig, add, a, b) + text_of(nodes, ord, orig, add, b, c));
    }
}

pub proof fn lemma_text_one(nodes: Seq<Node>, ord: Seq<usize>, orig: Seq<u8>, add: Seq<u8>, a: int)
    ensures
        text_of(nodes, ord, orig, add, a, a + 1) == piece_bytes(nodes[ord[a] as int], orig, add),
{
    assert(text_of(nodes, ord, orig, add, a, a) == Seq::<u8>::empty());
    assert(text_of(nodes, ord, orig, add, a, a + 1) =~= piece_bytes(nodes[ord[a] as int], orig, add));
}

pub proof fn lemma_text_len(nodes: Seq<Node>, ord: Seq<usize>, orig: Seq<u8>, add: Seq<u8>, a: int, b: int)
    requires
        forall|i: int| a <= i < b ==> #[trigger] piece_in_bounds(nodes[ord[i] as int], orig.len(), add.len()),
    ensures
        text_of(nodes, ord, orig, add, a, b).len() == sum_len(nodes, ord, a, b),
    decreases b - a,
{
    if b > a {
        lemma_text_len(nodes, ord, orig, add, a, b - 1);
        assert(piece_in_bounds(nodes[ord[b - 1] as int], orig.len(), add.len()));
    }
}

/// Texts agree over two orders whose pieces agree, shifted by `d`.
pub proof fn lemma_text_shift(
    n1: Seq<Node>,
    o1: Seq<usize>,
    or1: Seq<u8>,
    ad1: Seq<u8>,
    n2: Seq<Node>,
    o2: Seq<usize>,
    or2: Seq<u8>,
    ad2: Seq<u8>,
    a: int,
    b: int,
    d: int,
)
    requires
        forall|i: int|
            a <= i < b ==> #[trigger] piece_bytes(n1[o1[i] as int], or1, ad1) == piece_bytes(n2[o2[i + d] as int], or2, ad2),
    ensures
        text_of(n1, o1, or1, ad1, a, b) == text_of(n2, o2, or2, ad2, a + d, b + d),
    decreases b - a,
{
    if b > a {
        lemma_text_shift(n1, o1, or1, ad1, n2, o2, or2, ad2, a, b - 1, d);
        assert(piece_bytes(n1[o1[b - 1] as int], or1, ad1) == piece_bytes(n2[o2[b - 1 + d] as int], or2, ad2));
    }
}

/// The pieces of a live slot keep their bytes when the add buffer only grows.
pub proof fn lemma_piece_grow(nd: Node, orig: Seq<u8>, add: Seq<u8>, add2: Seq<u8>)
    requires
        piece_in_bounds(nd, orig.len(), add.len()),
        add2.len() >= add.len(),
        add2.subrange(0, add.len() as int) == add,
    ensures
        piece_bytes(nd, orig, add2) == piece_bytes(nd, orig, add),
{
    if nd.buffer_type == BufferType::Add {
        assert(piece_bytes(nd, orig, add2) =~= piece_bytes(nd, orig, add)) by {
            assert forall|j: int| 0 <= j < nd.length implies #[trigger] add2[nd.start + j] == add[nd.start + j] by {
                assert(add2.subrange(0, add.len() as int)[nd.start + j] == add2[nd.start + j]);
            }
        }
    }
}

/// Document text of the tree.
pub open spec fn doc(nodes: Seq<Node>, g: Shape, orig: Seq<u8>, add: Seq<u8>) -> Seq<u8> {
    text_of(nodes, g.ord, orig, add, 0, g.ord.len() as int)
}

/// Placing piece `nn` at position `k` of the order splices its bytes into the text there.
pub proof fn lemma_text_insert(
    n1: Seq<Node>,
    o1: Seq<usize>,
    n2: Seq<Node>,
    o2: Seq<usize>,
    orig: Seq<u8>,
    add: Seq<u8>,
    k: int,
    nn: usize,
)
    requires
        0 <= k <= o1.len(),
        o2 == o1.insert(k, nn),
        forall|i: int|
            0 <= i < o1.len() ==> #[trigger] piece_bytes(n2[o1[i] as int], orig, add) == piece_bytes(n1[o1[i] as int], orig, add),
    ensures
        text_of(n2, o2, orig, add, 0, o2.len() as int) == text_of(n1, o1, orig, add, 0, k) + piece_bytes(n2[nn as int], orig, add)
            + text_of(n1, o1, orig, add, k, o1.len() as int),
        text_of(n2, o2, orig, add, 0, k) == text_of(n1, o1, orig, add, 0, k),
        text_of(n2, o2, orig, add, k + 1, o2.len() as int) == text_of(n1, o1, orig, add, k, o1.len() as int),
{
    let nl = o1.len() as int;
    assert forall|i: int| 0 <= i < k implies #[trigger] piece_bytes(n1[o1[i] as int], orig, add) == piece_bytes(n2[o2[i + 0] as int], orig, add) by {
        assert(o2[i] == o1[i]);
        assert(piece_bytes(n2[o1[i] as int], orig, add) == piece_bytes(n1[o1[i] as int], orig, add));
    }
    assert forall|i: int| k <= i < nl implies #[trigger] piece_bytes(n1[o1[i] as int], orig, add) == piece_bytes(n2[o2[i + 1] as int], orig, add) by {
        assert(o2[i + 1] == o1[i]);
        assert(piece_bytes(n2[o1[i] as int], orig, add) == piece_bytes(n1[o1[i] as int], orig, add));
    }
    lemma_text_shift(n1, o1, orig, add, n2, o2, orig, add, 0, k, 0);
    lemma_text_shift(n1, o1, orig, add, n2, o2, orig, add, k, nl, 1);
    lemma_text_split(n2, o2, orig, add, 0, k, nl + 1);
    lemma_text_split(n2, o2, orig, add, k, k + 1, nl + 1);
    lemma_text_one(n2, o2, orig, add, k);
    assert(o2[k] == nn);
}

/// Characters of the pieces at positions `[a, b)`, each piece decoded on its own.
pub open spec fn chars_of(nodes: Seq<Node>, ord: Seq<usize>, orig: Seq<u8>, add: Seq<u8>, a: int, b: int) -> Seq<char>
    decreases b - a,
{
    if b <= a {
        Seq::empty()
    } else {
        chars_of(nodes, ord, orig, add, a, b - 1) + decode_utf8(piece_bytes(nodes[ord[b - 1] as int], orig, add))
    }
}

/// Every live piece is well-formed UTF-8 on its own.
pub open spec fn pieces_utf8(nodes: Seq<Node>, g: Shape, orig: Seq<u8>, add: Seq<u8>) -> bool {
    forall|i: int| 0 <= i < g.ord.len() ==> #[trigger] valid_utf8(piece_bytes(nodes[g.ord[i] as int], orig, add))
}

pub proof fn lemma_encode_concat(a: Seq<char>, b: Seq<char>)
    ensures
        encode_utf8(a + b) == encode_utf8(a) + encode_utf8(b),
    decreases a.len(),
{
    if a.len() == 0 {
        assert(a + b =~= b);
        assert(encode_utf8(a) =~= Seq::<u8>::empty());
        assert(encode_utf8(a) + encode_utf8(b) =~= encode_utf8(b));
    } else {
        lemma_encode_concat(a.drop_first(), b);
        assert((a + b).drop_first() =~= a.drop_first() + b);
        assert((a + b)[0] == a[0]);
        assert(encode_utf8(a + b) =~= encode_utf8(a) + encode_utf8(b));
    }
}

pub proof fn lemma_chars_encode(nodes: Seq<Node>, ord: Seq<usize>, orig: Seq<u8>, add: Seq<u8>, a: int, b: int)
    requires
        forall|i: int| a <= i < b ==> #[trigger] valid_utf8(piece_bytes(nodes[ord[i] as int], orig, add)),
    ensures
        encode_utf8(chars_of(nodes, ord, orig, add, a, b)) == text_of(nodes, ord, orig, add, a, b),
    decreases b - a,
{
    if b > a {
        lemma_chars_encode(nodes, ord, orig, add, a, b - 1);
        let pb = piece_bytes(nodes[ord[b - 1] as int], orig, add);
        assert(valid_utf8(pb));
        decode_utf8_encode_utf8(pb);
        lemma_encode_concat(chars_of(nodes, ord, orig, add, a, b - 1), decode_utf8(pb));
    } else {
        assert(encode_utf8(Seq::<char>::empty()) =~= Seq::<u8>::empty());
    }
}

pub proof fn lemma_chars_split(nodes: Seq<Node>, ord: Seq<usize>, orig: Seq<u8>, add: Seq<u8>, a: int, b: int, c: int)
    requires
        a <= b <= c,
    ensures
        chars_of(nodes, ord, orig, add, a, c) == chars_of(nodes, ord, orig, add, a, b) + chars_of(nodes, ord, orig, add, b, c),
    decreases c - b,
{
    if c > b {
        lemma_chars_split(nodes, ord, orig, add, a, b, c - 1);
        assert(chars_of(nodes, ord, orig, add, a, c) =~= chars_of(nodes, ord, orig, add, a, b) + chars_of(nodes, ord, orig, add, b, c));
    } else {
        assert(chars_of(nodes, ord, orig, add, a, c) =~= chars_of(nodes, ord, orig, add, a, b) + chars_of(nodes, ord, orig, add, b, c));
    }
}

pub proof fn lemma_chars_one(nodes: Seq<Node>, ord: Seq<usize>, orig: Seq<u8>, add: Seq<u8>, a: int)
    ensures
        chars_of(nodes, ord, orig, add, a, a + 1) == decode_utf8(piece_bytes(nodes[ord[a] as int], orig, add)),
{
    assert(chars_of(nodes, ord, orig, add, a, a) == Seq::<char>::empty());
    assert(chars_of(nodes, ord, orig, add, a, a + 1) =~= decode_utf8(piece_bytes(nodes[ord[a] as int], orig, add)));
}

/// Cutting the text at offset `o` of the piece at position `p`.
pub proof fn lemma_text_cut(nodes: Seq<Node>, ord: Seq<usize>, orig: Seq<u8>, add: Seq<u8>, p: int, o: int)
    requires
        0 <= p < ord.len(),
        0 <= o <= nodes[ord[p] as int].length,
        forall|i: int| 0 <= i < ord.len() ==> #[trigger] piece_in_bounds(nodes[ord[i] as int], orig.len(), add.len()),
    ensures
        ({
            let t = text_of(nodes, ord, orig, add, 0, ord.len() as int);
            let pp = piece_bytes(nodes[ord[p] as int], orig, add);
            let i = sum_len(nodes, ord, 0, p) + o;
            &&& pp.len() == nodes[ord[p] as int].length
            &&& t.len() == sum_len(nodes, ord, 0, ord.len() as int)
            &&& t.subrange(0, i) == text_of(nodes, ord, orig, add, 0, p) + pp.subrange(0, o)
            &&& t.subrange(i, t.len() as int) == pp.subrange(o, pp.len() as int) + text_of(nodes, ord, orig, add, p + 1, ord.len() as int)
        }),
{
    let nl = ord.len() as int;
    let t = text_of(nodes, ord, orig, add, 0, nl);
    let pp = piece_bytes(nodes[ord[p] as int], orig, add);
    let a = text_of(nodes, ord, orig, add, 0, p);
    let c = text_of(nodes, ord, orig, add, p + 1, nl);
    lemma_text_split(nodes, ord, orig, add, 0, p, nl);
    lemma_text_split(nodes, ord, orig, add, p, p + 1, nl);
    lemma_text_one(nodes, ord, orig, add, p);
    lemma_text_len(nodes, ord, orig, add, 0, p);
    lemma_text_len(nodes, ord, orig, add, 0, nl);
    assert(piece_in_bounds(nodes[ord[p] as int], orig.len(), add.len()));
    assert(t == a + pp + c);
    let i = a.len() + o;
    assert(t.subrange(0, i) =~= a + pp.subrange(0, o));
    assert(t.subrange(i, t.len() as int) =~= pp.subrange(o, pp.len() as int) + c);
}

/// Offset `i` of `t` does not fall inside the encoding of a character.
pub open spec fn cut_ok(t: Seq<u8>, i: int) -> bool {
    i >= t.len() || !is_continuation_byte(t[i])
}

/// Well-formed pieces make a well-formed text.
pub proof fn lemma_text_valid(nodes: Seq<Node>, ord: Seq<usize>, orig: Seq<u8>, add: Seq<u8>, a: int, b: int)
    requires
        forall|i: int| a <= i < b ==> #[trigger] valid_utf8(piece_bytes(nodes[ord[i] as int], orig, add)),
    ensures
        valid_utf8(text_of(nodes, ord, orig, add, a, b)),
    decreases b - a,
{
    if b > a {
        lemma_text_valid(nodes, ord, orig, add, a, b - 1);
        assert(valid_utf8(piece_bytes(nodes[ord[b - 1] as int], orig, add)));
        valid_utf8_concat(text_of(nodes, ord, orig, add, a, b - 1), piece_bytes(nodes[ord[b - 1] as int], orig, add));
    } else {
        assert(valid_utf8(Seq::<u8>::empty())) by {
            reveal_with_fuel(valid_utf8, 1);
        }
    }
}

/// Cutting the text where no character is split leaves both sides of the piece at `p`,
/// cut at offset `o`, well-formed.
pub proof fn lemma_cut_utf8(nodes: Seq<Node>, ord: Seq<usize>, orig: Seq<u8>, add: Seq<u8>, p: int, o: int)
    requires
        0 <= p < ord.len(),
        0 <= o <= nodes[ord[p] as int].length,
        forall|i: int| 0 <= i < ord.len() ==> #[trigger] piece_in_bounds(nodes[ord[i] as int], orig.len(), add.len()),
        valid_utf8(piece_bytes(nodes[ord[p] as int], orig, add)),
        cut_ok(text_of(nodes, ord, orig, add, 0, ord.len() as int), sum_len(nodes, ord, 0, p) + o),
    ensures
        valid_utf8(piece_bytes(nodes[ord[p] as int], orig, add).subrange(0, o)),
        valid_utf8(piece_bytes(nodes[ord[p] as int], orig, add).subrange(o, nodes[ord[p] as int].length as int)),
{
    let pp = piece_bytes(nodes[ord[p] as int], orig, add);
    let t = text_of(nodes, ord, orig, add, 0, ord.len() as int);
    let i = sum_len(nodes, ord, 0, p) + o;
    lemma_text_cut(nodes, ord, orig, add, p, o);
    if o == pp.len() {
        assert(pp.subrange(0, o) =~= pp);
        assert(pp.subrange(o, pp.len() as int) =~= Seq::<u8>::empty());
        assert(valid_utf8(Seq::<u8>::empty())) by {
            reveal_with_fuel(valid_utf8, 1);
        }
    } else {
        let nl = ord.len() as int;
        crate::shape::lemma_sum_nonneg(nodes, ord, 0, p);
        crate::shape::lemma_sum_split(nodes, ord, 0, p, p + 1);
        crate::shape::lemma_sum_one(nodes, ord, p);
        crate::shape::lemma_sum_split(nodes, ord, 0, p + 1, nl);
        crate::shape::lemma_sum_nonneg(nodes, ord, p + 1, nl);
        assert(i < t.len());
        assert(t.subrange(i, t.len() as int)[0] == pp[o]);
        assert(!is_continuation_byte(pp[o]));
        is_char_boundary_iff_not_is_continuation_byte(pp, o);
        valid_utf8_split(pp, o);
    }
}

} // verus!
