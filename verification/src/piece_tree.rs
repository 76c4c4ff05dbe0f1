use vstd::prelude::*;
use vstd::utf8::{valid_utf8, decode_utf8, encode_utf8, encode_utf8_valid_utf8, encode_utf8_decode_utf8,
    is_char_boundary, is_char_boundary_iff_not_is_continuation_byte};
use vstd::string::StringSliceAdditionalSpecFns;
use crate::node::{Node, Color, BufferType, NodeInfo, fresh_piece};
use crate::shape::{lens_of, spans_of, lemma_lens_prefix, Shape, live, struct_ok, node_struct_ok, len_node_ok, sum_len, bh_node_ok, red_node_ok,
    lemma_sum_one};
use crate::text::{piece_bytes, piece_in_bounds, pieces_in_bounds, doc, chars_of, pieces_utf8, lemma_text_len,
    cut_ok, lemma_text_valid, lemma_text_one, lemma_chars_encode, lemma_chars_split, lemma_chars_one,
    lemma_piece_grow};
use crate::insert_tree::{tree_ok, lemma_push_frame};
use crate::rbtree::RedBlackTree;
use crate::lengths::{prefix_sum, starts_piece, rest_lengths, spans_kept, lengths_after_insert};
use crate::inspect::{walk, height, info_of, lemma_walk_facts, lemma_walk_members, walk_infos, walk_count,
    walk_length_sum, depth};

verus! {

/// `std::str::from_utf8`: the `&str` over `bytes`, if they are well-formed UTF-8.
///
/// Trusted: the result is present exactly when the bytes are valid UTF-8, and then its
/// UTF-8 encoding is `bytes` itself.
#[verifier::external_body]
fn str_from_utf8(bytes: &[u8]) -> (r: Option<&str>)
    ensures
        r.is_some() == valid_utf8(bytes@),
        r.is_some() ==> encode_utf8(r.unwrap()@) == bytes@,
{
    std::str::from_utf8(bytes).ok()
}

/// `t` with `c` placed at byte offset `i`, or at the end when `i` is past it.
pub open spec fn spliced(t: Seq<u8>, i: int, c: Seq<u8>) -> Seq<u8> {
    let k = if i < t.len() { i } else { t.len() as int };
    t.subrange(0, k) + c + t.subrange(k, t.len() as int)
}

/// `t` without its bytes `[i, i + n)`, the range clipped to the end of `t`.
pub open spec fn cut(t: Seq<u8>, i: int, n: int) -> Seq<u8> {
    let s = if i < t.len() { i } else { t.len() as int };
    let e = if i + n < t.len() { i + n } else { t.len() as int };
    t.subrange(0, s) + t.subrange(e, t.len() as int)
}

/// Deleting the bytes an insertion put in gives back the document from before it.
pub proof fn lemma_delete_undoes_insert(t: Seq<u8>, i: int, c: Seq<u8>)
    requires
        0 <= i,
    ensures
        cut(spliced(t, i, c), if i < t.len() { i } else { t.len() as int }, c.len() as int) == t,
{
    let k = if i < t.len() { i } else { t.len() as int };
    let u = spliced(t, i, c);
    assert(u.subrange(0, k) =~= t.subrange(0, k));
    assert(u.subrange(k + c.len(), u.len() as int) =~= t.subrange(k, t.len() as int));
    assert(t.subrange(0, k) + t.subrange(k, t.len() as int) =~= t);
}

/// Inserting nothing, and deleting nothing or only past the end, leave the document as it is.
pub proof fn lemma_empty_edits(t: Seq<u8>, i: int, n: int)
    requires
        0 <= i,
        0 <= n,
        n == 0 || i >= t.len(),
    ensures
        spliced(t, i, Seq::empty()) == t,
        cut(t, i, n) == t,
{
    let k = if i < t.len() { i } else { t.len() as int };
    assert(t.subrange(0, k) + Seq::<u8>::empty() + t.subrange(k, t.len() as int) =~= t);
    assert(t.subrange(0, k) + t.subrange(k, t.len() as int) =~= t);
}

/// Sum of the piece lengths listed in `s`.
pub open spec fn info_length_sum(s: Seq<NodeInfo>) -> int
    decreases s.len(),
{
    if s.len() == 0 {
        0
    } else {
        info_length_sum(s.drop_last()) + s.last().length
    }
}

/// The listed metadata of slots `w` sums up as their piece lengths do.
proof fn lemma_info_length_sum(nodes: Seq<Node>, w: Seq<usize>)
    ensures
        info_length_sum(w.map_values(|n: usize| info_of(nodes, n))) == crate::inspect::lengths_of(nodes, w),
    decreases w.len(),
{
    if w.len() > 0 {
        lemma_info_length_sum(nodes, w.drop_last());
        assert(w.map_values(|n: usize| info_of(nodes, n)).drop_last() =~= w.drop_last().map_values(|n: usize| info_of(nodes, n)));
    }
}

/// The entry of `s` that describes slot `idx`.
pub open spec fn entry_of(s: Seq<NodeInfo>, idx: usize) -> NodeInfo {
    s[choose|j: int| 0 <= j < s.len() && s[j].index == idx]
}

/// The slot reached from slot `idx` by following `k` parent links through the entries of
/// `s` (NIL stays NIL).
pub open spec fn up(s: Seq<NodeInfo>, idx: usize, k: nat) -> usize
    decreases k,
{
    if k == 0 {
        idx
    } else if idx == 0 {
        0
    } else {
        up(s, entry_of(s, idx).parent, (k - 1) as nat)
    }
}

/// How many of slot `idx` and its next `k` ancestors the entries of `s` show as black.
pub open spec fn black_on_path(s: Seq<NodeInfo>, idx: usize, k: nat) -> nat
    decreases k,
{
    (if entry_of(s, idx).is_red { 0nat } else { 1nat }) + (if k == 0 {
        0nat
    } else {
        black_on_path(s, entry_of(s, idx).parent, (k - 1) as nat)
    })
}

/// A piece table: the document is the in-order concatenation of pieces, each a byte range
/// of the original text or of the append-only buffer of added text, kept in a red-black
/// tree ordered by document position.
pub struct PieceTree {
    pub(crate) original: Vec<u8>,
    pub(crate) add: Vec<u8>,
    pub(crate) nodes: Vec<Node>,
    pub(crate) red_black_tree: RedBlackTree,
}

impl View for PieceTree {
    type V = Seq<u8>;

    /// The document, as UTF-8 bytes.
    closed spec fn view(&self) -> Seq<u8> {
        doc(self.nodes@, self.red_black_tree.shape@, self.original@, self.add@)
    }
}

impl PieceTree {
    /// The tree and its metadata are consistent.
    pub closed spec fn wf(&self) -> bool {
        &&& tree_ok(self.nodes@, self.red_black_tree.root_node, self.red_black_tree.shape@, self.red_black_tree.black_height)
        &&& pieces_in_bounds(self.nodes@, self.red_black_tree.shape@, self.original@.len(), self.add@.len())
    }

    /// Every piece starts and ends on a character boundary, so each is UTF-8 on its own.
    pub closed spec fn pieces_are_utf8(&self) -> bool {
        pieces_utf8(self.nodes@, self.red_black_tree.shape@, self.original@, self.add@)
    }

    /// Number of pieces the document is made of.
    pub closed spec fn pieces(&self) -> nat {
        self.red_black_tree.shape@.ord.len()
    }

    /// Lengths of the pieces, in document order.
    pub closed spec fn piece_lengths(&self) -> Seq<int> {
        lens_of(self.nodes@, self.red_black_tree.shape@.ord)
    }

    /// Each piece as its buffer, its first byte in that buffer and its length, in document
    /// order.
    pub closed spec fn piece_spans(&self) -> Seq<(BufferType, int, int)> {
        spans_of(self.nodes@, self.red_black_tree.shape@.ord)
    }

    /// Number of nodes on the longest path from the root of the tree down to NIL.
    pub closed spec fn height_of(&self) -> nat {
        height(self.nodes@, self.red_black_tree.root_node, self.red_black_tree.shape@, self.red_black_tree.root_node)
    }

    /// The black height the tree records for itself.
    pub closed spec fn recorded_black_height(&self) -> nat {
        self.red_black_tree.black_height as nat
    }

    /// Number of arena slots, the NIL sentinel and detached slots included.
    pub closed spec fn slots(&self) -> nat {
        self.nodes@.len()
    }

    /// Arena slot of the root node (0 for an empty tree).
    pub closed spec fn root_slot(&self) -> nat {
        self.red_black_tree.root_node as nat
    }

    /// Metadata of every node, each node followed by its right subtree, then its left one.
    pub closed spec fn infos(&self) -> Seq<NodeInfo> {
        walk(self.nodes@, self.red_black_tree.root_node, self.red_black_tree.shape@, self.red_black_tree.root_node).map_values(
            |n: usize| info_of(self.nodes@, n),
        )
    }

    /// Creates a document holding `original`.
    pub fn new(original: &str) -> (r: Self)
        ensures
            r.wf(),
            r.pieces_are_utf8(),
            r@ == original.spec_bytes(),
            original.spec_bytes().len() > 0 ==> r.pieces() == 1 && r.root_slot() == 1 && r.recorded_black_height() == 1
                && r.slots() == 2 && r.height_of() == 1 && r.piece_lengths() == seq![original.spec_bytes().len() as int],
            original.spec_bytes().len() == 0 ==> r.pieces() == 0 && r.root_slot() == 0 && r.recorded_black_height() == 0
                && r.slots() == 1 && r.height_of() == 0,
    {
        let bytes = original.as_bytes();
        let buf = vstd::slice::slice_to_vec(bytes);
        if buf.len() != 0 {
            let mut nil_node = Node::new(BufferType::Original, 0, 0);
            nil_node.color = Color::Black;
            let mut root = Node::new(BufferType::Original, 0, buf.len());
            root.color = Color::Black;
            let ghost g = Shape {
                ord: seq![1usize],
                pos: map![1usize => 0int],
                lo: map![1usize => 0int],
                hi: map![1usize => 1int],
                bh: map![1usize => 1nat],
            };
            let nodes = vec![nil_node, root];
            let r = PieceTree {
                original: buf,
                add: Vec::new(),
                nodes,
                red_black_tree: RedBlackTree::new(1, 1, Ghost(g)),
            };
            proof {
                let ns = r.nodes@;
                assert(ns[1] == root);
                assert(g.pos.dom().contains(1usize));
                assert(forall|n: usize| live(g, n) ==> n == 1);
                assert(node_struct_ok(ns, 1, g, 1));
                lemma_sum_one(ns, g.ord, 0);
                assert(sum_len(ns, g.ord, 0, 0) == 0);
                assert(len_node_ok(ns, g, 1));
                assert(bh_node_ok(ns, g, 1));
                assert(red_node_ok(ns, 1));
                assert(piece_in_bounds(ns[g.ord[0] as int], r.original@.len(), r.add@.len()));
                lemma_text_one(ns, g.ord, r.original@, r.add@, 0);
                assert(piece_bytes(ns[1], r.original@, r.add@) =~= r.original@);
                encode_utf8_valid_utf8(original@);
                assert(valid_utf8(piece_bytes(ns[g.ord[0] as int], r.original@, r.add@)));
                assert(struct_ok(ns, 1, g));
                assert(height(ns, 1, g, 0) == 0);
                assert(height(ns, 1, g, 1) == 1);
                assert(r.piece_lengths() =~= seq![original.spec_bytes().len() as int]);
            }
            r
        } else {
            let mut nil_node = Node::new(BufferType::Original, 0, 0);
            nil_node.color = Color::Black;
            let ghost g = Shape { ord: Seq::empty(), pos: Map::empty(), lo: Map::empty(), hi: Map::empty(), bh: Map::empty() };
            let r = PieceTree {
                original: buf,
                add: Vec::new(),
                nodes: vec![nil_node],
                red_black_tree: RedBlackTree::new(0, 0, Ghost(g)),
            };
            proof {
                assert(r.nodes@[0] == nil_node);
                assert(r@ =~= original.spec_bytes());
            }
            r
        }
    }

    /// The whole document as a string.
    pub fn get_text(&self) -> (r: String)
        requires
            self.wf(),
            self.pieces_are_utf8(),
        ensures
            encode_utf8(r@) == self@,
            r@ == decode_utf8(self@),
    {
        let ghost g = self.red_black_tree.shape@;
        proof {
            lemma_chars_encode(self.nodes@, g.ord, self.original@, self.add@, 0, g.ord.len() as int);
            encode_utf8_decode_utf8(chars_of(self.nodes@, g.ord, self.original@, self.add@, 0, g.ord.len() as int));
        }
        if self.red_black_tree.root_node == 0 {
            return String::new();
        }
        let mut result = String::new();
        self.in_order(self.red_black_tree.root_node, &mut result);
        proof {
            assert(node_struct_ok(self.nodes@, self.red_black_tree.root_node, g, self.red_black_tree.root_node));
            assert(result@ =~= chars_of(self.nodes@, g.ord, self.original@, self.add@, 0, g.ord.len() as int));
        }
        result
    }

    /// Inserts `content` so that it starts at byte offset `index` of the document; an offset
    /// past the end appends.
    pub fn insert(&mut self, index: usize, content: &str)
        requires
            old(self).wf(),
            old(self)@.len() + content.spec_bytes().len() <= usize::MAX,
        ensures
            final(self).wf(),
            final(self)@ == spliced(old(self)@, index as int, content.spec_bytes()),
            old(self).pieces_are_utf8() && is_char_boundary(old(self)@, if index < old(self)@.len() { index as int } else { old(self)@.len() as int })
                ==> final(self).pieces_are_utf8(),
            content.spec_bytes().len() == 0 ==> *final(self) == *old(self),
            content.spec_bytes().len() > 0 ==> final(self).pieces() == old(self).pieces() + (if starts_piece(
                old(self).piece_lengths(),
                index as int,
            ) {
                1nat
            } else {
                2nat
            }),
            old(self).recorded_black_height() <= final(self).recorded_black_height() <= old(self).recorded_black_height() + 2,
            ({
                let t = old(self)@;
                let k = if index < t.len() { index as int } else { t.len() as int };
                content.spec_bytes().len() > 0 ==> spans_kept(old(self).piece_lengths(), old(self).piece_spans(),
                    final(self).piece_spans(), k, k)
            }),
            ({
                let t = old(self)@;
                let k = if index < t.len() { index as int } else { t.len() as int };
                content.spec_bytes().len() > 0 ==> final(self).piece_lengths() == lengths_after_insert(
                    old(self).piece_lengths(),
                    k,
                    content.spec_bytes().len() as int,
                )
            }),
    {
        let ghost t0 = self@;
        let ghost utf0 = self.pieces_are_utf8();
        proof {
            let k = if index < t0.len() { index as int } else { t0.len() as int };
            if utf0 && is_char_boundary(t0, k) {
                self.lemma_boundary_cut(k);
            }
        }
        if content.len() == 0 {
            proof {
                let i = if index < t0.len() { index as int } else { t0.len() as int };
                assert(t0.subrange(0, i) + content.spec_bytes() + t0.subrange(i, t0.len() as int) =~= t0);
            }
            return;
        }
        let new_node = self.pre_insert(content);
        let ghost orig = self.original@;
        let ghost add = self.add@;
        proof {
            let g = self.red_black_tree.shape@;
            assert(orig.len() == self.original.len());
            assert(add.len() == self.add.len());
            assert forall|i: int| 0 <= i < g.ord.len() implies #[trigger] piece_in_bounds(self.nodes@[g.ord[i] as int], orig.len(), add.len()) by {}
            lemma_text_len(self.nodes@, g.ord, orig, add, 0, g.ord.len() as int);
            encode_utf8_valid_utf8(content@);
            self.lemma_starts_piece(index as int);
            assert forall|i: int| 0 <= i < g.ord.len() implies #[trigger] self.piece_lengths()[i] == old(self).piece_lengths()[i] by {
                assert(g.pos.dom().contains(g.ord[i]));
            }
            assert(self.piece_lengths() =~= old(self).piece_lengths());
            assert forall|i: int| 0 <= i < g.ord.len() implies #[trigger] self.piece_spans()[i] == old(self).piece_spans()[i] by {
                assert(g.pos.dom().contains(g.ord[i]));
            }
            assert(self.piece_spans() =~= old(self).piece_spans());
        }
        self.red_black_tree.insert_into_tree(&mut self.nodes, new_node, index, Ghost(orig), Ghost(add));
    }

    /// `piece_lengths` sums up as the arena's piece lengths do.
    proof fn lemma_prefix_sum(&self, k: int)
        requires
            0 <= k <= self.red_black_tree.shape@.ord.len(),
        ensures
            prefix_sum(self.piece_lengths(), k) == sum_len(self.nodes@, self.red_black_tree.shape@.ord, 0, k),
    {
        lemma_lens_prefix(self.nodes@, self.red_black_tree.shape@.ord, k);
    }

    /// `starts_piece` over `piece_lengths` is the arena's notion of a piece start.
    proof fn lemma_starts_piece(&self, i: int)
        ensures
            starts_piece(self.piece_lengths(), i) == crate::shape::at_piece_start(self.nodes@, self.red_black_tree.shape@.ord, i),
    {
        let ord = self.red_black_tree.shape@.ord;
        let lens = self.piece_lengths();
        self.lemma_prefix_sum(ord.len() as int);
        if exists|q: int| 0 <= q < lens.len() && #[trigger] prefix_sum(lens, q) == i {
            let q = choose|q: int| 0 <= q < lens.len() && #[trigger] prefix_sum(lens, q) == i;
            self.lemma_prefix_sum(q);
            assert(sum_len(self.nodes@, ord, 0, q) == i);
        }
        if exists|q: int| 0 <= q < ord.len() && #[trigger] sum_len(self.nodes@, ord, 0, q) == i {
            let q = choose|q: int| 0 <= q < ord.len() && #[trigger] sum_len(self.nodes@, ord, 0, q) == i;
            self.lemma_prefix_sum(q);
            assert(prefix_sum(lens, q) == i);
        }
    }

    /// A character boundary of a well-formed document cuts no character's encoding.
    proof fn lemma_boundary_cut(&self, i: int)
        requires
            self.wf(),
            self.pieces_are_utf8(),
            0 <= i <= self@.len(),
            is_char_boundary(self@, i),
        ensures
            valid_utf8(self@),
            cut_ok(self@, i),
    {
        let g = self.red_black_tree.shape@;
        lemma_text_valid(self.nodes@, g.ord, self.original@, self.add@, 0, g.ord.len() as int);
        if i < self@.len() {
            is_char_boundary_iff_not_is_continuation_byte(self@, i);
        }
    }

    /// Pieces that are each well-formed UTF-8 make a well-formed document.
    pub proof fn lemma_text_is_utf8(&self)
        requires
            self.wf(),
            self.pieces_are_utf8(),
        ensures
            valid_utf8(self@),
    {
        let g = self.red_black_tree.shape@;
        lemma_text_valid(self.nodes@, g.ord, self.original@, self.add@, 0, g.ord.len() as int);
    }

    /// Removes `length` bytes from byte offset `index` on; the part of the range past the end
    /// of the document is ignored, and an `index` past the end removes nothing.
    pub fn delete(&mut self, index: usize, length: usize)
        requires
            old(self).wf(),
        ensures
            final(self).wf(),
            final(self)@ == cut(old(self)@, index as int, length as int),
            ({
                let t = old(self)@;
                let s = if index < t.len() { index as int } else { t.len() as int };
                let e = if index + length < t.len() { index + length } else { t.len() as int };
                old(self).pieces_are_utf8() && is_char_boundary(t, s) && is_char_boundary(t, e) ==> final(self).pieces_are_utf8()
            }),
            length == 0 || index >= old(self)@.len() ==> *final(self) == *old(self),
            ({
                let t = old(self)@;
                let e = if index + length < t.len() { index + length } else { t.len() as int };
                length > 0 && index < t.len() ==> final(self).piece_lengths() == rest_lengths(
                    old(self).piece_lengths(),
                    index as int,
                    e,
                    old(self).pieces() as int,
                )
            }),
            ({
                let t = old(self)@;
                let e = if index + length < t.len() { index + length } else { t.len() as int };
                length > 0 && index < t.len() ==> spans_kept(old(self).piece_lengths(), old(self).piece_spans(),
                    final(self).piece_spans(), index as int, e)
            }),
    {
        let ghost orig = self.original@;
        let ghost add = self.add@;
        proof {
            assert(orig.len() == self.original.len());
            assert(add.len() == self.add.len());
            let t = self@;
            let s = if index < t.len() { index as int } else { t.len() as int };
            let e = if index + length < t.len() { index + length } else { t.len() as int };
            if self.pieces_are_utf8() && is_char_boundary(t, s) && is_char_boundary(t, e) {
                self.lemma_boundary_cut(s);
                self.lemma_boundary_cut(e);
            }
        }
        self.red_black_tree.delete(&mut self.nodes, index, length, Ghost(orig), Ghost(add));
    }

    /// Number of pieces in the tree (the NIL sentinel not counted).
    pub fn node_count(&self) -> (r: usize)
        requires
            self.wf(),
        ensures
            r == self.pieces(),
    {
        let ghost g = self.red_black_tree.shape@;
        let root = self.red_black_tree.root_node;
        proof {
            self.lemma_wf_facts();
            lemma_walk_facts(self.nodes@, root, g, root);
            if root != 0 {
                assert(node_struct_ok(self.nodes@, root, g, root));
            }
        }
        walk_count(&self.nodes, root, Ghost(g))
    }

    /// Number of nodes on the longest path from the root down to NIL.
    pub fn tree_height(&self) -> (r: usize)
        requires
            self.wf(),
        ensures
            r == self.height_of(),
    {
        proof {
            self.lemma_wf_facts();
        }
        depth(&self.nodes, self.red_black_tree.root_node, Ghost(self.red_black_tree.root_node), Ghost(self.red_black_tree.shape@))
    }

    /// The black height recorded for the tree.
    pub fn black_height(&self) -> (r: usize)
        ensures
            r == self.recorded_black_height(),
    {
        self.red_black_tree.black_height
    }

    /// Arena slot of the root node; 0 exactly when the document is empty.
    pub fn root_node_index(&self) -> (r: usize)
        requires
            self.wf(),
        ensures
            r == self.root_slot(),
            (r == 0) == (self@.len() == 0),
    {
        proof {
            self.lemma_wf_facts();
        }
        self.red_black_tree.root_node
    }

    /// The cached length of the whole tree: the document length.
    pub fn root_subtree_length(&self) -> (r: usize)
        requires
            self.wf(),
        ensures
            r == self@.len(),
    {
        proof {
            self.lemma_wf_facts();
        }
        let root = self.red_black_tree.root_node;
        if root != 0 && root < self.nodes.len() {
            self.nodes[root].subtree_length
        } else {
            0
        }
    }

    /// Sum of the lengths of all pieces: the document length.
    pub fn sum_node_lengths(&self) -> (r: usize)
        requires
            self.wf(),
        ensures
            r == self@.len(),
    {
        let ghost g = self.red_black_tree.shape@;
        let root = self.red_black_tree.root_node;
        proof {
            self.lemma_wf_facts();
            lemma_walk_facts(self.nodes@, root, g, root);
            if root != 0 {
                assert(node_struct_ok(self.nodes@, root, g, root));
            }
        }
        walk_length_sum(&self.nodes, root, Ghost(g))
    }

    /// Metadata of every node: each node, then its right subtree, then its left subtree.
    pub fn get_all_nodes_info(&self) -> (r: Vec<NodeInfo>)
        requires
            self.wf(),
        ensures
            r@ == self.infos(),
            r@.len() == self.pieces(),
    {
        let ghost g = self.red_black_tree.shape@;
        let root = self.red_black_tree.root_node;
        proof {
            self.lemma_wf_facts();
            lemma_walk_facts(self.nodes@, root, g, root);
            if root != 0 {
                assert(node_struct_ok(self.nodes@, root, g, root));
            }
        }
        walk_infos(&self.nodes, root, Ghost(g))
    }

    /// A red-black tree stays shallow: its height lies between its black height and twice
    /// that, and a tree of black height `bh` holds at least `2^bh - 1` pieces.
    pub proof fn lemma_height_bounds(&self)
        requires
            self.wf(),
        ensures
            self.recorded_black_height() <= self.height_of(),
            self.height_of() <= 2 * self.recorded_black_height(),
            vstd::arithmetic::power2::pow2(self.recorded_black_height()) <= self.pieces() + 1,
    {
        let g = self.red_black_tree.shape@;
        let root = self.red_black_tree.root_node;
        self.lemma_wf_facts();
        crate::inspect::lemma_rb_bounds(self.nodes@, root, g, root);
        if root != 0 {
            assert(node_struct_ok(self.nodes@, root, g, root));
        }
    }

    /// Every piece holds at least one byte; an empty document has no pieces, no root, and
    /// black height 0.
    pub proof fn lemma_piece_count(&self)
        requires
            self.wf(),
        ensures
            self.pieces() <= self@.len(),
            (self.pieces() == 0) == (self@.len() == 0),
            self@.len() == 0 ==> self.root_slot() == 0 && self.recorded_black_height() == 0,
            self@.len() > 0 ==> self.root_slot() != 0 && self.recorded_black_height() >= 1,
            self.piece_lengths().len() == self.pieces(),
            forall|i: int| 0 <= i < self.pieces() ==> #[trigger] self.piece_lengths()[i] > 0,
            prefix_sum(self.piece_lengths(), self.pieces() as int) == self@.len(),
    {
        self.lemma_wf_facts();
        let g = self.red_black_tree.shape@;
        let root = self.red_black_tree.root_node;
        self.lemma_prefix_sum(g.ord.len() as int);
        assert forall|i: int| 0 <= i < self.pieces() implies #[trigger] self.piece_lengths()[i] > 0 by {
            assert(g.pos.dom().contains(g.ord[i]));
        }
        if root != 0 {
            assert(node_struct_ok(self.nodes@, root, g, root));
            assert(bh_node_ok(self.nodes@, g, root));
        }
    }

    /// The entry listed for a node describes that node.
    proof fn lemma_entry(&self, x: usize)
        requires
            self.wf(),
            live(self.red_black_tree.shape@, x),
        ensures
            entry_of(self.infos(), x) == info_of(self.nodes@, x),
    {
        let g = self.red_black_tree.shape@;
        let root = self.red_black_tree.root_node;
        let ns = self.nodes@;
        self.lemma_wf_facts();
        lemma_walk_facts(ns, root, g, root);
        lemma_walk_members(ns, root, g, root);
        let w = walk(ns, root, g, root);
        let s = self.infos();
        assert(node_struct_ok(ns, root, g, root));
        assert(node_struct_ok(ns, root, g, x));
        assert(w.contains(x));
        let j0 = choose|j: int| 0 <= j < w.len() && w[j] == x;
        assert(s[j0].index == x);
        let j = choose|j: int| 0 <= j < s.len() && s[j].index == x;
        assert(s[j] == info_of(ns, w[j]));
    }

    /// Following parent links through the listed entries follows them in the tree.
    proof fn lemma_up(&self, x: usize, k: nat)
        requires
            self.wf(),
            x == 0 || live(self.red_black_tree.shape@, x),
        ensures
            up(self.infos(), x, k) == crate::shape::iter_parent(self.nodes@, x, k),
        decreases k,
    {
        if k > 0 && x != 0 {
            self.lemma_wf_facts();
            assert(node_struct_ok(self.nodes@, self.red_black_tree.root_node, self.red_black_tree.shape@, x));
            self.lemma_entry(x);
            self.lemma_up(self.nodes@[x as int].parent, (k - 1) as nat);
        }
    }

    /// The height of the tree covers every path: a node reached from the root by `k` steps
    /// down (it reaches the root by `k` parent links) puts `k + 1` nodes on a path, so the
    /// tree is at least that high.
    pub proof fn lemma_height_covers_paths(&self)
        requires
            self.wf(),
        ensures
            forall|i: int, k: nat| 0 <= i < self.infos().len() && #[trigger] up(self.infos(), self.infos()[i].index, k)
                == self.root_slot() ==> self.height_of() >= k + 1,
    {
        let g = self.red_black_tree.shape@;
        let root = self.red_black_tree.root_node;
        let ns = self.nodes@;
        let s = self.infos();
        self.lemma_wf_facts();
        lemma_walk_facts(ns, root, g, root);
        assert forall|i: int, k: nat| 0 <= i < s.len() && #[trigger] up(s, s[i].index, k) == self.root_slot() implies self.height_of()
            >= k + 1 by {
            let w = walk(ns, root, g, root);
            let x = w[i];
            assert(s[i].index == x);
            self.lemma_up(x, k);
            Self::lemma_height_chain(ns, root, g, x, k);
        }
    }

    /// The height of the tree is reached: some listed node lies `height - 1` parent links
    /// below the root.
    pub proof fn lemma_height_attained(&self)
        requires
            self.wf(),
            self.pieces() > 0,
        ensures
            exists|i: int, k: nat| 0 <= i < self.infos().len() && #[trigger] up(self.infos(), self.infos()[i].index, k)
                == self.root_slot() && self.height_of() == k + 1,
    {
        let g = self.red_black_tree.shape@;
        let root = self.red_black_tree.root_node;
        let ns = self.nodes@;
        let s = self.infos();
        self.lemma_wf_facts();
        lemma_walk_facts(ns, root, g, root);
        lemma_walk_members(ns, root, g, root);
        assert(node_struct_ok(ns, root, g, root));
        let (x, k) = Self::lemma_deepest(ns, root, g, root);
        self.lemma_up(x, k);
        let w = walk(ns, root, g, root);
        assert(w.contains(x));
        let i = choose|i: int| 0 <= i < w.len() && w[i] == x;
        assert(s[i].index == x);
        assert(up(s, s[i].index, k) == self.root_slot() && self.height_of() == k + 1);
    }

    /// A slot of the subtree under `n` that lies `height(n) - 1` levels below `n`.
    proof fn lemma_deepest(ns: Seq<Node>, root: usize, g: Shape, n: usize) -> (r: (usize, nat))
        requires
            struct_ok(ns, root, g),
            live(g, n),
        ensures
            live(g, r.0),
            crate::shape::iter_parent(ns, r.0, r.1) == n,
            height(ns, root, g, n) == r.1 + 1,
        decreases g.hi[n] - g.lo[n],
    {
        assert(node_struct_ok(ns, root, g, n));
        let l = ns[n as int].left;
        let rr = ns[n as int].right;
        if l != 0 {
            assert(node_struct_ok(ns, root, g, l));
        }
        if rr != 0 {
            assert(node_struct_ok(ns, root, g, rr));
        }
        let hl = height(ns, root, g, l);
        let hr = height(ns, root, g, rr);
        if hl == 0 && hr == 0 {
            assert(crate::shape::iter_parent(ns, n, 0) == n);
            (n, 0)
        } else {
            let c = if hl >= hr { l } else { rr };
            assert(c != 0);
            let (x, k) = Self::lemma_deepest(ns, root, g, c);
            crate::rbtree::lemma_iter_parent_next(ns, x, k);
            (x, k + 1)
        }
    }

    /// The height of the root is at least the height of a slot `k` levels below it, plus `k`.
    proof fn lemma_height_chain(ns: Seq<Node>, root: usize, g: Shape, x: usize, k: nat)
        requires
            struct_ok(ns, root, g),
            live(g, x),
            root != 0,
            crate::shape::iter_parent(ns, x, k) == root,
        ensures
            height(ns, root, g, root) >= height(ns, root, g, x) + k,
            height(ns, root, g, x) >= 1,
        decreases k,
    {
        crate::inspect::lemma_height_parent(ns, root, g, x);
        if k > 0 {
            let p = ns[x as int].parent;
            if p == 0 {
                assert(crate::shape::iter_parent(ns, 0, (k - 1) as nat) == 0);
            } else {
                Self::lemma_height_chain(ns, root, g, p, (k - 1) as nat);
            }
        }
    }

    /// The red-black rule as the listed entries show it: from a node with a NIL child up to
    /// the root, the nodes listed as black number exactly the recorded black height.
    pub proof fn lemma_black_paths(&self)
        requires
            self.wf(),
        ensures
            forall|i: int, k: nat| 0 <= i < self.infos().len() && #[trigger] up(self.infos(), self.infos()[i].index, k)
                == self.root_slot() && (self.infos()[i].left == 0 || self.infos()[i].right == 0) ==> black_on_path(
                self.infos(),
                self.infos()[i].index,
                k,
            ) == self.recorded_black_height(),
    {
        let g = self.red_black_tree.shape@;
        let root = self.red_black_tree.root_node;
        let ns = self.nodes@;
        let s = self.infos();
        self.lemma_wf_facts();
        lemma_walk_facts(ns, root, g, root);
        assert forall|i: int, k: nat| 0 <= i < s.len() && #[trigger] up(s, s[i].index, k) == self.root_slot() && (s[i].left == 0
            || s[i].right == 0) implies black_on_path(s, s[i].index, k) == self.recorded_black_height() by {
            let w = walk(ns, root, g, root);
            let x = w[i];
            assert(s[i].index == x);
            assert(s[i] == info_of(ns, x));
            self.lemma_up(x, k);
            self.lemma_black_chain(x, k);
            assert(node_struct_ok(ns, root, g, x));
            assert(bh_node_ok(ns, g, x));
        }
    }

    /// Black nodes from `x` up `k` levels to the root, with the black height below `x` on its
    /// left, make up the black height of the root.
    proof fn lemma_black_chain(&self, x: usize, k: nat)
        requires
            self.wf(),
            live(self.red_black_tree.shape@, x),
            crate::shape::iter_parent(self.nodes@, x, k) == self.red_black_tree.root_node,
        ensures
            black_on_path(self.infos(), x, k) + crate::shape::bhv(self.red_black_tree.shape@, self.nodes@[x as int].left)
                == self.red_black_tree.black_height,
        decreases k,
    {
        let g = self.red_black_tree.shape@;
        let root = self.red_black_tree.root_node;
        let ns = self.nodes@;
        self.lemma_wf_facts();
        self.lemma_entry(x);
        assert(node_struct_ok(ns, root, g, x));
        assert(bh_node_ok(ns, g, x));
        if k == 0 {
        } else {
            let p = ns[x as int].parent;
            if p == 0 {
                assert(crate::shape::iter_parent(ns, 0, (k - 1) as nat) == 0);
                assert(node_struct_ok(ns, root, g, root));
            } else {
                assert(node_struct_ok(ns, root, g, p));
                assert(bh_node_ok(ns, g, p));
                self.lemma_black_chain(p, (k - 1) as nat);
            }
        }
    }

    /// The metadata listed by `get_all_nodes_info` is consistent: one entry per piece, whose
    /// lengths add up to the document length; the root comes first, black, without parent
    /// and with the document length; each node is listed once with a non-empty piece; a
    /// listed node's children are listed and point back to it, and every other node's parent
    /// is listed and names it as a child; cached lengths add up over the children; no red
    /// node has a red child.
    pub proof fn lemma_infos_consistent(&self)
        requires
            self.wf(),
        ensures
            ({
                let s = self.infos();
                &&& forall|i: int, j: int| 0 <= i < s.len() && 0 <= j < s.len() && s[i].index == s[j].index ==> i == j
                &&& forall|i: int| 0 <= i < s.len() ==> (#[trigger] s[i]).length > 0 && s[i].index != 0
                &&& forall|i: int| 0 <= i < s.len() && (#[trigger] s[i]).left == 0 ==> s[i].left_subtree_length == 0
                &&& forall|i: int| 0 <= i < s.len() && (#[trigger] s[i]).left != 0 ==> exists|j: int|
                    0 <= j < s.len() && s[j].index == s[i].left && s[j].parent == s[i].index
                        && s[i].left_subtree_length == s[j].subtree_length && !(s[i].is_red && s[j].is_red)
                &&& forall|i: int| 0 <= i < s.len() && (#[trigger] s[i]).right == 0 ==> s[i].subtree_length
                    == s[i].left_subtree_length + s[i].length
                &&& forall|i: int| 0 <= i < s.len() && (#[trigger] s[i]).right != 0 ==> exists|j: int|
                    0 <= j < s.len() && s[j].index == s[i].right && s[j].parent == s[i].index
                        && s[i].subtree_length == s[i].left_subtree_length + s[j].subtree_length + s[i].length
                        && !(s[i].is_red && s[j].is_red)
                &&& s.len() > 0 ==> s[0].index == self.root_slot() && s[0].parent == 0 && !s[0].is_red
                    && s[0].subtree_length == self@.len()
                &&& forall|i: int| 0 < i < s.len() ==> (#[trigger] s[i]).parent != 0 && exists|j: int|
                    0 <= j < s.len() && s[j].index == s[i].parent && (s[j].left == s[i].index || s[j].right == s[i].index)
                &&& s.len() == self.pieces()
                &&& info_length_sum(s) == self@.len()
            }),
    {
        let g = self.red_black_tree.shape@;
        let root = self.red_black_tree.root_node;
        let ns = self.nodes@;
        self.lemma_wf_facts();
        lemma_walk_facts(ns, root, g, root);
        lemma_walk_members(ns, root, g, root);
        let w = walk(ns, root, g, root);
        let s = self.infos();
        assert(s.len() == w.len());
        lemma_info_length_sum(ns, w);
        if root != 0 {
            assert(node_struct_ok(ns, root, g, root));
        }
        if s.len() > 0 {
            assert(w[0] == root);
            assert(s[0] == info_of(ns, root));
        }
        assert forall|i: int, j: int| 0 <= i < s.len() && 0 <= j < s.len() && s[i].index == s[j].index implies i == j by {
            assert(s[i].index == w[i]);
            assert(s[j].index == w[j]);
        }
        assert forall|i: int| 0 < i < s.len() implies (#[trigger] s[i]).parent != 0 && exists|j: int|
            0 <= j < s.len() && s[j].index == s[i].parent && (s[j].left == s[i].index || s[j].right == s[i].index) by {
            let x = w[i];
            assert(live(g, x));
            assert(x != root) by {
                if x == root {
                    assert(w[0] == root);
                }
            }
            assert(node_struct_ok(ns, root, g, x));
            let pa = ns[x as int].parent;
            assert(live(g, pa));
            assert(node_struct_ok(ns, root, g, root));
            assert(w.contains(pa));
            let j = choose|j: int| 0 <= j < w.len() && w[j] == pa;
            assert(s[j] == info_of(ns, pa));
        }
        assert forall|i: int| 0 <= i < s.len() implies (#[trigger] s[i]).length > 0 && s[i].index != 0 by {
            let x = w[i];
            assert(live(g, x));
            assert(g.ord[g.pos[x]] == x);
            assert(ns[g.ord[g.pos[x]] as int].length > 0);
        }
        assert forall|i: int| 0 <= i < s.len() && (#[trigger] s[i]).left == 0 implies s[i].left_subtree_length == 0 by {
            let x = w[i];
            assert(live(g, x));
            assert(node_struct_ok(ns, root, g, x));
            assert(len_node_ok(ns, g, x));
        }
        assert forall|i: int| 0 <= i < s.len() && (#[trigger] s[i]).left != 0 implies exists|j: int|
            0 <= j < s.len() && s[j].index == s[i].left && s[j].parent == s[i].index
                && s[i].left_subtree_length == s[j].subtree_length && !(s[i].is_red && s[j].is_red) by {
            let x = w[i];
            assert(live(g, x));
            assert(node_struct_ok(ns, root, g, x));
            assert(len_node_ok(ns, g, x));
            assert(red_node_ok(ns, x));
            let c = ns[x as int].left;
            assert(node_struct_ok(ns, root, g, c));
            assert(len_node_ok(ns, g, c));
            assert(w.contains(c));
            let j = choose|j: int| 0 <= j < w.len() && w[j] == c;
            assert(s[j] == info_of(ns, c));
        }
        assert forall|i: int| 0 <= i < s.len() && (#[trigger] s[i]).right == 0 implies s[i].subtree_length
            == s[i].left_subtree_length + s[i].length by {
            let x = w[i];
            assert(live(g, x));
            assert(node_struct_ok(ns, root, g, x));
            let l = ns[x as int].left;
            if l != 0 {
                assert(node_struct_ok(ns, root, g, l));
                assert(len_node_ok(ns, g, l));
            }
            crate::rbtree::RedBlackTree::lemma_update_ok(ns, root, g, x);
            assert(len_node_ok(ns, g, x));
        }
        assert forall|i: int| 0 <= i < s.len() && (#[trigger] s[i]).right != 0 implies exists|j: int|
            0 <= j < s.len() && s[j].index == s[i].right && s[j].parent == s[i].index
                && s[i].subtree_length == s[i].left_subtree_length + s[j].subtree_length + s[i].length
                && !(s[i].is_red && s[j].is_red) by {
            let x = w[i];
            assert(live(g, x));
            assert(node_struct_ok(ns, root, g, x));
            assert(len_node_ok(ns, g, x));
            assert(red_node_ok(ns, x));
            let l = ns[x as int].left;
            if l != 0 {
                assert(node_struct_ok(ns, root, g, l));
                assert(len_node_ok(ns, g, l));
            }
            let c = ns[x as int].right;
            assert(node_struct_ok(ns, root, g, c));
            assert(len_node_ok(ns, g, c));
            crate::rbtree::RedBlackTree::lemma_update_ok(ns, root, g, x);
            assert(w.contains(c));
            let j = choose|j: int| 0 <= j < w.len() && w[j] == c;
            assert(s[j] == info_of(ns, c));
        }
    }

    /// The listed metadata spelled out over the arena.
    pub(crate) proof fn lemma_infos_unfold(&self)
        ensures
            self.infos() == walk(self.nodes@, self.red_black_tree.root_node, self.red_black_tree.shape@,
                self.red_black_tree.root_node).map_values(|n: usize| info_of(self.nodes@, n)),
    {
    }

    /// The invariant and the document spelled out over the arena.
    pub(crate) proof fn lemma_wf_unfold(&self)
        ensures
            self.wf() == (tree_ok(self.nodes@, self.red_black_tree.root_node, self.red_black_tree.shape@, self.red_black_tree.black_height)
                && pieces_in_bounds(self.nodes@, self.red_black_tree.shape@, self.original@.len(), self.add@.len())),
            self.pieces_are_utf8() == pieces_utf8(self.nodes@, self.red_black_tree.shape@, self.original@, self.add@),
            self@ == doc(self.nodes@, self.red_black_tree.shape@, self.original@, self.add@),
            self.root_slot() == self.red_black_tree.root_node as nat,
            self.recorded_black_height() == self.red_black_tree.black_height as nat,
            self.pieces() == self.red_black_tree.shape@.ord.len(),
            self.slots() == self.nodes@.len(),
    {
    }

    /// What the invariant gives about the root, the piece count and the document length.
    pub(crate) proof fn lemma_wf_facts(&self)
        requires
            self.wf(),
        ensures
            struct_ok(self.nodes@, self.red_black_tree.root_node, self.red_black_tree.shape@),
            self.red_black_tree.root_node == 0 || live(self.red_black_tree.shape@, self.red_black_tree.root_node),
            self.red_black_tree.shape@.ord.len() <= self@.len(),
            self@.len() <= usize::MAX,
            self@.len() == sum_len(self.nodes@, self.red_black_tree.shape@.ord, 0, self.red_black_tree.shape@.ord.len() as int),
            self.red_black_tree.root_node != 0 ==> self.red_black_tree.root_node < self.nodes@.len()
                && self.nodes@[self.red_black_tree.root_node as int].subtree_length == self@.len(),
            (self.red_black_tree.root_node == 0) == (self@.len() == 0),
            (self.red_black_tree.root_node == 0) == (self.red_black_tree.shape@.ord.len() == 0),
    {
        let g = self.red_black_tree.shape@;
        let root = self.red_black_tree.root_node;
        let nl = g.ord.len() as int;
        assert forall|i: int| 0 <= i < nl implies #[trigger] piece_in_bounds(self.nodes@[g.ord[i] as int], self.original@.len(), self.add@.len()) by {}
        lemma_text_len(self.nodes@, g.ord, self.original@, self.add@, 0, nl);
        crate::shape::lemma_sum_ge_count(self.nodes@, g.ord, 0, nl);
        if root != 0 {
            assert(node_struct_ok(self.nodes@, root, g, root));
            assert(len_node_ok(self.nodes@, g, root));
        } else {
            assert(sum_len(self.nodes@, g.ord, 0, nl) == 0);
        }
    }

    /// Appends `content` to the add buffer and creates a detached piece over it; returns
    /// the slot of that piece.
    fn pre_insert(&mut self, content: &str) -> (r: usize)
        requires
            old(self).wf(),
            content.spec_bytes().len() > 0,
        ensures
            final(self).wf(),
            final(self)@ == old(self)@,
            final(self).original@ == old(self).original@,
            final(self).add@ == old(self).add@ + content.spec_bytes(),
            final(self).red_black_tree == old(self).red_black_tree,
            r == old(self).nodes.len(),
            final(self).nodes@ == old(self).nodes@.push(
                fresh_piece(BufferType::Add, old(self).add@.len() as usize, content.spec_bytes().len() as usize),
            ),
            piece_bytes(final(self).nodes@[r as int], final(self).original@, final(self).add@) == content.spec_bytes(),
            !live(final(self).red_black_tree.shape@, r),
            piece_in_bounds(final(self).nodes@[r as int], final(self).original@.len(), final(self).add@.len()),
            old(self).pieces_are_utf8() ==> final(self).pieces_are_utf8(),
    {
        let ghost n0 = self.nodes@;
        let ghost add0 = self.add@;
        let ghost g = self.red_black_tree.shape@;
        let previous_buffer_len = self.add.len();
        let previous_nodes_len = self.nodes.len();
        let bytes = content.as_bytes();
        let mut i: usize = 0;
        while i < bytes.len()
            invariant
                0 <= i <= bytes@.len(),
                self.add@ == add0 + bytes@.subrange(0, i as int),
                self.nodes@ == n0,
                self.red_black_tree == old(self).red_black_tree,
                self.original@ == old(self).original@,
                self.red_black_tree.shape@ == g,
            decreases bytes@.len() - i,
        {
            self.add.push(bytes[i]);
            proof {
                assert(self.add@ =~= add0 + bytes@.subrange(0, i + 1));
            }
            i = i + 1;
        }
        proof {
            assert(bytes@.subrange(0, bytes@.len() as int) =~= bytes@);
        }
        let piece = Node::new(BufferType::Add, previous_buffer_len, bytes.len());
        self.nodes.push(piece);
        proof {
            let root = self.red_black_tree.root_node;
            let bhf = self.red_black_tree.black_height;
            lemma_push_frame(n0, piece, root, g, bhf);
            let n1 = self.nodes@;
            assert forall|m: usize| live(g, m) implies #[trigger] len_node_ok(n1, g, m) by {
                assert(len_node_ok(n0, g, m));
            }
            assert forall|k: int| 0 <= k < g.ord.len() implies #[trigger] piece_in_bounds(n1[g.ord[k] as int], self.original@.len(), self.add@.len()) by {
                assert(g.pos.dom().contains(g.ord[k]));
                assert(piece_in_bounds(n0[g.ord[k] as int], self.original@.len(), add0.len()));
            }
            assert forall|k: int| 0 <= k < g.ord.len() implies #[trigger] piece_bytes(n0[g.ord[k] as int], self.original@, add0) == piece_bytes(n1[g.ord[k] + 0 as int], self.original@, self.add@) by {
                assert(g.pos.dom().contains(g.ord[k]));
                assert(piece_in_bounds(n0[g.ord[k] as int], self.original@.len(), add0.len()));
                assert(self.add@.subrange(0, add0.len() as int) =~= add0);
                lemma_piece_grow(n0[g.ord[k] as int], self.original@, add0, self.add@);
            }
            crate::text::lemma_text_shift(n0, g.ord, self.original@, add0, n1, g.ord, self.original@, self.add@, 0, g.ord.len() as int, 0);
            assert(piece_bytes(n1[previous_nodes_len as int], self.original@, self.add@) =~= bytes@);
            if pieces_utf8(n0, g, self.original@, add0) {
                assert forall|k: int| 0 <= k < g.ord.len() implies #[trigger] valid_utf8(piece_bytes(n1[g.ord[k] as int], self.original@, self.add@)) by {
                    assert(piece_bytes(n0[g.ord[k] as int], self.original@, add0) == piece_bytes(n1[g.ord[k] + 0 as int], self.original@, self.add@));
                    assert(valid_utf8(piece_bytes(n0[g.ord[k] as int], self.original@, add0)));
                }
            }
        }
        previous_nodes_len
    }

    /// Appends the text of the subtree under `node_idx` to `out`.
    fn in_order(&self, node_idx: usize, out: &mut String)
        requires
            self.wf(),
            self.pieces_are_utf8(),
            node_idx == 0 || live(self.red_black_tree.shape@, node_idx),
        ensures
            final(out)@ == old(out)@ + (if node_idx == 0 {
                Seq::<char>::empty()
            } else {
                chars_of(
                    self.nodes@,
                    self.red_black_tree.shape@.ord,
                    self.original@,
                    self.add@,
                    self.red_black_tree.shape@.lo[node_idx],
                    self.red_black_tree.shape@.hi[node_idx],
                )
            }),
        decreases if node_idx == 0 { 0 } else { self.red_black_tree.shape@.hi[node_idx] - self.red_black_tree.shape@.lo[node_idx] + 1 },
    {
        let ghost g = self.red_black_tree.shape@;
        let ghost ns = self.nodes@;
        if node_idx != 0 {
            proof {
                assert(node_struct_ok(ns, self.red_black_tree.root_node, g, node_idx));
                let l = ns[node_idx as int].left;
                let r = ns[node_idx as int].right;
                if l != 0 { assert(node_struct_ok(ns, self.red_black_tree.root_node, g, l)); }
                if r != 0 { assert(node_struct_ok(ns, self.red_black_tree.root_node, g, r)); }
            }
            let ghost before = out@;
            let node = self.nodes[node_idx];
            self.in_order(node.left, out);
            let ghost mid = out@;
            let buffer = match node.buffer_type {
                BufferType::Original => &self.original,
                BufferType::Add => &self.add,
            };
            let ghost p = g.pos[node_idx];
            let blen = buffer.len();
            proof {
                assert(g.ord[p] == node_idx);
                assert(piece_in_bounds(ns[g.ord[p] as int], self.original@.len(), self.add@.len()));
                assert(valid_utf8(piece_bytes(ns[g.ord[p] as int], self.original@, self.add@)));
                assert(node.start + node.length <= buffer@.len());
            }
            let piece = vstd::slice::slice_subrange(buffer.as_slice(), node.start, node.start + node.length);
            proof {
                assert(piece@ == piece_bytes(ns[node_idx as int], self.original@, self.add@));
            }
            match str_from_utf8(piece) {
                Some(s) => {
                    proof {
                        vstd::utf8::encode_utf8_decode_utf8(s@);
                    }
                    out.append(s);
                },
                None => {},
            }
            let ghost mid2 = out@;
            self.in_order(node.right, out);
            proof {
                let lo = g.lo[node_idx];
                let hi = g.hi[node_idx];
                lemma_chars_split(ns, g.ord, self.original@, self.add@, lo, p, hi);
                lemma_chars_split(ns, g.ord, self.original@, self.add@, p, p + 1, hi);
                lemma_chars_one(ns, g.ord, self.original@, self.add@, p);
                if node.left == 0 {
                    assert(chars_of(ns, g.ord, self.original@, self.add@, lo, p) == Seq::<char>::empty());
                }
                if node.right == 0 {
                    assert(chars_of(ns, g.ord, self.original@, self.add@, p + 1, hi) == Seq::<char>::empty());
                }
                assert(out@ =~= before + chars_of(ns, g.ord, self.original@, self.add@, lo, hi));
            }
        }
    }
}

} // verus!
