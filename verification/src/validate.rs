use vstd::prelude::*;
use vstd::string::StringExecFns;
use std::collections::HashSet;
use crate::node::{Node, Color, BufferType, NodeInfo};
use crate::shape::{Shape, live, bhv, node_struct_ok, struct_ok, len_node_ok, lengths_ok, total_fits, colors_ok,
    bh_node_ok, red_node_ok, lemma_bh_bound};
use crate::text::{piece_in_bounds, pieces_in_bounds};
use crate::insert_tree::tree_ok;
use crate::piece_tree::PieceTree;
use crate::rbtree::RedBlackTree;
use crate::inspect::{preorder, walk, info_of, lemma_walk_facts, lemma_walk_members};
use crate::report::{occurs_in, line_from_number, lemma_drawing_has_line, newlines, lemma_newlines_none, lemma_newlines_concat, lemma_decimal_newlines,
    lemma_drawing_newlines, with_num, push_num, decimal, drawing, indentation, node_line, line_head, line_tail,
    color_text, buffer_text};

verus! {

broadcast use vstd::std_specs::hash::group_hash_axioms;

/// The name of a colour.
fn color_name(c: Color) -> (r: &'static str)
    ensures
        r@ == (if c == Color::Red { "Red"@ } else { "Black"@ }),
{
    match c {
        Color::Red => "Red",
        Color::Black => "Black",
    }
}

/// Appends the colour and buffer part of the line that describes slot `idx`.
fn push_line_head(out: &mut String, node: Node, idx: usize, prefix: &str, color_text: &str, buf_name: &str)
    requires
        color_text@ == crate::report::color_text(node.color),
        buf_name@ == buffer_text(node.buffer_type),
    ensures
        final(out)@ == old(out)@ + line_head(node, idx, prefix@),
{
    let ghost before = out@;
    out.append(prefix);
    out.append(" [");
    out.append(color_text);
    push_num(out, "] Node#", idx);
    out.append(": color=");
    out.append(color_text);
    out.append(", buf=");
    out.append(buf_name);
    proof {
        assert(out@ =~= before + line_head(node, idx, prefix@));
    }
}

/// Appends the range and cached-lengths part of the line that describes a slot.
fn push_line_tail(out: &mut String, node: Node)
    requires
        node.start + node.length <= usize::MAX,
    ensures
        final(out)@ == old(out)@ + line_tail(node),
{
    let ghost before = out@;
    push_num(out, "[", node.start);
    push_num(out, "..", node.start + node.length);
    push_num(out, "], len=", node.length);
    push_num(out, ", sub_len=", node.subtree_length);
    push_num(out, ", left_sub_len=", node.left_subtree_length);
    push_num(out, ", parent=", node.parent);
    out.append("\n");
    proof {
        assert(out@ =~= before + line_tail(node));
    }
}

/// Slot `m` is a live node in the subtree under the live slot `n`.
pub open spec fn in_subtree(g: Shape, n: usize, m: usize) -> bool {
    live(g, m) && g.lo[n] <= g.pos[m] < g.hi[n]
}

/// No node of the subtree under `n` is in `s` (NIL has an empty subtree).
pub open spec fn subtree_unseen(g: Shape, n: usize, s: Set<usize>) -> bool {
    n == 0 || forall|m: usize| #[trigger] in_subtree(g, n, m) ==> !s.contains(m)
}

/// The subtree under a live slot is the slot, its left subtree and its right subtree,
/// which do not overlap.
proof fn lemma_subtree_parts(nodes: Seq<Node>, root: usize, g: Shape, n: usize)
    requires
        struct_ok(nodes, root, g),
        live(g, n),
    ensures
        in_subtree(g, n, n),
        forall|m: usize| #[trigger] in_subtree(g, n, m) <==> (m == n || (nodes[n as int].left != 0 && in_subtree(g,
            nodes[n as int].left, m)) || (nodes[n as int].right != 0 && in_subtree(g, nodes[n as int].right, m))),
        nodes[n as int].left != 0 ==> !in_subtree(g, nodes[n as int].left, n),
        nodes[n as int].right != 0 ==> !in_subtree(g, nodes[n as int].right, n),
        nodes[n as int].left != 0 && nodes[n as int].right != 0 ==> forall|m: usize| #[trigger] in_subtree(g,
            nodes[n as int].left, m) ==> !in_subtree(g, nodes[n as int].right, m),
{
    assert(node_struct_ok(nodes, root, g, n));
    let l = nodes[n as int].left;
    let r = nodes[n as int].right;
    if l != 0 {
        assert(node_struct_ok(nodes, root, g, l));
    }
    if r != 0 {
        assert(node_struct_ok(nodes, root, g, r));
    }
    assert forall|m: usize| #[trigger] in_subtree(g, n, m) <==> (m == n || (l != 0 && in_subtree(g, l, m)) || (r != 0
        && in_subtree(g, r, m))) by {
        if in_subtree(g, n, m) && m != n {
            assert(g.ord[g.pos[n]] == n);
            assert(g.ord[g.pos[m]] == m);
        }
    }
}

/// The line that describes a node with metadata `info`, from its number on, given the name
/// of its buffer and the first byte of its piece in that buffer.
pub open spec fn described_line(info: NodeInfo, buf: Seq<char>, start: usize) -> Seq<char> {
    "] Node#"@ + decimal(info.index as nat) + ": color="@ + (if info.is_red { "RED"@ } else { "BLACK"@ }) + ", buf="@ + buf
        + "["@ + decimal(start as nat) + ".."@ + decimal((start + info.length) as nat) + "], len="@ + decimal(info.length as nat)
        + ", sub_len="@ + decimal(info.subtree_length as nat) + ", left_sub_len="@ + decimal(
        info.left_subtree_length as nat,
    ) + ", parent="@ + decimal(info.parent as nat) + "\n"@
}

/// The text `t` holds the line that describes a node with metadata `info`, for some
/// buffer name and first byte of its piece.
pub open spec fn drawn(t: Seq<char>, info: NodeInfo) -> bool {
    exists|buf: Seq<char>, start: usize| #[trigger] occurs_in(described_line(info, buf, start), t)
}

/// The line drawn for a slot is the line its metadata describes.
proof fn lemma_described(nodes: Seq<Node>, x: usize)
    ensures
        described_line(info_of(nodes, x), buffer_text(nodes[x as int].buffer_type), nodes[x as int].start)
            == line_from_number(nodes[x as int], x),
{
    let nd = nodes[x as int];
    assert(color_text(nd.color) == (if info_of(nodes, x).is_red { "RED"@ } else { "BLACK"@ }));
    assert(described_line(info_of(nodes, x), buffer_text(nd.buffer_type), nd.start) =~= line_from_number(nd, x));
}

/// The header line of the dump holds one line break, before the drawing.
proof fn lemma_header_newlines(a: nat, b: nat, c: nat, d: nat, rest: Seq<char>)
    requires
        rest.len() > 0,
    ensures
        newlines("Tree [root="@ + decimal(a) + ", black_height="@ + decimal(b) + ", nodes_len="@ + decimal(c)
            + ", doc_len="@ + decimal(d) + "]:\n"@ + rest) == 1 + newlines(rest),
        ("Tree [root="@ + decimal(a) + ", black_height="@ + decimal(b) + ", nodes_len="@ + decimal(c) + ", doc_len="@
            + decimal(d) + "]:\n"@ + rest).last() == rest.last(),
{
    reveal_strlit("Tree [root=");
    reveal_strlit(", black_height=");
    reveal_strlit(", nodes_len=");
    reveal_strlit(", doc_len=");
    reveal_strlit("]:\n");
    lemma_newlines_none("Tree [root="@);
    lemma_newlines_none(", black_height="@);
    lemma_newlines_none(", nodes_len="@);
    lemma_newlines_none(", doc_len="@);
    lemma_decimal_newlines(a);
    lemma_decimal_newlines(b);
    lemma_decimal_newlines(c);
    lemma_decimal_newlines(d);
    assert(newlines("]:\n"@) == 1) by {
        assert("]:\n"@.drop_last() =~= seq![']', ':']);
        lemma_newlines_none(seq![']', ':']);
    }
    let h1 = "Tree [root="@ + decimal(a);
    lemma_newlines_concat("Tree [root="@, decimal(a));
    let h2 = h1 + ", black_height="@;
    lemma_newlines_concat(h1, ", black_height="@);
    let h3 = h2 + decimal(b);
    lemma_newlines_concat(h2, decimal(b));
    let h4 = h3 + ", nodes_len="@;
    lemma_newlines_concat(h3, ", nodes_len="@);
    let h5 = h4 + decimal(c);
    lemma_newlines_concat(h4, decimal(c));
    let h6 = h5 + ", doc_len="@;
    lemma_newlines_concat(h5, ", doc_len="@);
    let h7 = h6 + decimal(d);
    lemma_newlines_concat(h6, decimal(d));
    let h8 = h7 + "]:\n"@;
    lemma_newlines_concat(h7, "]:\n"@);
    lemma_newlines_concat(h8, rest);
}

impl PieceTree {
    /// Checks every red-black and piece-table invariant; `Ok` when all hold, else a
    /// description of the first violation found.
    pub fn validate_invariants(&self) -> (r: Result<(), String>)
        requires
            self.wf(),
            self.pieces_are_utf8(),
        ensures
            r is Ok,
    {
        let ghost ns = self.nodes@;
        let ghost g = self.red_black_tree.shape@;
        let ghost root0 = self.red_black_tree.root_node;
        proof {
            self.lemma_wf_unfold();
            self.lemma_wf_facts();
        }
        // 1. The NIL sentinel at slot 0.
        if self.nodes.len() == 0 {
            return Err(String::from_str("Nodes vector is empty, missing NIL node at index 0"));
        }
        let nil = self.nodes[0];
        if nil.color != Color::Black {
            let mut m = String::from_str("NIL node (index 0) must be Black, but is ");
            m.append(color_name(nil.color));
            return Err(m);
        }
        if nil.left != 0 || nil.right != 0 {
            let mut m = with_num("NIL node (index 0) must have left=0 and right=0, found left=", nil.left);
            push_num(&mut m, ", right=", nil.right);
            return Err(m);
        }
        if nil.subtree_length != 0 || nil.left_subtree_length != 0 || nil.length != 0 {
            let mut m = with_num("NIL node (index 0) must have length=0 and subtree_lengths=0, found length=", nil.length);
            push_num(&mut m, ", subtree_len=", nil.subtree_length);
            push_num(&mut m, ", left_subtree_len=", nil.left_subtree_length);
            return Err(m);
        }
        // 2. The empty tree.
        let root = self.red_black_tree.root_node;
        if root == 0 {
            if self.red_black_tree.black_height != 0 {
                return Err(with_num("Empty tree must have black_height 0, found ", self.red_black_tree.black_height));
            }
            return Ok(());
        }
        if root >= self.nodes.len() {
            let mut m = with_num("Root node index ", root);
            push_num(&mut m, " is out of bounds (nodes len ", self.nodes.len());
            m.append(")");
            return Err(m);
        }
        proof {
            assert(node_struct_ok(ns, root, g, root));
        }
        // 3. The root is black, 4. and has no parent.
        if self.nodes[root].color != Color::Black {
            let mut m = with_num("Root node ", root);
            m.append(" must be Black, but is ");
            m.append(color_name(self.nodes[root].color));
            return Err(m);
        }
        if self.nodes[root].parent != 0 {
            let mut m = with_num("Root node ", root);
            push_num(&mut m, " must have parent 0, but has parent ", self.nodes[root].parent);
            return Err(m);
        }
        // 5. Reachability, no cycles, and parent links that point back.
        let mut seen: HashSet<usize> = HashSet::new();
        let mut visited: Vec<usize> = Vec::new();
        let structure = self.validate_node_structure(root, &mut seen, &mut visited);
        if let Err(e) = structure {
            return Err(e);
        }
        // 6. A red node has no red parent and no red child.
        let mut i: usize = 0;
        while i < visited.len()
            invariant
                self.wf(),
                ns == self.nodes@,
                g == self.red_black_tree.shape@,
                root == root0,
                root0 == self.red_black_tree.root_node,
                struct_ok(ns, root, g),
                colors_ok(ns, root, g, self.red_black_tree.black_height),
                forall|j: int| 0 <= j < visited@.len() ==> live(g, #[trigger] visited@[j]),
            decreases visited@.len() - i,
        {
            let idx = visited[i];
            proof {
                assert(live(g, visited@[i as int]));
                assert(node_struct_ok(ns, root, g, idx));
                assert(red_node_ok(ns, idx));
                let p = ns[idx as int].parent;
                if p != 0 {
                    assert(node_struct_ok(ns, root, g, p));
                    assert(red_node_ok(ns, p));
                }
            }
            let node = self.nodes[idx];
            if node.color == Color::Red {
                if node.parent != 0 && self.nodes[node.parent].color == Color::Red {
                    let mut m = with_num("Red-Red violation: Red node ", idx);
                    push_num(&mut m, " has Red parent ", node.parent);
                    return Err(m);
                }
                if node.left != 0 && self.nodes[node.left].color == Color::Red {
                    let mut m = with_num("Red-Red violation: Red node ", idx);
                    push_num(&mut m, " has Red left child ", node.left);
                    return Err(m);
                }
                if node.right != 0 && self.nodes[node.right].color == Color::Red {
                    let mut m = with_num("Red-Red violation: Red node ", idx);
                    push_num(&mut m, " has Red right child ", node.right);
                    return Err(m);
                }
            }
            i = i + 1;
        }
        // 7. Every path to NIL has the recorded number of black nodes.
        let computed = self.validate_black_height(root);
        let computed_bh = match computed {
            Ok(v) => v,
            Err(e) => {
                return Err(e);
            },
        };
        if computed_bh != self.red_black_tree.black_height {
            let mut m = with_num("Tree black_height attribute (", self.red_black_tree.black_height);
            push_num(&mut m, ") does not match computed black height (", computed_bh);
            m.append(")");
            return Err(m);
        }
        // 8. Cached subtree lengths, and pieces inside their buffers.
        let mut i: usize = 0;
        while i < visited.len()
            invariant
                self.wf(),
                ns == self.nodes@,
                g == self.red_black_tree.shape@,
                root0 == self.red_black_tree.root_node,
                struct_ok(ns, root0, g),
                lengths_ok(ns, g),
                total_fits(ns, g),
                pieces_in_bounds(ns, g, self.original@.len(), self.add@.len()),
                forall|j: int| 0 <= j < visited@.len() ==> live(g, #[trigger] visited@[j]),
            decreases visited@.len() - i,
        {
            let idx = visited[i];
            proof {
                assert(live(g, visited@[i as int]));
                assert(node_struct_ok(ns, root0, g, idx));
                assert(len_node_ok(ns, g, idx));
                let l = ns[idx as int].left;
                let r = ns[idx as int].right;
                if l != 0 {
                    assert(node_struct_ok(ns, root0, g, l));
                    assert(len_node_ok(ns, g, l));
                }
                if r != 0 {
                    assert(node_struct_ok(ns, root0, g, r));
                    assert(len_node_ok(ns, g, r));
                }
                RedBlackTree::lemma_update_ok(ns, root0, g, idx);
                assert(g.ord[g.pos[idx]] == idx);
                assert(piece_in_bounds(ns[g.ord[g.pos[idx]] as int], self.original@.len(), self.add@.len()));
            }
            let node = self.nodes[idx];
            let left_len = self.nodes[node.left].subtree_length;
            let right_len = self.nodes[node.right].subtree_length;
            let expected_subtree_len = left_len + right_len + node.length;
            if node.left_subtree_length != left_len {
                let mut m = with_num("Node ", idx);
                push_num(&mut m, " left_subtree_length is ", node.left_subtree_length);
                push_num(&mut m, ", but left child (", node.left);
                push_num(&mut m, ") subtree_length is ", left_len);
                return Err(m);
            }
            if node.subtree_length != expected_subtree_len {
                let mut m = with_num("Node ", idx);
                push_num(&mut m, " subtree_length is ", node.subtree_length);
                push_num(&mut m, ", but expected left(", left_len);
                push_num(&mut m, ") + right(", right_len);
                push_num(&mut m, ") + length(", node.length);
                push_num(&mut m, ") = ", expected_subtree_len);
                return Err(m);
            }
            let (buffer_len, buffer_name) = match node.buffer_type {
                BufferType::Original => (self.original.len(), "original"),
                BufferType::Add => (self.add.len(), "add"),
            };
            if node.start + node.length > buffer_len {
                let mut m = with_num("Node ", idx);
                push_num(&mut m, " slice [", node.start);
                push_num(&mut m, "..", node.start + node.length);
                m.append("] exceeds ");
                m.append(buffer_name);
                push_num(&mut m, " buffer length ", buffer_len);
                return Err(m);
            }
            i = i + 1;
        }
        // 9. The cached total length is the length of the text.
        let root_subtree_len = self.nodes[root].subtree_length;
        let text = self.get_text();
        let actual_text_len = text.as_str().len();
        if root_subtree_len != actual_text_len {
            let mut m = with_num("Root subtree_length (", root_subtree_len);
            push_num(&mut m, ") does not match get_text() length (", actual_text_len);
            m.append(")");
            return Err(m);
        }
        Ok(())
    }

    /// Walks the subtree under `idx` from the top, adding each node to the set `seen` and
    /// listing it in `visited` in the order met (the later checks walk that list, as a hash
    /// set is walked in no fixed order); fails on an index out of range, a node met twice,
    /// or a child whose parent link does not point back.
    fn validate_node_structure(&self, idx: usize, seen: &mut HashSet<usize>, visited: &mut Vec<usize>) -> (r: Result<(), String>)
        requires
            struct_ok(self.nodes@, self.red_black_tree.root_node, self.red_black_tree.shape@),
            idx == 0 || idx >= self.nodes@.len() || live(self.red_black_tree.shape@, idx),
            forall|j: int| 0 <= j < old(visited)@.len() ==> live(self.red_black_tree.shape@, #[trigger] old(visited)@[j]),
        ensures
            idx >= self.nodes@.len() ==> r is Err,
            idx == 0 || live(self.red_black_tree.shape@, idx) ==> (r is Ok <==> subtree_unseen(
                self.red_black_tree.shape@,
                idx,
                old(seen)@,
            )),
            r is Ok ==> forall|m: usize| (#[trigger] final(seen)@.contains(m)) == (old(seen)@.contains(m) || (idx != 0
                && in_subtree(self.red_black_tree.shape@, idx, m))),
            r is Ok ==> final(visited)@ == old(visited)@ + preorder(self.nodes@, self.red_black_tree.root_node,
                self.red_black_tree.shape@, idx),
            r is Ok ==> forall|j: int| 0 <= j < final(visited)@.len() ==> live(self.red_black_tree.shape@, #[trigger] final(visited)@[j]),
        decreases (if idx == 0 || !live(self.red_black_tree.shape@, idx) { 0 } else { self.red_black_tree.shape@.hi[idx] - self.red_black_tree.shape@.lo[idx] }),
    {
        let ghost ns = self.nodes@;
        let ghost g = self.red_black_tree.shape@;
        let ghost root = self.red_black_tree.root_node;
        let ghost seen0 = seen@;
        let ghost vis0 = visited@;
        if idx == 0 {
            proof {
                assert(visited@ =~= vis0 + preorder(ns, root, g, idx));
            }
            return Ok(());
        }
        if idx >= self.nodes.len() {
            let mut m = with_num("Node index ", idx);
            push_num(&mut m, " is out of bounds (len: ", self.nodes.len());
            m.append(")");
            return Err(m);
        }
        proof {
            assert(node_struct_ok(ns, root, g, idx));
            lemma_subtree_parts(ns, root, g, idx);
        }
        if !seen.insert(idx) {
            proof {
                assert(in_subtree(g, idx, idx));
            }
            let mut m = with_num("Cycle detected in tree: node ", idx);
            m.append(" visited more than once");
            return Err(m);
        }
        visited.push(idx);
        let node = self.nodes[idx];
        let ghost seen1 = seen@;
        let ghost vis1 = visited@;
        proof {
            if node.left != 0 {
                assert(node_struct_ok(ns, root, g, node.left));
            }
            if node.right != 0 {
                assert(node_struct_ok(ns, root, g, node.right));
            }
        }
        if node.left != 0 {
            proof {
                assert(node_struct_ok(ns, root, g, node.left));
            }
            if node.left >= self.nodes.len() {
                let mut m = with_num("Node ", idx);
                push_num(&mut m, " left child ", node.left);
                m.append(" is out of bounds");
                return Err(m);
            }
            if self.nodes[node.left].parent != idx {
                let mut m = with_num("Parent link mismatch: node ", idx);
                push_num(&mut m, " left child is ", node.left);
                push_num(&mut m, ", but node ", node.left);
                push_num(&mut m, " parent is ", self.nodes[node.left].parent);
                return Err(m);
            }
            let sub = self.validate_node_structure(node.left, seen, visited);
            if let Err(e) = sub {
                proof {
                    let m = choose|m: usize| in_subtree(g, node.left, m) && seen1.contains(m);
                    assert(in_subtree(g, idx, m) && seen0.contains(m));
                }
                return Err(e);
            }
        }
        let ghost seen2 = seen@;
        let ghost vis2 = visited@;
        proof {
            if node.left == 0 {
                assert(vis2 =~= vis1 + preorder(ns, root, g, node.left));
            }
        }
        if node.right != 0 {
            proof {
                assert(node_struct_ok(ns, root, g, node.right));
            }
            if node.right >= self.nodes.len() {
                let mut m = with_num("Node ", idx);
                push_num(&mut m, " right child ", node.right);
                m.append(" is out of bounds");
                return Err(m);
            }
            if self.nodes[node.right].parent != idx {
                let mut m = with_num("Parent link mismatch: node ", idx);
                push_num(&mut m, " right child is ", node.right);
                push_num(&mut m, ", but node ", node.right);
                push_num(&mut m, " parent is ", self.nodes[node.right].parent);
                return Err(m);
            }
            let sub = self.validate_node_structure(node.right, seen, visited);
            if let Err(e) = sub {
                proof {
                    let m = choose|m: usize| in_subtree(g, node.right, m) && seen2.contains(m);
                    assert(in_subtree(g, idx, m) && seen0.contains(m));
                }
                return Err(e);
            }
        }
        proof {
            let l = node.left;
            let r = node.right;
            if r == 0 {
                assert(visited@ =~= vis2 + preorder(ns, root, g, r));
            }
            assert(preorder(ns, root, g, idx) == seq![idx] + preorder(ns, root, g, l) + preorder(ns, root, g, r));
            assert(visited@ =~= vis0 + preorder(ns, root, g, idx));
            assert forall|m: usize| (#[trigger] seen@.contains(m)) == (seen0.contains(m) || in_subtree(g, idx, m)) by {}
            assert(subtree_unseen(g, idx, seen0));
        }
        Ok(())
    }

    /// The number of black nodes on every path from `idx` down to NIL; fails where two
    /// paths disagree.
    fn validate_black_height(&self, idx: usize) -> (r: Result<usize, String>)
        requires
            struct_ok(self.nodes@, self.red_black_tree.root_node, self.red_black_tree.shape@),
            forall|n: usize| live(self.red_black_tree.shape@, n) ==> #[trigger] bh_node_ok(self.nodes@, self.red_black_tree.shape@, n),
            idx == 0 || live(self.red_black_tree.shape@, idx),
            self.red_black_tree.shape@.ord.len() <= usize::MAX,
        ensures
            r == Ok::<usize, String>(bhv(self.red_black_tree.shape@, idx) as usize),
        decreases (if idx == 0 { 0 } else { self.red_black_tree.shape@.hi[idx] - self.red_black_tree.shape@.lo[idx] }),
    {
        let ghost ns = self.nodes@;
        let ghost g = self.red_black_tree.shape@;
        let ghost root = self.red_black_tree.root_node;
        if idx == 0 {
            return Ok(0);
        }
        proof {
            assert(node_struct_ok(ns, root, g, idx));
            assert(bh_node_ok(ns, g, idx));
            lemma_bh_bound(ns, root, g, idx);
            let l = ns[idx as int].left;
            let r = ns[idx as int].right;
            if l != 0 {
                assert(node_struct_ok(ns, root, g, l));
            }
            if r != 0 {
                assert(node_struct_ok(ns, root, g, r));
            }
        }
        let node = self.nodes[idx];
        let left_bh = match self.validate_black_height(node.left) {
            Ok(v) => v,
            Err(e) => {
                return Err(e);
            },
        };
        let right_bh = match self.validate_black_height(node.right) {
            Ok(v) => v,
            Err(e) => {
                return Err(e);
            },
        };
        if left_bh != right_bh {
            let mut m = with_num("Black height mismatch at node ", idx);
            push_num(&mut m, ": left subtree black height is ", left_bh);
            push_num(&mut m, ", right subtree black height is ", right_bh);
            return Err(m);
        }
        let is_black: usize = if node.color == Color::Black { 1 } else { 0 };
        Ok(left_bh + is_black)
    }

    /// Checks every invariant. They hold for every tree built through this interface, so
    /// this returns normally.
    pub fn assert_invariants(&self)
        requires
            self.wf(),
            self.pieces_are_utf8(),
    {
        let checked = self.validate_invariants();
        proof {
            assert(checked is Ok);
        }
    }

    /// The drawing of the tree below its header line.
    pub closed spec fn tree_drawing(&self) -> Seq<char> {
        drawing(self.nodes@, self.red_black_tree.root_node, self.red_black_tree.shape@, self.red_black_tree.root_node, 0, "ROOT"@)
    }

    /// The drawing has one line per node and one per NIL child: `2k + 1` lines for `k`
    /// pieces, the last of them ending the text.
    pub proof fn lemma_drawing_lines(&self)
        requires
            self.wf(),
        ensures
            newlines(self.tree_drawing()) == 2 * self.pieces() + 1,
            self.tree_drawing().len() > 0,
            self.tree_drawing().last() == '\n',
    {
        self.lemma_wf_unfold();
        self.lemma_wf_facts();
        let g = self.red_black_tree.shape@;
        let root = self.red_black_tree.root_node;
        reveal_strlit("ROOT");
        lemma_newlines_none("ROOT"@);
        lemma_drawing_newlines(self.nodes@, root, g, root, 0, "ROOT"@);
        if root != 0 {
            assert(node_struct_ok(self.nodes@, root, g, root));
        }
    }

    /// The drawing shows every listed node as it is listed: its number, colour, cached
    /// lengths and parent, on one line with its buffer range.
    pub proof fn lemma_dump_describes_nodes(&self)
        requires
            self.wf(),
        ensures
            forall|i: int| 0 <= i < self.infos().len() ==> drawn(self.tree_drawing(), #[trigger] self.infos()[i]),
    {
        self.lemma_wf_facts();
        self.lemma_infos_unfold();
        let g = self.red_black_tree.shape@;
        let root = self.red_black_tree.root_node;
        let ns = self.nodes@;
        lemma_walk_facts(ns, root, g, root);
        let w = walk(ns, root, g, root);
        assert forall|i: int| 0 <= i < self.infos().len() implies drawn(self.tree_drawing(), #[trigger] self.infos()[i]) by {
            assert(self.infos().len() == w.len());
            let x = w[i];
            assert(live(g, x));
            assert(self.infos()[i] == info_of(ns, x));
            self.lemma_node_described(x);
            let nd = ns[x as int];
            assert(occurs_in(described_line(self.infos()[i], buffer_text(nd.buffer_type), nd.start), self.tree_drawing()));
        }
    }

    /// The drawing holds the line that the metadata of the live slot `x` describes.
    proof fn lemma_node_described(&self, x: usize)
        requires
            self.wf(),
            live(self.red_black_tree.shape@, x),
        ensures
            occurs_in(described_line(info_of(self.nodes@, x), buffer_text(self.nodes@[x as int].buffer_type),
                self.nodes@[x as int].start), self.tree_drawing()),
    {
        self.lemma_wf_facts();
        let g = self.red_black_tree.shape@;
        let root = self.red_black_tree.root_node;
        let ns = self.nodes@;
        assert(node_struct_ok(ns, root, g, root));
        assert(node_struct_ok(ns, root, g, x));
        lemma_drawing_has_line(ns, root, g, root, 0, "ROOT"@, x);
        lemma_described(ns, x);
    }

    /// A drawing of the tree: a header line, then one line per node (NIL children
    /// included), each subtree indented one level under its parent, left before right.
    pub fn debug_dump(&self) -> (r: String)
        requires
            self.wf(),
        ensures
            r@ == "Tree [root="@ + decimal(self.root_slot()) + ", black_height="@ + decimal(self.recorded_black_height())
                + ", nodes_len="@ + decimal(self.slots()) + ", doc_len="@ + decimal(self@.len()) + "]:\n"@ + self.tree_drawing(),
            newlines(r@) == 2 * self.pieces() + 2,
            r@.last() == '\n',
    {
        proof {
            self.lemma_wf_unfold();
            self.lemma_wf_facts();
            self.lemma_drawing_lines();
            lemma_header_newlines(self.root_slot(), self.recorded_black_height(), self.slots(), self@.len(), self.tree_drawing());
        }
        let root = self.red_black_tree.root_node;
        let mut s = with_num("Tree [root=", root);
        push_num(&mut s, ", black_height=", self.red_black_tree.black_height);
        push_num(&mut s, ", nodes_len=", self.nodes.len());
        let doc_len = if root != 0 && root < self.nodes.len() {
            self.nodes[root].subtree_length
        } else {
            0
        };
        push_num(&mut s, ", doc_len=", doc_len);
        s.append("]:\n");
        self.dump_node(root, 0, &mut s, "ROOT");
        proof {
            assert(s@ =~= "Tree [root="@ + decimal(self.root_slot()) + ", black_height="@ + decimal(self.recorded_black_height())
                + ", nodes_len="@ + decimal(self.slots()) + ", doc_len="@ + decimal(self@.len()) + "]:\n"@ + self.tree_drawing());
        }
        s
    }

    /// Appends the line that describes the slot `idx` holding `node`.
    fn push_node_line(&self, out: &mut String, node: Node, idx: usize, prefix: &str, color_text: &str, buf_name: &str)
        requires
            color_text@ == crate::report::color_text(node.color),
            buf_name@ == buffer_text(node.buffer_type),
            node.start + node.length <= usize::MAX,
        ensures
            final(out)@ == old(out)@ + node_line(node, idx, prefix@),
    {
        let ghost before_line = out@;
        push_line_head(out, node, idx, prefix, color_text, buf_name);
        push_line_tail(out, node);
        proof {
            assert(out@ =~= before_line + node_line(node, idx, prefix@));
        }
    }

    #[verifier::spinoff_prover]
    #[verifier::rlimit(40)]
    fn dump_node(&self, idx: usize, indent: usize, out: &mut String, prefix: &str)
        requires
            struct_ok(self.nodes@, self.red_black_tree.root_node, self.red_black_tree.shape@),
            pieces_in_bounds(self.nodes@, self.red_black_tree.shape@, self.original@.len(), self.add@.len()),
            idx == 0 || live(self.red_black_tree.shape@, idx),
            idx != 0 ==> indent + (self.red_black_tree.shape@.hi[idx] - self.red_black_tree.shape@.lo[idx]) <= usize::MAX,
        ensures
            final(out)@ == old(out)@ + drawing(self.nodes@, self.red_black_tree.root_node, self.red_black_tree.shape@, idx,
                indent as nat, prefix@),
        decreases (if idx == 0 { 0 } else { self.red_black_tree.shape@.hi[idx] - self.red_black_tree.shape@.lo[idx] }),
    {
        let ghost ns = self.nodes@;
        let ghost g = self.red_black_tree.shape@;
        let ghost root = self.red_black_tree.root_node;
        let ghost start = out@;
        let mut k: usize = 0;
        while k < indent
            invariant
                k <= indent,
                out@ == start + indentation(k as nat),
            decreases indent - k,
        {
            out.append("  ");
            k = k + 1;
        }
        if idx == 0 {
            out.append(prefix);
            out.append(" NIL (0)\n");
            proof {
                assert(out@ =~= start + drawing(ns, root, g, idx, indent as nat, prefix@));
            }
            return;
        }
        if idx >= self.nodes.len() {
            out.append(prefix);
            push_num(out, " INVALID_IDX (", idx);
            out.append(")\n");
            proof {
                assert(g.pos.dom().contains(idx));
            }
            return;
        }
        proof {
            assert(node_struct_ok(ns, root, g, idx));
            assert(g.ord[g.pos[idx]] == idx);
            assert(piece_in_bounds(ns[g.ord[g.pos[idx]] as int], self.original@.len(), self.add@.len()));
            assert(self.original@.len() == self.original.len());
            assert(self.add@.len() == self.add.len());
            let l = ns[idx as int].left;
            let r = ns[idx as int].right;
            if l != 0 {
                assert(node_struct_ok(ns, root, g, l));
            }
            if r != 0 {
                assert(node_struct_ok(ns, root, g, r));
            }
        }
        let node = self.nodes[idx];
        let color_text = match node.color {
            Color::Red => "RED",
            Color::Black => "BLACK",
        };
        let buf_name = match node.buffer_type {
            BufferType::Original => "Orig",
            BufferType::Add => "Add",
        };
        self.push_node_line(out, node, idx, prefix, color_text, buf_name);
        let ghost after_line = out@;
        self.dump_node(node.left, indent + 1, out, "L--");
        self.dump_node(node.right, indent + 1, out, "R--");
        proof {
            assert(out@ =~= start + drawing(ns, root, g, idx, indent as nat, prefix@));
        }
    }
}

} // verus!
