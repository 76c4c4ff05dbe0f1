use vstd::prelude::*;
use vstd::string::StringExecFns;
use crate::node::{Node, Color, BufferType};
use crate::shape::{Shape, live, node_struct_ok, struct_ok};

verus! {

/// The character of the decimal digit `d`.
pub open spec fn digit_char(d: nat) -> char {
    if d == 0 {
        '0'
    } else if d == 1 {
        '1'
    } else if d == 2 {
        '2'
    } else if d == 3 {
        '3'
    } else if d == 4 {
        '4'
    } else if d == 5 {
        '5'
    } else if d == 6 {
        '6'
    } else if d == 7 {
        '7'
    } else if d == 8 {
        '8'
    } else {
        '9'
    }
}

/// The decimal notation of `n`, without leading zeros.
pub open spec fn decimal(n: nat) -> Seq<char>
    decreases n,
{
    if n < 10 {
        seq![digit_char(n)]
    } else {
        decimal(n / 10) + seq![digit_char(n % 10)]
    }
}

fn digit_text(d: usize) -> (r: &'static str)
    requires
        d < 10,
    ensures
        r@ == seq![digit_char(d as nat)],
{
    if d == 0 {
        proof { reveal_strlit("0"); }
        "0"
    } else if d == 1 {
        proof { reveal_strlit("1"); }
        "1"
    } else if d == 2 {
        proof { reveal_strlit("2"); }
        "2"
    } else if d == 3 {
        proof { reveal_strlit("3"); }
        "3"
    } else if d == 4 {
        proof { reveal_strlit("4"); }
        "4"
    } else if d == 5 {
        proof { reveal_strlit("5"); }
        "5"
    } else if d == 6 {
        proof { reveal_strlit("6"); }
        "6"
    } else if d == 7 {
        proof { reveal_strlit("7"); }
        "7"
    } else if d == 8 {
        proof { reveal_strlit("8"); }
        "8"
    } else {
        proof { reveal_strlit("9"); }
        "9"
    }
}

/// Appends the decimal notation of `n`.
pub fn push_decimal(out: &mut String, n: usize)
    ensures
        final(out)@ == old(out)@ + decimal(n as nat),
    decreases n,
{
    if n >= 10 {
        push_decimal(out, n / 10);
    }
    out.append(digit_text(n % 10));
    proof {
        if n < 10 {
            assert(n % 10 == n);
        }
    }
}

/// `text` followed by the decimal notation of `n`.
pub fn with_num(text: &str, n: usize) -> (r: String)
    ensures
        r@ == text@ + decimal(n as nat),
{
    let mut out = String::from_str(text);
    push_decimal(&mut out, n);
    out
}

/// Appends `text` and then the decimal notation of `n`.
pub fn push_num(out: &mut String, text: &str, n: usize)
    ensures
        final(out)@ == old(out)@ + text@ + decimal(n as nat),
{
    out.append(text);
    push_decimal(out, n);
}

/// `k` levels of indentation, two spaces each.
pub open spec fn indentation(k: nat) -> Seq<char>
    decreases k,
{
    if k == 0 {
        Seq::empty()
    } else {
        indentation((k - 1) as nat) + "  "@
    }
}

pub open spec fn color_text(c: Color) -> Seq<char> {
    if c == Color::Red {
        "RED"@
    } else {
        "BLACK"@
    }
}

pub open spec fn buffer_text(b: BufferType) -> Seq<char> {
    if b == BufferType::Original {
        "Orig"@
    } else {
        "Add"@
    }
}

/// The first part of the line that describes slot `n`: its colour and buffer.
pub open spec fn line_head(nd: Node, n: usize, prefix: Seq<char>) -> Seq<char> {
    prefix + " ["@ + color_text(nd.color) + "] Node#"@ + decimal(n as nat) + ": color="@ + color_text(nd.color)
        + ", buf="@ + buffer_text(nd.buffer_type)
}

/// The rest of the line that describes a slot holding `nd`: its range and cached lengths.
pub open spec fn line_tail(nd: Node) -> Seq<char> {
    "["@ + decimal(nd.start as nat) + ".."@ + decimal((nd.start + nd.length) as nat) + "], len="@ + decimal(
        nd.length as nat,
    ) + ", sub_len="@ + decimal(nd.subtree_length as nat) + ", left_sub_len="@ + decimal(nd.left_subtree_length as nat)
        + ", parent="@ + decimal(nd.parent as nat) + "\n"@
}

/// The line that describes the slot `n` holding `nd`.
pub open spec fn node_line(nd: Node, n: usize, prefix: Seq<char>) -> Seq<char> {
    line_head(nd, n, prefix) + line_tail(nd)
}

/// The drawing of the subtree under `n`: its line, then its left and its right subtree one
/// level deeper; NIL children show as a line of their own.
pub open spec fn drawing(nodes: Seq<Node>, root: usize, g: Shape, n: usize, indent: nat, prefix: Seq<char>) -> Seq<char>
    decreases (if n == 0 { 0 } else { g.hi[n] - g.lo[n] }),
    when struct_ok(nodes, root, g) && (n == 0 || live(g, n))
    via drawing_decreases
{
    if n == 0 {
        indentation(indent) + prefix + " NIL (0)\n"@
    } else {
        indentation(indent) + node_line(nodes[n as int], n, prefix) + drawing(
            nodes,
            root,
            g,
            nodes[n as int].left,
            indent + 1,
            "L--"@,
        ) + drawing(nodes, root, g, nodes[n as int].right, indent + 1, "R--"@)
    }
}

#[via_fn]
proof fn drawing_decreases(nodes: Seq<Node>, root: usize, g: Shape, n: usize, indent: nat, prefix: Seq<char>) {
    if n != 0 {
        assert(node_struct_ok(nodes, root, g, n));
        let l = nodes[n as int].left;
        let r = nodes[n as int].right;
        if l != 0 {
            assert(node_struct_ok(nodes, root, g, l));
        }
        if r != 0 {
            assert(node_struct_ok(nodes, root, g, r));
        }
    }
}

/// Number of line breaks in `s`.
pub open spec fn newlines(s: Seq<char>) -> nat
    decreases s.len(),
{
    if s.len() == 0 {
        0
    } else {
        newlines(s.drop_last()) + (if s.last() == '\n' { 1nat } else { 0nat })
    }
}

/// Line breaks add up over a concatenation.
pub proof fn lemma_newlines_concat(a: Seq<char>, b: Seq<char>)
    ensures
        newlines(a + b) == newlines(a) + newlines(b),
    decreases b.len(),
{
    if b.len() > 0 {
        lemma_newlines_concat(a, b.drop_last());
        assert((a + b).drop_last() =~= a + b.drop_last());
    } else {
        assert(a + b =~= a);
    }
}

/// A text without a line-break character has no line breaks.
pub proof fn lemma_newlines_none(s: Seq<char>)
    requires
        forall|i: int| 0 <= i < s.len() ==> s[i] != '\n',
    ensures
        newlines(s) == 0,
    decreases s.len(),
{
    if s.len() > 0 {
        lemma_newlines_none(s.drop_last());
    }
}

/// Decimal notation has no line breaks.
pub proof fn lemma_decimal_newlines(n: nat)
    ensures
        newlines(decimal(n)) == 0,
    decreases n,
{
    if n >= 10 {
        lemma_decimal_newlines(n / 10);
        lemma_newlines_concat(decimal(n / 10), seq![digit_char(n % 10)]);
    }
    lemma_newlines_none(seq![digit_char(n % 10)]);
    lemma_newlines_none(seq![digit_char(n)]);
}

/// Indentation has no line breaks.
proof fn lemma_indentation_newlines(k: nat)
    ensures
        newlines(indentation(k)) == 0,
    decreases k,
{
    if k > 0 {
        lemma_indentation_newlines((k - 1) as nat);
        reveal_strlit("  ");
        lemma_newlines_none("  "@);
        lemma_newlines_concat(indentation((k - 1) as nat), "  "@);
    }
}

/// The line of one node holds exactly one line break, at its end.
proof fn lemma_node_line_newlines(nd: Node, n: usize, prefix: Seq<char>)
    requires
        newlines(prefix) == 0,
    ensures
        newlines(node_line(nd, n, prefix)) == 1,
        node_line(nd, n, prefix).len() > 0,
        node_line(nd, n, prefix).last() == '\n',
{
    reveal_strlit(" [");
    reveal_strlit("] Node#");
    reveal_strlit(": color=");
    reveal_strlit(", buf=");
    reveal_strlit("RED");
    reveal_strlit("BLACK");
    reveal_strlit("Orig");
    reveal_strlit("Add");
    reveal_strlit("[");
    reveal_strlit("..");
    reveal_strlit("], len=");
    reveal_strlit(", sub_len=");
    reveal_strlit(", left_sub_len=");
    reveal_strlit(", parent=");
    reveal_strlit("\n");
    lemma_newlines_none(" ["@);
    lemma_newlines_none("] Node#"@);
    lemma_newlines_none(": color="@);
    lemma_newlines_none(", buf="@);
    lemma_newlines_none(color_text(nd.color));
    lemma_newlines_none(buffer_text(nd.buffer_type));
    lemma_newlines_none("["@);
    lemma_newlines_none(".."@);
    lemma_newlines_none("], len="@);
    lemma_newlines_none(", sub_len="@);
    lemma_newlines_none(", left_sub_len="@);
    lemma_newlines_none(", parent="@);
    assert(newlines("\n"@) == 1) by {
        reveal_strlit("\n");
        assert("\n"@ =~= seq!['\n']);
        assert(seq!['\n'].drop_last() =~= Seq::<char>::empty());
        assert(newlines(Seq::<char>::empty()) == 0);
    }
    lemma_decimal_newlines(n as nat);
    lemma_decimal_newlines(nd.start as nat);
    lemma_decimal_newlines((nd.start + nd.length) as nat);
    lemma_decimal_newlines(nd.length as nat);
    lemma_decimal_newlines(nd.subtree_length as nat);
    lemma_decimal_newlines(nd.left_subtree_length as nat);
    lemma_decimal_newlines(nd.parent as nat);
    let c = color_text(nd.color);
    let h1 = prefix + " ["@;
    lemma_newlines_concat(prefix, " ["@);
    let h2 = h1 + c;
    lemma_newlines_concat(h1, c);
    let h3 = h2 + "] Node#"@;
    lemma_newlines_concat(h2, "] Node#"@);
    let h4 = h3 + decimal(n as nat);
    lemma_newlines_concat(h3, decimal(n as nat));
    let h5 = h4 + ": color="@;
    lemma_newlines_concat(h4, ": color="@);
    let h6 = h5 + c;
    lemma_newlines_concat(h5, c);
    let h7 = h6 + ", buf="@;
    lemma_newlines_concat(h6, ", buf="@);
    let h8 = h7 + buffer_text(nd.buffer_type);
    lemma_newlines_concat(h7, buffer_text(nd.buffer_type));
    assert(h8 == line_head(nd, n, prefix));
    let t1 = "["@ + decimal(nd.start as nat);
    lemma_newlines_concat("["@, decimal(nd.start as nat));
    let t2 = t1 + ".."@;
    lemma_newlines_concat(t1, ".."@);
    let t3 = t2 + decimal((nd.start + nd.length) as nat);
    lemma_newlines_concat(t2, decimal((nd.start + nd.length) as nat));
    let t4 = t3 + "], len="@;
    lemma_newlines_concat(t3, "], len="@);
    let t5 = t4 + decimal(nd.length as nat);
    lemma_newlines_concat(t4, decimal(nd.length as nat));
    let t6 = t5 + ", sub_len="@;
    lemma_newlines_concat(t5, ", sub_len="@);
    let t7 = t6 + decimal(nd.subtree_length as nat);
    lemma_newlines_concat(t6, decimal(nd.subtree_length as nat));
    let t8 = t7 + ", left_sub_len="@;
    lemma_newlines_concat(t7, ", left_sub_len="@);
    let t9 = t8 + decimal(nd.left_subtree_length as nat);
    lemma_newlines_concat(t8, decimal(nd.left_subtree_length as nat));
    let t10 = t9 + ", parent="@;
    lemma_newlines_concat(t9, ", parent="@);
    let t11 = t10 + decimal(nd.parent as nat);
    lemma_newlines_concat(t10, decimal(nd.parent as nat));
    let t12 = t11 + "\n"@;
    lemma_newlines_concat(t11, "\n"@);
    assert(t12 == line_tail(nd));
    lemma_newlines_concat(h8, t12);
}

/// The drawing of a subtree of `k` nodes has `2k + 1` lines (one per node and one per NIL
/// child), the last of them ending the text.
pub proof fn lemma_drawing_newlines(nodes: Seq<Node>, root: usize, g: Shape, n: usize, indent: nat, prefix: Seq<char>)
    requires
        struct_ok(nodes, root, g),
        n == 0 || live(g, n),
        newlines(prefix) == 0,
    ensures
        newlines(drawing(nodes, root, g, n, indent, prefix)) == 2 * (if n == 0 { 0 } else { g.hi[n] - g.lo[n] }) + 1,
        drawing(nodes, root, g, n, indent, prefix).len() > 0,
        drawing(nodes, root, g, n, indent, prefix).last() == '\n',
    decreases (if n == 0 { 0 } else { g.hi[n] - g.lo[n] }),
{
    lemma_indentation_newlines(indent);
    if n == 0 {
        reveal_strlit(" NIL (0)\n");
        let tail = " NIL (0)\n"@;
        assert(newlines(tail) == 1) by {
            lemma_newlines_none(tail.drop_last());
        }
        lemma_newlines_concat(indentation(indent), prefix);
        lemma_newlines_concat(indentation(indent) + prefix, tail);
    } else {
        assert(node_struct_ok(nodes, root, g, n));
        let l = nodes[n as int].left;
        let r = nodes[n as int].right;
        if l != 0 {
            assert(node_struct_ok(nodes, root, g, l));
        }
        if r != 0 {
            assert(node_struct_ok(nodes, root, g, r));
        }
        reveal_strlit("L--");
        reveal_strlit("R--");
        lemma_newlines_none("L--"@);
        lemma_newlines_none("R--"@);
        lemma_drawing_newlines(nodes, root, g, l, indent + 1, "L--"@);
        lemma_drawing_newlines(nodes, root, g, r, indent + 1, "R--"@);
        lemma_node_line_newlines(nodes[n as int], n, prefix);
        let a = indentation(indent);
        let b = node_line(nodes[n as int], n, prefix);
        let c = drawing(nodes, root, g, l, indent + 1, "L--"@);
        let d = drawing(nodes, root, g, r, indent + 1, "R--"@);
        lemma_newlines_concat(a, b);
        lemma_newlines_concat(a + b, c);
        lemma_newlines_concat(a + b + c, d);
        assert(drawing(nodes, root, g, n, indent, prefix) == a + b + c + d);
        assert((a + b + c + d).last() == d.last());
    }
}

/// `x` occurs in `t` as a contiguous piece of text.
pub open spec fn occurs_in(x: Seq<char>, t: Seq<char>) -> bool {
    exists|a: int| 0 <= a && a + x.len() <= t.len() && #[trigger] t.subrange(a, a + x.len()) == x
}

/// What occurs in a text occurs in any text that holds it.
pub proof fn lemma_occurs_grow(x: Seq<char>, a: Seq<char>, t: Seq<char>, b: Seq<char>)
    requires
        occurs_in(x, t),
    ensures
        occurs_in(x, a + t + b),
{
    let i = choose|i: int| 0 <= i && i + x.len() <= t.len() && #[trigger] t.subrange(i, i + x.len()) == x;
    let u = a + t + b;
    let j = a.len() + i;
    assert(u.subrange(j, j + x.len()) =~= t.subrange(i, i + x.len()));
}

/// The line of a slot from its number on: everything after the prefix and the first
/// colour tag.
pub open spec fn line_from_number(nd: Node, n: usize) -> Seq<char> {
    "] Node#"@ + decimal(n as nat) + ": color="@ + color_text(nd.color) + ", buf="@ + buffer_text(nd.buffer_type)
        + line_tail(nd)
}

/// The line of a slot ends with its part from the slot number on.
proof fn lemma_line_has_number(nd: Node, n: usize, prefix: Seq<char>)
    ensures
        occurs_in(line_from_number(nd, n), node_line(nd, n, prefix)),
{
    let x = line_from_number(nd, n);
    let h = prefix + " ["@ + color_text(nd.color);
    assert(node_line(nd, n, prefix) =~= h + x);
    assert((h + x).subrange(h.len() as int, (h.len() + x.len()) as int) =~= x);
}

/// Every node of a subtree has its line in the drawing of that subtree.
pub proof fn lemma_drawing_has_line(nodes: Seq<Node>, root: usize, g: Shape, n: usize, indent: nat, prefix: Seq<char>, m: usize)
    requires
        struct_ok(nodes, root, g),
        live(g, n),
        live(g, m),
        g.lo[n] <= g.pos[m] < g.hi[n],
    ensures
        occurs_in(line_from_number(nodes[m as int], m), drawing(nodes, root, g, n, indent, prefix)),
    decreases g.hi[n] - g.lo[n],
{
    assert(node_struct_ok(nodes, root, g, n));
    let l = nodes[n as int].left;
    let r = nodes[n as int].right;
    if l != 0 {
        assert(node_struct_ok(nodes, root, g, l));
    }
    if r != 0 {
        assert(node_struct_ok(nodes, root, g, r));
    }
    let a = indentation(indent);
    let b = node_line(nodes[n as int], n, prefix);
    let c = drawing(nodes, root, g, l, indent + 1, "L--"@);
    let d = drawing(nodes, root, g, r, indent + 1, "R--"@);
    assert(drawing(nodes, root, g, n, indent, prefix) == a + b + c + d);
    if m == n {
        let x = line_from_number(nodes[n as int], n);
        lemma_line_has_number(nodes[n as int], n, prefix);
        lemma_occurs_grow(x, a, b, c + d);
        assert(a + b + (c + d) =~= a + b + c + d);
    } else {
        assert(g.ord[g.pos[n]] == n);
        assert(g.ord[g.pos[m]] == m);
        let x = line_from_number(nodes[m as int], m);
        if g.pos[m] < g.pos[n] {
            lemma_drawing_has_line(nodes, root, g, l, indent + 1, "L--"@, m);
            lemma_occurs_grow(x, a + b, c, d);
        } else {
            lemma_drawing_has_line(nodes, root, g, r, indent + 1, "R--"@, m);
            lemma_occurs_grow(x, a + b + c, d, Seq::empty());
            assert(a + b + c + d + Seq::<char>::empty() =~= a + b + c + d);
        }
    }
}

} // verus!
