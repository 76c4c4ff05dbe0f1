use vstd::prelude::*;
use crate::node::{Node, Color, NodeInfo};
use crate::shape::{Shape, live, bhv, is_black, node_struct_ok, struct_ok, sum_len, bh_node_ok, red_node_ok,
    lemma_sum_split, lemma_sum_one};
use vstd::arithmetic::power2::{pow2, lemma_pow2_unfold};

verus! {

/// The slots of the subtree under `n` in the order a stack walk takes them: the slot
/// itself, then its right subtree, then its left subtree.
pub open spec fn walk(nodes: Seq<Node>, root: usize, g: Shape, n: usize) -> Seq<usize>
    decreases (if n == 0 { 0 } else { g.hi[n] - g.lo[n] }),
    when struct_ok(nodes, root, g) && (n == 0 || live(g, n))
    via walk_decreases
{
    if n == 0 {
        Seq::empty()
    } else {
        seq![n] + walk(nodes, root, g, nodes[n as int].right) + walk(nodes, root, g, nodes[n as int].left)
    }
}

#[via_fn]
proof fn walk_decreases(nodes: Seq<Node>, root: usize, g: Shape, n: usize) {
    if n != 0 {
        assert(node_struct_ok(nodes, root, g, n));
        let l = nodes[n as int].left;
        let r = nodes[n as int].right;
        if l != 0 {
            assert(node_struct_ok(nodes, root, g, l));
        }
        if r != 0 {
            assert(node_struct_ok(nodes, root, g, r));
        }
    }
}

/// The slots of the subtree under `n` in preorder: the slot itself, then its left
/// subtree, then its right subtree.
pub open spec fn preorder(nodes: Seq<Node>, root: usize, g: Shape, n: usize) -> Seq<usize>
    decreases (if n == 0 { 0 } else { g.hi[n] - g.lo[n] }),
    when struct_ok(nodes, root, g) && (n == 0 || live(g, n))
    via preorder_decreases
{
    if n == 0 {
        Seq::empty()
    } else {
        seq![n] + preorder(nodes, root, g, nodes[n as int].left) + preorder(nodes, root, g, nodes[n as int].right)
    }
}

#[via_fn]
proof fn preorder_decreases(nodes: Seq<Node>, root: usize, g: Shape, n: usize) {
    if n != 0 {
        assert(node_struct_ok(nodes, root, g, n));
        let l = nodes[n as int].left;
        let r = nodes[n as int].right;
        if l != 0 {
            assert(node_struct_ok(nodes, root, g, l));
        }
        if r != 0 {
            assert(node_struct_ok(nodes, root, g, r));
        }
    }
}

/// Number of slots on the longest path from `n` down to NIL.
pub open spec fn height(nodes: Seq<Node>, root: usize, g: Shape, n: usize) -> nat
    decreases (if n == 0 { 0 } else { g.hi[n] - g.lo[n] }),
    when struct_ok(nodes, root, g) && (n == 0 || live(g, n))
    via height_decreases
{
    if n == 0 {
        0
    } else {
        let hl = height(nodes, root, g, nodes[n as int].left);
        let hr = height(nodes, root, g, nodes[n as int].right);
        1 + if hl >= hr { hl } else { hr }
    }
}

#[via_fn]
proof fn height_decreases(nodes: Seq<Node>, root: usize, g: Shape, n: usize) {
    if n != 0 {
        assert(node_struct_ok(nodes, root, g, n));
        let l = nodes[n as int].left;
        let r = nodes[n as int].right;
        if l != 0 {
            assert(node_struct_ok(nodes, root, g, l));
        }
        if r != 0 {
            assert(node_struct_ok(nodes, root, g, r));
        }
    }
}

/// The walks of the subtrees on a stack, the top of the stack (its last entry) first.
pub open spec fn stack_walk(nodes: Seq<Node>, root: usize, g: Shape, st: Seq<usize>) -> Seq<usize>
    decreases st.len(),
{
    if st.len() == 0 {
        Seq::empty()
    } else {
        walk(nodes, root, g, st.last()) + stack_walk(nodes, root, g, st.drop_last())
    }
}

/// Sum of the piece lengths of the listed slots.
pub open spec fn lengths_of(nodes: Seq<Node>, s: Seq<usize>) -> int
    decreases s.len(),
{
    if s.len() == 0 {
        0
    } else {
        lengths_of(nodes, s.drop_last()) + nodes[s.last() as int].length
    }
}

/// The metadata snapshot of slot `n`.
pub open spec fn info_of(nodes: Seq<Node>, n: usize) -> NodeInfo {
    NodeInfo {
        index: n,
        length: nodes[n as int].length,
        subtree_length: nodes[n as int].subtree_length,
        left_subtree_length: nodes[n as int].left_subtree_length,
        left: nodes[n as int].left,
        right: nodes[n as int].right,
        parent: nodes[n as int].parent,
        is_red: nodes[n as int].color == Color::Red,
    }
}

pub proof fn lemma_lengths_concat(nodes: Seq<Node>, a: Seq<usize>, b: Seq<usize>)
    ensures
        lengths_of(nodes, a + b) == lengths_of(nodes, a) + lengths_of(nodes, b),
    decreases b.len(),
{
    if b.len() == 0 {
        assert(a + b =~= a);
    } else {
        lemma_lengths_concat(nodes, a, b.drop_last());
        assert((a + b).drop_last() =~= a + b.drop_last());
    }
}

/// The walk of a subtree lists each of its slots once: as many as its interval holds,
/// with the same total length.
pub proof fn lemma_walk_facts(nodes: Seq<Node>, root: usize, g: Shape, n: usize)
    requires
        struct_ok(nodes, root, g),
        n == 0 || live(g, n),
    ensures
        walk(nodes, root, g, n).len() == (if n == 0 { 0 } else { g.hi[n] - g.lo[n] }),
        lengths_of(nodes, walk(nodes, root, g, n)) == (if n == 0 { 0 } else { sum_len(nodes, g.ord, g.lo[n], g.hi[n]) }),
        forall|i: int| 0 <= i < walk(nodes, root, g, n).len() ==> live(g, #[trigger] walk(nodes, root, g, n)[i]),
    decreases (if n == 0 { 0 } else { g.hi[n] - g.lo[n] }),
{
    if n != 0 {
        assert(node_struct_ok(nodes, root, g, n));
        let l = nodes[n as int].left;
        let r = nodes[n as int].right;
        if l != 0 {
            assert(node_struct_ok(nodes, root, g, l));
        }
        if r != 0 {
            assert(node_struct_ok(nodes, root, g, r));
        }
        lemma_walk_facts(nodes, root, g, l);
        lemma_walk_facts(nodes, root, g, r);
        let wl = walk(nodes, root, g, l);
        let wr = walk(nodes, root, g, r);
        let p = g.pos[n];
        assert(walk(nodes, root, g, n) == seq![n] + wr + wl);
        lemma_lengths_concat(nodes, seq![n], wr);
        lemma_lengths_concat(nodes, seq![n] + wr, wl);
        assert(lengths_of(nodes, seq![n]) == nodes[n as int].length) by {
            let s1 = seq![n];
            assert(s1.drop_last() =~= Seq::<usize>::empty());
            assert(lengths_of(nodes, Seq::<usize>::empty()) == 0);
            assert(s1.last() == n);
        }
        lemma_sum_split(nodes, g.ord, g.lo[n], p, g.hi[n]);
        lemma_sum_split(nodes, g.ord, p, p + 1, g.hi[n]);
        lemma_sum_one(nodes, g.ord, p);
        assert(g.ord[p] == n);
        if l == 0 {
            assert(sum_len(nodes, g.ord, g.lo[n], p) == 0);
        }
        if r == 0 {
            assert(sum_len(nodes, g.ord, p + 1, g.hi[n]) == 0);
        }
        assert forall|i: int| 0 <= i < walk(nodes, root, g, n).len() implies live(g, #[trigger] walk(nodes, root, g, n)[i]) by {
            if i > 0 && i < 1 + wr.len() {
                assert(walk(nodes, root, g, n)[i] == wr[i - 1]);
            } else if i >= 1 + wr.len() {
                assert(walk(nodes, root, g, n)[i] == wl[i - 1 - wr.len()]);
            }
        }
    }
}

proof fn lemma_stack_push(nodes: Seq<Node>, root: usize, g: Shape, rest: Seq<usize>, x: usize)
    ensures
        stack_walk(nodes, root, g, rest.push(x)) == walk(nodes, root, g, x) + stack_walk(nodes, root, g, rest),
{
    assert(rest.push(x).drop_last() =~= rest);
}

/// One step of a stack walk: popping `x` and pushing its left, then its right child.
proof fn lemma_stack_step(nodes: Seq<Node>, root: usize, g: Shape, rest: Seq<usize>, x: usize)
    requires
        struct_ok(nodes, root, g),
        live(g, x),
    ensures
        stack_walk(nodes, root, g, rest.push(x)) == seq![x] + stack_walk(nodes, root, g,
            rest.push(nodes[x as int].left).push(nodes[x as int].right)),
        nodes[x as int].left == 0 || live(g, nodes[x as int].left),
        nodes[x as int].right == 0 || live(g, nodes[x as int].right),
{
    assert(node_struct_ok(nodes, root, g, x));
    let l = nodes[x as int].left;
    let r = nodes[x as int].right;
    lemma_stack_push(nodes, root, g, rest, x);
    lemma_stack_push(nodes, root, g, rest, l);
    lemma_stack_push(nodes, root, g, rest.push(l), r);
    assert(walk(nodes, root, g, x) == seq![x] + walk(nodes, root, g, r) + walk(nodes, root, g, l));
    assert(stack_walk(nodes, root, g, rest.push(x)) =~= seq![x] + stack_walk(nodes, root, g, rest.push(l).push(r)));
}

/// The height of a subtree is at most the number of its slots.
pub proof fn lemma_height_bound(nodes: Seq<Node>, root: usize, g: Shape, n: usize)
    requires
        struct_ok(nodes, root, g),
        n == 0 || live(g, n),
    ensures
        height(nodes, root, g, n) <= (if n == 0 { 0 } else { g.hi[n] - g.lo[n] }),
    decreases (if n == 0 { 0 } else { g.hi[n] - g.lo[n] }),
{
    if n != 0 {
        assert(node_struct_ok(nodes, root, g, n));
        let l = nodes[n as int].left;
        let r = nodes[n as int].right;
        if l != 0 {
            assert(node_struct_ok(nodes, root, g, l));
        }
        if r != 0 {
            assert(node_struct_ok(nodes, root, g, r));
        }
        lemma_height_bound(nodes, root, g, l);
        lemma_height_bound(nodes, root, g, r);
    }
}

/// The slots reachable from `root`, taken with an explicit stack: each slot, then its
/// right subtree, then its left subtree.
pub(crate) fn walk_infos(nodes: &Vec<Node>, root: usize, Ghost(g): Ghost<Shape>) -> (r: Vec<NodeInfo>)
    requires
        struct_ok(nodes@, root, g),
        root == 0 || live(g, root),
    ensures
        r@ == walk(nodes@, root, g, root).map_values(|n: usize| info_of(nodes@, n)),
{
    let mut result: Vec<NodeInfo> = Vec::new();
    let mut stack: Vec<usize> = vec![root];
    let ghost mut done: Seq<usize> = Seq::empty();
    proof {
        lemma_stack_push(nodes@, root, g, Seq::empty(), root);
        assert(stack@ =~= Seq::<usize>::empty().push(root));
        assert(stack_walk(nodes@, root, g, Seq::empty()) =~= Seq::<usize>::empty());
        assert(done + stack_walk(nodes@, root, g, stack@) =~= walk(nodes@, root, g, root));
    }
    while stack.len() > 0
        invariant
            struct_ok(nodes@, root, g),
            forall|i: int| 0 <= i < stack@.len() ==> #[trigger] stack@[i] == 0 || live(g, stack@[i]),
            done + stack_walk(nodes@, root, g, stack@) == walk(nodes@, root, g, root),
            result@ == done.map_values(|n: usize| info_of(nodes@, n)),
        decreases 2 * stack_walk(nodes@, root, g, stack@).len() + stack@.len(),
    {
        let ghost st = stack@;
        let idx = stack.pop().unwrap();
        proof {
            assert(st == stack@.push(idx));
            assert(idx == 0 || live(g, idx));
        }
        if idx != 0 && idx < nodes.len() {
            let n = nodes[idx];
            result.push(NodeInfo {
                index: idx,
                length: n.length,
                subtree_length: n.subtree_length,
                left_subtree_length: n.left_subtree_length,
                left: n.left,
                right: n.right,
                parent: n.parent,
                is_red: n.color == Color::Red,
            });
            let ghost rest = stack@;
            stack.push(n.left);
            stack.push(n.right);
            proof {
                lemma_stack_step(nodes@, root, g, rest, idx);
                done = done.push(idx);
                assert(result@ =~= done.map_values(|n: usize| info_of(nodes@, n)));
                assert(stack@ == rest.push(n.left).push(n.right));
            }
        } else {
            proof {
                lemma_stack_push(nodes@, root, g, stack@, idx);
                if idx != 0 {
                    assert(nodes@.len() > idx) by {
                        assert(g.pos.dom().contains(idx));
                    }
                }
                assert(walk(nodes@, root, g, idx) =~= Seq::<usize>::empty());
            }
        }
    }
    proof {
        assert(stack_walk(nodes@, root, g, stack@) =~= Seq::<usize>::empty());
        assert(done =~= walk(nodes@, root, g, root));
    }
    result
}

/// Number of slots in `walk`, counted the same way.
pub(crate) fn walk_count(nodes: &Vec<Node>, root: usize, Ghost(g): Ghost<Shape>) -> (r: usize)
    requires
        struct_ok(nodes@, root, g),
        root == 0 || live(g, root),
        g.ord.len() <= usize::MAX,
    ensures
        r == walk(nodes@, root, g, root).len(),
{
    let mut count: usize = 0;
    let mut stack: Vec<usize> = vec![root];
    let ghost mut done: Seq<usize> = Seq::empty();
    proof {
        lemma_stack_push(nodes@, root, g, Seq::empty(), root);
        assert(stack@ =~= Seq::<usize>::empty().push(root));
        assert(stack_walk(nodes@, root, g, Seq::empty()) =~= Seq::<usize>::empty());
        assert(done + stack_walk(nodes@, root, g, stack@) =~= walk(nodes@, root, g, root));
        lemma_walk_facts(nodes@, root, g, root);
        if root != 0 {
            assert(node_struct_ok(nodes@, root, g, root));
        }
    }
    while stack.len() > 0
        invariant
            struct_ok(nodes@, root, g),
            forall|i: int| 0 <= i < stack@.len() ==> #[trigger] stack@[i] == 0 || live(g, stack@[i]),
            done + stack_walk(nodes@, root, g, stack@) == walk(nodes@, root, g, root),
            walk(nodes@, root, g, root).len() <= usize::MAX,
            count == done.len(),
        decreases 2 * stack_walk(nodes@, root, g, stack@).len() + stack@.len(),
    {
        let ghost st = stack@;
        let idx = stack.pop().unwrap();
        proof {
            assert(st == stack@.push(idx));
            assert(idx == 0 || live(g, idx));
        }
        if idx != 0 && idx < nodes.len() {
            let ghost rest = stack@;
            proof {
                lemma_stack_step(nodes@, root, g, rest, idx);
            }
            count += 1;
            stack.push(nodes[idx].left);
            stack.push(nodes[idx].right);
            proof {
                done = done.push(idx);
                assert(done + stack_walk(nodes@, root, g, stack@) =~= walk(nodes@, root, g, root));
            }
        } else {
            proof {
                lemma_stack_push(nodes@, root, g, stack@, idx);
                if idx != 0 {
                    assert(g.pos.dom().contains(idx));
                }
                assert(walk(nodes@, root, g, idx) =~= Seq::<usize>::empty());
            }
        }
    }
    proof {
        assert(stack_walk(nodes@, root, g, stack@) =~= Seq::<usize>::empty());
        assert(done =~= walk(nodes@, root, g, root));
    }
    count
}

/// Total piece length over `walk`, summed the same way.
pub(crate) fn walk_length_sum(nodes: &Vec<Node>, root: usize, Ghost(g): Ghost<Shape>) -> (r: usize)
    requires
        struct_ok(nodes@, root, g),
        root == 0 || live(g, root),
        lengths_of(nodes@, walk(nodes@, root, g, root)) <= usize::MAX,
    ensures
        r == lengths_of(nodes@, walk(nodes@, root, g, root)),
{
    let mut total: usize = 0;
    let mut stack: Vec<usize> = vec![root];
    let ghost mut done: Seq<usize> = Seq::empty();
    proof {
        lemma_stack_push(nodes@, root, g, Seq::empty(), root);
        assert(stack@ =~= Seq::<usize>::empty().push(root));
        assert(stack_walk(nodes@, root, g, Seq::empty()) =~= Seq::<usize>::empty());
        assert(done + stack_walk(nodes@, root, g, stack@) =~= walk(nodes@, root, g, root));
    }
    while stack.len() > 0
        invariant
            struct_ok(nodes@, root, g),
            forall|i: int| 0 <= i < stack@.len() ==> #[trigger] stack@[i] == 0 || live(g, stack@[i]),
            done + stack_walk(nodes@, root, g, stack@) == walk(nodes@, root, g, root),
            lengths_of(nodes@, walk(nodes@, root, g, root)) <= usize::MAX,
            total == lengths_of(nodes@, done),
        decreases 2 * stack_walk(nodes@, root, g, stack@).len() + stack@.len(),
    {
        let ghost st = stack@;
        let idx = stack.pop().unwrap();
        proof {
            assert(st == stack@.push(idx));
            assert(idx == 0 || live(g, idx));
        }
        if idx != 0 && idx < nodes.len() {
            let ghost rest = stack@;
            proof {
                lemma_stack_step(nodes@, root, g, rest, idx);
                let after = stack_walk(nodes@, root, g, rest.push(nodes@[idx as int].left).push(nodes@[idx as int].right));
                assert(walk(nodes@, root, g, root) =~= done.push(idx) + after);
                lemma_lengths_concat(nodes@, done.push(idx), after);
                crate::shape::lemma_sum_nonneg(nodes@, g.ord, 0, 0);
                lemma_lengths_nonneg(nodes@, after);
                assert(done.push(idx).drop_last() =~= done);
            }
            total += nodes[idx].length;
            stack.push(nodes[idx].left);
            stack.push(nodes[idx].right);
            proof {
                done = done.push(idx);
            }
        } else {
            proof {
                lemma_stack_push(nodes@, root, g, stack@, idx);
                if idx != 0 {
                    assert(g.pos.dom().contains(idx));
                }
                assert(walk(nodes@, root, g, idx) =~= Seq::<usize>::empty());
            }
        }
    }
    proof {
        assert(stack_walk(nodes@, root, g, stack@) =~= Seq::<usize>::empty());
        assert(done =~= walk(nodes@, root, g, root));
    }
    total
}

pub proof fn lemma_lengths_nonneg(nodes: Seq<Node>, s: Seq<usize>)
    ensures
        lengths_of(nodes, s) >= 0,
    decreases s.len(),
{
    if s.len() > 0 {
        lemma_lengths_nonneg(nodes, s.drop_last());
    }
}

/// Height of the subtree under `idx`, by recursion.
pub(crate) fn depth(nodes: &Vec<Node>, idx: usize, Ghost(root): Ghost<usize>, Ghost(g): Ghost<Shape>) -> (r: usize)
    requires
        struct_ok(nodes@, root, g),
        idx == 0 || live(g, idx),
        g.ord.len() <= usize::MAX,
    ensures
        r == height(nodes@, root, g, idx),
    decreases (if idx == 0 { 0 } else { g.hi[idx] - g.lo[idx] }),
{
    if idx == 0 {
        0
    } else {
        proof {
            assert(node_struct_ok(nodes@, root, g, idx));
            lemma_height_bound(nodes@, root, g, idx);
            let l = nodes@[idx as int].left;
            let r = nodes@[idx as int].right;
            if l != 0 {
                assert(node_struct_ok(nodes@, root, g, l));
            }
            if r != 0 {
                assert(node_struct_ok(nodes@, root, g, r));
            }
        }
        let dl = depth(nodes, nodes[idx].left, Ghost(root), Ghost(g));
        let dr = depth(nodes, nodes[idx].right, Ghost(root), Ghost(g));
        1 + if dl >= dr { dl } else { dr }
    }
}

/// Red-black bounds on the subtree under `n`: its height lies between its black height and
/// twice that (plus one under a red top), and it holds at least `2^bh - 1` slots.
pub proof fn lemma_rb_bounds(nodes: Seq<Node>, root: usize, g: Shape, n: usize)
    requires
        struct_ok(nodes, root, g),
        forall|m: usize| live(g, m) ==> #[trigger] bh_node_ok(nodes, g, m),
        forall|m: usize| live(g, m) ==> #[trigger] red_node_ok(nodes, m),
        n == 0 || live(g, n),
    ensures
        bhv(g, n) <= height(nodes, root, g, n),
        height(nodes, root, g, n) <= 2 * bhv(g, n) + (if is_black(nodes, n) { 0int } else { 1int }),
        pow2(bhv(g, n)) <= (if n == 0 { 0 } else { g.hi[n] - g.lo[n] }) + 1,
    decreases (if n == 0 { 0 } else { g.hi[n] - g.lo[n] }),
{
    if n != 0 {
        assert(node_struct_ok(nodes, root, g, n));
        assert(bh_node_ok(nodes, g, n));
        assert(red_node_ok(nodes, n));
        let l = nodes[n as int].left;
        let r = nodes[n as int].right;
        if l != 0 {
            assert(node_struct_ok(nodes, root, g, l));
        }
        if r != 0 {
            assert(node_struct_ok(nodes, root, g, r));
        }
        lemma_rb_bounds(nodes, root, g, l);
        lemma_rb_bounds(nodes, root, g, r);
        if is_black(nodes, n) {
            lemma_pow2_unfold(g.bh[n]);
        }
    } else {
        vstd::arithmetic::power::lemma_pow0(2);
    }
}

/// The walk of the subtree under `n` lists exactly the slots of that subtree, each once.
pub proof fn lemma_walk_members(nodes: Seq<Node>, root: usize, g: Shape, n: usize)
    requires
        struct_ok(nodes, root, g),
        n == 0 || live(g, n),
    ensures
        forall|m: usize| #[trigger] walk(nodes, root, g, n).contains(m) <==> (n != 0 && live(g, m) && g.lo[n] <= g.pos[m] < g.hi[n]),
        walk(nodes, root, g, n).no_duplicates(),
    decreases (if n == 0 { 0 } else { g.hi[n] - g.lo[n] }),
{
    if n != 0 {
        assert(node_struct_ok(nodes, root, g, n));
        let l = nodes[n as int].left;
        let r = nodes[n as int].right;
        if l != 0 {
            assert(node_struct_ok(nodes, root, g, l));
        }
        if r != 0 {
            assert(node_struct_ok(nodes, root, g, r));
        }
        lemma_walk_members(nodes, root, g, l);
        lemma_walk_members(nodes, root, g, r);
        let wl = walk(nodes, root, g, l);
        let wr = walk(nodes, root, g, r);
        let w = walk(nodes, root, g, n);
        assert(w == seq![n] + wr + wl);
        assert forall|m: usize| #[trigger] w.contains(m) <==> (live(g, m) && g.lo[n] <= g.pos[m] < g.hi[n]) by {
            if w.contains(m) {
                let k = choose|k: int| 0 <= k < w.len() && w[k] == m;
                if k == 0 {
                } else if k < 1 + wr.len() {
                    assert(wr[k - 1] == m);
                    assert(wr.contains(m));
                } else {
                    assert(wl[k - 1 - wr.len()] == m);
                    assert(wl.contains(m));
                }
            }
            if live(g, m) && g.lo[n] <= g.pos[m] < g.hi[n] {
                if m == n {
                    assert(w[0] == m);
                } else if g.pos[m] < g.pos[n] {
                    assert(g.ord[g.pos[n]] == n);
                    assert(wl.contains(m));
                    let k = choose|k: int| 0 <= k < wl.len() && wl[k] == m;
                    assert(w[1 + wr.len() + k] == m);
                } else {
                    assert(g.ord[g.pos[n]] == n);
                    assert(g.pos[m] != g.pos[n]);
                    assert(wr.contains(m));
                    let k = choose|k: int| 0 <= k < wr.len() && wr[k] == m;
                    assert(w[1 + k] == m);
                }
            }
        }
        assert forall|i: int, j: int| 0 <= i < w.len() && 0 <= j < w.len() && i != j implies w[i] != w[j] by {
            if w[i] == w[j] {
                let m = w[i];
                let in_part = |k: int| if k == 0 { 0int } else if k < 1 + wr.len() { 1int } else { 2int };
                if in_part(i) == in_part(j) {
                    if in_part(i) == 1 {
                        assert(wr[i - 1] == wr[j - 1]);
                    } else if in_part(i) == 2 {
                        assert(wl[i - 1 - wr.len()] == wl[j - 1 - wr.len()]);
                    }
                } else {
                    if in_part(i) == 1 || in_part(j) == 1 {
                        assert(wr.contains(m));
                    }
                    if in_part(i) == 2 || in_part(j) == 2 {
                        assert(wl.contains(m));
                    }
                }
            }
        }
    }
}

/// A live slot with a parent lies one level below it: the parent's subtree is taller.
pub proof fn lemma_height_parent(nodes: Seq<Node>, root: usize, g: Shape, x: usize)
    requires
        struct_ok(nodes, root, g),
        live(g, x),
    ensures
        height(nodes, root, g, x) >= 1,
        nodes[x as int].parent != 0 ==> live(g, nodes[x as int].parent) && height(nodes, root, g, nodes[x as int].parent)
            >= height(nodes, root, g, x) + 1,
{
    assert(node_struct_ok(nodes, root, g, x));
    let p = nodes[x as int].parent;
    if p != 0 {
        assert(node_struct_ok(nodes, root, g, p));
        let l = nodes[p as int].left;
        let r = nodes[p as int].right;
        if l != 0 {
            assert(node_struct_ok(nodes, root, g, l));
        }
        if r != 0 {
            assert(node_struct_ok(nodes, root, g, r));
        }
    }
}

} // verus!
