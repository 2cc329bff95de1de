//! The traversal order of the backward engine: a depth-first postorder
//! linearization of the nodes reachable from a root, and the facts about it
//! that make reverse-postorder processing correct under fan-out.
//!
//! The facts proved here are the heart of the engine's correctness claim:
//! the linearization holds exactly the reachable nodes, each exactly once
//! ([`lemma_postorder_order`] with [`lemma_postorder_basic`]), and a node is
//! appended only after every one of its operands ([`topo_sorted`]). Reading
//! the linearization backwards therefore processes every node strictly
//! before any of its operands, so a node's gradient is fully settled by the
//! time its own local-gradient rule runs, for arbitrary acyclic graphs and
//! not just trees.

use vstd::prelude::*;
use crate::engine::{Node, Op, op_wf, wf_nodes};

verus! {

/// The indices as mathematical integers.
pub open spec fn to_ints(s: Seq<usize>) -> Seq<int> {
    s.map_values(|x: usize| x as int)
}

/// The operand handles of an operator, in rule order.
pub open spec fn operands(op: Op) -> Seq<int> {
    match op {
        Op::Leaf => seq![],
        Op::Add(a, b) => seq![a as int, b as int],
        Op::Mul(a, b) => seq![a as int, b as int],
        Op::Pow(a, b) => seq![a as int, b as int],
        Op::Tanh(a) => seq![a as int],
    }
}

/// Every entry of `s` is the index of a node of `g`.
pub open spec fn ids_valid(g: Seq<Node>, s: Seq<int>) -> bool {
    forall|p: int| 0 <= p < s.len() ==> 0 <= #[trigger] s[p] < g.len()
}

/// No node appears twice in `s`: each listed node is processed exactly once.
pub open spec fn no_dup(s: Seq<int>) -> bool {
    forall|p: int, q: int| #![trigger s[p], s[q]] 0 <= p < q < s.len() ==> s[p] != s[q]
}

/// Every operand of a node listed in `s` is itself listed in `s`.
pub open spec fn closed(g: Seq<Node>, s: Seq<int>) -> bool {
    forall|p: int, o: int|
        #![trigger operands(g[s[p]].op).contains(o)]
        0 <= p < s.len() && operands(g[s[p]].op).contains(o) ==> s.contains(o)
}

/// Postorder discipline: any occurrence of an operand of the node at
/// position `p` sits strictly before `p`.
pub open spec fn topo_sorted(g: Seq<Node>, s: Seq<int>) -> bool {
    forall|p: int, q: int|
        #![trigger operands(g[s[p]].op).contains(s[q])]
        0 <= p < s.len() && 0 <= q < s.len() && operands(g[s[p]].op).contains(s[q]) ==> q < p
}

/// Reverse-postorder discipline: any occurrence of an operand of the node at
/// position `p` sits strictly after `p`, so every consumer of a node is
/// processed before the node itself.
pub open spec fn rev_topo(g: Seq<Node>, s: Seq<int>) -> bool {
    forall|p: int, q: int|
        #![trigger operands(g[s[p]].op).contains(s[q])]
        0 <= p < s.len() && 0 <= q < s.len() && operands(g[s[p]].op).contains(s[q]) ==> p < q
}

/// Whether node `j` is reachable from node `i` along operand edges
/// (including `i` itself).
pub open spec fn reachable(g: Seq<Node>, i: int, j: int) -> bool
    decreases i when 0 <= i < g.len() && wf_nodes(g)
{
    i == j || match g[i].op {
        Op::Leaf => false,
        Op::Add(a, b) => reachable(g, a as int, j) || reachable(g, b as int, j),
        Op::Mul(a, b) => reachable(g, a as int, j) || reachable(g, b as int, j),
        Op::Pow(a, b) => reachable(g, a as int, j) || reachable(g, b as int, j),
        Op::Tanh(a) => reachable(g, a as int, j),
    }
}

/// The depth-first postorder linearization rooted at `i`, appended to the
/// nodes already linearized in `out`: a node's operands are visited first,
/// any node already present is skipped, and the node itself is appended only
/// after all its operands.
pub open spec fn postorder(g: Seq<Node>, i: int, out: Seq<int>) -> Seq<int>
    decreases i when 0 <= i < g.len() && wf_nodes(g)
{
    if out.contains(i) {
        out
    } else {
        match g[i].op {
            Op::Leaf => out.push(i),
            Op::Add(a, b) => postorder(g, b as int, postorder(g, a as int, out)).push(i),
            Op::Mul(a, b) => postorder(g, b as int, postorder(g, a as int, out)).push(i),
            Op::Pow(a, b) => postorder(g, b as int, postorder(g, a as int, out)).push(i),
            Op::Tanh(a) => postorder(g, a as int, out).push(i),
        }
    }
}

/// Membership in a pushed sequence.
pub proof fn lemma_push_contains(s: Seq<int>, x: int, j: int)
    ensures
        s.push(x).contains(j) <==> s.contains(j) || j == x,
{
    if s.contains(j) {
        let k = choose|k: int| 0 <= k < s.len() && s[k] == j;
        assert(s.push(x)[k] == j);
    }
    if j == x {
        assert(s.push(x)[s.len() as int] == j);
    }
    if s.push(x).contains(j) && j != x {
        let k = choose|k: int| 0 <= k < s.push(x).len() && s.push(x)[k] == j;
        assert(s[k] == j);
    }
}

/// A node reachable from `i` has an index no larger than `i`: operand edges
/// only ever point backwards.
pub proof fn lemma_reachable_bound(g: Seq<Node>, i: int, j: int)
    requires
        wf_nodes(g),
        0 <= i < g.len(),
        reachable(g, i, j),
    ensures
        0 <= j <= i,
    decreases i,
{
    if i != j {
        assert(op_wf(g[i].op, i));
        match g[i].op {
            Op::Leaf => {},
            Op::Add(a, b) => {
                if reachable(g, a as int, j) {
                    lemma_reachable_bound(g, a as int, j);
                } else {
                    lemma_reachable_bound(g, b as int, j);
                }
            },
            Op::Mul(a, b) => {
                if reachable(g, a as int, j) {
                    lemma_reachable_bound(g, a as int, j);
                } else {
                    lemma_reachable_bound(g, b as int, j);
                }
            },
            Op::Pow(a, b) => {
                if reachable(g, a as int, j) {
                    lemma_reachable_bound(g, a as int, j);
                } else {
                    lemma_reachable_bound(g, b as int, j);
                }
            },
            Op::Tanh(a) => {
                lemma_reachable_bound(g, a as int, j);
            },
        }
    }
}

/// An operand-closed collection that holds `i` holds everything reachable
/// from `i`.
pub proof fn lemma_closed_reachable(g: Seq<Node>, s: Seq<int>, i: int, j: int)
    requires
        wf_nodes(g),
        0 <= i < g.len(),
        closed(g, s),
        s.contains(i),
        reachable(g, i, j),
    ensures
        s.contains(j),
    decreases i,
{
    if i != j {
        assert(op_wf(g[i].op, i));
        let p = choose|p: int| 0 <= p < s.len() && s[p] == i;
        match g[i].op {
            Op::Leaf => {},
            Op::Add(a, b) => {
                assert(operands(g[s[p]].op)[0] == a as int);
                assert(operands(g[s[p]].op)[1] == b as int);
                assert(operands(g[s[p]].op).contains(a as int));
                assert(operands(g[s[p]].op).contains(b as int));
                if reachable(g, a as int, j) {
                    lemma_closed_reachable(g, s, a as int, j);
                } else {
                    lemma_closed_reachable(g, s, b as int, j);
                }
            },
            Op::Mul(a, b) => {
                assert(operands(g[s[p]].op)[0] == a as int);
                assert(operands(g[s[p]].op)[1] == b as int);
                assert(operands(g[s[p]].op).contains(a as int));
                assert(operands(g[s[p]].op).contains(b as int));
                if reachable(g, a as int, j) {
                    lemma_closed_reachable(g, s, a as int, j);
                } else {
                    lemma_closed_reachable(g, s, b as int, j);
                }
            },
            Op::Pow(a, b) => {
                assert(operands(g[s[p]].op)[0] == a as int);
                assert(operands(g[s[p]].op)[1] == b as int);
                assert(operands(g[s[p]].op).contains(a as int));
                assert(operands(g[s[p]].op).contains(b as int));
                if reachable(g, a as int, j) {
                    lemma_closed_reachable(g, s, a as int, j);
                } else {
                    lemma_closed_reachable(g, s, b as int, j);
                }
            },
            Op::Tanh(a) => {
                assert(operands(g[s[p]].op)[0] == a as int);
                assert(operands(g[s[p]].op).contains(a as int));
                lemma_closed_reachable(g, s, a as int, j);
            },
        }
    }
}

/// The linearization extends its input in place and adds exactly the nodes
/// reachable from the root, staying operand-closed.
pub proof fn lemma_postorder_basic(g: Seq<Node>, i: int, out: Seq<int>)
    requires
        wf_nodes(g),
        0 <= i < g.len(),
        ids_valid(g, out),
        closed(g, out),
    ensures
        postorder(g, i, out).len() >= out.len(),
        forall|k: int| 0 <= k < out.len() ==> postorder(g, i, out)[k] == out[k],
        ids_valid(g, postorder(g, i, out)),
        closed(g, postorder(g, i, out)),
        forall|j: int|
            #![trigger postorder(g, i, out).contains(j)]
            postorder(g, i, out).contains(j) <==> out.contains(j) || reachable(g, i, j),
    decreases i, 1int,
{
    let r = postorder(g, i, out);
    assert(op_wf(g[i].op, i));
    if out.contains(i) {
        assert forall|j: int| out.contains(j) || reachable(g, i, j) implies #[trigger] r.contains(j) by {
            if !out.contains(j) {
                lemma_closed_reachable(g, out, i, j);
            }
        }
    } else {
        match g[i].op {
            Op::Leaf => {
                assert forall|j: int| true implies
                    (#[trigger] r.contains(j) <==> out.contains(j) || reachable(g, i, j)) by {
                    lemma_push_contains(out, i, j);
                }
                assert forall|p: int, o: int|
                    #![trigger operands(g[r[p]].op).contains(o)]
                    0 <= p < r.len() && operands(g[r[p]].op).contains(o) implies r.contains(o) by {
                    lemma_push_contains(out, i, o);
                    if p < out.len() {
                        assert(operands(g[out[p]].op).contains(o));
                    } else {
                        assert(r[p] == i);
                    }
                }
            },
            Op::Tanh(a) => {
                let mid = postorder(g, a as int, out);
                lemma_postorder_basic(g, a as int, out);
                assert forall|j: int| true implies
                    (#[trigger] r.contains(j) <==> out.contains(j) || reachable(g, i, j)) by {
                    lemma_push_contains(mid, i, j);
                }
                assert forall|p: int, o: int|
                    #![trigger operands(g[r[p]].op).contains(o)]
                    0 <= p < r.len() && operands(g[r[p]].op).contains(o) implies r.contains(o) by {
                    lemma_push_contains(mid, i, o);
                    if p < mid.len() {
                        assert(operands(g[mid[p]].op).contains(o));
                    } else {
                        assert(r[p] == i);
                        assert(mid.contains(a as int));
                    }
                }
            },
            Op::Add(a, b) => {
                lemma_postorder_binary(g, i, out, a as int, b as int);
            },
            Op::Mul(a, b) => {
                lemma_postorder_binary(g, i, out, a as int, b as int);
            },
            Op::Pow(a, b) => {
                lemma_postorder_binary(g, i, out, a as int, b as int);
            },
        }
    }
}

/// The binary case of [`lemma_postorder_basic`], shared by the three
/// two-operand operators.
proof fn lemma_postorder_binary(g: Seq<Node>, i: int, out: Seq<int>, a: int, b: int)
    requires
        wf_nodes(g),
        0 <= i < g.len(),
        ids_valid(g, out),
        closed(g, out),
        !out.contains(i),
        0 <= a < i,
        0 <= b < i,
        operands(g[i].op) == seq![a, b],
        postorder(g, i, out) == postorder(g, b, postorder(g, a, out)).push(i),
        forall|j: int| reachable(g, i, j) <==> i == j || reachable(g, a, j) || reachable(g, b, j),
    ensures
        postorder(g, i, out).len() >= out.len(),
        forall|k: int| 0 <= k < out.len() ==> postorder(g, i, out)[k] == out[k],
        ids_valid(g, postorder(g, i, out)),
        closed(g, postorder(g, i, out)),
        forall|j: int|
            #![trigger postorder(g, i, out).contains(j)]
            postorder(g, i, out).contains(j) <==> out.contains(j) || reachable(g, i, j),
    decreases i, 0int,
{
    let r = postorder(g, i, out);
    let mid1 = postorder(g, a, out);
    let mid2 = postorder(g, b, mid1);
    lemma_postorder_basic(g, a, out);
    lemma_postorder_basic(g, b, mid1);
    assert forall|j: int| true implies
        (#[trigger] r.contains(j) <==> out.contains(j) || reachable(g, i, j)) by {
        lemma_push_contains(mid2, i, j);
    }
    assert forall|p: int, o: int|
        #![trigger operands(g[r[p]].op).contains(o)]
        0 <= p < r.len() && operands(g[r[p]].op).contains(o) implies r.contains(o) by {
        lemma_push_contains(mid2, i, o);
        if p < mid2.len() {
            assert(operands(g[mid2[p]].op).contains(o));
        } else {
            assert(r[p] == i);
            assert(mid1.contains(a));
            assert(mid2.contains(a));
            assert(mid2.contains(b));
        }
    }
}

/// The linearization keeps nodes unique and keeps every operand strictly
/// before its consumer: reverse iteration therefore runs every consumer
/// before the node it consumes, which is what makes gradient accumulation
/// correct under fan-out.
pub proof fn lemma_postorder_order(g: Seq<Node>, i: int, out: Seq<int>)
    requires
        wf_nodes(g),
        0 <= i < g.len(),
        ids_valid(g, out),
        closed(g, out),
        no_dup(out),
        topo_sorted(g, out),
    ensures
        no_dup(postorder(g, i, out)),
        topo_sorted(g, postorder(g, i, out)),
    decreases i, 1int,
{
    let r = postorder(g, i, out);
    assert(op_wf(g[i].op, i));
    lemma_postorder_basic(g, i, out);
    if out.contains(i) {
    } else {
        match g[i].op {
            Op::Leaf => {
                lemma_postorder_push_step(g, i, out, out);
            },
            Op::Tanh(a) => {
                let mid = postorder(g, a as int, out);
                lemma_postorder_basic(g, a as int, out);
                lemma_postorder_order(g, a as int, out);
                assert forall|j: int| #[trigger] mid.contains(j) && !out.contains(j) implies j <= a as int by {
                    lemma_reachable_bound(g, a as int, j);
                }
                lemma_postorder_push_step(g, i, out, mid);
            },
            Op::Add(a, b) => {
                lemma_postorder_order_binary(g, i, out, a as int, b as int);
            },
            Op::Mul(a, b) => {
                lemma_postorder_order_binary(g, i, out, a as int, b as int);
            },
            Op::Pow(a, b) => {
                lemma_postorder_order_binary(g, i, out, a as int, b as int);
            },
        }
    }
}

/// The binary case of [`lemma_postorder_order`].
proof fn lemma_postorder_order_binary(g: Seq<Node>, i: int, out: Seq<int>, a: int, b: int)
    requires
        wf_nodes(g),
        0 <= i < g.len(),
        ids_valid(g, out),
        closed(g, out),
        no_dup(out),
        topo_sorted(g, out),
        !out.contains(i),
        0 <= a < i,
        0 <= b < i,
        operands(g[i].op) == seq![a, b],
        postorder(g, i, out) == postorder(g, b, postorder(g, a, out)).push(i),
    ensures
        no_dup(postorder(g, i, out)),
        topo_sorted(g, postorder(g, i, out)),
    decreases i, 0int,
{
    let mid1 = postorder(g, a, out);
    let mid2 = postorder(g, b, mid1);
    lemma_postorder_basic(g, a, out);
    lemma_postorder_order(g, a, out);
    lemma_postorder_basic(g, b, mid1);
    lemma_postorder_order(g, b, mid1);
    assert forall|j: int| #[trigger] mid2.contains(j) && !out.contains(j) implies j < i by {
        if mid1.contains(j) {
            lemma_reachable_bound(g, a, j);
        } else {
            lemma_reachable_bound(g, b, j);
        }
    }
    lemma_postorder_push_step(g, i, out, mid2);
}

/// Pushing the root onto a linearization that already lists its operands,
/// contains no duplicate, is operand-closed over `g`, and extends `out`
/// by nodes with indices below the root, preserves uniqueness and the
/// postorder discipline.
proof fn lemma_postorder_push_step(g: Seq<Node>, i: int, out: Seq<int>, mid: Seq<int>)
    requires
        wf_nodes(g),
        0 <= i < g.len(),
        ids_valid(g, mid),
        closed(g, mid),
        no_dup(mid),
        topo_sorted(g, mid),
        !out.contains(i),
        mid.len() >= out.len(),
        forall|k: int| 0 <= k < out.len() ==> mid[k] == out[k],
        forall|j: int| #[trigger] mid.contains(j) && !out.contains(j) ==> j < i,
        forall|o: int| operands(g[i].op).contains(o) ==> mid.contains(o),
    ensures
        no_dup(mid.push(i)),
        topo_sorted(g, mid.push(i)),
{
    let r = mid.push(i);
    assert(op_wf(g[i].op, i));
    assert(!mid.contains(i)) by {
        if mid.contains(i) {
            let k = choose|k: int| 0 <= k < mid.len() && mid[k] == i;
            if k < out.len() {
                assert(out[k] == i);
            }
        }
    }
    assert forall|p: int, q: int| 0 <= p < q < r.len() implies r[p] != r[q] by {
        if q == mid.len() {
            if r[p] == i {
                assert(mid[p] == i);
            }
        }
    }
    assert forall|p: int, q: int|
        0 <= p < r.len() && 0 <= q < r.len() && operands(g[r[p]].op).contains(r[q])
        implies q < p by {
        if p < mid.len() && q < mid.len() {
            assert(operands(g[mid[p]].op).contains(mid[q]));
        } else if p == mid.len() && q < mid.len() {
        } else if p < mid.len() && q == mid.len() {
            // No listed node can have the root as an operand: nodes taken
            // from `out` are operand-closed away from it, and newly added
            // nodes have smaller indices than the root, so their operands do
            // too.
            assert(operands(g[mid[p]].op).contains(i));
            assert(0 <= mid[p] < g.len());
            assert(op_wf(g[mid[p]].op, mid[p]));
            if p < out.len() {
                assert(operands(g[out[p]].op).contains(i));
                assert(out.contains(i));
            } else {
                assert(mid.contains(mid[p]));
                assert(!out.contains(mid[p])) by {
                    if out.contains(mid[p]) {
                        let k = choose|k: int| 0 <= k < out.len() && out[k] == mid[p];
                        assert(mid[k] == mid[p]);
                        assert(operands(g[mid[k]].op).contains(i));
                        assert(out.contains(i));
                    }
                }
                assert(mid[p] < i);
                lemma_operands_below(g, mid[p]);
            }
        } else {
            assert(operands(g[i].op).contains(i));
            lemma_operands_below(g, i);
        }
    }
}

/// Every operand of a node sits strictly below the node's own index.
proof fn lemma_operands_below(g: Seq<Node>, j: int)
    requires
        wf_nodes(g),
        0 <= j < g.len(),
    ensures
        forall|o: int| #[trigger] operands(g[j].op).contains(o) ==> o < j,
{
    assert(op_wf(g[j].op, j));
    assert forall|o: int| #[trigger] operands(g[j].op).contains(o) implies o < j by {
        let k = choose|k: int| 0 <= k < operands(g[j].op).len() && operands(g[j].op)[k] == o;
    }
}

} // verus!
