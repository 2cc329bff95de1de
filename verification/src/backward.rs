//! The backward engine: reverse-postorder gradient propagation, run as an
//! explicit step machine.
//!
//! [`Graph::backward_start`] seeds the root's gradient with one, linearizes
//! every node reachable from the root in depth-first postorder, and reverses
//! that order; [`Graph::backward_step`] then processes one pending
//! arithmetic request at a time. Each step consumes the driver's answer to
//! the pending request, stores it where the machine's specification says,
//! and hands out the next request, until none is left.
//!
//! The step contract carries the engine's guarantees: every node is
//! processed exactly once; a step only ever touches the gradient of an
//! operand of the node being processed, which sits strictly later in the
//! schedule, so a node's own gradient is fully settled before its rule
//! reads it, even under fan-out; and every gradient write consumes a
//! request that adds onto the target's current gradient — gradients
//! accumulate and are never overwritten.

use vstd::prelude::*;
use crate::engine::{ArithOp, Graph, Node, Op, Value, op_wf, wf_nodes, ONE_BITS, TWO_BITS};
use crate::order::{
    closed, ids_valid, no_dup, operands, postorder, reachable, rev_topo, to_ints, topo_sorted,
    lemma_postorder_basic, lemma_postorder_order,
};

verus! {

/// Whether the operator is the leaf tag, which has no gradient rule.
pub open spec fn is_leaf(op: Op) -> bool {
    match op {
        Op::Leaf => true,
        _ => false,
    }
}

/// The node sequence with node `j`'s gradient replaced by `r`; value and
/// operator stay as they were.
pub open spec fn with_grad(g: Seq<Node>, j: int, r: u64) -> Seq<Node> {
    g.update(j, Node { value: g[j].value, grad: r, op: g[j].op })
}

/// The first schedule position at or after `pos` whose node has a gradient
/// rule to run; leaves are skipped.
pub open spec fn norm_pos(g: Seq<Node>, order: Seq<int>, pos: int) -> int
    decreases order.len() - pos when 0 <= pos <= order.len()
{
    if pos >= order.len() {
        pos
    } else if is_leaf(g[order[pos]].op) {
        norm_pos(g, order, pos + 1)
    } else {
        pos
    }
}

/// The first request of node `i`'s gradient rule; never consulted for a
/// leaf.
pub open spec fn first_request(g: Seq<Node>, i: int) -> ArithOp {
    match g[i].op {
        Op::Leaf => ArithOp::Add(0, 0),
        Op::Add(a, _b) => ArithOp::Add(g[a as int].grad, g[i].grad),
        Op::Mul(_a, b) => ArithOp::Mul(g[b as int].value, g[i].grad),
        Op::Pow(_a, b) => ArithOp::Sub(g[b as int].value, ONE_BITS),
        Op::Tanh(_a) => ArithOp::Powf(g[i].value, TWO_BITS),
    }
}

/// The pending request at schedule position `pos`, or nothing when the
/// schedule is exhausted.
pub open spec fn pending_at(g: Seq<Node>, order: Seq<int>, pos: int) -> Option<ArithOp> {
    if pos < order.len() {
        Some(first_request(g, order[pos]))
    } else {
        None
    }
}

/// One machine state, as the step specification describes it.
pub struct BSnap {
    /// The nodes after the step.
    pub nodes: Seq<Node>,
    /// The schedule position after the step.
    pub pos: int,
    /// The position inside the current node's rule after the step.
    pub phase: int,
    /// The request pending after the step.
    pub pending: Option<ArithOp>,
}

/// The machine state after finishing a node: the schedule position moves to
/// the next node with a rule, a fresh rule starts at its first phase, and
/// the pending request is that rule's first request.
pub open spec fn advanced(g: Seq<Node>, order: Seq<int>, pos: int) -> BSnap {
    let np = norm_pos(g, order, pos);
    BSnap { nodes: g, pos: np, phase: 0, pending: pending_at(g, order, np) }
}

/// The machine's transition: at node `order[pos]`, in the given phase of
/// its gradient rule, consume the driver's answer `resp` to the pending
/// request and move on. Gradient rules follow the chain rule per operator:
/// the sum rule passes the node's gradient to both operands; the product
/// rule scales it by the other operand's value; the power rule scales it by
/// the exponent times the base raised to the exponent less one (the
/// exponent operand receives nothing by design); the hyperbolic-tangent
/// rule scales it by one minus the square of the node's own value.
pub open spec fn bstep(g: Seq<Node>, order: Seq<int>, pos: int, phase: int, resp: u64) -> BSnap {
    let i = order[pos];
    match g[i].op {
        Op::Leaf => advanced(g, order, pos + 1),
        Op::Add(a, b) => {
            if phase == 0 {
                let g1 = with_grad(g, a as int, resp);
                BSnap {
                    nodes: g1,
                    pos,
                    phase: 1,
                    pending: Some(ArithOp::Add(g1[b as int].grad, g1[i].grad)),
                }
            } else {
                advanced(with_grad(g, b as int, resp), order, pos + 1)
            }
        },
        Op::Mul(a, b) => {
            if phase == 0 {
                BSnap { nodes: g, pos, phase: 1, pending: Some(ArithOp::Add(g[a as int].grad, resp)) }
            } else if phase == 1 {
                let g1 = with_grad(g, a as int, resp);
                BSnap {
                    nodes: g1,
                    pos,
                    phase: 2,
                    pending: Some(ArithOp::Mul(g1[a as int].value, g1[i].grad)),
                }
            } else if phase == 2 {
                BSnap { nodes: g, pos, phase: 3, pending: Some(ArithOp::Add(g[b as int].grad, resp)) }
            } else {
                advanced(with_grad(g, b as int, resp), order, pos + 1)
            }
        },
        Op::Pow(a, b) => {
            if phase == 0 {
                BSnap { nodes: g, pos, phase: 1, pending: Some(ArithOp::Powf(g[a as int].value, resp)) }
            } else if phase == 1 {
                BSnap { nodes: g, pos, phase: 2, pending: Some(ArithOp::Mul(g[b as int].value, resp)) }
            } else if phase == 2 {
                BSnap { nodes: g, pos, phase: 3, pending: Some(ArithOp::Mul(resp, g[i].grad)) }
            } else if phase == 3 {
                BSnap { nodes: g, pos, phase: 4, pending: Some(ArithOp::Add(g[a as int].grad, resp)) }
            } else {
                advanced(with_grad(g, a as int, resp), order, pos + 1)
            }
        },
        Op::Tanh(a) => {
            if phase == 0 {
                BSnap { nodes: g, pos, phase: 1, pending: Some(ArithOp::Sub(ONE_BITS, resp)) }
            } else if phase == 1 {
                BSnap { nodes: g, pos, phase: 2, pending: Some(ArithOp::Mul(resp, g[i].grad)) }
            } else if phase == 2 {
                BSnap { nodes: g, pos, phase: 3, pending: Some(ArithOp::Add(g[a as int].grad, resp)) }
            } else {
                advanced(with_grad(g, a as int, resp), order, pos + 1)
            }
        },
    }
}

/// Whether `pending` is the request the rule of node `i` has outstanding in
/// the given phase. A write phase always has an addition onto the target
/// operand's current gradient outstanding.
pub open spec fn pending_ok(g: Seq<Node>, i: int, phase: int, pending: Option<ArithOp>) -> bool {
    match g[i].op {
        Op::Leaf => false,
        Op::Add(a, b) => {
            ||| phase == 0 && pending == Some(ArithOp::Add(g[a as int].grad, g[i].grad))
            ||| phase == 1 && pending == Some(ArithOp::Add(g[b as int].grad, g[i].grad))
        },
        Op::Mul(a, b) => {
            ||| phase == 0 && pending == Some(ArithOp::Mul(g[b as int].value, g[i].grad))
            ||| phase == 1 && (pending matches Some(ArithOp::Add(acc, _)) && acc == g[a as int].grad)
            ||| phase == 2 && pending == Some(ArithOp::Mul(g[a as int].value, g[i].grad))
            ||| phase == 3 && (pending matches Some(ArithOp::Add(acc, _)) && acc == g[b as int].grad)
        },
        Op::Pow(a, b) => {
            ||| phase == 0 && pending == Some(ArithOp::Sub(g[b as int].value, ONE_BITS))
            ||| phase == 1 && (pending matches Some(ArithOp::Powf(base, _)) && base == g[a as int].value)
            ||| phase == 2 && (pending matches Some(ArithOp::Mul(e, _)) && e == g[b as int].value)
            ||| phase == 3 && (pending matches Some(ArithOp::Mul(_, gr)) && gr == g[i].grad)
            ||| phase == 4 && (pending matches Some(ArithOp::Add(acc, _)) && acc == g[a as int].grad)
        },
        Op::Tanh(a) => {
            ||| phase == 0 && pending == Some(ArithOp::Powf(g[i].value, TWO_BITS))
            ||| phase == 1 && (pending matches Some(ArithOp::Sub(o, _)) && o == ONE_BITS)
            ||| phase == 2 && (pending matches Some(ArithOp::Mul(_, gr)) && gr == g[i].grad)
            ||| phase == 3 && (pending matches Some(ArithOp::Add(acc, _)) && acc == g[a as int].grad)
        },
    }
}

/// An in-progress backward traversal over one graph.
pub struct Backward {
    /// The processing schedule: the reverse of the depth-first postorder of
    /// the nodes reachable from the root, so the root comes first and the
    /// deepest leaves last.
    pub order: Vec<usize>,
    /// The current schedule position.
    pub pos: usize,
    /// The position inside the current node's gradient rule.
    pub phase: usize,
    /// The request the driver is expected to answer next.
    pub pending: Option<ArithOp>,
}

impl Backward {
    /// The machine's invariant against the graph's nodes: the schedule is a
    /// duplicate-free, operand-closed reverse-postorder over valid indices,
    /// and the pending request is exactly what the current node's rule has
    /// outstanding.
    pub open spec fn inv(&self, g: Seq<Node>) -> bool {
        let order = to_ints(self.order@);
        &&& wf_nodes(g)
        &&& ids_valid(g, order)
        &&& no_dup(order)
        &&& closed(g, order)
        &&& rev_topo(g, order)
        &&& (self.pos as int) <= order.len()
        &&& ((self.pos as int) == order.len() ==> self.pending == None::<ArithOp>)
        &&& ((self.pos as int) < order.len() ==> pending_ok(
            g,
            order[self.pos as int],
            self.phase as int,
            self.pending,
        ))
    }
}

/// Structural predicates over a schedule carry over to any node sequence
/// with the same length and the same operators, whatever the gradients and
/// values did in between.
proof fn lemma_same_ops(g1: Seq<Node>, g2: Seq<Node>, s: Seq<int>)
    requires
        g1.len() == g2.len(),
        forall|j: int| 0 <= j < g1.len() ==> (#[trigger] g2[j]).op == g1[j].op,
        ids_valid(g1, s),
        closed(g1, s),
        rev_topo(g1, s),
    ensures
        ids_valid(g2, s),
        closed(g2, s),
        rev_topo(g2, s),
{
    assert forall|p: int, o: int|
        #![trigger operands(g2[s[p]].op).contains(o)]
        0 <= p < s.len() && operands(g2[s[p]].op).contains(o) implies s.contains(o) by {
        assert(operands(g1[s[p]].op).contains(o));
    }
    assert forall|p: int, q: int|
        #![trigger operands(g2[s[p]].op).contains(s[q])]
        0 <= p < s.len() && 0 <= q < s.len() && operands(g2[s[p]].op).contains(s[q])
        implies p < q by {
        assert(operands(g1[s[p]].op).contains(s[q]));
    }
}

/// Reversing a postorder keeps its membership, validity and uniqueness, and
/// turns the operands-first discipline into consumers-first.
proof fn lemma_reverse_order(g: Seq<Node>, s: Seq<int>)
    requires
        ids_valid(g, s),
        no_dup(s),
        closed(g, s),
        topo_sorted(g, s),
    ensures
        s.reverse().len() == s.len(),
        ids_valid(g, s.reverse()),
        no_dup(s.reverse()),
        closed(g, s.reverse()),
        rev_topo(g, s.reverse()),
        forall|j: int| #![trigger s.reverse().contains(j)] s.reverse().contains(j) <==> s.contains(j),
{
    let r = s.reverse();
    let n = s.len() as int;
    assert(r.len() == n);
    assert(forall|k: int| 0 <= k < n ==> r[k] == s[n - 1 - k]);
    assert forall|j: int| #![trigger r.contains(j)] r.contains(j) <==> s.contains(j) by {
        if r.contains(j) {
            let k = choose|k: int| 0 <= k < n && r[k] == j;
            assert(s[n - 1 - k] == j);
        }
        if s.contains(j) {
            let k = choose|k: int| 0 <= k < n && s[k] == j;
            assert(r[n - 1 - k] == j);
        }
    }
    assert forall|p: int, o: int|
        #![trigger operands(g[r[p]].op).contains(o)]
        0 <= p < r.len() && operands(g[r[p]].op).contains(o) implies r.contains(o) by {
        assert(operands(g[s[n - 1 - p]].op).contains(o));
        assert(s.contains(o));
    }
    assert forall|p: int, q: int|
        #![trigger operands(g[r[p]].op).contains(r[q])]
        0 <= p < r.len() && 0 <= q < r.len() && operands(g[r[p]].op).contains(r[q])
        implies p < q by {
        assert(operands(g[s[n - 1 - p]].op).contains(s[n - 1 - q]));
    }
}

impl Graph {
    /// Writes one gradient cell; everything else stays.
    fn set_grad(&mut self, j: usize, r: u64)
        requires
            old(self).wf(),
            j < old(self).nodes@.len(),
        ensures
            final(self).wf(),
            final(self).nodes@ == with_grad(old(self).nodes@, j as int, r),
            final(self).labels@ == old(self).labels@,
    {
        let n = self.nodes[j];
        self.nodes[j] = Node { value: n.value, grad: r, op: n.op };
        proof {
            assert forall|i: int| 0 <= i < self.nodes@.len() implies op_wf(
                #[trigger] self.nodes@[i].op,
                i,
            ) by {
                assert(op_wf(old(self).nodes@[i].op, i));
            }
        }
    }

    /// Writes the driver's answer into the gradient of operand `t` of the
    /// node being processed, and carries the ordering facts that make the
    /// write safe: the target sits strictly later in the schedule than any
    /// position already reached, and it is on the schedule.
    fn write_operand(
        &mut self,
        Ghost(ord): Ghost<Seq<int>>,
        Ghost(pos): Ghost<int>,
        i: usize,
        t: usize,
        resp: u64,
    )
        requires
            old(self).wf(),
            ids_valid(old(self).nodes@, ord),
            no_dup(ord),
            closed(old(self).nodes@, ord),
            rev_topo(old(self).nodes@, ord),
            0 <= pos < ord.len(),
            ord[pos] == i as int,
            i < old(self).nodes@.len(),
            operands(old(self).nodes@[i as int].op).contains(t as int),
            t < old(self).nodes@.len(),
        ensures
            final(self).wf(),
            final(self).nodes@ == with_grad(old(self).nodes@, t as int, resp),
            final(self).labels@ == old(self).labels@,
            ids_valid(final(self).nodes@, ord),
            no_dup(ord),
            closed(final(self).nodes@, ord),
            rev_topo(final(self).nodes@, ord),
            forall|k: int| 0 <= k <= pos && k < ord.len() ==> #[trigger] ord[k] != t as int,
            ord.contains(t as int),
    {
        proof {
            assert(operands(old(self).nodes@[ord[pos]].op).contains(t as int));
            assert(ord.contains(t as int));
            assert forall|k: int| 0 <= k <= pos && k < ord.len() implies #[trigger] ord[k] != t as int by {
                if ord[k] == t as int {
                    assert(operands(old(self).nodes@[ord[pos]].op).contains(ord[k]));
                }
            }
        }
        self.set_grad(t, resp);
        proof {
            lemma_same_ops(old(self).nodes@, self.nodes@, ord);
        }
    }

    /// Depth-first traversal from node `i`, skipping nodes already listed,
    /// appending each node after its operands: the executable form of
    /// [`postorder`]. The visited set is keyed by node index — the node's
    /// identity — never by its mutable content.
    fn dfs(&self, i: usize, seen: &mut Vec<bool>, out: &mut Vec<usize>)
        requires
            self.wf(),
            i < self.nodes@.len(),
            old(seen)@.len() == self.nodes@.len(),
            forall|j: int|
                0 <= j < old(seen)@.len()
                    ==> (old(seen)@[j] <==> to_ints(old(out)@).contains(j)),
            ids_valid(self.nodes@, to_ints(old(out)@)),
        ensures
            final(seen)@.len() == old(seen)@.len(),
            to_ints(final(out)@) == postorder(self.nodes@, i as int, to_ints(old(out)@)),
            forall|j: int|
                0 <= j < final(seen)@.len()
                    ==> (final(seen)@[j] <==> to_ints(final(out)@).contains(j)),
            ids_valid(self.nodes@, to_ints(final(out)@)),
        decreases i,
    {
        let ghost g = self.nodes@;
        let ghost out0 = to_ints(out@);
        if seen[i] {
            proof {
                assert(out0.contains(i as int));
            }
            return;
        }
        proof {
            assert(!out0.contains(i as int));
            assert(op_wf(g[i as int].op, i as int));
        }
        match self.nodes[i].op {
            Op::Leaf => {},
            Op::Add(a, b) => {
                self.dfs(a, seen, out);
                self.dfs(b, seen, out);
            },
            Op::Mul(a, b) => {
                self.dfs(a, seen, out);
                self.dfs(b, seen, out);
            },
            Op::Pow(a, b) => {
                self.dfs(a, seen, out);
                self.dfs(b, seen, out);
            },
            Op::Tanh(a) => {
                self.dfs(a, seen, out);
            },
        }
        let ghost mid = to_ints(out@);
        out.push(i);
        seen[i] = true;
        proof {
            assert(to_ints(out@) =~= mid.push(i as int));
            assert forall|j: int| 0 <= j < seen@.len() implies (seen@[j] <==> to_ints(
                out@,
            ).contains(j)) by {
                crate::order::lemma_push_contains(mid, i as int, j);
            }
        }
    }

    /// Scans the schedule from `start` for the next node with a gradient
    /// rule and hands back its position and first request; leaves have no
    /// rule and are passed over.
    fn find_pending(&self, order: &Vec<usize>, start: usize) -> (r: (usize, Option<ArithOp>))
        requires
            self.wf(),
            start <= order@.len(),
            ids_valid(self.nodes@, to_ints(order@)),
        ensures
            r.0 as int == norm_pos(self.nodes@, to_ints(order@), start as int),
            start <= r.0 <= order@.len(),
            r.1 == pending_at(self.nodes@, to_ints(order@), r.0 as int),
            r.0 < order@.len() ==> !is_leaf(self.nodes@[to_ints(order@)[r.0 as int]].op),
    {
        let ghost g = self.nodes@;
        let ghost ord = to_ints(order@);
        let mut pos = start;
        loop
            invariant
                self.wf(),
                g == self.nodes@,
                ord == to_ints(order@),
                start <= pos <= order@.len(),
                ids_valid(g, ord),
                norm_pos(g, ord, start as int) == norm_pos(g, ord, pos as int),
            decreases order@.len() - pos,
        {
            if pos == order.len() {
                return (pos, None);
            }
            let i = order[pos];
            proof {
                assert(0 <= ord[pos as int] < g.len());
                assert(i as int == ord[pos as int]);
            }
            match self.nodes[i].op {
                Op::Leaf => {
                    pos = pos + 1;
                },
                Op::Add(a, _b) => {
                    proof {
                        assert(op_wf(g[i as int].op, i as int));
                    }
                    return (pos, Some(ArithOp::Add(self.nodes[a].grad, self.nodes[i].grad)));
                },
                Op::Mul(_a, b) => {
                    proof {
                        assert(op_wf(g[i as int].op, i as int));
                    }
                    return (pos, Some(ArithOp::Mul(self.nodes[b].value, self.nodes[i].grad)));
                },
                Op::Pow(_a, b) => {
                    proof {
                        assert(op_wf(g[i as int].op, i as int));
                    }
                    return (pos, Some(ArithOp::Sub(self.nodes[b].value, ONE_BITS)));
                },
                Op::Tanh(_a) => {
                    return (pos, Some(ArithOp::Powf(self.nodes[i].value, TWO_BITS)));
                },
            }
        }
    }

    /// Moves a machine that just finished a node to the next node with a
    /// rule.
    fn advance_machine(&self, m: &mut Backward)
        requires
            self.wf(),
            old(m).pos < old(m).order@.len(),
            ids_valid(self.nodes@, to_ints(old(m).order@)),
        ensures
            final(m).order@ == old(m).order@,
            final(m).pos as int == norm_pos(self.nodes@, to_ints(old(m).order@), old(m).pos + 1),
            old(m).pos < final(m).pos,
            final(m).pos <= final(m).order@.len(),
            final(m).phase == 0,
            final(m).pending == pending_at(
                self.nodes@,
                to_ints(old(m).order@),
                final(m).pos as int,
            ),
            final(m).pos < final(m).order@.len() ==> !is_leaf(
                self.nodes@[to_ints(final(m).order@)[final(m).pos as int]].op,
            ),
    {
        let bound = m.order.len();
        assert(m.pos < bound);
        let (np, pend) = self.find_pending(&m.order, m.pos + 1);
        m.pos = np;
        m.phase = 0;
        m.pending = pend;
    }

    /// Starts a backward traversal at `root`: seeds the root's gradient
    /// with one — the only mutation — then schedules every node reachable
    /// from the root, each exactly once, in reverse depth-first postorder.
    /// The first pending request comes back beside the machine; when it is
    /// `None` (a lone leaf), the traversal is already complete.
    pub fn backward_start(&mut self, root: Value) -> (r: (Backward, Option<ArithOp>))
        requires
            old(self).wf(),
            root.id < old(self).nodes@.len(),
        ensures
            final(self).wf(),
            final(self).labels@ == old(self).labels@,
            final(self).nodes@ == with_grad(old(self).nodes@, root.id as int, ONE_BITS),
            r.0.inv(final(self).nodes@),
            to_ints(r.0.order@) == postorder(
                final(self).nodes@,
                root.id as int,
                Seq::<int>::empty(),
            ).reverse(),
            forall|j: int|
                #![trigger to_ints(r.0.order@).contains(j)]
                to_ints(r.0.order@).contains(j) <==> reachable(
                    final(self).nodes@,
                    root.id as int,
                    j,
                ),
            r.0.pos as int == norm_pos(final(self).nodes@, to_ints(r.0.order@), 0),
            r.0.phase == 0,
            r.1 == r.0.pending,
    {
        self.set_grad(root.id, ONE_BITS);
        let ghost g = self.nodes@;
        let n = self.nodes.len();
        let mut seen: Vec<bool> = Vec::new();
        while seen.len() < n
            invariant
                seen@.len() <= n,
                forall|j: int| 0 <= j < seen@.len() ==> !(#[trigger] seen@[j]),
            decreases n - seen@.len(),
        {
            seen.push(false);
        }
        let mut out: Vec<usize> = Vec::new();
        proof {
            assert(to_ints(out@) =~= Seq::<int>::empty());
        }
        self.dfs(root.id, &mut seen, &mut out);
        let ghost po = postorder(g, root.id as int, Seq::<int>::empty());
        proof {
            lemma_postorder_basic(g, root.id as int, Seq::<int>::empty());
            lemma_postorder_order(g, root.id as int, Seq::<int>::empty());
            lemma_reverse_order(g, po);
        }
        let m = out.len();
        let mut sched: Vec<usize> = Vec::new();
        while sched.len() < m
            invariant
                m == out@.len(),
                sched@.len() <= m,
                forall|k: int| 0 <= k < sched@.len() ==> sched@[k] == out@[m - 1 - k],
            decreases m - sched@.len(),
        {
            let k = sched.len();
            sched.push(out[m - 1 - k]);
        }
        proof {
            assert(to_ints(sched@) =~= po.reverse());
        }
        let (pos, pending) = self.find_pending(&sched, 0);
        let machine = Backward { order: sched, pos, phase: 0, pending };
        proof {
            let ord = to_ints(machine.order@);
            if (pos as int) < ord.len() {
                assert(pending_ok(g, ord[pos as int], 0, machine.pending));
            }
        }
        let req = machine.pending;
        (machine, req)
    }

    /// Runs one step of the backward traversal: consumes the driver's
    /// answer `resp` to the machine's pending request and hands out the
    /// next request; `None` means the traversal is complete.
    ///
    /// The contract carries the engine's ordering guarantees. The machine
    /// follows [`bstep`] exactly. A step never touches values, operators,
    /// labels or the node count. At most one gradient changes, always an
    /// operand of the node being processed; nodes at schedule positions
    /// already reached keep their gradients — a node's gradient is settled
    /// once processing reaches it, because every consumer ran first — and
    /// nodes outside the schedule are never touched. Every write consumes a
    /// request that adds onto the target's current gradient: gradients
    /// accumulate and are never overwritten.
    pub fn backward_step(&mut self, m: &mut Backward, resp: u64) -> (req: Option<ArithOp>)
        requires
            old(self).wf(),
            old(m).inv(old(self).nodes@),
            old(m).pending matches Some(_),
        ensures
            final(self).wf(),
            final(m).inv(final(self).nodes@),
            final(self).labels@ == old(self).labels@,
            final(m).order@ == old(m).order@,
            old(m).pos <= final(m).pos,
            final(m).pos == old(m).pos ==> final(m).phase == old(m).phase + 1,
            req == final(m).pending,
            ({
                let s = bstep(
                    old(self).nodes@,
                    to_ints(old(m).order@),
                    old(m).pos as int,
                    old(m).phase as int,
                    resp,
                );
                &&& final(self).nodes@ == s.nodes
                &&& final(m).pos as int == s.pos
                &&& final(m).phase as int == s.phase
                &&& final(m).pending == s.pending
            }),
            final(self).nodes@.len() == old(self).nodes@.len(),
            forall|j: int|
                0 <= j < old(self).nodes@.len() ==> (#[trigger] final(self).nodes@[j]).op
                    == old(self).nodes@[j].op && final(self).nodes@[j].value
                    == old(self).nodes@[j].value,
            forall|j: int|
                0 <= j < old(self).nodes@.len() && (#[trigger] final(self).nodes@[j]).grad
                    != old(self).nodes@[j].grad ==> operands(
                    old(self).nodes@[to_ints(old(m).order@)[old(m).pos as int]].op,
                ).contains(j),
            forall|k: int|
                #![trigger to_ints(old(m).order@)[k]]
                0 <= k <= old(m).pos && k < to_ints(old(m).order@).len()
                    ==> final(self).nodes@[to_ints(old(m).order@)[k]].grad
                        == old(self).nodes@[to_ints(old(m).order@)[k]].grad,
            forall|j: int|
                0 <= j < old(self).nodes@.len() && !to_ints(old(m).order@).contains(j)
                    ==> (#[trigger] final(self).nodes@[j]).grad == old(self).nodes@[j].grad,
            forall|j: int|
                0 <= j < old(self).nodes@.len() && (#[trigger] final(self).nodes@[j]).grad
                    != old(self).nodes@[j].grad ==> {
                    &&& (old(m).pending matches Some(ArithOp::Add(acc, _))
                        && acc == old(self).nodes@[j].grad)
                    &&& final(self).nodes@[j].grad == resp
                },
    {
        let ghost g0 = self.nodes@;
        let ghost ord = to_ints(m.order@);
        proof {
            if m.pos as int == ord.len() {
                assert(false);
            }
        }
        let pos = m.pos;
        let ghost gpos = pos as int;
        let i = m.order[pos];
        proof {
            assert(i as int == ord[gpos]);
            assert(0 <= ord[gpos] < g0.len());
            assert(op_wf(g0[i as int].op, i as int));
        }
        let node = self.nodes[i];
        match node.op {
            Op::Leaf => {
                proof {
                    assert(false);
                }
                None
            },
            Op::Add(a, b) => {
                if m.phase == 0 {
                    proof {
                        assert(operands(g0[i as int].op)[0] == a as int);
                    }
                    self.write_operand(Ghost(ord), Ghost(gpos), i, a, resp);
                    m.phase = 1;
                    m.pending = Some(ArithOp::Add(self.nodes[b].grad, self.nodes[i].grad));
                } else {
                    proof {
                        assert(operands(g0[i as int].op)[1] == b as int);
                    }
                    self.write_operand(Ghost(ord), Ghost(gpos), i, b, resp);
                    self.advance_machine(m);
                }
                m.pending
            },
            Op::Mul(a, b) => {
                if m.phase == 0 {
                    m.phase = 1;
                    m.pending = Some(ArithOp::Add(self.nodes[a].grad, resp));
                } else if m.phase == 1 {
                    proof {
                        assert(operands(g0[i as int].op)[0] == a as int);
                    }
                    self.write_operand(Ghost(ord), Ghost(gpos), i, a, resp);
                    m.phase = 2;
                    m.pending = Some(ArithOp::Mul(self.nodes[a].value, self.nodes[i].grad));
                } else if m.phase == 2 {
                    m.phase = 3;
                    m.pending = Some(ArithOp::Add(self.nodes[b].grad, resp));
                } else {
                    proof {
                        assert(operands(g0[i as int].op)[1] == b as int);
                    }
                    self.write_operand(Ghost(ord), Ghost(gpos), i, b, resp);
                    self.advance_machine(m);
                }
                m.pending
            },
            Op::Pow(a, b) => {
                if m.phase == 0 {
                    m.phase = 1;
                    m.pending = Some(ArithOp::Powf(self.nodes[a].value, resp));
                } else if m.phase == 1 {
                    m.phase = 2;
                    m.pending = Some(ArithOp::Mul(self.nodes[b].value, resp));
                } else if m.phase == 2 {
                    m.phase = 3;
                    m.pending = Some(ArithOp::Mul(resp, self.nodes[i].grad));
                } else if m.phase == 3 {
                    m.phase = 4;
                    m.pending = Some(ArithOp::Add(self.nodes[a].grad, resp));
                } else {
                    proof {
                        assert(operands(g0[i as int].op)[0] == a as int);
                    }
                    self.write_operand(Ghost(ord), Ghost(gpos), i, a, resp);
                    self.advance_machine(m);
                }
                m.pending
            },
            Op::Tanh(a) => {
                if m.phase == 0 {
                    m.phase = 1;
                    m.pending = Some(ArithOp::Sub(ONE_BITS, resp));
                } else if m.phase == 1 {
                    m.phase = 2;
                    m.pending = Some(ArithOp::Mul(resp, self.nodes[i].grad));
                } else if m.phase == 2 {
                    m.phase = 3;
                    m.pending = Some(ArithOp::Add(self.nodes[a].grad, resp));
                } else {
                    proof {
                        assert(operands(g0[i as int].op)[0] == a as int);
                    }
                    self.write_operand(Ghost(ord), Ghost(gpos), i, a, resp);
                    self.advance_machine(m);
                }
                m.pending
            },
        }
    }
}

/// A backward traversal started at a leaf is already complete: the leaf is
/// the only reachable node, its schedule is the single-entry one, no request
/// is pending, and so no gradient beyond the seeded root is ever touched.
pub proof fn lemma_leaf_backward(g: Seq<Node>, root: int)
    requires
        wf_nodes(g),
        0 <= root < g.len(),
        is_leaf(g[root].op),
    ensures
        forall|j: int| #[trigger] reachable(g, root, j) <==> j == root,
        postorder(g, root, Seq::<int>::empty()) == seq![root],
        postorder(g, root, Seq::<int>::empty()).reverse() == seq![root],
        norm_pos(g, seq![root], 0) == 1,
        pending_at(g, seq![root], 1) == None::<ArithOp>,
{
    let e = Seq::<int>::empty();
    assert(!e.contains(root));
    assert(postorder(g, root, e) =~= seq![root]);
    assert(seq![root].reverse() =~= seq![root]);
    assert(norm_pos(g, seq![root], 0) == norm_pos(g, seq![root], 1));
}

} // verus!
