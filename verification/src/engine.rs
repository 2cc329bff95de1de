//! The computation-graph data model: nodes, operator tags, handles, and the
//! operation library that extends the graph.
//!
//! A [`Graph`] owns every node in an arena; a [`Value`] is a stable handle
//! (an index) into that arena. Node identity is the handle, never the node's
//! mutable content. A node's operands always carry indices strictly below
//! the node's own index, so the graph is acyclic by construction: no
//! constructor accepts a node that does not already exist, and none can make
//! a node refer to itself.
//!
//! Scalars are opaque 64-bit patterns. Every constructor that needs a scalar
//! result (the forward value of a new node) takes that result as an argument;
//! the matching `*_request` method states exactly which [`ArithOp`] the
//! caller is expected to evaluate for it. The driver that evaluates requests
//! ordinarily reads each `u64` as an IEEE-754 double-precision bit pattern.

use vstd::prelude::*;

verus! {

/// The 64-bit pattern that the double-precision interpretation reads as one.
pub const ONE_BITS: u64 = 0x3FF0_0000_0000_0000;

/// The 64-bit pattern that the double-precision interpretation reads as two.
pub const TWO_BITS: u64 = 0x4000_0000_0000_0000;

/// The 64-bit pattern that the double-precision interpretation reads as
/// negative one.
pub const NEG_ONE_BITS: u64 = 0xBFF0_0000_0000_0000;

/// The 64-bit pattern that the double-precision interpretation reads as zero.
pub const ZERO_BITS: u64 = 0;

/// One scalar arithmetic request to the driver: the payloads are the exact
/// operand patterns, and the driver answers with the operation's result.
#[derive(Clone, Copy, PartialEq, Eq, Structural, Debug)]
pub enum ArithOp {
    /// The sum of the two operands.
    Add(u64, u64),
    /// The difference of the two operands (first minus second).
    Sub(u64, u64),
    /// The product of the two operands.
    Mul(u64, u64),
    /// The first operand raised to the power of the second.
    Powf(u64, u64),
    /// The hyperbolic tangent of the operand.
    Tanh(u64),
}

/// The operator tag of a node, carrying the operand handles with the exact
/// arity the operator takes. A mismatched arity is unrepresentable.
#[derive(Clone, Copy, Debug)]
pub enum Op {
    /// An input or trainable parameter: no operands.
    Leaf,
    /// The sum of two operands.
    Add(usize, usize),
    /// The product of two operands.
    Mul(usize, usize),
    /// The first operand raised to the power of the second. The exponent
    /// operand receives no gradient contribution by design.
    Pow(usize, usize),
    /// The hyperbolic tangent of one operand.
    Tanh(usize),
}

/// One scalar quantity in the graph: its current value, its accumulated
/// gradient, and the operator that produced it.
#[derive(Clone, Copy, Debug)]
pub struct Node {
    /// The node's scalar value, set at construction and mutated thereafter
    /// only by [`Graph::adjust`].
    pub value: u64,
    /// The accumulated partial derivative of a traversal's root with respect
    /// to this node; starts at [`ZERO_BITS`] and is only ever added to by
    /// the backward engine, except for the explicit reset.
    pub grad: u64,
    /// The operator that produced this node, with its operand handles.
    pub op: Op,
}

/// A stable handle to one node of a [`Graph`]; the handle, not the node's
/// content, is the node's identity.
#[derive(Clone, Copy, PartialEq, Eq, Structural, Debug)]
pub struct Value {
    /// The index of the node in the graph's arena.
    pub id: usize,
}

/// The arena that owns every node of one computation graph.
pub struct Graph {
    /// The nodes, in construction order; a node's operands always have
    /// smaller indices than the node itself.
    pub nodes: Vec<Node>,
    /// An optional debug label per node; no semantic effect.
    pub labels: Vec<Option<String>>,
}

/// Whether an operator sitting at index `i` refers only to nodes constructed
/// strictly before it.
pub open spec fn op_wf(op: Op, i: int) -> bool {
    match op {
        Op::Leaf => true,
        Op::Add(a, b) => a < i && b < i,
        Op::Mul(a, b) => a < i && b < i,
        Op::Pow(a, b) => a < i && b < i,
        Op::Tanh(a) => a < i,
    }
}

/// Whether a node sequence is a well-formed arena: every operand edge points
/// strictly backwards, so the graph is acyclic.
pub open spec fn wf_nodes(g: Seq<Node>) -> bool {
    forall|i: int| 0 <= i < g.len() ==> op_wf(#[trigger] g[i].op, i)
}

/// The node sequence with node `j`'s gradient reset to zero; value and
/// operator stay as they were.
pub open spec fn zeroed(g: Seq<Node>, j: int) -> Seq<Node> {
    g.update(j, Node { value: g[j].value, grad: ZERO_BITS, op: g[j].op })
}

/// Resetting a gradient is idempotent: resetting it a second time changes
/// nothing, whatever the gradient held before the first reset.
pub proof fn lemma_zero_grad_idempotent(g: Seq<Node>, j: int)
    requires
        0 <= j < g.len(),
    ensures
        zeroed(zeroed(g, j), j) == zeroed(g, j),
{
    assert(zeroed(zeroed(g, j), j) =~= zeroed(g, j));
}

impl Graph {
    /// The graph's well-formedness: acyclic operand edges and one label slot
    /// per node. Every constructor establishes it and every method preserves
    /// it.
    pub open spec fn wf(&self) -> bool {
        &&& wf_nodes(self.nodes@)
        &&& self.labels@.len() == self.nodes@.len()
    }

    /// Creates an empty graph.
    pub fn new() -> (g: Graph)
        ensures
            g.wf(),
            g.nodes@.len() == 0,
    {
        Graph { nodes: Vec::new(), labels: Vec::new() }
    }

    /// The number of nodes in the graph.
    pub fn len(&self) -> (n: usize)
        ensures
            n == self.nodes@.len(),
    {
        self.nodes.len()
    }

    /// Creates a leaf node holding `data`, with gradient zero, no operator
    /// and no operands.
    pub fn from(&mut self, data: u64) -> (v: Value)
        requires
            old(self).wf(),
        ensures
            final(self).wf(),
            v.id == old(self).nodes@.len(),
            final(self).nodes@ == old(self).nodes@.push((Node { value: data, grad: ZERO_BITS, op: Op::Leaf })),
            final(self).labels@ == old(self).labels@.push(None::<String>),
    {
        let v = Value { id: self.nodes.len() };
        self.nodes.push(Node { value: data, grad: ZERO_BITS, op: Op::Leaf });
        self.labels.push(None);
        v
    }

    /// The request whose answer is the forward value of `self.add(a, b, _)`:
    /// the sum of the operands' values.
    pub fn add_request(&self, a: Value, b: Value) -> (r: ArithOp)
        requires
            a.id < self.nodes@.len(),
            b.id < self.nodes@.len(),
        ensures
            r == ArithOp::Add(self.nodes@[a.id as int].value, self.nodes@[b.id as int].value),
    {
        ArithOp::Add(self.nodes[a.id].value, self.nodes[b.id].value)
    }

    /// Creates the sum node of `a` and `b`. `value` must be the driver's
    /// answer to [`Graph::add_request`] for the same operands.
    pub fn add(&mut self, a: Value, b: Value, value: u64) -> (v: Value)
        requires
            old(self).wf(),
            a.id < old(self).nodes@.len(),
            b.id < old(self).nodes@.len(),
        ensures
            final(self).wf(),
            v.id == old(self).nodes@.len(),
            final(self).nodes@ == old(self).nodes@.push((Node { value, grad: ZERO_BITS, op: Op::Add(a.id, b.id) })),
            final(self).labels@ == old(self).labels@.push(None::<String>),
    {
        let v = Value { id: self.nodes.len() };
        self.nodes.push(Node { value, grad: ZERO_BITS, op: Op::Add(a.id, b.id) });
        self.labels.push(None);
        v
    }

    /// The request whose answer is the forward value of `self.mul(a, b, _)`:
    /// the product of the operands' values.
    pub fn mul_request(&self, a: Value, b: Value) -> (r: ArithOp)
        requires
            a.id < self.nodes@.len(),
            b.id < self.nodes@.len(),
        ensures
            r == ArithOp::Mul(self.nodes@[a.id as int].value, self.nodes@[b.id as int].value),
    {
        ArithOp::Mul(self.nodes[a.id].value, self.nodes[b.id].value)
    }

    /// Creates the product node of `a` and `b`. `value` must be the driver's
    /// answer to [`Graph::mul_request`] for the same operands.
    pub fn mul(&mut self, a: Value, b: Value, value: u64) -> (v: Value)
        requires
            old(self).wf(),
            a.id < old(self).nodes@.len(),
            b.id < old(self).nodes@.len(),
        ensures
            final(self).wf(),
            v.id == old(self).nodes@.len(),
            final(self).nodes@ == old(self).nodes@.push((Node { value, grad: ZERO_BITS, op: Op::Mul(a.id, b.id) })),
            final(self).labels@ == old(self).labels@.push(None::<String>),
    {
        let v = Value { id: self.nodes.len() };
        self.nodes.push(Node { value, grad: ZERO_BITS, op: Op::Mul(a.id, b.id) });
        self.labels.push(None);
        v
    }

    /// The request whose answer is the forward value of `self.pow(a, b, _)`:
    /// the base's value raised to the exponent's value.
    pub fn pow_request(&self, a: Value, b: Value) -> (r: ArithOp)
        requires
            a.id < self.nodes@.len(),
            b.id < self.nodes@.len(),
        ensures
            r == ArithOp::Powf(self.nodes@[a.id as int].value, self.nodes@[b.id as int].value),
    {
        ArithOp::Powf(self.nodes[a.id].value, self.nodes[b.id].value)
    }

    /// Creates the power node with base `a` and exponent `b`. `value` must be
    /// the driver's answer to [`Graph::pow_request`] for the same operands.
    pub fn pow(&mut self, a: Value, b: Value, value: u64) -> (v: Value)
        requires
            old(self).wf(),
            a.id < old(self).nodes@.len(),
            b.id < old(self).nodes@.len(),
        ensures
            final(self).wf(),
            v.id == old(self).nodes@.len(),
            final(self).nodes@ == old(self).nodes@.push((Node { value, grad: ZERO_BITS, op: Op::Pow(a.id, b.id) })),
            final(self).labels@ == old(self).labels@.push(None::<String>),
    {
        let v = Value { id: self.nodes.len() };
        self.nodes.push(Node { value, grad: ZERO_BITS, op: Op::Pow(a.id, b.id) });
        self.labels.push(None);
        v
    }

    /// The request whose answer is the forward value of `self.tanh(a, _)`:
    /// the hyperbolic tangent of the operand's value.
    pub fn tanh_request(&self, a: Value) -> (r: ArithOp)
        requires
            a.id < self.nodes@.len(),
        ensures
            r == ArithOp::Tanh(self.nodes@[a.id as int].value),
    {
        ArithOp::Tanh(self.nodes[a.id].value)
    }

    /// Creates the hyperbolic-tangent node of `a`. `value` must be the
    /// driver's answer to [`Graph::tanh_request`] for the same operand.
    pub fn tanh(&mut self, a: Value, value: u64) -> (v: Value)
        requires
            old(self).wf(),
            a.id < old(self).nodes@.len(),
        ensures
            final(self).wf(),
            v.id == old(self).nodes@.len(),
            final(self).nodes@ == old(self).nodes@.push((Node { value, grad: ZERO_BITS, op: Op::Tanh(a.id) })),
            final(self).labels@ == old(self).labels@.push(None::<String>),
    {
        let v = Value { id: self.nodes.len() };
        self.nodes.push(Node { value, grad: ZERO_BITS, op: Op::Tanh(a.id) });
        self.labels.push(None);
        v
    }

    /// The request whose answer is the forward value of `self.neg(a, _)`:
    /// the operand's value times negative one.
    pub fn neg_request(&self, a: Value) -> (r: ArithOp)
        requires
            a.id < self.nodes@.len(),
        ensures
            r == ArithOp::Mul(self.nodes@[a.id as int].value, NEG_ONE_BITS),
    {
        ArithOp::Mul(self.nodes[a.id].value, NEG_ONE_BITS)
    }

    /// Negation, expressed as multiplication by a fresh leaf holding negative
    /// one: pushes that leaf and then the product node. `product` must be the
    /// driver's answer to [`Graph::neg_request`] for `a`.
    pub fn neg(&mut self, a: Value, product: u64) -> (v: Value)
        requires
            old(self).wf(),
            a.id < old(self).nodes@.len(),
        ensures
            final(self).wf(),
            v.id == old(self).nodes@.len() + 1,
            final(self).nodes@ == old(self).nodes@
                .push((Node { value: NEG_ONE_BITS, grad: ZERO_BITS, op: Op::Leaf }))
                .push((Node { value: product, grad: ZERO_BITS, op: Op::Mul(a.id, old(self).nodes@.len() as usize) })),
            final(self).labels@ == old(self).labels@.push(None::<String>).push(None::<String>),
    {
        let neg_one = self.from(NEG_ONE_BITS);
        self.mul(a, neg_one, product)
    }

    /// Subtraction, expressed as `a` plus the negation of `b`: pushes the
    /// negative-one leaf, the product node for the negation, and the sum
    /// node. `neg_product` must be the driver's answer to
    /// [`Graph::neg_request`] for `b`, and `value` the answer to
    /// `ArithOp::Add(self.data(a), neg_product)`.
    pub fn sub(&mut self, a: Value, b: Value, neg_product: u64, value: u64) -> (v: Value)
        requires
            old(self).wf(),
            a.id < old(self).nodes@.len(),
            b.id < old(self).nodes@.len(),
        ensures
            final(self).wf(),
            v.id == old(self).nodes@.len() + 2,
            final(self).nodes@ == old(self).nodes@
                .push((Node { value: NEG_ONE_BITS, grad: ZERO_BITS, op: Op::Leaf }))
                .push((Node { value: neg_product, grad: ZERO_BITS, op: Op::Mul(b.id, old(self).nodes@.len() as usize) }))
                .push((Node { value, grad: ZERO_BITS, op: Op::Add(a.id, (old(self).nodes@.len() + 1) as usize) })),
            final(self).labels@ == old(self).labels@
                .push(None::<String>).push(None::<String>).push(None::<String>),
    {
        let neg_b = self.neg(b, neg_product);
        self.add(a, neg_b, value)
    }

    /// Sums a sequence of nodes by repeated addition starting from a fresh
    /// zero leaf, recording a graph edge for every intermediate sum.
    /// `partials[i]` must be the driver's answer to
    /// `ArithOp::Add(r_i, self.data(xs[i]))` where `r_i` is the running value
    /// so far ([`ZERO_BITS`] at the start, then `partials[i - 1]`).
    pub fn sum(&mut self, xs: &Vec<Value>, partials: &Vec<u64>) -> (v: Value)
        requires
            old(self).wf(),
            partials@.len() == xs@.len(),
            forall|i: int| 0 <= i < xs@.len() ==> (#[trigger] xs@[i]).id < old(self).nodes@.len(),
        ensures
            final(self).wf(),
            v.id == old(self).nodes@.len() + xs@.len(),
            final(self).nodes@.len() == old(self).nodes@.len() + 1 + xs@.len(),
            final(self).nodes@.subrange(0, old(self).nodes@.len() as int) == old(self).nodes@,
            final(self).nodes@[old(self).nodes@.len() as int]
                == (Node { value: ZERO_BITS, grad: ZERO_BITS, op: Op::Leaf }),
            forall|i: int| 0 <= i < xs@.len()
                ==> final(self).nodes@[old(self).nodes@.len() + 1 + i]
                    == (Node {
                        value: partials@[i],
                        grad: ZERO_BITS,
                        op: Op::Add((old(self).nodes@.len() + i) as usize, xs@[i].id),
                    }),
            final(self).labels@.len() == final(self).nodes@.len(),
            forall|i: int| 0 <= i < old(self).labels@.len()
                ==> final(self).labels@[i] == old(self).labels@[i],
    {
        let ghost base = self.nodes@.len() as int;
        let mut acc = self.from(ZERO_BITS);
        let n = xs.len();
        let mut i: usize = 0;
        while i < n
            invariant
                self.wf(),
                old(self).wf(),
                old(self).nodes@.len() == base,
                old(self).labels@.len() == base,
                n == xs@.len(),
                partials@.len() == xs@.len(),
                forall|k: int| 0 <= k < xs@.len() ==> (#[trigger] xs@[k]).id < base,
                0 <= i <= n,
                acc.id == base + i,
                self.nodes@.len() == base + 1 + i,
                self.nodes@.subrange(0, base) == old(self).nodes@,
                self.nodes@[base] == (Node { value: ZERO_BITS, grad: ZERO_BITS, op: Op::Leaf }),
                forall|k: int| 0 <= k < i
                    ==> self.nodes@[base + 1 + k]
                        == (Node {
                            value: partials@[k],
                            grad: ZERO_BITS,
                            op: Op::Add((base + k) as usize, xs@[k].id),
                        }),
                self.labels@.len() == self.nodes@.len(),
                forall|k: int| 0 <= k < old(self).labels@.len()
                    ==> self.labels@[k] == old(self).labels@[k],
            decreases n - i,
        {
            let ghost prev = self.nodes@;
            acc = self.add(acc, xs[i], partials[i]);
            proof {
                assert(self.nodes@.subrange(0, base) == prev.subrange(0, base));
            }
            i = i + 1;
        }
        acc
    }

    /// The node's current value.
    pub fn data(&self, v: Value) -> (r: u64)
        requires
            v.id < self.nodes@.len(),
        ensures
            r == self.nodes@[v.id as int].value,
    {
        self.nodes[v.id].value
    }

    /// The node's accumulated gradient.
    pub fn grad(&self, v: Value) -> (r: u64)
        requires
            v.id < self.nodes@.len(),
        ensures
            r == self.nodes@[v.id as int].grad,
    {
        self.nodes[v.id].grad
    }

    /// Resets the node's gradient to zero, whatever it was; idempotent, and
    /// no other node or field is touched.
    pub fn zero_grad(&mut self, v: Value)
        requires
            old(self).wf(),
            v.id < old(self).nodes@.len(),
        ensures
            final(self).wf(),
            final(self).nodes@ == zeroed(old(self).nodes@, v.id as int),
            final(self).labels@ == old(self).labels@,
    {
        let node = self.nodes[v.id];
        self.nodes[v.id] = Node { value: node.value, grad: ZERO_BITS, op: node.op };
    }

    /// The request whose answer is the step to add onto the node's value in
    /// [`Graph::adjust`]: the step factor times the node's gradient.
    pub fn adjust_request(&self, v: Value, factor: u64) -> (r: ArithOp)
        requires
            v.id < self.nodes@.len(),
        ensures
            r == ArithOp::Mul(factor, self.nodes@[v.id as int].grad),
    {
        ArithOp::Mul(factor, self.nodes[v.id].grad)
    }

    /// The request whose answer is the node's adjusted value: the node's
    /// current value plus `product`, the driver's answer to
    /// [`Graph::adjust_request`].
    pub fn adjust_value_request(&self, v: Value, product: u64) -> (r: ArithOp)
        requires
            v.id < self.nodes@.len(),
        ensures
            r == ArithOp::Add(self.nodes@[v.id as int].value, product),
    {
        ArithOp::Add(self.nodes[v.id].value, product)
    }

    /// Installs the adjusted value computed through [`Graph::adjust_request`]
    /// and [`Graph::adjust_value_request`]. The gradient and every other node
    /// are unchanged.
    pub fn adjust(&mut self, v: Value, value: u64)
        requires
            old(self).wf(),
            v.id < old(self).nodes@.len(),
        ensures
            final(self).wf(),
            final(self).nodes@ == old(self).nodes@.update(
                v.id as int,
                (Node {
                    value,
                    grad: old(self).nodes@[v.id as int].grad,
                    op: old(self).nodes@[v.id as int].op,
                }),
            ),
            final(self).labels@ == old(self).labels@,
    {
        let node = self.nodes[v.id];
        self.nodes[v.id] = Node { value, grad: node.grad, op: node.op };
    }

    /// Attaches a debug label to the node and hands the same handle back; no
    /// semantic effect on values or gradients.
    pub fn add_label(&mut self, v: Value, label: String) -> (r: Value)
        requires
            old(self).wf(),
            v.id < old(self).nodes@.len(),
        ensures
            final(self).wf(),
            r == v,
            final(self).nodes@ == old(self).nodes@,
            final(self).labels@ == old(self).labels@.update(v.id as int, Some(label)),
    {
        self.labels[v.id] = Some(label);
        v
    }

    /// The node's label, if one was attached.
    pub fn label(&self, v: Value) -> (r: &Option<String>)
        requires
            self.wf(),
            v.id < self.nodes@.len(),
        ensures
            *r == self.labels@[v.id as int],
    {
        &self.labels[v.id]
    }
}

} // verus!
