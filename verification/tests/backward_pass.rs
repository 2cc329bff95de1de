use scalargrad::{ArithOp, Graph, Value};

fn eval(op: ArithOp) -> u64 {
    match op {
        ArithOp::Add(a, b) => (f64::from_bits(a) + f64::from_bits(b)).to_bits(),
        ArithOp::Sub(a, b) => (f64::from_bits(a) - f64::from_bits(b)).to_bits(),
        ArithOp::Mul(a, b) => (f64::from_bits(a) * f64::from_bits(b)).to_bits(),
        ArithOp::Powf(a, b) => f64::from_bits(a).powf(f64::from_bits(b)).to_bits(),
        ArithOp::Tanh(a) => f64::from_bits(a).tanh().to_bits(),
    }
}

fn backward(g: &mut Graph, root: Value) {
    let (mut m, mut req) = g.backward_start(root);
    while let Some(op) = req {
        req = g.backward_step(&mut m, eval(op));
    }
}

fn leaf(g: &mut Graph, x: f64) -> Value {
    g.from(x.to_bits())
}

fn op_add(g: &mut Graph, a: Value, b: Value) -> Value {
    let v = eval(g.add_request(a, b));
    g.add(a, b, v)
}

fn op_mul(g: &mut Graph, a: Value, b: Value) -> Value {
    let v = eval(g.mul_request(a, b));
    g.mul(a, b, v)
}

fn op_pow(g: &mut Graph, a: Value, b: Value) -> Value {
    let v = eval(g.pow_request(a, b));
    g.pow(a, b, v)
}

fn op_tanh(g: &mut Graph, a: Value) -> Value {
    let v = eval(g.tanh_request(a));
    g.tanh(a, v)
}

fn data_f(g: &Graph, v: Value) -> f64 {
    f64::from_bits(g.data(v))
}

fn grad_f(g: &Graph, v: Value) -> f64 {
    f64::from_bits(g.grad(v))
}

#[test]
fn backward_on_a_leaf_touches_only_that_leaf() {
    let mut g = Graph::new();
    let v = leaf(&mut g, 7.0);
    let other = leaf(&mut g, 9.0);
    let (_m, first) = g.backward_start(v);
    // a lone leaf has no rule to run: the traversal is complete at once
    assert_eq!(first, None);
    assert_eq!(grad_f(&g, v), 1.0);
    assert_eq!(grad_f(&g, other), 0.0);
    assert_eq!(data_f(&g, v), 7.0);
}

#[test]
fn add_backward_gives_both_operands_gradient_one() {
    let mut g = Graph::new();
    let a = leaf(&mut g, 2.0);
    let b = leaf(&mut g, 3.0);
    let r = op_add(&mut g, a, b);
    assert_eq!(data_f(&g, r), 5.0);
    backward(&mut g, r);
    assert_eq!(grad_f(&g, a), 1.0);
    assert_eq!(grad_f(&g, b), 1.0);
    assert_eq!(grad_f(&g, r), 1.0);
}

#[test]
fn mul_backward_swaps_operand_values() {
    let mut g = Graph::new();
    let a = leaf(&mut g, 2.0);
    let b = leaf(&mut g, 3.0);
    let r = op_mul(&mut g, a, b);
    assert_eq!(data_f(&g, r), 6.0);
    backward(&mut g, r);
    assert_eq!(grad_f(&g, a), 3.0);
    assert_eq!(grad_f(&g, b), 2.0);
}

#[test]
fn pow_backward_differentiates_the_base_only() {
    let mut g = Graph::new();
    let a = leaf(&mut g, 2.0);
    let b = leaf(&mut g, 3.0);
    let r = op_pow(&mut g, a, b);
    assert_eq!(data_f(&g, r), 8.0);
    backward(&mut g, r);
    // d(a^b)/da == b * a^(b - 1) == 3 * 4 == 12; the exponent gets nothing
    assert_eq!(grad_f(&g, a), 12.0);
    assert_eq!(grad_f(&g, b), 0.0);
}

#[test]
fn tanh_backward_at_zero_gives_gradient_one() {
    let mut g = Graph::new();
    let a = leaf(&mut g, 0.0);
    let r = op_tanh(&mut g, a);
    assert_eq!(data_f(&g, r), 0.0);
    backward(&mut g, r);
    assert_eq!(grad_f(&g, a), 1.0);
}

#[test]
fn fan_out_accumulates_every_usage() {
    let mut g = Graph::new();
    let w = leaf(&mut g, 10.0);
    let two = leaf(&mut g, 2.0);
    let three = leaf(&mut g, 3.0);
    let p1 = op_mul(&mut g, w, two);
    let p2 = op_mul(&mut g, w, three);
    let loss = op_add(&mut g, p1, p2);
    backward(&mut g, loss);
    // both usages contribute: 2 + 3, not just one of them
    assert_eq!(grad_f(&g, w), 5.0);
    assert_eq!(grad_f(&g, two), 10.0);
    assert_eq!(grad_f(&g, three), 10.0);
}

#[test]
fn aliased_operands_contribute_twice() {
    let mut g = Graph::new();
    let a = leaf(&mut g, 3.0);
    let r = op_add(&mut g, a, a);
    backward(&mut g, r);
    assert_eq!(grad_f(&g, a), 2.0);
}

#[test]
fn repeated_backward_accumulates_additively() {
    let mut g = Graph::new();
    let a = leaf(&mut g, 2.0);
    let b = leaf(&mut g, 3.0);
    let r = op_add(&mut g, a, b);
    backward(&mut g, r);
    backward(&mut g, r);
    assert_eq!(grad_f(&g, a), 2.0);
    assert_eq!(grad_f(&g, b), 2.0);
    // the root's own gradient is reseeded, not accumulated
    assert_eq!(grad_f(&g, r), 1.0);
}

#[test]
fn backward_after_zero_grad_reproduces_the_gradient() {
    let mut g = Graph::new();
    let a = leaf(&mut g, 2.0);
    let b = leaf(&mut g, 3.0);
    let r = op_mul(&mut g, a, b);
    backward(&mut g, r);
    g.zero_grad(a);
    g.zero_grad(b);
    g.zero_grad(r);
    backward(&mut g, r);
    assert_eq!(grad_f(&g, a), 3.0);
    assert_eq!(grad_f(&g, b), 2.0);
}

#[test]
fn backward_leaves_values_untouched() {
    let mut g = Graph::new();
    let a = leaf(&mut g, 2.0);
    let b = leaf(&mut g, 3.0);
    let r = op_mul(&mut g, a, b);
    backward(&mut g, r);
    assert_eq!(data_f(&g, a), 2.0);
    assert_eq!(data_f(&g, b), 3.0);
    assert_eq!(data_f(&g, r), 6.0);
}

#[test]
fn unreachable_nodes_are_not_affected() {
    let mut g = Graph::new();
    let a = leaf(&mut g, 2.0);
    let b = leaf(&mut g, 3.0);
    let r = op_add(&mut g, a, b);
    let lone = leaf(&mut g, 4.0);
    let other = op_mul(&mut g, lone, lone);
    backward(&mut g, r);
    assert_eq!(grad_f(&g, lone), 0.0);
    assert_eq!(grad_f(&g, other), 0.0);
}

#[test]
fn single_neuron_forward_and_backward() {
    // weights [1, -1], bias 0, inputs [1, 1]:
    // tanh(1*1 + (-1)*1 + 0) == tanh(0) == 0
    let mut g = Graph::new();
    let w1 = leaf(&mut g, 1.0);
    let w2 = leaf(&mut g, -1.0);
    let b = leaf(&mut g, 0.0);
    let x1 = leaf(&mut g, 1.0);
    let x2 = leaf(&mut g, 1.0);
    let p1 = op_mul(&mut g, w1, x1);
    let p2 = op_mul(&mut g, w2, x2);
    let s1 = op_add(&mut g, p1, p2);
    let s2 = op_add(&mut g, b, s1);
    let out = op_tanh(&mut g, s2);
    assert_eq!(data_f(&g, out), 0.0);
    backward(&mut g, out);
    // tanh'(0) == 1, so each weight's gradient is its input's value
    assert_eq!(grad_f(&g, w1), 1.0);
    assert_eq!(grad_f(&g, w2), 1.0);
    assert_eq!(grad_f(&g, b), 1.0);
    assert_eq!(grad_f(&g, x1), 1.0);
    assert_eq!(grad_f(&g, x2), -1.0);
}

#[test]
fn deep_chain_backward() {
    // ((x * y) + y) * x with x == 2, y == 3: value 18
    let mut g = Graph::new();
    let x = leaf(&mut g, 2.0);
    let y = leaf(&mut g, 3.0);
    let xy = op_mul(&mut g, x, y);
    let s = op_add(&mut g, xy, y);
    let r = op_mul(&mut g, s, x);
    assert_eq!(data_f(&g, r), 18.0);
    backward(&mut g, r);
    // dr/dx == y*x + s == 6 + 9 == 15; dr/dy == (x + 1)*x == 6
    assert_eq!(grad_f(&g, x), 15.0);
    assert_eq!(grad_f(&g, y), 6.0);
}

fn op_neg(g: &mut Graph, a: Value) -> Value {
    let p = eval(g.neg_request(a));
    g.neg(a, p)
}

fn op_sub(g: &mut Graph, a: Value, b: Value) -> Value {
    let np = eval(g.neg_request(b));
    let v = eval(ArithOp::Add(g.data(a), np));
    g.sub(a, b, np, v)
}

#[test]
fn sub_backward_gives_plus_and_minus_one() {
    let mut g = Graph::new();
    let a = leaf(&mut g, 5.0);
    let b = leaf(&mut g, 3.0);
    let r = op_sub(&mut g, a, b);
    assert_eq!(data_f(&g, r), 2.0);
    backward(&mut g, r);
    assert_eq!(grad_f(&g, a), 1.0);
    assert_eq!(grad_f(&g, b), -1.0);
}

#[test]
fn neg_backward_gives_minus_one() {
    let mut g = Graph::new();
    let a = leaf(&mut g, 4.0);
    let r = op_neg(&mut g, a);
    assert_eq!(data_f(&g, r), -4.0);
    backward(&mut g, r);
    assert_eq!(grad_f(&g, a), -1.0);
}

#[test]
fn sum_backward_gives_each_element_gradient_one() {
    let mut g = Graph::new();
    let xs = vec![leaf(&mut g, 1.0), leaf(&mut g, 2.5), leaf(&mut g, 3.5)];
    let mut partials: Vec<u64> = Vec::new();
    let mut running = 0.0f64;
    for x in &xs {
        running += data_f(&g, *x);
        partials.push(running.to_bits());
    }
    let s = g.sum(&xs, &partials);
    assert_eq!(data_f(&g, s), 7.0);
    backward(&mut g, s);
    for x in &xs {
        assert_eq!(grad_f(&g, *x), 1.0);
    }
}

#[test]
fn diamond_graph_settles_gradients_in_order() {
    // s == x + x is consumed twice by r == s * s; the engine must settle
    // s's gradient before propagating it into x
    let mut g = Graph::new();
    let x = leaf(&mut g, 3.0);
    let s = op_add(&mut g, x, x);
    let r = op_mul(&mut g, s, s);
    assert_eq!(data_f(&g, r), 36.0);
    backward(&mut g, r);
    assert_eq!(grad_f(&g, s), 12.0);
    assert_eq!(grad_f(&g, x), 24.0);
}
