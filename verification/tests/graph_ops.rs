use scalargrad::{ArithOp, Graph, Value};

fn eval(op: ArithOp) -> u64 {
    match op {
        ArithOp::Add(a, b) => (f64::from_bits(a) + f64::from_bits(b)).to_bits(),
        ArithOp::Sub(a, b) => (f64::from_bits(a) - f64::from_bits(b)).to_bits(),
        ArithOp::Mul(a, b) => (f64::from_bits(a) * f64::from_bits(b)).to_bits(),
        ArithOp::Powf(a, b) => f64::from_bits(a).powf(f64::from_bits(b)).to_bits(),
        ArithOp::Tanh(a) => f64::from_bits(a).tanh().to_bits(),
    }
}

fn leaf(g: &mut Graph, x: f64) -> Value {
    g.from(x.to_bits())
}

fn op_add(g: &mut Graph, a: Value, b: Value) -> Value {
    let v = eval(g.add_request(a, b));
    g.add(a, b, v)
}

fn op_mul(g: &mut Graph, a: Value, b: Value) -> Value {
    let v = eval(g.mul_request(a, b));
    g.mul(a, b, v)
}

fn op_pow(g: &mut Graph, a: Value, b: Value) -> Value {
    let v = eval(g.pow_request(a, b));
    g.pow(a, b, v)
}

fn op_tanh(g: &mut Graph, a: Value) -> Value {
    let v = eval(g.tanh_request(a));
    g.tanh(a, v)
}

fn op_neg(g: &mut Graph, a: Value) -> Value {
    let p = eval(g.neg_request(a));
    g.neg(a, p)
}

fn op_sub(g: &mut Graph, a: Value, b: Value) -> Value {
    let np = eval(g.neg_request(b));
    let v = eval(ArithOp::Add(g.data(a), np));
    g.sub(a, b, np, v)
}

fn data_f(g: &Graph, v: Value) -> f64 {
    f64::from_bits(g.data(v))
}

fn grad_f(g: &Graph, v: Value) -> f64 {
    f64::from_bits(g.grad(v))
}

#[test]
fn leaf_has_value_and_zero_gradient() {
    let mut g = Graph::new();
    let v = leaf(&mut g, 3.5);
    assert_eq!(data_f(&g, v), 3.5);
    assert_eq!(grad_f(&g, v), 0.0);
}

#[test]
fn add_forward_value() {
    let mut g = Graph::new();
    let a = leaf(&mut g, 2.0);
    let b = leaf(&mut g, 3.0);
    let r = op_add(&mut g, a, b);
    assert_eq!(data_f(&g, r), 5.0);
    assert_eq!(grad_f(&g, r), 0.0);
}

#[test]
fn mul_forward_value() {
    let mut g = Graph::new();
    let a = leaf(&mut g, 2.0);
    let b = leaf(&mut g, 3.0);
    let r = op_mul(&mut g, a, b);
    assert_eq!(data_f(&g, r), 6.0);
}

#[test]
fn pow_forward_value() {
    let mut g = Graph::new();
    let a = leaf(&mut g, 2.0);
    let b = leaf(&mut g, 3.0);
    let r = op_pow(&mut g, a, b);
    assert_eq!(data_f(&g, r), 8.0);
}

#[test]
fn tanh_forward_value_at_zero() {
    let mut g = Graph::new();
    let a = leaf(&mut g, 0.0);
    let r = op_tanh(&mut g, a);
    assert_eq!(data_f(&g, r), 0.0);
}

#[test]
fn neg_is_multiplication_by_negative_one() {
    let mut g = Graph::new();
    let a = leaf(&mut g, 4.0);
    let before = g.len();
    let r = op_neg(&mut g, a);
    assert_eq!(data_f(&g, r), -4.0);
    // negation pushes the constant leaf and the product node
    assert_eq!(g.len(), before + 2);
}

#[test]
fn sub_forward_value() {
    let mut g = Graph::new();
    let a = leaf(&mut g, 5.0);
    let b = leaf(&mut g, 3.0);
    let before = g.len();
    let r = op_sub(&mut g, a, b);
    assert_eq!(data_f(&g, r), 2.0);
    // subtraction pushes the constant leaf, the negation and the sum
    assert_eq!(g.len(), before + 3);
}

#[test]
fn sum_of_sequence() {
    let mut g = Graph::new();
    let xs = vec![leaf(&mut g, 1.0), leaf(&mut g, 2.5), leaf(&mut g, 3.5)];
    let mut partials: Vec<u64> = Vec::new();
    let mut running = 0.0f64;
    for x in &xs {
        running += data_f(&g, *x);
        partials.push(running.to_bits());
    }
    let before = g.len();
    let s = g.sum(&xs, &partials);
    assert_eq!(data_f(&g, s), 7.0);
    assert_eq!(g.len(), before + 1 + xs.len());
}

#[test]
fn sum_of_nothing_is_zero_leaf() {
    let mut g = Graph::new();
    let xs: Vec<Value> = Vec::new();
    let partials: Vec<u64> = Vec::new();
    let s = g.sum(&xs, &partials);
    assert_eq!(data_f(&g, s), 0.0);
    assert_eq!(g.len(), 1);
}

#[test]
fn requests_carry_the_operand_values() {
    let mut g = Graph::new();
    let a = leaf(&mut g, 2.0);
    let b = leaf(&mut g, 3.0);
    assert_eq!(g.add_request(a, b), ArithOp::Add(2.0f64.to_bits(), 3.0f64.to_bits()));
    assert_eq!(g.mul_request(a, b), ArithOp::Mul(2.0f64.to_bits(), 3.0f64.to_bits()));
    assert_eq!(g.pow_request(a, b), ArithOp::Powf(2.0f64.to_bits(), 3.0f64.to_bits()));
    assert_eq!(g.tanh_request(a), ArithOp::Tanh(2.0f64.to_bits()));
    assert_eq!(g.neg_request(a), ArithOp::Mul(2.0f64.to_bits(), (-1.0f64).to_bits()));
}

#[test]
fn adjust_moves_value_by_step_times_gradient_and_keeps_gradient() {
    let mut g = Graph::new();
    let v = leaf(&mut g, 2.0);
    // give the leaf a gradient by running a traversal on it
    let (mut m, mut req) = g.backward_start(v);
    while let Some(op) = req {
        req = g.backward_step(&mut m, eval(op));
    }
    assert_eq!(grad_f(&g, v), 1.0);
    let product = eval(g.adjust_request(v, 0.5f64.to_bits()));
    let new_value = eval(g.adjust_value_request(v, product));
    g.adjust(v, new_value);
    assert_eq!(data_f(&g, v), 2.5);
    assert_eq!(grad_f(&g, v), 1.0);
}

#[test]
fn zero_grad_resets_and_is_idempotent() {
    let mut g = Graph::new();
    let v = leaf(&mut g, 2.0);
    let (mut m, mut req) = g.backward_start(v);
    while let Some(op) = req {
        req = g.backward_step(&mut m, eval(op));
    }
    assert_eq!(grad_f(&g, v), 1.0);
    g.zero_grad(v);
    assert_eq!(grad_f(&g, v), 0.0);
    g.zero_grad(v);
    assert_eq!(grad_f(&g, v), 0.0);
    assert_eq!(data_f(&g, v), 2.0);
}

#[test]
fn labels_attach_without_semantic_effect() {
    let mut g = Graph::new();
    let v = leaf(&mut g, 1.5);
    let w = g.add_label(v, String::from("b"));
    assert_eq!(w, v);
    assert_eq!(g.label(v), &Some(String::from("b")));
    assert_eq!(data_f(&g, v), 1.5);
    assert_eq!(grad_f(&g, v), 0.0);
}

#[test]
fn pow_of_negative_base_with_fractional_exponent_propagates_nan() {
    let mut g = Graph::new();
    let a = leaf(&mut g, -2.0);
    let b = leaf(&mut g, 0.5);
    let r = op_pow(&mut g, a, b);
    assert!(data_f(&g, r).is_nan());
}
