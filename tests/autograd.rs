use micrograd_rs::engine::{Graph, Value};
use micrograd_rs::nn::{Layer, Neuron, MLP};
use micrograd_rs::op::Op;
use micrograd_rs::scalar::Scalar;

#[derive(Clone, Copy, Debug, PartialEq)]
struct F(f64);

impl Scalar for F {
    fn spec_zero() -> F {
        F(0.0)
    }
    fn spec_one() -> F {
        F(1.0)
    }
    fn spec_add(self, other: F) -> F {
        F(self.0 + other.0)
    }
    fn spec_sub(self, other: F) -> F {
        F(self.0 - other.0)
    }
    fn spec_mul(self, other: F) -> F {
        F(self.0 * other.0)
    }
    fn spec_neg(self) -> F {
        F(-self.0)
    }
    fn spec_exp(self) -> F {
        F(self.0.exp())
    }
    fn spec_powf(self, k: F) -> F {
        F(self.0.powf(k.0))
    }
    fn spec_tanh(self) -> F {
        F(self.0.tanh())
    }
    fn spec_relu(self) -> F {
        F(self.0.max(0.0))
    }
    fn spec_is_positive(self) -> bool {
        self.0 > 0.0
    }
    fn zero() -> F {
        F::spec_zero()
    }
    fn one() -> F {
        F::spec_one()
    }
    fn add(self, other: F) -> F {
        self.spec_add(other)
    }
    fn sub(self, other: F) -> F {
        self.spec_sub(other)
    }
    fn mul(self, other: F) -> F {
        self.spec_mul(other)
    }
    fn neg(self) -> F {
        self.spec_neg()
    }
    fn exp(self) -> F {
        self.spec_exp()
    }
    fn powf(self, k: F) -> F {
        self.spec_powf(k)
    }
    fn tanh(self) -> F {
        self.spec_tanh()
    }
    fn relu(self) -> F {
        self.spec_relu()
    }
    fn is_positive(self) -> bool {
        self.spec_is_positive()
    }
}

fn leaf(g: &mut Graph<F>, x: f64) -> Value {
    Value::new(g, F(x))
}

fn data(g: &Graph<F>, v: Value) -> f64 {
    v.data(g).0
}

fn grad(g: &Graph<F>, v: Value) -> f64 {
    v.grad(g).0
}

fn close(a: f64, b: f64, tol: f64) -> bool {
    (a - b).abs() <= tol
}

#[test]
fn add_two_leaves_then_backward() {
    let mut g = Graph::new();
    let x = leaf(&mut g, 1.0);
    let y = leaf(&mut g, 2.0);
    let z = x.add(&mut g, y);
    z.backward(&mut g);
    assert_eq!(data(&g, z), 3.0);
    assert_eq!(grad(&g, z), 1.0);
    assert_eq!(grad(&g, x), 1.0);
    assert_eq!(grad(&g, y), 1.0);
}

#[test]
fn reference_expression_values() {
    let mut g = Graph::new();
    let a = leaf(&mut g, -4.0);
    let b = leaf(&mut g, 2.0);
    let mut c = a.add(&mut g, b);
    let ab = a.mul(&mut g, b);
    let b3 = b.pow(&mut g, F(3.0));
    let mut d = ab.add(&mut g, b3);
    let cc = c.add(&mut g, c);
    c = cc.add_scalar(&mut g, F(1.0));
    let c1 = c.add_scalar(&mut g, F(1.0));
    let c1c = c1.add(&mut g, c);
    let na = a.neg(&mut g);
    c = c1c.add(&mut g, na);
    let d2 = d.mul_scalar(&mut g, F(2.0));
    let dd2 = d.add(&mut g, d2);
    let ba = b.add(&mut g, a);
    let rba = ba.relu(&mut g);
    d = dd2.add(&mut g, rba);
    let d3 = Value::scalar_mul(F(3.0), &mut g, d);
    let dd3 = d.add(&mut g, d3);
    let bma = b.sub(&mut g, a);
    let rbma = bma.relu(&mut g);
    d = dd3.add(&mut g, rbma);
    let e = c.sub(&mut g, d);
    let f = e.pow(&mut g, F(2.0));
    let mut out = f.div_scalar(&mut g, F(2.0));
    let ten_over_f = Value::scalar_div(F(10.0), &mut g, f);
    out = out.add(&mut g, ten_over_f);
    out.backward(&mut g);
    assert!(close(data(&g, out), 24.7041, 1e-4));
    assert!(close(grad(&g, a), 138.8338, 1e-4));
    assert!(close(grad(&g, b), 645.5773, 1e-4));
}

#[test]
fn diamond_square_plus_self() {
    let mut g = Graph::new();
    let x = leaf(&mut g, 3.0);
    let xx = x.mul(&mut g, x);
    let y = xx.add(&mut g, x);
    y.backward(&mut g);
    assert_eq!(data(&g, y), 12.0);
    assert_eq!(grad(&g, x), 7.0);
}

#[test]
fn second_backward_doubles_interior_gradients() {
    let mut g = Graph::new();
    let x = leaf(&mut g, 3.0);
    let xx = x.mul(&mut g, x);
    let y = xx.add(&mut g, x);
    y.backward(&mut g);
    assert_eq!(grad(&g, xx), 1.0);
    assert_eq!(grad(&g, x), 7.0);
    y.backward(&mut g);
    assert_eq!(grad(&g, y), 1.0);
    assert_eq!(grad(&g, xx), 2.0);
    assert_eq!(grad(&g, x), 7.0 + 1.0 + 2.0 * 2.0 * 3.0);
}

#[test]
fn operand_counts_match_operators() {
    let mut g = Graph::new();
    let a = leaf(&mut g, 0.5);
    let b = leaf(&mut g, 1.5);
    assert_eq!(a.children(&g).len(), 0);
    let s = a.add(&mut g, b);
    let p = a.mul(&mut g, b);
    assert_eq!(s.children(&g).len(), 2);
    assert_eq!(p.children(&g).len(), 2);
    for u in [a.exp(&mut g), a.pow(&mut g, F(2.5)), a.relu(&mut g), a.tanh(&mut g)] {
        assert_eq!(u.children(&g).len(), 1);
    }
    assert_eq!(a.op(&g), None);
    assert_eq!(s.op(&g), Some(Op::Add));
    assert_eq!(p.op(&g), Some(Op::Mul));
}

#[test]
fn fresh_nodes_have_zero_grad() {
    let mut g = Graph::new();
    let a = leaf(&mut g, 2.0);
    let b = leaf(&mut g, -3.0);
    let nodes = [
        a,
        b,
        a.add(&mut g, b),
        a.mul(&mut g, b),
        a.exp(&mut g),
        a.pow(&mut g, F(3.0)),
        b.relu(&mut g),
        a.tanh(&mut g),
        a.sub(&mut g, b),
        a.div(&mut g, b),
        b.neg(&mut g),
    ];
    for n in nodes {
        assert_eq!(grad(&g, n), 0.0);
    }
}

#[test]
fn children_preserve_identity() {
    let mut g = Graph::new();
    let a = leaf(&mut g, 1.0);
    let b = leaf(&mut g, 1.0);
    let y = a.mul(&mut g, b);
    let first = y.children(&g);
    let second = y.children(&g);
    assert_eq!(first, second);
    assert_eq!(first, vec![a, b]);
    assert_ne!(first[0], first[1]);
    assert_eq!(y.lvalue(&g), a);
    assert_eq!(y.rvalue(&g), b);
    let sq = a.mul(&mut g, a);
    assert_eq!(sq.lvalue(&g), sq.rvalue(&g));
}

#[test]
fn backward_on_leaf_sets_only_its_grad() {
    let mut g = Graph::new();
    let other = leaf(&mut g, 5.0);
    let a = leaf(&mut g, 2.0);
    other.set_grad(&mut g, F(0.25));
    a.backward(&mut g);
    assert_eq!(grad(&g, a), 1.0);
    assert_eq!(grad(&g, other), 0.25);
    assert_eq!(data(&g, a), 2.0);
}

#[test]
fn add_sends_gradient_to_both_operands() {
    let mut g = Graph::new();
    let a = leaf(&mut g, 3.5);
    let b = leaf(&mut g, -1.25);
    let y = a.add(&mut g, b);
    y.backward(&mut g);
    assert_eq!(grad(&g, a), 1.0);
    assert_eq!(grad(&g, b), 1.0);
}

#[test]
fn product_rule() {
    let mut g = Graph::new();
    let a = leaf(&mut g, 3.0);
    let b = leaf(&mut g, -2.5);
    let y = a.mul(&mut g, b);
    y.backward(&mut g);
    assert_eq!(grad(&g, a), -2.5);
    assert_eq!(grad(&g, b), 3.0);
}

#[test]
fn diamond_square_and_double() {
    let mut g = Graph::new();
    let a = leaf(&mut g, 1.75);
    let y = a.mul(&mut g, a);
    y.backward(&mut g);
    assert_eq!(grad(&g, a), 2.0 * 1.75);
    let mut h = Graph::new();
    let b = leaf(&mut h, 1.75);
    let z = b.add(&mut h, b);
    z.backward(&mut h);
    assert_eq!(grad(&h, b), 2.0);
}

#[test]
fn chain_rule_through_tanh() {
    let mut g = Graph::new();
    let a = leaf(&mut g, 0.7);
    let y = a.tanh(&mut g);
    y.backward(&mut g);
    let t = 0.7f64.tanh();
    assert_eq!(data(&g, y), t);
    assert!(close(grad(&g, a), 1.0 - t * t, 1e-12));
}

#[test]
fn power_rule_cube() {
    let mut g = Graph::new();
    let a = leaf(&mut g, 2.0);
    let y = a.pow(&mut g, F(3.0));
    y.backward(&mut g);
    assert_eq!(data(&g, y), 8.0);
    assert_eq!(grad(&g, a), 12.0);
}

#[test]
fn power_rule_uses_exponent_not_base() {
    let mut g = Graph::new();
    let a = leaf(&mut g, 3.0);
    let y = a.pow(&mut g, F(2.0));
    y.backward(&mut g);
    assert_eq!(grad(&g, a), 6.0);
    let mut h = Graph::new();
    let b = leaf(&mut h, 4.0);
    let z = b.pow(&mut h, F(0.5));
    z.backward(&mut h);
    assert!(close(grad(&h, b), 0.25, 1e-12));
}

#[test]
fn relu_subgradient() {
    let mut g = Graph::new();
    let a = leaf(&mut g, -1.0);
    let y = a.relu(&mut g);
    y.backward(&mut g);
    assert_eq!(data(&g, y), 0.0);
    assert_eq!(grad(&g, a), 0.0);
    let mut h = Graph::new();
    let b = leaf(&mut h, 2.0);
    let z = b.relu(&mut h);
    z.backward(&mut h);
    assert_eq!(data(&h, z), 2.0);
    assert_eq!(grad(&h, b), 1.0);
    let mut k = Graph::new();
    let c = leaf(&mut k, 0.0);
    let w = c.relu(&mut k);
    w.backward(&mut k);
    assert_eq!(grad(&k, c), 0.0);
}

#[test]
fn exp_gradient_is_its_value() {
    let mut g = Graph::new();
    let a = leaf(&mut g, 1.0);
    let y = a.exp(&mut g);
    y.backward(&mut g);
    assert_eq!(data(&g, y), 1.0f64.exp());
    assert_eq!(grad(&g, a), 1.0f64.exp());
}

#[test]
fn derived_operators() {
    let mut g = Graph::new();
    let a = leaf(&mut g, 6.0);
    let b = leaf(&mut g, 4.0);
    let n = a.neg(&mut g);
    assert_eq!(data(&g, n), -6.0);
    assert_eq!(n.op(&g), Some(Op::Mul));
    let d = a.sub(&mut g, b);
    assert_eq!(data(&g, d), 2.0);
    assert_eq!(d.op(&g), Some(Op::Add));
    let q = a.div(&mut g, b);
    assert_eq!(data(&g, q), 1.5);
    assert_eq!(q.op(&g), Some(Op::Mul));
    assert_eq!(q.rvalue(&g).op(&g), Some(Op::Pow));
    q.backward(&mut g);
    assert!(close(grad(&g, a), 0.25, 1e-12));
    assert!(close(grad(&g, b), -6.0 / 16.0, 1e-12));
}

#[test]
fn scalar_operand_forms() {
    let mut g = Graph::new();
    let x = leaf(&mut g, 3.0);
    let r1 = x.add_scalar(&mut g, F(1.0));
    let r2 = Value::scalar_add(F(1.0), &mut g, x);
    let r3 = x.sub_scalar(&mut g, F(1.0));
    let r4 = Value::scalar_sub(F(1.0), &mut g, x);
    let r5 = x.mul_scalar(&mut g, F(2.0));
    let r6 = Value::scalar_mul(F(2.0), &mut g, x);
    let r7 = x.div_scalar(&mut g, F(2.0));
    let r8 = Value::scalar_div(F(6.0), &mut g, x);
    assert_eq!(data(&g, r1), 4.0);
    assert_eq!(data(&g, r2), 4.0);
    assert_eq!(data(&g, r3), 2.0);
    assert_eq!(data(&g, r4), -2.0);
    assert_eq!(data(&g, r5), 6.0);
    assert_eq!(data(&g, r6), 6.0);
    assert_eq!(data(&g, r7), 1.5);
    assert_eq!(data(&g, r8), 2.0);
    assert_eq!(r2.lvalue(&g).op(&g), None);
    assert_eq!(data(&g, r2.lvalue(&g)), 1.0);
    assert_eq!(r6.lvalue(&g), x);
    assert_eq!(data(&g, r6.rvalue(&g)), 2.0);
    r4.backward(&mut g);
    assert_eq!(grad(&g, x), -1.0);
}

#[test]
fn setters_and_add_grad() {
    let mut g = Graph::new();
    let a = leaf(&mut g, 1.0);
    a.set_data(&mut g, F(9.0));
    assert_eq!(data(&g, a), 9.0);
    a.set_grad(&mut g, F(2.0));
    a.add_grad(&mut g, F(0.5));
    assert_eq!(grad(&g, a), 2.5);
    assert_eq!(a.id(), 0);
    assert_eq!(g.len(), 1);
}

#[test]
fn zero_grad_resets_listed_nodes_only() {
    let mut g = Graph::new();
    let a = leaf(&mut g, 2.0);
    let b = leaf(&mut g, 3.0);
    let y = a.mul(&mut g, b);
    y.backward(&mut g);
    g.zero_grad(&vec![a]);
    assert_eq!(grad(&g, a), 0.0);
    assert_eq!(grad(&g, b), 2.0);
    assert_eq!(grad(&g, y), 1.0);
}

#[test]
fn topological_order_lists_ancestors_once() {
    let mut g = Graph::new();
    let a = leaf(&mut g, 2.0);
    let unrelated = leaf(&mut g, 7.0);
    let b = leaf(&mut g, 3.0);
    let ab = a.mul(&mut g, b);
    let y = ab.add(&mut g, a);
    let order = g.topological_order(y);
    assert_eq!(order, vec![a, b, ab, y]);
    assert!(!order.contains(&unrelated));
    assert_eq!(g.topological_order(a), vec![a]);
}

#[test]
fn op_symbols() {
    assert_eq!(Op::Add.symbol(), "+");
    assert_eq!(Op::Mul.symbol(), "*");
    assert_eq!(Op::Exp.symbol(), "exp");
    assert_eq!(Op::Pow.symbol(), "pow");
    assert_eq!(Op::ReLU.symbol(), "relu");
    assert_eq!(Op::TanH.symbol(), "tanh");
    assert_eq!(Op::Add.arity(), 2);
    assert_eq!(Op::TanH.arity(), 1);
}

#[test]
fn neuron_forward_and_parameters() {
    let mut g = Graph::new();
    let n = Neuron::new(&mut g, &vec![F(0.5), F(-1.0)], F(0.25));
    let params = n.parameters();
    assert_eq!(params.len(), 3);
    assert_eq!(data(&g, params[2]), 0.25);
    let x = vec![leaf(&mut g, 2.0), leaf(&mut g, 1.0)];
    let out = n.forward(&mut g, x);
    assert_eq!(out.op(&g), Some(Op::TanH));
    assert!(close(data(&g, out), (0.25f64 + 1.0 - 1.0).tanh(), 1e-12));
    out.backward(&mut g);
    let t = 0.25f64.tanh();
    assert!(close(grad(&g, params[0]), (1.0 - t * t) * 2.0, 1e-12));
    assert!(close(grad(&g, params[2]), 1.0 - t * t, 1e-12));
}

#[test]
fn layer_outputs_and_parameters() {
    let mut g = Graph::new();
    let layer = Layer::new(
        &mut g,
        &vec![vec![F(1.0), F(0.0)], vec![F(0.0), F(1.0)], vec![F(1.0), F(1.0)]],
        &vec![F(0.0), F(0.0), F(0.5)],
    );
    assert_eq!(layer.parameters().len(), 9);
    let x = vec![leaf(&mut g, 0.1), leaf(&mut g, 0.2)];
    let out = layer.forward(&mut g, x);
    assert_eq!(out.len(), 3);
    assert!(close(data(&g, out[0]), 0.1f64.tanh(), 1e-12));
    assert!(close(data(&g, out[1]), 0.2f64.tanh(), 1e-12));
    assert!(close(data(&g, out[2]), 0.8f64.tanh(), 1e-12));
}

fn lcg(state: &mut u64) -> f64 {
    *state = state.wrapping_mul(6364136223846793005).wrapping_add(1442695040888963407);
    ((*state >> 11) as f64 / (1u64 << 53) as f64) * 2.0 - 1.0
}

#[test]
fn mlp_training_reaches_targets() {
    let mut g = Graph::new();
    let mut seed = 42u64;
    let sizes = [3usize, 4, 4, 1];
    let mut weights = Vec::new();
    let mut biases = Vec::new();
    for l in 0..3 {
        let mut lw = Vec::new();
        let mut lb = Vec::new();
        for _ in 0..sizes[l + 1] {
            lw.push((0..sizes[l]).map(|_| F(lcg(&mut seed))).collect::<Vec<F>>());
            lb.push(F(lcg(&mut seed)));
        }
        weights.push(lw);
        biases.push(lb);
    }
    let mlp = MLP::new(&mut g, &weights, &biases);
    let params = mlp.parameters();
    assert_eq!(params.len(), 4 * 4 + 4 * 5 + 5);
    let xs = [[2.0, 3.0, -1.0], [3.0, -1.0, 0.5], [0.5, 1.0, 1.0], [1.0, 1.0, -1.0]];
    let ys = [1.0, -1.0, -1.0, 1.0];
    let mut preds = Vec::new();
    for _ in 0..500 {
        preds.clear();
        let mut loss = leaf(&mut g, 0.0);
        for (row, target) in xs.iter().zip(ys.iter()) {
            let x: Vec<Value> = row.iter().map(|v| leaf(&mut g, *v)).collect();
            let out = mlp.forward(&mut g, x)[0];
            preds.push(out);
            let diff = out.sub_scalar(&mut g, F(*target));
            let sq = diff.pow(&mut g, F(2.0));
            loss = loss.add(&mut g, sq);
        }
        g.zero_grad(&params);
        loss.backward(&mut g);
        for p in &params {
            let updated = data(&g, *p) - 0.05 * grad(&g, *p);
            p.set_data(&mut g, F(updated));
        }
    }
    for (p, target) in preds.iter().zip(ys.iter()) {
        assert!(close(data(&g, *p), *target, 0.1));
    }
}

#[test]
fn exponent_of_power_nodes_only() {
    let mut g = Graph::new();
    let a = leaf(&mut g, 2.0);
    let p = a.pow(&mut g, F(3.0));
    assert_eq!(p.exponent(&g), Some(F(3.0)));
    assert_eq!(a.exponent(&g), None);
    let b = leaf(&mut g, 4.0);
    let q = a.div(&mut g, b);
    assert_eq!(q.rvalue(&g).exponent(&g), Some(F(-1.0)));
}

#[test]
fn truncate_frees_later_nodes() {
    let mut g = Graph::new();
    let a = leaf(&mut g, 2.0);
    let b = leaf(&mut g, 3.0);
    let kept = g.len();
    let y = a.mul(&mut g, b);
    y.backward(&mut g);
    g.truncate(kept);
    assert_eq!(g.len(), 2);
    assert_eq!(data(&g, a), 2.0);
    assert_eq!(grad(&g, a), 3.0);
    let z = a.add(&mut g, b);
    assert_eq!(z.id(), 2);
    assert_eq!(data(&g, z), 5.0);
}

#[test]
fn layer_parameters_are_fresh_distinct_leaves() {
    let mut g = Graph::new();
    let layer = Layer::new(&mut g, &vec![vec![F(0.5), F(0.25)], vec![F(-1.0), F(2.0)]], &vec![F(0.1), F(0.2)]);
    let params = layer.parameters();
    assert_eq!(params.len(), 6);
    let expected = [0.5, 0.25, 0.1, -1.0, 2.0, 0.2];
    for (k, p) in params.iter().enumerate() {
        assert_eq!(p.id(), k);
        assert_eq!(p.op(&g), None);
        assert_eq!(grad(&g, *p), 0.0);
        assert_eq!(data(&g, *p), expected[k]);
    }
}
