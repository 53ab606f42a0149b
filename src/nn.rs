use vstd::prelude::*;

use crate::engine::{lemma_extends_trans, Graph, GraphView, Value};
use crate::op::Op;
use crate::scalar::Scalar;

verus! {

/// Every handle in `vs` denotes a node of `g`.
pub open spec fn all_valid<S>(g: GraphView<S>, vs: Seq<Value>) -> bool {
    forall|k: int| 0 <= k < vs.len() ==> g.valid(#[trigger] vs[k])
}

/// Position of the running sum after `i` products in a neuron's forward pass
/// that started appending at `base`.
pub open spec fn running_sum(bias: Value, base: int, i: int) -> int {
    if i == 0 {
        bias@ as int
    } else {
        base + 2 * i - 1
    }
}

/// A single unit: `tanh(bias + sum of weight * input)`.
pub struct Neuron {
    weights: Vec<Value>,
    bias: Value,
}

impl Neuron {
    pub closed spec fn weight_nodes(&self) -> Seq<Value> {
        self.weights@
    }

    pub closed spec fn bias_node(&self) -> Value {
        self.bias
    }

    /// The neuron's parameters: its weights followed by its bias.
    pub open spec fn params(&self) -> Seq<Value> {
        self.weight_nodes().push(self.bias_node())
    }

    /// A neuron with one weight per entry of `init`, taken in order, and the
    /// given bias; each becomes a new leaf, the bias last.
    pub fn new<S: Scalar>(g: &mut Graph<S>, init: &Vec<S>, bias: S) -> (r: Neuron)
        requires
            old(g).wf(),
        ensures
            final(g).wf(),
            final(g)@.extends(old(g)@, init@.len() + 1),
            r.weight_nodes().len() == init@.len(),
            forall|i: int|
                0 <= i < init@.len() ==> (#[trigger] r.weight_nodes()[i])@ == old(g)@.nodes.len() + i
                    && final(g)@.fresh_leaf(old(g)@.nodes.len() + i, init@[i]),
            r.bias_node()@ == old(g)@.nodes.len() + init@.len(),
            final(g)@.fresh_leaf(old(g)@.nodes.len() + init@.len() as int, bias),
            all_valid(final(g)@, r.params()),
    {
        let ghost g0 = g@;
        let mut weights: Vec<Value> = Vec::new();
        let mut i: usize = 0;
        assert(g0.nodes.subrange(0, g0.nodes.len() as int) =~= g0.nodes);
        while i < init.len()
            invariant
                g.wf(),
                i <= init@.len(),
                g@.extends(g0, i as nat),
                weights@.len() == i,
                forall|t: int|
                    0 <= t < i ==> (#[trigger] weights@[t])@ == g0.nodes.len() + t
                        && g@.fresh_leaf(g0.nodes.len() + t, init@[t]),
            decreases init@.len() - i,
        {
            let ghost before = g@;
            let w = Value::new(g, init[i]);
            weights.push(w);
            i = i + 1;
            proof {
                lemma_extends_trans(g0, before, g@, (i - 1) as nat, 1);
                assert forall|t: int| 0 <= t < i implies (#[trigger] weights@[t])@ == g0.nodes.len() + t
                    && g@.fresh_leaf(g0.nodes.len() + t, init@[t]) by {
                    if t < i - 1 {
                        assert(g@.nodes[g0.nodes.len() + t] == before.nodes[g0.nodes.len() + t]);
                    }
                }
            }
        }
        let ghost before = g@;
        let b = Value::new(g, bias);
        let r = Neuron { weights, bias: b };
        proof {
            lemma_extends_trans(g0, before, g@, init@.len(), 1);
            assert forall|t: int| 0 <= t < init@.len() implies (#[trigger] r.weight_nodes()[t])@ == g0.nodes.len() + t
                && g@.fresh_leaf(g0.nodes.len() + t, init@[t]) by {
                assert(g@.nodes[g0.nodes.len() + t] == before.nodes[g0.nodes.len() + t]);
                assert(weights@[t]@ == g0.nodes.len() + t);
            }
            assert forall|k: int| 0 <= k < r.params().len() implies g@.valid(#[trigger] r.params()[k]) by {
                if k < init@.len() {
                    assert(r.params()[k] == r.weight_nodes()[k]);
                }
            }
        }
        r
    }

    /// `tanh(bias + w0 * x0 + w1 * x1 + ...)`, over as many pairs as both
    /// the weights and `x` provide. Each product is added to the running sum
    /// as soon as it is built.
    #[verifier::rlimit(40)]
    pub fn forward<S: Scalar>(&self, g: &mut Graph<S>, x: Vec<Value>) -> (r: Value)
        requires
            old(g).wf(),
            all_valid(old(g)@, self.params()),
            all_valid(old(g)@, x@),
        ensures
            final(g).wf(),
            ({
                let base = old(g)@.nodes.len() as int;
                let m = if self.weight_nodes().len() <= x@.len() { self.weight_nodes().len() as int } else { x@.len() as int };
                &&& final(g)@.extends(old(g)@, (2 * m + 1) as nat)
                &&& forall|i: int|
                    0 <= i < m ==> #[trigger] final(g)@.fresh_pair(base + 2 * i, Op::Mul, self.weight_nodes()[i]@ as int, x@[i]@ as int)
                        && final(g)@.fresh_pair(base + 2 * i + 1, Op::Add, running_sum(self.bias_node(), base, i), base + 2 * i)
                        && final(g)@.nodes[base + 2 * i].data == old(g)@.nodes[self.weight_nodes()[i]@ as int].data.spec_mul(
                            old(g)@.nodes[x@[i]@ as int].data)
                        && final(g)@.nodes[base + 2 * i + 1].data == final(g)@.nodes[running_sum(self.bias_node(), base, i)].data.spec_add(
                            final(g)@.nodes[base + 2 * i].data)
                &&& final(g)@.nodes[r@ as int].data == final(g)@.nodes[running_sum(self.bias_node(), base, m)].data.spec_tanh()
                &&& r@ == base + 2 * m
                &&& final(g)@.nodes[r@ as int].op == Some(Op::TanH)
                &&& final(g)@.nodes[r@ as int].parents.len() == 1
                &&& final(g)@.nodes[r@ as int].parents[0]@ == running_sum(self.bias_node(), base, m)
                &&& final(g)@.nodes[r@ as int].grad == old(g)@.zero
            }),
    {
        let ghost g0 = g@;
        let ghost base = g0.nodes.len() as int;
        let m = if self.weights.len() <= x.len() { self.weights.len() } else { x.len() };
        let mut acc = self.bias;
        let mut i: usize = 0;
        assert(g0.nodes.subrange(0, base) =~= g0.nodes);
        assert(self.params()[self.weights@.len() as int] == self.bias);
        assert(g0.valid(self.params()[self.weights@.len() as int]));
        while i < m
            invariant
                g.wf(),
                i <= m,
                m <= self.weights@.len(),
                m <= x@.len(),
                base == g0.nodes.len(),
                all_valid(g0, self.params()),
                all_valid(g0, x@),
                g0.valid(self.bias),
                g@.extends(g0, (2 * i) as nat),
                acc@ == running_sum(self.bias, base, i as int),
                g@.valid(acc),
                forall|t: int|
                    0 <= t < i ==> #[trigger] g@.fresh_pair(base + 2 * t, Op::Mul, self.weights@[t]@ as int, x@[t]@ as int)
                        && g@.fresh_pair(base + 2 * t + 1, Op::Add, running_sum(self.bias, base, t), base + 2 * t)
                        && g@.nodes[base + 2 * t].data == g0.nodes[self.weights@[t]@ as int].data.spec_mul(g0.nodes[x@[t]@ as int].data)
                        && g@.nodes[base + 2 * t + 1].data == g@.nodes[running_sum(self.bias, base, t)].data.spec_add(
                            g@.nodes[base + 2 * t].data),
            decreases m - i,
        {
            let ghost before = g@;
            assert(self.params()[i as int] == self.weights@[i as int]);
            assert(g0.valid(self.params()[i as int]));
            assert(g0.valid(x@[i as int]));
            let p = self.weights[i].mul(g, x[i]);
            let ghost mid = g@;
            let next = acc.add(g, p);
            proof {
                lemma_extends_trans(before, mid, g@, 1, 1);
                lemma_extends_trans(g0, before, g@, (2 * i) as nat, 2);
                let w = self.weights@[i as int]@ as int;
                let xi = x@[i as int]@ as int;
                assert(before.nodes[w] == g0.nodes[w]);
                assert(before.nodes[xi] == g0.nodes[xi]);
                assert(mid.nodes[acc@ as int] == before.nodes[acc@ as int]);
                assert(g@.nodes[acc@ as int] == mid.nodes[acc@ as int]);
                assert forall|t: int| 0 <= t < i + 1 implies #[trigger] g@.fresh_pair(base + 2 * t, Op::Mul, self.weights@[t]@ as int, x@[t]@ as int)
                    && g@.fresh_pair(base + 2 * t + 1, Op::Add, running_sum(self.bias, base, t), base + 2 * t)
                    && g@.nodes[base + 2 * t].data == g0.nodes[self.weights@[t]@ as int].data.spec_mul(g0.nodes[x@[t]@ as int].data)
                    && g@.nodes[base + 2 * t + 1].data == g@.nodes[running_sum(self.bias, base, t)].data.spec_add(
                        g@.nodes[base + 2 * t].data) by {
                    if t < i {
                        assert(before.fresh_pair(base + 2 * t, Op::Mul, self.weights@[t]@ as int, x@[t]@ as int));
                        assert(g@.nodes[base + 2 * t] == before.nodes[base + 2 * t]);
                        assert(g@.nodes[base + 2 * t + 1] == before.nodes[base + 2 * t + 1]);
                        let rs = running_sum(self.bias, base, t);
                        assert(g@.nodes[rs] == before.nodes[rs]);
                    } else {
                        assert(g@.nodes[base + 2 * t] == mid.nodes[base + 2 * t]);
                    }
                }
            }
            acc = next;
            i = i + 1;
        }
        let ghost before = g@;
        let r = acc.tanh(g);
        proof {
            assert(acc@ == running_sum(self.bias, base, m as int));
            assert(g@.nodes[r@ as int].data == before.nodes[acc@ as int].data.spec_tanh());
            lemma_extends_trans(g0, before, g@, (2 * i) as nat, 1);
            assert(g@.nodes[acc@ as int] == before.nodes[acc@ as int]);
            assert forall|t: int| 0 <= t < m implies #[trigger] g@.fresh_pair(base + 2 * t, Op::Mul, self.weights@[t]@ as int, x@[t]@ as int)
                && g@.fresh_pair(base + 2 * t + 1, Op::Add, running_sum(self.bias, base, t), base + 2 * t)
                && g@.nodes[base + 2 * t].data == g0.nodes[self.weights@[t]@ as int].data.spec_mul(g0.nodes[x@[t]@ as int].data)
                && g@.nodes[base + 2 * t + 1].data == g@.nodes[running_sum(self.bias, base, t)].data.spec_add(
                    g@.nodes[base + 2 * t].data) by {
                assert(before.fresh_pair(base + 2 * t, Op::Mul, self.weights@[t]@ as int, x@[t]@ as int));
                assert(g@.nodes[base + 2 * t] == before.nodes[base + 2 * t]);
                assert(g@.nodes[base + 2 * t + 1] == before.nodes[base + 2 * t + 1]);
                let rs = running_sum(self.bias, base, t);
                assert(g@.nodes[rs] == before.nodes[rs]);
            }
        }
        r
    }

    /// The neuron's parameters: its weights, then its bias.
    pub fn parameters(&self) -> (r: Vec<Value>)
        ensures
            r@ == self.params(),
    {
        let mut r: Vec<Value> = Vec::new();
        let mut i: usize = 0;
        while i < self.weights.len()
            invariant
                i <= self.weights@.len(),
                r@ == self.weights@.subrange(0, i as int),
            decreases self.weights@.len() - i,
        {
            r.push(self.weights[i]);
            i = i + 1;
            assert(r@ =~= self.weights@.subrange(0, i as int));
        }
        r.push(self.bias);
        assert(r@ =~= self.params());
        r
    }
}

/// A copy of a list of handles.
fn copy_handles(x: &Vec<Value>) -> (r: Vec<Value>)
    ensures
        r@ == x@,
{
    let mut r: Vec<Value> = Vec::new();
    let mut i: usize = 0;
    while i < x.len()
        invariant
            i <= x@.len(),
            r@ == x@.subrange(0, i as int),
        decreases x@.len() - i,
    {
        r.push(x[i]);
        i = i + 1;
        assert(r@ =~= x@.subrange(0, i as int));
    }
    assert(x@.subrange(0, i as int) =~= x@);
    r
}

/// Handles valid in `old` stay valid once the graph has grown.
proof fn lemma_still_valid<S>(old: GraphView<S>, new: GraphView<S>, vs: Seq<Value>)
    requires
        new.grows_from(old),
        all_valid(old, vs),
    ensures
        all_valid(new, vs),
{
}

/// Growing is transitive.
proof fn lemma_grows_trans<S>(a: GraphView<S>, b: GraphView<S>, c: GraphView<S>)
    requires
        b.grows_from(a),
        c.grows_from(b),
    ensures
        c.grows_from(a),
{
    lemma_extends_trans(a, b, c, (b.nodes.len() - a.nodes.len()) as nat, (c.nodes.len() - b.nodes.len()) as nat);
}

/// Every graph has grown from itself.
proof fn lemma_grows_refl<S>(a: GraphView<S>)
    ensures
        a.grows_from(a),
{
    assert(a.nodes.subrange(0, a.nodes.len() as int) =~= a.nodes);
}

/// Number of parameters of the first `j` neurons built from `weights`: each
/// neuron has its weights and a bias.
pub open spec fn leaves_before<S>(weights: Seq<Vec<S>>, j: int) -> nat
    decreases j,
{
    if j <= 0 {
        0
    } else {
        leaves_before(weights, j - 1) + weights[j - 1]@.len() + 1
    }
}

/// A row of neurons that all read the same inputs.
pub struct Layer {
    neurons: Vec<Neuron>,
}

impl Layer {
    pub closed spec fn units(&self) -> Seq<Neuron> {
        self.neurons@
    }

    /// Every parameter of the layer is a node of `g`.
    pub open spec fn valid_in<S>(&self, g: GraphView<S>) -> bool {
        forall|j: int| 0 <= j < self.units().len() ==> all_valid(g, (#[trigger] self.units()[j]).params())
    }

    /// A layer with one neuron per entry of `weights`, neuron `j` taking
    /// `weights[j]` and `biases[j]` as its initial parameters.
    pub fn new<S: Scalar>(g: &mut Graph<S>, weights: &Vec<Vec<S>>, biases: &Vec<S>) -> (r: Layer)
        requires
            old(g).wf(),
            weights@.len() == biases@.len(),
        ensures
            final(g).wf(),
            final(g)@.grows_from(old(g)@),
            final(g)@.extends(old(g)@, leaves_before(weights@, weights@.len() as int)),
            r.units().len() == weights@.len(),
            forall|j: int| 0 <= j < weights@.len() ==> (#[trigger] r.units()[j]).weight_nodes().len() == weights@[j]@.len(),
            forall|j: int, i: int|
                0 <= j < weights@.len() && 0 <= i < weights@[j]@.len() ==> {
                    let p = old(g)@.nodes.len() + leaves_before(weights@, j) + i;
                    &&& (#[trigger] r.units()[j].weight_nodes()[i])@ == p
                    &&& final(g)@.fresh_leaf(p, weights@[j]@[i])
                },
            forall|j: int|
                0 <= j < weights@.len() ==> {
                    let p = old(g)@.nodes.len() + leaves_before(weights@, j) + weights@[j]@.len() as int;
                    &&& (#[trigger] r.units()[j].bias_node())@ == p
                    &&& final(g)@.fresh_leaf(p, biases@[j])
                },
            r.valid_in(final(g)@),
    {
        let ghost g0 = g@;
        proof { lemma_grows_refl(g0); }
        assert(g0.nodes.subrange(0, g0.nodes.len() as int) =~= g0.nodes);
        let mut neurons: Vec<Neuron> = Vec::new();
        let mut j: usize = 0;
        while j < weights.len()
            invariant
                g.wf(),
                j <= weights@.len(),
                weights@.len() == biases@.len(),
                g@.grows_from(g0),
                neurons@.len() == j,
                g@.extends(g0, leaves_before(weights@, j as int)),
                forall|t: int| 0 <= t < j ==> (#[trigger] neurons@[t]).weight_nodes().len() == weights@[t]@.len(),
                forall|t: int| 0 <= t < j ==> all_valid(g@, (#[trigger] neurons@[t]).params()),
                forall|t: int, i: int|
                    0 <= t < j && 0 <= i < weights@[t]@.len() ==> {
                        let p = g0.nodes.len() + leaves_before(weights@, t) + i;
                        &&& (#[trigger] neurons@[t].weight_nodes()[i])@ == p
                        &&& g@.fresh_leaf(p, weights@[t]@[i])
                    },
                forall|t: int|
                    0 <= t < j ==> {
                        let p = g0.nodes.len() + leaves_before(weights@, t) + weights@[t]@.len() as int;
                        &&& (#[trigger] neurons@[t].bias_node())@ == p
                        &&& g@.fresh_leaf(p, biases@[t])
                    },
            decreases weights@.len() - j,
        {
            let ghost before = g@;
            let n = Neuron::new(g, &weights[j], biases[j]);
            proof {
                lemma_extends_trans(g0, before, g@, leaves_before(weights@, j as int), weights@[j as int]@.len() + 1);
                assert(leaves_before(weights@, j + 1) == leaves_before(weights@, j as int) + weights@[j as int]@.len() + 1);
                lemma_grows_trans(g0, before, g@);
                assert forall|t: int| 0 <= t < j implies all_valid(g@, (#[trigger] neurons@[t]).params()) by {
                    lemma_still_valid(before, g@, neurons@[t].params());
                }
            }
            let ghost old_neurons = neurons@;
            neurons.push(n);
            proof {
                assert forall|t: int, i: int|
                    #![trigger neurons@[t].weight_nodes()[i]]
                    0 <= t < j + 1 && 0 <= i < weights@[t]@.len() implies {
                        let p = g0.nodes.len() + leaves_before(weights@, t) + i;
                        &&& neurons@[t].weight_nodes()[i]@ == p
                        &&& g@.fresh_leaf(p, weights@[t]@[i])
                    } by {
                    if t < j {
                        let p = g0.nodes.len() + leaves_before(weights@, t) + i;
                        assert(neurons@[t] == old_neurons[t]);
                        assert(old_neurons[t].weight_nodes()[i]@ == p);
                        assert(before.fresh_leaf(p, weights@[t]@[i]));
                        assert(all_valid(before, old_neurons[t].params()));
                        assert(old_neurons[t].params()[i] == old_neurons[t].weight_nodes()[i]);
                        assert(before.valid(old_neurons[t].params()[i]));
                        assert(g@.nodes[p] == before.nodes[p]);
                    } else {
                        assert(neurons@[t] == n);
                        assert(n.weight_nodes()[i]@ == before.nodes.len() + i);
                    }
                }
                assert forall|t: int| #![trigger neurons@[t].bias_node()] 0 <= t < j + 1 implies {
                        let p = g0.nodes.len() + leaves_before(weights@, t) + weights@[t]@.len() as int;
                        &&& neurons@[t].bias_node()@ == p
                        &&& g@.fresh_leaf(p, biases@[t])
                    } by {
                    if t < j {
                        let p = g0.nodes.len() + leaves_before(weights@, t) + weights@[t]@.len() as int;
                        assert(neurons@[t] == old_neurons[t]);
                        assert(old_neurons[t].bias_node()@ == p);
                        assert(before.fresh_leaf(p, biases@[t]));
                        assert(all_valid(before, old_neurons[t].params()));
                        assert(old_neurons[t].params()[weights@[t]@.len() as int] == old_neurons[t].bias_node());
                        assert(before.valid(old_neurons[t].params()[weights@[t]@.len() as int]));
                        assert(g@.nodes[p] == before.nodes[p]);
                    } else {
                        assert(neurons@[t] == n);
                    }
                }
            }
            j = j + 1;
        }
        Layer { neurons }
    }

    /// Each neuron's output on `x`, in neuron order.
    pub fn forward<S: Scalar>(&self, g: &mut Graph<S>, x: Vec<Value>) -> (r: Vec<Value>)
        requires
            old(g).wf(),
            self.valid_in(old(g)@),
            all_valid(old(g)@, x@),
        ensures
            final(g).wf(),
            final(g)@.grows_from(old(g)@),
            r@.len() == self.units().len(),
            all_valid(final(g)@, r@),
            forall|j: int| 0 <= j < r@.len() ==> final(g)@.nodes[(#[trigger] r@[j])@ as int].op == Some(Op::TanH),
            forall|j: int|
                0 <= j < r@.len() ==> {
                    let n = final(g)@.nodes[(#[trigger] r@[j])@ as int];
                    n.parents.len() == 1 && n.data == final(g)@.nodes[n.parents[0]@ as int].data.spec_tanh()
                },
    {
        let ghost g0 = g@;
        proof { lemma_grows_refl(g0); }
        let mut r: Vec<Value> = Vec::new();
        let mut j: usize = 0;
        while j < self.neurons.len()
            invariant
                g.wf(),
                j <= self.neurons@.len(),
                g@.grows_from(g0),
                self.valid_in(g0),
                all_valid(g0, x@),
                r@.len() == j,
                all_valid(g@, r@),
                forall|t: int| 0 <= t < j ==> g@.nodes[(#[trigger] r@[t])@ as int].op == Some(Op::TanH),
                forall|t: int|
                    0 <= t < j ==> {
                        let n = g@.nodes[(#[trigger] r@[t])@ as int];
                        n.parents.len() == 1 && n.data == g@.nodes[n.parents[0]@ as int].data.spec_tanh()
                    },
            decreases self.neurons@.len() - j,
        {
            let ghost before = g@;
            let xs = copy_handles(&x);
            proof {
                assert(all_valid(g0, self.units()[j as int].params()));
                lemma_still_valid(g0, before, self.neurons@[j as int].params());
                lemma_still_valid(g0, before, x@);
            }
            let y = self.neurons[j].forward(g, xs);
            proof {
                assert(g@.grows_from(before));
                lemma_grows_trans(g0, before, g@);
                assert forall|t: int| 0 <= t < j implies g@.nodes[(#[trigger] r@[t])@ as int].op == Some(Op::TanH)
                    && g@.nodes[r@[t]@ as int].parents.len() == 1
                    && g@.nodes[r@[t]@ as int].data == g@.nodes[g@.nodes[r@[t]@ as int].parents[0]@ as int].data.spec_tanh() by {
                    let q = r@[t]@ as int;
                    assert(before.valid(r@[t]));
                    assert(g@.nodes.subrange(0, before.nodes.len() as int)[q] == g@.nodes[q]);
                    assert(before.node_wf(q));
                    let o = before.nodes[q].parents[0]@ as int;
                    assert(g@.nodes.subrange(0, before.nodes.len() as int)[o] == g@.nodes[o]);
                }
            }
            r.push(y);
            j = j + 1;
            proof {
                assert forall|t: int| 0 <= t < j implies g@.valid(#[trigger] r@[t]) by {
                    if t < j - 1 {
                        assert(before.valid(r@[t]));
                    }
                }
            }
        }
        r
    }

    /// The parameters of all neurons, neuron by neuron.
    pub fn parameters(&self) -> (r: Vec<Value>)
        ensures
            r@ == self.params_upto(self.units().len() as int),
    {
        let mut r: Vec<Value> = Vec::new();
        let mut j: usize = 0;
        while j < self.neurons.len()
            invariant
                j <= self.neurons@.len(),
                r@ == self.params_upto(j as int),
            decreases self.neurons@.len() - j,
        {
            let ps = self.neurons[j].parameters();
            let mut k: usize = 0;
            let ghost start = r@;
            while k < ps.len()
                invariant
                    k <= ps@.len(),
                    r@ == start + ps@.subrange(0, k as int),
                decreases ps@.len() - k,
            {
                r.push(ps[k]);
                k = k + 1;
                assert(r@ =~= start + ps@.subrange(0, k as int));
            }
            assert(ps@.subrange(0, k as int) =~= ps@);
            j = j + 1;
        }
        r
    }

    /// The parameters of the first `j` neurons, neuron by neuron.
    pub open spec fn params_upto(&self, j: int) -> Seq<Value>
        decreases j,
    {
        if j <= 0 {
            Seq::empty()
        } else {
            self.params_upto(j - 1) + self.units()[j - 1].params()
        }
    }
}

/// A stack of layers, each reading the outputs of the one before.
pub struct MLP {
    layers: Vec<Layer>,
}

impl MLP {
    pub closed spec fn stages(&self) -> Seq<Layer> {
        self.layers@
    }

    /// Every parameter of the network is a node of `g`.
    pub open spec fn valid_in<S>(&self, g: GraphView<S>) -> bool {
        forall|l: int| 0 <= l < self.stages().len() ==> (#[trigger] self.stages()[l]).valid_in(g)
    }

    /// A network with one layer per entry of `weights`, layer `l` built from
    /// `weights[l]` and `biases[l]`.
    pub fn new<S: Scalar>(g: &mut Graph<S>, weights: &Vec<Vec<Vec<S>>>, biases: &Vec<Vec<S>>) -> (r: MLP)
        requires
            old(g).wf(),
            weights@.len() == biases@.len(),
            forall|l: int| 0 <= l < weights@.len() ==> (#[trigger] weights@[l])@.len() == biases@[l]@.len(),
        ensures
            final(g).wf(),
            final(g)@.grows_from(old(g)@),
            r.stages().len() == weights@.len(),
            forall|l: int| 0 <= l < weights@.len() ==> (#[trigger] r.stages()[l]).units().len() == weights@[l]@.len(),
            forall|l: int, j: int|
                0 <= l < weights@.len() && 0 <= j < weights@[l]@.len() ==> (#[trigger] r.stages()[l].units()[j]).weight_nodes().len()
                    == weights@[l]@[j]@.len(),
            r.valid_in(final(g)@),
    {
        let ghost g0 = g@;
        proof { lemma_grows_refl(g0); }
        let mut layers: Vec<Layer> = Vec::new();
        let mut l: usize = 0;
        while l < weights.len()
            invariant
                g.wf(),
                l <= weights@.len(),
                weights@.len() == biases@.len(),
                forall|t: int| 0 <= t < weights@.len() ==> (#[trigger] weights@[t])@.len() == biases@[t]@.len(),
                g@.grows_from(g0),
                layers@.len() == l,
                forall|t: int| 0 <= t < l ==> (#[trigger] layers@[t]).units().len() == weights@[t]@.len(),
                forall|t: int, j: int|
                    0 <= t < l && 0 <= j < weights@[t]@.len() ==> (#[trigger] layers@[t].units()[j]).weight_nodes().len()
                        == weights@[t]@[j]@.len(),
                forall|t: int| 0 <= t < l ==> (#[trigger] layers@[t]).valid_in(g@),
            decreases weights@.len() - l,
        {
            let ghost before = g@;
            assert(weights@[l as int]@.len() == biases@[l as int]@.len());
            let layer = Layer::new(g, &weights[l], &biases[l]);
            proof {
                lemma_grows_trans(g0, before, g@);
                assert forall|t: int| 0 <= t < l implies (#[trigger] layers@[t]).valid_in(g@) by {
                    assert forall|j: int| 0 <= j < layers@[t].units().len() implies all_valid(g@, (#[trigger] layers@[t].units()[j]).params()) by {
                        assert(all_valid(before, layers@[t].units()[j].params()));
                        lemma_still_valid(before, g@, layers@[t].units()[j].params());
                    }
                }
            }
            layers.push(layer);
            l = l + 1;
        }
        MLP { layers }
    }

    /// The network's outputs on `x`: `x` passed through every layer in
    /// turn. With no layers, `x` itself.
    pub fn forward<S: Scalar>(&self, g: &mut Graph<S>, x: Vec<Value>) -> (r: Vec<Value>)
        requires
            old(g).wf(),
            self.valid_in(old(g)@),
            all_valid(old(g)@, x@),
        ensures
            final(g).wf(),
            final(g)@.grows_from(old(g)@),
            all_valid(final(g)@, r@),
            self.stages().len() == 0 ==> r@ == x@,
            self.stages().len() > 0 ==> r@.len() == self.stages().last().units().len(),
    {
        let ghost g0 = g@;
        proof { lemma_grows_refl(g0); }
        let mut v = x;
        let mut l: usize = 0;
        while l < self.layers.len()
            invariant
                g.wf(),
                l <= self.layers@.len(),
                g@.grows_from(g0),
                self.valid_in(g0),
                all_valid(g@, v@),
                l == 0 ==> v@ == x@,
                l > 0 ==> v@.len() == self.layers@[l - 1].units().len(),
            decreases self.layers@.len() - l,
        {
            let ghost before = g@;
            proof {
                let layer = self.stages()[l as int];
                assert(layer.valid_in(g0));
                assert forall|j: int| 0 <= j < layer.units().len() implies all_valid(before, (#[trigger] layer.units()[j]).params()) by {
                    lemma_still_valid(g0, before, layer.units()[j].params());
                }
            }
            v = self.layers[l].forward(g, v);
            proof { lemma_grows_trans(g0, before, g@); }
            l = l + 1;
        }
        v
    }

    /// The parameters of all layers, layer by layer.
    pub fn parameters(&self) -> (r: Vec<Value>)
        ensures
            r@ == self.params_upto(self.stages().len() as int),
    {
        let mut r: Vec<Value> = Vec::new();
        let mut l: usize = 0;
        while l < self.layers.len()
            invariant
                l <= self.layers@.len(),
                r@ == self.params_upto(l as int),
            decreases self.layers@.len() - l,
        {
            let ps = self.layers[l].parameters();
            let mut k: usize = 0;
            let ghost start = r@;
            while k < ps.len()
                invariant
                    k <= ps@.len(),
                    r@ == start + ps@.subrange(0, k as int),
                decreases ps@.len() - k,
            {
                r.push(ps[k]);
                k = k + 1;
                assert(r@ =~= start + ps@.subrange(0, k as int));
            }
            assert(ps@.subrange(0, k as int) =~= ps@);
            l = l + 1;
        }
        r
    }

    /// The parameters of the first `l` layers, layer by layer.
    pub open spec fn params_upto(&self, l: int) -> Seq<Value>
        decreases l,
    {
        if l <= 0 {
            Seq::empty()
        } else {
            self.params_upto(l - 1) + self.stages()[l - 1].params_upto(self.stages()[l - 1].units().len() as int)
        }
    }
}

} // verus!
