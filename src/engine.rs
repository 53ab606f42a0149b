use vstd::prelude::*;

use crate::op::{arity, Op};
use crate::scalar::Scalar;

verus! {

/// A handle to one node of a [`Graph`].
///
/// Handles compare equal exactly when they denote the same node: identity is
/// the node's position in the arena, never its contents.
#[derive(Clone, Copy, Debug, PartialEq, Eq, Hash, Structural)]
pub struct Value {
    id: usize,
}

impl View for Value {
    type V = nat;

    closed spec fn view(&self) -> nat {
        self.id as nat
    }
}

/// What a node holds, as seen by contracts.
pub struct NodeView<S> {
    pub data: S,
    pub grad: S,
    pub op: Option<Op>,
    pub parents: Seq<Value>,
    pub exponent: Option<S>,
}

/// The whole arena, as seen by contracts: the nodes in creation order and the
/// two constants the engine seeds with.
pub struct GraphView<S> {
    pub nodes: Seq<NodeView<S>>,
    pub zero: S,
    pub one: S,
}

impl<S> GraphView<S> {
    pub open spec fn valid(self, v: Value) -> bool {
        v@ < self.nodes.len()
    }

    /// A node has as many parents as its operator has operands, every parent
    /// was created before it, and only a power node carries an exponent.
    pub open spec fn node_wf(self, i: int) -> bool {
        let n = self.nodes[i];
        &&& n.parents.len() == arity(n.op)
        &&& forall|k: int| 0 <= k < n.parents.len() ==> (#[trigger] n.parents[k])@ < i
        &&& (n.op == Some(Op::Pow) <==> n.exponent is Some)
    }

    pub open spec fn wf(self) -> bool {
        forall|i: int| 0 <= i < self.nodes.len() ==> #[trigger] self.node_wf(i)
    }

    /// Node `i` is one of the operands of node `c`.
    pub open spec fn is_parent(self, c: int, i: int) -> bool {
        exists|k: int| 0 <= k < self.nodes[c].parents.len() && #[trigger] self.nodes[c].parents[k]@ == i
    }

    /// Node `i` is among the first `k` operands of node `c`.
    pub open spec fn is_parent_among(self, c: int, i: int, k: int) -> bool {
        exists|q: int| 0 <= q < k && #[trigger] self.nodes[c].parents[q]@ == i
    }

    /// Node `i` is `root` itself or reachable from it through operands.
    pub open spec fn is_ancestor(self, root: int, i: int) -> bool
        decreases root - i,
    {
        i == root || (i < root && exists|c: int|
            i < c <= root && #[trigger] self.is_parent(c, i) && self.is_ancestor(root, c))
    }

    /// `self` is `old` with `count` nodes appended and nothing else changed.
    pub open spec fn extends(self, old: GraphView<S>, count: nat) -> bool {
        &&& self.nodes.len() == old.nodes.len() + count
        &&& self.nodes.subrange(0, old.nodes.len() as int) == old.nodes
        &&& self.zero == old.zero
        &&& self.one == old.one
    }

    /// `self` is `old` with zero or more nodes appended and nothing else
    /// changed.
    pub open spec fn grows_from(self, old: GraphView<S>) -> bool {
        self.nodes.len() >= old.nodes.len() && self.extends(old, (self.nodes.len() - old.nodes.len()) as nat)
    }

    /// Node `i` has the given operator, operands and exponent, and a zero
    /// gradient.
    pub open spec fn fresh(self, i: int, op: Option<Op>, parents: Seq<Value>, exponent: Option<S>) -> bool {
        let n = self.nodes[i];
        &&& n.op == op
        &&& n.parents == parents
        &&& n.exponent == exponent
        &&& n.grad == self.zero
    }

    /// Node `i` is `op` applied to the nodes at positions `a` and `b`, with a
    /// zero gradient.
    pub open spec fn fresh_pair(self, i: int, op: Op, a: int, b: int) -> bool {
        let n = self.nodes[i];
        &&& n.op == Some(op)
        &&& n.parents.len() == 2
        &&& n.parents[0]@ == a
        &&& n.parents[1]@ == b
        &&& n.exponent is None
        &&& n.grad == self.zero
    }

    /// Node `i` is a leaf holding `data`, with a zero gradient.
    pub open spec fn fresh_leaf(self, i: int, data: S) -> bool {
        self.fresh(i, None, Seq::empty(), None) && self.nodes[i].data == data
    }

    /// `self` is what a backward pass from `root` leaves of `old`: nothing but
    /// gradients changes, only ancestors of `root` receive gradient, and the
    /// root's own gradient is one.
    pub open spec fn after_backward(self, old: GraphView<S>, root: int) -> bool {
        &&& self.nodes.len() == old.nodes.len()
        &&& self.zero == old.zero
        &&& self.one == old.one
        &&& forall|j: int|
            0 <= j < old.nodes.len() ==> {
                let (a, b) = (#[trigger] self.nodes[j], old.nodes[j]);
                &&& a.data == b.data
                &&& a.op == b.op
                &&& a.parents == b.parents
                &&& a.exponent == b.exponent
                &&& (!old.is_ancestor(root, j) ==> a.grad == b.grad)
            }
        &&& self.nodes[root].grad == old.one
    }

    /// Only the gradient of node `i` may differ between `self` and `old`.
    pub open spec fn same_except_grad(self, old: GraphView<S>, i: int) -> bool {
        &&& self.nodes.len() == old.nodes.len()
        &&& self.zero == old.zero
        &&& self.one == old.one
        &&& forall|j: int| 0 <= j < self.nodes.len() && j != i ==> self.nodes[j] == old.nodes[j]
        &&& self.nodes[i].data == old.nodes[i].data
        &&& self.nodes[i].op == old.nodes[i].op
        &&& self.nodes[i].parents == old.nodes[i].parents
        &&& self.nodes[i].exponent == old.nodes[i].exponent
    }
}

impl<S: Scalar> GraphView<S> {
    /// `self` with `amount` added to the gradient of node `j`.
    pub open spec fn bump(self, j: int, amount: S) -> GraphView<S> {
        GraphView {
            nodes: self.nodes.update(j, (NodeView { grad: self.nodes[j].grad.spec_add(amount), ..self.nodes[j] })),
            zero: self.zero,
            one: self.one,
        }
    }

    /// The local gradient rule of node `i`: with `g` its gradient and `y` its
    /// value, a sum adds `g` to both operands; a product adds `g` times the
    /// other operand's value to each; `exp` adds `g * y`; a power with
    /// exponent `k` adds `g * k * a^(k - 1)` for operand value `a`; `relu`
    /// adds `g` when `y` is positive; `tanh` adds `g * (1 - y * y)`. The
    /// additions happen in operand order, so an operand used twice receives
    /// two contributions.
    pub open spec fn step(self, i: int) -> GraphView<S> {
        let n = self.nodes[i];
        let g = n.grad;
        let y = n.data;
        if n.parents.len() == 0 {
            self
        } else {
            let a = n.parents[0]@ as int;
            let x = self.nodes[a].data;
            match n.op {
                Some(Op::Add) => self.bump(a, g).bump(n.parents[1]@ as int, g),
                Some(Op::Mul) => {
                    let b = n.parents[1]@ as int;
                    self.bump(a, g.spec_mul(self.nodes[b].data)).bump(b, g.spec_mul(x))
                },
                Some(Op::Exp) => self.bump(a, g.spec_mul(y)),
                Some(Op::Pow) => match n.exponent {
                    Some(k) => self.bump(a, g.spec_mul(k).spec_mul(x.spec_powf(k.spec_sub(S::spec_one())))),
                    None => self,
                },
                Some(Op::ReLU) => if y.spec_is_positive() {
                    self.bump(a, g)
                } else {
                    self
                },
                Some(Op::TanH) => self.bump(a, g.spec_mul(S::spec_one().spec_sub(y.spec_mul(y)))),
                None => self,
            }
        }
    }
}

impl<S: Scalar> GraphView<S> {
    /// Positions below `n` of the ancestors of `root`, in increasing order.
    pub open spec fn ancestor_positions(self, root: int, n: int) -> Seq<int>
        decreases n,
    {
        if n <= 0 {
            Seq::empty()
        } else if self.is_ancestor(root, n - 1) {
            self.ancestor_positions(root, n - 1).push(n - 1)
        } else {
            self.ancestor_positions(root, n - 1)
        }
    }

    /// `self` with the local rule applied at each listed position, the last
    /// position first.
    pub open spec fn sweep(self, order: Seq<int>) -> GraphView<S>
        decreases order.len(),
    {
        if order.len() == 0 {
            self
        } else {
            self.step(order.last()).sweep(order.drop_last())
        }
    }

    /// `self` with the gradient of `root` overwritten by one.
    pub open spec fn seeded(self, root: int) -> GraphView<S> {
        GraphView {
            nodes: self.nodes.update(root, (NodeView { grad: self.one, ..self.nodes[root] })),
            zero: self.zero,
            one: self.one,
        }
    }

    /// What a backward pass from `root` makes of `self`: the root's gradient
    /// is set to one, then every ancestor of the root, users before operands,
    /// applies its local rule.
    pub open spec fn backward_result(self, root: int) -> GraphView<S> {
        self.seeded(root).sweep(self.ancestor_positions(root, root + 1))
    }
}

/// An arena of nodes. Nodes are only ever appended, and each node's operands
/// are older nodes, so the graph is acyclic by construction.
pub struct Graph<S> {
    data: Vec<S>,
    grad: Vec<S>,
    ops: Vec<Option<Op>>,
    parents: Vec<Vec<Value>>,
    exponents: Vec<Option<S>>,
    zero: S,
    one: S,
}

impl<S> View for Graph<S> {
    type V = GraphView<S>;

    closed spec fn view(&self) -> GraphView<S> {
        GraphView {
            nodes: Seq::new(
                self.data@.len(),
                |i: int|
                    NodeView {
                        data: self.data@[i],
                        grad: self.grad@[i],
                        op: self.ops@[i],
                        parents: self.parents@[i]@,
                        exponent: self.exponents@[i],
                    },
            ),
            zero: self.zero,
            one: self.one,
        }
    }
}

impl<S: Scalar> Graph<S> {
    /// The columns of the arena all have one entry per node.
    pub closed spec fn columns_agree(&self) -> bool {
        let n = self.data@.len();
        &&& self.grad@.len() == n
        &&& self.ops@.len() == n
        &&& self.parents@.len() == n
        &&& self.exponents@.len() == n
    }

    pub open spec fn wf(&self) -> bool {
        self.columns_agree() && self@.wf()
    }

    /// An empty graph.
    pub fn new() -> (g: Self)
        ensures
            g.wf(),
            g@.nodes.len() == 0,
            g@.zero == S::spec_zero(),
            g@.one == S::spec_one(),
    {
        let g = Graph {
            data: Vec::new(),
            grad: Vec::new(),
            ops: Vec::new(),
            parents: Vec::new(),
            exponents: Vec::new(),
            zero: S::zero(),
            one: S::one(),
        };
        assert(g@.nodes =~= Seq::<NodeView<S>>::empty());
        g
    }

    /// Number of nodes created so far.
    pub fn len(&self) -> (r: usize)
        requires
            self.wf(),
        ensures
            r == self@.nodes.len(),
    {
        self.data.len()
    }

    fn push_node(&mut self, data: S, op: Option<Op>, parents: Vec<Value>, exponent: Option<S>) -> (r: Value)
        requires
            old(self).wf(),
            parents@.len() == arity(op),
            forall|k: int| 0 <= k < parents@.len() ==> old(self)@.valid(#[trigger] parents@[k]),
            op == Some(Op::Pow) <==> exponent is Some,
        ensures
            final(self).wf(),
            final(self)@.extends(old(self)@, 1),
            final(self)@.fresh(r@ as int, op, parents@, exponent),
            final(self)@.nodes[r@ as int].data == data,
            r@ == old(self)@.nodes.len(),
    {
        let ghost pre = self@;
        let id = self.data.len();
        let zero = self.zero;
        self.data.push(data);
        self.grad.push(zero);
        self.ops.push(op);
        self.parents.push(parents);
        self.exponents.push(exponent);
        assert(self@.nodes.subrange(0, id as int) =~= pre.nodes);
        assert forall|i: int| 0 <= i < self@.nodes.len() implies #[trigger] self@.node_wf(i) by {
            if i < id {
                assert(self@.nodes[i] == pre.nodes[i]);
                assert(pre.node_wf(i));
            }
        }
        Value { id }
    }

    /// Marks, for every node up to `root`, whether it is an ancestor of `root`.
    ///
    /// Operands are always older than the node using them, so a single sweep
    /// from `root` down to the first node sees every user of a node before the
    /// node itself.
    fn ancestors(&self, root: usize) -> (mark: Vec<bool>)
        requires
            self.wf(),
            root < self@.nodes.len(),
        ensures
            mark@.len() == root + 1,
            forall|j: int| 0 <= j <= root ==> (mark@[j] <==> #[trigger] self@.is_ancestor(root as int, j)),
    {
        let ghost g = self@;
        let len = self.data.len();
        let mut mark: Vec<bool> = Vec::new();
        let mut j: usize = 0;
        while j <= root
            invariant
                root < len,
                j <= root + 1,
                mark@.len() == j,
                forall|t: int| 0 <= t < j ==> !mark@[t],
            decreases root + 1 - j,
        {
            mark.push(false);
            j = j + 1;
        }
        mark.set(root, true);
        let mut i: usize = root + 1;
        while i > 0
            invariant
                self.wf(),
                g == self@,
                root < g.nodes.len(),
                i <= root + 1,
                mark@.len() == root + 1,
                forall|t: int| i <= t <= root ==> (mark@[t] <==> #[trigger] g.is_ancestor(root as int, t)),
                forall|t: int|
                    0 <= t < i ==> (mark@[t] <==> (t == root || exists|c: int|
                        i <= c <= root && #[trigger] g.is_parent(c, t) && g.is_ancestor(root as int, c))),
            decreases i,
        {
            i = i - 1;
            proof {
                reveal_with_fuel(GraphView::is_ancestor, 2);
                if mark@[i as int] {
                    if i != root {
                        let c = choose|c: int|
                            i + 1 <= c <= root && #[trigger] g.is_parent(c, i as int) && g.is_ancestor(root as int, c);
                        assert(g.is_parent(c, i as int));
                    }
                }
                if g.is_ancestor(root as int, i as int) && i != root {
                    let c = choose|c: int|
                        i < c <= root && #[trigger] g.is_parent(c, i as int) && g.is_ancestor(root as int, c);
                    assert(g.is_parent(c, i as int));
                }
            }
            assert(mark@[i as int] <==> g.is_ancestor(root as int, i as int));
            let ghost before = mark@;
            if mark[i] {
                let n = self.parents[i].len();
                assert(g.node_wf(i as int));
                let mut k: usize = 0;
                while k < n
                    invariant
                        self.wf(),
                        g == self@,
                        i < root + 1,
                        root < g.nodes.len(),
                        n == g.nodes[i as int].parents.len(),
                        g.node_wf(i as int),
                        k <= n,
                        mark@.len() == root + 1,
                        before.len() == root + 1,
                        forall|t: int| i <= t <= root ==> mark@[t] == before[t],
                        forall|t: int|
                            #![trigger mark@[t]]
                            0 <= t < i ==> (mark@[t] <==> (before[t] || g.is_parent_among(i as int, t, k as int))),
                    decreases n - k,
                {
                    let p = self.parents[i][k];
                    assert(g.nodes[i as int].parents[k as int] == p);
                    assert(p@ < i);
                    let ghost prev = mark@;
                    let ghost k0 = k as int;
                    mark.set(p.id, true);
                    k = k + 1;
                    assert forall|t: int| 0 <= t < i implies (mark@[t] <==> (before[t] || #[trigger] g.is_parent_among(i as int, t, k as int))) by {
                        assert(prev[t] <==> (before[t] || g.is_parent_among(i as int, t, k0)));
                        if g.is_parent_among(i as int, t, k as int) {
                            let q = choose|q: int| 0 <= q < k && #[trigger] g.nodes[i as int].parents[q]@ == t;
                            if q < k0 {
                                assert(g.is_parent_among(i as int, t, k0));
                            }
                        }
                        if g.is_parent_among(i as int, t, k0) {
                            let q = choose|q: int| 0 <= q < k0 && #[trigger] g.nodes[i as int].parents[q]@ == t;
                            assert(g.is_parent_among(i as int, t, k as int));
                        }
                        if t == p.id {
                            assert(g.nodes[i as int].parents[k0]@ == t);
                        }
                    }
                }
                assert forall|t: int| 0 <= t < i implies (mark@[t] <==> (before[t] || g.is_parent(i as int, t))) by {
                    assert(mark@[t] <==> (before[t] || g.is_parent_among(i as int, t, k as int)));
                    if g.is_parent(i as int, t) {
                        let q = choose|q: int|
                            0 <= q < g.nodes[i as int].parents.len() && #[trigger] g.nodes[i as int].parents[q]@ == t;
                        assert(g.is_parent_among(i as int, t, k as int));
                    }
                    if g.is_parent_among(i as int, t, k as int) {
                        let q = choose|q: int| 0 <= q < k && #[trigger] g.nodes[i as int].parents[q]@ == t;
                        assert(g.is_parent(i as int, t));
                    }
                }
            }
            assert forall|t: int| 0 <= t < i implies (mark@[t] <==> (before[t] || (
                g.is_ancestor(root as int, i as int) && g.is_parent(i as int, t)))) by {
                if !mark@[i as int] {
                    assert(mark@[t] == before[t]);
                }
            }
            assert forall|t: int| 0 <= t < i implies (mark@[t] <==> (t == root || exists|c: int|
                i <= c <= root && #[trigger] g.is_parent(c, t) && g.is_ancestor(root as int, c))) by {
                if exists|c: int| i <= c <= root && #[trigger] g.is_parent(c, t) && g.is_ancestor(root as int, c) {
                    let c = choose|c: int| i <= c <= root && #[trigger] g.is_parent(c, t) && g.is_ancestor(root as int, c);
                    if c != i {
                        assert(i + 1 <= c <= root && g.is_parent(c, t) && g.is_ancestor(root as int, c));
                    }
                }
                if before[t] && t != root {
                    let c = choose|c: int| i + 1 <= c <= root && #[trigger] g.is_parent(c, t) && g.is_ancestor(root as int, c);
                    assert(i <= c <= root && g.is_parent(c, t) && g.is_ancestor(root as int, c));
                }
                if g.is_ancestor(root as int, i as int) && g.is_parent(i as int, t) {
                    assert(g.is_parent(i as int, t));
                }
            }
        }
        mark
    }

    /// The ancestors of `root` (itself included), each once, every node
    /// listed after all of its operands.
    pub fn topological_order(&self, root: Value) -> (r: Vec<Value>)
        requires
            self.wf(),
            self@.valid(root),
        ensures
            forall|k: int| 0 <= k < r@.len() ==> self@.valid(#[trigger] r@[k]),
            forall|k: int| 0 <= k < r@.len() ==> self@.is_ancestor(root@ as int, #[trigger] r@[k]@ as int),
            forall|i: int|
                0 <= i < self@.nodes.len() && #[trigger] self@.is_ancestor(root@ as int, i) ==> exists|k: int|
                    0 <= k < r@.len() && #[trigger] r@[k]@ == i,
            forall|a: int, b: int| 0 <= a < b < r@.len() ==> (#[trigger] r@[a])@ < (#[trigger] r@[b])@,
            r@.map_values(|v: Value| v@ as int) == self@.ancestor_positions(root@ as int, root@ + 1 as int),
    {
        let mark = self.ancestors(root.id);
        let len = self.data.len();
        let mut r: Vec<Value> = Vec::new();
        let mut i: usize = 0;
        while i <= root.id
            invariant
                self.wf(),
                root@ < self@.nodes.len(),
                len == self@.nodes.len(),
                i <= root@ + 1,
                mark@.len() == root@ + 1,
                forall|j: int| 0 <= j <= root@ ==> (mark@[j] <==> #[trigger] self@.is_ancestor(root@ as int, j)),
                forall|k: int| 0 <= k < r@.len() ==> (#[trigger] r@[k])@ < i,
                forall|k: int| 0 <= k < r@.len() ==> mark@[#[trigger] r@[k]@ as int],
                forall|j: int| 0 <= j < i && mark@[j] ==> exists|k: int| 0 <= k < r@.len() && #[trigger] r@[k]@ == j,
                forall|a: int, b: int| 0 <= a < b < r@.len() ==> (#[trigger] r@[a])@ < (#[trigger] r@[b])@,
                r@.map_values(|v: Value| v@ as int) == self@.ancestor_positions(root@ as int, i as int),
            decreases root@ + 1 - i,
        {
            let ghost before = r@;
            if mark[i] {
                let v = Value { id: i };
                r.push(v);
                assert(r@[r@.len() - 1]@ == i);
            }
            assert(r@.map_values(|v: Value| v@ as int) =~= self@.ancestor_positions(root@ as int, i + 1));
            assert forall|j: int| 0 <= j < i && mark@[j] implies exists|k: int|
                0 <= k < r@.len() && #[trigger] r@[k]@ == j by {
                let k = choose|k: int| 0 <= k < before.len() && #[trigger] before[k]@ == j;
                assert(r@[k] == before[k]);
            }
            i = i + 1;
        }
        proof {
            assert forall|j: int| 0 <= j < self@.nodes.len() && #[trigger] self@.is_ancestor(root@ as int, j)
                implies exists|k: int| 0 <= k < r@.len() && #[trigger] r@[k]@ == j by {
                if j > root@ {
                    assert(!self@.is_ancestor(root@ as int, j));
                }
                assert(mark@[j]);
            }
        }
        r
    }

    /// Overwrites the gradient of node `i` with one.
    fn seed(&mut self, i: usize)
        requires
            old(self).wf(),
            i < old(self)@.nodes.len(),
        ensures
            final(self).wf(),
            final(self)@.same_except_grad(old(self)@, i as int),
            final(self)@.nodes[i as int].grad == old(self)@.one,
            final(self)@ == old(self)@.seeded(i as int),
    {
        let ghost pre = self@;
        let one = self.one;
        self.grad.set(i, one);
        assert(self@.nodes =~= pre.seeded(i as int).nodes);
        assert forall|j: int| 0 <= j < self@.nodes.len() implies #[trigger] self@.node_wf(j) by {
            assert(pre.node_wf(j));
            assert(self@.nodes[j].parents == pre.nodes[j].parents);
        }
    }

    /// Adds `amount` to the gradient of node `i`.
    fn accumulate(&mut self, i: usize, amount: S)
        requires
            old(self).wf(),
            i < old(self)@.nodes.len(),
        ensures
            final(self).wf(),
            final(self)@.same_except_grad(old(self)@, i as int),
            final(self)@ == old(self)@.bump(i as int, amount),
    {
        let ghost pre = self@;
        let total = self.grad[i].add(amount);
        self.grad.set(i, total);
        assert(self@.nodes =~= pre.bump(i as int, amount).nodes);
        assert forall|j: int| 0 <= j < self@.nodes.len() implies #[trigger] self@.node_wf(j) by {
            assert(pre.node_wf(j));
            assert(self@.nodes[j].parents == pre.nodes[j].parents);
        }
    }

    /// Applies the local gradient rule of node `i`: each operand's gradient
    /// receives its share of node `i`'s gradient.
    fn propagate(&mut self, i: usize)
        requires
            old(self).wf(),
            i < old(self)@.nodes.len(),
        ensures
            final(self).wf(),
            final(self)@ == old(self)@.step(i as int),
            final(self)@.nodes.len() == old(self)@.nodes.len(),
            final(self)@.zero == old(self)@.zero,
            final(self)@.one == old(self)@.one,
            forall|j: int|
                0 <= j < old(self)@.nodes.len() ==> {
                    let (a, b) = (#[trigger] final(self)@.nodes[j], old(self)@.nodes[j]);
                    &&& a.data == b.data
                    &&& a.op == b.op
                    &&& a.parents == b.parents
                    &&& a.exponent == b.exponent
                    &&& (a.grad != b.grad ==> old(self)@.is_parent(i as int, j))
                },
    {
        let ghost pre = self@;
        proof {
            assert(pre.node_wf(i as int));
        }
        let g = self.grad[i];
        let y = self.data[i];
        match self.ops[i] {
            None => {},
            Some(Op::Add) => {
                let a = self.parents[i][0];
                let b = self.parents[i][1];
                assert(pre.nodes[i as int].parents[0] == a);
                assert(pre.nodes[i as int].parents[1] == b);
                self.accumulate(a.id, g);
                self.accumulate(b.id, g);
            },
            Some(Op::Mul) => {
                let a = self.parents[i][0];
                let b = self.parents[i][1];
                assert(pre.nodes[i as int].parents[0] == a);
                assert(pre.nodes[i as int].parents[1] == b);
                let da = self.data[a.id];
                let db = self.data[b.id];
                self.accumulate(a.id, g.mul(db));
                self.accumulate(b.id, g.mul(da));
            },
            Some(Op::Exp) => {
                let a = self.parents[i][0];
                assert(pre.nodes[i as int].parents[0] == a);
                self.accumulate(a.id, g.mul(y));
            },
            Some(Op::Pow) => {
                let a = self.parents[i][0];
                assert(pre.nodes[i as int].parents[0] == a);
                let k = match self.exponents[i] {
                    Some(k) => k,
                    None => S::zero(),
                };
                let x = self.data[a.id];
                let amount = g.mul(k).mul(x.powf(k.sub(S::one())));
                self.accumulate(a.id, amount);
            },
            Some(Op::ReLU) => {
                let a = self.parents[i][0];
                assert(pre.nodes[i as int].parents[0] == a);
                if y.is_positive() {
                    self.accumulate(a.id, g);
                }
            },
            Some(Op::TanH) => {
                let a = self.parents[i][0];
                assert(pre.nodes[i as int].parents[0] == a);
                let local = S::one().sub(y.mul(y));
                self.accumulate(a.id, g.mul(local));
            },
        }
    }
}

} // verus!

verus! {

/// Appending is transitive, and appending keeps every existing node.
pub proof fn lemma_extends_trans<S>(a: GraphView<S>, b: GraphView<S>, c: GraphView<S>, m: nat, n: nat)
    requires
        b.extends(a, m),
        c.extends(b, n),
    ensures
        c.extends(a, m + n),
        forall|i: int| 0 <= i < b.nodes.len() ==> c.nodes[i] == b.nodes[i],
{
    assert forall|i: int| 0 <= i < b.nodes.len() implies c.nodes[i] == b.nodes[i] by {
        assert(c.nodes.subrange(0, b.nodes.len() as int)[i] == c.nodes[i]);
    }
    assert(c.nodes.subrange(0, a.nodes.len() as int) =~= a.nodes) by {
        assert forall|i: int| 0 <= i < a.nodes.len() implies c.nodes[i] == a.nodes[i] by {
            assert(b.nodes.subrange(0, a.nodes.len() as int)[i] == b.nodes[i]);
        }
    }
}

fn single(v: Value) -> (r: Vec<Value>)
    ensures
        r@ == seq![v],
{
    let r = vec![v];
    assert(r@ =~= seq![v]);
    r
}

impl Value {
    /// Position of this node in its graph.
    pub fn id(&self) -> (r: usize)
        ensures
            r == self@,
    {
        self.id
    }

    /// A new leaf holding `data`: an input or a parameter.
    pub fn new<S: Scalar>(g: &mut Graph<S>, data: S) -> (r: Value)
        requires
            old(g).wf(),
        ensures
            final(g).wf(),
            final(g)@.extends(old(g)@, 1),
            final(g)@.fresh_leaf(r@ as int, data),
            r@ == old(g)@.nodes.len(),
    {
        g.push_node(data, None, Vec::new(), None)
    }

    /// `e` raised to this node.
    pub fn exp<S: Scalar>(&self, g: &mut Graph<S>) -> (r: Value)
        requires
            old(g).wf(),
            old(g)@.valid(*self),
        ensures
            final(g).wf(),
            final(g)@.extends(old(g)@, 1),
            final(g)@.fresh(r@ as int, Some(Op::Exp), seq![*self], None),
            r@ == old(g)@.nodes.len(),
            final(g)@.nodes[r@ as int].data == old(g)@.nodes[self@ as int].data.spec_exp(),
    {
        let x = g.data[self.id];
        g.push_node(x.exp(), Some(Op::Exp), single(*self), None)
    }

    /// This node raised to the constant power `k`.
    pub fn pow<S: Scalar>(&self, g: &mut Graph<S>, k: S) -> (r: Value)
        requires
            old(g).wf(),
            old(g)@.valid(*self),
        ensures
            final(g).wf(),
            final(g)@.extends(old(g)@, 1),
            final(g)@.fresh(r@ as int, Some(Op::Pow), seq![*self], Some(k)),
            r@ == old(g)@.nodes.len(),
            final(g)@.nodes[r@ as int].data == old(g)@.nodes[self@ as int].data.spec_powf(k),
    {
        let x = g.data[self.id];
        g.push_node(x.powf(k), Some(Op::Pow), single(*self), Some(k))
    }

    /// The larger of this node and zero.
    pub fn relu<S: Scalar>(&self, g: &mut Graph<S>) -> (r: Value)
        requires
            old(g).wf(),
            old(g)@.valid(*self),
        ensures
            final(g).wf(),
            final(g)@.extends(old(g)@, 1),
            final(g)@.fresh(r@ as int, Some(Op::ReLU), seq![*self], None),
            r@ == old(g)@.nodes.len(),
            final(g)@.nodes[r@ as int].data == old(g)@.nodes[self@ as int].data.spec_relu(),
    {
        let x = g.data[self.id];
        g.push_node(x.relu(), Some(Op::ReLU), single(*self), None)
    }

    /// The hyperbolic tangent of this node.
    pub fn tanh<S: Scalar>(&self, g: &mut Graph<S>) -> (r: Value)
        requires
            old(g).wf(),
            old(g)@.valid(*self),
        ensures
            final(g).wf(),
            final(g)@.extends(old(g)@, 1),
            final(g)@.fresh(r@ as int, Some(Op::TanH), seq![*self], None),
            r@ == old(g)@.nodes.len(),
            final(g)@.nodes[r@ as int].data == old(g)@.nodes[self@ as int].data.spec_tanh(),
    {
        let x = g.data[self.id];
        g.push_node(x.tanh(), Some(Op::TanH), single(*self), None)
    }

    /// The sum of this node and `other`.
    pub fn add<S: Scalar>(&self, g: &mut Graph<S>, other: Value) -> (r: Value)
        requires
            old(g).wf(),
            old(g)@.valid(*self),
            old(g)@.valid(other),
        ensures
            final(g).wf(),
            final(g)@.extends(old(g)@, 1),
            final(g)@.fresh(r@ as int, Some(Op::Add), seq![*self, other], None),
            r@ == old(g)@.nodes.len(),
            final(g)@.nodes[r@ as int].data == old(g)@.nodes[self@ as int].data.spec_add(old(g)@.nodes[other@ as int].data),
    {
        let x = g.data[self.id];
        let y = g.data[other.id];
        g.push_node(x.add(y), Some(Op::Add), vec![*self, other], None)
    }

    /// The product of this node and `other`.
    pub fn mul<S: Scalar>(&self, g: &mut Graph<S>, other: Value) -> (r: Value)
        requires
            old(g).wf(),
            old(g)@.valid(*self),
            old(g)@.valid(other),
        ensures
            final(g).wf(),
            final(g)@.extends(old(g)@, 1),
            final(g)@.fresh(r@ as int, Some(Op::Mul), seq![*self, other], None),
            r@ == old(g)@.nodes.len(),
            final(g)@.nodes[r@ as int].data == old(g)@.nodes[self@ as int].data.spec_mul(old(g)@.nodes[other@ as int].data),
    {
        let x = g.data[self.id];
        let y = g.data[other.id];
        g.push_node(x.mul(y), Some(Op::Mul), vec![*self, other], None)
    }

    /// This node plus the constant `c`, which becomes a new leaf.
    pub fn add_scalar<S: Scalar>(&self, g: &mut Graph<S>, c: S) -> (r: Value)
        requires
            old(g).wf(),
            old(g)@.valid(*self),
        ensures
            final(g).wf(),
            final(g)@.extends(old(g)@, 2),
            final(g)@.fresh_leaf(old(g)@.nodes.len() as int, c),
            final(g)@.fresh_pair(r@ as int, Op::Add, self@ as int, old(g)@.nodes.len() as int),
            r@ == old(g)@.nodes.len() + 1,
            final(g)@.nodes[r@ as int].data == old(g)@.nodes[self@ as int].data.spec_add(c),
    {
        let ghost g0 = g@;
        let c = Value::new(g, c);
        let ghost g1 = g@;
        let r = self.add(g, c);
        proof { lemma_extends_trans(g0, g1, g@, 1, 1); }
        r
    }

    /// The constant `c`, as a new leaf, plus `v`.
    pub fn scalar_add<S: Scalar>(c: S, g: &mut Graph<S>, v: Value) -> (r: Value)
        requires
            old(g).wf(),
            old(g)@.valid(v),
        ensures
            final(g).wf(),
            final(g)@.extends(old(g)@, 2),
            final(g)@.fresh_leaf(old(g)@.nodes.len() as int, c),
            final(g)@.fresh_pair(r@ as int, Op::Add, old(g)@.nodes.len() as int, v@ as int),
            r@ == old(g)@.nodes.len() + 1,
            final(g)@.nodes[r@ as int].data == c.spec_add(old(g)@.nodes[v@ as int].data),
    {
        let ghost g0 = g@;
        let c = Value::new(g, c);
        let ghost g1 = g@;
        let r = c.add(g, v);
        proof { lemma_extends_trans(g0, g1, g@, 1, 1); }
        r
    }

    /// This node times the constant `c`, which becomes a new leaf.
    pub fn mul_scalar<S: Scalar>(&self, g: &mut Graph<S>, c: S) -> (r: Value)
        requires
            old(g).wf(),
            old(g)@.valid(*self),
        ensures
            final(g).wf(),
            final(g)@.extends(old(g)@, 2),
            final(g)@.fresh_leaf(old(g)@.nodes.len() as int, c),
            final(g)@.fresh_pair(r@ as int, Op::Mul, self@ as int, old(g)@.nodes.len() as int),
            r@ == old(g)@.nodes.len() + 1,
            final(g)@.nodes[r@ as int].data == old(g)@.nodes[self@ as int].data.spec_mul(c),
    {
        let ghost g0 = g@;
        let c = Value::new(g, c);
        let ghost g1 = g@;
        let r = self.mul(g, c);
        proof { lemma_extends_trans(g0, g1, g@, 1, 1); }
        r
    }

    /// The constant `c` times `v`; the constant becomes a new leaf and stands
    /// as the right operand.
    pub fn scalar_mul<S: Scalar>(c: S, g: &mut Graph<S>, v: Value) -> (r: Value)
        requires
            old(g).wf(),
            old(g)@.valid(v),
        ensures
            final(g).wf(),
            final(g)@.extends(old(g)@, 2),
            final(g)@.fresh_leaf(old(g)@.nodes.len() as int, c),
            final(g)@.fresh_pair(r@ as int, Op::Mul, v@ as int, old(g)@.nodes.len() as int),
            r@ == old(g)@.nodes.len() + 1,
            final(g)@.nodes[r@ as int].data == old(g)@.nodes[v@ as int].data.spec_mul(c),
    {
        v.mul_scalar(g, c)
    }

    /// The negation of this node: the product with a new leaf holding minus
    /// one.
    pub fn neg<S: Scalar>(&self, g: &mut Graph<S>) -> (r: Value)
        requires
            old(g).wf(),
            old(g)@.valid(*self),
        ensures
            final(g).wf(),
            final(g)@.extends(old(g)@, 2),
            final(g)@.fresh(old(g)@.nodes.len() as int, None, Seq::empty(), None),
            final(g)@.fresh_pair(r@ as int, Op::Mul, self@ as int, old(g)@.nodes.len() as int),
            r@ == old(g)@.nodes.len() + 1,
            final(g)@.nodes[old(g)@.nodes.len() as int].data == S::spec_one().spec_neg(),
            final(g)@.nodes[r@ as int].data == old(g)@.nodes[self@ as int].data.spec_mul(S::spec_one().spec_neg()),
    {
        let minus_one = S::one().neg();
        self.mul_scalar(g, minus_one)
    }

    /// This node minus `other`: the sum with the negation of `other`.
    pub fn sub<S: Scalar>(&self, g: &mut Graph<S>, other: Value) -> (r: Value)
        requires
            old(g).wf(),
            old(g)@.valid(*self),
            old(g)@.valid(other),
        ensures
            final(g).wf(),
            final(g)@.extends(old(g)@, 3),
            final(g)@.fresh(old(g)@.nodes.len() as int, None, Seq::empty(), None),
            final(g)@.fresh_pair(old(g)@.nodes.len() + 1 as int, Op::Mul, other@ as int, old(g)@.nodes.len() as int),
            final(g)@.fresh_pair(r@ as int, Op::Add, self@ as int, old(g)@.nodes.len() + 1 as int),
            r@ == old(g)@.nodes.len() + 2,
            final(g)@.nodes[old(g)@.nodes.len() as int].data == S::spec_one().spec_neg(),
            final(g)@.nodes[old(g)@.nodes.len() + 1 as int].data == old(g)@.nodes[other@ as int].data.spec_mul(S::spec_one().spec_neg()),
            final(g)@.nodes[r@ as int].data == old(g)@.nodes[self@ as int].data.spec_add(old(g)@.nodes[other@ as int].data.spec_mul(S::spec_one().spec_neg())),
    {
        let ghost g0 = g@;
        let n = other.neg(g);
        let ghost g1 = g@;
        let r = self.add(g, n);
        proof { lemma_extends_trans(g0, g1, g@, 2, 1); }
        r
    }

    /// This node minus the constant `c`: the sum with a new leaf holding the
    /// negation of `c`.
    pub fn sub_scalar<S: Scalar>(&self, g: &mut Graph<S>, c: S) -> (r: Value)
        requires
            old(g).wf(),
            old(g)@.valid(*self),
        ensures
            final(g).wf(),
            final(g)@.extends(old(g)@, 2),
            final(g)@.fresh(old(g)@.nodes.len() as int, None, Seq::empty(), None),
            final(g)@.fresh_pair(r@ as int, Op::Add, self@ as int, old(g)@.nodes.len() as int),
            r@ == old(g)@.nodes.len() + 1,
            final(g)@.nodes[old(g)@.nodes.len() as int].data == c.spec_neg(),
            final(g)@.nodes[r@ as int].data == old(g)@.nodes[self@ as int].data.spec_add(c.spec_neg()),
    {
        self.add_scalar(g, c.neg())
    }

    /// The constant `c` minus `v`: a new leaf holding `c` plus the negation
    /// of `v`.
    pub fn scalar_sub<S: Scalar>(c: S, g: &mut Graph<S>, v: Value) -> (r: Value)
        requires
            old(g).wf(),
            old(g)@.valid(v),
        ensures
            final(g).wf(),
            final(g)@.extends(old(g)@, 4),
            final(g)@.fresh(old(g)@.nodes.len() as int, None, Seq::empty(), None),
            final(g)@.fresh_pair(old(g)@.nodes.len() + 1 as int, Op::Mul, v@ as int, old(g)@.nodes.len() as int),
            final(g)@.fresh_leaf(old(g)@.nodes.len() + 2 as int, c),
            final(g)@.fresh_pair(r@ as int, Op::Add, old(g)@.nodes.len() + 2 as int, old(g)@.nodes.len() + 1 as int),
            r@ == old(g)@.nodes.len() + 3,
            final(g)@.nodes[old(g)@.nodes.len() as int].data == S::spec_one().spec_neg(),
            final(g)@.nodes[old(g)@.nodes.len() + 1 as int].data == old(g)@.nodes[v@ as int].data.spec_mul(S::spec_one().spec_neg()),
            final(g)@.nodes[r@ as int].data == c.spec_add(old(g)@.nodes[v@ as int].data.spec_mul(S::spec_one().spec_neg())),
    {
        let ghost g0 = g@;
        let n = v.neg(g);
        let ghost g1 = g@;
        let r = Value::scalar_add(c, g, n);
        proof { lemma_extends_trans(g0, g1, g@, 2, 2); }
        r
    }

    /// This node divided by `other`: the product with `other` raised to the
    /// power minus one.
    pub fn div<S: Scalar>(&self, g: &mut Graph<S>, other: Value) -> (r: Value)
        requires
            old(g).wf(),
            old(g)@.valid(*self),
            old(g)@.valid(other),
        ensures
            final(g).wf(),
            final(g)@.extends(old(g)@, 2),
            final(g)@.nodes[old(g)@.nodes.len() as int].op == Some(Op::Pow),
            final(g)@.nodes[old(g)@.nodes.len() as int].parents == seq![other],
            final(g)@.nodes[old(g)@.nodes.len() as int].grad == old(g)@.zero,
            final(g)@.fresh_pair(r@ as int, Op::Mul, self@ as int, old(g)@.nodes.len() as int),
            r@ == old(g)@.nodes.len() + 1,
            final(g)@.nodes[old(g)@.nodes.len() as int].exponent == Some(S::spec_one().spec_neg()),
            final(g)@.nodes[old(g)@.nodes.len() as int].data == old(g)@.nodes[other@ as int].data.spec_powf(S::spec_one().spec_neg()),
            final(g)@.nodes[r@ as int].data == old(g)@.nodes[self@ as int].data.spec_mul(old(g)@.nodes[other@ as int].data.spec_powf(S::spec_one().spec_neg())),
    {
        let ghost g0 = g@;
        let minus_one = S::one().neg();
        let p = other.pow(g, minus_one);
        let ghost g1 = g@;
        let r = self.mul(g, p);
        proof { lemma_extends_trans(g0, g1, g@, 1, 1); }
        r
    }

    /// This node divided by the constant `c`: the product with a new leaf
    /// holding `c`, raised to the power minus one.
    pub fn div_scalar<S: Scalar>(&self, g: &mut Graph<S>, c: S) -> (r: Value)
        requires
            old(g).wf(),
            old(g)@.valid(*self),
        ensures
            final(g).wf(),
            final(g)@.extends(old(g)@, 3),
            final(g)@.fresh_leaf(old(g)@.nodes.len() as int, c),
            final(g)@.nodes[old(g)@.nodes.len() + 1 as int].op == Some(Op::Pow),
            final(g)@.nodes[old(g)@.nodes.len() + 1 as int].parents.len() == 1,
            final(g)@.nodes[old(g)@.nodes.len() + 1 as int].parents[0]@ == old(g)@.nodes.len(),
            final(g)@.fresh_pair(r@ as int, Op::Mul, self@ as int, old(g)@.nodes.len() + 1 as int),
            r@ == old(g)@.nodes.len() + 2,
            final(g)@.nodes[old(g)@.nodes.len() + 1 as int].exponent == Some(S::spec_one().spec_neg()),
            final(g)@.nodes[old(g)@.nodes.len() + 1 as int].data == c.spec_powf(S::spec_one().spec_neg()),
            final(g)@.nodes[r@ as int].data == old(g)@.nodes[self@ as int].data.spec_mul(c.spec_powf(S::spec_one().spec_neg())),
    {
        let ghost g0 = g@;
        let d = Value::new(g, c);
        let ghost g1 = g@;
        let r = self.div(g, d);
        proof { lemma_extends_trans(g0, g1, g@, 1, 2); }
        r
    }

    /// The constant `c`, as a new leaf, divided by `v`.
    pub fn scalar_div<S: Scalar>(c: S, g: &mut Graph<S>, v: Value) -> (r: Value)
        requires
            old(g).wf(),
            old(g)@.valid(v),
        ensures
            final(g).wf(),
            final(g)@.extends(old(g)@, 3),
            final(g)@.fresh_leaf(old(g)@.nodes.len() as int, c),
            final(g)@.nodes[old(g)@.nodes.len() + 1 as int].op == Some(Op::Pow),
            final(g)@.nodes[old(g)@.nodes.len() + 1 as int].parents == seq![v],
            final(g)@.fresh_pair(r@ as int, Op::Mul, old(g)@.nodes.len() as int, old(g)@.nodes.len() + 1 as int),
            r@ == old(g)@.nodes.len() + 2,
            final(g)@.nodes[old(g)@.nodes.len() + 1 as int].exponent == Some(S::spec_one().spec_neg()),
            final(g)@.nodes[old(g)@.nodes.len() + 1 as int].data == old(g)@.nodes[v@ as int].data.spec_powf(S::spec_one().spec_neg()),
            final(g)@.nodes[r@ as int].data == c.spec_mul(old(g)@.nodes[v@ as int].data.spec_powf(S::spec_one().spec_neg())),
    {
        let ghost g0 = g@;
        let n = Value::new(g, c);
        let ghost g1 = g@;
        let r = n.div(g, v);
        proof { lemma_extends_trans(g0, g1, g@, 1, 2); }
        r
    }

    /// The operator that produced this node; `None` for a leaf.
    pub fn op<S: Scalar>(&self, g: &Graph<S>) -> (r: Option<Op>)
        requires
            g.wf(),
            g@.valid(*self),
        ensures
            r == g@.nodes[self@ as int].op,
    {
        g.ops[self.id]
    }

    /// The exponent of a power node; `None` for every other node.
    pub fn exponent<S: Scalar>(&self, g: &Graph<S>) -> (r: Option<S>)
        requires
            g.wf(),
            g@.valid(*self),
        ensures
            r == g@.nodes[self@ as int].exponent,
            r is Some <==> g@.nodes[self@ as int].op == Some(Op::Pow),
    {
        assert(g@.node_wf(self@ as int));
        g.exponents[self.id]
    }

    /// The first operand of this node.
    pub fn lvalue<S: Scalar>(&self, g: &Graph<S>) -> (r: Value)
        requires
            g.wf(),
            g@.valid(*self),
            g@.nodes[self@ as int].parents.len() >= 1,
        ensures
            r == g@.nodes[self@ as int].parents[0],
    {
        g.parents[self.id][0]
    }

    /// The second operand of a binary node.
    pub fn rvalue<S: Scalar>(&self, g: &Graph<S>) -> (r: Value)
        requires
            g.wf(),
            g@.valid(*self),
            g@.nodes[self@ as int].parents.len() == 2,
        ensures
            r == g@.nodes[self@ as int].parents[1],
    {
        g.parents[self.id][1]
    }

    /// The operands of this node, in operand order; empty for a leaf.
    pub fn children<S: Scalar>(&self, g: &Graph<S>) -> (r: Vec<Value>)
        requires
            g.wf(),
            g@.valid(*self),
        ensures
            r@ == g@.nodes[self@ as int].parents,
    {
        let ps = &g.parents[self.id];
        let mut r: Vec<Value> = Vec::new();
        let mut k: usize = 0;
        while k < ps.len()
            invariant
                k <= ps@.len(),
                r@ == ps@.subrange(0, k as int),
            decreases ps@.len() - k,
        {
            r.push(ps[k]);
            k = k + 1;
            assert(r@ =~= ps@.subrange(0, k as int));
        }
        assert(ps@.subrange(0, k as int) =~= ps@);
        r
    }

    /// The forward value of this node.
    pub fn data<S: Scalar>(&self, g: &Graph<S>) -> (r: S)
        requires
            g.wf(),
            g@.valid(*self),
        ensures
            r == g@.nodes[self@ as int].data,
    {
        g.data[self.id]
    }

    /// The gradient accumulated in this node.
    pub fn grad<S: Scalar>(&self, g: &Graph<S>) -> (r: S)
        requires
            g.wf(),
            g@.valid(*self),
        ensures
            r == g@.nodes[self@ as int].grad,
    {
        g.grad[self.id]
    }

    /// Overwrites the forward value of this node; nothing is recomputed.
    pub fn set_data<S: Scalar>(&self, g: &mut Graph<S>, data: S)
        requires
            old(g).wf(),
            old(g)@.valid(*self),
        ensures
            final(g).wf(),
            final(g)@.zero == old(g)@.zero,
            final(g)@.one == old(g)@.one,
            final(g)@.nodes == old(g)@.nodes.update(self@ as int, (NodeView { data, ..old(g)@.nodes[self@ as int] })),
    {
        let ghost pre = g@;
        g.data.set(self.id, data);
        assert(g@.nodes =~= pre.nodes.update(self@ as int, (NodeView { data, ..pre.nodes[self@ as int] })));
        assert forall|j: int| 0 <= j < g@.nodes.len() implies #[trigger] g@.node_wf(j) by {
            assert(pre.node_wf(j));
        }
    }

    /// Overwrites the gradient of this node.
    pub fn set_grad<S: Scalar>(&self, g: &mut Graph<S>, grad: S)
        requires
            old(g).wf(),
            old(g)@.valid(*self),
        ensures
            final(g).wf(),
            final(g)@.zero == old(g)@.zero,
            final(g)@.one == old(g)@.one,
            final(g)@.nodes == old(g)@.nodes.update(self@ as int, (NodeView { grad, ..old(g)@.nodes[self@ as int] })),
    {
        let ghost pre = g@;
        g.grad.set(self.id, grad);
        assert(g@.nodes =~= pre.nodes.update(self@ as int, (NodeView { grad, ..pre.nodes[self@ as int] })));
        assert forall|j: int| 0 <= j < g@.nodes.len() implies #[trigger] g@.node_wf(j) by {
            assert(pre.node_wf(j));
        }
    }

    /// Adds `amount` to the gradient of this node.
    pub fn add_grad<S: Scalar>(&self, g: &mut Graph<S>, amount: S)
        requires
            old(g).wf(),
            old(g)@.valid(*self),
        ensures
            final(g).wf(),
            final(g)@ == old(g)@.bump(self@ as int, amount),
    {
        g.accumulate(self.id, amount)
    }

    /// Reverse-mode differentiation from this node: its gradient is set to
    /// one, then every ancestor, users before operands, hands its share of
    /// gradient to its operands. Other gradients are not reset first, so the
    /// contributions add to whatever they held.
    pub fn backward<S: Scalar>(&self, g: &mut Graph<S>)
        requires
            old(g).wf(),
            old(g)@.valid(*self),
        ensures
            final(g).wf(),
            final(g)@ == old(g)@.backward_result(self@ as int),
            final(g)@.after_backward(old(g)@, self@ as int),
    {
        let ghost pre = g@;
        let root = self.id;
        let order = g.topological_order(*self);
        let ghost pos = pre.ancestor_positions(root as int, root + 1);
        g.seed(root);
        let mut k: usize = order.len();
        assert(pos.subrange(0, k as int) =~= pos);
        while k > 0
            invariant
                g.wf(),
                root == self@,
                root < pre.nodes.len(),
                k <= order@.len(),
                forall|t: int| 0 <= t < order@.len() ==> pre.is_ancestor(root as int, #[trigger] order@[t]@ as int),
                forall|t: int| 0 <= t < order@.len() ==> pre.valid(#[trigger] order@[t]),
                g@.nodes.len() == pre.nodes.len(),
                g@.zero == pre.zero,
                g@.one == pre.one,
                forall|j: int|
                    0 <= j < pre.nodes.len() ==> {
                        let (a, b) = (#[trigger] g@.nodes[j], pre.nodes[j]);
                        &&& a.data == b.data
                        &&& a.op == b.op
                        &&& a.parents == b.parents
                        &&& a.exponent == b.exponent
                        &&& (!pre.is_ancestor(root as int, j) ==> a.grad == b.grad)
                    },
                g@.nodes[root as int].grad == pre.one,
                order@.map_values(|v: Value| v@ as int) == pos,
                pre.backward_result(root as int) == g@.sweep(pos.subrange(0, k as int)),
            decreases k,
        {
            k = k - 1;
            let v = order[k];
            let i = v.id;
            let ghost mid = g@;
            assert(pre.is_ancestor(root as int, order@[k as int]@ as int));
            assert(pre.valid(order@[k as int]));
            assert(pos[k as int] == i);
            assert(pos.subrange(0, k + 1).drop_last() =~= pos.subrange(0, k as int));
            g.propagate(i);
            proof {
                assert forall|j: int| 0 <= j < pre.nodes.len() implies {
                    let (a, b) = (#[trigger] g@.nodes[j], pre.nodes[j]);
                    &&& a.data == b.data
                    &&& a.op == b.op
                    &&& a.parents == b.parents
                    &&& a.exponent == b.exponent
                    &&& (!pre.is_ancestor(root as int, j) ==> a.grad == b.grad)
                } by {
                    if g@.nodes[j].grad != mid.nodes[j].grad {
                        assert(mid.is_parent(i as int, j));
                        let q = choose|q: int|
                            0 <= q < mid.nodes[i as int].parents.len() && #[trigger] mid.nodes[i as int].parents[q]@ == j;
                        assert(mid.node_wf(i as int));
                        assert(mid.nodes[i as int].parents[q]@ < i);
                        assert(pre.is_parent(i as int, j));
                        assert(pre.is_ancestor(root as int, j));
                    }
                }
                let r = root as int;
                if g@.nodes[r].grad != mid.nodes[r].grad {
                    assert(mid.is_parent(i as int, r));
                    let q = choose|q: int|
                        0 <= q < mid.nodes[i as int].parents.len() && #[trigger] mid.nodes[i as int].parents[q]@ == r;
                    assert(mid.node_wf(i as int));
                    assert(mid.nodes[i as int].parents[q]@ < i);
                }
            }
        }
    }
}

} // verus!

verus! {

/// Some handle in `nodes` denotes node `j`.
pub open spec fn lists(nodes: Seq<Value>, j: int) -> bool {
    exists|k: int| 0 <= k < nodes.len() && #[trigger] nodes[k]@ == j
}

impl<S: Scalar> Graph<S> {
    /// Frees every node from position `n` on, keeping the first `n` as they
    /// are. Handles to the freed nodes are no longer valid.
    pub fn truncate(&mut self, n: usize)
        requires
            old(self).wf(),
            n <= old(self)@.nodes.len(),
        ensures
            final(self).wf(),
            final(self)@.nodes == old(self)@.nodes.subrange(0, n as int),
            final(self)@.zero == old(self)@.zero,
            final(self)@.one == old(self)@.one,
    {
        let ghost pre = self@;
        self.data.truncate(n);
        self.grad.truncate(n);
        self.ops.truncate(n);
        self.parents.truncate(n);
        self.exponents.truncate(n);
        assert(self@.nodes =~= pre.nodes.subrange(0, n as int));
        assert forall|j: int| 0 <= j < self@.nodes.len() implies #[trigger] self@.node_wf(j) by {
            assert(pre.node_wf(j));
        }
    }

    /// Resets the gradient of every listed node to zero; other nodes keep
    /// theirs.
    pub fn zero_grad(&mut self, nodes: &Vec<Value>)
        requires
            old(self).wf(),
            forall|k: int| 0 <= k < nodes@.len() ==> old(self)@.valid(#[trigger] nodes@[k]),
        ensures
            final(self).wf(),
            final(self)@.nodes.len() == old(self)@.nodes.len(),
            final(self)@.zero == old(self)@.zero,
            final(self)@.one == old(self)@.one,
            forall|j: int|
                0 <= j < old(self)@.nodes.len() ==> {
                    let (a, b) = (#[trigger] final(self)@.nodes[j], old(self)@.nodes[j]);
                    &&& a.data == b.data
                    &&& a.op == b.op
                    &&& a.parents == b.parents
                    &&& a.exponent == b.exponent
                    &&& a.grad == if lists(nodes@, j) { old(self)@.zero } else { b.grad }
                },
    {
        let ghost pre = self@;
        let mut k: usize = 0;
        while k < nodes.len()
            invariant
                self.wf(),
                k <= nodes@.len(),
                forall|t: int| 0 <= t < nodes@.len() ==> pre.valid(#[trigger] nodes@[t]),
                self@.nodes.len() == pre.nodes.len(),
                self@.zero == pre.zero,
                self@.one == pre.one,
                forall|j: int|
                    0 <= j < pre.nodes.len() ==> {
                        let (a, b) = (#[trigger] self@.nodes[j], pre.nodes[j]);
                        &&& a.data == b.data
                        &&& a.op == b.op
                        &&& a.parents == b.parents
                        &&& a.exponent == b.exponent
                        &&& a.grad == if lists(nodes@.subrange(0, k as int), j) { pre.zero } else { b.grad }
                    },
            decreases nodes@.len() - k,
        {
            let v = nodes[k];
            let zero = self.zero;
            let ghost mid = self@;
            self.grad.set(v.id, zero);
            assert forall|j: int| 0 <= j < self@.nodes.len() implies #[trigger] self@.node_wf(j) by {
                assert(mid.node_wf(j));
                assert(self@.nodes[j].parents == mid.nodes[j].parents);
            }
            k = k + 1;
            assert forall|j: int| 0 <= j < pre.nodes.len() implies
                (lists(nodes@.subrange(0, k as int), j) <==> (lists(nodes@.subrange(0, k - 1), j) || v@ == j)) by {
                let now = nodes@.subrange(0, k as int);
                let was = nodes@.subrange(0, k - 1);
                if lists(now, j) {
                    let q = choose|q: int| 0 <= q < now.len() && #[trigger] now[q]@ == j;
                    if q < k - 1 {
                        assert(was[q]@ == j);
                    }
                }
                if lists(was, j) {
                    let q = choose|q: int| 0 <= q < was.len() && #[trigger] was[q]@ == j;
                    assert(now[q]@ == j);
                }
                if v@ == j {
                    assert(now[k - 1]@ == j);
                }
            }
            assert forall|j: int| 0 <= j < pre.nodes.len() implies {
                let (a, b) = (#[trigger] self@.nodes[j], pre.nodes[j]);
                &&& a.data == b.data
                &&& a.op == b.op
                &&& a.parents == b.parents
                &&& a.exponent == b.exponent
                &&& a.grad == if lists(nodes@.subrange(0, k as int), j) { pre.zero } else { b.grad }
            } by {
                assert(lists(nodes@.subrange(0, k as int), j) <==> (lists(nodes@.subrange(0, k - 1), j) || v@ == j));
                if j == v@ {
                    assert(self@.nodes[j].grad == pre.zero);
                    assert(self@.nodes[j].data == mid.nodes[j].data);
                } else {
                    assert(self@.nodes[j] == mid.nodes[j]);
                }
            }
        }
        assert(nodes@.subrange(0, k as int) =~= nodes@);
    }
}

/// Arity: every node has exactly as many operands as its operator takes,
/// two for a binary operator, one for a unary one and none for a leaf.
pub proof fn lemma_operand_count<S>(g: GraphView<S>, v: Value)
    requires
        g.wf(),
        g.valid(v),
    ensures
        g.nodes[v@ as int].parents.len() == arity(g.nodes[v@ as int].op),
        forall|k: int| 0 <= k < g.nodes[v@ as int].parents.len() ==> g.valid(#[trigger] g.nodes[v@ as int].parents[k]),
{
    assert(g.node_wf(v@ as int));
}

/// Identity: two handles are equal exactly when they denote the same node,
/// so the operands read back from a node are the very handles it was built
/// from.
pub proof fn lemma_handle_identity(a: Value, b: Value)
    ensures
        a == b <==> a@ == b@,
{
}

/// A leaf has no ancestor but itself, so a backward pass from a leaf sets
/// its gradient to one and leaves every other node as it was.
pub proof fn lemma_backward_on_leaf<S>(before: GraphView<S>, after: GraphView<S>, v: Value)
    requires
        before.wf(),
        before.valid(v),
        before.nodes[v@ as int].op is None,
        after.after_backward(before, v@ as int),
    ensures
        after.nodes == before.nodes.update(v@ as int, (NodeView { grad: before.one, ..before.nodes[v@ as int] })),
{
    let r = v@ as int;
    assert forall|j: int| 0 <= j < before.nodes.len() && j != r implies !before.is_ancestor(r, j) by {
        if j < r && before.is_ancestor(r, j) {
            lemma_leaf_only_self(before, r, j);
        }
    }
    assert(after.nodes =~= before.nodes.update(r, (NodeView { grad: before.one, ..before.nodes[r] }))) by {
        assert forall|j: int| 0 <= j < before.nodes.len() implies after.nodes[j] == before.nodes.update(r, (NodeView { grad: before.one, ..before.nodes[r] }))[j] by {
        }
    }
}

/// The only ancestor of a leaf is the leaf itself.
proof fn lemma_leaf_only_self<S>(g: GraphView<S>, r: int, i: int)
    requires
        g.wf(),
        0 <= i <= r < g.nodes.len(),
        g.nodes[r].op is None,
        g.is_ancestor(r, i),
    ensures
        i == r,
    decreases r - i,
{
    if i != r {
        let c = choose|c: int| i < c <= r && #[trigger] g.is_parent(c, i) && g.is_ancestor(r, c);
        lemma_leaf_only_self(g, r, c);
        assert(g.node_wf(r));
    }
}

} // verus!

verus! {

/// When every operand of `r` is a leaf, the ancestors of `r` are `r` and its
/// operands.
proof fn lemma_ancestor_of_leaf_parents<S>(g: GraphView<S>, r: int, j: int)
    requires
        g.wf(),
        0 <= j <= r < g.nodes.len(),
        forall|k: int| 0 <= k < g.nodes[r].parents.len() ==> g.nodes[(#[trigger] g.nodes[r].parents[k])@ as int].parents.len() == 0,
        g.is_ancestor(r, j),
    ensures
        j == r || g.is_parent(r, j),
    decreases r - j,
{
    if j != r {
        let c = choose|c: int| j < c <= r && #[trigger] g.is_parent(c, j) && g.is_ancestor(r, c);
        lemma_ancestor_of_leaf_parents(g, r, c);
        if c != r {
            let q = choose|q: int| 0 <= q < g.nodes[r].parents.len() && #[trigger] g.nodes[r].parents[q]@ == c;
            assert(g.nodes[c].parents.len() == 0);
        }
    }
}

/// Every listed position is below `n` and an ancestor of `root`.
proof fn lemma_positions<S: Scalar>(g: GraphView<S>, root: int, n: int)
    ensures
        forall|t: int|
            0 <= t < g.ancestor_positions(root, n).len() ==> #[trigger] g.ancestor_positions(root, n)[t] < n
                && g.ancestor_positions(root, n)[t] >= 0 && g.is_ancestor(root, g.ancestor_positions(root, n)[t]),
    decreases n,
{
    if n > 0 {
        lemma_positions(g, root, n - 1);
        let prev = g.ancestor_positions(root, n - 1);
        let cur = g.ancestor_positions(root, n);
        assert forall|t: int| 0 <= t < cur.len() implies #[trigger] cur[t] < n && cur[t] >= 0
            && g.is_ancestor(root, cur[t]) by {
            if t < prev.len() {
                assert(cur[t] == prev[t]);
            }
        }
    }
}

/// Rules at leaves change nothing.
proof fn lemma_sweep_leaves<S: Scalar>(h: GraphView<S>, order: Seq<int>)
    requires
        forall|t: int| 0 <= t < order.len() ==> h.nodes[#[trigger] order[t]].parents.len() == 0,
    ensures
        h.sweep(order) == h,
    decreases order.len(),
{
    if order.len() > 0 {
        assert(h.nodes[order[order.len() - 1]].parents.len() == 0);
        assert(h.step(order.last()) == h);
        lemma_sweep_leaves(h, order.drop_last());
    }
}

/// A backward pass from a node whose operands are all leaves applies that
/// node's local rule once, to the graph with the node's gradient set to one.
pub proof fn lemma_backward_one_level<S: Scalar>(g: GraphView<S>, y: Value)
    requires
        g.wf(),
        g.valid(y),
        forall|k: int|
            0 <= k < g.nodes[y@ as int].parents.len() ==> g.nodes[(#[trigger] g.nodes[y@ as int].parents[k])@ as int].parents.len() == 0,
    ensures
        g.backward_result(y@ as int) == g.seeded(y@ as int).step(y@ as int),
{
    let r = y@ as int;
    let below = g.ancestor_positions(r, r);
    assert(g.is_ancestor(r, r));
    assert(g.ancestor_positions(r, r + 1) == below.push(r));
    let h = g.seeded(r).step(r);
    lemma_positions(g, r, r);
    assert forall|t: int| 0 <= t < below.len() implies h.nodes[#[trigger] below[t]].parents.len() == 0 by {
        let j = below[t];
        lemma_ancestor_of_leaf_parents(g, r, j);
        let q = choose|q: int| 0 <= q < g.nodes[r].parents.len() && #[trigger] g.nodes[r].parents[q]@ == j;
        assert(g.nodes[j].parents.len() == 0);
        assert(g.node_wf(r));
        assert(h.nodes[j].parents == g.nodes[j].parents);
    }
    lemma_sweep_leaves(h, below);
    assert(below.push(r).drop_last() =~= below);
}

} // verus!

verus! {

/// Node `v` is a leaf whose gradient is still zero.
pub open spec fn fresh_leaf_at<S>(g: GraphView<S>, v: Value) -> bool {
    g.valid(v) && g.nodes[v@ as int].op is None && g.nodes[v@ as int].grad == g.zero
}

/// Sum rule: after a backward pass from `y = a + b`, for leaves `a` and `b`
/// with zero gradient, each holds zero plus one (and `y` holds one). When `a`
/// and `b` are the same leaf it receives both contributions.
pub proof fn lemma_sum_rule<S: Scalar>(g: GraphView<S>, y: Value, a: Value, b: Value)
    requires
        g.wf(),
        g.valid(y),
        g.nodes[y@ as int].op == Some(Op::Add),
        g.nodes[y@ as int].parents == seq![a, b],
        fresh_leaf_at(g, a),
        fresh_leaf_at(g, b),
    ensures
        ({
            let r = g.backward_result(y@ as int);
            &&& r.nodes[y@ as int].grad == g.one
            &&& a != b ==> r.nodes[a@ as int].grad == g.zero.spec_add(g.one)
                && r.nodes[b@ as int].grad == g.zero.spec_add(g.one)
            &&& a == b ==> r.nodes[a@ as int].grad == g.zero.spec_add(g.one).spec_add(g.one)
        }),
{
    assert(g.node_wf(y@ as int) && g.node_wf(a@ as int) && g.node_wf(b@ as int));
    assert(g.nodes[y@ as int].parents[0] == a && g.nodes[y@ as int].parents[1] == b);
    lemma_backward_one_level(g, y);
}

/// Product rule: after a backward pass from `y = a * b`, for distinct leaves
/// with zero gradient, `a` holds zero plus one times `b`'s value and `b`
/// zero plus one times `a`'s; for `y = a * a` the leaf receives both terms.
pub proof fn lemma_product_rule<S: Scalar>(g: GraphView<S>, y: Value, a: Value, b: Value)
    requires
        g.wf(),
        g.valid(y),
        g.nodes[y@ as int].op == Some(Op::Mul),
        g.nodes[y@ as int].parents == seq![a, b],
        fresh_leaf_at(g, a),
        fresh_leaf_at(g, b),
    ensures
        ({
            let r = g.backward_result(y@ as int);
            let (da, db) = (g.nodes[a@ as int].data, g.nodes[b@ as int].data);
            &&& r.nodes[y@ as int].grad == g.one
            &&& a != b ==> r.nodes[a@ as int].grad == g.zero.spec_add(g.one.spec_mul(db))
                && r.nodes[b@ as int].grad == g.zero.spec_add(g.one.spec_mul(da))
            &&& a == b ==> r.nodes[a@ as int].grad == g.zero.spec_add(g.one.spec_mul(da)).spec_add(g.one.spec_mul(da))
        }),
{
    assert(g.node_wf(y@ as int) && g.node_wf(a@ as int) && g.node_wf(b@ as int));
    assert(g.nodes[y@ as int].parents[0] == a && g.nodes[y@ as int].parents[1] == b);
    lemma_backward_one_level(g, y);
}

/// Chain rule through `tanh`: after a backward pass from `y = tanh(a)`, the
/// leaf `a` holds zero plus one times (one minus `y` squared).
pub proof fn lemma_tanh_rule<S: Scalar>(g: GraphView<S>, y: Value, a: Value)
    requires
        g.wf(),
        g.valid(y),
        g.nodes[y@ as int].op == Some(Op::TanH),
        g.nodes[y@ as int].parents == seq![a],
        g.nodes[y@ as int].data == g.nodes[a@ as int].data.spec_tanh(),
        fresh_leaf_at(g, a),
    ensures
        ({
            let r = g.backward_result(y@ as int);
            let t = g.nodes[a@ as int].data.spec_tanh();
            &&& r.nodes[y@ as int].grad == g.one
            &&& r.nodes[a@ as int].grad == g.zero.spec_add(g.one.spec_mul(S::spec_one().spec_sub(t.spec_mul(t))))
        }),
{
    assert(g.node_wf(y@ as int) && g.node_wf(a@ as int));
    assert(g.nodes[y@ as int].parents[0] == a);
    lemma_backward_one_level(g, y);
}

/// Power rule: after a backward pass from `y = a^k`, the leaf `a` holds zero
/// plus one times `k` times `a`'s value raised to `k` minus one.
pub proof fn lemma_power_rule<S: Scalar>(g: GraphView<S>, y: Value, a: Value, k: S)
    requires
        g.wf(),
        g.valid(y),
        g.nodes[y@ as int].op == Some(Op::Pow),
        g.nodes[y@ as int].parents == seq![a],
        g.nodes[y@ as int].exponent == Some(k),
        fresh_leaf_at(g, a),
    ensures
        ({
            let r = g.backward_result(y@ as int);
            let x = g.nodes[a@ as int].data;
            &&& r.nodes[y@ as int].grad == g.one
            &&& r.nodes[a@ as int].grad == g.zero.spec_add(g.one.spec_mul(k).spec_mul(x.spec_powf(k.spec_sub(S::spec_one()))))
        }),
{
    assert(g.node_wf(y@ as int) && g.node_wf(a@ as int));
    assert(g.nodes[y@ as int].parents[0] == a);
    lemma_backward_one_level(g, y);
}

/// ReLU subgradient: after a backward pass from `y = relu(a)`, the leaf `a`
/// holds zero plus one when `y` is positive, and zero otherwise.
pub proof fn lemma_relu_rule<S: Scalar>(g: GraphView<S>, y: Value, a: Value)
    requires
        g.wf(),
        g.valid(y),
        g.nodes[y@ as int].op == Some(Op::ReLU),
        g.nodes[y@ as int].parents == seq![a],
        fresh_leaf_at(g, a),
    ensures
        ({
            let r = g.backward_result(y@ as int);
            &&& r.nodes[y@ as int].grad == g.one
            &&& r.nodes[a@ as int].grad == if g.nodes[y@ as int].data.spec_is_positive() {
                g.zero.spec_add(g.one)
            } else {
                g.zero
            }
        }),
{
    assert(g.node_wf(y@ as int) && g.node_wf(a@ as int));
    assert(g.nodes[y@ as int].parents[0] == a);
    lemma_backward_one_level(g, y);
}

} // verus!
