use crate::graph::{Graph, NodeView, Operation, arity_ok, well_formed};
use crate::order::{is_edge, is_topological_order, lemma_reachable_below, lemma_reachable_step, reachable, topological_order};
use vstd::prelude::*;

verus! {

/// The factor by which a node's gradient is multiplied on its way into one operand:
/// the partial derivative of the node's operation with respect to that operand,
/// written over the values of the nodes it names.
#[derive(Clone, Copy, Debug, PartialEq, Eq, Structural)]
pub enum LocalDerivative {
    /// `1`: addition and sums pass the gradient on unchanged.
    One,
    /// `v(n)`: for a product, the value of the other operand.
    ValueOf(usize),
    /// `1 / v(n)`: for a quotient, towards the dividend; `n` is the divisor.
    ReciprocalOf(usize),
    /// `-v(x) / v(y)^2`: for a quotient `x / y`, towards the divisor.
    NegQuotientSlope(usize, usize),
    /// `v(p) * v(x)^(v(p) - 1)`: for a power `x ^ p`, towards the base.
    PowerSlope(usize, usize),
    /// `cos(v(n))`: for `sin`.
    CosOf(usize),
    /// `-sin(v(n))`: for `cos`.
    NegSinOf(usize),
    /// `e^v(n)`: for `exp`.
    ExpOf(usize),
    /// `1` if `v(n) > 0`, else `0`: for `relu`.
    StepOf(usize),
}

/// The local derivative of `node` towards its operand in position `slot`, or `None`
/// where that operand receives no gradient (the exponent of a power).
pub open spec fn local_rule(node: NodeView, slot: int) -> Option<LocalDerivative> {
    let c = node.children;
    match node.op {
        Operation::Leaf => None,
        Operation::Add | Operation::Sum => Some(LocalDerivative::One),
        Operation::Mul => if slot == 0 {
            Some(LocalDerivative::ValueOf(c[1]))
        } else {
            Some(LocalDerivative::ValueOf(c[0]))
        },
        Operation::Div => if slot == 0 {
            Some(LocalDerivative::ReciprocalOf(c[1]))
        } else {
            Some(LocalDerivative::NegQuotientSlope(c[0], c[1]))
        },
        Operation::Pow => if slot == 0 {
            Some(LocalDerivative::PowerSlope(c[0], c[1]))
        } else {
            None
        },
        Operation::Sin => Some(LocalDerivative::CosOf(c[0])),
        Operation::Cos => Some(LocalDerivative::NegSinOf(c[0])),
        Operation::Exp => Some(LocalDerivative::ExpOf(c[0])),
        Operation::Relu => Some(LocalDerivative::StepOf(c[0])),
    }
}

/// The local derivative of node `node` towards its operand in position `slot`.
pub fn local_derivative(g: &Graph, node: usize, slot: usize) -> (r: Option<LocalDerivative>)
    requires
        g.wf(),
        node < g@.len(),
        slot < g@[node as int].children.len(),
    ensures
        r == local_rule(g@[node as int], slot as int),
{
    let c = g.children(node);
    proof {
        assert(crate::graph::arity_ok(g@[node as int].op, g@[node as int].children.len()));
    }
    match g.op(node) {
        Operation::Leaf => None,
        Operation::Add | Operation::Sum => Some(LocalDerivative::One),
        Operation::Mul => if slot == 0 {
            Some(LocalDerivative::ValueOf(c[1]))
        } else {
            Some(LocalDerivative::ValueOf(c[0]))
        },
        Operation::Div => if slot == 0 {
            Some(LocalDerivative::ReciprocalOf(c[1]))
        } else {
            Some(LocalDerivative::NegQuotientSlope(c[0], c[1]))
        },
        Operation::Pow => if slot == 0 {
            Some(LocalDerivative::PowerSlope(c[0], c[1]))
        } else {
            None
        },
        Operation::Sin => Some(LocalDerivative::CosOf(c[0])),
        Operation::Cos => Some(LocalDerivative::NegSinOf(c[0])),
        Operation::Exp => Some(LocalDerivative::ExpOf(c[0])),
        Operation::Relu => Some(LocalDerivative::StepOf(c[0])),
    }
}

/// One step of a backward pass: add `factor * grad(parent)` into `grad(child)`,
/// where `child` is the operand of `parent` in position `slot`.
#[derive(Clone, Copy, Debug, PartialEq, Eq, Structural)]
pub struct Contribution {
    pub parent: usize,
    pub slot: usize,
    pub child: usize,
    pub factor: LocalDerivative,
}

/// `step` is the contribution of edge `(parent, slot)` of `g`.
pub open spec fn is_edge_step(g: Seq<NodeView>, step: Contribution) -> bool {
    &&& step.parent < g.len()
    &&& step.slot < g[step.parent as int].children.len()
    &&& step.child == g[step.parent as int].children[step.slot as int]
    &&& local_rule(g[step.parent as int], step.slot as int) == Some(step.factor)
}

/// `plan` holds the contribution of operand `slot` of node `p`.
pub open spec fn has_step(plan: Seq<Contribution>, p: usize, slot: int) -> bool {
    exists|i: int| 0 <= i < plan.len() && plan[i].parent == p && plan[i].slot == slot
}

proof fn lemma_has_step_push(plan: Seq<Contribution>, step: Contribution)
    ensures
        has_step(plan.push(step), step.parent, step.slot as int),
        forall|p: usize, k: int| has_step(plan, p, k) ==> #[trigger] has_step(plan.push(step), p, k),
{
    let q = plan.push(step);
    assert(q[plan.len() as int] == step);
    assert forall|p: usize, k: int| has_step(plan, p, k) implies #[trigger] has_step(q, p, k) by {
        let i = choose|i: int| 0 <= i < plan.len() && plan[i].parent == p && plan[i].slot == k;
        assert(q[i] == plan[i]);
    }
}

/// `plan` is a backward pass from `root`: it holds, once each, the contribution of
/// every edge out of a node reachable from `root` whose operand receives a gradient,
/// and no other; and a node hands its gradient on only after every contribution into
/// it has been added.
pub open spec fn is_backward_schedule(g: Seq<NodeView>, root: usize, plan: Seq<Contribution>) -> bool {
    &&& forall|i: int|
        0 <= i < plan.len() ==> is_edge_step(g, #[trigger] plan[i]) && reachable(g, root, plan[i].parent)
    &&& forall|p: usize, k: int|
        p < g.len() && reachable(g, root, p) && 0 <= k < g[p as int].children.len()
            && local_rule(g[p as int], k) is Some ==> #[trigger] has_step(plan, p, k)
    &&& forall|i: int, j: int|
        0 <= i < plan.len() && 0 <= j < plan.len() && #[trigger] plan[i].parent == #[trigger] plan[j].parent
            && plan[i].slot == plan[j].slot ==> i == j
    &&& forall|i: int, j: int|
        0 <= i < plan.len() && 0 <= j < plan.len() && #[trigger] plan[i].child == #[trigger] plan[j].parent
            ==> i < j
}

/// Facts about a plan built from `order`, read from the back: `pos[i]` is where the
/// parent of step `i` stands in `order`.
spec fn plan_follows(
    g: Seq<NodeView>,
    order: Seq<usize>,
    plan: Seq<Contribution>,
    pos: Seq<int>,
) -> bool {
    &&& pos.len() == plan.len()
    &&& forall|i: int|
        0 <= i < plan.len() ==> 0 <= #[trigger] pos[i] < order.len() && plan[i].parent == order[pos[i]]
            && is_edge_step(g, plan[i])
    &&& forall|i: int, j: int|
        0 <= i < j < plan.len() ==> #[trigger] pos[i] > #[trigger] pos[j] || (pos[i] == pos[j]
            && plan[i].slot < plan[j].slot)
}

proof fn lemma_schedule(
    g: Seq<NodeView>,
    root: usize,
    order: Seq<usize>,
    plan: Seq<Contribution>,
    pos: Seq<int>,
)
    requires
        is_topological_order(g, root, order),
        plan_follows(g, order, plan, pos),
        forall|m: int, k: int|
            0 <= m < order.len() && 0 <= k < g[order[m] as int].children.len() && local_rule(
                g[order[m] as int],
                k,
            ) is Some ==> #[trigger] has_step(plan, order[m], k),
    ensures
        is_backward_schedule(g, root, plan),
{
    assert forall|i: int| 0 <= i < plan.len() implies is_edge_step(g, #[trigger] plan[i]) && reachable(
        g,
        root,
        plan[i].parent,
    ) by {
        assert(order[pos[i]] < g.len() && reachable(g, root, order[pos[i]]));
    }
    assert forall|p: usize, k: int|
        p < g.len() && reachable(g, root, p) && 0 <= k < g[p as int].children.len()
            && local_rule(g[p as int], k) is Some implies #[trigger] has_step(plan, p, k) by {
        crate::order::lemma_order_complete(g, root, order, p);
        let m = choose|m: int| 0 <= m < order.len() && order[m] == p;
        assert(local_rule(g[order[m] as int], k) is Some);
    }
    assert forall|i: int, j: int|
        0 <= i < plan.len() && 0 <= j < plan.len() && #[trigger] plan[i].parent == #[trigger] plan[j].parent
            && plan[i].slot == plan[j].slot implies i == j by {
        if i != j {
            assert(order[pos[i]] == order[pos[j]]);
            if i < j {
                assert(pos[i] > pos[j] || pos[i] == pos[j]);
            } else {
                assert(pos[j] > pos[i] || pos[i] == pos[j]);
            }
        }
    }
    assert forall|i: int, j: int|
        0 <= i < plan.len() && 0 <= j < plan.len() && #[trigger] plan[i].child == #[trigger] plan[j].parent
            implies i < j by {
        let p = order[pos[i]];
        let k = plan[i].slot as int;
        assert(order.take(pos[i]).contains(g[order[pos[i]] as int].children[k]));
        let m = choose|m: int| 0 <= m < pos[i] && order.take(pos[i])[m] == plan[i].child;
        assert(order[m] == order[pos[j]]);
        assert(m == pos[j]);
        if j <= i {
            if j < i {
                assert(pos[j] > pos[i] || pos[j] == pos[i]);
            }
        }
    }
}

/// The backward pass from `root`, as the ordered list of its gradient
/// contributions: the nodes reachable from `root` are visited in reverse
/// topological order, and each hands its gradient to its operands through its
/// local derivatives. Run on gradients where `root` holds `1` and the others `0`,
/// it leaves in each node the derivative of `root` with respect to that node.
pub fn backward_plan(g: &Graph, root: usize) -> (r: Vec<Contribution>)
    requires
        g.wf(),
        root < g@.len(),
    ensures
        is_backward_schedule(g@, root, r@),
{
    let order = topological_order(g, root);
    let mut plan: Vec<Contribution> = Vec::new();
    let ghost mut pos: Seq<int> = Seq::empty();
    let mut t: usize = order.len();
    while t > 0
        invariant
            g.wf(),
            is_topological_order(g@, root, order@),
            t <= order@.len(),
            plan_follows(g@, order@, plan@, pos),
            forall|i: int| 0 <= i < plan@.len() ==> #[trigger] pos[i] >= t,
            forall|m: int, k: int|
                t <= m < order@.len() && 0 <= k < g@[order@[m] as int].children.len()
                    && local_rule(g@[order@[m] as int], k) is Some ==> #[trigger] has_step(plan@, order@[m], k),
        decreases t,
    {
        t = t - 1;
        let p = order[t];
        let children = g.children(p);
        let mut k: usize = 0;
        let ghost start = plan@.len();
        while k < children.len()
            invariant
                g.wf(),
                is_topological_order(g@, root, order@),
                t < order@.len(),
                p == order@[t as int],
                children@ == g@[p as int].children,
                k <= children@.len(),
                start <= plan@.len(),
                plan_follows(g@, order@, plan@, pos),
                forall|i: int| 0 <= i < start ==> #[trigger] pos[i] >= t + 1,
                forall|i: int| start <= i < plan@.len() ==> #[trigger] pos[i] == t && plan@[i].slot < k,
                forall|m: int, kk: int|
                    t < m < order@.len() && 0 <= kk < g@[order@[m] as int].children.len()
                        && local_rule(g@[order@[m] as int], kk) is Some ==> #[trigger] has_step(plan@, order@[m], kk),
                forall|kk: int|
                    0 <= kk < k && local_rule(g@[p as int], kk) is Some ==> #[trigger] has_step(plan@, p, kk),
            decreases children@.len() - k,
        {
            match local_derivative(g, p, k) {
                Some(factor) => {
                    let step = Contribution { parent: p, slot: k, child: children[k], factor };
                    let ghost before = plan@;
                    plan.push(step);
                    proof {
                        lemma_has_step_push(before, step);
                        pos = pos.push(t as int);
                        assert(plan@[before.len() as int] == step);
                        assert forall|i: int, j: int|
                            0 <= i < j < plan@.len() implies #[trigger] pos[i] > #[trigger] pos[j]
                                || (pos[i] == pos[j] && plan@[i].slot < plan@[j].slot) by {
                            if j < before.len() {
                                assert(plan@[i] == before[i] && plan@[j] == before[j]);
                            } else {
                                assert(plan@[i] == before[i]);
                            }
                        }
                        assert forall|i: int| 0 <= i < plan@.len() implies 0 <= #[trigger] pos[i]
                            < order@.len() && plan@[i].parent == order@[pos[i]] && crate::backward::is_edge_step(
                            g@,
                            plan@[i],
                        ) by {
                            if i < before.len() {
                                assert(plan@[i] == before[i]);
                            }
                        }
                    }
                },
                None => {},
            }
            k = k + 1;
        }
    }
    proof {
        lemma_schedule(g@, root, order@, plan@, pos);
    }
    plan
}

/// `plan` run in exact arithmetic on the gradients `grads`: each step adds
/// `d(parent, slot) * grad(parent)` into `grad(child)`, where `d` gives the value of
/// each local derivative.
pub open spec fn run_plan(plan: Seq<Contribution>, d: spec_fn(usize, usize) -> int, grads: Seq<int>) -> Seq<int>
    decreases plan.len(),
{
    if plan.len() == 0 {
        grads
    } else {
        let before = run_plan(plan.drop_last(), d, grads);
        let s = plan.last();
        before.update(s.child as int, before[s.child as int] + d(s.parent, s.slot) * before[s.parent as int])
    }
}

/// What the steps of `plan` into node `x` carry when the users' gradients are `vals`:
/// the sum of `d(parent, slot) * vals[parent]` over those steps.
pub open spec fn inflow(plan: Seq<Contribution>, d: spec_fn(usize, usize) -> int, vals: Seq<int>, x: usize) -> int
    decreases plan.len(),
{
    if plan.len() == 0 {
        0
    } else {
        inflow(plan.drop_last(), d, vals, x) + if plan.last().child == x {
            d(plan.last().parent, plan.last().slot) * vals[plan.last().parent as int]
        } else {
            0
        }
    }
}

proof fn lemma_inflow_reads_parents(
    plan: Seq<Contribution>,
    d: spec_fn(usize, usize) -> int,
    v1: Seq<int>,
    v2: Seq<int>,
    x: usize,
)
    requires
        forall|i: int| 0 <= i < plan.len() ==> v1[#[trigger] plan[i].parent as int] == v2[plan[i].parent as int],
    ensures
        inflow(plan, d, v1, x) == inflow(plan, d, v2, x),
    decreases plan.len(),
{
    if plan.len() > 0 {
        let q = plan.drop_last();
        assert forall|i: int| 0 <= i < q.len() implies v1[#[trigger] q[i].parent as int] == v2[q[i].parent as int] by {
            assert(q[i] == plan[i]);
        }
        assert(v1[plan[plan.len() - 1].parent as int] == v2[plan[plan.len() - 1].parent as int]);
        lemma_inflow_reads_parents(q, d, v1, v2, x);
    }
}

proof fn lemma_run_plan(plan: Seq<Contribution>, d: spec_fn(usize, usize) -> int, grads: Seq<int>)
    requires
        forall|i: int|
            0 <= i < plan.len() ==> #[trigger] plan[i].child < grads.len() && plan[i].parent < grads.len(),
        forall|i: int, j: int|
            0 <= i < plan.len() && 0 <= j < plan.len() && #[trigger] plan[i].child == #[trigger] plan[j].parent
                ==> i < j,
    ensures
        run_plan(plan, d, grads).len() == grads.len(),
        forall|x: usize|
            x < grads.len() ==> #[trigger] run_plan(plan, d, grads)[x as int] == grads[x as int] + inflow(
                plan,
                d,
                run_plan(plan, d, grads),
                x,
            ),
    decreases plan.len(),
{
    if plan.len() > 0 {
        let q = plan.drop_last();
        let last = plan.len() - 1;
        let s = plan[last];
        assert forall|i: int| 0 <= i < q.len() implies #[trigger] q[i].child < grads.len() && q[i].parent
            < grads.len() by {
            assert(q[i] == plan[i]);
        }
        assert forall|i: int, j: int|
            0 <= i < q.len() && 0 <= j < q.len() && #[trigger] q[i].child == #[trigger] q[j].parent implies i
                < j by {
            assert(q[i] == plan[i] && q[j] == plan[j]);
        }
        lemma_run_plan(q, d, grads);
        let rq = run_plan(q, d, grads);
        let rp = run_plan(plan, d, grads);
        assert(rp == rq.update(s.child as int, rq[s.child as int] + d(s.parent, s.slot) * rq[s.parent as int]));
        assert(s.child != s.parent) by {
            assert(plan[last].child < grads.len());
        }
        assert forall|i: int| 0 <= i < q.len() implies rp[#[trigger] q[i].parent as int] == rq[q[i].parent as int] by {
            assert(q[i] == plan[i]);
            assert(plan[last].child < grads.len());
            if plan[i].parent == plan[last].child {
                assert(last < i);
            }
            assert(q[i].parent != s.child);
            assert(plan[i].child < grads.len());
        }
        assert forall|x: usize| x < grads.len() implies #[trigger] rp[x as int] == grads[x as int] + inflow(
            plan,
            d,
            rp,
            x,
        ) by {
            lemma_inflow_reads_parents(q, d, rp, rq, x);
            assert(rq[x as int] == grads[x as int] + inflow(q, d, rq, x));
        }
    }
}

proof fn lemma_inflow_without_steps(plan: Seq<Contribution>, d: spec_fn(usize, usize) -> int, vals: Seq<int>, x: usize)
    requires
        forall|i: int| 0 <= i < plan.len() ==> (#[trigger] plan[i]).child != x,
    ensures
        inflow(plan, d, vals, x) == 0,
    decreases plan.len(),
{
    if plan.len() > 0 {
        let q = plan.drop_last();
        assert forall|i: int| 0 <= i < q.len() implies (#[trigger] q[i]).child != x by {
            assert(q[i] == plan[i]);
        }
        assert(plan[plan.len() - 1].child != x);
        lemma_inflow_without_steps(q, d, vals, x);
    }
}

/// The chain rule, in exact arithmetic: after a backward pass from `root`, each
/// node's gradient is what it held before plus, over every use of it by a node that
/// `root` reaches, the local derivative of that use times the user's final gradient.
/// Started from 1 at `root` and 0 elsewhere, these are the equations whose solution
/// is the derivative of `root` with respect to each node.
pub proof fn lemma_backward_chain_rule(
    g: Seq<NodeView>,
    root: usize,
    plan: Seq<Contribution>,
    d: spec_fn(usize, usize) -> int,
    grads: Seq<int>,
)
    requires
        well_formed(g),
        is_backward_schedule(g, root, plan),
        grads.len() == g.len(),
    ensures
        run_plan(plan, d, grads).len() == g.len(),
        forall|x: usize|
            x < g.len() ==> #[trigger] run_plan(plan, d, grads)[x as int] == grads[x as int] + inflow(
                plan,
                d,
                run_plan(plan, d, grads),
                x,
            ),
        forall|x: usize|
            x < g.len() && !reachable(g, root, x) ==> #[trigger] run_plan(plan, d, grads)[x as int]
                == grads[x as int],
        run_plan(plan, d, grads)[root as int] == grads[root as int],
{
    assert forall|i: int| 0 <= i < plan.len() implies #[trigger] plan[i].child < grads.len()
        && plan[i].parent < grads.len() by {
        assert(is_edge_step(g, plan[i]));
        let p = plan[i].parent as int;
        assert(arity_ok(g[p].op, g[p].children.len()));
        assert(g[p].children[plan[i].slot as int] < p);
    }
    lemma_run_plan(plan, d, grads);
    let f = run_plan(plan, d, grads);
    assert forall|x: usize| x < g.len() && !reachable(g, root, x) implies #[trigger] f[x as int]
        == grads[x as int] by {
        assert forall|i: int| 0 <= i < plan.len() implies (#[trigger] plan[i]).child != x by {
            assert(is_edge_step(g, plan[i]) && reachable(g, root, plan[i].parent));
            assert(is_edge(g, plan[i].parent, plan[i].child)) by {
                let p = plan[i].parent as int;
                assert(g[p].children[plan[i].slot as int] == plan[i].child);
            }
            lemma_reachable_step(g, root, plan[i].parent, plan[i].child);
        }
        lemma_inflow_without_steps(plan, d, f, x);
    }
    assert forall|i: int| 0 <= i < plan.len() implies (#[trigger] plan[i]).child != root by {
        assert(is_edge_step(g, plan[i]) && reachable(g, root, plan[i].parent));
        lemma_reachable_below(g, root, plan[i].parent);
        let p = plan[i].parent as int;
        assert(arity_ok(g[p].op, g[p].children.len()));
        assert(g[p].children[plan[i].slot as int] < p);
    }
    lemma_inflow_without_steps(plan, d, f, root);
}

} // verus!
