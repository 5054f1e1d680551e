use rand::random;
use rust_minigrad::{
    backward_plan, dot, local_derivative, topological_order, Contribution, DomainError, Graph,
    LocalDerivative, Operation, Tensor1D, Tensor2D,
};

/// A graph together with the values of its leaves.
struct Net {
    g: Graph,
    inputs: Vec<(usize, f64)>,
}

impl Net {
    fn new() -> Net {
        Net { g: Graph::new(), inputs: Vec::new() }
    }

    fn input(&mut self, value: f64) -> usize {
        let i = self.g.leaf();
        self.inputs.push((i, value));
        i
    }

    fn values(&self) -> Vec<f64> {
        let mut leaves = vec![0.0; self.g.len()];
        for &(i, x) in &self.inputs {
            leaves[i] = x;
        }
        let mut v: Vec<f64> = Vec::new();
        for i in 0..self.g.len() {
            let c = self.g.children(i);
            let x = match self.g.op(i) {
                Operation::Leaf => leaves[i],
                Operation::Add => v[c[0]] + v[c[1]],
                Operation::Mul => v[c[0]] * v[c[1]],
                Operation::Div => v[c[0]] / v[c[1]],
                Operation::Pow => v[c[0]].powf(v[c[1]]),
                Operation::Sin => v[c[0]].sin(),
                Operation::Cos => v[c[0]].cos(),
                Operation::Exp => v[c[0]].exp(),
                Operation::Relu => v[c[0]].max(0.0),
                Operation::Sum => c.iter().map(|&j| v[j]).sum(),
            };
            v.push(x);
        }
        v
    }

    /// Runs the backward pass from `root` on gradients seeded with 1 at the root.
    fn grads(&self, root: usize) -> Vec<f64> {
        let v = self.values();
        let mut grad = vec![0.0; self.g.len()];
        grad[root] = 1.0;
        for step in backward_plan(&self.g, root) {
            grad[step.child] += factor(step.factor, &v) * grad[step.parent];
        }
        grad
    }
}

fn factor(f: LocalDerivative, v: &[f64]) -> f64 {
    match f {
        LocalDerivative::One => 1.0,
        LocalDerivative::ValueOf(n) => v[n],
        LocalDerivative::ReciprocalOf(n) => 1.0 / v[n],
        LocalDerivative::NegQuotientSlope(x, y) => -v[x] / (v[y] * v[y]),
        LocalDerivative::PowerSlope(x, p) => v[p] * v[x].powf(v[p] - 1.0),
        LocalDerivative::CosOf(n) => v[n].cos(),
        LocalDerivative::NegSinOf(n) => -v[n].sin(),
        LocalDerivative::ExpOf(n) => v[n].exp(),
        LocalDerivative::StepOf(n) => {
            if v[n] > 0.0 {
                1.0
            } else {
                0.0
            }
        }
    }
}

fn assert_close(left: f64, right: f64, tol: f64) {
    assert!((left - right).abs() < tol, "left: {}, right: {}", left, right);
}

#[test]
fn simple_grad_add() {
    let mut n = Net::new();
    let a = n.input(3.);
    let b = n.input(4.);
    let c = n.g.add(a, b);
    assert_eq!(n.grads(c)[a], 1.0);
}

#[test]
fn simple_grad_add_self() {
    let mut n = Net::new();
    let a = n.input(3.);
    let c = n.g.add(a, a);
    assert_eq!(n.grads(c)[a], 2.0);
}

#[test]
fn simple_grad_mul() {
    let mut n = Net::new();
    let a = n.input(3.);
    let b = n.input(4.);
    let c = n.g.mul(a, b);
    let grad = n.grads(c);
    assert_eq!(grad[a], 4.0);
    assert_eq!(grad[b], 3.0);
}

#[test]
fn simple_grad_self_mul() {
    let mut n = Net::new();
    let a = n.input(3.);
    let c = n.g.mul(a, a);
    assert_eq!(n.grads(c)[a], 6.0);
}

#[test]
fn mul_const() {
    let mut n = Net::new();
    let a = n.input(3.);
    let two = n.input(2.);
    let c = n.g.mul(a, two);
    assert_eq!(n.grads(c)[a], 2.);
}

#[test]
fn simple_sin_test() {
    let mut n = Net::new();
    let x = n.input(3.);
    let y = n.g.sin(x);
    // sin'(3) ~= -0.9899924966
    assert_close(n.grads(y)[x], -0.9899924966, 0.0001);
}

#[test]
fn simple_cos_test() {
    let mut n = Net::new();
    let x = n.input(3.);
    let y = n.g.cos(x);
    // cos'(3) ~= -0.14112000806
    assert_close(n.grads(y)[x], -0.14112000806, 0.0001);
}

#[test]
fn simple_relu() {
    let mut n = Net::new();
    let x = n.input(5.);
    let y = n.input(10.);
    let s = n.g.add(x, y);
    let z = n.g.relu(s);
    assert_close(n.grads(z)[x], 1.0, 0.0001);
}

#[test]
fn adv_relu() {
    let mut n = Net::new();
    let x = n.input(5.);
    let y = n.input(10.);
    let s = n.g.add(x, y);
    let two = n.input(2.);
    let p = n.g.pow(s, two);
    let z = n.g.relu(p);
    // d/dx [relu((x + y) ^ 2)] = 2x + 2y = 30
    assert_close(n.grads(z)[x], 30., 0.0001);
}

#[test]
fn adv_relu_neg() {
    let mut n = Net::new();
    let x = n.input(-5.);
    let z = n.g.relu(x);
    assert_close(n.grads(z)[x], 0., 0.0001);
}

#[test]
fn simple_exp() {
    let mut n = Net::new();
    let x = n.input(5.);
    let y = n.g.exp(x);
    assert_close(n.grads(y)[x], n.values()[y], 0.0001);
}

#[test]
fn simple_sigmoid_test() {
    // sigmoid(x) = (1 + exp(-x)) ^ -1, built from the primitive operations
    let mut n = Net::new();
    let x = n.input(2.0);
    let minus_one = n.input(-1.0);
    let neg = n.g.mul(x, minus_one);
    let e = n.g.exp(neg);
    let one = n.input(1.0);
    let s = n.g.add(one, e);
    let inv = n.input(-1.0);
    let y = n.g.pow(s, inv);
    assert_close(n.grads(y)[x], 0.1049935854, 0.001);
}

#[test]
fn simple_div() {
    let mut n = Net::new();
    let x = n.input(2.0);
    let y = n.g.mul(x, x);
    let four = n.input(4.0);
    let z = n.g.div(four, y, false).unwrap();
    assert_close(n.grads(z)[x], -1., 0.001);
}

#[test]
fn hard_test() {
    let mut n = Net::new();
    let x = n.input(2.0);
    let y = n.g.mul(x, x);
    let yy = n.g.mul(y, y);
    let z = n.g.add(yy, x);
    assert_close(n.grads(z)[x], 33.0, 0.0001);
}

#[test]
fn rc_check_h() {
    let mut n = Net::new();
    let x = n.input(1.);
    let p = n.g.mul(x, x);
    let q = n.g.mul(p, p);
    assert_close(n.grads(q)[x], 4., 0.1);
}

#[test]
fn scope_test() {
    // silu(x * 0.3) = (x * 0.3) * sigmoid(x * 0.3): a product of two operands
    let mut n = Net::new();
    let x = n.input(0.1);
    let k = n.input(0.3);
    let m = n.g.mul(x, k);
    let minus_one = n.input(-1.0);
    let neg = n.g.mul(m, minus_one);
    let e = n.g.exp(neg);
    let one = n.input(1.0);
    let s = n.g.add(one, e);
    let inv = n.input(-1.0);
    let sig = n.g.pow(s, inv);
    let silu = n.g.mul(m, sig);
    assert_eq!(n.g.children(silu).len(), 2);
}

#[test]
fn test1() {
    // 3.9 + a + a + a + 1.9
    let mut n = Net::new();
    let a = n.input(0.3);
    let c1 = n.input(3.9);
    let s1 = n.g.add(c1, a);
    let s2 = n.g.add(s1, a);
    let s3 = n.g.add(s2, a);
    let c2 = n.input(1.9);
    let s4 = n.g.add(s3, c2);
    assert_eq!(n.grads(s4)[a], 3.0);
}

#[test]
fn divide_by_zero_is_refused() {
    let mut n = Net::new();
    let a = n.input(1.0);
    let b = n.input(0.0);
    let before = n.g.len();
    assert_eq!(n.g.div(a, b, true), Err(DomainError::DivisionByZero));
    assert_eq!(n.g.len(), before);
    assert_eq!(n.g.div(a, b, false), Ok(before));
    assert_eq!(n.g.op(before), Operation::Div);
}

#[test]
fn diamond_order_lists_shared_node_once() {
    let mut g = Graph::new();
    let x = g.leaf();
    let p = g.mul(x, x);
    let q = g.mul(p, p);
    assert_eq!(topological_order(&g, q), vec![x, p, q]);
}

#[test]
fn order_skips_unreachable_nodes() {
    let mut g = Graph::new();
    let a = g.leaf();
    let b = g.leaf();
    let _other = g.sin(b);
    let c = g.add(a, a);
    assert_eq!(topological_order(&g, c), vec![a, c]);
    assert_eq!(topological_order(&g, a), vec![a]);
}

#[test]
fn order_puts_operands_first() {
    let mut g = Graph::new();
    let x = g.leaf();
    let y = g.leaf();
    let s = g.add(x, y);
    let m = g.mul(s, x);
    let e = g.exp(m);
    let r = g.add(e, s);
    let order = topological_order(&g, r);
    assert_eq!(order, vec![x, y, s, m, e, r]);
    assert_eq!(order.last(), Some(&r));
}

#[test]
fn plan_for_self_sum_has_two_unit_steps() {
    let mut g = Graph::new();
    let a = g.leaf();
    let c = g.add(a, a);
    let plan = backward_plan(&g, c);
    assert_eq!(
        plan,
        vec![
            Contribution { parent: c, slot: 0, child: a, factor: LocalDerivative::One },
            Contribution { parent: c, slot: 1, child: a, factor: LocalDerivative::One },
        ]
    );
}

#[test]
fn plan_hands_on_gradient_only_when_complete() {
    let mut g = Graph::new();
    let x = g.leaf();
    let p = g.mul(x, x);
    let q = g.mul(p, p);
    let plan = backward_plan(&g, q);
    assert_eq!(plan.len(), 4);
    assert_eq!((plan[0].parent, plan[1].parent), (q, q));
    assert_eq!((plan[0].child, plan[1].child), (p, p));
    assert_eq!((plan[2].parent, plan[3].parent), (p, p));
    assert_eq!((plan[2].child, plan[3].child), (x, x));
}

#[test]
fn exponent_of_power_receives_nothing() {
    let mut g = Graph::new();
    let x = g.leaf();
    let e = g.leaf();
    let p = g.pow(x, e);
    let plan = backward_plan(&g, p);
    assert_eq!(
        plan,
        vec![Contribution { parent: p, slot: 0, child: x, factor: LocalDerivative::PowerSlope(x, e) }]
    );
    assert_eq!(local_derivative(&g, p, 1), None);
}

#[test]
fn rule_table() {
    let mut g = Graph::new();
    let x = g.leaf();
    let y = g.leaf();
    let m = g.mul(x, y);
    let d = g.div(x, y, false).unwrap();
    let s = g.sin(x);
    let c = g.cos(x);
    let e = g.exp(x);
    let r = g.relu(x);
    let t = g.sum(&vec![x, y, m]);
    assert_eq!(local_derivative(&g, m, 0), Some(LocalDerivative::ValueOf(y)));
    assert_eq!(local_derivative(&g, m, 1), Some(LocalDerivative::ValueOf(x)));
    assert_eq!(local_derivative(&g, d, 0), Some(LocalDerivative::ReciprocalOf(y)));
    assert_eq!(local_derivative(&g, d, 1), Some(LocalDerivative::NegQuotientSlope(x, y)));
    assert_eq!(local_derivative(&g, s, 0), Some(LocalDerivative::CosOf(x)));
    assert_eq!(local_derivative(&g, c, 0), Some(LocalDerivative::NegSinOf(x)));
    assert_eq!(local_derivative(&g, e, 0), Some(LocalDerivative::ExpOf(x)));
    assert_eq!(local_derivative(&g, r, 0), Some(LocalDerivative::StepOf(x)));
    assert_eq!(local_derivative(&g, t, 2), Some(LocalDerivative::One));
    assert_eq!(g.children(t), &vec![x, y, m]);
}

#[test]
fn nodes_with_operands_cannot_be_reset() {
    let mut g = Graph::new();
    let x = g.leaf();
    let y = g.exp(x);
    assert!(g.is_leaf(x));
    assert!(!g.is_leaf(y));
}

#[test]
fn sum_spreads_gradient_to_each_item() {
    let mut n = Net::new();
    let a = n.input(1.0);
    let b = n.input(2.0);
    let t = n.g.sum(&vec![a, b, a]);
    let grad = n.grads(t);
    assert_eq!(n.values()[t], 4.0);
    assert_eq!((grad[a], grad[b]), (2.0, 1.0));
}

fn vector(n: &mut Net, values: &[f64]) -> Tensor1D {
    let t = Tensor1D::new(&mut n.g, values.len());
    for (i, &x) in t.items().iter().zip(values.iter()) {
        n.inputs.push((*i, x));
    }
    t
}

fn matrix(n: &mut Net, rows: &[Vec<f64>]) -> Tensor2D {
    let m = Tensor2D::new(&mut n.g, rows.len(), rows[0].len());
    for (i, row) in rows.iter().enumerate() {
        for (j, &x) in row.iter().enumerate() {
            n.inputs.push((m.get(i, j), x));
        }
    }
    m
}

#[test]
fn linregression() {
    let (k, l) = (23.1, 16.77);
    let lin = (0..10)
        .map(|_| random::<f64>())
        .map(|x| (x, k * x + l))
        .collect::<Vec<_>>();
    let (mut a_val, mut b_val) = (0.1, 0.1);
    let mut loss_f64 = 1.0;
    let mut cnt = 0;
    while loss_f64 >= 0.0001 && cnt < 200_000 {
        let mut n = Net::new();
        let a = n.input(a_val);
        let b = n.input(b_val);
        let mut loss = n.input(0.0);
        for &(x, y) in &lin {
            let xv = n.input(x);
            let yv = n.input(y);
            let ax = n.g.mul(a, xv);
            let pred = n.g.add(ax, b);
            let minus_one = n.input(-1.0);
            let neg_y = n.g.mul(yv, minus_one);
            let diff = n.g.add(pred, neg_y);
            let two = n.input(2.0);
            let sq = n.g.pow(diff, two);
            loss = n.g.add(loss, sq);
        }
        let count = n.input(lin.len() as f64);
        let loss = n.g.div(loss, count, false).unwrap();
        let grad = n.grads(loss);
        loss_f64 = n.values()[loss];
        a_val -= 0.3 * grad[a];
        b_val -= 0.3 * grad[b];
        cnt += 1;
    }
    assert_close(a_val, k, 0.1);
    assert_close(b_val, l, 0.1);
}

#[test]
fn test_1_d() {
    let mut n = Net::new();
    let x = vector(&mut n, &[1.0, 2.0]);
    let y = x.t().matvec(&mut n.g, &x);
    let root = y.cast().unwrap();
    let grad = n.grads(root);
    assert_close(grad[x.items()[0]], 2.0, 0.001);
    assert_close(grad[x.items()[1]], 4.0, 0.001);
}

#[test]
fn shape_test() {
    let mut g = Graph::new();
    let x = Tensor2D::new(&mut g, 10, 5);
    let y = Tensor2D::new(&mut g, 5, 17);
    let z = x.matmul(&mut g, &y);
    assert_eq!(z.shape(), (10, 17));
}

#[test]
fn test2() {
    let mut n = Net::new();
    let a = vector(&mut n, &[1., 2., 3., 4., 5., 6.]);
    let b = a.exp(&mut n.g);
    assert_close(n.values()[b.items()[0]], 2.718281828459045, 0.001);
}

#[test]
fn test3() {
    let mut n = Net::new();
    let a = vector(&mut n, &[1., 2., 3., 4., 5., 6.]);
    let x = a.t().matvec(&mut n.g, &a);
    let root = x.cast().unwrap();
    assert_close(n.values()[root], 91.0, 0.001);
    let grad = n.grads(root);
    for i in 0..6 {
        assert_close(2. * (i + 1) as f64, grad[a.items()[i]], 0.001);
    }
}

#[test]
fn test4() {
    let mut n = Net::new();
    let x = vector(&mut n, &[1., 2., 3., 4., 5., 7.]);
    let y = x.t().matvec(&mut n.g, &x);
    let grad = n.grads(y.cast().unwrap());
    assert_close(grad[x.items()[5]], 14., 0.001);
}

#[test]
fn ew() {
    let mut n = Net::new();
    let x = matrix(&mut n, &[vec![1., 2.], vec![1., 2.]]);
    let two = n.input(2.);
    let z = x.scale(&mut n.g, two);
    assert_eq!(z.shape(), (2, 2));
    assert_eq!(n.values()[z.get(1, 1)], 4.0);
}

#[test]
fn f5() {
    // x / 0.2, as x * (1 / 0.2)
    let mut n = Net::new();
    let x = matrix(&mut n, &[vec![1., 2.], vec![1., 2.]]);
    let one = n.input(1.0);
    let d = n.input(0.2);
    let inv = n.g.div(one, d, false).unwrap();
    let x = x.scale(&mut n.g, inv);
    assert_close(n.values()[x.get(0, 1)], 10.0, 0.0001);
}

#[test]
fn f6() {
    // softmax: exp of each item over the sum of those
    let mut n = Net::new();
    let x = vector(&mut n, &[1., 2., 3., 4., 5.]);
    let e = x.exp(&mut n.g);
    let s = e.sum(&mut n.g);
    let one = n.input(1.0);
    let inv = n.g.div(one, s, false).unwrap();
    let y = e.scale(&mut n.g, inv);
    assert_close(n.values()[y.items()[0]], 0.011656230956, 0.001);
}

#[test]
fn matrix_sum_and_shift() {
    let mut n = Net::new();
    let m = matrix(&mut n, &[vec![1., 2., 3.], vec![4., 5., 6.]]);
    let s = m.sum(&mut n.g);
    assert_eq!(n.g.children(s), &vec![m.get(0, 0), m.get(0, 1), m.get(0, 2), m.get(1, 0), m.get(1, 1), m.get(1, 2)]);
    assert_eq!(n.values()[s], 21.0);
    let one = n.input(1.0);
    let shifted = m.shift(&mut n.g, one);
    assert_eq!(n.values()[shifted.get(1, 2)], 7.0);
    let grad = n.grads(s);
    assert_eq!(grad[m.get(1, 1)], 1.0);
}

#[test]
fn matmul_values_and_gradients() {
    let mut n = Net::new();
    let a = matrix(&mut n, &[vec![1., 2.], vec![3., 4.]]);
    let b = matrix(&mut n, &[vec![5., 6.], vec![7., 8.]]);
    let c = a.matmul(&mut n.g, &b);
    let v = n.values();
    assert_eq!(
        (v[c.get(0, 0)], v[c.get(0, 1)], v[c.get(1, 0)], v[c.get(1, 1)]),
        (19.0, 22.0, 43.0, 50.0)
    );
    let total = c.sum(&mut n.g);
    let grad = n.grads(total);
    // d/da[0][1] of the sum of all items = b[1][0] + b[1][1]
    assert_eq!(grad[a.get(0, 1)], 15.0);
}

#[test]
fn cast_needs_one_item() {
    let mut g = Graph::new();
    let two = Tensor1D::new(&mut g, 2);
    assert_eq!(two.cast(), None);
    let one = Tensor1D::new(&mut g, 1);
    assert_eq!(one.cast(), Some(one.items()[0]));
}

#[test]
fn ragged_rows_are_refused() {
    assert!(Tensor2D::from_rows(vec![vec![0, 1], vec![2]]).is_none());
    let m = Tensor2D::from_rows(vec![vec![0, 1], vec![2, 3]]).unwrap();
    assert_eq!(m.shape(), (2, 2));
    assert_eq!(m.get(1, 0), 2);
}

#[test]
fn dot_of_empty_vectors_is_an_empty_sum() {
    let mut n = Net::new();
    let d = dot(&mut n.g, &vec![], &vec![]);
    assert_eq!(n.g.op(d), Operation::Sum);
    assert_eq!(n.values()[d], 0.0);
}

#[test]
fn construct() {
    let mut n = Net::new();
    let var = n.input(2.0);
    let three = n.input(3.);
    let s = n.g.mul(var, three);
    let six = n.input(6.);
    let m = n.g.add(var, six);
    let v = n.values();
    assert_eq!(v[s], 6.);
    assert_eq!(v[m], 8.);
}

#[test]
fn rc_check_s() {
    let mut n = Net::new();
    let x = n.input(3.);
    let k = n.input(0.3);
    let a = n.g.mul(x, k);
    let grad = n.grads(a);
    assert_close(grad[x], 0.3, 1e-12);
}

#[test]
fn sum_of_empty_vector_is_zero() {
    let mut n = Net::new();
    let t = Tensor1D::new(&mut n.g, 0);
    let s = t.sum(&mut n.g);
    assert_eq!(n.values()[s], 0.0);
    assert_eq!(backward_plan(&n.g, s), vec![]);
}

#[test]
fn empty_sum_gradient_can_be_reset() {
    let mut g = Graph::new();
    let t = Tensor1D::new(&mut g, 0);
    let s = t.sum(&mut g);
    assert!(g.is_leaf(s));
    let x = g.leaf();
    let y = g.sum(&vec![x]);
    assert!(!g.is_leaf(y));
}

#[test]
fn new_matrix_holds_distinct_leaves() {
    let mut g = Graph::new();
    let before = g.len();
    let m = Tensor2D::new(&mut g, 3, 4);
    assert_eq!(g.len(), before + 12);
    let mut seen = Vec::new();
    for i in 0..3 {
        for j in 0..4 {
            let n = m.get(i, j);
            assert_eq!(g.op(n), Operation::Leaf);
            assert!(!seen.contains(&n));
            seen.push(n);
        }
    }
}
