use crate::graph::{Graph, NodeView, Operation, arity_ok, well_formed};
use vstd::prelude::*;

verus! {

/// The node made for item `x` by an elementwise operation `op`, with `other` as
/// second operand where `op` takes two.
pub open spec fn elementwise_node(op: Operation, x: usize, other: Option<usize>) -> NodeView {
    match other {
        None => NodeView { op, children: seq![x] },
        Some(v) => NodeView { op, children: seq![x, v] },
    }
}

/// The nodes made, in order, by applying `op` to each of `items`.
pub open spec fn elementwise_nodes(op: Operation, items: Seq<usize>, other: Option<usize>) -> Seq<NodeView> {
    Seq::new(items.len(), |i: int| elementwise_node(op, items[i], other))
}

/// `g` grew from `old` by appending nodes only.
pub open spec fn extends(old: Seq<NodeView>, g: Seq<NodeView>) -> bool {
    old.len() <= g.len() && g.take(old.len() as int) == old
}

/// Applies `op` to each item, in order: one new node per item.
fn elementwise(g: &mut Graph, items: &Vec<usize>, op: Operation, other: Option<usize>) -> (r: Vec<usize>)
    requires
        old(g).wf(),
        forall|i: int| 0 <= i < items@.len() ==> #[trigger] items@[i] < old(g)@.len(),
        match other {
            None => arity_ok(op, 1),
            Some(v) => arity_ok(op, 2) && v < old(g)@.len(),
        },
    ensures
        final(g).wf(),
        final(g)@ == old(g)@ + elementwise_nodes(op, items@, other),
        r@.len() == items@.len(),
        forall|i: int| 0 <= i < r@.len() ==> #[trigger] r@[i] == old(g)@.len() + i,
{
    let ghost g0 = g@;
    let mut r: Vec<usize> = Vec::new();
    let mut i: usize = 0;
    while i < items.len()
        invariant
            g.wf(),
            forall|j: int| 0 <= j < items@.len() ==> #[trigger] items@[j] < g0.len(),
            match other {
                None => arity_ok(op, 1),
                Some(v) => arity_ok(op, 2) && v < g0.len(),
            },
            i <= items@.len(),
            g@ == g0 + elementwise_nodes(op, items@.take(i as int), other),
            r@.len() == i,
            forall|j: int| 0 <= j < i ==> #[trigger] r@[j] == g0.len() + j,
        decreases items@.len() - i,
    {
        let x = items[i];
        let ghost before = g@;
        let n = match other {
            None => g.unary_node(op, x),
            Some(v) => g.binary_node(op, x, v),
        };
        r.push(n);
        i = i + 1;
        assert(g@ =~= g0 + elementwise_nodes(op, items@.take(i as int), other)) by {
            assert(items@.take(i as int).drop_last() =~= items@.take(i as int - 1));
            assert(elementwise_nodes(op, items@.take(i as int), other) =~= elementwise_nodes(
                op,
                items@.take(i as int - 1),
                other,
            ).push(elementwise_node(op, x, other)));
        }
    }
    assert(items@.take(items@.len() as int) =~= items@);
    r
}

/// A vector of nodes.
pub struct Tensor1D {
    items: Vec<usize>,
}

impl View for Tensor1D {
    type V = Seq<usize>;

    closed spec fn view(&self) -> Seq<usize> {
        self.items@
    }
}

impl Tensor1D {
    /// All items are nodes of `g`.
    pub open spec fn within(&self, g: Seq<NodeView>) -> bool {
        forall|i: int| 0 <= i < self@.len() ==> #[trigger] self@[i] < g.len()
    }

    /// The vector of the given nodes.
    pub fn from_nodes(items: Vec<usize>) -> (r: Tensor1D)
        ensures
            r@ == items@,
    {
        Tensor1D { items }
    }

    /// A vector of `n` new leaves.
    pub fn new(g: &mut Graph, n: usize) -> (r: Tensor1D)
        requires
            old(g).wf(),
        ensures
            final(g).wf(),
            final(g)@ == old(g)@ + Seq::new(n as nat, |i: int| NodeView { op: Operation::Leaf, children: seq![] }),
            r@.len() == n,
            forall|i: int| 0 <= i < n ==> #[trigger] r@[i] == old(g)@.len() + i,
    {
        let ghost g0 = g@;
        let mut items: Vec<usize> = Vec::new();
        let mut i: usize = 0;
        while i < n
            invariant
                g.wf(),
                i <= n,
                g@ == g0 + Seq::new(i as nat, |j: int| NodeView { op: Operation::Leaf, children: seq![] }),
                items@.len() == i,
                forall|j: int| 0 <= j < i ==> #[trigger] items@[j] == g0.len() + j,
            decreases n - i,
        {
            let x = g.leaf();
            items.push(x);
            i = i + 1;
            assert(g@ =~= g0 + Seq::new(i as nat, |j: int| NodeView { op: Operation::Leaf, children: seq![] }));
        }
        Tensor1D { items }
    }

    /// The number of items.
    pub fn shape(&self) -> (r: (usize,))
        ensures
            r.0 == self@.len(),
    {
        (self.items.len(),)
    }

    /// The items, in order.
    pub fn items(&self) -> (r: &Vec<usize>)
        ensures
            r@ == self@,
    {
        &self.items
    }

    /// The single item of a vector of one item; `None` for any other length.
    pub fn cast(&self) -> (r: Option<usize>)
        ensures
            self@.len() == 1 ==> r == Some(self@[0]),
            self@.len() != 1 ==> r is None,
    {
        if self.items.len() == 1 {
            Some(self.items[0])
        } else {
            None
        }
    }

    /// Applies the one-operand operation `op` to each item.
    pub fn apply_fn(&self, g: &mut Graph, op: Operation) -> (r: Tensor1D)
        requires
            old(g).wf(),
            self.within(old(g)@),
            arity_ok(op, 1),
        ensures
            final(g).wf(),
            final(g)@ == old(g)@ + elementwise_nodes(op, self@, None),
            r@.len() == self@.len(),
            forall|i: int| 0 <= i < r@.len() ==> #[trigger] r@[i] == old(g)@.len() + i,
    {
        assert(self.items@ == self@);
        Tensor1D { items: elementwise(g, &self.items, op, None) }
    }

    /// `sin` of each item.
    pub fn sin(&self, g: &mut Graph) -> (r: Tensor1D)
        requires
            old(g).wf(),
            self.within(old(g)@),
        ensures
            final(g).wf(),
            final(g)@ == old(g)@ + elementwise_nodes(Operation::Sin, self@, None),
            r@.len() == self@.len(),
            forall|i: int| 0 <= i < r@.len() ==> #[trigger] r@[i] == old(g)@.len() + i,
    {
        self.apply_fn(g, Operation::Sin)
    }

    /// `cos` of each item.
    pub fn cos(&self, g: &mut Graph) -> (r: Tensor1D)
        requires
            old(g).wf(),
            self.within(old(g)@),
        ensures
            final(g).wf(),
            final(g)@ == old(g)@ + elementwise_nodes(Operation::Cos, self@, None),
            r@.len() == self@.len(),
            forall|i: int| 0 <= i < r@.len() ==> #[trigger] r@[i] == old(g)@.len() + i,
    {
        self.apply_fn(g, Operation::Cos)
    }

    /// `e ^ x` of each item `x`.
    pub fn exp(&self, g: &mut Graph) -> (r: Tensor1D)
        requires
            old(g).wf(),
            self.within(old(g)@),
        ensures
            final(g).wf(),
            final(g)@ == old(g)@ + elementwise_nodes(Operation::Exp, self@, None),
            r@.len() == self@.len(),
            forall|i: int| 0 <= i < r@.len() ==> #[trigger] r@[i] == old(g)@.len() + i,
    {
        self.apply_fn(g, Operation::Exp)
    }

    /// `max(x, 0)` of each item `x`.
    pub fn relu(&self, g: &mut Graph) -> (r: Tensor1D)
        requires
            old(g).wf(),
            self.within(old(g)@),
        ensures
            final(g).wf(),
            final(g)@ == old(g)@ + elementwise_nodes(Operation::Relu, self@, None),
            r@.len() == self@.len(),
            forall|i: int| 0 <= i < r@.len() ==> #[trigger] r@[i] == old(g)@.len() + i,
    {
        self.apply_fn(g, Operation::Relu)
    }

    /// Each item times node `v`.
    pub fn scale(&self, g: &mut Graph, v: usize) -> (r: Tensor1D)
        requires
            old(g).wf(),
            self.within(old(g)@),
            v < old(g)@.len(),
        ensures
            final(g).wf(),
            final(g)@ == old(g)@ + elementwise_nodes(Operation::Mul, self@, Some(v)),
            r@.len() == self@.len(),
            forall|i: int| 0 <= i < r@.len() ==> #[trigger] r@[i] == old(g)@.len() + i,
    {
        assert(self.items@ == self@);
        Tensor1D { items: elementwise(g, &self.items, Operation::Mul, Some(v)) }
    }

    /// Each item plus node `v`.
    pub fn shift(&self, g: &mut Graph, v: usize) -> (r: Tensor1D)
        requires
            old(g).wf(),
            self.within(old(g)@),
            v < old(g)@.len(),
        ensures
            final(g).wf(),
            final(g)@ == old(g)@ + elementwise_nodes(Operation::Add, self@, Some(v)),
            r@.len() == self@.len(),
            forall|i: int| 0 <= i < r@.len() ==> #[trigger] r@[i] == old(g)@.len() + i,
    {
        assert(self.items@ == self@);
        Tensor1D { items: elementwise(g, &self.items, Operation::Add, Some(v)) }
    }

    /// One new node holding the sum of all items, which are its operands: a long
    /// vector makes one wide node, not a long chain.
    pub fn sum(&self, g: &mut Graph) -> (r: usize)
        requires
            old(g).wf(),
            self.within(old(g)@),
        ensures
            final(g).wf(),
            r == old(g)@.len(),
            final(g)@ == old(g)@.push(NodeView { op: Operation::Sum, children: self@ }),
    {
        assert(self.items@ == self@);
        g.sum(&self.items)
    }

    /// The vector as a matrix of one row.
    pub fn t(&self) -> (r: Tensor2D)
        ensures
            r.wf(),
            r@ == seq![self@],
            r.cols() == self@.len(),
    {
        let rows: Vec<Vec<usize>> = vec![self.items.clone()];
        let r = Tensor2D { rows, cols: self.items.len() };
        assert(r@ =~= seq![self@]);
        r
    }
}


/// Node `n` of `g` is the dot product of the nodes `xs` and `ys`: a sum whose
/// operands are the products `xs[k] * ys[k]`, in order.
pub open spec fn is_dot(g: Seq<NodeView>, n: usize, xs: Seq<usize>, ys: Seq<usize>) -> bool {
    &&& n < g.len()
    &&& g[n as int].op is Sum
    &&& g[n as int].children.len() == xs.len()
    &&& forall|k: int|
        0 <= k < xs.len() ==> #[trigger] g[n as int].children[k] < g.len() && g[g[n as int].children[k] as int]
            == product_node(xs[k], ys[k])
}

/// The node `x * y`.
pub open spec fn product_node(x: usize, y: usize) -> NodeView {
    NodeView { op: Operation::Mul, children: seq![x, y] }
}

/// Column `j` of the rows `m`.
pub open spec fn column(m: Seq<Seq<usize>>, j: int) -> Seq<usize> {
    Seq::new(m.len(), |k: int| m[k][j])
}

/// The rows `m`, one after the other.
pub open spec fn concat_rows(m: Seq<Seq<usize>>) -> Seq<usize>
    decreases m.len(),
{
    if m.len() == 0 {
        seq![]
    } else {
        concat_rows(m.drop_last()) + m.last()
    }
}

proof fn lemma_extends_keeps_dot(g1: Seq<NodeView>, g2: Seq<NodeView>, n: usize, xs: Seq<usize>, ys: Seq<usize>)
    requires
        well_formed(g1),
        extends(g1, g2),
        is_dot(g1, n, xs, ys),
    ensures
        is_dot(g2, n, xs, ys),
{
    assert(g2[n as int] == g1[n as int]) by {
        assert(g2.take(g1.len() as int)[n as int] == g2[n as int]);
    }
    assert forall|k: int| 0 <= k < xs.len() implies #[trigger] g2[n as int].children[k] < g2.len()
        && g2[g2[n as int].children[k] as int] == product_node(xs[k], ys[k]) by {
        let c = g1[n as int].children[k];
        assert(g1[n as int].children[k] < g1.len());
        assert(g2.take(g1.len() as int)[c as int] == g2[c as int]);
    }
}

proof fn lemma_extends_trans(a: Seq<NodeView>, b: Seq<NodeView>, c: Seq<NodeView>)
    requires
        extends(a, b),
        extends(b, c),
    ensures
        extends(a, c),
{
    assert(c.take(a.len() as int) =~= c.take(b.len() as int).take(a.len() as int));
}

/// A new node for the dot product of `xs` and `ys`: one product node per pair, then
/// a sum over the products.
pub fn dot(g: &mut Graph, xs: &Vec<usize>, ys: &Vec<usize>) -> (r: usize)
    requires
        old(g).wf(),
        xs@.len() == ys@.len(),
        forall|k: int| 0 <= k < xs@.len() ==> #[trigger] xs@[k] < old(g)@.len(),
        forall|k: int| 0 <= k < ys@.len() ==> #[trigger] ys@[k] < old(g)@.len(),
    ensures
        final(g).wf(),
        extends(old(g)@, final(g)@),
        r == final(g)@.len() - 1,
        r >= old(g)@.len(),
        is_dot(final(g)@, r, xs@, ys@),
{
    let ghost g0 = g@;
    assert(g0.take(g0.len() as int) =~= g0);
    let mut products: Vec<usize> = Vec::new();
    let mut k: usize = 0;
    while k < xs.len()
        invariant
            g.wf(),
            xs@.len() == ys@.len(),
            forall|j: int| 0 <= j < xs@.len() ==> #[trigger] xs@[j] < g0.len(),
            forall|j: int| 0 <= j < ys@.len() ==> #[trigger] ys@[j] < g0.len(),
            k <= xs@.len(),
            extends(g0, g@),
            products@.len() == k,
            forall|j: int|
                0 <= j < k ==> #[trigger] products@[j] < g@.len() && g@[products@[j] as int] == product_node(xs@[j], ys@[j]),
        decreases xs@.len() - k,
    {
        let ghost before = g@;
        let p = g.mul(xs[k], ys[k]);
        products.push(p);
        assert forall|j: int|
            0 <= j <= k implies #[trigger] products@[j] < g@.len() && g@[products@[j] as int] == product_node(xs@[j], ys@[j]) by {
            if j < k {
                assert(g@[products@[j] as int] == before[products@[j] as int]);
            }
        }
        assert(g@.take(g0.len() as int) =~= before.take(g0.len() as int));
        k = k + 1;
    }
    let ghost before = g@;
    let r = g.sum(&products);
    assert(g@.take(g0.len() as int) =~= before.take(g0.len() as int));
    assert forall|j: int| 0 <= j < xs@.len() implies #[trigger] g@[r as int].children[j] < g@.len()
        && g@[g@[r as int].children[j] as int] == product_node(xs@[j], ys@[j]) by {
        assert(g@[r as int].children[j] == products@[j]);
        assert(g@[products@[j] as int] == before[products@[j] as int]);
    }
    r
}

/// A matrix of nodes: rows of equal length.
pub struct Tensor2D {
    rows: Vec<Vec<usize>>,
    cols: usize,
}

impl View for Tensor2D {
    type V = Seq<Seq<usize>>;

    closed spec fn view(&self) -> Seq<Seq<usize>> {
        Seq::new(self.rows@.len(), |i: int| self.rows@[i]@)
    }
}

impl Tensor2D {
    /// The number of columns.
    pub closed spec fn cols(&self) -> nat {
        self.cols as nat
    }

    /// Every row has `cols()` items.
    pub open spec fn wf(&self) -> bool {
        forall|i: int| 0 <= i < self@.len() ==> (#[trigger] self@[i]).len() == self.cols()
    }

    /// All items are nodes of `g`.
    pub open spec fn within(&self, g: Seq<NodeView>) -> bool {
        forall|i: int, j: int|
            0 <= i < self@.len() && 0 <= j < self@[i].len() ==> #[trigger] self@[i][j] < g.len()
    }

    /// A `r` by `c` matrix of new leaves, made row by row.
    pub fn new(g: &mut Graph, r: usize, c: usize) -> (m: Tensor2D)
        requires
            old(g).wf(),
        ensures
            final(g).wf(),
            extends(old(g)@, final(g)@),
            m.wf(),
            m@.len() == r,
            m.cols() == c,
            forall|i: int, j: int|
                0 <= i < r && 0 <= j < c ==> old(g)@.len() <= #[trigger] m@[i][j] < final(g)@.len()
                    && final(g)@[m@[i][j] as int].op is Leaf,
            forall|i: int, j: int, a: int, b: int|
                0 <= i < r && 0 <= j < c && 0 <= a < r && 0 <= b < c && (i != a || j != b)
                    ==> #[trigger] m@[i][j] != #[trigger] m@[a][b],
    {
        let ghost g0 = g@;
        assert(g0.take(g0.len() as int) =~= g0);
        let mut rows: Vec<Vec<usize>> = Vec::new();
        let mut i: usize = 0;
        while i < r
            invariant
                g.wf(),
                i <= r,
                extends(g0, g@),
                rows@.len() == i,
                forall|a: int| 0 <= a < i ==> (#[trigger] rows@[a])@.len() == c,
                forall|a: int, b: int|
                    0 <= a < i && 0 <= b < c ==> g0.len() <= #[trigger] rows@[a]@[b] < g@.len()
                        && g@[rows@[a]@[b] as int].op is Leaf,
                forall|a: int, b: int, a2: int, b2: int|
                    0 <= a < i && 0 <= b < c && 0 <= a2 < i && 0 <= b2 < c && (a != a2 || b != b2)
                        ==> #[trigger] rows@[a]@[b] != #[trigger] rows@[a2]@[b2],
            decreases r - i,
        {
            let ghost before = g@;
            let ghost prev = rows@;
            let row = Tensor1D::new(g, c);
            rows.push(row.items);
            assert forall|a: int, b: int|
                0 <= a <= i && 0 <= b < c implies g0.len() <= #[trigger] rows@[a]@[b] < g@.len()
                    && g@[rows@[a]@[b] as int].op is Leaf by {
                if a < i {
                    assert(rows@[a] == prev[a]);
                    assert(g@[rows@[a]@[b] as int] == before[rows@[a]@[b] as int]);
                } else {
                    assert(rows@[a]@ == row@);
                    assert(g@[rows@[a]@[b] as int] == NodeView { op: Operation::Leaf, children: seq![] });
                }
            }
            assert forall|a: int, b: int, a2: int, b2: int|
                0 <= a <= i && 0 <= b < c && 0 <= a2 <= i && 0 <= b2 < c && (a != a2 || b != b2)
                    implies #[trigger] rows@[a]@[b] != #[trigger] rows@[a2]@[b2] by {
                if a < i {
                    assert(rows@[a] == prev[a]);
                    assert(prev[a]@[b] < before.len());
                }
                if a2 < i {
                    assert(rows@[a2] == prev[a2]);
                    assert(prev[a2]@[b2] < before.len());
                }
                if a == i {
                    assert(rows@[a]@ == row@);
                    assert(row@[b] == before.len() + b);
                }
                if a2 == i {
                    assert(rows@[a2]@ == row@);
                    assert(row@[b2] == before.len() + b2);
                }
            }
            assert(g@.take(g0.len() as int) =~= before.take(g0.len() as int));
            i = i + 1;
        }
        Tensor2D { rows, cols: c }
    }

    /// The number of rows and of columns.
    pub fn shape(&self) -> (r: (usize, usize))
        requires
            self.wf(),
        ensures
            r.0 == self@.len(),
            r.1 == self.cols(),
    {
        (self.rows.len(), self.cols)
    }

    /// The node in row `i`, column `j`.
    pub fn get(&self, i: usize, j: usize) -> (r: usize)
        requires
            self.wf(),
            i < self@.len(),
            j < self.cols(),
        ensures
            r == self@[i as int][j as int],
    {
        assert(self.rows@[i as int]@ == self@[i as int]);
        self.rows[i][j]
    }

    /// The matrix of the given rows, or `None` where they differ in length. A
    /// matrix of no rows has no columns.
    pub fn from_rows(rows: Vec<Vec<usize>>) -> (r: Option<Tensor2D>)
        ensures
            (forall|i: int| 0 <= i < rows@.len() ==> (#[trigger] rows@[i])@.len() == rows@[0]@.len()) ==> (r
                matches Some(m) && m.wf() && m@ == Seq::new(rows@.len(), |i: int| rows@[i]@) && m.cols() == if rows@.len()
                == 0 {
                0
            } else {
                rows@[0]@.len()
            }),
            !(forall|i: int| 0 <= i < rows@.len() ==> (#[trigger] rows@[i])@.len() == rows@[0]@.len()) ==> r is None,
    {
        let cols: usize = if rows.len() == 0 {
            0
        } else {
            rows[0].len()
        };
        let mut i: usize = 0;
        while i < rows.len()
            invariant
                i <= rows@.len(),
                rows@.len() > 0 ==> cols == rows@[0]@.len(),
                forall|a: int| 0 <= a < i ==> (#[trigger] rows@[a])@.len() == cols,
            decreases rows@.len() - i,
        {
            if rows[i].len() != cols {
                return None;
            }
            i = i + 1;
        }
        let m = Tensor2D { rows, cols };
        Some(m)
    }

    /// One new node holding the sum of all items, row after row.
    pub fn sum(&self, g: &mut Graph) -> (r: usize)
        requires
            old(g).wf(),
            self.within(old(g)@),
        ensures
            final(g).wf(),
            r == old(g)@.len(),
            final(g)@ == old(g)@.push(NodeView { op: Operation::Sum, children: concat_rows(self@) }),
    {
        let mut items: Vec<usize> = Vec::new();
        let mut i: usize = 0;
        while i < self.rows.len()
            invariant
                i <= self@.len(),
                self.rows@.len() == self@.len(),
                items@ == concat_rows(self@.take(i as int)),
                forall|k: int| 0 <= k < items@.len() ==> #[trigger] items@[k] < g@.len(),
                self.within(g@),
            decreases self@.len() - i,
        {
            let row = &self.rows[i];
            assert(row@ == self@[i as int]);
            let mut j: usize = 0;
            let ghost start = items@;
            while j < row.len()
                invariant
                    j <= row@.len(),
                    i < self@.len(),
                    row@ == self@[i as int],
                    items@ == start + row@.take(j as int),
                    forall|k: int| 0 <= k < start.len() ==> #[trigger] start[k] < g@.len(),
                    self.within(g@),
                decreases row@.len() - j,
            {
                items.push(row[j]);
                j = j + 1;
                assert(items@ =~= start + row@.take(j as int));
            }
            assert(row@.take(j as int) =~= row@);
            assert(self@.take(i as int + 1).drop_last() =~= self@.take(i as int));
            i = i + 1;
            assert forall|k: int| 0 <= k < items@.len() implies #[trigger] items@[k] < g@.len() by {
                if k >= start.len() {
                    assert(items@[k] == self@[i - 1][k - start.len()]);
                }
            }
        }
        assert(self@.take(self@.len() as int) =~= self@);
        g.sum(&items)
    }

    /// Each item combined with node `v` by the two-operand operation `op`.
    fn map_with(&self, g: &mut Graph, op: Operation, v: usize) -> (r: Tensor2D)
        requires
            old(g).wf(),
            self.wf(),
            self.within(old(g)@),
            arity_ok(op, 2),
            v < old(g)@.len(),
        ensures
            final(g).wf(),
            extends(old(g)@, final(g)@),
            r.wf(),
            r@.len() == self@.len(),
            r.cols() == self.cols(),
            forall|i: int, j: int|
                0 <= i < r@.len() && 0 <= j < r.cols() ==> #[trigger] r@[i][j] < final(g)@.len()
                    && final(g)@[r@[i][j] as int] == elementwise_node(op, self@[i][j], Some(v)),
    {
        let ghost g0 = g@;
        assert(g0.take(g0.len() as int) =~= g0);
        let mut rows: Vec<Vec<usize>> = Vec::new();
        let mut i: usize = 0;
        while i < self.rows.len()
            invariant
                g.wf(),
                self.wf(),
                self.within(g0),
                self.rows@.len() == self@.len(),
                arity_ok(op, 2),
                v < g0.len(),
                i <= self@.len(),
                extends(g0, g@),
                rows@.len() == i,
                forall|a: int| 0 <= a < i ==> (#[trigger] rows@[a])@.len() == self.cols(),
                forall|a: int, b: int|
                    0 <= a < i && 0 <= b < self.cols() ==> #[trigger] rows@[a]@[b] < g@.len()
                        && g@[rows@[a]@[b] as int] == elementwise_node(op, self@[a][b], Some(v)),
            decreases self@.len() - i,
        {
            let ghost before = g@;
            let ghost prev = rows@;
            assert(self.rows@[i as int]@ == self@[i as int]);
            let row = elementwise(g, &self.rows[i], op, Some(v));
            rows.push(row);
            assert forall|a: int, b: int|
                0 <= a <= i && 0 <= b < self.cols() implies #[trigger] rows@[a]@[b] < g@.len()
                    && g@[rows@[a]@[b] as int] == elementwise_node(op, self@[a][b], Some(v)) by {
                if a < i {
                    assert(rows@[a] == prev[a]);
                    assert(g@[rows@[a]@[b] as int] == before[rows@[a]@[b] as int]);
                } else {
                    assert(rows@[a] == row);
                }
            }
            assert(g@.take(g0.len() as int) =~= before.take(g0.len() as int));
            i = i + 1;
        }
        let r = Tensor2D { rows, cols: self.cols };
        assert forall|a: int| 0 <= a < r@.len() implies (#[trigger] r@[a]).len() == r.cols() by {
            assert(r@[a] == rows@[a]@);
        }
        r
    }

    /// Each item times node `v`.
    pub fn scale(&self, g: &mut Graph, v: usize) -> (r: Tensor2D)
        requires
            old(g).wf(),
            self.wf(),
            self.within(old(g)@),
            v < old(g)@.len(),
        ensures
            final(g).wf(),
            extends(old(g)@, final(g)@),
            r.wf(),
            r@.len() == self@.len(),
            r.cols() == self.cols(),
            forall|i: int, j: int|
                0 <= i < r@.len() && 0 <= j < r.cols() ==> #[trigger] r@[i][j] < final(g)@.len()
                    && final(g)@[r@[i][j] as int] == elementwise_node(Operation::Mul, self@[i][j], Some(v)),
    {
        self.map_with(g, Operation::Mul, v)
    }

    /// Each item plus node `v`.
    pub fn shift(&self, g: &mut Graph, v: usize) -> (r: Tensor2D)
        requires
            old(g).wf(),
            self.wf(),
            self.within(old(g)@),
            v < old(g)@.len(),
        ensures
            final(g).wf(),
            extends(old(g)@, final(g)@),
            r.wf(),
            r@.len() == self@.len(),
            r.cols() == self.cols(),
            forall|i: int, j: int|
                0 <= i < r@.len() && 0 <= j < r.cols() ==> #[trigger] r@[i][j] < final(g)@.len()
                    && final(g)@[r@[i][j] as int] == elementwise_node(Operation::Add, self@[i][j], Some(v)),
    {
        self.map_with(g, Operation::Add, v)
    }

    /// The product of this matrix with the vector `x`: item `i` is the dot product
    /// of row `i` with `x`.
    pub fn matvec(&self, g: &mut Graph, x: &Tensor1D) -> (r: Tensor1D)
        requires
            old(g).wf(),
            self.wf(),
            self.within(old(g)@),
            x.within(old(g)@),
            self.cols() == x@.len(),
        ensures
            final(g).wf(),
            extends(old(g)@, final(g)@),
            r@.len() == self@.len(),
            forall|i: int| 0 <= i < r@.len() ==> is_dot(final(g)@, #[trigger] r@[i], self@[i], x@),
    {
        let ghost g0 = g@;
        assert(g0.take(g0.len() as int) =~= g0);
        let mut out: Vec<usize> = Vec::new();
        let mut i: usize = 0;
        while i < self.rows.len()
            invariant
                g.wf(),
                self.wf(),
                self.within(g0),
                x.within(g0),
                self.cols() == x@.len(),
                self.rows@.len() == self@.len(),
                i <= self@.len(),
                extends(g0, g@),
                out@.len() == i,
                forall|a: int| 0 <= a < i ==> is_dot(g@, #[trigger] out@[a], self@[a], x@),
            decreases self@.len() - i,
        {
            let ghost before = g@;
            assert(self.rows@[i as int]@ == self@[i as int]);
            let n = dot(g, &self.rows[i], x.items());
            proof {
                lemma_extends_trans(g0, before, g@);
                assert forall|a: int| 0 <= a < i implies is_dot(g@, #[trigger] out@[a], self@[a], x@) by {
                    lemma_extends_keeps_dot(before, g@, out@[a], self@[a], x@);
                }
            }
            out.push(n);
            i = i + 1;
        }
        Tensor1D { items: out }
    }

    /// Column `j`, as a vector.
    fn column_items(&self, j: usize) -> (r: Vec<usize>)
        requires
            self.wf(),
            j < self.cols(),
        ensures
            r@ == column(self@, j as int),
    {
        let mut r: Vec<usize> = Vec::new();
        let mut k: usize = 0;
        while k < self.rows.len()
            invariant
                self.wf(),
                j < self.cols(),
                self.rows@.len() == self@.len(),
                k <= self@.len(),
                r@ == column(self@, j as int).take(k as int),
            decreases self@.len() - k,
        {
            assert(self.rows@[k as int]@ == self@[k as int]);
            r.push(self.rows[k][j]);
            k = k + 1;
            assert(r@ =~= column(self@, j as int).take(k as int));
        }
        assert(column(self@, j as int).take(k as int) =~= column(self@, j as int));
        r
    }

    /// The product of this matrix with `other`: item `(i, j)` is the dot product of
    /// row `i` with column `j` of `other`.
    pub fn matmul(&self, g: &mut Graph, other: &Tensor2D) -> (r: Tensor2D)
        requires
            old(g).wf(),
            self.wf(),
            other.wf(),
            self.within(old(g)@),
            other.within(old(g)@),
            self.cols() == other@.len(),
        ensures
            final(g).wf(),
            extends(old(g)@, final(g)@),
            r.wf(),
            r@.len() == self@.len(),
            r.cols() == other.cols(),
            forall|i: int, j: int|
                0 <= i < r@.len() && 0 <= j < r.cols() ==> is_dot(
                    final(g)@,
                    #[trigger] r@[i][j],
                    self@[i],
                    column(other@, j),
                ),
    {
        let ghost g0 = g@;
        assert(g0.take(g0.len() as int) =~= g0);
        let mut rows: Vec<Vec<usize>> = Vec::new();
        let mut i: usize = 0;
        while i < self.rows.len()
            invariant
                g.wf(),
                self.wf(),
                other.wf(),
                self.within(g0),
                other.within(g0),
                self.cols() == other@.len(),
                self.rows@.len() == self@.len(),
                i <= self@.len(),
                extends(g0, g@),
                rows@.len() == i,
                forall|a: int| 0 <= a < i ==> (#[trigger] rows@[a])@.len() == other.cols(),
                forall|a: int, b: int|
                    0 <= a < i && 0 <= b < other.cols() ==> is_dot(
                        g@,
                        #[trigger] rows@[a]@[b],
                        self@[a],
                        column(other@, b),
                    ),
            decreases self@.len() - i,
        {
            assert(self.rows@[i as int]@ == self@[i as int]);
            let mut row: Vec<usize> = Vec::new();
            let mut j: usize = 0;
            while j < other.cols
                invariant
                    g.wf(),
                    self.wf(),
                    other.wf(),
                    self.within(g0),
                    other.within(g0),
                    self.cols() == other@.len(),
                    self.rows@.len() == self@.len(),
                    i < self@.len(),
                    self.rows@[i as int]@ == self@[i as int],
                    j <= other.cols(),
                    extends(g0, g@),
                    rows@.len() == i,
                    row@.len() == j,
                    forall|a: int, b: int|
                        0 <= a < i && 0 <= b < other.cols() ==> is_dot(
                            g@,
                            #[trigger] rows@[a]@[b],
                            self@[a],
                            column(other@, b),
                        ),
                    forall|b: int| 0 <= b < j ==> is_dot(g@, #[trigger] row@[b], self@[i as int], column(other@, b)),
                decreases other.cols() - j,
            {
                let col = other.column_items(j);
                let ghost before = g@;
                assert forall|k: int| 0 <= k < col@.len() implies #[trigger] col@[k] < g0.len() by {
                    assert(col@[k] == other@[k][j as int]);
                    assert(other@[k].len() == other.cols());
                }
                let n = dot(g, &self.rows[i], &col);
                proof {
                    lemma_extends_trans(g0, before, g@);
                    assert forall|a: int, b: int|
                        0 <= a < i && 0 <= b < other.cols() implies is_dot(
                            g@,
                            #[trigger] rows@[a]@[b],
                            self@[a],
                            column(other@, b),
                        ) by {
                        lemma_extends_keeps_dot(before, g@, rows@[a]@[b], self@[a], column(other@, b));
                    }
                    assert forall|b: int| 0 <= b < j implies is_dot(
                        g@,
                        #[trigger] row@[b],
                        self@[i as int],
                        column(other@, b),
                    ) by {
                        lemma_extends_keeps_dot(before, g@, row@[b], self@[i as int], column(other@, b));
                    }
                }
                row.push(n);
                j = j + 1;
            }
            let ghost prev = rows@;
            rows.push(row);
            assert forall|a: int, b: int|
                0 <= a <= i && 0 <= b < other.cols() implies is_dot(
                    g@,
                    #[trigger] rows@[a]@[b],
                    self@[a],
                    column(other@, b),
                ) by {
                if a < i {
                    assert(rows@[a] == prev[a]);
                }
            }
            i = i + 1;
        }
        let r = Tensor2D { rows, cols: other.cols };
        assert forall|a: int| 0 <= a < r@.len() implies (#[trigger] r@[a]).len() == r.cols() by {
            assert(r@[a] == rows@[a]@);
        }
        r
    }
}

} // verus!
