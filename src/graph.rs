use vstd::prelude::*;

verus! {

/// The operation that produced a node.
#[derive(Clone, Copy, Debug, PartialEq, Eq, Structural)]
pub enum Operation {
    /// An input or a constant: no operands.
    Leaf,
    /// `x + y`
    Add,
    /// `x * y`
    Mul,
    /// `x / y`
    Div,
    /// `x ^ p`, with the exponent held by a leaf operand that is not differentiated.
    Pow,
    /// `sin(x)`
    Sin,
    /// `cos(x)`
    Cos,
    /// `e ^ x`
    Exp,
    /// `max(x, 0)`
    Relu,
    /// The sum of any number of operands (zero for none).
    Sum,
}

/// An operation asked for outside its domain.
#[derive(Clone, Copy, Debug, PartialEq, Eq, Structural)]
pub enum DomainError {
    /// A quotient whose divisor is zero.
    DivisionByZero,
}

/// How many operands a node of operation `op` has.
pub open spec fn arity_ok(op: Operation, n: nat) -> bool {
    match op {
        Operation::Leaf => n == 0,
        Operation::Add | Operation::Mul | Operation::Div | Operation::Pow => n == 2,
        Operation::Sin | Operation::Cos | Operation::Exp | Operation::Relu => n == 1,
        Operation::Sum => true,
    }
}

/// Every operand of a node was created before it, and each node has as many
/// operands as its operation takes.
pub open spec fn well_formed(g: Seq<NodeView>) -> bool {
    forall|i: int|
        0 <= i < g.len() ==> {
            &&& arity_ok(#[trigger] g[i].op, g[i].children.len())
            &&& forall|k: int| 0 <= k < g[i].children.len() ==> #[trigger] g[i].children[k] < i
        }
}

/// What a node is, seen from the outside: its operation and its operands, in order.
pub struct NodeView {
    pub op: Operation,
    pub children: Seq<usize>,
}

struct Node {
    op: Operation,
    children: Vec<usize>,
}

/// An arena of nodes. A node's identity is its index; its operands are indices of
/// nodes created before it, so the operand relation is acyclic by construction.
pub struct Graph {
    nodes: Vec<Node>,
}

impl View for Graph {
    type V = Seq<NodeView>;

    closed spec fn view(&self) -> Seq<NodeView> {
        Seq::new(
            self.nodes@.len(),
            |i: int| NodeView { op: self.nodes@[i].op, children: self.nodes@[i].children@ },
        )
    }
}

impl Graph {
    pub open spec fn wf(&self) -> bool {
        well_formed(self@)
    }

    /// An empty graph.
    pub fn new() -> (r: Graph)
        ensures
            r.wf(),
            r@.len() == 0,
    {
        let r = Graph { nodes: Vec::new() };
        assert(r@ =~= Seq::<NodeView>::empty());
        r
    }

    /// The number of nodes.
    pub fn len(&self) -> (r: usize)
        ensures
            r == self@.len(),
    {
        self.nodes.len()
    }

    /// The operation of node `i`.
    pub fn op(&self, i: usize) -> (r: Operation)
        requires
            i < self@.len(),
        ensures
            r == self@[i as int].op,
    {
        self.nodes[i].op
    }

    /// The operands of node `i`, in order.
    pub fn children(&self, i: usize) -> (r: &Vec<usize>)
        requires
            i < self@.len(),
        ensures
            r@ == self@[i as int].children,
    {
        &self.nodes[i].children
    }

    /// Whether node `i` has no operands, which makes it the kind of node whose
    /// gradient may be reset: every `Leaf`, and a sum of no operands.
    pub fn is_leaf(&self, i: usize) -> (r: bool)
        requires
            self.wf(),
            i < self@.len(),
        ensures
            r == (self@[i as int].children.len() == 0),
            self@[i as int].op is Leaf ==> r,
    {
        assert(arity_ok(self@[i as int].op, self@[i as int].children.len()));
        self.nodes[i].children.len() == 0
    }

    fn push_node(&mut self, op: Operation, children: Vec<usize>) -> (r: usize)
        requires
            old(self).wf(),
            arity_ok(op, children@.len()),
            forall|k: int| 0 <= k < children@.len() ==> #[trigger] children@[k] < old(self)@.len(),
        ensures
            final(self).wf(),
            r == old(self)@.len(),
            final(self)@ == old(self)@.push(NodeView { op, children: children@ }),
    {
        let r = self.nodes.len();
        let ghost before = self@;
        self.nodes.push(Node { op, children });
        assert(self@ =~= before.push(NodeView { op, children: children@ }));
        r
    }

    /// A new leaf node.
    pub fn leaf(&mut self) -> (r: usize)
        requires
            old(self).wf(),
        ensures
            final(self).wf(),
            r == old(self)@.len(),
            final(self)@ == old(self)@.push(NodeView { op: Operation::Leaf, children: seq![] }),
    {
        let children: Vec<usize> = Vec::new();
        assert(children@ =~= seq![]);
        self.push_node(Operation::Leaf, children)
    }

    pub(crate) fn binary_node(&mut self, op: Operation, a: usize, b: usize) -> (r: usize)
        requires
            old(self).wf(),
            arity_ok(op, 2),
            a < old(self)@.len(),
            b < old(self)@.len(),
        ensures
            final(self).wf(),
            r == old(self)@.len(),
            final(self)@ == old(self)@.push(NodeView { op, children: seq![a, b] }),
    {
        let children: Vec<usize> = vec![a, b];
        assert(children@ =~= seq![a, b]);
        self.push_node(op, children)
    }

    pub(crate) fn unary_node(&mut self, op: Operation, a: usize) -> (r: usize)
        requires
            old(self).wf(),
            arity_ok(op, 1),
            a < old(self)@.len(),
        ensures
            final(self).wf(),
            r == old(self)@.len(),
            final(self)@ == old(self)@.push(NodeView { op, children: seq![a] }),
    {
        let children: Vec<usize> = vec![a];
        assert(children@ =~= seq![a]);
        self.push_node(op, children)
    }

    /// A new node `a + b`.
    pub fn add(&mut self, a: usize, b: usize) -> (r: usize)
        requires
            old(self).wf(),
            a < old(self)@.len(),
            b < old(self)@.len(),
        ensures
            final(self).wf(),
            r == old(self)@.len(),
            final(self)@ == old(self)@.push(NodeView { op: Operation::Add, children: seq![a, b] }),
    {
        self.binary_node(Operation::Add, a, b)
    }

    /// A new node `a * b`.
    pub fn mul(&mut self, a: usize, b: usize) -> (r: usize)
        requires
            old(self).wf(),
            a < old(self)@.len(),
            b < old(self)@.len(),
        ensures
            final(self).wf(),
            r == old(self)@.len(),
            final(self)@ == old(self)@.push(NodeView { op: Operation::Mul, children: seq![a, b] }),
    {
        self.binary_node(Operation::Mul, a, b)
    }

    /// A new node `a / b`, unless the divisor's current value is zero: then no node
    /// is made and the graph is left as it was. The caller, which holds the values,
    /// says whether it is.
    pub fn div(&mut self, a: usize, b: usize, divisor_is_zero: bool) -> (r: Result<usize, DomainError>)
        requires
            old(self).wf(),
            a < old(self)@.len(),
            b < old(self)@.len(),
        ensures
            final(self).wf(),
            divisor_is_zero ==> r == Err::<usize, DomainError>(DomainError::DivisionByZero)
                && final(self)@ == old(self)@,
            !divisor_is_zero ==> r == Ok::<usize, DomainError>(old(self)@.len() as usize)
                && final(self)@ == old(self)@.push(
                NodeView { op: Operation::Div, children: seq![a, b] },
            ),
    {
        if divisor_is_zero {
            Err(DomainError::DivisionByZero)
        } else {
            Ok(self.binary_node(Operation::Div, a, b))
        }
    }

    /// A new node `base ^ exponent`, where `exponent` is a leaf holding the power:
    /// a constant of the node, to which no gradient flows.
    pub fn pow(&mut self, base: usize, exponent: usize) -> (r: usize)
        requires
            old(self).wf(),
            base < old(self)@.len(),
            exponent < old(self)@.len(),
            old(self)@[exponent as int].op is Leaf,
        ensures
            final(self).wf(),
            r == old(self)@.len(),
            final(self)@ == old(self)@.push(
                NodeView { op: Operation::Pow, children: seq![base, exponent] },
            ),
    {
        self.binary_node(Operation::Pow, base, exponent)
    }

    /// A new node `sin(a)`.
    pub fn sin(&mut self, a: usize) -> (r: usize)
        requires
            old(self).wf(),
            a < old(self)@.len(),
        ensures
            final(self).wf(),
            r == old(self)@.len(),
            final(self)@ == old(self)@.push(NodeView { op: Operation::Sin, children: seq![a] }),
    {
        self.unary_node(Operation::Sin, a)
    }

    /// A new node `cos(a)`.
    pub fn cos(&mut self, a: usize) -> (r: usize)
        requires
            old(self).wf(),
            a < old(self)@.len(),
        ensures
            final(self).wf(),
            r == old(self)@.len(),
            final(self)@ == old(self)@.push(NodeView { op: Operation::Cos, children: seq![a] }),
    {
        self.unary_node(Operation::Cos, a)
    }

    /// A new node `e ^ a`.
    pub fn exp(&mut self, a: usize) -> (r: usize)
        requires
            old(self).wf(),
            a < old(self)@.len(),
        ensures
            final(self).wf(),
            r == old(self)@.len(),
            final(self)@ == old(self)@.push(NodeView { op: Operation::Exp, children: seq![a] }),
    {
        self.unary_node(Operation::Exp, a)
    }

    /// A new node `max(a, 0)`.
    pub fn relu(&mut self, a: usize) -> (r: usize)
        requires
            old(self).wf(),
            a < old(self)@.len(),
        ensures
            final(self).wf(),
            r == old(self)@.len(),
            final(self)@ == old(self)@.push(NodeView { op: Operation::Relu, children: seq![a] }),
    {
        self.unary_node(Operation::Relu, a)
    }

    /// A new node holding the sum of `items`, which become its operands in order.
    pub fn sum(&mut self, items: &Vec<usize>) -> (r: usize)
        requires
            old(self).wf(),
            forall|k: int| 0 <= k < items@.len() ==> #[trigger] items@[k] < old(self)@.len(),
        ensures
            final(self).wf(),
            r == old(self)@.len(),
            final(self)@ == old(self)@.push(NodeView { op: Operation::Sum, children: items@ }),
    {
        self.push_node(Operation::Sum, items.clone())
    }
}

} // verus!
