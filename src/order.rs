use crate::graph::{Graph, NodeView, arity_ok, well_formed};
use vstd::prelude::*;

verus! {

/// `c` is an operand of node `p`.
pub open spec fn is_edge(g: Seq<NodeView>, p: usize, c: usize) -> bool {
    p < g.len() && g[p as int].children.contains(c)
}

/// `path` is a non-empty walk that goes from each node to one of its operands.
pub open spec fn is_path(g: Seq<NodeView>, path: Seq<usize>) -> bool {
    &&& path.len() >= 1
    &&& forall|i: int| 0 <= i < path.len() - 1 ==> is_edge(g, #[trigger] path[i], path[i + 1])
}

/// Node `x` contributed, directly or through other nodes, to node `root`.
pub open spec fn reachable(g: Seq<NodeView>, root: usize, x: usize) -> bool {
    exists|path: Seq<usize>| is_path(g, path) && path[0] == root && path.last() == x
}

/// Each operand of a node in `order` stands before it in `order`.
pub open spec fn operands_first(g: Seq<NodeView>, order: Seq<usize>) -> bool {
    forall|i: int, k: int|
        0 <= i < order.len() && 0 <= k < g[order[i] as int].children.len() ==> order.take(i).contains(
            #[trigger] g[order[i] as int].children[k],
        )
}

/// `order` lists once each node reachable from `root`, each after its operands.
pub open spec fn is_topological_order(g: Seq<NodeView>, root: usize, order: Seq<usize>) -> bool {
    &&& order.no_duplicates()
    &&& order.len() >= 1
    &&& order.last() == root
    &&& forall|i: int|
        0 <= i < order.len() ==> #[trigger] order[i] < g.len() && reachable(g, root, order[i])
    &&& operands_first(g, order)
}

/// What `root` reaches, it reaches the operands of too.
pub proof fn lemma_reachable_step(g: Seq<NodeView>, root: usize, p: usize, c: usize)
    requires
        reachable(g, root, p),
        is_edge(g, p, c),
    ensures
        reachable(g, root, c),
{
    let path = choose|path: Seq<usize>| is_path(g, path) && path[0] == root && path.last() == p;
    let longer = path.push(c);
    assert forall|i: int| 0 <= i < longer.len() - 1 implies is_edge(g, #[trigger] longer[i], longer[i + 1]) by {
        if i < path.len() - 1 {
            assert(longer[i] == path[i] && longer[i + 1] == path[i + 1]);
        }
    }
    assert(is_path(g, longer) && longer[0] == root && longer.last() == c);
}

/// A topological order from `root` leaves out no node that `root` reaches.
pub proof fn lemma_order_complete(g: Seq<NodeView>, root: usize, order: Seq<usize>, x: usize)
    requires
        is_topological_order(g, root, order),
        reachable(g, root, x),
    ensures
        order.contains(x),
{
    let path = choose|path: Seq<usize>| is_path(g, path) && path[0] == root && path.last() == x;
    assert(order[order.len() - 1] == root);
    lemma_path_in_order(g, root, order, path, 0);
}

proof fn lemma_path_in_order(g: Seq<NodeView>, root: usize, order: Seq<usize>, path: Seq<usize>, i: int)
    requires
        is_topological_order(g, root, order),
        is_path(g, path),
        0 <= i < path.len(),
        order.contains(path[i]),
    ensures
        order.contains(path.last()),
    decreases path.len() - i,
{
    if i < path.len() - 1 {
        let p = path[i];
        let c = path[i + 1];
        assert(is_edge(g, p, c));
        let m = choose|m: int| 0 <= m < order.len() && order[m] == p;
        let k = choose|k: int| 0 <= k < g[p as int].children.len() && g[p as int].children[k] == c;
        assert(order.take(m).contains(g[order[m] as int].children[k]));
        let w = choose|w: int| 0 <= w < m && order.take(m)[w] == c;
        assert(order[w] == c);
        lemma_path_in_order(g, root, order, path, i + 1);
    }
}

/// A node reaches only itself and nodes made before it.
pub proof fn lemma_reachable_below(g: Seq<NodeView>, root: usize, x: usize)
    requires
        well_formed(g),
        root < g.len(),
        reachable(g, root, x),
    ensures
        x <= root,
{
    let path = choose|path: Seq<usize>| is_path(g, path) && path[0] == root && path.last() == x;
    lemma_path_descends(g, path, 0);
}

proof fn lemma_path_descends(g: Seq<NodeView>, path: Seq<usize>, i: int)
    requires
        well_formed(g),
        is_path(g, path),
        0 <= i < path.len(),
    ensures
        path.last() <= path[i],
    decreases path.len() - i,
{
    if i < path.len() - 1 {
        let p = path[i];
        let c = path[i + 1];
        assert(is_edge(g, p, c));
        let k = choose|k: int| 0 <= k < g[p as int].children.len() && g[p as int].children[k] == c;
        assert(arity_ok(g[p as int].op, g[p as int].children.len()));
        assert(g[p as int].children[k] < p);
        lemma_path_descends(g, path, i + 1);
    }
}

spec fn count_unvisited(v: Seq<bool>) -> nat
    decreases v.len(),
{
    if v.len() == 0 {
        0
    } else {
        count_unvisited(v.drop_last()) + if v.last() { 0nat } else { 1nat }
    }
}

proof fn lemma_visit(v: Seq<bool>, i: int)
    requires
        0 <= i < v.len(),
        !v[i],
    ensures
        count_unvisited(v.update(i, true)) < count_unvisited(v),
    decreases v.len(),
{
    if i == v.len() - 1 {
        assert(v.update(i, true).drop_last() =~= v.drop_last());
    } else {
        lemma_visit(v.drop_last(), i);
        assert(v.update(i, true).drop_last() =~= v.drop_last().update(i, true));
    }
}

/// The operand slots that the frames of the stack have still to examine, plus one per frame.
spec fn pending(g: Seq<NodeView>, s: Seq<(usize, usize)>) -> nat
    decreases s.len(),
{
    if s.len() == 0 {
        0
    } else {
        pending(g, s.drop_last()) + (g[s.last().0 as int].children.len() - s.last().1) as nat + 1
    }
}

spec fn on_stack(s: Seq<(usize, usize)>, x: usize) -> bool {
    exists|i: int| 0 <= i < s.len() && (#[trigger] s[i]).0 == x
}

/// What holds between the steps of the depth-first walk: `v` marks the nodes met so
/// far, `o` the finished ones in post-order, `s` the frames still open, each a node
/// and the number of its operands examined.
#[verifier::opaque]
spec fn walk_state(
    g: Seq<NodeView>,
    root: usize,
    v: Seq<bool>,
    o: Seq<usize>,
    s: Seq<(usize, usize)>,
) -> bool {
    &&& well_formed(g)
    &&& root < g.len()
    &&& v.len() == g.len()
    &&& forall|i: int|
        0 <= i < s.len() ==> #[trigger] s[i].0 < g.len() && s[i].1 <= g[s[i].0 as int].children.len()
    &&& forall|i: int| 0 <= i < o.len() ==> #[trigger] o[i] < g.len()
    &&& forall|x: usize| x < g.len() ==> (#[trigger] v[x as int] <==> (o.contains(x) || on_stack(s, x)))
    &&& o.no_duplicates()
    &&& forall|i: int, j: int| 0 <= i < s.len() && 0 <= j < o.len() ==> #[trigger] s[i].0 != #[trigger] o[j]
    &&& forall|i: int, j: int| 0 <= i < j < s.len() ==> #[trigger] s[j].0 < #[trigger] s[i].0
    &&& s.len() > 0 ==> s[0].0 == root
    &&& s.len() == 0 ==> o.len() >= 1 && o.last() == root
    &&& forall|i: int| 0 <= i < s.len() ==> reachable(g, root, #[trigger] s[i].0)
    &&& forall|i: int| 0 <= i < o.len() ==> reachable(g, root, #[trigger] o[i])
    &&& operands_first(g, o)
    &&& forall|i: int, j: int|
        0 <= i < s.len() && 0 <= j < s[i].1 ==> o.contains(#[trigger] g[s[i].0 as int].children[j])
            || (i + 1 < s.len() && g[s[i].0 as int].children[j] == s[i + 1].0)
}

proof fn lemma_walk_bounds(
    g: Seq<NodeView>,
    root: usize,
    v: Seq<bool>,
    o: Seq<usize>,
    s: Seq<(usize, usize)>,
)
    requires
        walk_state(g, root, v, o, s),
    ensures
        v.len() == g.len(),
        forall|i: int|
            0 <= i < s.len() ==> #[trigger] s[i].0 < g.len() && s[i].1 <= g[s[i].0 as int].children.len(),
{
    reveal(walk_state);
}

proof fn lemma_walk_start(g: Seq<NodeView>, root: usize, v: Seq<bool>)
    requires
        well_formed(g),
        root < g.len(),
        v.len() == g.len(),
        forall|j: int| 0 <= j < v.len() ==> !v[j],
    ensures
        walk_state(g, root, v.update(root as int, true), seq![], seq![(root, 0usize)]),
{
    reveal(walk_state);
    let path = seq![root];
    assert(is_path(g, path) && path[0] == root && path.last() == root);
    let s = seq![(root, 0usize)];
    assert forall|x: usize| x < g.len() implies (#[trigger] v.update(root as int, true)[x as int] <==> (
    seq![].contains(x) || on_stack(s, x))) by {
        if x == root {
            assert(s[0].0 == x);
        }
    }
}

proof fn lemma_walk_end(g: Seq<NodeView>, root: usize, v: Seq<bool>, o: Seq<usize>)
    requires
        walk_state(g, root, v, o, seq![]),
    ensures
        is_topological_order(g, root, o),
{
    reveal(walk_state);
}

/// The top frame examines an operand that was met before.
proof fn lemma_walk_seen(
    g: Seq<NodeView>,
    root: usize,
    v: Seq<bool>,
    o: Seq<usize>,
    s: Seq<(usize, usize)>,
)
    requires
        walk_state(g, root, v, o, s),
        s.len() > 0,
        s.last().1 < g[s.last().0 as int].children.len(),
        s.last().1 < usize::MAX,
        v[g[s.last().0 as int].children[s.last().1 as int] as int],
    ensures
        walk_state(g, root, v, o, s.update(s.len() - 1, (s.last().0, (s.last().1 + 1) as usize))),
        pending(g, s.update(s.len() - 1, (s.last().0, (s.last().1 + 1) as usize))) < pending(g, s),
{
    reveal(walk_state);
    let top = s.len() - 1;
    let (node, k) = s.last();
    let c = g[node as int].children[k as int];
    let s1 = s.update(top, (node, (k + 1) as usize));
    assert(s1.drop_last() =~= s.drop_last());
    assert(s1.last() == (node, (k + 1) as usize));
    assert(pending(g, s1) == pending(g, s1.drop_last()) + (g[node as int].children.len() - (k + 1)) as nat + 1);
    assert(pending(g, s) == pending(g, s.drop_last()) + (g[node as int].children.len() - k) as nat + 1);
    assert(arity_ok(g[node as int].op, g[node as int].children.len()));
    assert(c < node);
    assert(o.contains(c)) by {
        if !o.contains(c) {
            let i = choose|i: int| 0 <= i < s.len() && (#[trigger] s[i]).0 == c;
            if i < top {
                assert(s[top].0 < s[i].0);
            }
        }
    }
    assert forall|x: usize| x < g.len() implies (#[trigger] v[x as int] <==> (o.contains(x)
        || on_stack(s1, x))) by {
        if on_stack(s, x) {
            let i = choose|i: int| 0 <= i < s.len() && (#[trigger] s[i]).0 == x;
            assert(s1[i].0 == x);
        }
        if on_stack(s1, x) {
            let i = choose|i: int| 0 <= i < s1.len() && (#[trigger] s1[i]).0 == x;
            assert(s[i].0 == x);
        }
    }
    assert forall|i: int, j: int| 0 <= i < s1.len() && 0 <= j < s1[i].1 implies o.contains(
        #[trigger] g[s1[i].0 as int].children[j],
    ) || (i + 1 < s1.len() && g[s1[i].0 as int].children[j] == s1[i + 1].0) by {
        if i < top {
            assert(s1[i] == s[i]);
            assert(s1[i + 1].0 == s[i + 1].0);
        }
    }
    assert forall|i: int, j: int| 0 <= i < j < s1.len() implies #[trigger] s1[j].0 < #[trigger] s1[i].0 by {
        assert(s[j].0 < s[i].0);
    }
    assert forall|i: int| 0 <= i < s1.len() implies reachable(g, root, #[trigger] s1[i].0) by {
        assert(s1[i].0 == s[i].0);
    }
    assert forall|i: int, j: int| 0 <= i < s1.len() && 0 <= j < o.len() implies #[trigger] s1[i].0
        != #[trigger] o[j] by {
        assert(s1[i].0 == s[i].0);
    }
}

/// The top frame examines an operand met for the first time, which opens a frame.
proof fn lemma_walk_new(
    g: Seq<NodeView>,
    root: usize,
    v: Seq<bool>,
    o: Seq<usize>,
    s: Seq<(usize, usize)>,
)
    requires
        walk_state(g, root, v, o, s),
        s.len() > 0,
        s.last().1 < g[s.last().0 as int].children.len(),
        s.last().1 < usize::MAX,
        !v[g[s.last().0 as int].children[s.last().1 as int] as int],
    ensures
        ({
            let c = g[s.last().0 as int].children[s.last().1 as int];
            let s1 = s.update(s.len() - 1, (s.last().0, (s.last().1 + 1) as usize)).push((c, 0usize));
            &&& walk_state(g, root, v.update(c as int, true), o, s1)
            &&& count_unvisited(v.update(c as int, true)) < count_unvisited(v)
        }),
{
    reveal(walk_state);
    let top = s.len() - 1;
    let (node, k) = s.last();
    let c = g[node as int].children[k as int];
    let s0 = s.update(top, (node, (k + 1) as usize));
    let s1 = s0.push((c, 0usize));
    let v1 = v.update(c as int, true);
    assert(arity_ok(g[node as int].op, g[node as int].children.len()));
    assert(c < node);
    lemma_visit(v, c as int);
    assert(is_edge(g, node, c)) by {
        assert(g[node as int].children[k as int] == c);
    }
    assert(reachable(g, root, s[top].0));
    lemma_reachable_step(g, root, node, c);
    assert(s1[top + 1] == (c, 0usize));
    assert(!o.contains(c));
    assert(!on_stack(s, c));
    assert forall|x: usize| x < g.len() implies (#[trigger] v1[x as int] <==> (o.contains(x)
        || on_stack(s1, x))) by {
        if on_stack(s, x) {
            let i = choose|i: int| 0 <= i < s.len() && (#[trigger] s[i]).0 == x;
            assert(s1[i].0 == x);
        }
        if x != c && on_stack(s1, x) {
            let i = choose|i: int| 0 <= i < s1.len() && (#[trigger] s1[i]).0 == x;
            assert(s[i].0 == x);
        }
        if x == c {
            assert(s1[top + 1].0 == x);
        }
    }
    assert forall|i: int, j: int| 0 <= i < s1.len() && 0 <= j < s1[i].1 implies o.contains(
        #[trigger] g[s1[i].0 as int].children[j],
    ) || (i + 1 < s1.len() && g[s1[i].0 as int].children[j] == s1[i + 1].0) by {
        if i < top {
            assert(s1[i] == s[i]);
            assert(s1[i + 1].0 == s[i + 1].0);
        } else if i == top {
            assert(s1[i].0 == node);
            if j < k {
                assert(s[i].1 == k);
            }
        }
    }
    assert forall|i: int, j: int| 0 <= i < j < s1.len() implies #[trigger] s1[j].0 < #[trigger] s1[i].0 by {
        if j <= top {
            assert(s[j].0 < s[i].0);
        } else if i < top {
            assert(s[top].0 < s[i].0);
        }
    }
    assert forall|i: int| 0 <= i < s1.len() implies reachable(g, root, #[trigger] s1[i].0) by {
        if i <= top {
            assert(s1[i].0 == s[i].0);
        }
    }
    assert forall|i: int, j: int| 0 <= i < s1.len() && 0 <= j < o.len() implies #[trigger] s1[i].0
        != #[trigger] o[j] by {
        if i <= top {
            assert(s1[i].0 == s[i].0);
        }
    }
    assert forall|i: int| 0 <= i < s1.len() implies #[trigger] s1[i].0 < g.len() && s1[i].1
        <= g[s1[i].0 as int].children.len() by {
        if i < top {
            assert(s1[i] == s[i]);
        }
    }
}

/// The top frame has examined all its operands: its node is finished.
proof fn lemma_walk_finish(
    g: Seq<NodeView>,
    root: usize,
    v: Seq<bool>,
    o: Seq<usize>,
    s: Seq<(usize, usize)>,
)
    requires
        walk_state(g, root, v, o, s),
        s.len() > 0,
        s.last().1 >= g[s.last().0 as int].children.len(),
    ensures
        walk_state(g, root, v, o.push(s.last().0), s.drop_last()),
        pending(g, s.drop_last()) < pending(g, s),
{
    reveal(walk_state);
    let top = s.len() - 1;
    let (node, k) = s.last();
    let s1 = s.drop_last();
    let o1 = o.push(node);
    assert(o1[o.len() as int] == node);
    assert(s[top].0 == node);
    assert(!o.contains(node));
    assert forall|x: usize| x < g.len() implies (#[trigger] v[x as int] <==> (o1.contains(x)
        || on_stack(s1, x))) by {
        if on_stack(s, x) {
            let i = choose|i: int| 0 <= i < s.len() && (#[trigger] s[i]).0 == x;
            if i < top {
                assert(s1[i].0 == x);
            }
        }
        if on_stack(s1, x) {
            let i = choose|i: int| 0 <= i < s1.len() && (#[trigger] s1[i]).0 == x;
            assert(s[i].0 == x);
        }
        if o.contains(x) {
            let j = choose|j: int| 0 <= j < o.len() && o[j] == x;
            assert(o1[j] == x);
        }
        if o1.contains(x) && x != node {
            let j = choose|j: int| 0 <= j < o1.len() && o1[j] == x;
            assert(o[j] == x);
        }
    }
    assert forall|i: int, j: int| 0 <= i < s1.len() && 0 <= j < s1[i].1 implies o1.contains(
        #[trigger] g[s1[i].0 as int].children[j],
    ) || (i + 1 < s1.len() && g[s1[i].0 as int].children[j] == s1[i + 1].0) by {
        assert(s1[i] == s[i]);
        let ch = g[s[i].0 as int].children[j];
        if o.contains(ch) {
            let w = choose|w: int| 0 <= w < o.len() && o[w] == ch;
            assert(o1[w] == ch);
        } else if i + 1 == top {
            assert(o1[o.len() as int] == ch);
        } else {
            assert(s1[i + 1] == s[i + 1]);
        }
    }
    assert forall|i: int, kk: int|
        0 <= i < o1.len() && 0 <= kk < g[o1[i] as int].children.len() implies o1.take(i).contains(
            #[trigger] g[o1[i] as int].children[kk],
        ) by {
        if i < o.len() {
            assert(o1[i] == o[i]);
            assert(o1.take(i) =~= o.take(i));
        } else {
            assert(o1.take(i) =~= o);
        }
    }
    assert forall|i: int| 0 <= i < o1.len() implies reachable(g, root, #[trigger] o1[i]) by {
        if i < o.len() {
            assert(o1[i] == o[i]);
        }
    }
    assert forall|i: int, j: int| 0 <= i < s1.len() && 0 <= j < o1.len() implies #[trigger] s1[i].0
        != #[trigger] o1[j] by {
        assert(s1[i] == s[i]);
        if j < o.len() {
            assert(o1[j] == o[j]);
        } else {
            assert(s[top].0 < s[i].0);
        }
    }
    assert forall|i: int, j: int| 0 <= i < j < s1.len() implies #[trigger] s1[j].0 < #[trigger] s1[i].0 by {
        assert(s[j].0 < s[i].0);
    }
    assert forall|i: int| 0 <= i < s1.len() implies reachable(g, root, #[trigger] s1[i].0) by {
        assert(s1[i] == s[i]);
    }
    assert forall|i: int| 0 <= i < o1.len() implies #[trigger] o1[i] < g.len() by {
        if i < o.len() {
            assert(o1[i] == o[i]);
        }
    }
    assert(o1.no_duplicates()) by {
        assert forall|i: int, j: int| 0 <= i < o1.len() && 0 <= j < o1.len() && i != j implies o1[i] != o1[j] by {
            if i < o.len() && j < o.len() {
                assert(o1[i] == o[i] && o1[j] == o[j]);
            } else if i < o.len() {
                assert(o1[i] == o[i]);
                assert(o.contains(o[i]));
            } else if j < o.len() {
                assert(o1[j] == o[j]);
                assert(o.contains(o[j]));
            }
        }
    }
    if s1.len() > 0 {
        assert(s1[0] == s[0]);
    } else {
        assert(o1.last() == root);
    }
    assert(pending(g, s) == pending(g, s1) + (g[node as int].children.len() - k) as nat + 1);
}

/// The nodes reachable from `root`, in depth-first post-order: every operand comes
/// before the nodes that use it, each node comes once however many nodes share it,
/// and `root` comes last. The walk keeps its own stack, so deep graphs do not
/// exhaust the call stack.
pub fn topological_order(g: &Graph, root: usize) -> (r: Vec<usize>)
    requires
        g.wf(),
        root < g@.len(),
    ensures
        is_topological_order(g@, root, r@),
{
    let n = g.len();
    let mut visited: Vec<bool> = Vec::new();
    let mut i: usize = 0;
    while i < n
        invariant
            i <= n,
            visited@.len() == i,
            forall|j: int| 0 <= j < i ==> !visited@[j],
        decreases n - i,
    {
        visited.push(false);
        i = i + 1;
    }
    let mut order: Vec<usize> = Vec::new();
    let mut stack: Vec<(usize, usize)> = Vec::new();
    proof {
        lemma_walk_start(g@, root, visited@);
    }
    visited.set(root, true);
    stack.push((root, 0));
    assert(stack@ =~= seq![(root, 0usize)]);
    assert(order@ =~= seq![]);
    while stack.len() > 0
        invariant
            g.wf(),
            walk_state(g@, root, visited@, order@, stack@),
        decreases count_unvisited(visited@), pending(g@, stack@),
    {
        proof {
            lemma_walk_bounds(g@, root, visited@, order@, stack@);
        }
        let top = stack.len() - 1;
        let (node, k) = stack[top];
        let children = g.children(node);
        if k < children.len() {
            let c = children[k];
            proof {
                assert(arity_ok(g@[node as int].op, g@[node as int].children.len()));
                assert(g@[node as int].children[k as int] < node);
            }
            if !visited[c] {
                proof {
                    lemma_walk_new(g@, root, visited@, order@, stack@);
                }
                stack.set(top, (node, k + 1));
                visited.set(c, true);
                stack.push((c, 0));
            } else {
                proof {
                    lemma_walk_seen(g@, root, visited@, order@, stack@);
                }
                stack.set(top, (node, k + 1));
            }
        } else {
            proof {
                lemma_walk_finish(g@, root, visited@, order@, stack@);
            }
            let ghost s0 = stack@;
            stack.pop();
            order.push(node);
            assert(stack@ =~= s0.drop_last());
        }
    }
    proof {
        assert(stack@ =~= seq![]);
        lemma_walk_end(g@, root, visited@, order@);
    }
    order
}

} // verus!
