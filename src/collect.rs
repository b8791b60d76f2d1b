use vstd::prelude::*;

use crate::graph::{lemma_reaches_operand, ordered, reaches, reaches_in, valid, ExprGraph, NodeView, Scalar};

verus! {

/// The state of a traversal: nodes in first-discovery order, and one
/// `(operand, parent)` edge per operand slot of each node discovered.
pub struct Walk {
    pub nodes: Seq<usize>,
    pub edges: Seq<(usize, usize)>,
}

/// Visits `n`: a node seen before is left alone; a new one is appended and
/// then each operand, in order, gets its edge and is visited in turn.
pub open spec fn visit(g: Seq<NodeView>, n: usize, st: Walk) -> Walk
    decreases n, 1int, 0int,
{
    if st.nodes.contains(n) {
        st
    } else {
        visit_operands(g, n, 0, Walk { nodes: st.nodes.push(n), edges: st.edges })
    }
}

/// Handles the operand slots of `n` from slot `k` on. In a well-formed graph
/// every operand precedes its parent; the test `c < n` only keeps the
/// definition well founded.
pub open spec fn visit_operands(g: Seq<NodeView>, n: usize, k: int, st: Walk) -> Walk
    decreases n, 0int, g[n as int].operands.len() - k,
{
    if k < 0 || k >= g[n as int].operands.len() {
        st
    } else {
        let c = g[n as int].operands[k];
        let st1 = Walk { nodes: st.nodes, edges: st.edges.push((c, n)) };
        let st2 = if c < n {
            visit(g, c, st1)
        } else {
            st1
        };
        visit_operands(g, n, k + 1, st2)
    }
}

/// The traversal of `roots`, in order, sharing one visited set.
pub open spec fn walk_roots(g: Seq<NodeView>, roots: Seq<usize>) -> Walk
    decreases roots.len(),
{
    if roots.len() == 0 {
        Walk { nodes: Seq::empty(), edges: Seq::empty() }
    } else {
        visit(g, roots.last(), walk_roots(g, roots.drop_last()))
    }
}

/// `st2` extends `st`: both lists keep what they held and may grow.
pub open spec fn grows(st: Walk, st2: Walk) -> bool {
    &&& st.nodes.len() <= st2.nodes.len()
    &&& st.edges.len() <= st2.edges.len()
    &&& forall|i: int| 0 <= i < st.nodes.len() ==> #[trigger] st2.nodes[i] == st.nodes[i]
    &&& forall|j: int| 0 <= j < st.edges.len() ==> #[trigger] st2.edges[j] == st.edges[j]
}

/// The nodes of a walk are valid handles, each listed once.
pub open spec fn sound(g: Seq<NodeView>, st: Walk) -> bool {
    &&& st.nodes.no_duplicates()
    &&& forall|i: int| 0 <= i < st.nodes.len() ==> valid(g, #[trigger] st.nodes[i] as int)
}

/// Every node listed from position `from` on has its operands listed and an
/// edge for each of its operand slots.
pub open spec fn complete_from(g: Seq<NodeView>, st: Walk, from: int) -> bool {
    forall|i: int, k: int|
        from <= i < st.nodes.len() && 0 <= k < g[st.nodes[i] as int].operands.len() ==> {
            &&& st.nodes.contains(#[trigger] g[st.nodes[i] as int].operands[k])
            &&& st.edges.contains((g[st.nodes[i] as int].operands[k], st.nodes[i]))
        }
}

/// Every edge listed from position `from` on goes from an operand of a node
/// listed from position `nfrom` on to that node.
pub open spec fn edges_from(g: Seq<NodeView>, st: Walk, from: int, nfrom: int) -> bool {
    forall|j: int|
        from <= j < st.edges.len() ==> {
            &&& exists|i: int| nfrom <= i < st.nodes.len() && st.nodes[i] == (#[trigger] st.edges[j]).1
            &&& g[st.edges[j].1 as int].operands.contains(st.edges[j].0)
        }
}

proof fn lemma_grows_trans(a: Walk, b: Walk, c: Walk)
    requires
        grows(a, b),
        grows(b, c),
    ensures
        grows(a, c),
{
}

proof fn lemma_grows_contains(a: Walk, b: Walk)
    requires
        grows(a, b),
    ensures
        forall|x: usize| a.nodes.contains(x) ==> b.nodes.contains(x),
        forall|e: (usize, usize)| a.edges.contains(e) ==> b.edges.contains(e),
{
    assert forall|x: usize| a.nodes.contains(x) implies b.nodes.contains(x) by {
        let i = choose|i: int| 0 <= i < a.nodes.len() && a.nodes[i] == x;
        assert(b.nodes[i] == x);
    }
    assert forall|e: (usize, usize)| a.edges.contains(e) implies b.edges.contains(e) by {
        let j = choose|j: int| 0 <= j < a.edges.len() && a.edges[j] == e;
        assert(b.edges[j] == e);
    }
}

/// What a visit of `n` adds: `n` is listed, every node it lists is new and
/// reachable from `n`, is complete, and every edge it lists belongs to such
/// a node.
proof fn lemma_visit(g: Seq<NodeView>, n: usize, st: Walk)
    requires
        ordered(g),
        valid(g, n as int),
        sound(g, st),
    ensures
        grows(st, visit(g, n, st)),
        sound(g, visit(g, n, st)),
        visit(g, n, st).nodes.contains(n),
        !st.nodes.contains(n) ==> visit(g, n, st).nodes[st.nodes.len() as int] == n,
        complete_from(g, visit(g, n, st), st.nodes.len() as int),
        edges_from(g, visit(g, n, st), st.edges.len() as int, st.nodes.len() as int),
        forall|i: int|
            st.nodes.len() <= i < visit(g, n, st).nodes.len() ==> reaches(g, n as int,
                #[trigger] visit(g, n, st).nodes[i] as int,
            ),
    decreases n, 1int, 0int,
{
    if !st.nodes.contains(n) {
        let st1 = Walk { nodes: st.nodes.push(n), edges: st.edges };
        assert(st1.nodes[st.nodes.len() as int] == n);
        assert(reaches(g, n as int, n as int)) by {
            assert(crate::graph::reaches_in(g, n as int, n as int, 0));
        }
        lemma_visit_operands(g, n, 0, st1);
        let st2 = visit_operands(g, n, 0, st1);
        assert(st2.nodes[st.nodes.len() as int] == n);
        assert(st2 == visit(g, n, st));
        assert forall|i: int, k: int|
            st.nodes.len() <= i < st2.nodes.len() && 0 <= k < g[st2.nodes[i] as int].operands.len() implies {
            &&& st2.nodes.contains(#[trigger] g[st2.nodes[i] as int].operands[k])
            &&& st2.edges.contains((g[st2.nodes[i] as int].operands[k], st2.nodes[i]))
        } by {
            if i == st.nodes.len() {
                assert(st2.nodes.contains(g[n as int].operands[k]));
            }
        }
        assert forall|i: int| st.nodes.len() <= i < st2.nodes.len() implies reaches(g, n as int,
            #[trigger] st2.nodes[i] as int,
        ) by {
            if i == st.nodes.len() {
                assert(st2.nodes[i] == n);
            }
        }
        assert forall|j: int|
            st.edges.len() <= j < st2.edges.len() implies {
            &&& exists|i: int| st.nodes.len() <= i < st2.nodes.len() && st2.nodes[i] == (#[trigger] st2.edges[j]).1
            &&& g[st2.edges[j].1 as int].operands.contains(st2.edges[j].0)
        } by {
            if st2.edges[j].1 == n {
                assert(st2.nodes[st.nodes.len() as int] == st2.edges[j].1);
            }
        }
    }
}

/// What handling the operand slots of `n` from `k` on adds: an edge and a
/// listing for each of those operands; the nodes it lists are reachable
/// from `n` and complete, and each edge it lists belongs to `n` or to one of
/// them.
proof fn lemma_visit_operands(g: Seq<NodeView>, n: usize, k: int, st: Walk)
    requires
        ordered(g),
        valid(g, n as int),
        0 <= k,
        sound(g, st),
        st.nodes.contains(n),
    ensures
        grows(st, visit_operands(g, n, k, st)),
        sound(g, visit_operands(g, n, k, st)),
        complete_from(g, visit_operands(g, n, k, st), st.nodes.len() as int),
        forall|j: int|
            k <= j < g[n as int].operands.len() ==> {
                &&& visit_operands(g, n, k, st).nodes.contains(#[trigger] g[n as int].operands[j])
                &&& visit_operands(g, n, k, st).edges.contains((g[n as int].operands[j], n))
            },
        forall|j: int|
            st.edges.len() <= j < visit_operands(g, n, k, st).edges.len() ==> {
                ||| (#[trigger] visit_operands(g, n, k, st).edges[j]).1 == n
                ||| exists|i: int|
                    st.nodes.len() <= i < visit_operands(g, n, k, st).nodes.len()
                        && visit_operands(g, n, k, st).nodes[i] == visit_operands(g, n, k, st).edges[j].1
            },
        forall|j: int|
            st.edges.len() <= j < visit_operands(g, n, k, st).edges.len() ==> g[(
            #[trigger] visit_operands(g, n, k, st).edges[j]).1 as int].operands.contains(
                visit_operands(g, n, k, st).edges[j].0,
            ),
        forall|i: int|
            st.nodes.len() <= i < visit_operands(g, n, k, st).nodes.len() ==> reaches(g, n as int,
                #[trigger] visit_operands(g, n, k, st).nodes[i] as int,
            ),
    decreases n, 0int, g[n as int].operands.len() - k,
{
    if k < g[n as int].operands.len() {
        let c = g[n as int].operands[k];
        assert(c < n);
        let st1 = Walk { nodes: st.nodes, edges: st.edges.push((c, n)) };
        lemma_visit(g, c, st1);
        let st2 = visit(g, c, st1);
        assert(grows(st, st1));
        lemma_grows_contains(st1, st2);
        lemma_visit_operands(g, n, k + 1, st2);
        let st3 = visit_operands(g, n, k + 1, st2);
        assert(st3 == visit_operands(g, n, k, st));
        assert(grows(st, st1));
        lemma_grows_trans(st, st1, st2);
        lemma_grows_trans(st, st2, st3);
        lemma_grows_contains(st2, st3);
        lemma_grows_contains(st1, st3);
        assert(st1.edges.contains((c, n))) by {
            assert(st1.edges[st.edges.len() as int] == (c, n));
        }
        assert(g[n as int].operands.contains(c)) by {
            assert(g[n as int].operands[k] == c);
        }
        // nodes listed by the visit of `c` are complete in `st3`
        assert forall|i: int, kk: int|
            st.nodes.len() <= i < st3.nodes.len() && 0 <= kk < g[st3.nodes[i] as int].operands.len() implies {
            &&& st3.nodes.contains(#[trigger] g[st3.nodes[i] as int].operands[kk])
            &&& st3.edges.contains((g[st3.nodes[i] as int].operands[kk], st3.nodes[i]))
        } by {
            if i < st2.nodes.len() {
                assert(st3.nodes[i] == st2.nodes[i]);
                assert(st2.nodes.contains(g[st2.nodes[i] as int].operands[kk]));
                assert(st2.edges.contains((g[st2.nodes[i] as int].operands[kk], st2.nodes[i])));
            }
        }
        // edges
        assert forall|j: int| st.edges.len() <= j < st3.edges.len() implies {
            &&& {
                ||| (#[trigger] st3.edges[j]).1 == n
                ||| exists|i: int| st.nodes.len() <= i < st3.nodes.len() && st3.nodes[i] == st3.edges[j].1
            }
            &&& g[st3.edges[j].1 as int].operands.contains(st3.edges[j].0)
        } by {
            if j < st2.edges.len() {
                assert(st3.edges[j] == st2.edges[j]);
                if j == st.edges.len() {
                    assert(st2.edges[j] == st1.edges[j]);
                    assert(st3.edges[j] == (c, n));
                } else {
                    assert(st1.edges.len() == st.edges.len() + 1);
                    let i = choose|i: int|
                        st1.nodes.len() <= i < st2.nodes.len() && st2.nodes[i] == (#[trigger] st2.edges[j]).1;
                    assert(st3.nodes[i] == st2.nodes[i]);
                }
            } else {
                if st3.edges[j].1 != n {
                    let i = choose|i: int|
                        st2.nodes.len() <= i < st3.nodes.len() && st3.nodes[i] == st3.edges[j].1;
                    assert(st.nodes.len() <= i);
                }
            }
        }
        // reachability
        assert forall|i: int| st.nodes.len() <= i < st3.nodes.len() implies reaches(g, n as int,
            #[trigger] st3.nodes[i] as int,
        ) by {
            if i < st2.nodes.len() {
                assert(st3.nodes[i] == st2.nodes[i]);
                lemma_reaches_operand(g, n as int, k, st2.nodes[i] as int);
            }
        }
        assert forall|j: int| k <= j < g[n as int].operands.len() implies {
            &&& st3.nodes.contains(#[trigger] g[n as int].operands[j])
            &&& st3.edges.contains((g[n as int].operands[j], n))
        } by {
            if j == k {
            }
        }
    }
}

/// `x` is reachable from one of `roots`.
pub open spec fn reached(g: Seq<NodeView>, roots: Seq<usize>, x: int) -> bool {
    exists|i: int| 0 <= i < roots.len() && reaches(g, #[trigger] roots[i] as int, x)
}

/// In a walk whose every node is complete, whatever a listed node reaches
/// is listed too.
proof fn lemma_complete_closed(g: Seq<NodeView>, w: Walk, a: usize, b: int, steps: nat)
    requires
        complete_from(g, w, 0),
        w.nodes.contains(a),
        reaches_in(g, a as int, b, steps),
    ensures
        0 <= b,
        w.nodes.contains(b as usize),
        b as usize as int == b,
    decreases steps,
{
    if steps > 0 {
        let k = choose|k: int|
            0 <= k < g[a as int].operands.len() && reaches_in(
                g,
                #[trigger] g[a as int].operands[k] as int,
                b,
                (steps - 1) as nat,
            );
        let i = choose|i: int| 0 <= i < w.nodes.len() && w.nodes[i] == a;
        assert(w.nodes.contains(g[w.nodes[i] as int].operands[k]));
        lemma_complete_closed(g, w, g[a as int].operands[k], b, (steps - 1) as nat);
    }
}

/// The traversal of `roots` lists each node reachable from them exactly
/// once and nothing else, and its edges are exactly the operand slots of the
/// nodes listed.
pub proof fn lemma_walk_roots(g: Seq<NodeView>, roots: Seq<usize>)
    requires
        ordered(g),
        forall|i: int| 0 <= i < roots.len() ==> valid(g, #[trigger] roots[i] as int),
    ensures
        walk_roots(g, roots).nodes.no_duplicates(),
        forall|i: int|
            0 <= i < walk_roots(g, roots).nodes.len() ==> valid(g, #[trigger] walk_roots(g, roots).nodes[i] as int),
        forall|x: usize| #[trigger] walk_roots(g, roots).nodes.contains(x) <==> reached(g, roots, x as int),
        forall|e: (usize, usize)|
            #[trigger] walk_roots(g, roots).edges.contains(e) <==> (walk_roots(g, roots).nodes.contains(e.1)
                && g[e.1 as int].operands.contains(e.0)),
        roots.len() > 0 ==> walk_roots(g, roots).nodes.len() > 0 && walk_roots(g, roots).nodes[0] == roots[0],
{
    lemma_walk_roots_complete(g, roots);
}

proof fn lemma_walk_roots_complete(g: Seq<NodeView>, roots: Seq<usize>)
    requires
        ordered(g),
        forall|i: int| 0 <= i < roots.len() ==> valid(g, #[trigger] roots[i] as int),
    ensures
        sound(g, walk_roots(g, roots)),
        complete_from(g, walk_roots(g, roots), 0),
        forall|x: usize| #[trigger] walk_roots(g, roots).nodes.contains(x) <==> reached(g, roots, x as int),
        forall|e: (usize, usize)|
            #[trigger] walk_roots(g, roots).edges.contains(e) <==> (walk_roots(g, roots).nodes.contains(e.1)
                && g[e.1 as int].operands.contains(e.0)),
        roots.len() > 0 ==> walk_roots(g, roots).nodes.len() > 0 && walk_roots(g, roots).nodes[0] == roots[0],
    decreases roots.len(),
{
    let w = walk_roots(g, roots);
    if roots.len() == 0 {
        assert forall|x: usize| !reached(g, roots, x as int) by {}
    } else {
        let front = roots.drop_last();
        let last = roots.last();
        assert(valid(g, roots[roots.len() - 1] as int));
        assert forall|i: int| 0 <= i < front.len() implies valid(g, #[trigger] front[i] as int) by {
            assert(front[i] == roots[i]);
        }
        lemma_walk_roots_complete(g, front);
        let w0 = walk_roots(g, front);
        lemma_visit(g, last, w0);
        assert(w == visit(g, last, w0));
        lemma_grows_contains(w0, w);
        if front.len() == 0 {
            assert(w.nodes[0] == last);
        } else {
            assert(w.nodes[0] == w0.nodes[0]);
            assert(front[0] == roots[0]);
        }
        assert forall|i: int, k: int|
            0 <= i < w.nodes.len() && 0 <= k < g[w.nodes[i] as int].operands.len() implies {
            &&& w.nodes.contains(#[trigger] g[w.nodes[i] as int].operands[k])
            &&& w.edges.contains((g[w.nodes[i] as int].operands[k], w.nodes[i]))
        } by {
            if i < w0.nodes.len() {
                assert(w.nodes[i] == w0.nodes[i]);
                assert(w0.nodes.contains(g[w0.nodes[i] as int].operands[k]));
                assert(w0.edges.contains((g[w0.nodes[i] as int].operands[k], w0.nodes[i])));
            }
        }
        assert forall|x: usize| #[trigger] w.nodes.contains(x) <==> reached(g, roots, x as int) by {
            if w.nodes.contains(x) {
                let i = choose|i: int| 0 <= i < w.nodes.len() && w.nodes[i] == x;
                if i < w0.nodes.len() {
                    assert(w0.nodes[i] == x);
                    assert(w0.nodes.contains(x));
                    let r = choose|r: int| 0 <= r < front.len() && reaches(g, #[trigger] front[r] as int, x as int);
                    assert(roots[r] == front[r]);
                } else {
                    assert(reaches(g, last as int, w.nodes[i] as int));
                    assert(roots[roots.len() - 1] == last);
                }
            }
            if reached(g, roots, x as int) {
                let r = choose|r: int| 0 <= r < roots.len() && reaches(g, #[trigger] roots[r] as int, x as int);
                if r < front.len() {
                    assert(front[r] == roots[r]);
                    assert(reached(g, front, x as int));
                } else {
                    let s = choose|s: nat| reaches_in(g, last as int, x as int, s);
                    lemma_complete_closed(g, w, last, x as int, s);
                }
            }
        }
        assert forall|e: (usize, usize)|
            #[trigger] w.edges.contains(e) <==> (w.nodes.contains(e.1) && g[e.1 as int].operands.contains(e.0)) by {
            if w.edges.contains(e) {
                let j = choose|j: int| 0 <= j < w.edges.len() && w.edges[j] == e;
                if j < w0.edges.len() {
                    assert(w0.edges[j] == e);
                    assert(w0.edges.contains(e));
                } else {
                    let i = choose|i: int| w0.nodes.len() <= i < w.nodes.len() && w.nodes[i] == (#[trigger] w.edges[j]).1;
                    assert(w.nodes.contains(w.nodes[i]));
                }
            }
            if w.nodes.contains(e.1) && g[e.1 as int].operands.contains(e.0) {
                let i = choose|i: int| 0 <= i < w.nodes.len() && w.nodes[i] == e.1;
                let k = choose|k: int| 0 <= k < g[e.1 as int].operands.len() && g[e.1 as int].operands[k] == e.0;
                assert(w.edges.contains((g[w.nodes[i] as int].operands[k], w.nodes[i])));
            }
        }
    }
}

/// Collecting from the roots `a` followed by the roots `b` lists each
/// shared node once, and gives the union of the nodes and of the edges of
/// the two separate traversals.
pub proof fn lemma_collect_union(g: Seq<NodeView>, a: Seq<usize>, b: Seq<usize>)
    requires
        ordered(g),
        forall|i: int| 0 <= i < a.len() ==> valid(g, #[trigger] a[i] as int),
        forall|i: int| 0 <= i < b.len() ==> valid(g, #[trigger] b[i] as int),
    ensures
        walk_roots(g, a + b).nodes.no_duplicates(),
        walk_roots(g, a + b).nodes.to_set() == walk_roots(g, a).nodes.to_set().union(
            walk_roots(g, b).nodes.to_set(),
        ),
        walk_roots(g, a + b).edges.to_set() == walk_roots(g, a).edges.to_set().union(
            walk_roots(g, b).edges.to_set(),
        ),
{
    let ab = a + b;
    assert forall|i: int| 0 <= i < ab.len() implies valid(g, #[trigger] ab[i] as int) by {
        if i < a.len() {
            assert(ab[i] == a[i]);
        } else {
            assert(ab[i] == b[i - a.len()]);
        }
    }
    lemma_walk_roots(g, ab);
    lemma_walk_roots(g, a);
    lemma_walk_roots(g, b);
    assert forall|x: usize| reached(g, ab, x as int) <==> (reached(g, a, x as int) || reached(g, b, x as int)) by {
        if reached(g, ab, x as int) {
            let i = choose|i: int| 0 <= i < ab.len() && reaches(g, #[trigger] ab[i] as int, x as int);
            if i < a.len() {
                assert(ab[i] == a[i]);
            } else {
                assert(ab[i] == b[i - a.len()]);
            }
        }
        if reached(g, a, x as int) {
            let i = choose|i: int| 0 <= i < a.len() && reaches(g, #[trigger] a[i] as int, x as int);
            assert(ab[i] == a[i]);
        }
        if reached(g, b, x as int) {
            let i = choose|i: int| 0 <= i < b.len() && reaches(g, #[trigger] b[i] as int, x as int);
            assert(ab[i + a.len()] == b[i]);
        }
    }
    assert(walk_roots(g, ab).nodes.to_set() =~= walk_roots(g, a).nodes.to_set().union(
        walk_roots(g, b).nodes.to_set(),
    ));
    assert(walk_roots(g, ab).edges.to_set() =~= walk_roots(g, a).edges.to_set().union(
        walk_roots(g, b).edges.to_set(),
    ));
}

/// Graphs with the same operand structure.
pub open spec fn same_structure(g1: Seq<NodeView>, g2: Seq<NodeView>) -> bool {
    &&& g1.len() == g2.len()
    &&& forall|i: int| 0 <= i < g1.len() ==> (#[trigger] g1[i]).operands == g2[i].operands
}

/// A traversal depends on the roots and the operand structure alone: it
/// gives the same nodes in the same order and the same edges in the same
/// order each time, whatever labels or values changed in between.
pub proof fn lemma_collect_deterministic(g1: Seq<NodeView>, g2: Seq<NodeView>, roots: Seq<usize>)
    requires
        same_structure(g1, g2),
        forall|i: int| 0 <= i < roots.len() ==> valid(g1, #[trigger] roots[i] as int),
    ensures
        walk_roots(g1, roots) == walk_roots(g2, roots),
    decreases roots.len(),
{
    if roots.len() > 0 {
        let front = roots.drop_last();
        assert forall|i: int| 0 <= i < front.len() implies valid(g1, #[trigger] front[i] as int) by {
            assert(front[i] == roots[i]);
        }
        assert(valid(g1, roots[roots.len() - 1] as int));
        lemma_collect_deterministic(g1, g2, front);
        lemma_visit_same(g1, g2, roots.last(), walk_roots(g1, front));
    }
}

proof fn lemma_visit_same(g1: Seq<NodeView>, g2: Seq<NodeView>, n: usize, st: Walk)
    requires
        same_structure(g1, g2),
        valid(g1, n as int),
    ensures
        visit(g1, n, st) == visit(g2, n, st),
    decreases n, 1int, 0int,
{
    if !st.nodes.contains(n) {
        lemma_visit_operands_same(g1, g2, n, 0, Walk { nodes: st.nodes.push(n), edges: st.edges });
    }
}

proof fn lemma_visit_operands_same(g1: Seq<NodeView>, g2: Seq<NodeView>, n: usize, k: int, st: Walk)
    requires
        same_structure(g1, g2),
        valid(g1, n as int),
    ensures
        visit_operands(g1, n, k, st) == visit_operands(g2, n, k, st),
    decreases n, 0int, g1[n as int].operands.len() - k,
{
    assert(g1[n as int].operands == g2[n as int].operands);
    if 0 <= k < g1[n as int].operands.len() {
        let c = g1[n as int].operands[k];
        let st1 = Walk { nodes: st.nodes, edges: st.edges.push((c, n)) };
        if c < n {
            lemma_visit_same(g1, g2, c, st1);
            lemma_visit_operands_same(g1, g2, n, k + 1, visit(g1, c, st1));
        } else {
            lemma_visit_operands_same(g1, g2, n, k + 1, st1);
        }
    }
}

/// Whether `v` holds `x`.
fn holds(v: &Vec<usize>, x: usize) -> (r: bool)
    ensures
        r == v@.contains(x),
{
    let mut i: usize = 0;
    while i < v.len()
        invariant
            0 <= i <= v.len(),
            forall|j: int| 0 <= j < i ==> v@[j] != x,
        decreases v.len() - i,
    {
        if v[i] == x {
            return true;
        }
        i += 1;
    }
    false
}

impl<V: Scalar> ExprGraph<V> {
    fn visit_node(&self, n: usize, nodes: &mut Vec<usize>, edges: &mut Vec<(usize, usize)>)
        requires
            self.wf(),
            valid(self@, n as int),
        ensures
            (Walk { nodes: final(nodes)@, edges: final(edges)@ }) == visit(
                self@,
                n,
                Walk { nodes: old(nodes)@, edges: old(edges)@ },
            ),
        decreases n,
    {
        proof {
            self.lemma_ordered();
        }
        if holds(nodes, n) {
            return;
        }
        nodes.push(n);
        let ghost target = visit_operands(self@, n, 0, Walk { nodes: nodes@, edges: edges@ });
        let ops = self.operands(n);
        let mut k: usize = 0;
        while k < ops.len()
            invariant
                self.wf(),
                ordered(self@),
                valid(self@, n as int),
                ops@ == self@[n as int].operands,
                0 <= k <= ops.len(),
                visit_operands(self@, n, k as int, Walk { nodes: nodes@, edges: edges@ }) == target,
            decreases ops.len() - k,
        {
            let c = ops[k];
            assert(0 <= self@[n as int].operands[k as int] < n);
            edges.push((c, n));
            self.visit_node(c, nodes, edges);
            k += 1;
        }
    }

    /// Traverses the graph from each root in turn and returns its nodes in
    /// first-discovery order, each once, and one `(operand, parent)` edge per
    /// operand slot of each node returned.
    pub fn collect(&self, roots: &Vec<usize>) -> (r: (Vec<usize>, Vec<(usize, usize)>))
        requires
            self.wf(),
            forall|i: int| 0 <= i < roots@.len() ==> valid(self@, #[trigger] roots@[i] as int),
        ensures
            (Walk { nodes: r.0@, edges: r.1@ }) == walk_roots(self@, roots@),
            r.0@.no_duplicates(),
            forall|x: usize| #[trigger] r.0@.contains(x) <==> reached(self@, roots@, x as int),
            forall|e: (usize, usize)|
                #[trigger] r.1@.contains(e) <==> (r.0@.contains(e.1) && self@[e.1 as int].operands.contains(e.0)),
            roots@.len() > 0 ==> r.0@.len() > 0 && r.0@[0] == roots@[0],
    {
        let mut nodes: Vec<usize> = Vec::new();
        let mut edges: Vec<(usize, usize)> = Vec::new();
        let mut i: usize = 0;
        while i < roots.len()
            invariant
                self.wf(),
                forall|j: int| 0 <= j < roots@.len() ==> valid(self@, #[trigger] roots@[j] as int),
                0 <= i <= roots.len(),
                (Walk { nodes: nodes@, edges: edges@ }) == walk_roots(self@, roots@.take(i as int)),
            decreases roots.len() - i,
        {
            assert(roots@.take(i as int + 1).drop_last() =~= roots@.take(i as int));
            self.visit_node(roots[i], &mut nodes, &mut edges);
            i += 1;
        }
        assert(roots@.take(roots.len() as int) =~= roots@);
        proof {
            self.lemma_ordered();
            lemma_walk_roots(self@, roots@);
            assert(nodes@ == walk_roots(self@, roots@).nodes);
            assert(edges@ == walk_roots(self@, roots@).edges);
        }
        (nodes, edges)
    }
}

} // verus!
