use expr_graph::graph::{ExprGraph, GraphError, Operation, Scalar};

struct Num(f64);

impl Scalar for Num {
    fn plus(&self, rhs: &Self) -> Self {
        Num(self.0 + rhs.0)
    }

    fn times(&self, rhs: &Self) -> Self {
        Num(self.0 * rhs.0)
    }
}

fn leaf(g: &mut ExprGraph<Num>, v: f64, label: &str) -> usize {
    g.new_leaf(Num(v), label.to_string())
}

#[test]
fn leaf_has_no_operation_and_no_operands() {
    let mut g = ExprGraph::new();
    let a = leaf(&mut g, 1.5, "a");
    assert_eq!(g.operation(a), None);
    assert!(g.operands(a).is_empty());
    assert_eq!(g.label(a).as_str(), "a");
    assert_eq!(g.value(a).0, 1.5);
    assert!(!g.is_shared(a));
}

#[test]
fn add_computes_sum() {
    let mut g = ExprGraph::new();
    let x = leaf(&mut g, 2.0, "x");
    let y = leaf(&mut g, 3.0, "y");
    let s = g.combine(Operation::Add, x, y);
    assert_eq!(g.value(s).0, 5.0);
    assert_eq!(g.operation(s), Some(Operation::Add));
    assert_eq!(g.operands(s).clone(), vec![x, y]);
}

#[test]
fn multiply_computes_product() {
    let mut g = ExprGraph::new();
    let x = leaf(&mut g, 2.0, "x");
    let y = leaf(&mut g, 3.0, "y");
    let p = g.combine(Operation::Multiply, x, y);
    assert_eq!(g.value(p).0, 6.0);
    assert_eq!(g.operation(p), Some(Operation::Multiply));
}

#[test]
fn composite_labels_follow_operator_template() {
    let mut g = ExprGraph::new();
    let x = leaf(&mut g, 2.0, "x");
    let y = leaf(&mut g, 3.0, "y");
    let s = g.combine(Operation::Add, x, y);
    let p = g.combine(Operation::Multiply, x, y);
    assert_eq!(g.label(s).as_str(), "[x+y]");
    assert_eq!(g.label(p).as_str(), "[x*y]");
    let n = g.combine(Operation::Add, s, p);
    assert_eq!(g.label(n).as_str(), "[[x+y]+[x*y]]");
}

#[test]
fn ids_are_distinct_and_increasing() {
    let mut g = ExprGraph::new();
    let a = leaf(&mut g, 1.0, "a");
    let b = leaf(&mut g, 2.0, "b");
    let c = g.combine(Operation::Add, a, b);
    let d = g.combine(Operation::Multiply, c, a);
    let e = leaf(&mut g, 4.0, "e");
    let ids = vec![a, b, c, d, e];
    for i in 0..ids.len() {
        for j in (i + 1)..ids.len() {
            assert!(ids[i] < ids[j]);
        }
    }
    assert_eq!(g.len(), 5);
}

#[test]
fn operands_precede_their_composite() {
    let mut g = ExprGraph::new();
    let a = leaf(&mut g, 1.0, "a");
    let b = leaf(&mut g, 2.0, "b");
    let c = g.combine(Operation::Add, a, b);
    let d = g.combine(Operation::Multiply, c, c);
    for n in [c, d] {
        for &o in g.operands(n).iter() {
            assert!(o < n);
        }
    }
}

#[test]
fn diamond_is_deduplicated() {
    let mut g = ExprGraph::new();
    let a = leaf(&mut g, 1.0, "A");
    let b = leaf(&mut g, 2.0, "B");
    let c = g.combine(Operation::Add, a, b);
    let d = g.combine(Operation::Multiply, c, a);
    let (nodes, edges) = g.collect(&vec![d]);
    assert_eq!(nodes, vec![d, c, a, b]);
    assert_eq!(edges, vec![(c, d), (a, c), (b, c), (a, d)]);
}

#[test]
fn repeated_collect_is_identical() {
    let mut g = ExprGraph::new();
    let a = leaf(&mut g, 1.0, "A");
    let b = leaf(&mut g, 2.0, "B");
    let c = g.combine(Operation::Add, a, b);
    let d = g.combine(Operation::Multiply, c, a);
    let first = g.collect(&vec![d]);
    let second = g.collect(&vec![d]);
    assert_eq!(first, second);
    assert_eq!(g.relabel(d, "out".to_string()), Ok(()));
    let third = g.collect(&vec![d]);
    assert_eq!(first, third);
}

#[test]
fn shared_operand_across_roots_is_listed_once() {
    let mut g = ExprGraph::new();
    let s = leaf(&mut g, 1.0, "s");
    let x = leaf(&mut g, 2.0, "x");
    let y = leaf(&mut g, 3.0, "y");
    let r1 = g.combine(Operation::Add, s, x);
    let r2 = g.combine(Operation::Multiply, y, s);
    let (nodes, edges) = g.collect(&vec![r1, r2]);
    assert_eq!(nodes, vec![r1, s, x, r2, y]);
    assert_eq!(edges, vec![(s, r1), (x, r1), (y, r2), (s, r2)]);
    let (n1, e1) = g.collect(&vec![r1]);
    let (n2, e2) = g.collect(&vec![r2]);
    for n in n1.iter().chain(n2.iter()) {
        assert!(nodes.contains(n));
    }
    for e in e1.iter().chain(e2.iter()) {
        assert!(edges.contains(e));
    }
    assert_eq!(nodes.iter().filter(|&&n| n == s).count(), 1);
}

#[test]
fn same_operand_twice_gives_two_edges() {
    let mut g = ExprGraph::new();
    let x = leaf(&mut g, 3.0, "x");
    let d = g.combine(Operation::Add, x, x);
    assert_eq!(g.value(d).0, 6.0);
    let (nodes, edges) = g.collect(&vec![d]);
    assert_eq!(nodes, vec![d, x]);
    assert_eq!(edges, vec![(x, d), (x, d)]);
}

#[test]
fn collect_without_roots_is_empty() {
    let mut g = ExprGraph::new();
    leaf(&mut g, 1.0, "a");
    let (nodes, edges) = g.collect(&vec![]);
    assert!(nodes.is_empty());
    assert!(edges.is_empty());
}

#[test]
fn collect_of_a_leaf_lists_only_it() {
    let mut g = ExprGraph::new();
    let a = leaf(&mut g, 1.0, "a");
    let b = leaf(&mut g, 2.0, "b");
    let (nodes, edges) = g.collect(&vec![b, a, b]);
    assert_eq!(nodes, vec![b, a]);
    assert!(edges.is_empty());
}

#[test]
fn relabel_of_unshared_node() {
    let mut g = ExprGraph::new();
    let a = leaf(&mut g, 1.0, "a");
    let b = leaf(&mut g, 2.0, "b");
    let c = g.combine(Operation::Add, a, b);
    assert_eq!(g.relabel(c, "neuron".to_string()), Ok(()));
    assert_eq!(g.label(c).as_str(), "neuron");
}

#[test]
fn relabel_of_shared_node_is_refused() {
    let mut g = ExprGraph::new();
    let a = leaf(&mut g, 1.0, "a");
    let b = leaf(&mut g, 2.0, "b");
    g.combine(Operation::Add, a, b);
    assert!(g.is_shared(a));
    assert_eq!(g.relabel(a, "z".to_string()), Err(GraphError::Shared));
    assert_eq!(g.label(a).as_str(), "a");
}

#[test]
fn apply_rewrites_value_of_unshared_node() {
    let mut g = ExprGraph::new();
    let a = leaf(&mut g, 2.0, "a");
    let b = leaf(&mut g, -3.0, "b");
    let c = g.combine(Operation::Multiply, a, b);
    assert_eq!(g.apply(c, |v: &Num| Num(v.0.tanh())), Ok(()));
    assert!((g.value(c).0 - (-6.0f64).tanh()).abs() < 1e-12);
    assert_eq!(g.label(c).as_str(), "[a*b]");
    assert_eq!(g.operands(c).clone(), vec![a, b]);
}

#[test]
fn apply_to_shared_node_is_refused() {
    let mut g = ExprGraph::new();
    let a = leaf(&mut g, 2.0, "a");
    let b = leaf(&mut g, 3.0, "b");
    g.combine(Operation::Add, a, b);
    assert_eq!(g.apply(b, |v: &Num| Num(v.0 * 10.0)), Err(GraphError::Shared));
    assert_eq!(g.value(b).0, 3.0);
}
