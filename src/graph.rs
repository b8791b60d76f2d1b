use vstd::prelude::*;

verus! {

/// The binary operators that build a composite node.
#[derive(Clone, Copy, Debug, PartialEq, Eq, Structural)]
pub enum Operation {
    Add,
    Multiply,
}

/// The scalar payload of a node. The graph only asks it for the two
/// binary operators; what they compute is the payload's own business.
pub trait Scalar: Sized {
    fn plus(&self, rhs: &Self) -> Self;

    fn times(&self, rhs: &Self) -> Self;
}

/// Why an authoring-time edit of a node was refused.
#[derive(Clone, Copy, Debug, PartialEq, Eq, Structural)]
pub enum GraphError {
    /// The node is already an operand of some composite.
    Shared,
}

/// What the contracts see of one node (its value is opaque).
pub struct NodeView {
    pub label: Seq<char>,
    pub operation: Option<Operation>,
    pub operands: Seq<usize>,
    pub shared: bool,
}

/// The character that stands for an operator in a composite label.
pub open spec fn op_symbol(op: Operation) -> char {
    match op {
        Operation::Add => '+',
        Operation::Multiply => '*',
    }
}

/// The label of a composite: `[L op R]`.
pub open spec fn composite_label(op: Operation, l: Seq<char>, r: Seq<char>) -> Seq<char> {
    seq!['['] + l + seq![op_symbol(op)] + r + seq![']']
}

/// Every operand of a node was allocated before the node itself.
pub open spec fn ordered(g: Seq<NodeView>) -> bool {
    forall|i: int, k: int|
        0 <= i < g.len() && 0 <= k < g[i].operands.len() ==> 0 <= #[trigger] g[i].operands[k] < i
}

/// A valid handle into the graph.
pub open spec fn valid(g: Seq<NodeView>, id: int) -> bool {
    0 <= id < g.len()
}

/// `a` reaches `b` in exactly `steps` operand steps.
pub open spec fn reaches_in(g: Seq<NodeView>, a: int, b: int, steps: nat) -> bool
    decreases steps,
{
    if steps == 0 {
        a == b
    } else {
        &&& valid(g, a)
        &&& exists|k: int|
            0 <= k < g[a].operands.len() && reaches_in(
                g,
                #[trigger] g[a].operands[k] as int,
                b,
                (steps - 1) as nat,
            )
    }
}

/// `a` reaches `b` through zero or more operand steps.
pub open spec fn reaches(g: Seq<NodeView>, a: int, b: int) -> bool {
    exists|steps: nat| reaches_in(g, a, b, steps)
}

/// A path of one step or more never climbs: it ends at an earlier node.
pub proof fn lemma_path_descends(g: Seq<NodeView>, a: int, b: int, steps: nat)
    requires
        ordered(g),
        reaches_in(g, a, b, steps),
    ensures
        b <= a,
        steps > 0 ==> b < a,
    decreases steps,
{
    if steps > 0 {
        let k = choose|k: int|
            0 <= k < g[a].operands.len() && reaches_in(
                g,
                #[trigger] g[a].operands[k] as int,
                b,
                (steps - 1) as nat,
            );
        lemma_path_descends(g, g[a].operands[k] as int, b, (steps - 1) as nat);
    }
}

/// A graph built by `new_leaf` and `combine` has no cycle: no node reaches
/// itself through one or more operand steps.
pub proof fn lemma_acyclic(g: Seq<NodeView>, a: int, steps: nat)
    requires
        ordered(g),
        steps > 0,
    ensures
        !reaches_in(g, a, a, steps),
{
    if reaches_in(g, a, a, steps) {
        lemma_path_descends(g, a, a, steps);
    }
}

/// A node reaches each of its operands.
pub proof fn lemma_reaches_operand(g: Seq<NodeView>, a: int, k: int, b: int)
    requires
        valid(g, a),
        0 <= k < g[a].operands.len(),
        reaches(g, g[a].operands[k] as int, b),
    ensures
        reaches(g, a, b),
{
    let s = choose|s: nat| reaches_in(g, g[a].operands[k] as int, b, s);
    assert(reaches_in(g, a, b, s + 1));
}

/// The node `id` with its `shared` flag raised.
pub open spec fn mark_shared(g: Seq<NodeView>, id: int) -> Seq<NodeView> {
    g.update(id, NodeView { shared: true, ..g[id] })
}

/// `g2` is `g1` with one node appended, whose id is `id`; earlier nodes keep
/// their structure (their `shared` flag may rise).
pub open spec fn grown_by_one(g1: Seq<NodeView>, g2: Seq<NodeView>, id: int) -> bool {
    &&& id == g1.len()
    &&& g2.len() == g1.len() + 1
    &&& forall|i: int|
        0 <= i < g1.len() ==> {
            &&& (#[trigger] g2[i]).label == g1[i].label
            &&& g2[i].operation == g1[i].operation
            &&& g2[i].operands == g1[i].operands
        }
}

/// A run of constructions: the `i`-th one took the graph from `before[i]` to
/// `after[i]` and returned `ids[i]`; in between, the graph never shrank.
pub open spec fn construction_run(
    before: Seq<Seq<NodeView>>,
    after: Seq<Seq<NodeView>>,
    ids: Seq<usize>,
) -> bool {
    &&& before.len() == ids.len()
    &&& after.len() == ids.len()
    &&& forall|i: int| 0 <= i < ids.len() ==> grown_by_one(before[i], after[i], #[trigger] ids[i] as int)
    &&& forall|i: int| 0 <= i < ids.len() - 1 ==> (#[trigger] after[i]).len() <= before[i + 1].len()
}

proof fn lemma_ids_increase(before: Seq<Seq<NodeView>>, after: Seq<Seq<NodeView>>, ids: Seq<usize>, i: int, j: int)
    requires
        construction_run(before, after, ids),
        0 <= i < j < ids.len(),
    ensures
        ids[i] < ids[j],
    decreases j - i,
{
    assert(grown_by_one(before[j - 1], after[j - 1], ids[j - 1] as int));
    assert(grown_by_one(before[j], after[j], ids[j] as int));
    assert(after[j - 1].len() <= before[j].len());
    if i < j - 1 {
        lemma_ids_increase(before, after, ids, i, j - 1);
    }
}

/// Whatever the sequence of constructions, the ids they hand out increase
/// strictly, so no two are equal.
pub proof fn lemma_ids_distinct(before: Seq<Seq<NodeView>>, after: Seq<Seq<NodeView>>, ids: Seq<usize>)
    requires
        construction_run(before, after, ids),
    ensures
        ids.no_duplicates(),
        forall|i: int, j: int| 0 <= i < j < ids.len() ==> ids[i] < ids[j],
{
    assert forall|i: int, j: int| 0 <= i < j < ids.len() implies ids[i] < ids[j] by {
        lemma_ids_increase(before, after, ids, i, j);
    }
}

/// An arena of expression nodes. A node's id is its index in the arena; ids
/// are handed out in increasing order and never reused, and a composite only
/// refers to nodes allocated before it, so the graph is acyclic.
pub struct ExprGraph<V> {
    labels: Vec<String>,
    values: Vec<V>,
    operations: Vec<Option<Operation>>,
    operands: Vec<Vec<usize>>,
    shared: Vec<bool>,
}

impl<V> View for ExprGraph<V> {
    type V = Seq<NodeView>;

    closed spec fn view(&self) -> Seq<NodeView> {
        Seq::new(
            self.labels.len() as nat,
            |i: int|
                NodeView {
                    label: self.labels@[i]@,
                    operation: self.operations@[i],
                    operands: self.operands@[i]@,
                    shared: self.shared@[i],
                },
        )
    }
}

impl<V: Scalar> ExprGraph<V> {
    /// The arrays agree in length and the nodes are in allocation order.
    pub closed spec fn wf(&self) -> bool {
        &&& self.values.len() == self.labels.len()
        &&& self.operations.len() == self.labels.len()
        &&& self.operands.len() == self.labels.len()
        &&& self.shared.len() == self.labels.len()
        &&& ordered(self@)
    }

    /// The value held by node `id`.
    pub closed spec fn value_of(&self, id: int) -> V {
        self.values@[id]
    }

    /// A well-formed graph is in allocation order.
    pub proof fn lemma_ordered(&self)
        requires
            self.wf(),
        ensures
            ordered(self@),
    {
    }

    /// An empty graph.
    pub fn new() -> (r: Self)
        ensures
            r.wf(),
            r@ == Seq::<NodeView>::empty(),
    {
        let r = ExprGraph {
            labels: Vec::new(),
            values: Vec::new(),
            operations: Vec::new(),
            operands: Vec::new(),
            shared: Vec::new(),
        };
        assert(r@ =~= Seq::<NodeView>::empty());
        r
    }

    /// The number of nodes allocated so far.
    pub fn len(&self) -> (r: usize)
        requires
            self.wf(),
        ensures
            r == self@.len(),
    {
        self.labels.len()
    }

    /// Allocates a leaf: a fresh id, no operation, no operands.
    pub fn new_leaf(&mut self, value: V, label: String) -> (id: usize)
        requires
            old(self).wf(),
        ensures
            final(self).wf(),
            grown_by_one(old(self)@, final(self)@, id as int),
            final(self)@ == old(self)@.push(
                NodeView { label: label@, operation: None, operands: Seq::empty(), shared: false },
            ),
            final(self).value_of(id as int) == value,
            forall|i: int| 0 <= i < old(self)@.len() ==> #[trigger] final(self).value_of(i) == old(self).value_of(i),
    {
        let id = self.labels.len();
        let ghost label_view = label@;
        self.labels.push(label);
        self.values.push(value);
        self.operations.push(None);
        self.operands.push(Vec::new());
        self.shared.push(false);
        assert(self@ =~= old(self)@.push(
            NodeView { label: label_view, operation: None, operands: Seq::empty(), shared: false },
        ));
        id
    }
    /// Allocates a composite of `left` and `right` under `op`. Its value is
    /// computed now from the operands' values; its label is `[L op R]`; its
    /// operands are the two handles, in order; both operands become shared.
    pub fn combine(&mut self, op: Operation, left: usize, right: usize) -> (id: usize)
        requires
            old(self).wf(),
            valid(old(self)@, left as int),
            valid(old(self)@, right as int),
        ensures
            final(self).wf(),
            grown_by_one(old(self)@, final(self)@, id as int),
            final(self)@ == mark_shared(mark_shared(old(self)@, left as int), right as int).push(
                NodeView {
                    label: composite_label(op, old(self)@[left as int].label, old(self)@[right as int].label),
                    operation: Some(op),
                    operands: seq![left, right],
                    shared: false,
                },
            ),
            op == Operation::Add ==> call_ensures(
                V::plus,
                (&old(self).value_of(left as int), &old(self).value_of(right as int)),
                final(self).value_of(id as int),
            ),
            op == Operation::Multiply ==> call_ensures(
                V::times,
                (&old(self).value_of(left as int), &old(self).value_of(right as int)),
                final(self).value_of(id as int),
            ),
            forall|i: int| 0 <= i < old(self)@.len() ==> #[trigger] final(self).value_of(i) == old(self).value_of(i),
    {
        let id = self.labels.len();
        let value = match op {
            Operation::Add => self.values[left].plus(&self.values[right]),
            Operation::Multiply => self.values[left].times(&self.values[right]),
        };
        let label = composite_text(op, &self.labels[left], &self.labels[right]);
        let mut pair: Vec<usize> = Vec::new();
        pair.push(left);
        pair.push(right);
        let ghost g0 = self@;
        let ghost new_node = NodeView {
            label: label@,
            operation: Some(op),
            operands: seq![left, right],
            shared: false,
        };
        self.shared.set(left, true);
        self.shared.set(right, true);
        self.labels.push(label);
        self.values.push(value);
        self.operations.push(Some(op));
        self.operands.push(pair);
        self.shared.push(false);
        assert(pair@ =~= seq![left, right]);
        assert(self@ =~= mark_shared(mark_shared(g0, left as int), right as int).push(new_node));
        id
    }

    /// Replaces the label of a node that no composite refers to yet.
    pub fn relabel(&mut self, id: usize, label: String) -> (r: Result<(), GraphError>)
        requires
            old(self).wf(),
            valid(old(self)@, id as int),
        ensures
            final(self).wf(),
            old(self)@[id as int].shared ==> r == Err::<(), GraphError>(GraphError::Shared)
                && final(self)@ == old(self)@,
            !old(self)@[id as int].shared ==> r == Ok::<(), GraphError>(())
                && final(self)@ == old(self)@.update(id as int, NodeView { label: label@, ..old(self)@[id as int] }),
            forall|i: int| 0 <= i < old(self)@.len() ==> #[trigger] final(self).value_of(i) == old(self).value_of(i),
    {
        if self.shared[id] {
            return Err(GraphError::Shared);
        }
        let ghost g0 = self@;
        let ghost label_view = label@;
        self.labels.set(id, label);
        assert(self@ =~= g0.update(id as int, NodeView { label: label_view, ..g0[id as int] }));
        Ok(())
    }

    /// Rewrites the value of a node that no composite refers to yet with
    /// `transform`; the node's structure and label stay as they are.
    pub fn apply<F: Fn(&V) -> V>(&mut self, id: usize, transform: F) -> (r: Result<(), GraphError>)
        requires
            old(self).wf(),
            valid(old(self)@, id as int),
            forall|v: &V| transform.requires((v,)),
        ensures
            final(self).wf(),
            final(self)@ == old(self)@,
            r is Err <==> old(self)@[id as int].shared,
            r is Err ==> r == Err::<(), GraphError>(GraphError::Shared),
            r is Err ==> final(self).value_of(id as int) == old(self).value_of(id as int),
            r is Ok ==> call_ensures(transform, (&old(self).value_of(id as int),), final(self).value_of(id as int)),
            forall|i: int|
                0 <= i < old(self)@.len() && i != id ==> #[trigger] final(self).value_of(i) == old(self).value_of(i),
    {
        if self.shared[id] {
            return Err(GraphError::Shared);
        }
        let ghost g0 = self@;
        let value = transform(&self.values[id]);
        self.values.set(id, value);
        assert(self@ =~= g0);
        Ok(())
    }

    /// The label of a node.
    pub fn label(&self, id: usize) -> (r: &String)
        requires
            self.wf(),
            valid(self@, id as int),
        ensures
            r@ == self@[id as int].label,
    {
        &self.labels[id]
    }

    /// The value of a node.
    pub fn value(&self, id: usize) -> (r: &V)
        requires
            self.wf(),
            valid(self@, id as int),
        ensures
            *r == self.value_of(id as int),
    {
        &self.values[id]
    }

    /// The operator of a node; `None` for a leaf.
    pub fn operation(&self, id: usize) -> (r: Option<Operation>)
        requires
            self.wf(),
            valid(self@, id as int),
        ensures
            r == self@[id as int].operation,
    {
        self.operations[id]
    }

    /// The operand handles of a node, in order; empty for a leaf.
    pub fn operands(&self, id: usize) -> (r: &Vec<usize>)
        requires
            self.wf(),
            valid(self@, id as int),
        ensures
            r@ == self@[id as int].operands,
    {
        &self.operands[id]
    }

    /// Whether some composite refers to the node.
    pub fn is_shared(&self, id: usize) -> (r: bool)
        requires
            self.wf(),
            valid(self@, id as int),
        ensures
            r == self@[id as int].shared,
    {
        self.shared[id]
    }
}

/// Builds `[L op R]`.
fn composite_text(op: Operation, l: &String, r: &String) -> (s: String)
    ensures
        s@ == composite_label(op, l@, r@),
{
    let mut s = String::from_str("[");
    s.append(l.as_str());
    match op {
        Operation::Add => s.append("+"),
        Operation::Multiply => s.append("*"),
    }
    s.append(r.as_str());
    s.append("]");
    proof {
        reveal_strlit("[");
        reveal_strlit("+");
        reveal_strlit("*");
        reveal_strlit("]");
    }
    assert(s@ =~= composite_label(op, l@, r@));
    s
}

} // verus!
