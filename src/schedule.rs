//! The compiled form of a graph: a sequence of stages, each a sparse
//! column-major matrix with one activation per column, together with the
//! node id that each slot of the running state stands for.

use vstd::prelude::*;
use crate::network::{Edge, Node};

verus! {

/// The function a column applies to its summed input.
pub enum Activation<A> {
    /// Passes the value through unchanged (used by carries).
    Identity,
    /// The activation of the computed node.
    Of(A),
}

/// A matrix coefficient.
pub enum Weight<W> {
    /// The coefficient one (used by carries).
    Unit,
    /// The weight of a graph edge.
    Of(W),
}

/// One nonzero coefficient of a column: the row (slot of the incoming state)
/// it reads, and the coefficient it multiplies that slot by. Terms of one
/// column that share a slot add up.
pub struct Term<W> {
    pub slot: usize,
    pub weight: Weight<W>,
}

/// One output slot of a stage: the node whose value it produces, the
/// activation applied, and its nonzero coefficients.
pub struct Column<A, W> {
    pub node: usize,
    pub activation: Activation<A>,
    pub terms: Vec<Term<W>>,
}

/// One stage: `sources[p]` is the node id whose value occupies slot `p` of
/// the incoming state; column `j` produces slot `j` of the outgoing state.
pub struct Stage<A, W> {
    pub sources: Vec<usize>,
    pub columns: Vec<Column<A, W>>,
}

/// The node ids that a stage produces, slot by slot.
pub open spec fn labels<A, W>(stage: Stage<A, W>) -> Seq<usize> {
    stage.columns@.map_values(|c: Column<A, W>| c.node)
}

/// Nondecreasing order.
pub open spec fn sorted(s: Seq<usize>) -> bool {
    forall|i: int, j: int| 0 <= i < j < s.len() ==> s[i] <= s[j]
}

/// `s` holds the values of `ids` in ascending order.
pub open spec fn sorted_of(s: Seq<usize>, ids: Seq<usize>) -> bool {
    sorted(s) && s.to_multiset() == ids.to_multiset()
}

/// The edges of `edges` that end at `d`, in their order.
pub open spec fn incoming<W>(edges: Seq<Edge<W>>, d: usize) -> Seq<Edge<W>>
    decreases edges.len(),
{
    if edges.len() == 0 {
        Seq::empty()
    } else {
        let before = incoming(edges.drop_last(), d);
        if edges.last().end == d {
            before.push(edges.last())
        } else {
            before
        }
    }
}

/// The activation of the first node of `nodes` with identity `d`.
pub open spec fn activation_of<A>(nodes: Seq<Node<A>>, d: usize) -> A
    decreases nodes.len(),
{
    if nodes.len() == 0 {
        arbitrary()
    } else if nodes[0].id == d {
        nodes[0].activation
    } else {
        activation_of(nodes.drop_first(), d)
    }
}

/// `c` computes node `c.node`, which some edge ends at: it applies the node's
/// activation to the sum, over the edges that end at the node and in their
/// order, of each edge's
/// weight times the slot holding the edge's start.
pub open spec fn computes<A, W>(
    c: Column<A, W>,
    sources: Seq<usize>,
    edges: Seq<Edge<W>>,
    nodes: Seq<Node<A>>,
) -> bool {
    let inc = incoming(edges, c.node);
    &&& c.activation == Activation::Of(activation_of(nodes, c.node))
    &&& inc.len() > 0
    &&& c.terms@.len() == inc.len()
    &&& forall|j: int|
        0 <= j < inc.len() ==> {
            &&& (#[trigger] c.terms@[j]).weight == Weight::Of(inc[j].weight)
            &&& c.terms@[j].slot < sources.len()
            &&& sources[c.terms@[j].slot as int] == inc[j].start
        }
}

/// `c` carries node `c.node` unchanged from a slot that holds it.
pub open spec fn carries<A, W>(c: Column<A, W>, sources: Seq<usize>) -> bool {
    &&& c.activation == Activation::<A>::Identity
    &&& c.terms@.len() == 1
    &&& c.terms@[0].weight == Weight::<W>::Unit
    &&& c.terms@[0].slot < sources.len()
    &&& sources[c.terms@[0].slot as int] == c.node
}

/// Every column of a stage computes or carries its node.
pub open spec fn stage_sound<A, W>(
    stage: Stage<A, W>,
    edges: Seq<Edge<W>>,
    nodes: Seq<Node<A>>,
) -> bool {
    forall|j: int|
        0 <= j < stage.columns@.len() ==> computes(#[trigger] stage.columns@[j], stage.sources@, edges, nodes)
            || carries(stage.columns@[j], stage.sources@)
}

/// Each stage's outgoing slots are the next stage's incoming slots.
pub open spec fn chained<A, W>(stages: Seq<Stage<A, W>>) -> bool {
    forall|i: int| 0 <= i < stages.len() - 1 ==> labels(#[trigger] stages[i]) == stages[i + 1].sources@
}

/// `stages` is a schedule of the graph given by its input ids, output ids,
/// edges and nodes: it reads the inputs in ascending id order, every column
/// computes or carries a node, consecutive stages fit together, and the last
/// stage yields the outputs in ascending id order.
pub open spec fn schedules<A, W>(
    stages: Seq<Stage<A, W>>,
    input_ids: Seq<usize>,
    output_ids: Seq<usize>,
    edges: Seq<Edge<W>>,
    nodes: Seq<Node<A>>,
) -> bool {
    &&& stages.len() >= 1
    &&& sorted_of(stages[0].sources@, input_ids)
    &&& chained(stages)
    &&& sorted_of(labels(stages.last()), output_ids)
    &&& forall|i: int| 0 <= i < stages.len() ==> stage_sound(#[trigger] stages[i], edges, nodes)
}

/// `v` in ascending order, duplicates kept.
pub fn sort_ids(v: &Vec<usize>) -> (r: Vec<usize>)
    ensures
        sorted_of(r@, v@),
{
    broadcast use vstd::seq_lib::group_to_multiset_ensures;

    let mut r: Vec<usize> = Vec::new();
    let mut k: usize = 0;
    while k < v.len()
        invariant
            k <= v@.len(),
            sorted(r@),
            r@.to_multiset() == v@.subrange(0, k as int).to_multiset(),
        decreases v@.len() - k,
    {
        let x = v[k];
        let mut i: usize = 0;
        while i < r.len() && r[i] <= x
            invariant
                i <= r@.len(),
                forall|j: int| 0 <= j < i ==> r@[j] <= x,
            decreases r@.len() - i,
        {
            i += 1;
        }
        proof {
            assert(i < r@.len() ==> x < r@[i as int]);
        }
        let ghost before = r@;
        r.insert(i, x);
        proof {
            assert forall|a: int, b: int| 0 <= a < b < r@.len() implies r@[a] <= r@[b] by {
                if a < i && b > i {
                    assert(before[a] <= x);
                }
            }
            assert(v@.subrange(0, k as int + 1) =~= v@.subrange(0, k as int).push(x));
            vstd::seq_lib::to_multiset_insert(before, i as int, x);
            vstd::seq_lib::to_multiset_build(v@.subrange(0, k as int), x);
        }
        k += 1;
    }
    assert(v@.subrange(0, k as int) =~= v@);
    r
}

/// One nonzero entry of a sparse matrix.
pub struct Triplet<W> {
    pub row: usize,
    pub col: usize,
    pub weight: Weight<W>,
}

/// A stage in coordinate form: `rows` incoming slots, one activation per
/// outgoing slot, and the nonzero entries. Entries at the same position add
/// up.
pub struct SparseStage<A, W> {
    pub rows: usize,
    pub triplets: Vec<Triplet<W>>,
    pub activations: Vec<Activation<A>>,
}

/// The entries of column `c` placed in column `j`.
pub open spec fn column_triplets<A, W>(c: Column<A, W>, j: int) -> Seq<Triplet<W>> {
    c.terms@.map_values(|t: Term<W>| Triplet { row: t.slot, col: j as usize, weight: t.weight })
}

/// The entries of `columns`, column by column.
pub open spec fn triplets_of<A, W>(columns: Seq<Column<A, W>>) -> Seq<Triplet<W>>
    decreases columns.len(),
{
    if columns.len() == 0 {
        Seq::empty()
    } else {
        triplets_of(columns.drop_last()) + column_triplets(columns.last(), columns.len() - 1)
    }
}

/// `sparse` is `stage` in coordinate form.
pub open spec fn sparse_of<A, W>(sparse: SparseStage<A, W>, stage: Stage<A, W>) -> bool {
    &&& sparse.rows == stage.sources@.len()
    &&& sparse.triplets@ == triplets_of(stage.columns@)
    &&& sparse.activations@ == stage.columns@.map_values(|c: Column<A, W>| c.activation)
}

/// `stage` in coordinate form.
pub fn to_sparse<A: Copy, W: Copy>(stage: &Stage<A, W>) -> (r: SparseStage<A, W>)
    ensures
        sparse_of(r, *stage),
{
    let mut triplets: Vec<Triplet<W>> = Vec::new();
    let mut activations: Vec<Activation<A>> = Vec::new();
    let mut j: usize = 0;
    while j < stage.columns.len()
        invariant
            j <= stage.columns@.len(),
            triplets@ == triplets_of(stage.columns@.subrange(0, j as int)),
            activations@ == stage.columns@.subrange(0, j as int).map_values(|c: Column<A, W>| c.activation),
        decreases stage.columns@.len() - j,
    {
        let c = &stage.columns[j];
        let ghost before = triplets@;
        let mut i: usize = 0;
        while i < c.terms.len()
            invariant
                i <= c.terms@.len(),
                j < stage.columns@.len(),
                *c == stage.columns@[j as int],
                triplets@ == before + column_triplets(*c, j as int).subrange(0, i as int),
            decreases c.terms@.len() - i,
        {
            let t = &c.terms[i];
            let weight = match t.weight {
                Weight::Unit => Weight::Unit,
                Weight::Of(w) => Weight::Of(w),
            };
            triplets.push(Triplet { row: t.slot, col: j, weight });
            i += 1;
            assert(triplets@ =~= before + column_triplets(*c, j as int).subrange(0, i as int));
        }
        let activation = match c.activation {
            Activation::Identity => Activation::Identity,
            Activation::Of(a) => Activation::Of(a),
        };
        activations.push(activation);
        proof {
            let cols = stage.columns@.subrange(0, j + 1);
            assert(cols.drop_last() =~= stage.columns@.subrange(0, j as int));
            assert(column_triplets(*c, j as int).subrange(0, i as int) =~= column_triplets(*c, j as int));
            assert(activations@ =~= cols.map_values(|c: Column<A, W>| c.activation));
        }
        j += 1;
    }
    assert(stage.columns@.subrange(0, j as int) =~= stage.columns@);
    SparseStage { rows: stage.sources.len(), triplets, activations }
}

} // verus!
