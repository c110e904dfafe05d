//! The scheduler: lowers a feedforward graph into stages.

use vstd::prelude::*;
use crate::network::{all_nodes, declares, ids, ids_of, Edge, NetworkLike, Node};
use crate::schedule::{
    activation_of, carries, chained, computes, incoming, labels, schedules, sort_ids, sorted_of,
    sparse_of, stage_sound, to_sparse, Activation, Column, SparseStage, Stage, Term, Weight,
};

verus! {

broadcast use vstd::seq_lib::group_seq_properties;

/// Every edge of `inc` starts at a node present in `available`.
pub open spec fn ready<W>(inc: Seq<Edge<W>>, available: Seq<usize>) -> bool {
    forall|j: int| 0 <= j < inc.len() ==> available.contains(#[trigger] inc[j].start)
}

/// Some edge ends at `x`.
pub open spec fn is_end<W>(edges: Seq<Edge<W>>, x: usize) -> bool {
    exists|k: int| 0 <= k < edges.len() && #[trigger] edges[k].end == x
}

/// The edges that end at `d` are exactly those of `incoming(edges, d)`.
pub proof fn lemma_incoming<W>(edges: Seq<Edge<W>>, d: usize)
    ensures
        forall|j: int|
            0 <= j < incoming(edges, d).len() ==> (#[trigger] incoming(edges, d)[j]).end == d
                && exists|k: int| 0 <= k < edges.len() && edges[k] == incoming(edges, d)[j],
        forall|k: int|
            0 <= k < edges.len() && (#[trigger] edges[k]).end == d ==> exists|j: int|
                0 <= j < incoming(edges, d).len() && incoming(edges, d)[j] == edges[k],
    decreases edges.len(),
{
    if edges.len() > 0 {
        let rest = edges.drop_last();
        lemma_incoming(rest, d);
        let inc = incoming(edges, d);
        assert forall|j: int| 0 <= j < inc.len() implies (#[trigger] inc[j]).end == d
            && exists|k: int| 0 <= k < edges.len() && edges[k] == inc[j] by {
            if j < incoming(rest, d).len() {
                let k = choose|k: int| 0 <= k < rest.len() && rest[k] == incoming(rest, d)[j];
                assert(edges[k] == inc[j]);
            } else {
                assert(edges[edges.len() - 1] == inc[j]);
            }
        }
        assert forall|k: int| 0 <= k < edges.len() && (#[trigger] edges[k]).end == d implies exists|j: int|
            0 <= j < inc.len() && inc[j] == edges[k] by {
            if k < rest.len() {
                assert(rest[k] == edges[k]);
                let j = choose|j: int| 0 <= j < incoming(rest, d).len() && incoming(rest, d)[j] == rest[k];
                assert(inc[j] == edges[k]);
            } else {
                assert(inc[inc.len() - 1] == edges[k]);
            }
        }
    }
}

/// The first slot of `s` that holds `x`, if any.
pub fn position(s: &Vec<usize>, x: usize) -> (r: Option<usize>)
    ensures
        r matches Some(p) ==> p < s@.len() && s@[p as int] == x,
        r is None <==> !s@.contains(x),
{
    let mut i: usize = 0;
    while i < s.len()
        invariant
            i <= s@.len(),
            forall|j: int| 0 <= j < i ==> s@[j] != x,
        decreases s@.len() - i,
    {
        if s[i] == x {
            return Some(i);
        }
        i += 1;
    }
    None
}

/// The activation of the first node of `nodes` with identity `d`.
pub fn activation_in<A: Copy>(nodes: &Vec<Node<A>>, d: usize) -> (r: A)
    requires
        declares(nodes@, d),
    ensures
        r == activation_of(nodes@, d),
{
    let mut i: usize = 0;
    assert(nodes@.subrange(0, nodes@.len() as int) =~= nodes@);
    while i < nodes.len()
        invariant
            i <= nodes@.len(),
            activation_of(nodes@, d) == activation_of(nodes@.subrange(i as int, nodes@.len() as int), d),
            exists|j: int| i <= j < nodes@.len() && #[trigger] nodes@[j].id == d,
        decreases nodes@.len() - i,
    {
        let ghost rest = nodes@.subrange(i as int, nodes@.len() as int);
        if nodes[i].id == d {
            assert(rest[0] == nodes@[i as int]);
            return nodes[i].activation;
        }
        assert(rest.drop_first() =~= nodes@.subrange(i + 1, nodes@.len() as int));
        i += 1;
    }
    assert(false);
    nodes[0].activation
}

/// Whether every edge ending at `d` starts at a node in `available`.
pub fn is_ready<W>(edges: &Vec<Edge<W>>, available: &Vec<usize>, d: usize) -> (r: bool)
    ensures
        r == ready(incoming(edges@, d), available@),
{
    let mut k: usize = 0;
    while k < edges.len()
        invariant
            k <= edges@.len(),
            ready(incoming(edges@.subrange(0, k as int), d), available@),
        decreases edges@.len() - k,
    {
        let ghost pre = edges@.subrange(0, k as int);
        assert(edges@.subrange(0, k + 1).drop_last() =~= pre);
        if edges[k].end == d && position(available, edges[k].start).is_none() {
            proof {
                let post = edges@.subrange(0, k + 1);
                lemma_prefix_ready(edges@, available@, d, k as int + 1);
                let inc = incoming(post, d);
                assert(inc[inc.len() - 1] == edges@[k as int]);
            }
            return false;
        }
        k += 1;
    }
    assert(edges@.subrange(0, k as int) =~= edges@);
    true
}

/// Readiness of all edges implies readiness of those of a prefix.
proof fn lemma_prefix_ready<W>(edges: Seq<Edge<W>>, available: Seq<usize>, d: usize, k: int)
    requires
        0 <= k <= edges.len(),
    ensures
        ready(incoming(edges, d), available) ==> ready(incoming(edges.subrange(0, k), d), available),
    decreases edges.len() - k,
{
    if k < edges.len() {
        lemma_prefix_ready(edges, available, d, k + 1);
        let longer = edges.subrange(0, k + 1);
        assert(longer.drop_last() =~= edges.subrange(0, k));
        let short_inc = incoming(edges.subrange(0, k), d);
        let long_inc = incoming(longer, d);
        assert forall|j: int| 0 <= j < short_inc.len() implies long_inc[j] == short_inc[j] by {}
        if ready(long_inc, available) {
            assert forall|j: int| 0 <= j < short_inc.len() implies available.contains(
                #[trigger] short_inc[j].start,
            ) by {
                assert(long_inc[j] == short_inc[j]);
            }
        }
    } else {
        assert(edges.subrange(0, k) =~= edges);
    }
}

/// The column that computes node `d` from the slots of `available`.
pub fn compute_column<A: Copy, W: Copy>(
    edges: &Vec<Edge<W>>,
    nodes: &Vec<Node<A>>,
    available: &Vec<usize>,
    d: usize,
) -> (c: Column<A, W>)
    requires
        ready(incoming(edges@, d), available@),
        declares(nodes@, d),
        is_end(edges@, d),
    ensures
        c.node == d,
        computes(c, available@, edges@, nodes@),
{
    let mut terms: Vec<Term<W>> = Vec::new();
    let mut k: usize = 0;
    while k < edges.len()
        invariant
            k <= edges@.len(),
            ready(incoming(edges@, d), available@),
            ({
                let inc = incoming(edges@.subrange(0, k as int), d);
                &&& terms@.len() == inc.len()
                &&& forall|j: int|
                    0 <= j < inc.len() ==> {
                        &&& (#[trigger] terms@[j]).weight == Weight::Of(inc[j].weight)
                        &&& terms@[j].slot < available@.len()
                        &&& available@[terms@[j].slot as int] == inc[j].start
                    }
            }),
        decreases edges@.len() - k,
    {
        let ghost pre = edges@.subrange(0, k as int);
        assert(edges@.subrange(0, k + 1).drop_last() =~= pre);
        if edges[k].end == d {
            proof {
                lemma_incoming(edges@, d);
                let j = choose|j: int|
                    0 <= j < incoming(edges@, d).len() && incoming(edges@, d)[j] == edges@[k as int];
                assert(available@.contains(incoming(edges@, d)[j].start));
            }
            let p = position(available, edges[k].start);
            let slot = p.unwrap();
            terms.push(Term { slot, weight: Weight::Of(edges[k].weight) });
        }
        k += 1;
    }
    assert(edges@.subrange(0, k as int) =~= edges@);
    proof {
        lemma_incoming(edges@, d);
        let k = choose|k: int| 0 <= k < edges@.len() && #[trigger] edges@[k].end == d;
        assert(edges@[k].end == d);
    }
    let activation = activation_in(nodes, d);
    Column { node: d, activation: Activation::Of(activation), terms }
}

/// The column that carries the value in slot `p` unchanged.
pub fn carry_column<A, W>(available: &Vec<usize>, p: usize) -> (c: Column<A, W>)
    requires
        p < available@.len(),
    ensures
        c.node == available@[p as int],
        carries(c, available@),
{
    let mut terms: Vec<Term<W>> = Vec::new();
    terms.push(Term { slot: p, weight: Weight::Unit });
    Column { node: available[p], activation: Activation::Identity, terms }
}

/// Every edge that ends at `d` and starts at a node of `available` has its
/// start in `next`.
pub open spec fn carried_for<W>(
    edges: Seq<Edge<W>>,
    available: Seq<usize>,
    next: Seq<usize>,
    d: usize,
) -> bool {
    forall|k: int|
        0 <= k < edges.len() && (#[trigger] edges[k]).end == d && available.contains(edges[k].start)
            ==> next.contains(edges[k].start)
}

/// The nodes that some edge ends at, each once, in order of first appearance.
pub fn distinct_ends<W>(edges: &Vec<Edge<W>>) -> (r: Vec<usize>)
    ensures
        r@.no_duplicates(),
        forall|x: usize| r@.contains(x) <==> is_end(edges@, x),
{
    let mut r: Vec<usize> = Vec::new();
    let mut k: usize = 0;
    while k < edges.len()
        invariant
            k <= edges@.len(),
            r@.no_duplicates(),
            forall|x: usize|
                r@.contains(x) <==> exists|j: int| 0 <= j < k && #[trigger] edges@[j].end == x,
        decreases edges@.len() - k,
    {
        let d = edges[k].end;
        if position(&r, d).is_none() {
            r.push(d);
        }
        k += 1;
        assert forall|x: usize|
            (exists|j: int| 0 <= j < k && #[trigger] edges@[j].end == x) implies r@.contains(x) by {
            let j = choose|j: int| 0 <= j < k && #[trigger] edges@[j].end == x;
            if j == k - 1 {
                assert(r@.contains(d));
            }
        }
        assert forall|x: usize|
            r@.contains(x) implies exists|j: int| 0 <= j < k && #[trigger] edges@[j].end == x by {
            if x == d {
                assert(edges@[k - 1].end == x);
            }
        }
    }
    r
}

/// The elements of `pending` that are not in `next`, in order.
pub fn remove_all(pending: &Vec<usize>, next: &Vec<usize>) -> (r: Vec<usize>)
    ensures
        forall|x: usize| r@.contains(x) <==> pending@.contains(x) && !next@.contains(x),
        pending@.no_duplicates() ==> r@.no_duplicates(),
        r@.len() <= pending@.len(),
        r@.len() == pending@.len() ==> forall|i: int| 0 <= i < pending@.len() ==> !next@.contains(#[trigger] pending@[i]),
{
    let mut r: Vec<usize> = Vec::new();
    let mut i: usize = 0;
    while i < pending.len()
        invariant
            i <= pending@.len(),
            r@.len() <= i,
            r@.len() == i ==> forall|j: int| 0 <= j < i ==> !next@.contains(#[trigger] pending@[j]),
            forall|x: usize|
                r@.contains(x) <==> pending@.subrange(0, i as int).contains(x) && !next@.contains(x),
            pending@.no_duplicates() ==> r@.no_duplicates(),
        decreases pending@.len() - i,
    {
        let x = pending[i];
        let ghost before = r@;
        if position(next, x).is_none() {
            r.push(x);
            proof {
                if pending@.no_duplicates() {
                    assert(!pending@.subrange(0, i as int).contains(x)) by {
                        if pending@.subrange(0, i as int).contains(x) {
                            let j = choose|j: int| 0 <= j < i && pending@.subrange(0, i as int)[j] == x;
                            assert(pending@[j] == pending@[i as int]);
                        }
                    }
                    assert(!before.contains(x));
                }
            }
        }
        assert(pending@.subrange(0, i + 1) =~= pending@.subrange(0, i as int).push(x));
        i += 1;
    }
    assert(pending@.subrange(0, i as int) =~= pending@);
    r
}

/// A copy of a column.
pub fn copy_column<A: Copy, W: Copy>(c: &Column<A, W>) -> (r: Column<A, W>)
    ensures
        r.node == c.node,
        r.activation == c.activation,
        r.terms@ == c.terms@,
{
    let mut terms: Vec<Term<W>> = Vec::new();
    let mut i: usize = 0;
    while i < c.terms.len()
        invariant
            i <= c.terms@.len(),
            terms@ == c.terms@.subrange(0, i as int),
        decreases c.terms@.len() - i,
    {
        let t = &c.terms[i];
        let weight = match t.weight {
            Weight::Unit => Weight::Unit,
            Weight::Of(w) => Weight::Of(w),
        };
        terms.push(Term { slot: t.slot, weight });
        i += 1;
        assert(terms@ =~= c.terms@.subrange(0, i as int));
    }
    let activation = match c.activation {
        Activation::Identity => Activation::Identity,
        Activation::Of(a) => Activation::Of(a),
    };
    Column { node: c.node, activation, terms }
}

/// Every column of `columns` computes or carries its node from `available`.
pub open spec fn columns_sound<A, W>(
    columns: Seq<Column<A, W>>,
    available: Seq<usize>,
    edges: Seq<Edge<W>>,
    nodes: Seq<Node<A>>,
) -> bool {
    forall|j: int|
        0 <= j < columns.len() ==> computes(#[trigger] columns[j], available, edges, nodes)
            || carries(columns[j], available)
}

/// The node ids that `columns` produce.
pub open spec fn column_nodes<A, W>(columns: Seq<Column<A, W>>) -> Seq<usize> {
    columns.map_values(|c: Column<A, W>| c.node)
}

/// One scheduling round. Given the node ids in the slots of the incoming
/// state (`available`), the nodes still to compute (`pending`) and the
/// outputs (`wanted`), it returns the columns of the stage and the node id of
/// each column. Every pending node whose incoming edges all start in
/// `available` is computed; for every other pending node, each of its
/// available sources is carried; every available output is carried; no node
/// appears twice through a carry.
pub fn build_stage<A: Copy, W: Copy>(
    edges: &Vec<Edge<W>>,
    nodes: &Vec<Node<A>>,
    available: &Vec<usize>,
    pending: &Vec<usize>,
    wanted: &Vec<usize>,
) -> (res: (Vec<Column<A, W>>, Vec<usize>))
    requires
        forall|i: int| 0 <= i < pending@.len() ==> declares(nodes@, #[trigger] pending@[i]),
        forall|i: int| 0 <= i < pending@.len() ==> is_end(edges@, #[trigger] pending@[i]),
    ensures
        res.1@ == column_nodes(res.0@),
        columns_sound(res.0@, available@, edges@, nodes@),
        forall|i: int|
            0 <= i < pending@.len() && ready(incoming(edges@, #[trigger] pending@[i]), available@)
                ==> res.1@.contains(pending@[i]),
        forall|i: int|
            0 <= i < pending@.len() && !ready(incoming(edges@, #[trigger] pending@[i]), available@)
                ==> carried_for(edges@, available@, res.1@, pending@[i]),
        forall|i: int|
            0 <= i < wanted@.len() && available@.contains(#[trigger] wanted@[i]) ==> res.1@.contains(
                wanted@[i],
            ),
        forall|x: usize|
            res.1@.contains(x) ==> (pending@.contains(x) && ready(incoming(edges@, x), available@))
                || available@.contains(x),
{
    let mut columns: Vec<Column<A, W>> = Vec::new();
    let mut next: Vec<usize> = Vec::new();
    let mut i: usize = 0;
    while i < pending.len()
        invariant
            i <= pending@.len(),
            forall|i: int| 0 <= i < pending@.len() ==> declares(nodes@, #[trigger] pending@[i]),
            forall|i: int| 0 <= i < pending@.len() ==> is_end(edges@, #[trigger] pending@[i]),
            next@ == column_nodes(columns@),
            columns_sound(columns@, available@, edges@, nodes@),
            forall|j: int|
                0 <= j < i && ready(incoming(edges@, #[trigger] pending@[j]), available@)
                    ==> next@.contains(pending@[j]),
            forall|x: usize|
                next@.contains(x) ==> pending@.contains(x) && ready(incoming(edges@, x), available@),
        decreases pending@.len() - i,
    {
        let d = pending[i];
        if is_ready(edges, available, d) {
            let c = compute_column(edges, nodes, available, d);
            columns.push(c);
            next.push(d);
            assert(next@ =~= column_nodes(columns@));
        }
        i += 1;
    }
    let mut i: usize = 0;
    while i < pending.len()
        invariant
            i <= pending@.len(),
            next@ == column_nodes(columns@),
            columns_sound(columns@, available@, edges@, nodes@),
            forall|j: int|
                0 <= j < pending@.len() && ready(incoming(edges@, #[trigger] pending@[j]), available@)
                    ==> next@.contains(pending@[j]),
            forall|j: int|
                0 <= j < i && !ready(incoming(edges@, #[trigger] pending@[j]), available@)
                    ==> carried_for(edges@, available@, next@, pending@[j]),
            forall|x: usize|
                next@.contains(x) ==> (pending@.contains(x) && ready(incoming(edges@, x), available@))
                    || available@.contains(x),
        decreases pending@.len() - i,
    {
        let d = pending[i];
        if !is_ready(edges, available, d) {
            let mut k: usize = 0;
            while k < edges.len()
                invariant
                    k <= edges@.len(),
                    i < pending@.len(),
                    d == pending@[i as int],
                    next@ == column_nodes(columns@),
                    columns_sound(columns@, available@, edges@, nodes@),
                    forall|j: int|
                        0 <= j < pending@.len() && ready(incoming(edges@, #[trigger] pending@[j]), available@)
                            ==> next@.contains(pending@[j]),
                    forall|j: int|
                        0 <= j < i && !ready(incoming(edges@, #[trigger] pending@[j]), available@)
                            ==> carried_for(edges@, available@, next@, pending@[j]),
                    forall|x: usize|
                        next@.contains(x) ==> (pending@.contains(x) && ready(incoming(edges@, x), available@))
                            || available@.contains(x),
                    forall|m: int|
                        0 <= m < k && (#[trigger] edges@[m]).end == d && available@.contains(edges@[m].start)
                            ==> next@.contains(edges@[m].start),
                decreases edges@.len() - k,
            {
                if edges[k].end == d {
                    let s = edges[k].start;
                    match position(available, s) {
                        Some(p) => {
                            if position(&next, s).is_none() {
                                let c = carry_column(available, p);
                                columns.push(c);
                                next.push(s);
                                assert(next@ =~= column_nodes(columns@));
                            }
                        },
                        None => {},
                    }
                }
                k += 1;
            }
        }
        i += 1;
    }
    let mut i: usize = 0;
    while i < wanted.len()
        invariant
            i <= wanted@.len(),
            next@ == column_nodes(columns@),
            columns_sound(columns@, available@, edges@, nodes@),
            forall|j: int|
                0 <= j < pending@.len() && ready(incoming(edges@, #[trigger] pending@[j]), available@)
                    ==> next@.contains(pending@[j]),
            forall|j: int|
                0 <= j < pending@.len() && !ready(incoming(edges@, #[trigger] pending@[j]), available@)
                    ==> carried_for(edges@, available@, next@, pending@[j]),
            forall|x: usize|
                next@.contains(x) ==> (pending@.contains(x) && ready(incoming(edges@, x), available@))
                    || available@.contains(x),
            forall|j: int|
                0 <= j < i && available@.contains(#[trigger] wanted@[j]) ==> next@.contains(wanted@[j]),
        decreases wanted@.len() - i,
    {
        let w = wanted[i];
        match position(available, w) {
            Some(p) => {
                if position(&next, w).is_none() {
                    let c = carry_column(available, p);
                    columns.push(c);
                    next.push(w);
                    assert(next@ =~= column_nodes(columns@));
                }
            },
            None => {},
        }
        i += 1;
    }
    (columns, next)
}

/// Why a graph cannot be scheduled.
#[derive(PartialEq, Eq, Structural, Debug, Clone, Copy)]
pub enum FabricationError {
    /// The graph has no edges.
    NoEdges,
    /// A round made no progress: some node depends on a node that is neither
    /// an input nor produced by an edge, or on a cycle of ordinary edges.
    Unresolvable,
    /// Every dependency was resolved, but some output was never produced.
    Unreachable,
}

impl FabricationError {
    /// The message callers compare against.
    pub fn message(&self) -> (r: &'static str)
        ensures
            *self == FabricationError::NoEdges ==> r@ == "no edges present, net invalid"@,
            *self == FabricationError::Unresolvable ==> r@ == "can't resolve dependencies, net invalid"@,
            *self == FabricationError::Unreachable ==> r@
                == "dependencies resolved but not all outputs computable, net invalid"@,
    {
        match self {
            FabricationError::NoEdges => "no edges present, net invalid",
            FabricationError::Unresolvable => "can't resolve dependencies, net invalid",
            FabricationError::Unreachable => "dependencies resolved but not all outputs computable, net invalid",
        }
    }
}

/// Every output is an input or the end of some edge.
pub open spec fn covered<W>(input_ids: Seq<usize>, output_ids: Seq<usize>, edges: Seq<Edge<W>>) -> bool {
    forall|i: int|
        0 <= i < output_ids.len() ==> input_ids.contains(#[trigger] output_ids[i]) || is_end(
            edges,
            output_ids[i],
        )
}

/// Node `d` has an incoming edge whose start is not an input and is either in
/// `set` or produced by no edge.
pub open spec fn blocked<W>(edges: Seq<Edge<W>>, input_ids: Seq<usize>, set: Set<usize>, d: usize) -> bool {
    exists|k: int|
        0 <= k < edges.len() && (#[trigger] edges[k]).end == d && !input_ids.contains(edges[k].start)
            && (set.contains(edges[k].start) || !is_end(edges, edges[k].start))
}

/// A nonempty set of nodes each of which is blocked within the set: none of
/// them can ever be computed.
pub open spec fn stuck<W>(edges: Seq<Edge<W>>, input_ids: Seq<usize>, set: Set<usize>) -> bool {
    &&& exists|x: usize| set.contains(x)
    &&& forall|d: usize| #[trigger] set.contains(d) ==> blocked(edges, input_ids, set, d)
}

/// A stuck set that holds no input.
pub open spec fn stuck_apart<W>(edges: Seq<Edge<W>>, input_ids: Seq<usize>, set: Set<usize>) -> bool {
    &&& stuck(edges, input_ids, set)
    &&& forall|d: usize| #[trigger] set.contains(d) ==> !input_ids.contains(d)
}

/// Every edge of `net` ends at a declared node.
pub open spec fn ends_declared<A, W, N: NetworkLike<A, W>>(net: &N) -> bool {
    forall|k: int| 0 <= k < net.edge_list().len() ==> declares(all_nodes(net), #[trigger] net.edge_list()[k].end)
}

/// What scheduling `net` yields: no edges exactly when refused for that; a
/// stuck set when refused as unresolvable; an output that is neither an
/// input nor an edge end when refused as unreachable; otherwise a schedule of
/// the graph, whose graph has every output covered and no stuck set apart
/// from the inputs.
pub open spec fn fabricated<A, W, N: NetworkLike<A, W>>(
    net: &N,
    r: Result<Vec<Stage<A, W>>, FabricationError>,
) -> bool {
    let input_ids = ids(net.input_nodes());
    let output_ids = ids(net.output_nodes());
    let edges = net.edge_list();
    &&& (r matches Err(FabricationError::NoEdges)) <==> edges.len() == 0
    &&& (r matches Err(FabricationError::Unresolvable)) ==> exists|set: Set<usize>| stuck(edges, input_ids, set)
    &&& (r matches Err(FabricationError::Unreachable)) ==> !covered(input_ids, output_ids, edges)
    &&& r matches Ok(stages) ==> {
        &&& schedules(stages@, input_ids, output_ids, edges, all_nodes(net))
        &&& covered(input_ids, output_ids, edges)
        &&& forall|set: Set<usize>| !stuck_apart(edges, input_ids, set)
    }
}

/// The dense scheduler. Each stage's columns, laid side by side, form a
/// matrix with one row per incoming slot.
pub struct FeedForwardMatrixFabricator;

impl FeedForwardMatrixFabricator {
    /// Lowers a feedforward graph into stages.
    ///
    /// Slot `i` of the first stage holds the `i`-th smallest input id; column
    /// `i` of the last stage yields the `i`-th smallest output id. A graph without
    /// edges is refused; a graph in which some set of nodes is stuck is refused;
    /// a graph with an output that is neither an input nor the end of an edge is
    /// refused. Duplicate edges become two terms of one column, which add up.
    pub fn fabricate<A: Copy, W: Copy, N: NetworkLike<A, W>>(net: &N) -> (r: Result<
        Vec<Stage<A, W>>,
        FabricationError,
    >)
        requires
            ends_declared(net),
        ensures
            fabricated(net, r),
    {
        broadcast use vstd::seq_lib::group_to_multiset_ensures;

        let edges = net.edges();
        if edges.len() == 0 {
            return Err(FabricationError::NoEdges);
        }
        let inputs = net.inputs();
        let outputs = net.outputs();
        let mut nodes = net.inputs();
        let mut hidden = net.hidden();
        let mut trailing = net.outputs();
        nodes.append(&mut hidden);
        nodes.append(&mut trailing);
        let input_ids = ids_of(&inputs);
        let output_ids = ids_of(&outputs);
        let mut available = sort_ids(&input_ids);
        let wanted = sort_ids(&output_ids);
        let mut pending = distinct_ends(&edges);
        let mut stages: Vec<Stage<A, W>> = Vec::new();
        let ghost e = edges@;
        let ghost ins = input_ids@;
        proof {
            assert(pending@.contains(edges@[0].end));
            assert forall|x: usize| available@.contains(x) <==> ins.contains(x) by {
                assert(available@.to_multiset().count(x) == ins.to_multiset().count(x));
            }
            assert forall|s: Set<usize>| #[trigger] stuck_apart(e, ins, s) implies forall|x: usize|
                s.contains(x) ==> pending@.contains(x) && !available@.contains(x) by {
                assert forall|x: usize| s.contains(x) implies pending@.contains(x) && !available@.contains(x) by {
                    assert(blocked(e, ins, s, x));
                    let k = choose|k: int|
                        0 <= k < e.len() && (#[trigger] e[k]).end == x && !ins.contains(e[k].start)
                            && (s.contains(e[k].start) || !is_end(e, e[k].start));
                    assert(is_end(e, x));
                }
            }
        }
        loop
            invariant
                e == edges@,
                e == net.edge_list(),
                e.len() > 0,
                ins == input_ids@,
                ins == ids(net.input_nodes()),
                output_ids@ == ids(net.output_nodes()),
                nodes@ == all_nodes(net),
                forall|k: int| 0 <= k < e.len() ==> declares(nodes@, #[trigger] e[k].end),
                sorted_of(wanted@, output_ids@),
                pending@.len() > 0,
                pending@.no_duplicates(),
                forall|x: usize| pending@.contains(x) ==> is_end(e, x),
                stages@.len() == 0 ==> sorted_of(available@, ins),
                stages@.len() > 0 ==> sorted_of(stages@[0].sources@, ins) && labels(stages@.last())
                    == available@,
                chained(stages@),
                forall|i: int| 0 <= i < stages@.len() ==> stage_sound(#[trigger] stages@[i], e, nodes@),
                forall|w: usize|
                    (#[trigger] output_ids@.contains(w)) && (ins.contains(w) || is_end(e, w)) ==> available@.contains(w)
                        || pending@.contains(w),
                forall|k: int|
                    0 <= k < e.len() && pending@.contains((#[trigger] e[k]).end) && (ins.contains(e[k].start)
                        || (is_end(e, e[k].start) && !pending@.contains(e[k].start)))
                        ==> available@.contains(e[k].start),
                forall|x: usize| available@.contains(x) ==> ins.contains(x) || is_end(e, x),
                forall|s: Set<usize>| #[trigger]
                    stuck_apart(e, ins, s) ==> forall|x: usize|
                        s.contains(x) ==> pending@.contains(x) && !available@.contains(x),
            decreases pending@.len(),
        {
            proof {
                assert forall|i: int| 0 <= i < pending@.len() implies declares(nodes@, #[trigger] pending@[i]) by {
                    assert(pending@.contains(pending@[i]));
                    let k = choose|k: int| 0 <= k < e.len() && #[trigger] e[k].end == pending@[i];
                }
            }
            let (columns, next) = build_stage(&edges, &nodes, &available, &pending, &wanted);
            let remaining = remove_all(&pending, &next);
            if remaining.len() == pending.len() {
                proof {
                    let set = pending@.to_set();
                    assert(set.contains(pending@[0]));
                    assert forall|d: usize| #[trigger] set.contains(d) implies blocked(e, ins, set, d) by {
                        let i = choose|i: int| 0 <= i < pending@.len() && pending@[i] == d;
                        assert(!next@.contains(pending@[i]));
                        let inc = incoming(e, d);
                        assert(!ready(inc, available@));
                        let j = choose|j: int| 0 <= j < inc.len() && !available@.contains(#[trigger] inc[j].start);
                        lemma_incoming(e, d);
                        let k = choose|k: int| 0 <= k < e.len() && e[k] == inc[j];
                        assert(e[k].end == d);
                    }
                    assert(stuck(e, ins, set));
                }
                return Err(FabricationError::Unresolvable);
            }
            proof {
                assert forall|w: usize|
                    (#[trigger] output_ids@.contains(w)) && (ins.contains(w) || is_end(e, w)) implies next@.contains(w)
                        || remaining@.contains(w) by {
                    if available@.contains(w) {
                        assert(wanted@.to_multiset().count(w) == output_ids@.to_multiset().count(w));
                        assert(wanted@.contains(w));
                        let i = choose|i: int| 0 <= i < wanted@.len() && wanted@[i] == w;
                        assert(available@.contains(wanted@[i]));
                    }
                }
                assert forall|k: int|
                    0 <= k < e.len() && remaining@.contains((#[trigger] e[k]).end) && (ins.contains(e[k].start)
                        || (is_end(e, e[k].start) && !remaining@.contains(e[k].start)))
                        implies next@.contains(e[k].start) by {
                    let d = e[k].end;
                    let s = e[k].start;
                    let i = choose|i: int| 0 <= i < pending@.len() && pending@[i] == d;
                    assert(!next@.contains(pending@[i]));
                    assert(!ready(incoming(e, d), available@));
                    assert(carried_for(e, available@, next@, pending@[i]));
                    if !next@.contains(s) {
                        assert(available@.contains(s));
                    }
                }
                assert forall|x: usize| next@.contains(x) implies ins.contains(x) || is_end(e, x) by {}
                assert forall|s: Set<usize>| #[trigger] stuck_apart(e, ins, s) implies forall|x: usize|
                    s.contains(x) ==> remaining@.contains(x) && !next@.contains(x) by {
                    assert forall|x: usize| s.contains(x) implies remaining@.contains(x) && !next@.contains(x) by {
                        assert(blocked(e, ins, s, x));
                        let k = choose|k: int|
                            0 <= k < e.len() && (#[trigger] e[k]).end == x && !ins.contains(e[k].start)
                                && (s.contains(e[k].start) || !is_end(e, e[k].start));
                        if next@.contains(x) {
                            lemma_incoming(e, x);
                            let j = choose|j: int| 0 <= j < incoming(e, x).len() && incoming(e, x)[j] == e[k];
                            assert(available@.contains(incoming(e, x)[j].start));
                        }
                    }
                }
            }
            if remaining.len() == 0 {
                let mut ordered: Vec<Column<A, W>> = Vec::new();
                let mut i: usize = 0;
                while i < wanted.len()
                    invariant
                        i <= wanted@.len(),
                        next@ == column_nodes(columns@),
                        columns_sound(columns@, available@, e, nodes@),
                        columns_sound(ordered@, available@, e, nodes@),
                        column_nodes(ordered@) == wanted@.subrange(0, i as int),
                        forall|j: int| 0 <= j < i ==> next@.contains(#[trigger] wanted@[j]),
                        sorted_of(wanted@, output_ids@),
                        e == net.edge_list(),
                        e.len() > 0,
                        ins == ids(net.input_nodes()),
                        output_ids@ == ids(net.output_nodes()),
                        remaining@.len() == 0,
                        forall|w: usize|
                            (#[trigger] output_ids@.contains(w)) && (ins.contains(w) || is_end(e, w)) ==> next@.contains(w)
                                || remaining@.contains(w),
                    decreases wanted@.len() - i,
                {
                    match position(&next, wanted[i]) {
                        Some(p) => {
                            let c = copy_column(&columns[p]);
                            proof {
                                assert(next@[p as int] == columns@[p as int].node);
                                assert(computes(columns@[p as int], available@, e, nodes@) ==> computes(c, available@, e, nodes@));
                                assert(carries(columns@[p as int], available@) ==> carries(c, available@));
                            }
                            let ghost before = ordered@;
                            ordered.push(c);
                            proof {
                                assert(c.node == wanted@[i as int]);
                                assert(ordered@ == before.push(c));
                                assert(column_nodes(ordered@) =~= column_nodes(before).push(c.node));
                                assert(wanted@.subrange(0, i + 1) =~= wanted@.subrange(0, i as int).push(wanted@[i as int]));
                            }
                        },
                        None => {
                            proof {
                                let w = wanted@[i as int];
                                assert(wanted@.contains(w));
                                assert(wanted@.to_multiset().count(w) == output_ids@.to_multiset().count(w));
                                assert(!remaining@.contains(w));
                                assert(!next@.contains(w));
                                assert(output_ids@.to_multiset().count(w) > 0);
                                assert(output_ids@.contains(w));
                                assert(!(ins.contains(w) || is_end(e, w)));
                                let j = choose|j: int| 0 <= j < output_ids@.len() && output_ids@[j] == w;
                                assert(!(ins.contains(output_ids@[j]) || is_end(e, output_ids@[j])));
                            }
                            return Err(FabricationError::Unreachable);
                        },
                    }
                    i += 1;
                }
                assert(column_nodes(ordered@) =~= wanted@);
                let stage = Stage { sources: available, columns: ordered };
                let ghost old_stages = stages@;
                stages.push(stage);
                proof {
                    assert(labels(stage) == wanted@);
                    assert forall|j: int| 0 <= j < stages@.len() - 1 implies labels(#[trigger] stages@[j])
                        == stages@[j + 1].sources@ by {
                        if j < old_stages.len() - 1 {
                            assert(stages@[j] == old_stages[j]);
                            assert(stages@[j + 1] == old_stages[j + 1]);
                        }
                    }
                    assert forall|i: int| 0 <= i < stages@.len() implies stage_sound(#[trigger] stages@[i], e, nodes@) by {
                        if i < old_stages.len() {
                            assert(stages@[i] == old_stages[i]);
                        }
                    }
                    assert forall|i: int| 0 <= i < output_ids@.len() implies ins.contains(
                        #[trigger] output_ids@[i],
                    ) || is_end(e, output_ids@[i]) by {
                        let w = output_ids@[i];
                        assert(output_ids@.contains(w));
                        assert(wanted@.to_multiset().count(w) == output_ids@.to_multiset().count(w));
                        let j = choose|j: int| 0 <= j < wanted@.len() && wanted@[j] == w;
                        assert(column_nodes(ordered@)[j] == w);
                        assert(next@.contains(w));
                    }
                    assert forall|set: Set<usize>| !stuck_apart(e, ins, set) by {
                        if stuck_apart(e, ins, set) {
                            let x = choose|x: usize| set.contains(x);
                            assert(remaining@.contains(x));
                        }
                    }
                }
                return Ok(stages);
            }
            let stage = Stage { sources: available, columns };
            let ghost old_stages = stages@;
            stages.push(stage);
            proof {
                assert(labels(stage) == next@);
                assert forall|j: int| 0 <= j < stages@.len() - 1 implies labels(#[trigger] stages@[j])
                    == stages@[j + 1].sources@ by {
                    if j < old_stages.len() - 1 {
                        assert(stages@[j] == old_stages[j]);
                        assert(stages@[j + 1] == old_stages[j + 1]);
                    }
                }
                assert forall|i: int| 0 <= i < stages@.len() implies stage_sound(#[trigger] stages@[i], e, nodes@) by {
                    if i < old_stages.len() {
                        assert(stages@[i] == old_stages[i]);
                    }
                }
            }
            available = next;
            pending = remaining;
        }
    }
}

/// The sparse scheduler: the same stages in coordinate form.
pub struct FeedForwardSparseMatrixFabricator;

impl FeedForwardSparseMatrixFabricator {
    /// The stages of [`FeedForwardMatrixFabricator::fabricate`], each in
    /// coordinate form; refused exactly when that refuses.
    pub fn fabricate<A: Copy, W: Copy, N: NetworkLike<A, W>>(net: &N) -> (r: Result<
        Vec<SparseStage<A, W>>,
        FabricationError,
    >)
        requires
            ends_declared(net),
        ensures
            r matches Err(e) ==> fabricated(net, Err(e)),
            r matches Ok(sparse) ==> exists|stages: Vec<Stage<A, W>>|
                {
                    &&& fabricated(net, Ok(stages))
                    &&& sparse@.len() == stages@.len()
                    &&& forall|i: int| 0 <= i < stages@.len() ==> sparse_of(#[trigger] sparse@[i], stages@[i])
                },
    {
        match FeedForwardMatrixFabricator::fabricate(net) {
            Err(e) => Err(e),
            Ok(stages) => {
                let mut sparse: Vec<SparseStage<A, W>> = Vec::new();
                let mut i: usize = 0;
                while i < stages.len()
                    invariant
                        i <= stages@.len(),
                        sparse@.len() == i,
                        forall|j: int| 0 <= j < i ==> sparse_of(#[trigger] sparse@[j], stages@[j]),
                    decreases stages@.len() - i,
                {
                    sparse.push(to_sparse(&stages[i]));
                    i += 1;
                }
                Ok(sparse)
            },
        }
    }
}

} // verus!
