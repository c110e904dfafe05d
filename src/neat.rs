//! The dependency lists that a node-by-node looping evaluator works from.

use vstd::prelude::*;
use crate::fabricator::position;
use crate::network::{all_nodes, declares, ids, ids_of, Edge, NetworkLike, Node, Recurrent};
use crate::schedule::incoming;

verus! {

/// A node addressed by its index: its activation and its inputs, each the
/// index of the source node, the weight, and whether the edge is recurrent
/// (read from the previous step).
pub struct DependentNode<A, W> {
    pub activation: A,
    pub inputs: Vec<(usize, W, bool)>,
}

/// A graph addressed by node index: nodes are numbered inputs first, then
/// hidden nodes, then outputs.
pub struct NeatOriginalNetwork<A, W> {
    pub input_ids: Vec<usize>,
    pub output_ids: Vec<usize>,
    pub nodes: Vec<DependentNode<A, W>>,
}

/// The dependencies that `edges` give the node with id `id`, in edge order,
/// each source as its index among `all_ids`.
pub open spec fn dependencies<W>(edges: Seq<Edge<W>>, all_ids: Seq<usize>, id: usize, recurrent: bool) -> Seq<
    (usize, W, bool),
> {
    incoming(edges, id).map_values(|e: Edge<W>| (all_ids.index_of(e.start) as usize, e.weight, recurrent))
}

/// Every edge of `edges` starts and ends at an id of `all_ids`.
pub open spec fn endpoints_in<W>(edges: Seq<Edge<W>>, all_ids: Seq<usize>) -> bool {
    forall|k: int| 0 <= k < edges.len() ==> all_ids.contains(#[trigger] edges[k].start) && all_ids.contains(edges[k].end)
}

/// Builds the index-addressed form of a recurrent graph.
pub struct NeatOriginalFabricator;

/// The index-addressed builder under its earlier name.
pub type LoopingFabricator = NeatOriginalFabricator;

impl NeatOriginalFabricator {
    /// Numbers the nodes inputs first, then hidden, then outputs, and gives
    /// each node its ordinary dependencies followed by its recurrent ones.
    pub fn fabricate<A: Copy, W: Copy, R: Recurrent<A, W>>(net: &R) -> (r: NeatOriginalNetwork<A, W>)
        requires
            ids(all_nodes(net)).no_duplicates(),
            endpoints_in(net.edge_list(), ids(all_nodes(net))),
            endpoints_in(net.recurrent_edge_list(), ids(all_nodes(net))),
        ensures
            r.input_ids@ == Seq::new(net.input_nodes().len(), |i: int| i as usize),
            r.output_ids@ == Seq::new(
                net.output_nodes().len(),
                |i: int| (net.input_nodes().len() + net.hidden_nodes().len() + i) as usize,
            ),
            r.nodes@.len() == all_nodes(net).len(),
            forall|i: int|
                0 <= i < r.nodes@.len() ==> {
                    &&& (#[trigger] r.nodes@[i]).activation == all_nodes(net)[i].activation
                    &&& r.nodes@[i].inputs@ == dependencies(
                        net.edge_list(),
                        ids(all_nodes(net)),
                        all_nodes(net)[i].id,
                        false,
                    ) + dependencies(net.recurrent_edge_list(), ids(all_nodes(net)), all_nodes(net)[i].id, true)
                },
    {
        let mut all = net.inputs();
        let mut hidden = net.hidden();
        let mut outputs = net.outputs();
        let n_in = all.len();
        let n_hidden = hidden.len();
        let n_out = outputs.len();
        all.append(&mut hidden);
        all.append(&mut outputs);
        let all_ids = ids_of(&all);
        let edges = net.edges();
        let redges = net.recurrent_edges();
        let mut nodes: Vec<DependentNode<A, W>> = Vec::new();
        let mut i: usize = 0;
        while i < all.len()
            invariant
                i <= all@.len(),
                all@ == all_nodes(net),
                all_ids@ == ids(all@),
                all_ids@.no_duplicates(),
                edges@ == net.edge_list(),
                redges@ == net.recurrent_edge_list(),
                endpoints_in(edges@, all_ids@),
                endpoints_in(redges@, all_ids@),
                nodes@.len() == i,
                forall|j: int|
                    0 <= j < i ==> {
                        &&& (#[trigger] nodes@[j]).activation == all@[j].activation
                        &&& nodes@[j].inputs@ == dependencies(edges@, all_ids@, all@[j].id, false)
                            + dependencies(redges@, all_ids@, all@[j].id, true)
                    },
            decreases all@.len() - i,
        {
            let mut inputs: Vec<(usize, W, bool)> = Vec::new();
            append_dependencies(&mut inputs, &edges, &all_ids, all[i].id, false);
            append_dependencies(&mut inputs, &redges, &all_ids, all[i].id, true);
            nodes.push(DependentNode { activation: all[i].activation, inputs });
            i += 1;
        }
        let mut input_ids: Vec<usize> = Vec::new();
        let mut k: usize = 0;
        while k < n_in
            invariant
                k <= n_in,
                input_ids@ == Seq::new(k as nat, |i: int| i as usize),
            decreases n_in - k,
        {
            input_ids.push(k);
            k += 1;
            assert(input_ids@ =~= Seq::new(k as nat, |i: int| i as usize));
        }
        let total = all.len();
        assert(total == n_in + n_hidden + n_out);
        let mut output_ids: Vec<usize> = Vec::new();
        let mut k: usize = 0;
        while k < n_out
            invariant
                k <= n_out,
                n_in + n_hidden + n_out == total,
                output_ids@ == Seq::new(k as nat, |i: int| (n_in + n_hidden + i) as usize),
            decreases n_out - k,
        {
            output_ids.push(n_in + n_hidden + k);
            k += 1;
            assert(output_ids@ =~= Seq::new(k as nat, |i: int| (n_in + n_hidden + i) as usize));
        }
        NeatOriginalNetwork { input_ids, output_ids, nodes }
    }
}

/// Appends to `deps` the dependencies that `edges` give node `id`.
fn append_dependencies<W: Copy>(
    deps: &mut Vec<(usize, W, bool)>,
    edges: &Vec<Edge<W>>,
    all_ids: &Vec<usize>,
    id: usize,
    recurrent: bool,
)
    requires
        all_ids@.no_duplicates(),
        endpoints_in(edges@, all_ids@),
    ensures
        final(deps)@ == old(deps)@ + dependencies(edges@, all_ids@, id, recurrent),
{
    let ghost start = deps@;
    let mut k: usize = 0;
    while k < edges.len()
        invariant
            k <= edges@.len(),
            all_ids@.no_duplicates(),
            endpoints_in(edges@, all_ids@),
            deps@ == start + dependencies(edges@.subrange(0, k as int), all_ids@, id, recurrent),
        decreases edges@.len() - k,
    {
        let ghost pre = edges@.subrange(0, k as int);
        assert(edges@.subrange(0, k + 1).drop_last() =~= pre);
        if edges[k].end == id {
            let s = edges[k].start;
            assert(all_ids@.contains(edges@[k as int].start));
            let p = position(all_ids, s).unwrap();
            proof {
                let q = all_ids@.index_of(s);
                assert(all_ids@[q] == s);
                assert(p as int == q);
            }
            deps.push((p, edges[k].weight, recurrent));
            proof {
                let post = edges@.subrange(0, k + 1);
                assert(incoming(post, id) == incoming(pre, id).push(edges@[k as int]));
                assert(deps@ =~= start + dependencies(post, all_ids@, id, recurrent));
            }
        } else {
            proof {
                let post = edges@.subrange(0, k + 1);
                assert(incoming(post, id) == incoming(pre, id));
            }
        }
        k += 1;
    }
    assert(edges@.subrange(0, k as int) =~= edges@);
}

} // verus!
