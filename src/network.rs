//! Graph vocabulary: nodes, edges, the read-only capabilities a graph offers,
//! and a reference graph type.

use vstd::prelude::*;

verus! {

/// A node: an identity and the activation applied to its summed input.
pub struct Node<A> {
    pub id: usize,
    pub activation: A,
}

impl<A> Node<A> {
    pub fn new(id: usize, activation: A) -> (r: Self)
        ensures
            r.id == id,
            r.activation == activation,
    {
        Node { id, activation }
    }
}

/// A directed edge from `start` to `end` carrying `weight`.
pub struct Edge<W> {
    pub start: usize,
    pub end: usize,
    pub weight: W,
}

impl<W> Edge<W> {
    pub fn new(start: usize, end: usize, weight: W) -> (r: Self)
        ensures
            r.start == start,
            r.end == end,
            r.weight == weight,
    {
        Edge { start, end, weight }
    }
}

/// Copies the nodes at positions `lo .. hi` of `s`.
pub fn copy_nodes<A: Copy>(s: &Vec<Node<A>>, lo: usize, hi: usize) -> (r: Vec<Node<A>>)
    requires
        lo <= hi <= s@.len(),
    ensures
        r@ == s@.subrange(lo as int, hi as int),
{
    let mut r: Vec<Node<A>> = Vec::new();
    let mut i: usize = lo;
    while i < hi
        invariant
            lo <= i <= hi <= s@.len(),
            r@ == s@.subrange(lo as int, i as int),
        decreases hi - i,
    {
        r.push(Node { id: s[i].id, activation: s[i].activation });
        i += 1;
        assert(r@ =~= s@.subrange(lo as int, i as int));
    }
    r
}

/// Copies an edge list element by element.
pub fn copy_edges<W: Copy>(s: &Vec<Edge<W>>) -> (r: Vec<Edge<W>>)
    ensures
        r@ == s@,
{
    let mut r: Vec<Edge<W>> = Vec::new();
    let mut i: usize = 0;
    while i < s.len()
        invariant
            i <= s@.len(),
            r@ == s@.subrange(0, i as int),
        decreases s@.len() - i,
    {
        r.push(Edge { start: s[i].start, end: s[i].end, weight: s[i].weight });
        i += 1;
        assert(r@ =~= s@.subrange(0, i as int));
    }
    assert(r@ =~= s@);
    r
}

/// The read-only capabilities that the fabricators need from a graph: its
/// nodes partitioned into inputs, hidden nodes and outputs, and its ordinary
/// edges.
pub trait NetworkLike<A, W> {
    spec fn input_nodes(&self) -> Seq<Node<A>>;

    spec fn hidden_nodes(&self) -> Seq<Node<A>>;

    spec fn output_nodes(&self) -> Seq<Node<A>>;

    spec fn edge_list(&self) -> Seq<Edge<W>>;

    fn inputs(&self) -> (r: Vec<Node<A>>)
        ensures
            r@ == self.input_nodes(),
    ;

    fn hidden(&self) -> (r: Vec<Node<A>>)
        ensures
            r@ == self.hidden_nodes(),
    ;

    fn outputs(&self) -> (r: Vec<Node<A>>)
        ensures
            r@ == self.output_nodes(),
    ;

    fn edges(&self) -> (r: Vec<Edge<W>>)
        ensures
            r@ == self.edge_list(),
    ;
}

/// A graph that also has recurrent edges, read one evaluation step late.
pub trait Recurrent<A, W>: NetworkLike<A, W> {
    spec fn recurrent_edge_list(&self) -> Seq<Edge<W>>;

    fn recurrent_edges(&self) -> (r: Vec<Edge<W>>)
        ensures
            r@ == self.recurrent_edge_list(),
    ;
}

/// All nodes of a graph: inputs, then hidden nodes, then outputs.
pub open spec fn all_nodes<A, W, N: NetworkLike<A, W>>(net: &N) -> Seq<Node<A>> {
    net.input_nodes() + net.hidden_nodes() + net.output_nodes()
}

/// Whether some node of `nodes` has identity `id`.
pub open spec fn declares<A>(nodes: Seq<Node<A>>, id: usize) -> bool {
    exists|i: int| 0 <= i < nodes.len() && #[trigger] nodes[i].id == id
}

/// The ids of a node sequence, in order.
pub open spec fn ids<A>(nodes: Seq<Node<A>>) -> Seq<usize> {
    nodes.map_values(|n: Node<A>| n.id)
}

/// The ids of `nodes`, in order.
pub fn ids_of<A>(nodes: &Vec<Node<A>>) -> (r: Vec<usize>)
    ensures
        r@ == ids(nodes@),
{
    let mut r: Vec<usize> = Vec::new();
    let mut i: usize = 0;
    while i < nodes.len()
        invariant
            i <= nodes@.len(),
            r@ == ids(nodes@.subrange(0, i as int)),
        decreases nodes@.len() - i,
    {
        r.push(nodes[i].id);
        i += 1;
        assert(r@ =~= ids(nodes@.subrange(0, i as int)));
    }
    assert(nodes@.subrange(0, i as int) =~= nodes@);
    r
}

/// A reference graph: `nodes` holds the inputs first, then the hidden nodes,
/// then the outputs.
pub struct Net<A, W> {
    inputs: usize,
    outputs: usize,
    nodes: Vec<Node<A>>,
    edges: Vec<Edge<W>>,
    recurrent_edges: Vec<Edge<W>>,
}

impl<A, W> Net<A, W> {
    #[verifier::type_invariant]
    closed spec fn partitioned(self) -> bool {
        self.inputs + self.outputs <= self.nodes@.len()
    }

    /// A graph with `inputs` leading input nodes, `outputs` trailing output
    /// nodes, and no recurrent edges.
    pub fn new(inputs: usize, outputs: usize, nodes: Vec<Node<A>>, edges: Vec<Edge<W>>) -> (r: Self)
        requires
            inputs + outputs <= nodes@.len(),
        ensures
            r.input_nodes() == nodes@.subrange(0, inputs as int),
            r.hidden_nodes() == nodes@.subrange(inputs as int, nodes@.len() - outputs),
            r.output_nodes() == nodes@.subrange(nodes@.len() - outputs, nodes@.len() as int),
            r.edge_list() == edges@,
            r.recurrent_edge_list() == Seq::<Edge<W>>::empty(),
    {
        Net { inputs, outputs, nodes, edges, recurrent_edges: Vec::new() }
    }

    pub fn set_recurrent_edges(&mut self, edges: Vec<Edge<W>>)
        ensures
            final(self).input_nodes() == old(self).input_nodes(),
            final(self).hidden_nodes() == old(self).hidden_nodes(),
            final(self).output_nodes() == old(self).output_nodes(),
            final(self).edge_list() == old(self).edge_list(),
            final(self).recurrent_edge_list() == edges@,
    {
        proof {
            use_type_invariant(&*self);
        }
        self.recurrent_edges = edges;
    }

    pub closed spec fn input_nodes(&self) -> Seq<Node<A>> {
        self.nodes@.subrange(0, self.inputs as int)
    }

    pub closed spec fn hidden_nodes(&self) -> Seq<Node<A>> {
        self.nodes@.subrange(self.inputs as int, self.nodes@.len() - self.outputs)
    }

    pub closed spec fn output_nodes(&self) -> Seq<Node<A>> {
        self.nodes@.subrange(self.nodes@.len() - self.outputs, self.nodes@.len() as int)
    }

    pub closed spec fn edge_list(&self) -> Seq<Edge<W>> {
        self.edges@
    }

    pub closed spec fn recurrent_edge_list(&self) -> Seq<Edge<W>> {
        self.recurrent_edges@
    }
}

impl<A: Copy, W: Copy> NetworkLike<A, W> for Net<A, W> {
    open spec fn input_nodes(&self) -> Seq<Node<A>> {
        Net::input_nodes(self)
    }

    open spec fn hidden_nodes(&self) -> Seq<Node<A>> {
        Net::hidden_nodes(self)
    }

    open spec fn output_nodes(&self) -> Seq<Node<A>> {
        Net::output_nodes(self)
    }

    open spec fn edge_list(&self) -> Seq<Edge<W>> {
        Net::edge_list(self)
    }

    fn inputs(&self) -> (r: Vec<Node<A>>) {
        proof {
            use_type_invariant(self);
        }
        copy_nodes(&self.nodes, 0, self.inputs)
    }

    fn hidden(&self) -> (r: Vec<Node<A>>) {
        proof {
            use_type_invariant(self);
        }
        copy_nodes(&self.nodes, self.inputs, self.nodes.len() - self.outputs)
    }

    fn outputs(&self) -> (r: Vec<Node<A>>) {
        proof {
            use_type_invariant(self);
        }
        copy_nodes(&self.nodes, self.nodes.len() - self.outputs, self.nodes.len())
    }

    fn edges(&self) -> (r: Vec<Edge<W>>) {
        copy_edges(&self.edges)
    }
}

impl<A: Copy, W: Copy> Recurrent<A, W> for Net<A, W> {
    open spec fn recurrent_edge_list(&self) -> Seq<Edge<W>> {
        Net::recurrent_edge_list(self)
    }

    fn recurrent_edges(&self) -> (r: Vec<Edge<W>>) {
        copy_edges(&self.recurrent_edges)
    }
}

} // verus!
