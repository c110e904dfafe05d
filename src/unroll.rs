//! Rewrites a recurrent graph into a feedforward one whose extra inputs and
//! outputs carry the memory from one evaluation step to the next.

use vstd::prelude::*;
use crate::fabricator::position;
use crate::network::{all_nodes, ids, ids_of, Edge, Net, NetworkLike, Node, Recurrent};

verus! {

/// Every `x` below `n` in a finite set makes the set at least `n` large.
proof fn lemma_range_card(s: Set<usize>, n: nat)
    requires
        s.finite(),
        n <= usize::MAX as nat + 1,
        forall|x: usize| (x as nat) < n ==> s.contains(x),
    ensures
        n <= s.len(),
    decreases n,
{
    if n > 0 {
        let top = (n - 1) as usize;
        assert(s.contains(top));
        let rest = s.remove(top);
        assert forall|x: usize| (x as nat) < (n - 1) as nat implies rest.contains(x) by {
            assert(s.contains(x));
            assert(x != top);
        }
        lemma_range_card(rest, (n - 1) as nat);
    }
}

/// Identities that a graph does not use, handed out in increasing order,
/// lowest first.
struct FreshIds {
    known: Vec<usize>,
    next: usize,
    issued: Ghost<Seq<usize>>,
}

impl FreshIds {
    spec fn wf(&self) -> bool {
        &&& forall|x: usize| x < self.next ==> self.known@.contains(x) || self.issued@.contains(x)
        &&& forall|i: int|
            0 <= i < self.issued@.len() ==> #[trigger] self.issued@[i] < self.next
                && !self.known@.contains(self.issued@[i])
    }

    fn new(known: Vec<usize>) -> (r: Self)
        ensures
            r.wf(),
            r.known@ == known@,
            r.issued@ == Seq::<usize>::empty(),
            r.next == 0,
    {
        FreshIds { known, next: 0, issued: Ghost(Seq::empty()) }
    }

    proof fn lemma_bound(&self, n: nat)
        requires
            n <= usize::MAX as nat + 1,
            forall|x: usize| (x as nat) < n ==> self.known@.contains(x) || self.issued@.contains(x),
        ensures
            n <= self.known@.len() + self.issued@.len(),
    {
        let ks = self.known@.to_set();
        let is = self.issued@.to_set();
        let both = ks.union(is);
        assert forall|x: usize| (x as nat) < n implies both.contains(x) by {
            if self.known@.contains(x) {
                assert(ks.contains(x));
            } else {
                assert(is.contains(x));
            }
        }
        self.known@.lemma_cardinality_of_set();
        self.issued@.lemma_cardinality_of_set();
        vstd::set_lib::lemma_len_union(ks, is);
        lemma_range_card(both, n);
    }

    /// The lowest identity at or above `next` that the graph does not use.
    fn take(&mut self) -> (f: usize)
        requires
            old(self).wf(),
            old(self).known@.len() + old(self).issued@.len() < usize::MAX,
        ensures
            final(self).wf(),
            final(self).known@ == old(self).known@,
            final(self).issued@ == old(self).issued@.push(f),
            old(self).next <= f < final(self).next,
            !old(self).known@.contains(f),
    {
        while position(&self.known, self.next).is_some()
            invariant
                self.wf(),
                self.known@ == old(self).known@,
                self.issued@ == old(self).issued@,
                old(self).next <= self.next,
                self.known@.len() + self.issued@.len() < usize::MAX,
            decreases usize::MAX - self.next,
        {
            proof {
                assert(self.known@.contains(self.next));
                self.lemma_bound(self.next as nat + 1);
            }
            self.next = self.next + 1;
        }
        let f = self.next;
        proof {
            self.lemma_bound(f as nat);
        }
        let ghost before = self.issued@;
        self.issued = Ghost(self.issued@.push(f));
        self.next = f + 1;
        proof {
            assert(self.issued@[self.issued@.len() - 1] == f);
            assert forall|x: usize| x < self.next implies self.known@.contains(x) || self.issued@.contains(x) by {
                if x < f {
                    if before.contains(x) {
                        let i = choose|i: int| 0 <= i < before.len() && before[i] == x;
                        assert(self.issued@[i] == x);
                    }
                }
            }
            assert forall|i: int| 0 <= i < self.issued@.len() implies #[trigger] self.issued@[i] < self.next
                && !self.known@.contains(self.issued@[i]) by {
                if i < before.len() {
                    assert(self.issued@[i] == before[i]);
                }
            }
        }
        f
    }
}

/// `x` under the renaming that gives the `i`-th input `new_in[i]` and the
/// `j`-th output `new_out[j]`; other ids stay.
pub open spec fn rename(
    x: usize,
    old_in: Seq<usize>,
    new_in: Seq<usize>,
    old_out: Seq<usize>,
    new_out: Seq<usize>,
) -> usize {
    if old_in.contains(x) {
        new_in[old_in.index_of(x)]
    } else if old_out.contains(x) {
        new_out[old_out.index_of(x)]
    } else {
        x
    }
}

/// An edge with both endpoints renamed.
pub open spec fn rename_edge<W>(
    e: Edge<W>,
    old_in: Seq<usize>,
    new_in: Seq<usize>,
    old_out: Seq<usize>,
    new_out: Seq<usize>,
) -> Edge<W> {
    Edge {
        start: rename(e.start, old_in, new_in, old_out, new_out),
        end: rename(e.end, old_in, new_in, old_out, new_out),
        weight: e.weight,
    }
}

/// The renamed starts of `edges`, in order.
pub open spec fn renamed_starts<W>(
    edges: Seq<Edge<W>>,
    old_in: Seq<usize>,
    new_in: Seq<usize>,
    old_out: Seq<usize>,
    new_out: Seq<usize>,
) -> Seq<usize> {
    edges.map_values(|e: Edge<W>| rename(e.start, old_in, new_in, old_out, new_out))
}

/// The values of `s` that are not in `base`, each once, in order of first
/// appearance.
pub open spec fn new_values(s: Seq<usize>, base: Seq<usize>) -> Seq<usize>
    decreases s.len(),
{
    if s.len() == 0 {
        Seq::empty()
    } else {
        let before = new_values(s.drop_last(), base);
        if base.contains(s.last()) || before.contains(s.last()) {
            before
        } else {
            before.push(s.last())
        }
    }
}

/// Strictly increasing.
pub open spec fn increasing(s: Seq<usize>) -> bool {
    forall|i: int, j: int| 0 <= i < j < s.len() ==> s[i] < s[j]
}

/// `r` is `rec` unrolled: see [`unroll`].
pub open spec fn unrolls<A, W, R: Recurrent<A, W>>(rec: &R, r: &Net<A, W>, identity: A, unit: W) -> bool {
    let old_in = ids(rec.input_nodes());
    let old_out = ids(rec.output_nodes());
    let ri = r.input_nodes();
    let ro = r.output_nodes();
    let ni = rec.input_nodes().len();
    let no = rec.output_nodes().len();
    let new_in = ids(ri).subrange(0, ni as int);
    let new_out = ids(ro).subrange(0, no as int);
    let sources = new_values(
        renamed_starts(rec.recurrent_edge_list(), old_in, new_in, old_out, new_out),
        new_out,
    );
    let keys = new_out + sources;
    let slots = ids(ri).subrange(ni as int, ri.len() as int);
    let ne = rec.edge_list().len();
    let edges = r.edge_list();
    &&& r.hidden_nodes() == rec.hidden_nodes()
    &&& r.recurrent_edge_list().len() == 0
    &&& ri.len() == ni + no + sources.len()
    &&& ro.len() == no + sources.len()
    &&& forall|j: int| 0 <= j < ni ==> (#[trigger] ri[j]).activation == rec.input_nodes()[j].activation
    &&& forall|j: int| ni <= j < ri.len() ==> (#[trigger] ri[j]).activation == identity
    &&& forall|j: int| 0 <= j < no ==> (#[trigger] ro[j]).activation == rec.output_nodes()[j].activation
    &&& forall|j: int| no <= j < ro.len() ==> (#[trigger] ro[j]).activation == identity
    &&& increasing(ids(ri))
    &&& increasing(ids(ro))
    &&& forall|i: int, j: int| 0 <= i < ri.len() && 0 <= j < ro.len() ==> (#[trigger] ri[i]).id != (#[trigger] ro[j]).id
    &&& forall|i: int| 0 <= i < ri.len() ==> !ids(all_nodes(rec)).contains((#[trigger] ri[i]).id)
    &&& forall|i: int| 0 <= i < ro.len() ==> !ids(all_nodes(rec)).contains((#[trigger] ro[i]).id)
    &&& edges.len() == ne + rec.recurrent_edge_list().len() + sources.len()
    &&& forall|k: int|
        0 <= k < ne ==> edges[k] == rename_edge(#[trigger] rec.edge_list()[k], old_in, new_in, old_out, new_out)
    &&& forall|k: int|
        0 <= k < rec.recurrent_edge_list().len() ==> exists|m: int, j: int|
            0 <= m < keys.len() && keys[m] == rename(
                (#[trigger] rec.recurrent_edge_list()[k]).start,
                old_in,
                new_in,
                old_out,
                new_out,
            ) && 0 <= j < edges.len() && edges[j] == (Edge {
                start: slots[m],
                end: rename(rec.recurrent_edge_list()[k].end, old_in, new_in, old_out, new_out),
                weight: rec.recurrent_edge_list()[k].weight,
            })
    &&& forall|m: int|
        0 <= m < sources.len() ==> exists|j: int|
            0 <= j < edges.len() && edges[j] == (Edge { start: #[trigger] sources[m], end: ro[no + m].id, weight: unit })
    &&& forall|j: int|
        ne <= j < edges.len() ==> (exists|k: int, m: int|
            0 <= k < rec.recurrent_edge_list().len() && 0 <= m < keys.len() && keys[m] == rename(
                rec.recurrent_edge_list()[k].start,
                old_in,
                new_in,
                old_out,
                new_out,
            ) && #[trigger] edges[j] == (Edge {
                start: slots[m],
                end: rename(rec.recurrent_edge_list()[k].end, old_in, new_in, old_out, new_out),
                weight: rec.recurrent_edge_list()[k].weight,
            })) || (exists|m: int|
            0 <= m < sources.len() && edges[j] == (Edge { start: sources[m], end: ro[no + m].id, weight: unit }))
}

/// `x` renamed: see [`rename`].
fn rename_id(
    old_in: &Vec<usize>,
    new_in: &Vec<usize>,
    old_out: &Vec<usize>,
    new_out: &Vec<usize>,
    x: usize,
) -> (r: usize)
    requires
        old_in@.len() == new_in@.len(),
        old_out@.len() == new_out@.len(),
        old_in@.no_duplicates(),
        old_out@.no_duplicates(),
    ensures
        r == rename(x, old_in@, new_in@, old_out@, new_out@),
{
    match position(old_in, x) {
        Some(p) => {
            proof {
                let i = old_in@.index_of(x);
                assert(old_in@[p as int] == x);
                assert(old_in@[i] == x);
            }
            new_in[p]
        },
        None => match position(old_out, x) {
            Some(p) => {
                proof {
                    let i = old_out@.index_of(x);
                    assert(old_out@[p as int] == x);
                    assert(old_out@[i] == x);
                }
                new_out[p]
            },
            None => x,
        },
    }
}

/// Node ids handed out in increasing order, each below `next` and none in
/// `known`.
spec fn issued_ok<A>(s: Seq<Node<A>>, next: usize, known: Seq<usize>) -> bool {
    &&& increasing(ids(s))
    &&& forall|i: int| 0 <= i < s.len() ==> (#[trigger] s[i]).id < next && !known.contains(s[i].id)
}

proof fn lemma_issue<A>(s: Seq<Node<A>>, n: Node<A>, next: usize, later: usize, known: Seq<usize>)
    requires
        issued_ok(s, next, known),
        next <= n.id < later,
        !known.contains(n.id),
    ensures
        issued_ok(s.push(n), later, known),
{
    assert(ids(s.push(n)) =~= ids(s).push(n.id));
    assert forall|i: int| 0 <= i < s.push(n).len() implies (#[trigger] s.push(n)[i]).id < later
        && !known.contains(s.push(n)[i].id) by {
        if i < s.len() {
            assert(s.push(n)[i] == s[i]);
        }
    }
}

proof fn lemma_issue_later<A>(s: Seq<Node<A>>, next: usize, later: usize, known: Seq<usize>)
    requires
        issued_ok(s, next, known),
        next <= later,
    ensures
        issued_ok(s, later, known),
{
}

proof fn lemma_ids_no_dup<A>(i: Seq<Node<A>>, h: Seq<Node<A>>, o: Seq<Node<A>>)
    requires
        ids(i + h + o).no_duplicates(),
    ensures
        ids(i).no_duplicates(),
        ids(o).no_duplicates(),
        ids(i + h + o) == ids(i) + ids(h) + ids(o),
{
    assert(ids(i + h + o) =~= ids(i) + ids(h) + ids(o));
    let all = ids(i + h + o);
    assert forall|a: int, b: int| 0 <= a < ids(i).len() && 0 <= b < ids(i).len() && a != b implies ids(i)[a]
        != ids(i)[b] by {
        assert(all[a] == ids(i)[a]);
        assert(all[b] == ids(i)[b]);
    }
    let off = i.len() + h.len();
    assert forall|a: int, b: int| 0 <= a < ids(o).len() && 0 <= b < ids(o).len() && a != b implies ids(o)[a]
        != ids(o)[b] by {
        assert(all[off + a] == ids(o)[a]);
        assert(all[off + b] == ids(o)[b]);
    }
}

/// Rewrites a recurrent graph into a feedforward one.
///
/// Fresh ids, the lowest ones the graph does not use, go in this order to:
/// the inputs, the outputs, one memory input per output, and for each
/// recurrent edge whose (renamed) start is not yet remembered, a memory input
/// and a memory output. Every ordinary edge is kept with renamed endpoints;
/// each new memory output receives its source through an edge of weight
/// `unit`; each recurrent edge becomes an ordinary edge from the memory input
/// of its start. The result has inputs = renamed inputs, then memory inputs;
/// the same hidden nodes; outputs = renamed outputs, then memory outputs.
/// Memory inputs and outputs have activation `identity`.
pub fn unroll<A: Copy, W: Copy, R: Recurrent<A, W>>(recurrent: &R, identity: A, unit: W) -> (r: Net<A, W>)
    requires
        ids(all_nodes(recurrent)).no_duplicates(),
        all_nodes(recurrent).len() + recurrent.input_nodes().len() + 2 * recurrent.output_nodes().len() + 2
            * recurrent.recurrent_edge_list().len() < usize::MAX,
    ensures
        unrolls(recurrent, &r, identity, unit),
{
    let inputs = recurrent.inputs();
    let hidden = recurrent.hidden();
    let outputs = recurrent.outputs();
    let edges = recurrent.edges();
    let redges = recurrent.recurrent_edges();
    let mut all = recurrent.inputs();
    let mut h2 = recurrent.hidden();
    let mut o2 = recurrent.outputs();
    all.append(&mut h2);
    all.append(&mut o2);
    let known = ids_of(&all);
    let old_in = ids_of(&inputs);
    let old_out = ids_of(&outputs);
    proof {
        lemma_ids_no_dup(inputs@, hidden@, outputs@);
    }
    let ghost kn = known@;
    let ghost budget = all@.len() + inputs@.len() + 2 * outputs@.len() + 2 * redges@.len();
    let mut fresh = FreshIds::new(known);
    let mut new_inputs: Vec<Node<A>> = Vec::new();
    let mut new_in: Vec<usize> = Vec::new();
    let mut i: usize = 0;
    while i < inputs.len()
        invariant
            i <= inputs@.len(),
            fresh.wf(),
            fresh.known@ == kn,
            kn.len() == all@.len(),
            budget == all@.len() + inputs@.len() + 2 * outputs@.len() + 2 * redges@.len(),
            budget < usize::MAX,
            fresh.issued@.len() == i,
            new_in@ == ids(new_inputs@),
            new_inputs@.len() == i,
            forall|j: int| 0 <= j < i ==> (#[trigger] new_inputs@[j]).activation == inputs@[j].activation,
            issued_ok(new_inputs@, fresh.next, kn),
        decreases inputs@.len() - i,
    {
        let ghost next0 = fresh.next;
        let f = fresh.take();
        let n = Node { id: f, activation: inputs[i].activation };
        proof {
            lemma_issue(new_inputs@, n, next0, fresh.next, kn);
        }
        new_inputs.push(n);
        new_in.push(f);
        assert(new_in@ =~= ids(new_inputs@));
        i += 1;
    }
    let mut new_outputs: Vec<Node<A>> = Vec::new();
    let mut new_out: Vec<usize> = Vec::new();
    let mut i: usize = 0;
    while i < outputs.len()
        invariant
            i <= outputs@.len(),
            fresh.wf(),
            fresh.known@ == kn,
            kn.len() == all@.len(),
            budget == all@.len() + inputs@.len() + 2 * outputs@.len() + 2 * redges@.len(),
            budget < usize::MAX,
            fresh.issued@.len() == inputs@.len() + i,
            new_in@ == ids(new_inputs@),
            new_inputs@.len() == inputs@.len(),
            forall|j: int| 0 <= j < inputs@.len() ==> (#[trigger] new_inputs@[j]).activation == inputs@[j].activation,
            issued_ok(new_inputs@, fresh.next, kn),
            new_out@ == ids(new_outputs@),
            new_outputs@.len() == i,
            forall|j: int| 0 <= j < i ==> (#[trigger] new_outputs@[j]).activation == outputs@[j].activation,
            issued_ok(new_outputs@, fresh.next, kn),
            forall|a: int, b: int|
                0 <= a < new_inputs@.len() && 0 <= b < new_outputs@.len() ==> (#[trigger] new_inputs@[a]).id
                    < (#[trigger] new_outputs@[b]).id,
        decreases outputs@.len() - i,
    {
        let ghost next0 = fresh.next;
        let f = fresh.take();
        let n = Node { id: f, activation: outputs[i].activation };
        proof {
            lemma_issue(new_outputs@, n, next0, fresh.next, kn);
            lemma_issue_later(new_inputs@, next0, fresh.next, kn);
        }
        new_outputs.push(n);
        new_out.push(f);
        assert(new_out@ =~= ids(new_outputs@));
        i += 1;
    }
    let mut new_edges: Vec<Edge<W>> = Vec::new();
    let mut k: usize = 0;
    while k < edges.len()
        invariant
            k <= edges@.len(),
            new_edges@.len() == k,
            new_in@.len() == inputs@.len(),
            new_out@.len() == outputs@.len(),
            forall|j: int| 0 <= j < inputs@.len() ==> (#[trigger] new_inputs@[j]).id == new_in@[j],
            forall|j: int| 0 <= j < outputs@.len() ==> (#[trigger] new_outputs@[j]).id == new_out@[j],
            forall|j: int| 0 <= j < inputs@.len() ==> (#[trigger] new_inputs@[j]).activation == inputs@[j].activation,
            forall|j: int| inputs@.len() <= j < new_inputs@.len() ==> (#[trigger] new_inputs@[j]).activation == identity,
            forall|j: int| 0 <= j < outputs@.len() ==> (#[trigger] new_outputs@[j]).activation == outputs@[j].activation,
            forall|j: int| outputs@.len() <= j < new_outputs@.len() ==> (#[trigger] new_outputs@[j]).activation == identity,
            issued_ok(new_inputs@, fresh.next, kn),
            issued_ok(new_outputs@, fresh.next, kn),
            forall|a: int, b: int|
                0 <= a < new_inputs@.len() && 0 <= b < new_outputs@.len() ==> (#[trigger] new_inputs@[a]).id
                    != (#[trigger] new_outputs@[b]).id,
            fresh.wf(),
            fresh.known@ == kn,
            kn.len() == all@.len(),
            budget == all@.len() + inputs@.len() + 2 * outputs@.len() + 2 * redges@.len(),
            budget < usize::MAX,
            old_in@.len() == inputs@.len(),
            old_out@.len() == outputs@.len(),
            old_in@.no_duplicates(),
            old_out@.no_duplicates(),
            fresh.issued@.len() == inputs@.len() + outputs@.len(),
            new_inputs@.len() == inputs@.len(),
            new_outputs@.len() == outputs@.len(),
            forall|m: int|
                0 <= m < k ==> new_edges@[m] == rename_edge(#[trigger] edges@[m], old_in@, new_in@, old_out@, new_out@),
        decreases edges@.len() - k,
    {
        let e = Edge {
            start: rename_id(&old_in, &new_in, &old_out, &new_out, edges[k].start),
            end: rename_id(&old_in, &new_in, &old_out, &new_out, edges[k].end),
            weight: edges[k].weight,
        };
        new_edges.push(e);
        k += 1;
    }
    let mut keys: Vec<usize> = Vec::new();
    let mut slots: Vec<usize> = Vec::new();
    let mut j: usize = 0;
    while j < outputs.len()
        invariant
            j <= outputs@.len(),
            keys@ == new_out@.subrange(0, j as int),
            slots@ == ids(new_inputs@).subrange(inputs@.len() as int, new_inputs@.len() as int),
            new_inputs@.len() == inputs@.len() + j,
            new_outputs@.len() == outputs@.len(),
            fresh.issued@.len() == inputs@.len() + outputs@.len() + j,
            new_edges@.len() == edges@.len(),
            new_in@.len() == inputs@.len(),
            new_out@.len() == outputs@.len(),
            forall|j: int| 0 <= j < inputs@.len() ==> (#[trigger] new_inputs@[j]).id == new_in@[j],
            forall|j: int| 0 <= j < outputs@.len() ==> (#[trigger] new_outputs@[j]).id == new_out@[j],
            forall|j: int| 0 <= j < inputs@.len() ==> (#[trigger] new_inputs@[j]).activation == inputs@[j].activation,
            forall|j: int| inputs@.len() <= j < new_inputs@.len() ==> (#[trigger] new_inputs@[j]).activation == identity,
            forall|j: int| 0 <= j < outputs@.len() ==> (#[trigger] new_outputs@[j]).activation == outputs@[j].activation,
            forall|j: int| outputs@.len() <= j < new_outputs@.len() ==> (#[trigger] new_outputs@[j]).activation == identity,
            issued_ok(new_inputs@, fresh.next, kn),
            issued_ok(new_outputs@, fresh.next, kn),
            forall|a: int, b: int|
                0 <= a < new_inputs@.len() && 0 <= b < new_outputs@.len() ==> (#[trigger] new_inputs@[a]).id
                    != (#[trigger] new_outputs@[b]).id,
            fresh.wf(),
            fresh.known@ == kn,
            kn.len() == all@.len(),
            budget == all@.len() + inputs@.len() + 2 * outputs@.len() + 2 * redges@.len(),
            budget < usize::MAX,
            old_in@.len() == inputs@.len(),
            old_out@.len() == outputs@.len(),
            old_in@.no_duplicates(),
            old_out@.no_duplicates(),
            forall|m: int|
                0 <= m < edges@.len() ==> new_edges@[m] == rename_edge(#[trigger] edges@[m], old_in@, new_in@, old_out@, new_out@),
        decreases outputs@.len() - j,
    {
        let ghost next0 = fresh.next;
        let f = fresh.take();
        let n = Node { id: f, activation: identity };
        proof {
            lemma_issue(new_inputs@, n, next0, fresh.next, kn);
            lemma_issue_later(new_outputs@, next0, fresh.next, kn);
        }
        new_inputs.push(n);
        slots.push(f);
        keys.push(new_out[j]);
        proof {
            assert(ids(new_inputs@).subrange(inputs@.len() as int, new_inputs@.len() as int) =~= slots@);
            assert(keys@ =~= new_out@.subrange(0, j + 1));
        }
        j += 1;
    }
    let ghost rs = redges@.map_values(|e: Edge<W>| rename(e.start, old_in@, new_in@, old_out@, new_out@));
    proof {
        assert(keys@ =~= new_out@ + new_values(rs.subrange(0, 0), new_out@));
    }
    let mut k: usize = 0;
    while k < redges.len()
        invariant
            k <= redges@.len(),
            rs == redges@.map_values(|e: Edge<W>| rename(e.start, old_in@, new_in@, old_out@, new_out@)),
            keys@ == new_out@ + new_values(rs.subrange(0, k as int), new_out@),
            slots@ == ids(new_inputs@).subrange(inputs@.len() as int, new_inputs@.len() as int),
            slots@.len() == keys@.len(),
            new_inputs@.len() == inputs@.len() + keys@.len(),
            new_outputs@.len() == keys@.len(),
            keys@.len() <= outputs@.len() + k,
            fresh.issued@.len() == inputs@.len() + outputs@.len() + 2 * keys@.len() - outputs@.len(),
            new_edges@.len() == edges@.len() + k + keys@.len() - outputs@.len(),
            new_in@.len() == inputs@.len(),
            new_out@.len() == outputs@.len(),
            forall|j: int| 0 <= j < inputs@.len() ==> (#[trigger] new_inputs@[j]).id == new_in@[j],
            forall|j: int| 0 <= j < outputs@.len() ==> (#[trigger] new_outputs@[j]).id == new_out@[j],
            forall|j: int| 0 <= j < inputs@.len() ==> (#[trigger] new_inputs@[j]).activation == inputs@[j].activation,
            forall|j: int| inputs@.len() <= j < new_inputs@.len() ==> (#[trigger] new_inputs@[j]).activation == identity,
            forall|j: int| 0 <= j < outputs@.len() ==> (#[trigger] new_outputs@[j]).activation == outputs@[j].activation,
            forall|j: int| outputs@.len() <= j < new_outputs@.len() ==> (#[trigger] new_outputs@[j]).activation == identity,
            issued_ok(new_inputs@, fresh.next, kn),
            issued_ok(new_outputs@, fresh.next, kn),
            forall|a: int, b: int|
                0 <= a < new_inputs@.len() && 0 <= b < new_outputs@.len() ==> (#[trigger] new_inputs@[a]).id
                    != (#[trigger] new_outputs@[b]).id,
            fresh.wf(),
            fresh.known@ == kn,
            kn.len() == all@.len(),
            budget == all@.len() + inputs@.len() + 2 * outputs@.len() + 2 * redges@.len(),
            budget < usize::MAX,
            old_in@.len() == inputs@.len(),
            old_out@.len() == outputs@.len(),
            old_in@.no_duplicates(),
            old_out@.no_duplicates(),
            forall|m: int|
                0 <= m < edges@.len() ==> new_edges@[m] == rename_edge(#[trigger] edges@[m], old_in@, new_in@, old_out@, new_out@),
            forall|q: int|
                0 <= q < k ==> exists|m: int, j: int|
                    0 <= m < keys@.len() && keys@[m] == rename((#[trigger] redges@[q]).start, old_in@, new_in@, old_out@, new_out@)
                        && 0 <= j < new_edges@.len() && new_edges@[j] == (Edge {
                        start: slots@[m],
                        end: rename(redges@[q].end, old_in@, new_in@, old_out@, new_out@),
                        weight: redges@[q].weight,
                    }),
            forall|m: int|
                outputs@.len() <= m < keys@.len() ==> exists|j: int|
                    0 <= j < new_edges@.len() && new_edges@[j] == (Edge {
                        start: #[trigger] keys@[m],
                        end: new_outputs@[m].id,
                        weight: unit,
                    }),
            forall|j: int|
                edges@.len() <= j < new_edges@.len() ==> (exists|q: int, m: int|
                    0 <= q < k && 0 <= m < keys@.len() && keys@[m] == rename(redges@[q].start, old_in@, new_in@, old_out@, new_out@)
                        && #[trigger] new_edges@[j] == (Edge {
                        start: slots@[m],
                        end: rename(redges@[q].end, old_in@, new_in@, old_out@, new_out@),
                        weight: redges@[q].weight,
                    })) || (exists|m: int|
                    outputs@.len() <= m < keys@.len() && new_edges@[j] == (Edge {
                        start: keys@[m],
                        end: new_outputs@[m].id,
                        weight: unit,
                    })),
        decreases redges@.len() - k,
    {
        let u = rename_id(&old_in, &new_in, &old_out, &new_out, redges[k].start);
        let v = rename_id(&old_in, &new_in, &old_out, &new_out, redges[k].end);
        let ghost pre = rs.subrange(0, k as int);
        proof {
            assert(rs.subrange(0, k + 1).drop_last() =~= pre);
            assert(rs.subrange(0, k + 1).last() == u);
        }
        let ghost keys0 = keys@;
        let ghost edges0 = new_edges@;
        let ghost slots0 = slots@;
        let ghost new_outputs0 = new_outputs@;
        let m = match position(&keys, u) {
            Some(m) => {
                proof {
                    assert(keys@.contains(u));
                    if !new_out@.contains(u) {
                        assert(new_values(pre, new_out@).contains(u));
                    }
                    assert(keys@ =~= new_out@ + new_values(rs.subrange(0, k + 1), new_out@));
                }
                m
            },
            None => {
                let ghost next0 = fresh.next;
                let u_in = fresh.take();
                let ghost next1 = fresh.next;
                let u_out = fresh.take();
                let n_in = Node { id: u_in, activation: identity };
                let n_out = Node { id: u_out, activation: identity };
                proof {
                    lemma_issue(new_inputs@, n_in, next0, next1, kn);
                    lemma_issue_later(new_inputs@.push(n_in), next1, fresh.next, kn);
                    lemma_issue_later(new_outputs@, next0, next1, kn);
                    lemma_issue(new_outputs@, n_out, next1, fresh.next, kn);
                    assert(!new_out@.contains(u)) by {
                        if new_out@.contains(u) {
                            let t = choose|t: int| 0 <= t < new_out@.len() && new_out@[t] == u;
                            assert(keys@[t] == u);
                        }
                    }
                    assert(!new_values(pre, new_out@).contains(u)) by {
                        if new_values(pre, new_out@).contains(u) {
                            let t = choose|t: int| 0 <= t < new_values(pre, new_out@).len() && new_values(pre, new_out@)[t] == u;
                            assert(keys@[new_out@.len() + t] == u);
                        }
                    }
                }
                new_inputs.push(n_in);
                new_outputs.push(n_out);
                new_edges.push(Edge { start: u, end: u_out, weight: unit });
                keys.push(u);
                slots.push(u_in);
                proof {
                    assert(keys@ =~= new_out@ + new_values(rs.subrange(0, k + 1), new_out@));
                    assert(ids(new_inputs@).subrange(inputs@.len() as int, new_inputs@.len() as int) =~= slots@);
                    assert(new_edges@[new_edges@.len() - 1] == (Edge { start: keys@[keys@.len() - 1], end: new_outputs@[keys@.len() - 1].id, weight: unit }));
                    assert forall|m: int|
                        outputs@.len() <= m < keys@.len() implies exists|j: int|
                            0 <= j < new_edges@.len() && new_edges@[j] == (Edge {
                                start: #[trigger] keys@[m],
                                end: new_outputs@[m].id,
                                weight: unit,
                            }) by {
                        if m < keys0.len() {
                            let j = choose|j: int|
                                0 <= j < edges0.len() && edges0[j] == (Edge {
                                    start: keys0[m],
                                    end: new_outputs@[m].id,
                                    weight: unit,
                                });
                            assert(new_edges@[j] == edges0[j]);
                        } else {
                            assert(new_edges@[new_edges@.len() - 1] == (Edge { start: keys@[m], end: new_outputs@[m].id, weight: unit }));
                        }
                    }
                }
                proof {
                    assert forall|j: int|
                        edges@.len() <= j < new_edges@.len() implies (exists|q: int, m: int|
                            0 <= q < k && 0 <= m < keys@.len() && keys@[m] == rename(redges@[q].start, old_in@, new_in@, old_out@, new_out@)
                                && #[trigger] new_edges@[j] == (Edge {
                                start: slots@[m],
                                end: rename(redges@[q].end, old_in@, new_in@, old_out@, new_out@),
                                weight: redges@[q].weight,
                            })) || (exists|m: int|
                            outputs@.len() <= m < keys@.len() && new_edges@[j] == (Edge {
                                start: keys@[m],
                                end: new_outputs@[m].id,
                                weight: unit,
                            })) by {
                        if j < edges0.len() {
                            assert(new_edges@[j] == edges0[j]);
                            if exists|q: int, m: int|
                                0 <= q < k && 0 <= m < keys0.len() && keys0[m] == rename(redges@[q].start, old_in@, new_in@, old_out@, new_out@)
                                    && #[trigger] edges0[j] == (Edge {
                                    start: slots0[m],
                                    end: rename(redges@[q].end, old_in@, new_in@, old_out@, new_out@),
                                    weight: redges@[q].weight,
                                }) {
                                let (q, m) = choose|q: int, m: int|
                                    0 <= q < k && 0 <= m < keys0.len() && keys0[m] == rename(redges@[q].start, old_in@, new_in@, old_out@, new_out@)
                                        && #[trigger] edges0[j] == (Edge {
                                        start: slots0[m],
                                        end: rename(redges@[q].end, old_in@, new_in@, old_out@, new_out@),
                                        weight: redges@[q].weight,
                                    });
                                assert(keys@[m] == keys0[m]);
                                assert(slots@[m] == slots0[m]);
                            } else {
                                let m = choose|m: int|
                                    outputs@.len() <= m < keys0.len() && edges0[j] == (Edge {
                                        start: keys0[m],
                                        end: new_outputs0[m].id,
                                        weight: unit,
                                    });
                                assert(keys@[m] == keys0[m]);
                                assert(new_outputs@[m] == new_outputs0[m]);
                            }
                        } else {
                            assert(new_edges@[j] == (Edge { start: keys@[keys@.len() - 1], end: new_outputs@[keys@.len() - 1].id, weight: unit }));
                        }
                    }
                }
                keys.len() - 1
            },
        };
        let ghost keys1 = keys@;
        let ghost edges1 = new_edges@;
        let ghost slots1 = slots@;
        new_edges.push(Edge { start: slots[m], end: v, weight: redges[k].weight });
        proof {
            assert forall|q: int|
                0 <= q < k + 1 implies exists|m: int, j: int|
                    0 <= m < keys@.len() && keys@[m] == rename((#[trigger] redges@[q]).start, old_in@, new_in@, old_out@, new_out@)
                        && 0 <= j < new_edges@.len() && new_edges@[j] == (Edge {
                        start: slots@[m],
                        end: rename(redges@[q].end, old_in@, new_in@, old_out@, new_out@),
                        weight: redges@[q].weight,
                    }) by {
                if q < k {
                    let (m2, j2) = choose|m2: int, j2: int|
                        0 <= m2 < keys0.len() && keys0[m2] == rename(redges@[q].start, old_in@, new_in@, old_out@, new_out@)
                            && 0 <= j2 < edges0.len() && edges0[j2] == (Edge {
                            start: slots0[m2],
                            end: rename(redges@[q].end, old_in@, new_in@, old_out@, new_out@),
                            weight: redges@[q].weight,
                        });
                    assert(keys@[m2] == keys0[m2]);
                    assert(slots@[m2] == slots0[m2]);
                    assert(new_edges@[j2] == edges0[j2]);
                } else {
                    assert(rs[q] == u);
                    assert(new_edges@[new_edges@.len() - 1] == (Edge { start: slots@[m as int], end: v, weight: redges@[q].weight }));
                }
            }
            assert forall|m: int|
                outputs@.len() <= m < keys@.len() implies exists|j: int|
                    0 <= j < new_edges@.len() && new_edges@[j] == (Edge {
                        start: #[trigger] keys@[m],
                        end: new_outputs@[m].id,
                        weight: unit,
                    }) by {
                let j = choose|j: int|
                    0 <= j < edges1.len() && edges1[j] == (Edge {
                        start: keys@[m],
                        end: new_outputs@[m].id,
                        weight: unit,
                    });
                assert(new_edges@[j] == edges1[j]);
            }
            assert forall|j: int|
                edges@.len() <= j < new_edges@.len() implies (exists|q: int, m: int|
                    0 <= q < k + 1 && 0 <= m < keys@.len() && keys@[m] == rename(redges@[q].start, old_in@, new_in@, old_out@, new_out@)
                        && #[trigger] new_edges@[j] == (Edge {
                        start: slots@[m],
                        end: rename(redges@[q].end, old_in@, new_in@, old_out@, new_out@),
                        weight: redges@[q].weight,
                    })) || (exists|m: int|
                    outputs@.len() <= m < keys@.len() && new_edges@[j] == (Edge {
                        start: keys@[m],
                        end: new_outputs@[m].id,
                        weight: unit,
                    })) by {
                if j < edges1.len() {
                    assert(new_edges@[j] == edges1[j]);
                } else {
                    assert(rs[k as int] == u);
                    assert(keys@[m as int] == u);
                    assert(new_edges@[j] == (Edge { start: slots@[m as int], end: v, weight: redges@[k as int].weight }));
                }
            }
        }
        k += 1;
    }
    assert(rs.subrange(0, redges@.len() as int) =~= rs);
    let n_in = new_inputs.len();
    let n_out = new_outputs.len();
    let mut nodes = new_inputs;
    let mut mid = hidden;
    let mut tail = new_outputs;
    let ghost ni = nodes@;
    let ghost nh = mid@;
    let ghost nt = tail@;
    nodes.append(&mut mid);
    nodes.append(&mut tail);
    let r = Net::new(n_in, n_out, nodes, new_edges);
    proof {
        assert(r.input_nodes() =~= ni);
        assert(r.hidden_nodes() =~= nh);
        assert(r.output_nodes() =~= nt);
        assert(ids(ni).subrange(0, inputs@.len() as int) =~= new_in@);
        assert(ids(nt).subrange(0, outputs@.len() as int) =~= new_out@);
        assert(ids(all_nodes(recurrent)) == kn);
        let ri = r.input_nodes();
        let ro = r.output_nodes();
        let sources = new_values(renamed_starts(redges@, old_in@, new_in@, old_out@, new_out@), new_out@);
        assert(renamed_starts(redges@, old_in@, new_in@, old_out@, new_out@) == rs);
        assert(keys@ == new_out@ + sources);
        assert(ri.len() == inputs@.len() + outputs@.len() + sources.len());
        assert(ro.len() == outputs@.len() + sources.len());
        assert(increasing(ids(ri)));
        assert(increasing(ids(ro)));
        assert(r.edge_list().len() == edges@.len() + redges@.len() + sources.len());
        assert forall|i: int| 0 <= i < ri.len() implies !ids(all_nodes(recurrent)).contains((#[trigger] ri[i]).id) by {}
        assert forall|i: int| 0 <= i < ro.len() implies !ids(all_nodes(recurrent)).contains((#[trigger] ro[i]).id) by {}
        assert forall|m: int|
            0 <= m < sources.len() implies exists|j: int|
                0 <= j < r.edge_list().len() && r.edge_list()[j] == (Edge { start: #[trigger] sources[m], end: ro[outputs@.len() + m].id, weight: unit }) by {
            assert(sources[m] == keys@[outputs@.len() + m]);
        }
    }
    r
}

} // verus!
