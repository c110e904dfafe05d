//! Recurrent graphs: unrolling plus scheduling, and the memory that a
//! recurrent evaluator carries from one step to the next.

use vstd::prelude::*;
use crate::fabricator::{
    ends_declared, fabricated, FabricationError, FeedForwardMatrixFabricator,
    FeedForwardSparseMatrixFabricator,
};
use crate::network::{all_nodes, declares, ids, Edge, Net, NetworkLike, Recurrent};
use crate::schedule::{sparse_of, SparseStage, Stage};
use crate::unroll::{new_values, rename, renamed_starts, unroll, unrolls};

verus! {

/// Every ordinary and recurrent edge of `net` ends at a declared node.
pub open spec fn recurrent_ends_declared<A, W, R: Recurrent<A, W>>(net: &R) -> bool {
    &&& ends_declared(net)
    &&& forall|k: int|
        0 <= k < net.recurrent_edge_list().len() ==> declares(
            all_nodes(net),
            #[trigger] net.recurrent_edge_list()[k].end,
        )
}

/// What unrolling needs: unique node ids, and room below `usize::MAX` for
/// the fresh ones.
pub open spec fn unrollable<A, W, R: Recurrent<A, W>>(net: &R) -> bool {
    &&& ids(all_nodes(net)).no_duplicates()
    &&& all_nodes(net).len() + net.input_nodes().len() + 2 * net.output_nodes().len() + 2
        * net.recurrent_edge_list().len() < usize::MAX
}

/// A declared node stays declared under the unroll renaming.
proof fn lemma_rename_declared<A: Copy, W: Copy, R: Recurrent<A, W>>(rec: &R, u: &Net<A, W>, identity: A, unit: W, x: usize)
    requires
        unrolls(rec, u, identity, unit),
        ids(all_nodes(rec)).no_duplicates(),
        declares(all_nodes(rec), x),
    ensures
        declares(
            all_nodes(u),
            rename(
                x,
                ids(rec.input_nodes()),
                ids(u.input_nodes()).subrange(0, rec.input_nodes().len() as int),
                ids(rec.output_nodes()),
                ids(u.output_nodes()).subrange(0, rec.output_nodes().len() as int),
            ),
        ),
{
    let old_in = ids(rec.input_nodes());
    let old_out = ids(rec.output_nodes());
    let ri = u.input_nodes();
    let ro = u.output_nodes();
    let h = rec.hidden_nodes();
    let un = all_nodes(u);
    let ni = rec.input_nodes().len() as int;
    if old_in.contains(x) {
        let idx = old_in.index_of(x);
        assert(un[idx] == ri[idx]);
    } else if old_out.contains(x) {
        let idx = old_out.index_of(x);
        assert(un[ri.len() + h.len() + idx] == ro[idx]);
    } else {
        let all = all_nodes(rec);
        let i = choose|i: int| 0 <= i < all.len() && #[trigger] all[i].id == x;
        if i < ni {
            assert(old_in[i] == x);
        } else if i >= ni + h.len() {
            assert(old_out[i - ni - h.len()] == x);
        } else {
            assert(un[ri.len() + i - ni] == h[i - ni]);
        }
    }
}

/// The unrolled graph of a graph whose edges end at declared nodes has the
/// same property.
proof fn lemma_unrolled_ends_declared<A: Copy, W: Copy, R: Recurrent<A, W>>(rec: &R, u: &Net<A, W>, identity: A, unit: W)
    requires
        unrolls(rec, u, identity, unit),
        ids(all_nodes(rec)).no_duplicates(),
        recurrent_ends_declared(rec),
    ensures
        ends_declared(u),
{
    let ne = rec.edge_list().len() as int;
    let no = rec.output_nodes().len() as int;
    let edges = u.edge_list();
    let un = all_nodes(u);
    let ro = u.output_nodes();
    assert forall|j: int| 0 <= j < edges.len() implies declares(un, #[trigger] edges[j].end) by {
        if j < ne {
            lemma_rename_declared(rec, u, identity, unit, rec.edge_list()[j].end);
        } else {
            let re = rec.recurrent_edge_list();
            let old_in = ids(rec.input_nodes());
            let old_out = ids(rec.output_nodes());
            let new_in = ids(u.input_nodes()).subrange(0, rec.input_nodes().len() as int);
            let new_out = ids(ro).subrange(0, no);
            let sources = new_values(renamed_starts(re, old_in, new_in, old_out, new_out), new_out);
            let keys = new_out + sources;
            let slots = ids(u.input_nodes()).subrange(
                rec.input_nodes().len() as int,
                u.input_nodes().len() as int,
            );
            if exists|k: int, m: int|
                0 <= k < re.len() && 0 <= m < keys.len() && keys[m] == rename(
                    re[k].start,
                    old_in,
                    new_in,
                    old_out,
                    new_out,
                ) && #[trigger] edges[j] == (Edge {
                    start: slots[m],
                    end: rename(re[k].end, old_in, new_in, old_out, new_out),
                    weight: re[k].weight,
                }) {
                let (k, m) = choose|k: int, m: int|
                    0 <= k < re.len() && 0 <= m < keys.len() && keys[m] == rename(
                        re[k].start,
                        old_in,
                        new_in,
                        old_out,
                        new_out,
                    ) && #[trigger] edges[j] == (Edge {
                        start: slots[m],
                        end: rename(re[k].end, old_in, new_in, old_out, new_out),
                        weight: re[k].weight,
                    });
                lemma_rename_declared(rec, u, identity, unit, re[k].end);
            } else {
                let m = choose|m: int|
                    0 <= m < sources.len() && edges[j] == (Edge { start: sources[m], end: ro[no + m].id, weight: unit });
                assert(un[u.input_nodes().len() + u.hidden_nodes().len() + no + m] == ro[no + m]);
            }
        }
    }
}

/// A recurrent graph compiled: the stages of its unrolled graph, the size of
/// the memory, and how many leading values of each step's result go to the
/// caller.
pub struct RecurrentSchedule<S> {
    pub stages: Vec<S>,
    pub memory: usize,
    pub outputs: usize,
}

/// `r` compiles `net`: there is an unrolling `u` of `net` such that `stages`
/// schedule `u` (each in the form that `same` relates to a dense stage), or
/// the refusal is the one that scheduling `u` gives. The memory holds one
/// slot per output of `u`, which is also the number of inputs that `u` adds.
pub open spec fn compiles<A: Copy, W: Copy, R: Recurrent<A, W>, S>(
    net: &R,
    identity: A,
    unit: W,
    r: Result<RecurrentSchedule<S>, FabricationError>,
    same: spec_fn(S, Stage<A, W>) -> bool,
) -> bool {
    exists|u: Net<A, W>|
        #[trigger] unrolls(net, &u, identity, unit) && match r {
            Ok(s) => {
                &&& exists|dense: Vec<Stage<A, W>>|
                    {
                        &&& fabricated(&u, Ok(dense))
                        &&& s.stages@.len() == dense@.len()
                        &&& forall|i: int| 0 <= i < dense@.len() ==> same(#[trigger] s.stages@[i], dense@[i])
                    }
                &&& s.memory == u.output_nodes().len()
                &&& s.memory + net.input_nodes().len() == u.input_nodes().len()
                &&& s.outputs == net.output_nodes().len()
            },
            Err(e) => fabricated(&u, Err(e)),
        }
}

/// The recurrent dense scheduler: unrolls, then schedules densely.
pub struct RecurrentMatrixFabricator;

impl RecurrentMatrixFabricator {
    /// Unrolls `net` (memory nodes get activation `identity`, memory edges
    /// weight `unit`) and schedules the result.
    pub fn fabricate<A: Copy, W: Copy, R: Recurrent<A, W>>(net: &R, identity: A, unit: W) -> (r: Result<
        RecurrentSchedule<Stage<A, W>>,
        FabricationError,
    >)
        requires
            unrollable(net),
            recurrent_ends_declared(net),
        ensures
            compiles(net, identity, unit, r, |a: Stage<A, W>, b: Stage<A, W>| a == b),
    {
        let unrolled = unroll(net, identity, unit);
        proof {
            lemma_unrolled_ends_declared(net, &unrolled, identity, unit);
        }
        let result = FeedForwardMatrixFabricator::fabricate(&unrolled);
        match result {
            Err(e) => {
                assert(unrolls(net, &unrolled, identity, unit) && fabricated(&unrolled, Err(e)));
                Err(e)
            },
            Ok(stages) => {
                let memory = unrolled.outputs().len();
                let outputs = net.outputs().len();
                let s = RecurrentSchedule { stages, memory, outputs };
                proof {
                    assert(unrolls(net, &unrolled, identity, unit));
                }
                Ok(s)
            },
        }
    }
}

/// The recurrent sparse scheduler: unrolls, then schedules sparsely.
pub struct RecurrentSparseMatrixFabricator;

impl RecurrentSparseMatrixFabricator {
    /// Unrolls `net` (memory nodes get activation `identity`, memory edges
    /// weight `unit`) and schedules the result in coordinate form.
    pub fn fabricate<A: Copy, W: Copy, R: Recurrent<A, W>>(net: &R, identity: A, unit: W) -> (r: Result<
        RecurrentSchedule<SparseStage<A, W>>,
        FabricationError,
    >)
        requires
            unrollable(net),
            recurrent_ends_declared(net),
        ensures
            compiles(net, identity, unit, r, |a: SparseStage<A, W>, b: Stage<A, W>| sparse_of(a, b)),
    {
        let unrolled = unroll(net, identity, unit);
        proof {
            lemma_unrolled_ends_declared(net, &unrolled, identity, unit);
        }
        let result = FeedForwardSparseMatrixFabricator::fabricate(&unrolled);
        match result {
            Err(e) => {
                assert(unrolls(net, &unrolled, identity, unit) && fabricated(&unrolled, Err(e)));
                Err(e)
            },
            Ok(stages) => {
                let memory = unrolled.outputs().len();
                let outputs = net.outputs().len();
                let s = RecurrentSchedule { stages, memory, outputs };
                proof {
                    assert(unrolls(net, &unrolled, identity, unit));
                }
                Ok(s)
            },
        }
    }
}

/// The dense recurrent scheduler under its other name.
pub type MatrixRecurrentFabricator = RecurrentMatrixFabricator;

/// The sparse recurrent scheduler under its other name.
pub type SparseMatrixRecurrentFabricator = RecurrentSparseMatrixFabricator;

/// `n` copies of `zero`.
pub open spec fn zeros<V>(n: nat, zero: V) -> Seq<V> {
    Seq::new(n, |i: int| zero)
}

/// A vector of `size` copies of `zero`.
pub fn filled<V: Copy>(size: usize, zero: V) -> (r: Vec<V>)
    ensures
        r@ == zeros(size as nat, zero),
{
    let mut r: Vec<V> = Vec::new();
    let mut i: usize = 0;
    while i < size
        invariant
            i <= size,
            r@ == zeros(i as nat, zero),
        decreases size - i,
    {
        r.push(zero);
        i += 1;
        assert(r@ =~= zeros(i as nat, zero));
    }
    r
}

/// The memory of a recurrent evaluator: the whole result of the previous
/// step, of which the first `outputs` values went to the caller.
pub struct RecurrentMemory<V> {
    values: Vec<V>,
    outputs: usize,
}

impl<V> RecurrentMemory<V> {
    #[verifier::type_invariant]
    closed spec fn fits(self) -> bool {
        self.outputs <= self.values@.len()
    }

    /// What the memory holds.
    pub closed spec fn values(&self) -> Seq<V> {
        self.values@
    }

    /// How many leading values of each result go to the caller.
    pub closed spec fn output_count(&self) -> nat {
        self.outputs as nat
    }
}

impl<V: Copy> RecurrentMemory<V> {
    /// A memory of `size` slots, all `zero`.
    pub fn new(size: usize, outputs: usize, zero: V) -> (r: Self)
        requires
            outputs <= size,
        ensures
            r.values() == zeros(size as nat, zero),
            r.output_count() == outputs,
    {
        let values = filled(size, zero);
        RecurrentMemory { values, outputs }
    }

    /// The input of the unrolled graph for one step: the caller's input
    /// followed by the memory.
    pub fn step_input(&self, input: &Vec<V>) -> (r: Vec<V>)
        ensures
            r@ == input@ + self.values(),
    {
        let mut r: Vec<V> = Vec::new();
        let mut i: usize = 0;
        while i < input.len()
            invariant
                i <= input@.len(),
                r@ == input@.subrange(0, i as int),
            decreases input@.len() - i,
        {
            r.push(input[i]);
            i += 1;
            assert(r@ =~= input@.subrange(0, i as int));
        }
        let mut j: usize = 0;
        while j < self.values.len()
            invariant
                i == input@.len(),
                j <= self.values@.len(),
                r@ == input@ + self.values@.subrange(0, j as int),
            decreases self.values@.len() - j,
        {
            r.push(self.values[j]);
            j += 1;
            assert(r@ =~= input@ + self.values@.subrange(0, j as int));
        }
        assert(self.values@.subrange(0, j as int) =~= self.values@);
        r
    }

    /// Takes the unrolled graph's result for one step: it becomes the
    /// memory, and its leading values are returned to the caller.
    pub fn absorb(&mut self, result: Vec<V>) -> (r: Vec<V>)
        requires
            result@.len() == old(self).values().len(),
        ensures
            final(self).values() == result@,
            final(self).output_count() == old(self).output_count(),
            r@ == result@.subrange(0, old(self).output_count() as int),
    {
        proof {
            use_type_invariant(&*self);
        }
        let mut r: Vec<V> = Vec::new();
        let mut i: usize = 0;
        while i < self.outputs
            invariant
                self.outputs <= result@.len(),
                i <= self.outputs,
                r@ == result@.subrange(0, i as int),
            decreases self.outputs - i,
        {
            r.push(result[i]);
            i += 1;
            assert(r@ =~= result@.subrange(0, i as int));
        }
        self.values = result;
        r
    }

    /// Sets every slot of the memory to `zero`.
    pub fn reset(&mut self, zero: V)
        ensures
            final(self).values() == zeros(old(self).values().len(), zero),
            final(self).output_count() == old(self).output_count(),
    {
        proof {
            use_type_invariant(&*self);
        }
        self.values = filled(self.values.len(), zero);
    }
}

} // verus!
