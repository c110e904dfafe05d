//! Properties that hold of every schedule and of the recurrent memory.

use vstd::prelude::*;
use crate::fabricator::{
    blocked, covered, fabricated, is_end, lemma_incoming, stuck, stuck_apart, FabricationError,
};
use crate::network::{ids, Edge, NetworkLike, Node};
use crate::recurrent::{zeros, RecurrentMemory};
use crate::schedule::{
    activation_of, carries, chained, computes, incoming, labels, schedules, stage_sound, Activation,
    Stage, Term, Weight,
};

verus! {

/// In every schedule, each stage produces as many values as the next one
/// reads, the first reads one value per input, and the last produces one
/// value per output.
pub proof fn lemma_stage_dimensions<A, W>(
    stages: Seq<Stage<A, W>>,
    input_ids: Seq<usize>,
    output_ids: Seq<usize>,
    edges: Seq<Edge<W>>,
    nodes: Seq<Node<A>>,
)
    requires
        schedules(stages, input_ids, output_ids, edges, nodes),
    ensures
        stages[0].sources@.len() == input_ids.len(),
        forall|i: int|
            0 <= i < stages.len() - 1 ==> (#[trigger] stages[i]).columns@.len() == stages[i + 1].sources@.len(),
        stages.last().columns@.len() == output_ids.len(),
{
    vstd::seq_lib::to_multiset_len(stages[0].sources@);
    vstd::seq_lib::to_multiset_len(input_ids);
    vstd::seq_lib::to_multiset_len(labels(stages.last()));
    vstd::seq_lib::to_multiset_len(output_ids);
    assert forall|i: int| 0 <= i < stages.len() - 1 implies (#[trigger] stages[i]).columns@.len()
        == stages[i + 1].sources@.len() by {
        assert(labels(stages[i]) == stages[i + 1].sources@);
    }
    assert(labels(stages.last()).len() == stages.last().columns@.len());
}

/// When no edge ends at an input, fabrication succeeds exactly when the
/// graph has edges, no set of nodes is stuck, and every output is an input
/// or the end of an edge; and each refusal names the first of these that
/// fails.
pub proof fn lemma_fabrication_succeeds<A, W, N: NetworkLike<A, W>>(
    net: &N,
    r: Result<Vec<Stage<A, W>>, FabricationError>,
)
    requires
        fabricated(net, r),
        forall|k: int|
            0 <= k < net.edge_list().len() ==> !ids(net.input_nodes()).contains(
                #[trigger] net.edge_list()[k].end,
            ),
    ensures
        (r is Ok) <==> {
            &&& net.edge_list().len() > 0
            &&& forall|set: Set<usize>| !stuck(net.edge_list(), ids(net.input_nodes()), set)
            &&& covered(ids(net.input_nodes()), ids(net.output_nodes()), net.edge_list())
        },
{
    let edges = net.edge_list();
    let input_ids = ids(net.input_nodes());
    if r is Ok {
        assert forall|set: Set<usize>| !stuck(edges, input_ids, set) by {
            if stuck(edges, input_ids, set) {
                assert forall|d: usize| #[trigger] set.contains(d) implies !input_ids.contains(d) by {
                    assert(blocked(edges, input_ids, set, d));
                    let k = choose|k: int|
                        0 <= k < edges.len() && (#[trigger] edges[k]).end == d && !input_ids.contains(edges[k].start)
                            && (set.contains(edges[k].start) || !is_end(edges, edges[k].start));
                }
                assert(stuck_apart(edges, input_ids, set));
            }
        }
    }
}

/// The arithmetic an evaluation runs on: `add` sums, `mul` scales a value
/// by a weight, `act` applies an activation, `zero` is the empty sum.
#[verifier::reject_recursive_types(A)]
#[verifier::reject_recursive_types(W)]
#[verifier::reject_recursive_types(V)]
pub struct Arithmetic<A, W, V> {
    pub zero: V,
    pub add: spec_fn(V, V) -> V,
    pub mul: spec_fn(W, V) -> V,
    pub act: spec_fn(A, V) -> V,
}

/// A coefficient applied to a value; the unit coefficient leaves it as is.
pub open spec fn weigh<A, W, V>(w: Weight<W>, x: V, ops: Arithmetic<A, W, V>) -> V {
    match w {
        Weight::Unit => x,
        Weight::Of(w) => (ops.mul)(w, x),
    }
}

/// An activation applied to a value; the identity leaves it as is.
pub open spec fn activate<A, W, V>(a: Activation<A>, x: V, ops: Arithmetic<A, W, V>) -> V {
    match a {
        Activation::Identity => x,
        Activation::Of(a) => (ops.act)(a, x),
    }
}

/// The terms of a column summed over `state`, left to right, starting from
/// the first term.
pub open spec fn term_sum<A, W, V>(terms: Seq<Term<W>>, state: Seq<V>, ops: Arithmetic<A, W, V>) -> V
    decreases terms.len(),
{
    if terms.len() == 0 {
        ops.zero
    } else if terms.len() == 1 {
        weigh(terms[0].weight, state[terms[0].slot as int], ops)
    } else {
        (ops.add)(
            term_sum(terms.drop_last(), state, ops),
            weigh(terms.last().weight, state[terms.last().slot as int], ops),
        )
    }
}

/// The values a stage produces from `state`, column by column.
pub open spec fn stage_output<A, W, V>(stage: Stage<A, W>, state: Seq<V>, ops: Arithmetic<A, W, V>) -> Seq<V> {
    Seq::new(
        stage.columns@.len(),
        |j: int| activate(stage.columns@[j].activation, term_sum(stage.columns@[j].terms@, state, ops), ops),
    )
}

/// `state` carried through every stage in turn.
pub open spec fn run_stages<A, W, V>(stages: Seq<Stage<A, W>>, state: Seq<V>, ops: Arithmetic<A, W, V>) -> Seq<V>
    decreases stages.len(),
{
    if stages.len() == 0 {
        state
    } else {
        run_stages(stages.drop_first(), stage_output(stages[0], state, ops), ops)
    }
}

/// The weighted inputs of a node summed in edge order, starting from the
/// first edge.
pub open spec fn edge_sum<A, W, V>(inc: Seq<Edge<W>>, val: spec_fn(usize) -> V, ops: Arithmetic<A, W, V>) -> V
    decreases inc.len(),
{
    if inc.len() == 0 {
        ops.zero
    } else if inc.len() == 1 {
        (ops.mul)(inc[0].weight, val(inc[0].start))
    } else {
        (ops.add)(edge_sum(inc.drop_last(), val, ops), (ops.mul)(inc.last().weight, val(inc.last().start)))
    }
}

/// `val` gives every node that some edge ends at the value of node-by-node
/// evaluation: its activation applied to the weighted sum of its inputs.
pub open spec fn topological<A, W, V>(
    val: spec_fn(usize) -> V,
    edges: Seq<Edge<W>>,
    nodes: Seq<Node<A>>,
    ops: Arithmetic<A, W, V>,
) -> bool {
    forall|d: usize|
        is_end(edges, d) ==> #[trigger] val(d) == (ops.act)(
            activation_of(nodes, d),
            edge_sum(incoming(edges, d), val, ops),
        )
}

proof fn lemma_sums_agree<A, W, V>(
    terms: Seq<Term<W>>,
    inc: Seq<Edge<W>>,
    sources: Seq<usize>,
    state: Seq<V>,
    val: spec_fn(usize) -> V,
    ops: Arithmetic<A, W, V>,
)
    requires
        terms.len() == inc.len(),
        state.len() == sources.len(),
        forall|p: int| 0 <= p < sources.len() ==> state[p] == val(#[trigger] sources[p]),
        forall|j: int|
            0 <= j < inc.len() ==> {
                &&& (#[trigger] terms[j]).weight == Weight::Of(inc[j].weight)
                &&& terms[j].slot < sources.len()
                &&& sources[terms[j].slot as int] == inc[j].start
            },
    ensures
        term_sum(terms, state, ops) == edge_sum(inc, val, ops),
    decreases terms.len(),
{
    if terms.len() > 1 {
        lemma_sums_agree(terms.drop_last(), inc.drop_last(), sources, state, val, ops);
        assert(terms.last() == terms[terms.len() - 1]);
    } else if terms.len() == 1 {
        assert(terms[0].weight == Weight::Of(inc[0].weight));
    }
}

proof fn lemma_stage_values<A, W, V>(
    stage: Stage<A, W>,
    edges: Seq<Edge<W>>,
    nodes: Seq<Node<A>>,
    state: Seq<V>,
    val: spec_fn(usize) -> V,
    ops: Arithmetic<A, W, V>,
)
    requires
        stage_sound(stage, edges, nodes),
        topological(val, edges, nodes, ops),
        state == stage.sources@.map_values(|x: usize| val(x)),
    ensures
        stage_output(stage, state, ops) == labels(stage).map_values(|x: usize| val(x)),
{
    let out = stage_output(stage, state, ops);
    let want = labels(stage).map_values(|x: usize| val(x));
    assert forall|j: int| 0 <= j < out.len() implies out[j] == want[j] by {
        let c = stage.columns@[j];
        if computes(c, stage.sources@, edges, nodes) {
            let inc = incoming(edges, c.node);
            lemma_sums_agree(c.terms@, inc, stage.sources@, state, val, ops);
            lemma_incoming(edges, c.node);
            assert(inc[0].end == c.node);
            let k = choose|k: int| 0 <= k < edges.len() && edges[k] == inc[0];
            assert(is_end(edges, c.node));
        } else {
            assert(carries(c, stage.sources@));
        }
    }
    assert(out =~= want);
}

/// Evaluating a schedule column by column gives node-by-node evaluation:
/// if `val` satisfies every node's equation and the input holds `val` of
/// each input in ascending id order, the result holds `val` of each output
/// in ascending id order.
pub proof fn lemma_schedule_evaluates_topologically<A, W, V>(
    stages: Seq<Stage<A, W>>,
    input_ids: Seq<usize>,
    output_ids: Seq<usize>,
    edges: Seq<Edge<W>>,
    nodes: Seq<Node<A>>,
    val: spec_fn(usize) -> V,
    ops: Arithmetic<A, W, V>,
)
    requires
        schedules(stages, input_ids, output_ids, edges, nodes),
        topological(val, edges, nodes, ops),
    ensures
        run_stages(stages, stages[0].sources@.map_values(|x: usize| val(x)), ops) == labels(stages.last()).map_values(
            |x: usize| val(x),
        ),
{
    lemma_run_from(stages, edges, nodes, val, ops);
}

proof fn lemma_run_from<A, W, V>(
    stages: Seq<Stage<A, W>>,
    edges: Seq<Edge<W>>,
    nodes: Seq<Node<A>>,
    val: spec_fn(usize) -> V,
    ops: Arithmetic<A, W, V>,
)
    requires
        stages.len() >= 1,
        chained(stages),
        forall|i: int| 0 <= i < stages.len() ==> stage_sound(#[trigger] stages[i], edges, nodes),
        topological(val, edges, nodes, ops),
    ensures
        run_stages(stages, stages[0].sources@.map_values(|x: usize| val(x)), ops) == labels(stages.last()).map_values(
            |x: usize| val(x),
        ),
    decreases stages.len(),
{
    let first = stages[0];
    let state = first.sources@.map_values(|x: usize| val(x));
    assert(stage_sound(stages[0], edges, nodes));
    lemma_stage_values(first, edges, nodes, state, val, ops);
    let rest = stages.drop_first();
    if rest.len() == 0 {
        assert(run_stages(rest, stage_output(first, state, ops), ops) == stage_output(first, state, ops));
    } else {
        assert(labels(stages[0]) == stages[1].sources@);
        assert(rest[0] == stages[1]);
        assert forall|i: int| 0 <= i < rest.len() - 1 implies labels(#[trigger] rest[i]) == rest[i + 1].sources@ by {
            assert(rest[i] == stages[i + 1]);
            assert(labels(stages[i + 1]) == stages[i + 2].sources@);
        }
        assert forall|i: int| 0 <= i < rest.len() implies stage_sound(#[trigger] rest[i], edges, nodes) by {
            assert(rest[i] == stages[i + 1]);
        }
        lemma_run_from(rest, edges, nodes, val, ops);
        assert(rest.last() == stages.last());
    }
}

/// `a·x + b·y`, slot by slot, with `times` scaling a value by a value.
pub open spec fn combine<A, W, V>(
    a: V,
    x: Seq<V>,
    b: V,
    y: Seq<V>,
    times: spec_fn(V, V) -> V,
    ops: Arithmetic<A, W, V>,
) -> Seq<V> {
    Seq::new(x.len(), |i: int| (ops.add)(times(a, x[i]), times(b, y[i])))
}

/// The laws linearity rests on: addition is commutative and associative,
/// scaling and weighting distribute over addition, weighting commutes with
/// scaling, and every activation is the identity.
pub open spec fn linear_arithmetic<A, W, V>(times: spec_fn(V, V) -> V, ops: Arithmetic<A, W, V>) -> bool {
    &&& forall|u: V, v: V| #[trigger] (ops.add)(u, v) == (ops.add)(v, u)
    &&& forall|u: V, v: V, t: V| #[trigger] (ops.add)((ops.add)(u, v), t) == (ops.add)(u, (ops.add)(v, t))
    &&& forall|c: V, u: V, v: V| #[trigger] times(c, (ops.add)(u, v)) == (ops.add)(times(c, u), times(c, v))
    &&& forall|w: W, u: V, v: V| #[trigger] (ops.mul)(w, (ops.add)(u, v)) == (ops.add)((ops.mul)(w, u), (ops.mul)(w, v))
    &&& forall|w: W, c: V, u: V| #[trigger] (ops.mul)(w, times(c, u)) == times(c, (ops.mul)(w, u))
    &&& forall|f: A, u: V| #[trigger] (ops.act)(f, u) == u
}

proof fn lemma_regroup<A, W, V>(p: V, q: V, r: V, t: V, ops: Arithmetic<A, W, V>)
    requires
        forall|u: V, v: V| #[trigger] (ops.add)(u, v) == (ops.add)(v, u),
        forall|u: V, v: V, w: V| #[trigger] (ops.add)((ops.add)(u, v), w) == (ops.add)(u, (ops.add)(v, w)),
    ensures
        (ops.add)((ops.add)(p, q), (ops.add)(r, t)) == (ops.add)((ops.add)(p, r), (ops.add)(q, t)),
{
    let plus = ops.add;
    assert(plus(plus(p, q), plus(r, t)) == plus(p, plus(q, plus(r, t))));
    assert(plus(q, plus(r, t)) == plus(plus(q, r), t));
    assert(plus(q, r) == plus(r, q));
    assert(plus(plus(r, q), t) == plus(r, plus(q, t)));
    assert(plus(p, plus(r, plus(q, t))) == plus(plus(p, r), plus(q, t)));
}

proof fn lemma_term_sum_linear<A, W, V>(
    terms: Seq<Term<W>>,
    a: V,
    x: Seq<V>,
    b: V,
    y: Seq<V>,
    times: spec_fn(V, V) -> V,
    ops: Arithmetic<A, W, V>,
)
    requires
        terms.len() > 0,
        x.len() == y.len(),
        forall|j: int| 0 <= j < terms.len() ==> (#[trigger] terms[j]).slot < x.len(),
        linear_arithmetic(times, ops),
    ensures
        term_sum(terms, combine(a, x, b, y, times, ops), ops) == (ops.add)(
            times(a, term_sum(terms, x, ops)),
            times(b, term_sum(terms, y, ops)),
        ),
    decreases terms.len(),
{
    let z = combine(a, x, b, y, times, ops);
    let last = terms.last();
    let s = last.slot as int;
    assert(terms[terms.len() - 1] == last);
    let wz = weigh(last.weight, z[s], ops);
    let wx = weigh(last.weight, x[s], ops);
    let wy = weigh(last.weight, y[s], ops);
    assert(wz == (ops.add)(times(a, wx), times(b, wy))) by {
        match last.weight {
            Weight::Unit => {},
            Weight::Of(w) => {
                assert((ops.mul)(w, z[s]) == (ops.add)((ops.mul)(w, times(a, x[s])), (ops.mul)(w, times(b, y[s]))));
            },
        }
    }
    if terms.len() > 1 {
        let rest = terms.drop_last();
        assert forall|j: int| 0 <= j < rest.len() implies (#[trigger] rest[j]).slot < x.len() by {
            assert(rest[j] == terms[j]);
        }
        lemma_term_sum_linear(rest, a, x, b, y, times, ops);
        let tx = term_sum(rest, x, ops);
        let ty = term_sum(rest, y, ops);
        lemma_regroup(times(a, tx), times(b, ty), times(a, wx), times(b, wy), ops);
        assert(times(a, (ops.add)(tx, wx)) == (ops.add)(times(a, tx), times(a, wx)));
        assert(times(b, (ops.add)(ty, wy)) == (ops.add)(times(b, ty), times(b, wy)));
    } else {
        assert(terms[0] == last);
    }
}

proof fn lemma_stage_linear<A, W, V>(
    stage: Stage<A, W>,
    edges: Seq<Edge<W>>,
    nodes: Seq<Node<A>>,
    a: V,
    x: Seq<V>,
    b: V,
    y: Seq<V>,
    times: spec_fn(V, V) -> V,
    ops: Arithmetic<A, W, V>,
)
    requires
        stage_sound(stage, edges, nodes),
        x.len() == stage.sources@.len(),
        y.len() == stage.sources@.len(),
        linear_arithmetic(times, ops),
    ensures
        stage_output(stage, combine(a, x, b, y, times, ops), ops) == combine(
            a,
            stage_output(stage, x, ops),
            b,
            stage_output(stage, y, ops),
            times,
            ops,
        ),
{
    let lhs = stage_output(stage, combine(a, x, b, y, times, ops), ops);
    let rhs = combine(a, stage_output(stage, x, ops), b, stage_output(stage, y, ops), times, ops);
    assert forall|j: int| 0 <= j < lhs.len() implies lhs[j] == rhs[j] by {
        let c = stage.columns@[j];
        assert(computes(c, stage.sources@, edges, nodes) || carries(c, stage.sources@));
        if computes(c, stage.sources@, edges, nodes) {
            assert forall|i: int| 0 <= i < c.terms@.len() implies (#[trigger] c.terms@[i]).slot < x.len() by {
                assert(c.terms@[i].slot < stage.sources@.len());
            }
        }
        lemma_term_sum_linear(c.terms@, a, x, b, y, times, ops);
    }
    assert(lhs =~= rhs);
}

/// Evaluating a schedule whose activations are all the identity is linear:
/// on `a·x + b·y` it yields `a·f(x) + b·f(y)`, for any arithmetic with the
/// laws of [`linear_arithmetic`].
pub proof fn lemma_schedule_linear<A, W, V>(
    stages: Seq<Stage<A, W>>,
    input_ids: Seq<usize>,
    output_ids: Seq<usize>,
    edges: Seq<Edge<W>>,
    nodes: Seq<Node<A>>,
    a: V,
    x: Seq<V>,
    b: V,
    y: Seq<V>,
    times: spec_fn(V, V) -> V,
    ops: Arithmetic<A, W, V>,
)
    requires
        schedules(stages, input_ids, output_ids, edges, nodes),
        x.len() == stages[0].sources@.len(),
        y.len() == stages[0].sources@.len(),
        linear_arithmetic(times, ops),
    ensures
        run_stages(stages, combine(a, x, b, y, times, ops), ops) == combine(
            a,
            run_stages(stages, x, ops),
            b,
            run_stages(stages, y, ops),
            times,
            ops,
        ),
{
    lemma_run_linear(stages, edges, nodes, a, x, b, y, times, ops);
}

proof fn lemma_run_linear<A, W, V>(
    stages: Seq<Stage<A, W>>,
    edges: Seq<Edge<W>>,
    nodes: Seq<Node<A>>,
    a: V,
    x: Seq<V>,
    b: V,
    y: Seq<V>,
    times: spec_fn(V, V) -> V,
    ops: Arithmetic<A, W, V>,
)
    requires
        stages.len() >= 1,
        chained(stages),
        forall|i: int| 0 <= i < stages.len() ==> stage_sound(#[trigger] stages[i], edges, nodes),
        x.len() == stages[0].sources@.len(),
        y.len() == stages[0].sources@.len(),
        linear_arithmetic(times, ops),
    ensures
        run_stages(stages, combine(a, x, b, y, times, ops), ops) == combine(
            a,
            run_stages(stages, x, ops),
            b,
            run_stages(stages, y, ops),
            times,
            ops,
        ),
    decreases stages.len(),
{
    let first = stages[0];
    assert(stage_sound(stages[0], edges, nodes));
    lemma_stage_linear(first, edges, nodes, a, x, b, y, times, ops);
    let ox = stage_output(first, x, ops);
    let oy = stage_output(first, y, ops);
    let rest = stages.drop_first();
    if rest.len() > 0 {
        assert(stages.len() >= 2);
        assert(labels(stages[0]) == stages[1].sources@);
        assert(rest[0] == stages[1]);
        assert forall|i: int| 0 <= i < rest.len() - 1 implies labels(#[trigger] rest[i]) == rest[i + 1].sources@ by {
            assert(rest[i] == stages[i + 1]);
            assert(labels(stages[i + 1]) == stages[i + 2].sources@);
        }
        assert forall|i: int| 0 <= i < rest.len() implies stage_sound(#[trigger] rest[i], edges, nodes) by {
            assert(rest[i] == stages[i + 1]);
        }
        assert(ox.len() == labels(first).len());
        lemma_run_linear(rest, edges, nodes, a, ox, b, oy, times, ops);
    }
    let z = combine(a, x, b, y, times, ops);
    assert(run_stages(stages, z, ops) == run_stages(rest, stage_output(first, z, ops), ops));
    assert(run_stages(stages, x, ops) == run_stages(rest, ox, ops));
    assert(run_stages(stages, y, ops) == run_stages(rest, oy, ops));
}

/// One recurrent step on memory `values`: the unrolled graph, `eval`, is
/// applied to the input followed by the memory; its result becomes the
/// memory, and its first `outputs` values are the step's output.
pub open spec fn step<V>(values: Seq<V>, outputs: nat, eval: spec_fn(Seq<V>) -> Seq<V>, input: Seq<V>) -> (
    Seq<V>,
    Seq<V>,
) {
    let result = eval(input + values);
    (result.subrange(0, outputs as int), result)
}

/// The outputs of a sequence of recurrent steps starting from memory
/// `values`.
pub open spec fn run<V>(
    values: Seq<V>,
    outputs: nat,
    eval: spec_fn(Seq<V>) -> Seq<V>,
    inputs: Seq<Seq<V>>,
) -> Seq<Seq<V>>
    decreases inputs.len(),
{
    if inputs.len() == 0 {
        Seq::empty()
    } else {
        let (out, next) = step(values, outputs, eval, inputs[0]);
        seq![out] + run(next, outputs, eval, inputs.drop_first())
    }
}

/// [`step`] is what [`RecurrentMemory::step_input`] followed by
/// [`RecurrentMemory::absorb`] do: if `full` is the step input of `before`
/// on `input`, `result` is `eval(full)`, and `after` and `out` are what
/// absorbing `result` leaves and returns, then `step` gives `out` and the
/// memory of `after`.
pub proof fn lemma_step_is_absorb<V: Copy>(
    before: RecurrentMemory<V>,
    after: RecurrentMemory<V>,
    input: Seq<V>,
    full: Seq<V>,
    result: Seq<V>,
    out: Seq<V>,
    eval: spec_fn(Seq<V>) -> Seq<V>,
)
    requires
        full == input + before.values(),
        result == eval(full),
        after.values() == result,
        after.output_count() == before.output_count(),
        out == result.subrange(0, before.output_count() as int),
    ensures
        step(before.values(), before.output_count(), eval, input) == (out, after.values()),
{
}

/// A reset memory behaves as a fresh one: if `reset` is `before` after
/// [`RecurrentMemory::reset`] and `fresh` comes from [`RecurrentMemory::new`]
/// with the same size and output count, every sequence of steps yields the
/// same outputs from both.
pub proof fn lemma_reset_is_fresh<V: Copy>(
    before: RecurrentMemory<V>,
    reset: RecurrentMemory<V>,
    fresh: RecurrentMemory<V>,
    zero: V,
    eval: spec_fn(Seq<V>) -> Seq<V>,
    inputs: Seq<Seq<V>>,
)
    requires
        reset.values() == zeros(before.values().len(), zero),
        reset.output_count() == before.output_count(),
        fresh.values() == zeros(before.values().len(), zero),
        fresh.output_count() == before.output_count(),
    ensures
        run(reset.values(), reset.output_count(), eval, inputs) == run(
            fresh.values(),
            fresh.output_count(),
            eval,
            inputs,
        ),
{
}

/// Resetting twice is resetting once: if `once` is `before` after
/// [`RecurrentMemory::reset`] and `twice` is `once` after another, the two
/// hold the same memory.
pub proof fn lemma_reset_idempotent<V: Copy>(
    before: RecurrentMemory<V>,
    once: RecurrentMemory<V>,
    twice: RecurrentMemory<V>,
    zero: V,
)
    requires
        once.values() == zeros(before.values().len(), zero),
        once.output_count() == before.output_count(),
        twice.values() == zeros(once.values().len(), zero),
        twice.output_count() == once.output_count(),
    ensures
        twice.values() == once.values(),
        twice.output_count() == once.output_count(),
{
    assert(twice.values() =~= once.values());
}

} // verus!
