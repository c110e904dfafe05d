use neat_fabricator::{
    unroll, Activation, Edge, FabricationError, FeedForwardMatrixFabricator, FeedForwardSparseMatrixFabricator,
    Net, NetworkLike, NeatOriginalFabricator, Node, RecurrentMatrixFabricator, RecurrentMemory, Stage, Weight,
};

type Act = fn(f64) -> f64;

fn linear(x: f64) -> f64 {
    x
}

fn sigmoid(x: f64) -> f64 {
    1.0 / (1.0 + (-4.9 * x).exp())
}

fn edges(list: &[(usize, f64, usize)]) -> Vec<Edge<f64>> {
    list.iter().map(|&(s, w, e)| Edge::new(s, e, w)).collect()
}

fn evaluate(stages: &[Stage<Act, f64>], input: &[f64]) -> Vec<f64> {
    let mut state = input.to_vec();
    for stage in stages {
        let mut next = Vec::new();
        for c in &stage.columns {
            let mut sum: Option<f64> = None;
            for t in &c.terms {
                let x = match t.weight {
                    Weight::Unit => state[t.slot],
                    Weight::Of(w) => w * state[t.slot],
                };
                sum = Some(match sum {
                    None => x,
                    Some(s) => s + x,
                });
            }
            let v = sum.unwrap_or(0.0);
            next.push(match c.activation {
                Activation::Identity => v,
                Activation::Of(f) => f(v),
            });
        }
        state = next;
    }
    state
}

fn linear_nodes(ids: &[usize]) -> Vec<Node<Act>> {
    ids.iter().map(|&i| Node::new(i, linear as Act)).collect()
}

fn run_steps(
    stages: &[Stage<Act, f64>],
    memory: &mut RecurrentMemory<f64>,
    inputs: &[Vec<f64>],
) -> Vec<Vec<f64>> {
    inputs.iter().map(|x| {
        let r = evaluate(stages, &memory.step_input(x));
        memory.absorb(r)
    }).collect()
}

fn hidden_loop_net() -> Net<Act, f64> {
    let mut net = Net::new(1, 1, linear_nodes(&[0, 1, 2]), edges(&[(0, 1.0, 1), (1, 1.0, 2)]));
    net.set_recurrent_edges(edges(&[(1, 1.0, 1)]));
    net
}

#[test]
fn output_order_is_ascending_ids() {
    let net = Net::new(1, 2, linear_nodes(&[4, 9, 2]), edges(&[(4, 1.0, 9), (4, 2.0, 2)]));
    let stages = FeedForwardMatrixFabricator::fabricate(&net).unwrap();
    let last = stages.last().unwrap();
    let produced: Vec<usize> = last.columns.iter().map(|c| c.node).collect();
    assert_eq!(produced, vec![2, 9]);
    assert_eq!(evaluate(&stages, &[1.0]), vec![2.0, 1.0]);
}

#[test]
fn input_slots_follow_ascending_ids() {
    let net = Net::new(2, 1, linear_nodes(&[7, 3, 5]), edges(&[(7, 1.0, 5), (3, 10.0, 5)]));
    let stages = FeedForwardMatrixFabricator::fabricate(&net).unwrap();
    assert_eq!(stages[0].sources, vec![3, 7]);
    assert_eq!(evaluate(&stages, &[1.0, 2.0]), vec![12.0]);
}

#[test]
fn stage_dimensions_chain() {
    let net = Net::new(
        2,
        2,
        linear_nodes(&[0, 1, 2, 3, 4, 5]),
        edges(&[(0, 1.0, 2), (2, 1.0, 3), (3, 1.0, 4), (1, 1.0, 4), (0, 1.0, 5), (3, 2.0, 5)]),
    );
    let stages = FeedForwardMatrixFabricator::fabricate(&net).unwrap();
    assert!(stages.len() >= 3);
    assert_eq!(stages[0].sources.len(), 2);
    for pair in stages.windows(2) {
        assert_eq!(pair[0].columns.len(), pair[1].sources.len());
        let labels: Vec<usize> = pair[0].columns.iter().map(|c| c.node).collect();
        assert_eq!(labels, pair[1].sources);
    }
    assert_eq!(stages.last().unwrap().columns.len(), 2);
}

#[test]
fn evaluation_matches_node_by_node() {
    let nodes = vec![
        Node::new(0, linear as Act),
        Node::new(1, linear as Act),
        Node::new(2, sigmoid as Act),
        Node::new(3, sigmoid as Act),
        Node::new(4, linear as Act),
    ];
    let net = Net::new(2, 1, nodes, edges(&[(0, 0.3, 2), (1, -0.7, 2), (2, 1.5, 3), (0, 0.2, 3), (3, 2.0, 4), (1, 0.5, 4)]));
    let stages = FeedForwardMatrixFabricator::fabricate(&net).unwrap();
    let (x0, x1) = (0.4, -1.2);
    let v2 = sigmoid(0.3 * x0 + -0.7 * x1);
    let v3 = sigmoid(1.5 * v2 + 0.2 * x0);
    let v4 = 2.0 * v3 + 0.5 * x1;
    assert_eq!(evaluate(&stages, &[x0, x1]), vec![v4]);
}

#[test]
fn reset_matches_fresh() {
    let net = hidden_loop_net();
    let compiled = RecurrentMatrixFabricator::fabricate(&net, linear as Act, 1.0).unwrap();
    let inputs = vec![vec![1.0], vec![2.0], vec![3.0]];
    let mut used = RecurrentMemory::new(compiled.memory, compiled.outputs, 0.0);
    run_steps(&compiled.stages, &mut used, &[vec![5.0], vec![7.0]]);
    used.reset(0.0);
    let after_reset = run_steps(&compiled.stages, &mut used, &inputs);
    let mut fresh = RecurrentMemory::new(compiled.memory, compiled.outputs, 0.0);
    let from_fresh = run_steps(&compiled.stages, &mut fresh, &inputs);
    assert_eq!(after_reset, from_fresh);
    assert_eq!(from_fresh, vec![vec![1.0], vec![3.0], vec![6.0]]);
}

#[test]
fn reset_twice_is_reset_once() {
    let net = hidden_loop_net();
    let compiled = RecurrentMatrixFabricator::fabricate(&net, linear as Act, 1.0).unwrap();
    let mut memory = RecurrentMemory::new(compiled.memory, compiled.outputs, 0.0);
    run_steps(&compiled.stages, &mut memory, &[vec![5.0]]);
    memory.reset(0.0);
    let once = memory.step_input(&Vec::new());
    memory.reset(0.0);
    let twice = memory.step_input(&Vec::new());
    assert_eq!(once, twice);
    assert_eq!(once, vec![0.0; compiled.memory]);
}

#[test]
fn linear_graph_is_linear() {
    let net = Net::new(
        2,
        2,
        linear_nodes(&[0, 1, 2, 3, 4]),
        edges(&[(0, 0.5, 2), (1, -1.5, 2), (2, 2.0, 3), (0, 0.25, 4), (2, 3.0, 4)]),
    );
    let stages = FeedForwardMatrixFabricator::fabricate(&net).unwrap();
    let (a, b) = (2.0, -3.0);
    let x = [1.0, 2.0];
    let y = [-0.5, 4.0];
    let mixed = [a * x[0] + b * y[0], a * x[1] + b * y[1]];
    let ex = evaluate(&stages, &x);
    let ey = evaluate(&stages, &y);
    let em = evaluate(&stages, &mixed);
    for i in 0..2 {
        assert!((em[i] - (a * ex[i] + b * ey[i])).abs() < 1e-9);
    }
}

#[test]
fn duplicate_edges_add_up() {
    let net = Net::new(1, 1, linear_nodes(&[0, 1]), edges(&[(0, 0.5, 1), (0, 0.5, 1)]));
    let stages = FeedForwardMatrixFabricator::fabricate(&net).unwrap();
    assert_eq!(evaluate(&stages, &[5.0]), vec![5.0]);
}

#[test]
fn ordinary_cycle_is_unresolvable() {
    let net = Net::new(1, 1, linear_nodes(&[0, 1, 2, 3]), edges(&[(0, 1.0, 1), (2, 1.0, 1), (1, 1.0, 2), (2, 1.0, 3)]));
    let err = FeedForwardMatrixFabricator::fabricate(&net).err().unwrap();
    assert_eq!(err, FabricationError::Unresolvable);
}

#[test]
fn output_that_is_an_input_is_carried() {
    let net = Net::new(1, 2, linear_nodes(&[0, 1, 2]), edges(&[(0, 1.0, 1), (1, 3.0, 2)]));
    let stages = FeedForwardMatrixFabricator::fabricate(&net).unwrap();
    assert_eq!(evaluate(&stages, &[2.0]), vec![2.0, 6.0]);
    let passthrough = Net::new(1, 1, linear_nodes(&[0, 1]), edges(&[(0, 1.0, 1)]));
    let s = FeedForwardMatrixFabricator::fabricate(&passthrough).unwrap();
    assert_eq!(s.len(), 1);
}

#[test]
fn error_messages() {
    assert_eq!(FabricationError::NoEdges.message(), "no edges present, net invalid");
    assert_eq!(FabricationError::Unresolvable.message(), "can't resolve dependencies, net invalid");
    assert_eq!(
        FabricationError::Unreachable.message(),
        "dependencies resolved but not all outputs computable, net invalid"
    );
}

#[test]
fn sparse_entries_follow_columns() {
    let net = Net::new(1, 2, linear_nodes(&[0, 1, 2]), edges(&[(0, 0.5, 1), (0, 0.25, 2)]));
    let sparse = FeedForwardSparseMatrixFabricator::fabricate(&net).unwrap();
    assert_eq!(sparse.len(), 1);
    assert_eq!(sparse[0].rows, 1);
    let entries: Vec<(usize, usize, f64)> = sparse[0]
        .triplets
        .iter()
        .map(|t| (t.row, t.col, match t.weight { Weight::Of(w) => w, Weight::Unit => 1.0 }))
        .collect();
    assert_eq!(entries, vec![(0, 0, 0.5), (0, 1, 0.25)]);
    assert_eq!(sparse[0].activations.len(), 2);
}

#[test]
fn unrolled_graph_has_memory_nodes() {
    let mut net = Net::new(2, 1, linear_nodes(&[0, 1, 2]), edges(&[(0, 1.0, 2)]));
    net.set_recurrent_edges(edges(&[(0, 2.0, 2), (2, 3.0, 2)]));
    let u = unroll(&net, linear as Act, 1.0);
    let ins: Vec<usize> = u.inputs().iter().map(|n| n.id).collect();
    let outs: Vec<usize> = u.outputs().iter().map(|n| n.id).collect();
    // inputs 0, 1 -> 3, 4; output 2 -> 5; memory of output -> 6; source 3 -> memory 7, 8
    assert_eq!(ins, vec![3, 4, 6, 7]);
    assert_eq!(outs, vec![5, 8]);
    assert!(u.hidden().is_empty());
    let e: Vec<(usize, usize, f64)> = u.edges().iter().map(|e| (e.start, e.end, e.weight)).collect();
    assert_eq!(e, vec![(3, 5, 1.0), (3, 8, 1.0), (7, 5, 2.0), (6, 5, 3.0)]);
}

#[test]
fn neat_original_indexes_nodes() {
    let mut net = Net::new(1, 1, linear_nodes(&[10, 20, 30]), edges(&[(10, 0.5, 20), (20, 0.25, 30)]));
    net.set_recurrent_edges(edges(&[(30, 2.0, 20)]));
    let n = NeatOriginalFabricator::fabricate(&net);
    assert_eq!(n.input_ids, vec![0]);
    assert_eq!(n.output_ids, vec![2]);
    assert!(n.nodes[0].inputs.is_empty());
    assert_eq!(n.nodes[1].inputs, vec![(0, 0.5, false), (2, 2.0, true)]);
    assert_eq!(n.nodes[2].inputs, vec![(1, 0.25, false)]);
}

#[test]
fn recurrent_memory_counts_added_inputs() {
    let mut net = Net::new(2, 1, linear_nodes(&[0, 1, 2]), edges(&[(0, 1.0, 2)]));
    net.set_recurrent_edges(edges(&[(0, 2.0, 2), (2, 3.0, 2)]));
    let compiled = RecurrentMatrixFabricator::fabricate(&net, linear as Act, 1.0).unwrap();
    let u = unroll(&net, linear as Act, 1.0);
    assert_eq!(compiled.memory, u.outputs().len());
    assert_eq!(compiled.memory, u.inputs().len() - net.inputs().len());
    assert_eq!(compiled.memory, 2);
    assert_eq!(compiled.outputs, 1);
}
