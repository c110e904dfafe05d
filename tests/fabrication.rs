use neat_fabricator::{
    Activation, Edge, FabricationError, FeedForwardMatrixFabricator, FeedForwardSparseMatrixFabricator,
    Net, Node, RecurrentMatrixFabricator, RecurrentMemory, RecurrentSparseMatrixFabricator, SparseStage,
    Stage, Weight,
};

type Act = fn(f64) -> f64;

fn linear(x: f64) -> f64 {
    x
}

fn sigmoid(x: f64) -> f64 {
    1.0 / (1.0 + (-4.9 * x).exp())
}

/// Nodes with ids 0, 1, 2, ... and the given activations ('l' linear, others sigmoid).
fn nodes(acts: &[char]) -> Vec<Node<Act>> {
    acts.iter()
        .enumerate()
        .map(|(i, a)| Node::new(i, if *a == 'l' { linear as Act } else { sigmoid as Act }))
        .collect()
}

fn edges(list: &[(usize, f64, usize)]) -> Vec<Edge<f64>> {
    list.iter().map(|&(s, w, e)| Edge::new(s, e, w)).collect()
}

fn weigh(w: &Weight<f64>, x: f64) -> f64 {
    match w {
        Weight::Unit => x,
        Weight::Of(w) => w * x,
    }
}

fn activate(a: &Activation<Act>, x: f64) -> f64 {
    match a {
        Activation::Identity => x,
        Activation::Of(f) => f(x),
    }
}

fn evaluate(stages: &[Stage<Act, f64>], input: &[f64]) -> Vec<f64> {
    let mut state = input.to_vec();
    for stage in stages {
        assert_eq!(stage.sources.len(), state.len());
        let mut next = Vec::new();
        for c in &stage.columns {
            let mut sum = 0.0;
            for t in &c.terms {
                sum += weigh(&t.weight, state[t.slot]);
            }
            next.push(activate(&c.activation, sum));
        }
        state = next;
    }
    state
}

fn evaluate_sparse(stages: &[SparseStage<Act, f64>], input: &[f64]) -> Vec<f64> {
    let mut state = input.to_vec();
    for stage in stages {
        assert_eq!(stage.rows, state.len());
        let mut next = vec![0.0; stage.activations.len()];
        for t in &stage.triplets {
            next[t.col] += weigh(&t.weight, state[t.row]);
        }
        for (v, a) in next.iter_mut().zip(stage.activations.iter()) {
            *v = activate(a, *v);
        }
        state = next;
    }
    state
}

fn feedforward(net: &Net<Act, f64>, input: &[f64]) -> Vec<f64> {
    let dense = FeedForwardMatrixFabricator::fabricate(net).unwrap();
    let sparse = FeedForwardSparseMatrixFabricator::fabricate(net).unwrap();
    let a = evaluate(&dense, input);
    let b = evaluate_sparse(&sparse, input);
    assert_eq!(a, b);
    a
}

fn error_of(net: &Net<Act, f64>) -> &'static str {
    let dense = FeedForwardMatrixFabricator::fabricate(net).err().unwrap();
    let sparse = FeedForwardSparseMatrixFabricator::fabricate(net).err().unwrap();
    assert_eq!(dense, sparse);
    dense.message()
}

/// Runs a recurrent net step by step through both recurrent fabricators.
fn recurrent_run(net: &Net<Act, f64>, inputs: &[Vec<f64>]) -> Vec<Vec<f64>> {
    let dense = RecurrentMatrixFabricator::fabricate(net, linear as Act, 1.0).unwrap();
    let sparse = RecurrentSparseMatrixFabricator::fabricate(net, linear as Act, 1.0).unwrap();
    let mut m1 = RecurrentMemory::new(dense.memory, dense.outputs, 0.0);
    let mut m2 = RecurrentMemory::new(sparse.memory, sparse.outputs, 0.0);
    let mut outs = Vec::new();
    for input in inputs {
        let r1 = evaluate(&dense.stages, &m1.step_input(input));
        let r2 = evaluate_sparse(&sparse.stages, &m2.step_input(input));
        let o1 = m1.absorb(r1);
        let o2 = m2.absorb(r2);
        assert_eq!(o1, o2);
        outs.push(o1);
    }
    outs
}

#[test]
fn fabricator_simple_net_evaluator_0() {
    let some_net = Net::new(1, 1, nodes(&['l', 'l']), edges(&[(0, 0.5, 1)]));
    assert_eq!(feedforward(&some_net, &[5.0]), vec![2.5]);
}

#[test]
fn fabricator_simple_net_evaluator_1() {
    let some_net = Net::new(2, 1, nodes(&['l', 'l', 'l']), edges(&[(0, 0.5, 2), (1, 0.5, 2)]));
    assert_eq!(feedforward(&some_net, &[5.0, 5.0]), vec![5.0]);
}

#[test]
fn fabricator_simple_net_evaluator_2() {
    let some_net = Net::new(1, 1, nodes(&['l', 'l', 'l']), edges(&[(0, 0.5, 1), (1, 0.5, 2)]));
    assert_eq!(feedforward(&some_net, &[5.0]), vec![1.25]);
}

#[test]
fn fabricator_simple_net_evaluator_3() {
    let some_net =
        Net::new(1, 1, nodes(&['l', 'l', 'l']), edges(&[(0, 0.5, 1), (1, 0.5, 2), (0, 0.5, 2)]));
    assert_eq!(feedforward(&some_net, &[5.0]), vec![3.75]);
}

#[test]
fn fabricator_simple_net_evaluator_4() {
    let some_net = Net::new(
        1,
        2,
        nodes(&['l', 'l', 'l', 'l']),
        edges(&[(0, 0.5, 1), (1, 0.5, 2), (0, 0.5, 3), (0, 0.5, 2)]),
    );
    assert_eq!(feedforward(&some_net, &[5.0]), vec![3.75, 2.5]);
}

#[test]
fn fabricator_simple_net_evaluator_5() {
    let some_net =
        Net::new(1, 2, nodes(&['l', 'l', 'l', 'l']), edges(&[(0, 0.5, 1), (1, 0.5, 3), (0, 0.5, 2)]));
    assert_eq!(feedforward(&some_net, &[5.0]), vec![2.5, 1.25]);
}

#[test]
fn fabricator_simple_net_evaluator_6() {
    let some_net = Net::new(1, 1, nodes(&['l', 'l']), Vec::new());
    assert_eq!(error_of(&some_net), "no edges present, net invalid");
}

#[test]
fn fabricator_simple_net_evaluator_7() {
    let some_net = Net::new(1, 1, nodes(&['l', 'l', 'l']), edges(&[(0, 0.5, 1)]));
    assert_eq!(error_of(&some_net), "dependencies resolved but not all outputs computable, net invalid");
}

#[test]
fn fabricator_simple_net_evaluator_8() {
    let some_net = Net::new(1, 1, nodes(&['l', 'l', 'l']), edges(&[(1, 0.5, 2)]));
    assert_eq!(error_of(&some_net), "can't resolve dependencies, net invalid");
}

#[test]
fn fabricator_simple_net_evaluator_9() {
    let some_net = Net::new(2, 1, nodes(&['l', 'l', 'l']), edges(&[(0, 0.5, 2), (1, 0.0, 2)]));
    assert_eq!(feedforward(&some_net, &[5.0, 5.0]), vec![2.5]);
}

#[test]
fn fabricator_stateful_net_evaluator_0() {
    let mut some_net =
        Net::new(2, 2, nodes(&['l', 'l', 'l', 'l']), edges(&[(0, 1.0, 2), (1, 1.0, 3)]));
    some_net.set_recurrent_edges(edges(&[(0, 1.0, 2), (1, 1.0, 3)]));
    let outs = recurrent_run(
        &some_net,
        &[vec![5.0, 0.0], vec![5.0, 5.0], vec![0.0, 5.0], vec![0.0, 0.0]],
    );
    assert_eq!(outs[0], vec![5.0, 0.0]);
    assert_eq!(outs[1], vec![10.0, 5.0]);
    assert_eq!(outs[2], vec![5.0, 10.0]);
    assert_eq!(outs[3], vec![0.0, 5.0]);
}

#[test]
fn computes_without_recurrent_edges() {
    let some_net = Net::new(1, 1, nodes(&['l', 'l']), edges(&[(0, 1.0, 1)]));
    let outs = recurrent_run(&some_net, &[vec![5.0]]);
    assert_eq!(outs[0], vec![5.0]);
}

#[test]
fn stateful_net_evaluator_with_hidden_node() {
    let mut some_net = Net::new(1, 1, nodes(&['l', 'l', 'l']), edges(&[(0, 1.0, 1), (1, 1.0, 2)]));
    some_net.set_recurrent_edges(edges(&[(1, 1.0, 1)]));
    let outs = recurrent_run(&some_net, &[vec![1.0], vec![1.0], vec![1.0]]);
    assert_eq!(outs[0], vec![1.0]);
    assert_eq!(outs[1], vec![2.0]);
    assert_eq!(outs[2], vec![3.0]);
}

#[test]
fn stateful_net_evaluator_not_all_inputs_connected() {
    let mut some_net = Net::new(2, 1, nodes(&['l', 'l', 'l']), edges(&[(0, 1.0, 2)]));
    some_net.set_recurrent_edges(edges(&[(0, 1.0, 2)]));
    let outs = recurrent_run(&some_net, &[vec![1.0, 1.0], vec![1.0, 1.0], vec![1.0, 1.0]]);
    assert_eq!(outs[0], vec![1.0]);
    assert_eq!(outs[1], vec![2.0]);
    assert_eq!(outs[2], vec![2.0]);
}

#[test]
fn stateful_net_evaluator_not_all_inputs_connected_with_hidden_node() {
    let mut some_net =
        Net::new(2, 1, nodes(&['l', 'l', 'l', 'l']), edges(&[(0, 1.0, 2), (2, 1.0, 3)]));
    some_net.set_recurrent_edges(edges(&[(0, 1.0, 2), (2, 1.0, 2)]));
    let outs = recurrent_run(&some_net, &[vec![1.0, 1.0], vec![1.0, 1.0], vec![1.0, 1.0]]);
    assert_eq!(outs[0], vec![1.0]);
    assert_eq!(outs[1], vec![3.0]);
    assert_eq!(outs[2], vec![5.0]);
}

#[test]
fn stateful_net_evaluator_two_hidden_nodes() {
    let mut some_net = Net::new(
        1,
        1,
        nodes(&['l', 'l', 'l', 'l']),
        edges(&[(0, 1.0, 1), (0, 1.0, 2), (1, 1.0, 3), (2, 1.0, 3)]),
    );
    some_net.set_recurrent_edges(edges(&[(3, 1.0, 1), (3, 1.0, 2)]));
    let outs = recurrent_run(&some_net, &[vec![1.0], vec![1.0], vec![1.0]]);
    assert_eq!(outs[0], vec![2.0]);
    assert_eq!(outs[1], vec![6.0]);
    assert_eq!(outs[2], vec![14.0]);
}
