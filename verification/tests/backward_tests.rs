use std::collections::HashMap;

use lib::backward::BackwardPlan;

fn run(root: usize, inputs: &HashMap<usize, Vec<usize>>) -> (Vec<usize>, Option<Vec<usize>>) {
    let mut plan = BackwardPlan::new(root);
    let mut collected = Vec::new();
    while let Some(node) = plan.next_node() {
        collected.push(node);
        let ins = inputs.get(&node).cloned().unwrap_or_default();
        plan.add_inputs(node, &ins);
    }
    assert!(plan.is_finished());
    (collected, plan.order())
}

fn position(order: &[usize], x: usize) -> usize {
    order.iter().position(|&y| y == x).unwrap()
}

#[test]
fn expression_graph_is_ordered_output_first() {
    // 10 = 11 + 12, 11 = 13 * 14, 12 = 13 * 13
    let mut inputs = HashMap::new();
    inputs.insert(10, vec![11, 12]);
    inputs.insert(11, vec![13, 14]);
    inputs.insert(12, vec![13, 13]);
    let (collected, order) = run(10, &inputs);
    assert_eq!(collected, vec![10, 11, 12, 13, 14]);
    let order = order.unwrap();
    assert_eq!(order.len(), 5);
    assert_eq!(order[0], 10);
    for (node, ins) in inputs.iter() {
        for i in ins {
            assert!(position(&order, *node) < position(&order, *i));
        }
    }
}

#[test]
fn single_node_plan() {
    let (collected, order) = run(3, &HashMap::new());
    assert_eq!(collected, vec![3]);
    assert_eq!(order, Some(vec![3]));
}

#[test]
fn shared_input_is_collected_once() {
    let mut inputs = HashMap::new();
    inputs.insert(1, vec![2, 2]);
    let (collected, order) = run(1, &inputs);
    assert_eq!(collected, vec![1, 2]);
    assert_eq!(order, Some(vec![1, 2]));
}

#[test]
fn cycle_gives_no_order() {
    let mut inputs = HashMap::new();
    inputs.insert(1, vec![2]);
    inputs.insert(2, vec![1]);
    let (collected, order) = run(1, &inputs);
    assert_eq!(collected, vec![1, 2]);
    assert_eq!(order, None);
}

#[test]
fn deep_chain_is_reversed_data_flow() {
    // node i + 1 consumes node i, the output is node 20
    let mut inputs = HashMap::new();
    for i in 1..=20usize {
        inputs.insert(i, vec![i - 1]);
    }
    let (_, order) = run(20, &inputs);
    let expected: Vec<usize> = (0..=20).rev().collect();
    assert_eq!(order, Some(expected));
}

#[test]
fn pending_queue_follows_breadth_first_order() {
    let mut plan = BackwardPlan::new(0);
    assert!(!plan.is_finished());
    assert_eq!(plan.next_node(), Some(0));
    plan.add_inputs(0, &vec![5, 4, 5]);
    assert_eq!(plan.next_node(), Some(5));
    plan.add_inputs(5, &vec![4, 3]);
    assert_eq!(plan.next_node(), Some(4));
    assert_eq!(plan.next_node(), Some(3));
    assert_eq!(plan.next_node(), None);
    assert!(plan.is_finished());
}
