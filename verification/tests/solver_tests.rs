use sat_solver::assignment::{get_assignment_keys, Assignment};
use sat_solver::formula::{initial_assignment, pure_literal_elimination};
use sat_solver::node::{false_check, Node};
use sat_solver::search::{add_task, get_task};

#[test]
fn test_initial_assignment() {
    let formula = vec![vec![1, 2, 3], vec![-1, -2], vec![-3, 4]];
    let result = initial_assignment(&formula);
    assert_eq!(result.len(), 4);
    assert_eq!(result.get(1), Some(None));
    assert_eq!(result.get(2), Some(None));
    assert_eq!(result.get(3), Some(None));
    assert_eq!(result.get(4), Some(None));
    assert_eq!(result.get(5), None);
}

#[test]
fn test_pure_literal_elimination_and_simplify() {
    let formula = vec![
        vec![1, 2],
        vec![2, 3],
        vec![-4, -2, 3],
        vec![-1, -2, 3],
        vec![-4, 2, 3],
    ];
    let mut assignment = Assignment::new();
    assignment.put(1, None);
    assignment.put(2, None);
    assignment.put(3, None);
    assignment.put(4, None);
    let new_formula = pure_literal_elimination(&formula, &mut assignment);
    assert_eq!(assignment.get(1), Some(None));
    assert_eq!(assignment.get(2), Some(None));
    assert_eq!(assignment.get(3), Some(Some(true)));
    assert_eq!(assignment.get(4), Some(Some(false)));
    assert_eq!(new_formula, vec![vec![1, 2]]);
}

#[test]
fn test_false_check() {
    let formula = vec![
        vec![1, 2],
        vec![2, 3],
        vec![-4, -2, 3],
        vec![-1, -2, 3],
        vec![-4, 2, 3],
    ];
    let mut assignment = Assignment::new();
    assignment.put(1, None);
    assignment.put(2, Some(true));
    assignment.put(3, Some(false));
    assignment.put(4, Some(false));
    let node = Node::new(formula, Some(false), 1, assignment);
    assert_eq!(false_check(&node), 2);
}

#[test]
fn test_add_and_get_task() {
    let mut tasklist: Vec<Node> = vec![];

    let node1 = Node {
        formula: vec![vec![1, -2], vec![-1, 3], vec![-3, -4]],
        value: None,
        variable: 1,
        assignment: Assignment::new(),
    };

    let node2 = Node {
        formula: vec![vec![-2, 3], vec![-1, 3], vec![1, 2]],
        value: None,
        variable: 2,
        assignment: Assignment::new(),
    };

    let node3 = Node {
        formula: vec![vec![-1, 3], vec![-1, 3], vec![1, 2]],
        value: None,
        variable: 2,
        assignment: Assignment::new(),
    };

    add_task(node1, &mut tasklist);
    add_task(node2, &mut tasklist);
    add_task(node3, &mut tasklist);

    let popped_node = get_task(&mut tasklist).unwrap();
    assert_eq!(popped_node.variable, 2);

    let popped_node = get_task(&mut tasklist).unwrap();
    assert_eq!(popped_node.variable, 2);

    let popped_node = get_task(&mut tasklist).unwrap();
    assert_eq!(popped_node.variable, 1);

    assert!(tasklist.is_empty());
}

#[test]
fn test_get_assignment_keys() {
    let mut assignment = Assignment::new();
    assignment.put(4, Some(false));
    assignment.put(2, None);
    assignment.put(1, None);
    assignment.put(3, None);
    let keys = get_assignment_keys(&assignment);
    assert_eq!(keys, vec![1, 2, 3]);
}
