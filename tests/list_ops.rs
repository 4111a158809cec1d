use singly::node::Node;

fn build(values: &[i32]) -> Option<Box<Node>> {
    let mut head = None;
    for &v in values {
        head = Node::insert_at_tail(head, v);
    }
    head
}

fn items(head: &Option<Box<Node>>) -> Vec<i32> {
    Node::to_vec(head)
}

#[test]
fn new_node_has_no_successor() {
    let n = Node::new(7);
    assert_eq!(n.data, 7);
    assert!(n.next.is_none());
}

#[test]
fn reference_trace_scenario() {
    let mut head = None;
    head = Node::insert_at_head(head, 10);
    assert_eq!(items(&head), vec![10]);
    head = Node::insert_at_head(head, 20);
    assert_eq!(items(&head), vec![20, 10]);
    head = Node::insert_at_head(head, 30);
    assert_eq!(items(&head), vec![30, 20, 10]);
    head = Node::insert_at_tail(head, 40);
    assert_eq!(items(&head), vec![30, 20, 10, 40]);
    head = Node::insert_at_index(head, 50, 2).unwrap();
    assert_eq!(items(&head), vec![30, 20, 50, 10, 40]);
    head = Node::delete_at_head(head);
    assert_eq!(items(&head), vec![20, 50, 10, 40]);
    head = Node::delete_at_tail(head);
    assert_eq!(items(&head), vec![20, 50, 10]);
    head = Node::delete_at_index(head, 1).unwrap();
    assert_eq!(items(&head), vec![20, 10]);
    head = Node::reverse(head);
    assert_eq!(items(&head), vec![10, 20]);
}

#[test]
fn get_matches_array_model_after_inserts() {
    let mut model: Vec<i32> = Vec::new();
    let mut head = None;
    let steps: [(u8, i32, usize); 8] = [
        (0, 1, 0),
        (1, 2, 0),
        (2, 3, 1),
        (0, 4, 0),
        (2, 5, 4),
        (1, 6, 0),
        (2, 7, 0),
        (2, 8, 3),
    ];
    for &(kind, v, k) in steps.iter() {
        match kind {
            0 => {
                head = Node::insert_at_head(head, v);
                model.insert(0, v);
            }
            1 => {
                head = Node::insert_at_tail(head, v);
                model.push(v);
            }
            _ => {
                head = Node::insert_at_index(head, v, k).unwrap();
                model.insert(k, v);
            }
        }
        for (i, want) in model.iter().enumerate() {
            assert_eq!(Node::get(&head, i).map(|n| n.data), Some(*want));
        }
        assert!(Node::get(&head, model.len()).is_none());
    }
    assert_eq!(items(&head), model);
}

#[test]
fn get_past_end_is_none() {
    let head = build(&[1, 2, 3]);
    assert!(Node::get(&head, 3).is_none());
    assert!(Node::get(&head, usize::MAX).is_none());
    assert!(Node::get(&None, 0).is_none());
    let n = Node::get(&head, 1).unwrap();
    assert_eq!(n.data, 2);
    assert_eq!(n.next.as_ref().unwrap().data, 3);
}

#[test]
fn reverse_twice_restores_list() {
    for values in [vec![], vec![5], vec![1, 2], vec![3, -1, 4, 1, -5, 9]] {
        let head = build(&values);
        let once = Node::reverse(head);
        let mut expected = values.clone();
        expected.reverse();
        assert_eq!(items(&once), expected);
        let twice = Node::reverse(once);
        assert_eq!(items(&twice), values);
    }
}

#[test]
fn head_insert_then_delete_round_trip() {
    for values in [vec![], vec![8], vec![1, 2, 3]] {
        let head = build(&values);
        let head = Node::delete_at_head(Node::insert_at_head(head, 99));
        assert_eq!(items(&head), values);
    }
}

#[test]
fn tail_insert_then_delete_round_trip() {
    for values in [vec![], vec![8], vec![1, 2, 3]] {
        let head = Node::insert_at_tail(build(&values), 42);
        let got = items(&head);
        assert_eq!(got.len(), values.len() + 1);
        assert_eq!(*got.last().unwrap(), 42);
        let head = Node::delete_at_tail(head);
        assert_eq!(items(&head), values);
    }
}

#[test]
fn insert_at_index_every_position() {
    let values = vec![10, 20, 30];
    for k in 0..=values.len() {
        let head = Node::insert_at_index(build(&values), 7, k).unwrap();
        let mut expected = values.clone();
        expected.insert(k, 7);
        assert_eq!(items(&head), expected);
    }
}

#[test]
fn insert_at_index_past_end_hands_list_back() {
    let err = Node::insert_at_index(build(&[1, 2]), 9, 3).unwrap_err();
    assert_eq!(items(&err.head), vec![1, 2]);
    let err = Node::insert_at_index(None, 9, 1).unwrap_err();
    assert!(err.head.is_none());
    let head = Node::insert_at_index(None, 9, 0).unwrap();
    assert_eq!(items(&head), vec![9]);
}

#[test]
fn delete_at_index_positions() {
    let values = vec![10, 20, 30, 40];
    for k in 0..values.len() {
        let head = Node::delete_at_index(build(&values), k).unwrap();
        let mut expected = values.clone();
        expected.remove(k);
        assert_eq!(items(&head), expected);
    }
}

#[test]
fn delete_at_index_past_end_hands_list_back() {
    let err = Node::delete_at_index(build(&[1, 2, 3]), 3).unwrap_err();
    assert_eq!(items(&err.head), vec![1, 2, 3]);
    let err = Node::delete_at_index(build(&[1]), usize::MAX).unwrap_err();
    assert_eq!(items(&err.head), vec![1]);
}

#[test]
fn deletes_on_empty_list_are_no_ops() {
    assert!(Node::delete_at_head(None).is_none());
    assert!(Node::delete_at_tail(None).is_none());
    assert!(Node::delete_at_index(None, 0).unwrap().is_none());
    assert!(Node::delete_at_index(None, 5).unwrap().is_none());
}

#[test]
fn deletes_on_single_node_list() {
    assert!(Node::delete_at_head(build(&[1])).is_none());
    assert!(Node::delete_at_tail(build(&[1])).is_none());
    assert!(Node::delete_at_index(build(&[1]), 0).unwrap().is_none());
}

#[test]
fn traverse_apply_visits_each_payload_in_order() {
    let mut head = build(&[1, -2, 3]);
    Node::traverse_apply(&mut head, |x| x * 10);
    assert_eq!(items(&head), vec![10, -20, 30]);
    let mut empty: Option<Box<Node>> = None;
    Node::traverse_apply(&mut empty, |x| x + 1);
    assert!(empty.is_none());
}

#[test]
fn render_lists() {
    assert_eq!(Node::render(&None), "HEAD ->  -> NONE");
    assert_eq!(Node::render(&build(&[5])), "HEAD -> 5 -> NONE");
    assert_eq!(
        Node::render(&build(&[30, 20, 10])),
        "HEAD -> 30 -> 20 -> 10 -> NONE"
    );
    assert_eq!(
        Node::render(&build(&[-7, 0, i32::MIN, i32::MAX])),
        "HEAD -> -7 -> 0 -> -2147483648 -> 2147483647 -> NONE"
    );
}
