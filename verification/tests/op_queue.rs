use vdom::element::div;
use vdom::op_queue::OpQueue;
use vdom::ops::NodeOp;

#[test]
fn adding_skips() {
    let mut queue = OpQueue::new();

    queue.push(NodeOp::Skip(1));
    queue.push(NodeOp::Skip(2));
    queue.push(NodeOp::Skip(1));

    let result = queue.done();

    assert_eq!(result, vec![NodeOp::Skip(4)]);
}

#[test]
fn adding_removes() {
    let mut queue = OpQueue::new();

    queue.push(NodeOp::Remove(3));
    queue.push(NodeOp::Remove(1));
    queue.push(NodeOp::Remove(5));

    let result = queue.done();

    assert_eq!(result, vec![NodeOp::Remove(9)]);
}

#[test]
fn adding_mixed_ops() {
    let node = div().done();
    let mut queue = OpQueue::new();

    queue.push(NodeOp::Skip(1));
    queue.push(NodeOp::Skip(1));
    queue.push(NodeOp::Skip(1));
    queue.push(NodeOp::Remove(2));
    queue.push(NodeOp::Replace(&node));
    queue.push(NodeOp::Replace(&node));
    queue.push(NodeOp::Skip(2));
    queue.push(NodeOp::Skip(5));
    queue.push(NodeOp::Remove(1));
    queue.push(NodeOp::Replace(&node));
    queue.push(NodeOp::Remove(4));
    queue.push(NodeOp::Skip(4));

    let result = queue.done();

    assert_eq!(
        result,
        vec![
            NodeOp::Skip(3),
            NodeOp::Remove(2),
            NodeOp::Replace(&node),
            NodeOp::Replace(&node),
            NodeOp::Skip(7),
            NodeOp::Remove(1),
            NodeOp::Replace(&node),
            NodeOp::Remove(4),
            NodeOp::Skip(4),
        ]
    );
}

#[test]
fn removing_single_skip() {
    let mut queue = OpQueue::new();
    queue.push(NodeOp::Skip(5));
    queue.push(NodeOp::Skip(2));
    assert_eq!(queue.remove_single_skip().done(), vec![]);

    let mut queue = OpQueue::new();
    queue.push(NodeOp::Skip(5));
    queue.push(NodeOp::Remove(4));
    assert_eq!(
        queue.remove_single_skip().done(),
        vec![NodeOp::Skip(5), NodeOp::Remove(4)]
    );
}

#[test]
fn reversing_the_queue() {
    let mut queue = OpQueue::new();
    queue.push(NodeOp::Skip(1));
    queue.push(NodeOp::Remove(2));
    queue.push(NodeOp::Skip(3));
    assert_eq!(
        queue.done_reverse(),
        vec![NodeOp::Skip(3), NodeOp::Remove(2), NodeOp::Skip(1)]
    );
}
