use vdom::diff::diff;
use vdom::diff::positions_lis;
use vdom::element::div;
use vdom::element::hr;
use vdom::element::p;
use vdom::element::VElement;
use vdom::node::VNode;
use vdom::ops::AttrOp;
use vdom::ops::NodeOp;
use vdom::text::text;
use vdom::text::VText;

/// Old-list positions consumed by an operation list.
fn consumed(ops: &[NodeOp]) -> usize {
    let mut total: usize = 0;
    for op in ops {
        total += match op {
            NodeOp::Skip(n) => *n,
            NodeOp::Remove(n) => *n,
            _ => 1,
        };
    }
    total
}

#[test]
fn diff_of_identical_element_is_skip() {
    let make = || {
        div()
            .key("root")
            .class("user")
            .attr("id", "main")
            .child(p().key("a").text("one"))
            .child(p().key("b").text("two"))
            .done()
    };
    let old = make();
    let new = make();
    assert_eq!(diff(&old, &new), NodeOp::Skip(1));
}

#[test]
fn diff_of_identical_text_is_skip() {
    let old = text("hello").done();
    let new = text("hello").done();
    assert_eq!(diff(&old, &new), NodeOp::Skip(1));
}

#[test]
fn diff_of_changed_text_is_replace() {
    let old = text("hello").done();
    let new = text("world").done();
    assert_eq!(diff(&old, &new), NodeOp::Replace(&new));
}

#[test]
fn equal_attributes_in_another_order_is_skip() {
    let old = div()
        .class("one")
        .class("two")
        .attr("a", "1")
        .attr("b", "2")
        .done();
    let new = div()
        .class("two")
        .class("one")
        .attr("b", "2")
        .attr("a", "1")
        .done();
    assert_eq!(diff(&old, &new), NodeOp::Skip(1));
}

#[test]
fn toggled_class() {
    let old = div().class("user").class("offline").done();
    let new = div().class("user").class("online").done();
    assert_eq!(
        diff(&old, &new),
        NodeOp::Update(
            Some(vec![
                AttrOp::RemoveClass("offline".to_string()),
                AttrOp::InsertClass("online".to_string()),
            ]),
            None,
            None
        )
    );
}

#[test]
fn child_diff_consumes_whole_old_list() {
    let old = div()
        .child(p().key("c1"))
        .child(p().key("c2"))
        .child(p().key("c3"))
        .child(p().key("c4"))
        .child(p().key("c5"))
        .child(p().key("c6"))
        .done();
    let new = div()
        .child(p().key("c6"))
        .child(p().key("c1"))
        .child(p().key("c9"))
        .done();
    match diff(&old, &new) {
        NodeOp::Update(_, Some(ops), _) => {
            assert_eq!(consumed(&ops), 6);
        }
        other => panic!("expected a child diff, got {:?}", other),
    }
}

#[test]
fn inserts_are_strictly_increasing() {
    let old = div()
        .child(p().key("c1"))
        .child(p().key("c2"))
        .child(p().key("c3"))
        .child(p().key("c4"))
        .done();
    let new = div()
        .child(p().key("x1"))
        .child(p().key("c2"))
        .child(p().key("x2"))
        .child(p().key("c4"))
        .child(p().key("x3"))
        .done();
    match diff(&old, &new) {
        NodeOp::Update(_, _, Some(inserts)) => {
            assert!(!inserts.is_empty());
            for pair in inserts.windows(2) {
                assert!(pair[0].0 < pair[1].0);
            }
        }
        other => panic!("expected inserts, got {:?}", other),
    }
}

#[test]
fn unchanged_children_produce_no_child_diff() {
    // The attribute change alone must not drag a "skip all children"
    // list into the result.
    let old = div().class("a").child(p()).child(p()).done();
    let new = div().class("b").child(p()).child(p()).done();
    assert_eq!(
        diff(&old, &new),
        NodeOp::Update(
            Some(vec![
                AttrOp::RemoveClass("a".to_string()),
                AttrOp::InsertClass("b".to_string()),
            ]),
            None,
            None
        )
    );
}

#[test]
fn adjacent_removes_and_skips_are_merged() {
    let old = div()
        .child(p().key("a"))
        .child(p().key("b"))
        .child(p().key("c"))
        .child(p().key("d"))
        .done();
    let new = div().child(p().key("c")).child(p().key("d")).done();
    assert_eq!(
        diff(&old, &new),
        NodeOp::Update(
            None,
            Some(vec![NodeOp::Remove(2), NodeOp::Skip(2)]),
            None
        )
    );
}

#[test]
fn lis_of_scattered_positions() {
    let positions = vec![Some(1), Some(0), Some(2), Some(4), Some(3)];
    assert_eq!(positions_lis(&positions), vec![0, 2, 3]);
}

#[test]
fn lis_of_undefined_positions_is_empty() {
    let positions: Vec<Option<usize>> = vec![None, None, None];
    assert_eq!(positions_lis(&positions), Vec::<usize>::new());
    assert_eq!(positions_lis(&Vec::new()), Vec::<usize>::new());
}

#[test]
fn lis_of_increasing_positions_takes_all() {
    let positions = vec![Some(2), Some(5), Some(7)];
    assert_eq!(positions_lis(&positions), vec![2, 5, 7]);
}

#[test]
fn class_list_splits_on_whitespace() {
    let e = div().class_list("  aaa \t bbb\nccc  ");
    let classes = e.get_classes().clone();
    assert_eq!(classes, vec!["aaa", "bbb", "ccc"]);
}

#[test]
fn class_list_deduplicates() {
    let e = div().class_list("aaa aaa bbb").class_list("bbb aaa");
    let classes = e.get_classes().clone();
    assert_eq!(classes, vec!["aaa", "bbb"]);
}

#[test]
fn attr_overwrites_same_name() {
    let e = div().attr("k", "1").attr("k", "2").attr("m", "3");
    let attrs = e.get_attributes().clone();
    assert_eq!(
        attrs,
        vec![
            ("k".to_string(), "2".to_string()),
            ("m".to_string(), "3".to_string())
        ]
    );
}

#[test]
fn duplicate_keys_match_last_occurrence() {
    let old = div()
        .child(p().key("m"))
        .child(p().key("a").class("r"))
        .child(p().key("b"))
        .done();
    let new = div()
        .child(p().key("a").class("s"))
        .child(p().key("a").class("t"))
        .child(p().key("c"))
        .done();
    // The surviving old "a" child pairs with the *last* "a" of the new
    // middle, as a map filled in order would resolve it.
    assert_eq!(
        diff(&old, &new),
        NodeOp::Update(
            None,
            Some(vec![
                NodeOp::Remove(1),
                NodeOp::Update(
                    Some(vec![
                        AttrOp::RemoveClass("r".to_string()),
                        AttrOp::InsertClass("t".to_string()),
                    ]),
                    None,
                    None
                ),
                NodeOp::Remove(1),
            ]),
            Some(vec![
                (0, &p().key("a").class("s").done()),
                (2, &p().key("c").done()),
            ])
        )
    );
}

#[test]
fn unkeyed_children_in_keyed_middle_are_replaced() {
    let old = div().child(p().key("a")).child(p()).done();
    let new = div().child(p().key("b")).child(div().key("c")).done();
    // Children without keys in a reconciled middle are never matched:
    // the old ones are removed and the new ones inserted.
    assert_eq!(
        diff(&old, &new),
        NodeOp::Update(
            None,
            Some(vec![NodeOp::Remove(2)]),
            Some(vec![
                (0, &p().key("b").done()),
                (1, &div().key("c").done()),
            ])
        )
    );
}

#[test]
fn builders_and_getters() {
    let e = VElement::new("section")
        .key("k")
        .class("c")
        .attr("a", "v")
        .child(p())
        .text("tail");
    assert_eq!(e.get_tag(), "section");
    assert!(!e.is_void());
    assert_eq!(e.get_key(), Some(&"k".to_string()));
    assert_eq!(e.get_children().len(), 2);

    let v = VElement::new_void("img");
    assert!(v.is_void());
    assert_eq!(v.get_key(), None);

    let t = VText::new("body");
    assert_eq!(t.get_content(), "body");
    let n = t.done();
    assert_eq!(n.key(), None);

    let hr_node = hr().done();
    match &hr_node {
        VNode::Element(el) => assert!(el.is_void()),
        VNode::Text(_) => panic!("expected an element"),
    }

    let keyed = div().key("z").done();
    assert_eq!(keyed.key(), Some(&"z".to_string()));
}
