use vdom::diff::diff;
use vdom::element::div;
use vdom::element::p;
use vdom::ops::AttrOp;
use vdom::ops::NodeOp;
use vdom::text::text;

//
// # Comparing types and tags
//

#[test]
fn different_vnode_types() {
    let old = div().done();
    let new = text("").done();

    let result = diff(&old, &new);

    assert_eq!(result, NodeOp::Replace(&new));
}

#[test]
fn different_velement_tags() {
    let old = div().done();
    let new = p().done();

    let result = diff(&old, &new);

    assert_eq!(result, NodeOp::Replace(&new));
}

#[test]
fn same_tags() {
    let old = div().done();
    let new = div().done();

    let result = diff(&old, &new);

    assert_eq!(result, NodeOp::Skip(1));
}

//
// # Comparing attributes
//

#[test]
fn same_tags_with_different_keys() {
    let old = div().key("a").done();
    let new = div().key("b").done();

    let result = diff(&old, &new);

    assert_eq!(result, NodeOp::Replace(&new));
}

#[test]
fn same_tags_with_same_classes() {
    let old = div().class_list("aaa bbb").done();
    let new = div().class_list("aaa bbb").done();

    let result = diff(&old, &new);

    assert_eq!(result, NodeOp::Skip(1));
}

#[test]
fn same_tags_with_different_classes() {
    let old = div().class_list("aaa bbb").done();
    let new = div().class_list("bbb ccc").done();

    let result = diff(&old, &new);

    assert_eq!(
        result,
        NodeOp::Update(
            Some(vec![
                AttrOp::RemoveClass("aaa".to_string()),
                AttrOp::InsertClass("ccc".to_string()),
            ]),
            None,
            None
        )
    );
}

#[test]
fn same_tags_with_same_attributes() {
    let old = div().attr("attr_a", "aaa").attr("attr_b", "bbb").done();

    let new = div().attr("attr_a", "aaa").attr("attr_b", "bbb").done();

    let result = diff(&old, &new);

    assert_eq!(result, NodeOp::Skip(1));
}

#[test]
fn same_tags_with_different_attributes() {
    let old = div()
        .attr("attr_a", "aaa")
        .attr("attr_b", "bbb")
        .attr("attr_c", "ccc")
        .done();

    let new = div()
        .attr("attr_b", "bbb")
        .attr("attr_c", "***")
        .attr("attr_d", "ddd")
        .done();

    let result = diff(&old, &new);

    if let NodeOp::Update(Some(attr_diff), None, None) = result {
        assert_eq!(attr_diff.len(), 3);
        assert!(attr_diff.contains(&AttrOp::Remove("attr_a".to_string())));
        assert!(attr_diff.contains(&AttrOp::Update("attr_c".to_string(), "***".to_string())));
        assert!(attr_diff.contains(&AttrOp::Insert("attr_d".to_string(), "ddd".to_string())));
    } else {
        panic!("No attribute diff.")
    }
}

//
// # Comparing unkeyed children
//

#[test]
fn same_unkeyed_children() {
    let old = div().child(p()).child(p()).child(p()).done();

    let new = div().child(p()).child(p()).child(p()).done();

    let result = diff(&old, &new);

    assert_eq!(result, NodeOp::Skip(1));
}

#[test]
fn inserted_all_unkeyed_children() {
    let old = div().done();

    let new = div().child(p()).child(p()).child(p()).done();

    let result = diff(&old, &new);

    assert_eq!(
        result,
        NodeOp::Update(
            None,
            None,
            Some(vec![(0, &p().done()), (1, &p().done()), (2, &p().done())])
        )
    );
}

#[test]
fn removed_all_unkeyed_children() {
    let old = div().child(p()).child(p()).child(p()).done();

    let new = div().done();

    let result = diff(&old, &new);

    assert_eq!(
        result,
        NodeOp::Update(None, Some(vec![NodeOp::Remove(3)]), None)
    );
}

#[test]
fn prepended_unkeyed_children() {
    let old = div().child(p()).done();

    let new = div().child(div()).child(div()).child(p()).done();

    let result = diff(&old, &new);

    assert_eq!(
        result,
        NodeOp::Update(
            None,
            Some(vec![NodeOp::Replace(&div().done())]),
            Some(vec![(1, &div().done()), (2, &p().done())])
        )
    )
}

#[test]
fn inserted_unkeyed_children() {
    let old = div().child(p()).child(p()).done();

    let new = div().child(p()).child(div()).child(p()).done();

    let result = diff(&old, &new);

    assert_eq!(
        result,
        NodeOp::Update(
            None,
            Some(vec![NodeOp::Skip(1), NodeOp::Replace(&div().done())]),
            Some(vec![(2, &p().done())])
        )
    )
}

#[test]
fn appended_unkeyed_children() {
    let old = div().child(p()).done();

    let new = div().child(p()).child(div()).child(div()).done();

    let result = diff(&old, &new);

    assert_eq!(
        result,
        NodeOp::Update(
            None,
            None,
            Some(vec![(1, &div().done()), (2, &div().done())])
        )
    )
}

#[test]
fn inserted_and_modified_unkeyed_children() {
    let old = div()
        .child(div().child(p()).child(p()))
        .child(div().child(div()))
        .done();

    let new = div()
        .child(div().child(p()).child(p()).child(p()))
        .child(p().text("Hello"))
        .child(div())
        .done();

    let result = diff(&old, &new);

    assert_eq!(
        result,
        NodeOp::Update(
            None,
            Some(vec![
                NodeOp::Update(None, None, Some(vec![(2, &p().done())])),
                NodeOp::Replace(&p().text("Hello").done()),
            ]),
            Some(vec![(2, &div().done())])
        )
    );
}

//
// # Comparing keyed children
//

#[test]
fn same_keyed_children() {
    let old = div()
        .key("p")
        .child(p().key("c1"))
        .child(p().key("c2"))
        .child(p().key("c3"))
        .done();

    let new = div()
        .key("p")
        .child(p().key("c1"))
        .child(p().key("c2"))
        .child(p().key("c3"))
        .done();

    let result = diff(&old, &new);

    assert_eq!(result, NodeOp::Skip(1));
}

#[test]
fn inserted_all_keyed_children() {
    let old = div().key("p").done();

    let new = div()
        .key("p")
        .child(p().key("c1"))
        .child(p().key("c2"))
        .child(p().key("c3"))
        .done();

    let result = diff(&old, &new);

    assert_eq!(
        result,
        NodeOp::Update(
            None,
            None,
            Some(vec![
                (0, &p().key("c1").done()),
                (1, &p().key("c2").done()),
                (2, &p().key("c3").done()),
            ])
        )
    );
}

#[test]
fn removed_all_keyed_children() {
    let old = div()
        .key("p")
        .child(p().key("c1"))
        .child(p().key("c2"))
        .child(p().key("c3"))
        .done();

    let new = div().key("p").done();

    let result = diff(&old, &new);

    assert_eq!(
        result,
        NodeOp::Update(None, Some(vec![NodeOp::Remove(3)]), None)
    );
}

#[test]
fn prepended_keyed_children() {
    let old = div()
        .key("p")
        .child(p().key("c2"))
        .child(p().key("c3"))
        .done();

    let new = div()
        .key("p")
        .child(p().key("c1"))
        .child(p().key("c2"))
        .child(p().key("c3"))
        .done();

    let result = diff(&old, &new);

    assert_eq!(
        result,
        NodeOp::Update(None, None, Some(vec![(0, &p().key("c1").done())]))
    );
}

#[test]
fn inserted_keyed_children() {
    let old = div()
        .key("p")
        .child(p().key("c1"))
        .child(p().key("c3"))
        .done();

    let new = div()
        .key("p")
        .child(p().key("c1"))
        .child(p().key("c2"))
        .child(p().key("c3"))
        .done();

    let result = diff(&old, &new);

    assert_eq!(
        result,
        NodeOp::Update(None, None, Some(vec![(1, &p().key("c2").done())]))
    );
}

#[test]
fn appended_keyed_children() {
    let old = div()
        .key("p")
        .child(p().key("c1"))
        .child(p().key("c2"))
        .done();

    let new = div()
        .key("p")
        .child(p().key("c1"))
        .child(p().key("c2"))
        .child(p().key("c3"))
        .done();

    let result = diff(&old, &new);

    assert_eq!(
        result,
        NodeOp::Update(None, None, Some(vec![(2, &p().key("c3").done())]))
    );
}

#[test]
fn removed_middle_keyed_children() {
    let old = div()
        .key("p")
        .child(p().key("c1"))
        .child(p().key("c2"))
        .child(p().key("c3"))
        .child(p().key("c4"))
        .child(p().key("c5"))
        .child(p().key("c6"))
        .done();

    let new = div()
        .key("p")
        .child(p().key("c1"))
        .child(p().key("c4"))
        .child(p().key("c5"))
        .done();

    let result = diff(&old, &new);

    assert_eq!(
        result,
        NodeOp::Update(
            None,
            Some(vec![
                NodeOp::Skip(1),
                NodeOp::Remove(2),
                NodeOp::Skip(2),
                NodeOp::Remove(1)
            ]),
            None
        )
    );
}

#[test]
fn replaced_middle_keyed_children() {
    let old = div()
        .key("p")
        .child(p().key("c1"))
        .child(p().key("c2"))
        .child(p().key("c3"))
        .child(p().key("c4"))
        .done();

    let new = div()
        .key("p")
        .child(p().key("c1"))
        .child(div().key("d1"))
        .child(div().key("d2"))
        .child(p().key("c4"))
        .done();

    let result = diff(&old, &new);

    assert_eq!(
        result,
        NodeOp::Update(
            None,
            Some(vec![NodeOp::Skip(1), NodeOp::Remove(2), NodeOp::Skip(1)]),
            Some(vec![
                (1, &div().key("d1").done()),
                (2, &div().key("d2").done()),
            ])
        )
    );
}

#[test]
fn replaced_beginning_keyed_children() {
    let old = div()
        .key("p")
        .child(p().key("c1"))
        .child(p().key("c2"))
        .child(p().key("c3"))
        .child(p().key("c4"))
        .done();

    let new = div()
        .key("p")
        .child(p().key("d1"))
        .child(div().key("d2"))
        .child(p().key("c3"))
        .child(p().key("c4"))
        .done();

    let result = diff(&old, &new);

    assert_eq!(
        result,
        NodeOp::Update(
            None,
            Some(vec![NodeOp::Remove(2), NodeOp::Skip(2)]),
            Some(vec![
                (0, &p().key("d1").done()),
                (1, &div().key("d2").done()),
            ])
        )
    );
}

#[test]
fn replaced_end_keyed_children() {
    let old = div()
        .key("p")
        .child(p().key("c1"))
        .child(p().key("c2"))
        .child(p().key("c3"))
        .child(p().key("c4"))
        .done();

    let new = div()
        .key("p")
        .child(p().key("c1"))
        .child(p().key("c2"))
        .child(div().key("d1"))
        .child(p().key("d2"))
        .done();

    let result = diff(&old, &new);

    assert_eq!(
        result,
        NodeOp::Update(
            None,
            Some(vec![NodeOp::Skip(2), NodeOp::Remove(2)]),
            Some(vec![
                (2, &div().key("d1").done()),
                (3, &p().key("d2").done()),
            ])
        )
    );
}

#[test]
fn moved_keyed_children() {
    let old = div()
        .key("p")
        .child(p().key("c1"))
        .child(p().key("c2"))
        .child(p().key("c3"))
        .child(p().key("c4"))
        .child(p().key("c5"))
        .done();

    let new = div()
        .key("p")
        .child(p().key("c2"))
        .child(p().key("c1"))
        .child(p().key("c3"))
        .child(p().key("c5"))
        .child(p().key("c4"))
        .done();

    let result = diff(&old, &new);

    assert_eq!(
        result,
        NodeOp::Update(
            None,
            Some(vec![
                NodeOp::Skip(1),
                NodeOp::Move(0, None, None, None),
                NodeOp::Skip(2),
                NodeOp::Move(3, None, None, None),
            ]),
            None,
        )
    );
}

#[test]
fn moved_and_updated_keyed_children() {
    let old = div()
        .key("p")
        .child(p().key("c1"))
        .child(p().key("c2"))
        .child(p().key("c3"))
        .child(p().key("c4"))
        .child(p().key("c5"))
        .done();

    let new = div()
        .key("p")
        .child(p().key("c2").child(p()))
        .child(p().key("c1").class("aaa"))
        .child(p().key("c3"))
        .child(p().key("c5"))
        .child(p().key("c4"))
        .done();

    let result = diff(&old, &new);

    assert_eq!(
        result,
        NodeOp::Update(
            None,
            Some(vec![
                NodeOp::Update(
                    Some(vec![AttrOp::InsertClass("aaa".to_string())]),
                    None,
                    None,
                ),
                NodeOp::Move(0, None, None, Some(vec![(0, &p().done())])),
                NodeOp::Skip(2),
                NodeOp::Move(3, None, None, None),
            ]),
            None,
        )
    );
}
