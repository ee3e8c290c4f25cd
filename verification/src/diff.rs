//! Tree diffing.
//!
//! The output of `diff` is a tree of operations describing, for each node
//! of the old tree, the transformation that turns it into the new tree:
//! skips, removals, in-place updates, moves and replacements, plus
//! insertion lists.  Positions in `Move` operations and in insertion pairs
//! refer to the new children list.  Runs of `Skip` and of `Remove` are
//! collapsed into counted operations by the compression queue.

use vstd::prelude::*;

use crate::element::VElement;
use crate::element::attrs_equiv;
use crate::element::classes_equiv;
use crate::element::contains_class;
use crate::element::find_attr_index;
use crate::element::lemma_attr_at_unique;
use crate::node::VNode;
use crate::node::node_equiv;
use crate::node::node_size;
use crate::node::node_wf;
use crate::node::keys_distinct;
use crate::node::node_keys_distinct;
use crate::node::nodes_keys_distinct;
use crate::node::nodes_size;
use crate::node::lemma_nodes_size_elem;
use crate::op_queue::OpQueue;
use crate::ops::AttrDiff;
use crate::ops::AttrOp;
use crate::ops::AttrOpView;
use crate::ops::ChildDiff;
use crate::ops::ChildInsert;
use crate::ops::ChildInserts;
use crate::ops::NodeOp;
use crate::ops::coalesced;
use crate::ops::op_consumed;
use crate::ops::ops_consumed;
use crate::ops::ops_positive;
use crate::ops::ops_all_skip;
use crate::ops::lemma_push_op_all_skip;
use crate::ops::lemma_push_ops_all_skip;
use crate::ops::lemma_push_op_positive;
use crate::ops::push_ops;
use crate::ops::lemma_ops_consumed_nonneg;
use crate::ops::lemma_ops_consumed_push;
use crate::ops::lemma_push_op_consumed;

verus! {

/// Is `op` one of the operations that the attribute diff of `old` against
/// `new` must contain?  Classes are compared as sets, attributes as a
/// mapping from name to value.
pub open spec fn attr_op_required(old: VElement, new: VElement, op: AttrOpView) -> bool {
    match op {
        AttrOpView::RemoveClass(c) => old.has_class(c) && !new.has_class(c),
        AttrOpView::InsertClass(c) => !old.has_class(c) && new.has_class(c),
        AttrOpView::Remove(k) => old.has_attr(k) && !new.has_attr(k),
        AttrOpView::Insert(k, v) => !old.has_attr(k) && new.has_attr(k) && v == new.attr_at(k),
        AttrOpView::Update(k, v) => old.has_attr(k) && new.has_attr(k) && old.attr_at(k)
            != new.attr_at(k) && v == new.attr_at(k),
    }
}

/// Does the operation list contain an operation of this shape?
pub open spec fn attr_ops_contain(s: Seq<AttrOp>, op: AttrOpView) -> bool {
    exists|t: int| 0 <= t < s.len() && s[t]@ == op
}

/// Appending keeps every operation already contained.
proof fn lemma_contain_push(s: Seq<AttrOp>, x: AttrOp)
    ensures
        forall|op: AttrOpView|
            #[trigger] attr_ops_contain(s, op) ==> attr_ops_contain(s.push(x), op),
        attr_ops_contain(s.push(x), x@),
{
    assert forall|op: AttrOpView| #[trigger] attr_ops_contain(s, op) implies attr_ops_contain(
        s.push(x),
        op,
    ) by {
        let t = choose|t: int| 0 <= t < s.len() && s[t]@ == op;
        assert(s.push(x)[t]@ == op);
    }
    assert(s.push(x)[s.len() as int]@ == x@);
}

/// Is `op` a Remove or Update of the attribute named `k`?
pub open spec fn attr_op_on_old_key(op: AttrOpView, k: Seq<char>) -> bool {
    match op {
        AttrOpView::Remove(k1) => k1 == k,
        AttrOpView::Update(k1, _) => k1 == k,
        _ => false,
    }
}

/// Is `op` an Insert of the attribute named `k`?
pub open spec fn attr_op_insert_of(op: AttrOpView, k: Seq<char>) -> bool {
    match op {
        AttrOpView::Insert(k1, _) => k1 == k,
        _ => false,
    }
}

/// An equivalent pair of elements requires no attribute operation at all.
pub proof fn lemma_attr_equiv_no_ops(a: VElement, b: VElement)
    requires
        classes_equiv(a, b),
        attrs_equiv(a, b),
    ensures
        forall|op: AttrOpView| !attr_op_required(a, b, op),
{
    assert forall|op: AttrOpView| !attr_op_required(a, b, op) by {
        match op {
            AttrOpView::RemoveClass(c) => {
                assert(a.has_class(c) == b.has_class(c));
            },
            AttrOpView::InsertClass(c) => {
                assert(a.has_class(c) == b.has_class(c));
            },
            AttrOpView::Remove(k) => {
                assert(a.has_attr(k) == b.has_attr(k));
            },
            AttrOpView::Insert(k, v) => {
                assert(a.has_attr(k) == b.has_attr(k));
            },
            AttrOpView::Update(k, v) => {
                assert(a.has_attr(k) == b.has_attr(k));
                if a.has_attr(k) && b.has_attr(k) {
                    assert(a.attr_at(k) == b.attr_at(k));
                }
            },
        }
    }
}

/// What the attribute diff promises: absent exactly when nothing changed;
/// otherwise the list holds, without duplicates, exactly the operations
/// the pair of elements requires.
pub open spec fn attr_diff_ok(old: VElement, new: VElement, r: AttrDiff) -> bool {
    match r {
        Option::None => classes_equiv(old, new) && attrs_equiv(old, new),
        Option::Some(v) => {
            &&& v@.len() > 0
            &&& forall|t: int|
                0 <= t < v@.len() ==> attr_op_required(old, new, #[trigger] v@[t]@)
            &&& forall|op: AttrOpView|
                #[trigger] attr_op_required(old, new, op) ==> attr_ops_contain(v@, op)
            &&& forall|t1: int, t2: int| 0 <= t1 < t2 < v@.len() ==> v@[t1]@ != v@[t2]@
        },
    }
}

/// Diff the classes and attributes of two elements.  The emission order
/// within the result is not significant.
pub fn diff_attributes(old: &VElement, new: &VElement) -> (r: AttrDiff)
    ensures
        r matches Option::Some(v) ==> v@.len() > 0,
        old.wf() && new.wf() ==> attr_diff_ok(*old, *new, r),
{
    let ghost wfb = old.wf() && new.wf();
    let mut ops: Vec<AttrOp> = Vec::new();

    // Classes present on old but not on new are removed.
    let n_old_classes = old.classes.len();
    let mut i: usize = 0;
    while i < n_old_classes
        invariant
            n_old_classes == old.classes@.len(),
            i <= n_old_classes,
            wfb == (old.wf() && new.wf()),
            forall|t: int| 0 <= t < ops@.len() ==> (#[trigger] ops@[t]@) is RemoveClass,
            wfb ==> forall|t: int|
                0 <= t < ops@.len() ==> attr_op_required(*old, *new, #[trigger] ops@[t]@),
            forall|j: int|
                0 <= j < i && !new.has_class(#[trigger] old.classes@[j]@) ==> attr_ops_contain(
                    ops@,
                    AttrOpView::RemoveClass(old.classes@[j]@),
                ),
            wfb ==> forall|t1: int, t2: int|
                0 <= t1 < t2 < ops@.len() ==> ops@[t1]@ != ops@[t2]@,
            forall|t: int|
                0 <= t < ops@.len() ==> exists|j: int|
                    0 <= j < i && #[trigger] ops@[t]@ == AttrOpView::RemoveClass(
                        old.classes@[j]@,
                    ) && !new.has_class(old.classes@[j]@),
        decreases n_old_classes - i,
    {
        if !contains_class(&new.classes, &old.classes[i]) {
            let ghost prev = ops@;
            ops.push(AttrOp::RemoveClass(old.classes[i].clone()));
            proof {
                lemma_contain_push(prev, ops@[prev.len() as int]);
                assert(old.has_class(old.classes@[i as int]@));
                assert(ops@[prev.len() as int]@ == AttrOpView::RemoveClass(
                    old.classes@[i as int]@,
                ));
                if wfb {
                    assert forall|t1: int, t2: int|
                        0 <= t1 < t2 < ops@.len() implies ops@[t1]@ != ops@[t2]@ by {
                        if t2 == ops@.len() - 1 {
                            let j = choose|j: int|
                                0 <= j < i && ops@[t1]@ == AttrOpView::RemoveClass(
                                    old.classes@[j]@,
                                ) && !new.has_class(old.classes@[j]@);
                            assert(old.classes@[j]@ != old.classes@[i as int]@);
                        }
                    }
                }
            }
        }
        i = i + 1;
    }
    let ghost ops_rc = ops@;

    // Classes present on new but not on old are inserted.
    let n_new_classes = new.classes.len();
    let mut i2: usize = 0;
    while i2 < n_new_classes
        invariant
            n_new_classes == new.classes@.len(),
            i2 <= n_new_classes,
            wfb == (old.wf() && new.wf()),
            ops@.len() >= ops_rc.len(),
            ops@.subrange(0, ops_rc.len() as int) == ops_rc,
            forall|t: int| 0 <= t < ops_rc.len() ==> (#[trigger] ops@[t]@) is RemoveClass,
            forall|t: int|
                ops_rc.len() <= t < ops@.len() ==> (#[trigger] ops@[t]@) is InsertClass,
            wfb ==> forall|t: int|
                0 <= t < ops@.len() ==> attr_op_required(*old, *new, #[trigger] ops@[t]@),
            forall|j: int|
                0 <= j < old.classes@.len() && !new.has_class(#[trigger] old.classes@[j]@)
                    ==> attr_ops_contain(ops@, AttrOpView::RemoveClass(old.classes@[j]@)),
            forall|j: int|
                0 <= j < i2 && !old.has_class(#[trigger] new.classes@[j]@) ==> attr_ops_contain(
                    ops@,
                    AttrOpView::InsertClass(new.classes@[j]@),
                ),
            wfb ==> forall|t1: int, t2: int|
                0 <= t1 < t2 < ops@.len() ==> ops@[t1]@ != ops@[t2]@,
            forall|t: int|
                ops_rc.len() <= t < ops@.len() ==> exists|j: int|
                    0 <= j < i2 && #[trigger] ops@[t]@ == AttrOpView::InsertClass(
                        new.classes@[j]@,
                    ) && !old.has_class(new.classes@[j]@),
        decreases n_new_classes - i2,
    {
        if !contains_class(&old.classes, &new.classes[i2]) {
            let ghost prev = ops@;
            ops.push(AttrOp::InsertClass(new.classes[i2].clone()));
            proof {
                lemma_contain_push(prev, ops@[prev.len() as int]);
                assert(ops@.subrange(0, ops_rc.len() as int) =~= ops_rc);
                assert(new.has_class(new.classes@[i2 as int]@));
                assert(ops@[prev.len() as int]@ == AttrOpView::InsertClass(
                    new.classes@[i2 as int]@,
                ));
                if wfb {
                    assert forall|t1: int, t2: int|
                        0 <= t1 < t2 < ops@.len() implies ops@[t1]@ != ops@[t2]@ by {
                        if t2 == ops@.len() - 1 && t1 >= ops_rc.len() {
                            let j = choose|j: int|
                                0 <= j < i2 && ops@[t1]@ == AttrOpView::InsertClass(
                                    new.classes@[j]@,
                                ) && !old.has_class(new.classes@[j]@);
                            assert(new.classes@[j]@ != new.classes@[i2 as int]@);
                        }
                    }
                }
            }
        }
        i2 = i2 + 1;
    }
    let ghost ops_cl = ops@;

    // Attributes present on old: removed when gone from new, updated when
    // the value changed.
    let n_old_attrs = old.attributes.len();
    let mut i3: usize = 0;
    while i3 < n_old_attrs
        invariant
            n_old_attrs == old.attributes@.len(),
            i3 <= n_old_attrs,
            wfb == (old.wf() && new.wf()),
            ops@.len() >= ops_cl.len(),
            ops@.subrange(0, ops_cl.len() as int) == ops_cl,
            forall|t: int|
                0 <= t < ops_cl.len() ==> (#[trigger] ops@[t]@) is RemoveClass || ops@[t]@
                    is InsertClass,
            forall|t: int|
                ops_cl.len() <= t < ops@.len() ==> (#[trigger] ops@[t]@) is Remove || ops@[t]@
                    is Update,
            wfb ==> forall|t: int|
                0 <= t < ops@.len() ==> attr_op_required(*old, *new, #[trigger] ops@[t]@),
            forall|j: int|
                0 <= j < old.classes@.len() && !new.has_class(#[trigger] old.classes@[j]@)
                    ==> attr_ops_contain(ops@, AttrOpView::RemoveClass(old.classes@[j]@)),
            forall|j: int|
                0 <= j < new.classes@.len() && !old.has_class(#[trigger] new.classes@[j]@)
                    ==> attr_ops_contain(ops@, AttrOpView::InsertClass(new.classes@[j]@)),
            forall|j: int|
                0 <= j < i3 && !new.has_attr(#[trigger] old.attributes@[j].0@)
                    ==> attr_ops_contain(ops@, AttrOpView::Remove(old.attributes@[j].0@)),
            wfb ==> forall|j: int|
                0 <= j < i3 && new.has_attr(#[trigger] old.attributes@[j].0@) && new.attr_at(
                    old.attributes@[j].0@,
                ) != old.attributes@[j].1@ ==> attr_ops_contain(
                    ops@,
                    AttrOpView::Update(
                        old.attributes@[j].0@,
                        new.attr_at(old.attributes@[j].0@),
                    ),
                ),
            wfb ==> forall|t1: int, t2: int|
                0 <= t1 < t2 < ops@.len() ==> ops@[t1]@ != ops@[t2]@,
            forall|t: int|
                ops_cl.len() <= t < ops@.len() ==> exists|j: int|
                    0 <= j < i3 && attr_op_on_old_key(
                        #[trigger] ops@[t]@,
                        old.attributes@[j].0@,
                    ),
        decreases n_old_attrs - i3,
    {
        let found = find_attr_index(&new.attributes, &old.attributes[i3].0);
        let ghost prev = ops@;
        let ghost k = old.attributes@[i3 as int].0@;
        match found {
            Option::None => {
                ops.push(AttrOp::Remove(old.attributes[i3].0.clone()));
                proof {
                    lemma_contain_push(prev, ops@[prev.len() as int]);
                    assert(ops@.subrange(0, ops_cl.len() as int) =~= ops_cl);
                    assert(old.has_attr(k));
                    assert(ops@[prev.len() as int]@ == AttrOpView::Remove(k));
                    if wfb {
                        lemma_attr_distinct_new_old(*old, *new, ops@, prev, i3 as int);
                    }
                }
            },
            Option::Some(j) => {
                if new.attributes[j].1 != old.attributes[i3].1 {
                    ops.push(
                        AttrOp::Update(
                            old.attributes[i3].0.clone(),
                            new.attributes[j].1.clone(),
                        ),
                    );
                    proof {
                        lemma_contain_push(prev, ops@[prev.len() as int]);
                        assert(ops@.subrange(0, ops_cl.len() as int) =~= ops_cl);
                        assert(old.has_attr(k));
                        assert(new.has_attr(k));
                        if wfb {
                            lemma_attr_at_unique(*new, k, j as int);
                            lemma_attr_at_unique(*old, k, i3 as int);
                            assert(ops@[prev.len() as int]@ == AttrOpView::Update(
                                k,
                                new.attr_at(k),
                            ));
                            lemma_attr_distinct_new_old(*old, *new, ops@, prev, i3 as int);
                        }
                    }
                } else {
                    proof {
                        if wfb {
                            lemma_attr_at_unique(*new, k, j as int);
                            lemma_attr_at_unique(*old, k, i3 as int);
                        }
                    }
                }
            },
        }
        i3 = i3 + 1;
    }
    let ghost ops_oa = ops@;

    // Attributes present on new only are inserted.
    let n_new_attrs = new.attributes.len();
    let mut i4: usize = 0;
    while i4 < n_new_attrs
        invariant
            n_new_attrs == new.attributes@.len(),
            i4 <= n_new_attrs,
            wfb == (old.wf() && new.wf()),
            ops@.len() >= ops_oa.len(),
            ops@.subrange(0, ops_oa.len() as int) == ops_oa,
            forall|t: int| 0 <= t < ops_oa.len() ==> !((#[trigger] ops@[t]@) is Insert),
            forall|t: int|
                ops_oa.len() <= t < ops@.len() ==> (#[trigger] ops@[t]@) is Insert,
            wfb ==> forall|t: int|
                0 <= t < ops@.len() ==> attr_op_required(*old, *new, #[trigger] ops@[t]@),
            forall|j: int|
                0 <= j < old.classes@.len() && !new.has_class(#[trigger] old.classes@[j]@)
                    ==> attr_ops_contain(ops@, AttrOpView::RemoveClass(old.classes@[j]@)),
            forall|j: int|
                0 <= j < new.classes@.len() && !old.has_class(#[trigger] new.classes@[j]@)
                    ==> attr_ops_contain(ops@, AttrOpView::InsertClass(new.classes@[j]@)),
            forall|j: int|
                0 <= j < old.attributes@.len() && !new.has_attr(
                    #[trigger] old.attributes@[j].0@,
                ) ==> attr_ops_contain(ops@, AttrOpView::Remove(old.attributes@[j].0@)),
            wfb ==> forall|j: int|
                0 <= j < old.attributes@.len() && new.has_attr(
                    #[trigger] old.attributes@[j].0@,
                ) && new.attr_at(old.attributes@[j].0@) != old.attributes@[j].1@
                    ==> attr_ops_contain(
                    ops@,
                    AttrOpView::Update(
                        old.attributes@[j].0@,
                        new.attr_at(old.attributes@[j].0@),
                    ),
                ),
            forall|j: int|
                0 <= j < i4 && !old.has_attr(#[trigger] new.attributes@[j].0@)
                    ==> attr_ops_contain(
                    ops@,
                    AttrOpView::Insert(new.attributes@[j].0@, new.attributes@[j].1@),
                ),
            wfb ==> forall|t1: int, t2: int|
                0 <= t1 < t2 < ops@.len() ==> ops@[t1]@ != ops@[t2]@,
            forall|t: int|
                ops_oa.len() <= t < ops@.len() ==> exists|j: int|
                    0 <= j < i4 && attr_op_insert_of(
                        #[trigger] ops@[t]@,
                        new.attributes@[j].0@,
                    ),
        decreases n_new_attrs - i4,
    {
        let found = find_attr_index(&old.attributes, &new.attributes[i4].0);
        if found.is_none() {
            let ghost prev = ops@;
            let ghost k = new.attributes@[i4 as int].0@;
            ops.push(
                AttrOp::Insert(new.attributes[i4].0.clone(), new.attributes[i4].1.clone()),
            );
            proof {
                lemma_contain_push(prev, ops@[prev.len() as int]);
                assert(ops@.subrange(0, ops_oa.len() as int) =~= ops_oa);
                assert(new.has_attr(k));
                assert(ops@[prev.len() as int]@ == AttrOpView::Insert(
                    k,
                    new.attributes@[i4 as int].1@,
                ));
                if wfb {
                    lemma_attr_at_unique(*new, k, i4 as int);
                    assert forall|t1: int, t2: int|
                        0 <= t1 < t2 < ops@.len() implies ops@[t1]@ != ops@[t2]@ by {
                        if t2 == ops@.len() - 1 && t1 >= ops_oa.len() {
                            let j = choose|j: int|
                                0 <= j < i4 && attr_op_insert_of(
                                    ops@[t1]@,
                                    new.attributes@[j].0@,
                                );
                            assert(new.attributes@[j].0@ != new.attributes@[i4 as int].0@);
                        }
                    }
                }
            }
        }
        i4 = i4 + 1;
    }

    // Return the result.
    if ops.len() > 0 {
        Option::Some(ops)
    } else {
        proof {
            if wfb {
                assert forall|c: Seq<char>| #[trigger] old.has_class(c) == #[trigger] new
                    .has_class(c) by {
                    if old.has_class(c) && !new.has_class(c) {
                        let j = choose|j: int|
                            0 <= j < old.classes@.len() && old.classes@[j]@ == c;
                        assert(attr_ops_contain(ops@, AttrOpView::RemoveClass(c)));
                    }
                    if new.has_class(c) && !old.has_class(c) {
                        let j = choose|j: int|
                            0 <= j < new.classes@.len() && new.classes@[j]@ == c;
                        assert(attr_ops_contain(ops@, AttrOpView::InsertClass(c)));
                    }
                }
                assert forall|k: Seq<char>| #[trigger] old.has_attr(k) == #[trigger] new
                    .has_attr(k) by {
                    if old.has_attr(k) && !new.has_attr(k) {
                        let j = choose|j: int|
                            0 <= j < old.attributes@.len() && old.attributes@[j].0@ == k;
                        assert(attr_ops_contain(ops@, AttrOpView::Remove(k)));
                    }
                    if new.has_attr(k) && !old.has_attr(k) {
                        let j = choose|j: int|
                            0 <= j < new.attributes@.len() && new.attributes@[j].0@ == k;
                        assert(attr_ops_contain(
                            ops@,
                            AttrOpView::Insert(k, new.attributes@[j].1@),
                        ));
                    }
                }
                assert forall|k: Seq<char>|
                    #[trigger] old.has_attr(k) && new.has_attr(k) implies old.attr_at(k)
                    == new.attr_at(k) by {
                    let j = choose|j: int|
                        0 <= j < old.attributes@.len() && old.attributes@[j].0@ == k;
                    lemma_attr_at_unique(*old, k, j);
                    if new.attr_at(k) != old.attributes@[j].1@ {
                        assert(attr_ops_contain(
                            ops@,
                            AttrOpView::Update(k, new.attr_at(k)),
                        ));
                    }
                }
            }
        }
        Option::None
    }
}

/// The value of a defined entry of a position table.
pub open spec fn pos_val(pos: Seq<Option<usize>>, q: int) -> int {
    pos[q]->0 as int
}

/// A predecessor chain of length `len` ending at index `k`: indices
/// decrease along the chain, values strictly increase, and every entry on
/// it is defined.
pub open spec fn chain_ok(pos: Seq<Option<usize>>, pred: Seq<usize>, k: int, len: int) -> bool
    decreases len,
{
    &&& 0 <= k < pos.len()
    &&& pred.len() == pos.len()
    &&& pos[k] is Some
    &&& len >= 1
    &&& (len > 1 ==> pred[k] < k && chain_ok(pos, pred, pred[k] as int, len - 1) && pos_val(
        pos,
        pred[k] as int,
    ) < pos_val(pos, k))
}

/// A chain only reads predecessor entries below its head, so rewriting the
/// predecessor table at or above `bound` leaves it intact.
proof fn lemma_chain_frame(
    pos: Seq<Option<usize>>,
    pred1: Seq<usize>,
    pred2: Seq<usize>,
    k: int,
    len: int,
    bound: int,
)
    requires
        chain_ok(pos, pred1, k, len),
        k < bound,
        pred1.len() == pred2.len(),
        forall|q: int| 0 <= q < bound ==> pred1[q] == pred2[q],
    ensures
        chain_ok(pos, pred2, k, len),
    decreases len,
{
    if len > 1 {
        lemma_chain_frame(pos, pred1, pred2, pred1[k] as int, len - 1, bound);
    }
}

/// `w` lists positions of the table, in increasing order, whose defined
/// values are exactly the returned old indices, themselves increasing: the
/// selection is an increasing subsequence of the defined entries.
pub open spec fn lis_witness(pos: Seq<Option<usize>>, vals: Seq<usize>, w: Seq<int>) -> bool {
    &&& w.len() == vals.len()
    &&& forall|j: int|
        0 <= j < w.len() ==> 0 <= #[trigger] w[j] < pos.len() && pos[w[j]] == Some(vals[j])
    &&& forall|j: int| 0 <= j < w.len() - 1 ==> #[trigger] w[j] < w[j + 1]
    &&& forall|j: int| 0 <= j < vals.len() - 1 ==> #[trigger] vals[j] < vals[j + 1]
}

/// Adjacent increase gives global increase.
proof fn lemma_int_seq_sorted(s: Seq<int>, j1: int, j2: int)
    requires
        forall|j: int| 0 <= j < s.len() - 1 ==> #[trigger] s[j] < s[j + 1],
        0 <= j1 < j2 < s.len(),
    ensures
        s[j1] < s[j2],
    decreases j2 - j1,
{
    if j1 + 1 < j2 {
        lemma_int_seq_sorted(s, j1, j2 - 1);
    }
}

/// An increasing selection of the defined entries whose table positions
/// all lie below `bound`.
pub open spec fn sel_below(
    pos: Seq<Option<usize>>,
    vals: Seq<usize>,
    w: Seq<int>,
    bound: int,
) -> bool {
    lis_witness(pos, vals, w) && (forall|k: int| 0 <= k < w.len() ==> #[trigger] w[k] < bound)
}

/// Shortening an increasing selection from the back keeps it one.
proof fn lemma_sel_drop_last(pos: Seq<Option<usize>>, vals: Seq<usize>, w: Seq<int>, bound: int)
    requires
        sel_below(pos, vals, w, bound),
        vals.len() >= 1,
    ensures
        sel_below(pos, vals.drop_last(), w.drop_last(), bound),
        vals.len() >= 2 ==> w[vals.len() - 2] < w[vals.len() - 1] && vals[vals.len() - 2]
            < vals[vals.len() - 1],
{
    assert forall|k: int| 0 <= k < w.drop_last().len() implies 0 <= #[trigger] w.drop_last()[k]
        < pos.len() && pos[w.drop_last()[k]] == Some(vals.drop_last()[k]) by {
        assert(w.drop_last()[k] == w[k]);
        assert(vals.drop_last()[k] == vals[k]);
    }
    assert forall|k: int| 0 <= k < w.drop_last().len() - 1 implies #[trigger] w.drop_last()[k]
        < w.drop_last()[k + 1] by {
        assert(w.drop_last()[k] == w[k] && w.drop_last()[k + 1] == w[k + 1]);
    }
    assert forall|k: int|
        0 <= k < vals.drop_last().len() - 1 implies #[trigger] vals.drop_last()[k]
        < vals.drop_last()[k + 1] by {
        assert(vals.drop_last()[k] == vals[k] && vals.drop_last()[k + 1] == vals[k + 1]);
    }
    assert forall|k: int| 0 <= k < w.drop_last().len() implies #[trigger] w.drop_last()[k]
        < bound by {
        assert(w.drop_last()[k] == w[k]);
    }
}

/// One longest increasing subsequence of the defined entries of
/// `positions`, returned as the list of the entries' values (old indices),
/// in increasing order.  Which of several longest subsequences is returned
/// is not specified.
pub fn positions_lis(positions: &Vec<Option<usize>>) -> (r: Vec<usize>)
    ensures
        r@.len() <= positions@.len(),
        forall|j: int| 0 <= j < r@.len() - 1 ==> #[trigger] r@[j] < r@[j + 1],
        forall|j: int|
            0 <= j < r@.len() ==> exists|q: int|
                0 <= q < positions@.len() && positions@[q] == Some(#[trigger] r@[j]),
        exists|w: Seq<int>| lis_witness(positions@, r@, w),
        forall|vals2: Seq<usize>, w2: Seq<int>|
            #[trigger] lis_witness(positions@, vals2, w2) ==> vals2.len() <= r@.len(),
{
    let n = positions.len();
    let mut m: Vec<usize> = Vec::new();
    let mut p: Vec<usize> = Vec::new();
    let mut t: usize = 0;
    while t < n
        invariant
            t <= n,
            m@.len() == t,
            p@.len() == t,
        decreases n - t,
    {
        m.push(0);
        p.push(0);
        t = t + 1;
    }
    m.push(0);
    let mut l: usize = 0;

    proof {
        assert forall|vals2: Seq<usize>, w2: Seq<int>|
            #[trigger] sel_below(positions@, vals2, w2, 0) && vals2.len() >= 1 implies false by {
            assert(0 <= w2[0]);
            assert(w2[0] < 0);
        }
    }
    let mut i: usize = 0;
    while i < n
        invariant
            n == positions@.len(),
            m@.len() == n + 1,
            p@.len() == n,
            i <= n,
            l <= i,
            forall|j: int|
                1 <= j <= l ==> (#[trigger] m@[j]) < i && positions@[m@[j] as int] is Some,
            forall|j1: int, j2: int|
                1 <= j1 < j2 <= l ==> pos_val(positions@, m@[j1] as int) < pos_val(
                    positions@,
                    m@[j2] as int,
                ),
            forall|j: int| 1 <= j <= l ==> chain_ok(positions@, p@, #[trigger] m@[j] as int, j),
            forall|vals2: Seq<usize>, w2: Seq<int>|
                #[trigger] sel_below(positions@, vals2, w2, i as int) && vals2.len() >= 1
                    ==> vals2.len() <= l && pos_val(positions@, m@[vals2.len() as int] as int)
                    <= vals2.last() as int,
        decreases n - i,
    {
        let cur = positions[i];
        match cur {
            Option::Some(p_i) => {
                let mut lo: usize = 1;
                let mut hi: usize = l;
                while lo <= hi
                    invariant
                        n == positions@.len(),
                        m@.len() == n + 1,
                        i < n,
                        l <= i,
                        1 <= lo,
                        lo <= hi + 1,
                        hi <= l,
                        positions@[i as int] == Some(p_i),
                        forall|j: int|
                            1 <= j <= l ==> (#[trigger] m@[j]) < i && positions@[m@[j] as int]
                                is Some,
                        forall|j1: int, j2: int|
                            1 <= j1 < j2 <= l ==> pos_val(positions@, m@[j1] as int) < pos_val(
                                positions@,
                                m@[j2] as int,
                            ),
                        forall|j: int|
                            1 <= j < lo ==> pos_val(positions@, #[trigger] m@[j] as int)
                                < p_i as int,
                        forall|j: int|
                            hi < j <= l ==> pos_val(positions@, #[trigger] m@[j] as int)
                                >= p_i as int,
                    decreases hi + 1 - lo,
                {
                    let mid = lo + (hi - lo) / 2;
                    match positions[m[mid]] {
                        Option::Some(p_mid) => {
                            if p_mid < p_i {
                                lo = mid + 1;
                            } else {
                                hi = mid - 1;
                            }
                        },
                        Option::None => {
                            proof {
                                assert(positions@[m@[mid as int] as int] is Some);
                                assert(false);
                            }
                            lo = mid + 1;
                        },
                    }
                }

                let new_l = lo;
                let ghost old_p = p@;
                let ghost old_m = m@;
                let ghost old_l = l;
                p[i] = m[new_l - 1];
                m[new_l] = i;
                if new_l > l {
                    l = new_l;
                }
                proof {
                    let posv = positions@;
                    // Tails stay sorted and defined.
                    assert forall|j: int| 1 <= j <= l implies (#[trigger] m@[j]) < i + 1
                        && posv[m@[j] as int] is Some by {
                        if j != new_l {
                            assert(m@[j] == old_m[j]);
                        }
                    }
                    assert forall|j1: int, j2: int| 1 <= j1 < j2 <= l implies pos_val(
                        posv,
                        m@[j1] as int,
                    ) < pos_val(posv, m@[j2] as int) by {
                        if j1 == new_l {
                            assert(m@[j2] == old_m[j2]);
                            if j2 <= old_l {
                                assert(pos_val(posv, old_m[j2] as int) >= p_i as int);
                                if new_l <= old_l {
                                    assert(pos_val(posv, old_m[new_l as int] as int) >= p_i as int);
                                    assert(pos_val(posv, old_m[new_l as int] as int) < pos_val(
                                        posv,
                                        old_m[j2] as int,
                                    ));
                                }
                            }
                        } else if j2 == new_l {
                            assert(m@[j1] == old_m[j1]);
                            assert(pos_val(posv, old_m[j1] as int) < p_i as int);
                        } else {
                            assert(m@[j1] == old_m[j1]);
                            assert(m@[j2] == old_m[j2]);
                        }
                    }
                    // Chains survive the predecessor update and the new head
                    // is chained through the previous tail.
                    assert forall|j: int| 1 <= j <= l implies chain_ok(
                        posv,
                        p@,
                        #[trigger] m@[j] as int,
                        j,
                    ) by {
                        if j == new_l {
                            if new_l > 1 {
                                assert(old_m[new_l - 1] < i);
                                lemma_chain_frame(
                                    posv,
                                    old_p,
                                    p@,
                                    old_m[new_l - 1] as int,
                                    new_l - 1,
                                    i as int,
                                );
                                assert(p@[i as int] == old_m[new_l - 1]);
                                assert(pos_val(posv, old_m[new_l - 1] as int) < p_i as int);
                            }
                            assert(chain_ok(posv, p@, i as int, j));
                        } else {
                            assert(m@[j] == old_m[j]);
                            assert(chain_ok(posv, old_p, old_m[j] as int, j));
                            lemma_chain_frame(posv, old_p, p@, old_m[j] as int, j, i as int);
                        }
                    }
                    // Dominance: any increasing selection within the
                    // processed region is no longer than `l`, and the held
                    // tail of its length is minimal.
                    assert forall|vals2: Seq<usize>, w2: Seq<int>|
                        #[trigger] sel_below(posv, vals2, w2, i + 1) && vals2.len()
                        >= 1 implies vals2.len() <= l && pos_val(
                        posv,
                        m@[vals2.len() as int] as int,
                    ) <= vals2.last() as int by {
                        let len = vals2.len() as int;
                        if w2[len - 1] == i {
                            assert(posv[w2[len - 1]] == Some(vals2[len - 1]));
                            assert(vals2.last() == p_i);
                            if len >= 2 {
                                lemma_sel_drop_last(posv, vals2, w2, i + 1);
                                let vprev = vals2.drop_last();
                                let wprev = w2.drop_last();
                                assert forall|k: int|
                                    0 <= k < wprev.len() implies #[trigger] wprev[k]
                                    < i as int by {
                                    assert(wprev[k] == w2[k]);
                                    if k < len - 2 {
                                        lemma_int_seq_sorted(w2, k, len - 2);
                                    }
                                    assert(w2[len - 2] < w2[len - 1]);
                                }
                                assert(sel_below(posv, vprev, wprev, i as int));
                                assert(vprev.len() <= old_l && pos_val(
                                    posv,
                                    old_m[vprev.len() as int] as int,
                                ) <= vprev.last() as int);
                                assert(vals2[len - 2] < vals2[len - 1]);
                                assert(pos_val(posv, old_m[len - 1] as int) < p_i as int);
                                assert(len - 1 < new_l as int);
                            }
                            assert(len <= new_l as int);
                            assert(len <= l);
                            if len == new_l as int {
                                assert(m@[len] == i);
                            } else {
                                assert(m@[len] == old_m[len]);
                                assert(pos_val(posv, old_m[len] as int) < p_i as int);
                            }
                        } else {
                            assert forall|k: int|
                                0 <= k < w2.len() implies #[trigger] w2[k] < i as int by {
                                if k < len - 1 {
                                    lemma_int_seq_sorted(w2, k, len - 1);
                                }
                                assert(w2[len - 1] < i + 1 && w2[len - 1] != i);
                            }
                            assert(sel_below(posv, vals2, w2, i as int));
                            assert(len <= old_l && pos_val(
                                posv,
                                old_m[len] as int,
                            ) <= vals2.last() as int);
                            if len == new_l as int {
                                assert(m@[len] == i);
                                assert(new_l <= old_l);
                                assert(pos_val(posv, old_m[new_l as int] as int)
                                    >= p_i as int);
                            } else {
                                assert(m@[len] == old_m[len]);
                            }
                        }
                    }
                }
            },
            Option::None => {
                proof {
                    let posv = positions@;
                    assert forall|vals2: Seq<usize>, w2: Seq<int>|
                        #[trigger] sel_below(posv, vals2, w2, i + 1) && vals2.len()
                        >= 1 implies vals2.len() <= l && pos_val(
                        posv,
                        m@[vals2.len() as int] as int,
                    ) <= vals2.last() as int by {
                        assert forall|k: int|
                            0 <= k < w2.len() implies #[trigger] w2[k] < i as int by {
                            if w2[k] == i {
                                assert(posv[w2[k]] == Some(vals2[k]));
                            }
                        }
                        assert(sel_below(posv, vals2, w2, i as int));
                    }
                }
            },
        }
        i = i + 1;
    }

    proof {
        assert forall|vals2: Seq<usize>, w2: Seq<int>|
            #[trigger] lis_witness(positions@, vals2, w2) implies vals2.len() <= l by {
            if vals2.len() >= 1 {
                assert(sel_below(positions@, vals2, w2, n as int));
            }
        }
    }

    // Walk the predecessor chain backwards to emit the selection.
    let mut o: Vec<usize> = Vec::new();
    let mut t2: usize = 0;
    while t2 < l
        invariant
            t2 <= l,
            o@.len() == t2,
            forall|vals2: Seq<usize>, w2: Seq<int>|
                #[trigger] lis_witness(positions@, vals2, w2) ==> vals2.len() <= l,
        decreases l - t2,
    {
        o.push(0);
        t2 = t2 + 1;
    }
    let mut k = m[l];
    let ghost mut w: Seq<int> = Seq::empty();
    let mut idx: usize = l;
    while idx > 0
        invariant
            n == positions@.len(),
            p@.len() == n,
            o@.len() == l,
            idx <= l,
            idx >= 1 ==> chain_ok(positions@, p@, k as int, idx as int),
            w.len() == l - idx,
            forall|j: int|
                0 <= j < w.len() ==> 0 <= #[trigger] w[j] < n && positions@[w[j]] == Some(
                    o@[idx + j],
                ),
            forall|j: int| 0 <= j < w.len() - 1 ==> #[trigger] w[j] < w[j + 1],
            forall|j: int|
                idx <= j < o@.len() - 1 ==> #[trigger] o@[j] < o@[j + 1],
            idx >= 1 && w.len() > 0 ==> (k as int) < w[0] && pos_val(positions@, k as int) < (
            o@[idx as int] as int),
            forall|vals2: Seq<usize>, w2: Seq<int>|
                #[trigger] lis_witness(positions@, vals2, w2) ==> vals2.len() <= l,
        decreases idx,
    {
        idx = idx - 1;
        let v = positions[k].unwrap();
        o[idx] = v;
        proof {
            let w_prev = w;
            w = seq![k as int] + w;
            assert(positions@[k as int] == Some(v));
            assert forall|j: int| 0 <= j < w.len() - 1 implies #[trigger] w[j] < w[j + 1] by {
                if j > 0 {
                    assert(w[j] == w_prev[j - 1]);
                    assert(w[j + 1] == w_prev[j]);
                }
            }
        }
        if idx > 0 {
            let ghost prev_k = k as int;
            k = p[k];
            proof {
                assert(chain_ok(positions@, p@, prev_k, idx + 1));
                assert(chain_ok(positions@, p@, k as int, idx as int));
            }
        }
    }
    proof {
        assert(lis_witness(positions@, o@, w));
        assert forall|j: int| 0 <= j < o@.len() implies exists|q: int|
            0 <= q < positions@.len() && positions@[q] == Some(#[trigger] o@[j]) by {
            assert(positions@[w[j]] == Some(o@[j]));
        }
    }
    o
}

/// The operation list fully consumes an old children list of length
/// `old_len`, is coalesced, and is not a bare Skip.
pub open spec fn child_ops_ok(old_len: int, ops: Seq<NodeOp>) -> bool {
    &&& ops_consumed(ops) == old_len
    &&& ops_positive(ops)
    &&& coalesced(ops)
    &&& ops.len() > 0
    &&& !(ops.len() == 1 && ops[0] is Skip)
}

/// Insertion pairs point into the new children list, in strictly
/// ascending positions, each carrying exactly the subtree that sits at
/// its position there.
pub open spec fn inserts_ok<'new>(new_children: Seq<VNode>, ins: Seq<ChildInsert<'new>>) -> bool {
    &&& forall|j: int|
        0 <= j < ins.len() ==> (#[trigger] ins[j]).0 < new_children.len() && *ins[j].1
            == new_children[ins[j].0 as int]
    &&& forall|j: int| 0 <= j < ins.len() - 1 ==> (#[trigger] ins[j]).0 < ins[j + 1].0
}

/// Insertion pairs confined to `[lo, hi)`, strictly ascending, each
/// carrying exactly the subtree at its position of the new children list.
pub open spec fn inserts_in_range<'new>(
    new_children: Seq<VNode>,
    ins: Seq<ChildInsert<'new>>,
    lo: int,
    hi: int,
) -> bool {
    &&& forall|j: int|
        0 <= j < ins.len() ==> lo <= (#[trigger] ins[j]).0 < hi && *ins[j].1
            == new_children[ins[j].0 as int]
    &&& forall|j: int| 0 <= j < ins.len() - 1 ==> (#[trigger] ins[j]).0 < ins[j + 1].0
}

/// What a children diff promises of its operation list and insertions.
pub open spec fn child_diff_ok<'new>(
    old: VElement,
    new: VElement,
    cd: ChildDiff<'new>,
    ci: ChildInserts<'new>,
) -> bool {
    &&& match cd {
        Option::None => true,
        Option::Some(ops) => child_ops_ok(old.children@.len() as int, ops@),
    }
    &&& match ci {
        Option::None => true,
        Option::Some(ins) => ins@.len() > 0 && inserts_ok(new.children@, ins@),
    }
}

/// Pointwise equivalence of two children lists.
pub open spec fn children_equiv(a: Seq<VNode>, b: Seq<VNode>) -> bool {
    a.len() == b.len() && forall|i: int| 0 <= i < a.len() ==> node_equiv(#[trigger] a[i], b[i])
}

/// Every tree of the list is well formed.
pub open spec fn nodes_wf(s: Seq<VNode>) -> bool {
    forall|i: int| 0 <= i < s.len() ==> node_wf(#[trigger] s[i])
}

/// Equivalent trees carry the same identity key.
pub proof fn lemma_equiv_keys(a: VNode, b: VNode)
    requires
        node_equiv(a, b),
    ensures
        a.key_view() == b.key_view(),
{
}

/// Does some child of `new_children[ns..ne]` carry the same key as `c`?
/// Unkeyed children never match.
pub open spec fn middle_matched(c: VNode, new_children: Seq<VNode>, ns: int, ne: int) -> bool {
    c.key_view() is Some && exists|q: int|
        ns <= q < ne && (#[trigger] new_children[q]).key_view() == c.key_view()
}

/// Is the optional position, when present, below the bound?
pub open spec fn opt_lt(o: Option<usize>, b: int) -> bool {
    match o {
        Option::Some(p) => (p as int) < b,
        Option::None => true,
    }
}

/// The top-level decision table of `diff`: text against text compares the
/// content; elements must agree on tag and key to be updated in place,
/// and anything else is replaced by the new subtree.
pub open spec fn diff_post(old: VNode, new: VNode, r: NodeOp) -> bool {
    match (old, new) {
        (VNode::Text(a), VNode::Text(b)) => if a.content@ == b.content@ {
            r == NodeOp::Skip(1usize)
        } else {
            r matches NodeOp::Replace(n) && *n == new
        },
        (VNode::Element(a), VNode::Element(b)) => if a.tag@ != b.tag@ {
            r matches NodeOp::Replace(n) && *n == new
        } else if a.key_view() != b.key_view() {
            r matches NodeOp::Replace(n) && *n == new
        } else {
            &&& r is Skip || r is Update
            &&& (r matches NodeOp::Skip(n) ==> n == 1 && (a.wf() && b.wf() ==> classes_equiv(
                a,
                b,
            ) && attrs_equiv(a, b)))
            &&& (r matches NodeOp::Update(ad, cd, ci) ==> {
                &&& (a.wf() && b.wf() ==> attr_diff_ok(a, b, ad))
                &&& (ad matches Option::Some(v) ==> v@.len() > 0)
                &&& child_diff_ok(a, b, cd, ci)
                &&& !(ad is None && cd is None && ci is None)
            })
        },
        _ => r matches NodeOp::Replace(n) && *n == new,
    }
}

/// Do two sibling nodes carry the same identity key?  Two missing keys
/// match.
fn keys_eq(a: &VNode, b: &VNode) -> (r: bool)
    ensures
        r == (a.key_view() == b.key_view()),
{
    match (a.key(), b.key()) {
        (Option::Some(x), Option::Some(y)) => *x == *y,
        (Option::None, Option::None) => true,
        _ => false,
    }
}

/// Do two elements carry the same identity key?
fn elem_keys_eq(a: &VElement, b: &VElement) -> (r: bool)
    ensures
        r == (a.key_view() == b.key_view()),
{
    match (&a.key, &b.key) {
        (Option::Some(x), Option::Some(y)) => *x == *y,
        (Option::None, Option::None) => true,
        _ => false,
    }
}

/// Length of the common prefix of the two children lists, walking while
/// the identity keys agree.
fn common_prefix_len(a: &Vec<VNode>, b: &Vec<VNode>) -> (r: usize)
    ensures
        r <= a@.len(),
        r <= b@.len(),
        forall|j: int| 0 <= j < r ==> (#[trigger] a@[j]).key_view() == b@[j].key_view(),
        r < a@.len() && r < b@.len() ==> a@[r as int].key_view() != b@[r as int].key_view(),
{
    let max = if a.len() < b.len() {
        a.len()
    } else {
        b.len()
    };
    let mut r: usize = 0;
    loop
        invariant
            r <= max,
            max <= a@.len(),
            max <= b@.len(),
            forall|j: int| 0 <= j < r ==> (#[trigger] a@[j]).key_view() == b@[j].key_view(),
        ensures
            r <= max,
            forall|j: int| 0 <= j < r ==> (#[trigger] a@[j]).key_view() == b@[j].key_view(),
            r < max ==> a@[r as int].key_view() != b@[r as int].key_view(),
        decreases max - r,
    {
        if r >= max {
            break ;
        }
        if !keys_eq(&a[r], &b[r]) {
            break ;
        }
        r = r + 1;
    }
    r
}

/// Length of the common suffix of the two children lists, walking
/// backwards from the tails while the identity keys agree, up to `limit`.
fn common_suffix_len(a: &Vec<VNode>, b: &Vec<VNode>, limit: usize) -> (r: usize)
    requires
        limit <= a@.len(),
        limit <= b@.len(),
    ensures
        r <= limit,
        forall|j: int|
            0 <= j < r ==> (#[trigger] a@[a@.len() - 1 - j]).key_view() == b@[b@.len() - 1
                - j].key_view(),
        r < limit ==> a@[a@.len() - 1 - r].key_view() != b@[b@.len() - 1 - r].key_view(),
{
    let a_len = a.len();
    let b_len = b.len();
    let mut r: usize = 0;
    loop
        invariant
            r <= limit,
            limit <= a@.len(),
            limit <= b@.len(),
            a_len == a@.len(),
            b_len == b@.len(),
            forall|j: int|
                0 <= j < r ==> (#[trigger] a@[a@.len() - 1 - j]).key_view() == b@[b@.len() - 1
                    - j].key_view(),
        ensures
            r <= limit,
            forall|j: int|
                0 <= j < r ==> (#[trigger] a@[a@.len() - 1 - j]).key_view() == b@[b@.len() - 1
                    - j].key_view(),
            r < limit ==> a@[a@.len() - 1 - r].key_view() != b@[b@.len() - 1 - r].key_view(),
        decreases limit - r,
    {
        if r >= limit {
            break ;
        }
        if !keys_eq(&a[a_len - r - 1], &b[b_len - r - 1]) {
            break ;
        }
        r = r + 1;
    }
    r
}

/// Find the last child in `children[start..end]` whose key is `key`,
/// returned as an offset into that region.  The last occurrence wins, so
/// that duplicate keys resolve the same way a map filled in order would.
fn find_key_last(children: &Vec<VNode>, start: usize, end: usize, key: &String) -> (r: Option<
    usize,
>)
    requires
        start <= end,
        end <= children@.len(),
    ensures
        match r {
            Option::Some(p) => p < end - start && children@[start + p].key_view() == Some(key@)
                && (forall|q: int|
                p < q < end - start ==> (#[trigger] children@[start + q]).key_view() != Some(
                    key@,
                )),
            Option::None => forall|q: int|
                0 <= q < end - start ==> (#[trigger] children@[start + q]).key_view() != Some(
                    key@,
                ),
        },
{
    let mut i: usize = end - start;
    while i > 0
        invariant
            start <= end,
            end <= children@.len(),
            i <= end - start,
            forall|q: int|
                i <= q < end - start ==> (#[trigger] children@[start + q]).key_view() != Some(
                    key@,
                ),
        decreases i,
    {
        i = i - 1;
        let matched = match children[start + i].key() {
            Option::Some(k) => *k == *key,
            Option::None => false,
        };
        if matched {
            return Option::Some(i);
        }
    }
    Option::None
}

/// An operation over an old attribute name not yet processed is distinct
/// from every operation already emitted for an earlier old attribute.
proof fn lemma_attr_distinct_new_old(
    old: VElement,
    new: VElement,
    ops: Seq<AttrOp>,
    prev: Seq<AttrOp>,
    i: int,
)
    requires
        old.wf(),
        new.wf(),
        ops.len() == prev.len() + 1,
        forall|t: int| 0 <= t < prev.len() ==> ops[t] == prev[t],
        0 <= i < old.attributes@.len(),
        attr_op_on_old_key(ops.last()@, old.attributes@[i].0@),
        forall|t1: int, t2: int| 0 <= t1 < t2 < prev.len() ==> prev[t1]@ != prev[t2]@,
        forall|t: int|
            0 <= t < prev.len() ==> (#[trigger] prev[t]@) is RemoveClass || prev[t]@
                is InsertClass || (exists|j: int|
                0 <= j < i && attr_op_on_old_key(prev[t]@, old.attributes@[j].0@)),
    ensures
        forall|t1: int, t2: int| 0 <= t1 < t2 < ops.len() ==> ops[t1]@ != ops[t2]@,
{
    assert forall|t1: int, t2: int| 0 <= t1 < t2 < ops.len() implies ops[t1]@ != ops[t2]@ by {
        if t2 == ops.len() - 1 {
            if !(prev[t1]@ is RemoveClass) && !(prev[t1]@ is InsertClass) {
                let j = choose|j: int|
                    0 <= j < i && attr_op_on_old_key(prev[t1]@, old.attributes@[j].0@);
                assert(old.attributes@[j].0@ != old.attributes@[i].0@);
            }
        }
    }
}


/// No two keyed children of the region share a key.
pub open spec fn range_keys_distinct(s: Seq<VNode>, a: int, b: int) -> bool {
    forall|i: int, j: int|
        a <= i < j < b && (#[trigger] s[i]).key_view() is Some && (#[trigger] s[j]).key_view()
            is Some ==> s[i].key_view() != s[j].key_view()
}

/// Is the entry defined?
pub open spec fn mp_def(s: Seq<Option<usize>>, j: int) -> bool {
    s[j] is Some
}

/// The entry's value.
pub open spec fn mp_val(s: Seq<Option<usize>>, j: int) -> int {
    s[j]->0 as int
}

/// Does the insertion list carry an entry at this position?
pub open spec fn insert_at<'new>(ins: Seq<ChildInsert<'new>>, idx: int) -> bool {
    exists|t: int| 0 <= t < ins.len() && (#[trigger] ins[t]).0 == idx
}

/// Appending keeps every position already inserted.
proof fn lemma_insert_at_push<'new>(ins: Seq<ChildInsert<'new>>, x: ChildInsert<'new>)
    ensures
        forall|idx: int| #[trigger] insert_at(ins, idx) ==> insert_at(ins.push(x), idx),
        insert_at(ins.push(x), x.0 as int),
{
    assert forall|idx: int| #[trigger] insert_at(ins, idx) implies insert_at(
        ins.push(x),
        idx,
    ) by {
        let t = choose|t: int| 0 <= t < ins.len() && (#[trigger] ins[t]).0 == idx;
        assert(ins.push(x)[t].0 == idx);
    }
    assert(ins.push(x)[ins.len() as int].0 == x.0 as int);
}

/// A table of defined entries with strictly increasing values grows at
/// least by one per step.
proof fn lemma_mp_growth(mp: Seq<Option<usize>>, j: int)
    requires
        0 <= j < mp.len(),
        forall|t: int| 0 <= t < mp.len() ==> mp_def(mp, t),
        forall|j1: int, j2: int|
            0 <= j1 < j2 < mp.len() ==> mp_val(mp, j1) < mp_val(mp, j2),
    ensures
        mp_val(mp, j) >= mp_val(mp, 0) + j,
    decreases j,
{
    if j > 0 {
        lemma_mp_growth(mp, j - 1);
    }
}

/// Adjacent increase gives global increase.
proof fn lemma_usize_seq_sorted(s: Seq<usize>, j1: int, j2: int)
    requires
        forall|j: int| 0 <= j < s.len() - 1 ==> #[trigger] s[j] < s[j + 1],
        0 <= j1 < j2 < s.len(),
    ensures
        s[j1] < s[j2],
    decreases j2 - j1,
{
    if j1 + 1 < j2 {
        lemma_usize_seq_sorted(s, j1, j2 - 1);
    }
}

/// Does the key of some old middle child resolve to new position `q` —
/// the last position of the new middle carrying that key?
pub open spec fn pos_targeted(
    old_children: Seq<VNode>,
    os: int,
    oe: int,
    new_children: Seq<VNode>,
    ns: int,
    ne: int,
    q: int,
) -> bool {
    exists|i: int|
        os <= i < oe && (#[trigger] old_children[i]).key_view() is Some && new_children[q].key_view()
            == old_children[i].key_view() && (forall|q2: int|
            q < q2 < ne ==> (#[trigger] new_children[q2]).key_view() != old_children[i].key_view())
}

/// How many old middle children have a key occurring in the new middle.
pub open spec fn count_matched(
    old_children: Seq<VNode>,
    os: int,
    oe: int,
    new_children: Seq<VNode>,
    ns: int,
    ne: int,
) -> int
    decreases oe - os,
{
    if oe <= os {
        0
    } else {
        count_matched(old_children, os, oe - 1, new_children, ns, ne) + (if middle_matched(
            old_children[oe - 1],
            new_children,
            ns,
            ne,
        ) {
            1int
        } else {
            0
        })
    }
}

/// Children of the plan kept in place (matched, neither removed nor
/// moved) stand at ascending positions of the new middle, read in old
/// order: relocating only the Move-tagged children reproduces the new
/// order.
pub open spec fn middle_kept_ordered(
    old_children: Seq<VNode>,
    os: int,
    oe: int,
    new_children: Seq<VNode>,
    ns: int,
    ne: int,
    planned: Seq<NodeOp>,
) -> bool {
    forall|j1: int, j2: int, q1: int, q2: int|
        0 <= j1 < j2 < planned.len() && !(planned[j1] is Remove) && !(planned[j1] is Move)
            && !(planned[j2] is Remove) && !(planned[j2] is Move) && #[trigger] is_last_match(
            old_children[os + j1],
            new_children,
            ns,
            ne,
            q1,
        ) && #[trigger] is_last_match(old_children[os + j2], new_children, ns, ne, q2) ==> q1
            <= q2 && (old_children[os + j1].key_view() != old_children[os + j2].key_view()
            ==> q1 < q2)
}

/// `q` is the position of the last child of `new_children[ns..ne]` that
/// carries the same key as `c`.
pub open spec fn is_last_match(
    c: VNode,
    new_children: Seq<VNode>,
    ns: int,
    ne: int,
    q: int,
) -> bool {
    &&& ns <= q < ne
    &&& new_children[q].key_view() == c.key_view()
    &&& forall|q2: int| q < q2 < ne ==> (#[trigger] new_children[q2]).key_view() != c.key_view()
}

/// Children kept in place stand at ascending new positions: relocating
/// only the Move-tagged children reproduces the new order.
#[verifier::spinoff_prover]
#[verifier::rlimit(100)]
proof fn lemma_kept_ordering<'new>(
    old_children: Seq<VNode>,
    os: int,
    oe: int,
    new_children: Seq<VNode>,
    ns: int,
    ne: int,
    match_pos: Seq<Option<usize>>,
    old_positions: Seq<Option<usize>>,
    lis: Seq<usize>,
    w: Seq<int>,
    planned: Seq<NodeOp<'new>>,
    moved: bool,
)
    requires
        planned.len() == oe - os,
        match_pos.len() == oe - os,
        old_positions.len() == ne - ns,
        ne - ns <= usize::MAX,
        forall|j: int| 0 <= j < oe - os ==> opt_lt(#[trigger] match_pos[j], ne - ns),
        forall|j: int|
            0 <= j < planned.len() ==> ((#[trigger] planned[j]) is Remove <==> !middle_matched(
                old_children[os + j],
                new_children,
                ns,
                ne,
            )),
        forall|j: int|
            0 <= j < oe - os ==> ((#[trigger] match_pos[j]) is Some <==> middle_matched(
                old_children[os + j],
                new_children,
                ns,
                ne,
            )),
        forall|j: int|
            0 <= j < oe - os ==> ((#[trigger] match_pos[j]) matches Option::Some(p)
                ==> new_children[ns + p].key_view() == old_children[os + j].key_view()),
        forall|j: int|
            0 <= j < oe - os ==> ((#[trigger] match_pos[j]) matches Option::Some(p) ==> (
            forall|q2: int|
                ns + p < q2 < ne ==> (#[trigger] new_children[q2]).key_view()
                    != old_children[os + j].key_view())),
        forall|q: int|
            0 <= q < ne - ns ==> ((#[trigger] old_positions[q]) matches Option::Some(oi) ==> 0
                <= oi < oe - os && match_pos[oi as int] == Option::Some(q as usize)),
        !moved ==> (forall|j1: int, j2: int|
            0 <= j1 < j2 < oe - os && mp_def(match_pos, j1) && mp_def(match_pos, j2)
                ==> mp_val(match_pos, j1) <= mp_val(match_pos, j2)),
        moved ==> lis_witness(old_positions, lis, w),
        moved ==> (forall|j: int|
            0 <= j < planned.len() && !((#[trigger] planned[j]) is Remove) && !(planned[j]
                is Move) ==> exists|t: int| 0 <= t < lis.len() && (lis[t] as int) == j),
    ensures
        middle_kept_ordered(old_children, os, oe, new_children, ns, ne, planned),
{
    assert forall|j1: int, j2: int, q1: int, q2: int|
        0 <= j1 < j2 < planned.len() && !(planned[j1] is Remove) && !(planned[j1] is Move)
            && !(planned[j2] is Remove) && !(planned[j2] is Move) && #[trigger] is_last_match(
            old_children[os + j1],
            new_children,
            ns,
            ne,
            q1,
        ) && #[trigger] is_last_match(
            old_children[os + j2],
            new_children,
            ns,
            ne,
            q2,
        ) implies q1 <= q2 && (old_children[os + j1].key_view() != old_children[os
            + j2].key_view() ==> q1 < q2) by {
        assert(mp_def(match_pos, j1) && mp_def(match_pos, j2));
        lemma_kept_pos(old_children, os, oe, new_children, ns, ne, match_pos, j1, q1);
        lemma_kept_pos(old_children, os, oe, new_children, ns, ne, match_pos, j2, q2);
        if moved {
            assert(exists|t: int| 0 <= t < lis.len() && (lis[t] as int) == j1);
            assert(exists|t: int| 0 <= t < lis.len() && (lis[t] as int) == j2);
            lemma_kept_pair_moved(
                os,
                oe,
                ns,
                ne,
                match_pos,
                old_positions,
                lis,
                w,
                j1,
                j2,
            );
        } else {
            assert(mp_val(match_pos, j1) <= mp_val(match_pos, j2));
        }
        if old_children[os + j1].key_view() != old_children[os + j2].key_view() && mp_val(
            match_pos,
            j1,
        ) == mp_val(match_pos, j2) {
            let p1 = mp_val(match_pos, j1);
            assert(match_pos[j1] matches Option::Some(pp) && pp as int == p1);
            assert(match_pos[j2] matches Option::Some(pp) && pp as int == p1);
            assert(new_children[ns + p1].key_view() == old_children[os + j1].key_view());
            assert(new_children[ns + p1].key_view() == old_children[os + j2].key_view());
            assert(false);
        }
    }
}

/// A kept child's last matching position is the one its match recorded.
#[verifier::spinoff_prover]
proof fn lemma_kept_pos(
    old_children: Seq<VNode>,
    os: int,
    oe: int,
    new_children: Seq<VNode>,
    ns: int,
    ne: int,
    match_pos: Seq<Option<usize>>,
    j: int,
    q: int,
)
    requires
        match_pos.len() == oe - os,
        0 <= j < oe - os,
        mp_def(match_pos, j),
        forall|j0: int| 0 <= j0 < oe - os ==> opt_lt(#[trigger] match_pos[j0], ne - ns),
        forall|j0: int|
            0 <= j0 < oe - os ==> ((#[trigger] match_pos[j0]) matches Option::Some(p)
                ==> new_children[ns + p].key_view() == old_children[os + j0].key_view()),
        forall|j0: int|
            0 <= j0 < oe - os ==> ((#[trigger] match_pos[j0]) matches Option::Some(p) ==> (
            forall|q2: int|
                ns + q2 < ne && ns + p < ns + q2 ==> (#[trigger] new_children[ns
                    + q2]).key_view() != old_children[os + j0].key_view())),
        is_last_match(old_children[os + j], new_children, ns, ne, q),
    ensures
        q == ns + mp_val(match_pos, j),
{
    let p = mp_val(match_pos, j);
    assert(match_pos[j] matches Option::Some(pp) && pp as int == p);
    assert(new_children[ns + p].key_view() == old_children[os + j].key_view());
    if q < ns + p {
        assert(new_children[ns + p].key_view() != old_children[os + j].key_view());
    }
    if q > ns + p {
        assert(new_children[ns + (q - ns)].key_view() != old_children[os + j].key_view());
    }
}

/// In a reordered middle, two kept children keep their relative order.
#[verifier::spinoff_prover]
#[verifier::rlimit(100)]
proof fn lemma_kept_pair_moved(
    os: int,
    oe: int,
    ns: int,
    ne: int,
    match_pos: Seq<Option<usize>>,
    old_positions: Seq<Option<usize>>,
    lis: Seq<usize>,
    w: Seq<int>,
    j1: int,
    j2: int,
)
    requires
        match_pos.len() == oe - os,
        old_positions.len() == ne - ns,
        ne - ns <= usize::MAX,
        0 <= j1 < j2 < oe - os,
        forall|q: int|
            0 <= q < ne - ns ==> ((#[trigger] old_positions[q]) matches Option::Some(oi) ==> 0
                <= oi < oe - os && match_pos[oi as int] == Option::Some(q as usize)),
        lis_witness(old_positions, lis, w),
        exists|t: int| 0 <= t < lis.len() && (lis[t] as int) == j1,
        exists|t: int| 0 <= t < lis.len() && (lis[t] as int) == j2,
    ensures
        mp_val(match_pos, j1) < mp_val(match_pos, j2),
{
    let t1 = choose|t: int| 0 <= t < lis.len() && (lis[t] as int) == j1;
    let t2 = choose|t: int| 0 <= t < lis.len() && (lis[t] as int) == j2;
    assert(0 <= t1 < lis.len() && (lis[t1] as int) == j1);
    assert(0 <= t2 < lis.len() && (lis[t2] as int) == j2);
    if t1 > t2 {
        lemma_usize_seq_sorted(lis, t2, t1);
    }
    assert(t1 < t2);
    lemma_int_seq_sorted(w, t1, t2);
    assert(w[t1] < w[t2]);
    assert(0 <= w[t1] < old_positions.len()) by {
        assert(0 <= w[t1] < old_positions.len() && old_positions[w[t1]] == Some(lis[t1]));
    }
    assert(0 <= w[t2] < old_positions.len() && old_positions[w[t2]] == Some(lis[t2]));
    assert(match_pos[j1] == Option::Some(w[t1] as usize)) by {
        assert(old_positions[w[t1]] matches Option::Some(oi) && oi == lis[t1]);
    }
    assert(match_pos[j2] == Option::Some(w[t2] as usize)) by {
        assert(old_positions[w[t2]] matches Option::Some(oi) && oi == lis[t2]);
    }
    assert((w[t1] as usize) as int == w[t1]);
    assert((w[t2] as usize) as int == w[t2]);
    assert(mp_val(match_pos, j1) == w[t1]);
    assert(mp_val(match_pos, j2) == w[t2]);
}

/// The payload a Move carries: the components of an in-place Update for
/// the pair, or nothing when the pair's diff was no Update.
pub open spec fn move_payload_from<'new>(
    d: NodeOp<'new>,
    a: AttrDiff,
    c: ChildDiff<'new>,
    ins: ChildInserts<'new>,
) -> bool {
    match d {
        NodeOp::Update(a0, c0, i0) => a == a0 && c == c0 && ins == i0,
        _ => a is None && c is None && ins is None,
    }
}

/// When the counts called for it, exactly the untargeted new positions
/// were inserted, and an inserted position is never a targeted one.
#[verifier::spinoff_prover]
#[verifier::rlimit(100)]
proof fn lemma_insert_summary<'new>(
    old_children: Seq<VNode>,
    old_start: int,
    old_end: int,
    new_children: Seq<VNode>,
    new_start: int,
    new_end: int,
    old_positions: Seq<Option<usize>>,
    gate: bool,
    removed: int,
    inserts: Seq<ChildInsert<'new>>,
)
    requires
        old_start < old_end <= old_children.len(),
        new_start < new_end <= new_children.len(),
        old_positions.len() == new_end - new_start,
        forall|q: int|
            0 <= q < new_end - new_start ==> ((#[trigger] old_positions[q]) is Some
                <==> pos_targeted(
                old_children,
                old_start,
                old_end,
                new_children,
                new_start,
                new_end,
                new_start + q,
            )),
        removed == old_end - old_start - count_matched(
            old_children,
            old_start,
            old_end,
            new_children,
            new_start,
            new_end,
        ),
        gate == ((old_end - old_start) - removed != new_end - new_start),
        gate ==> (forall|q: int|
            0 <= q < new_end - new_start && (#[trigger] old_positions[q]) is None
                ==> insert_at(inserts, new_start + q)),
        !gate ==> inserts.len() == 0,
        forall|t: int|
            0 <= t < inserts.len() ==> (#[trigger] inserts[t]).0 - new_start < new_end
                - new_start && !(old_positions[inserts[t].0 - new_start] is Some),
        forall|t: int|
            0 <= t < inserts.len() ==> new_start <= (#[trigger] inserts[t]).0,
    ensures
        count_matched(old_children, old_start, old_end, new_children, new_start, new_end)
            != new_end - new_start ==> (forall|q: int|
            new_start <= q < new_end && !pos_targeted(
                old_children,
                old_start,
                old_end,
                new_children,
                new_start,
                new_end,
                q,
            ) ==> insert_at(inserts, q)),
        count_matched(old_children, old_start, old_end, new_children, new_start, new_end)
            == new_end - new_start ==> inserts.len() == 0,
        forall|t: int|
            0 <= t < inserts.len() ==> !pos_targeted(
                old_children,
                old_start,
                old_end,
                new_children,
                new_start,
                new_end,
                (#[trigger] inserts[t]).0 as int,
            ),
{
    let cm = count_matched(old_children, old_start, old_end, new_children, new_start, new_end);
    if cm != new_end - new_start {
        assert(gate);
        assert forall|q: int|
            new_start <= q < new_end && !pos_targeted(
                old_children,
                old_start,
                old_end,
                new_children,
                new_start,
                new_end,
                q,
            ) implies insert_at(inserts, q) by {
            assert(!(old_positions[q - new_start] is Some));
            assert(insert_at(inserts, new_start + (q - new_start)));
        }
    } else {
        assert(!gate);
    }
    assert forall|t: int| 0 <= t < inserts.len() implies !pos_targeted(
        old_children,
        old_start,
        old_end,
        new_children,
        new_start,
        new_end,
        (#[trigger] inserts[t]).0 as int,
    ) by {
        let q = inserts[t].0 - new_start;
        assert(!(old_positions[q] is Some));
        assert(inserts[t].0 as int == new_start + q);
    }
}

/// A reconciled middle never reports "no change": its first pair of
/// children disagree on keys, so an all-Skip plan that inserts nothing is
/// contradictory.
#[verifier::spinoff_prover]
#[verifier::rlimit(100)]
proof fn lemma_middle_no_change<'new>(
    old_children: Seq<VNode>,
    old_start: int,
    old_end: int,
    new_children: Seq<VNode>,
    new_start: int,
    new_end: int,
    match_pos: Seq<Option<usize>>,
    old_positions: Seq<Option<usize>>,
    lis: Seq<usize>,
    w: Seq<int>,
    planned: Seq<NodeOp<'new>>,
    moved: bool,
    inv_a: int,
    inv_b: int,
    gate: bool,
    removed: int,
    inserts: Seq<ChildInsert<'new>>,
    old_ops: Seq<NodeOp<'new>>,
    cur_ops: Seq<NodeOp<'new>>,
)
    requires
        old_start < old_end <= old_children.len(),
        new_start < new_end <= new_children.len(),
        old_end - old_start <= usize::MAX,
        new_end - new_start <= usize::MAX,
        planned.len() == old_end - old_start,
        match_pos.len() == old_end - old_start,
        old_positions.len() == new_end - new_start,
        push_ops(old_ops, planned) == cur_ops,
        forall|j: int|
            0 <= j < old_end - old_start ==> opt_lt(#[trigger] match_pos[j], new_end - new_start),
        forall|j: int|
            0 <= j < planned.len() ==> ((#[trigger] planned[j]) is Remove <==> !middle_matched(
                old_children[old_start + j],
                new_children,
                new_start,
                new_end,
            )),
        forall|j: int|
            0 <= j < old_end - old_start ==> ((#[trigger] match_pos[j]) is Some
                <==> middle_matched(
                old_children[old_start + j],
                new_children,
                new_start,
                new_end,
            )),
        forall|j: int|
            0 <= j < old_end - old_start ==> ((#[trigger] match_pos[j]) matches Option::Some(p)
                ==> new_children[new_start + p].key_view() == old_children[old_start
                + j].key_view()),
        forall|q: int|
            0 <= q < new_end - new_start ==> ((#[trigger] old_positions[q]) matches
            Option::Some(oi) ==> 0 <= oi < old_end - old_start && match_pos[oi as int]
                == Option::Some(q as usize)),
        (removed == 0) == (forall|j: int|
            0 <= j < old_end - old_start ==> mp_def(match_pos, j)),
        !moved ==> (forall|j1: int, j2: int|
            0 <= j1 < j2 < old_end - old_start && mp_def(match_pos, j1) && mp_def(
                match_pos,
                j2,
            ) ==> mp_val(match_pos, j1) <= mp_val(match_pos, j2)),
        moved ==> 0 <= inv_a < inv_b < old_end - old_start && mp_def(match_pos, inv_a)
            && mp_def(match_pos, inv_b) && mp_val(match_pos, inv_a) > mp_val(
            match_pos,
            inv_b,
        ),
        moved ==> lis_witness(old_positions, lis, w),
        moved ==> (forall|j: int|
            0 <= j < planned.len() && !((#[trigger] planned[j]) is Remove) && !(planned[j]
                is Move) ==> exists|t: int| 0 <= t < lis.len() && (lis[t] as int) == j),
        gate == ((old_end - old_start) - removed != new_end - new_start),
        gate ==> (forall|q: int|
            0 <= q < new_end - new_start && (#[trigger] old_positions[q]) is None
                ==> insert_at(inserts, new_start + q)),
        old_children[old_start].key_view() != new_children[new_start].key_view(),
        range_keys_distinct(old_children, old_start, old_end),
    ensures
        !(ops_all_skip(cur_ops) && inserts.len() == 0),
{
    let ghost m_old = old_end - old_start;
    let ghost m_new = new_end - new_start;
    if ops_all_skip(cur_ops) && inserts.len() == 0 {

            lemma_push_ops_all_skip(old_ops, planned);
            // Every old middle child is matched and kept in place.
            assert forall|j: int| 0 <= j < m_old implies mp_def(match_pos, j) by {
                assert(planned[j] is Skip);
            }
            assert(removed == 0);
            // The first old child's match cannot sit at the first new
            // position.
            assert(mp_def(match_pos, 0));
            let p0 = mp_val(match_pos, 0);
            assert(match_pos[0] matches Option::Some(pp) && pp as int == p0);
            assert(new_children[new_start + p0].key_view() == old_children[
                old_start
            ].key_view());
            assert(p0 != 0);
            assert(0 <= p0);
            if moved {
                // The recorded order inversion has both children kept, so
                // both were picked by the increasing selection: their
                // table positions must rise, yet their match positions
                // fall.
                assert(planned[inv_a] is Skip && planned[inv_b] is Skip);
                let ta = choose|t: int| 0 <= t < lis.len() && (lis[t] as int) == inv_a;
                let tb = choose|t: int| 0 <= t < lis.len() && (lis[t] as int) == inv_b;
                assert(0 <= ta < lis.len() && (lis[ta] as int) == inv_a);
                assert(0 <= tb < lis.len() && (lis[tb] as int) == inv_b);
                if ta > tb {
                    lemma_usize_seq_sorted(lis, tb, ta);
                }
                assert(ta < tb);
                lemma_int_seq_sorted(w, ta, tb);
                assert(w[ta] < w[tb]);
                assert(old_positions[w[ta]] == Some(lis[ta]));
                assert(old_positions[w[tb]] == Some(lis[tb]));
                assert(match_pos[inv_a] == Option::Some(w[ta] as usize));
                assert(match_pos[inv_b] == Option::Some(w[tb] as usize));
                assert(0 <= w[ta] < m_new && 0 <= w[tb] < m_new);
                assert(mp_val(match_pos, inv_a) == w[ta]);
                assert(mp_val(match_pos, inv_b) == w[tb]);
                assert(false);
            } else {
                // Matched positions strictly increase from at least one,
                // so they outgrow the new middle; the spilled first new
                // position must then have been inserted.
                assert forall|j1: int, j2: int|
                    0 <= j1 < j2 < m_old implies mp_val(match_pos, j1) < mp_val(
                    match_pos,
                    j2,
                ) by {
                    assert(mp_def(match_pos, j1) && mp_def(match_pos, j2));
                    assert(mp_val(match_pos, j1) <= mp_val(match_pos, j2));
                    if mp_val(match_pos, j1) == mp_val(match_pos, j2) {
                        let q = mp_val(match_pos, j1);
                        assert(match_pos[j1] matches Option::Some(q1) && q1 as int == q);
                        assert(match_pos[j2] matches Option::Some(q2) && q2 as int == q);
                        assert(new_children[new_start + q].key_view() == old_children[
                            old_start + j1
                        ].key_view());
                        assert(new_children[new_start + q].key_view() == old_children[
                            old_start + j2
                        ].key_view());
                        assert(middle_matched(
                            old_children[old_start + j1],
                            new_children,
                            new_start,
                            new_end,
                        ));
                        assert(old_children[old_start + j1].key_view() is Some);
                        assert(old_children[old_start + j2].key_view() is Some);
                        assert(false);
                    }
                }
                assert forall|j: int| 0 <= j < m_old implies mp_val(match_pos, j) >= 1 by {
                    lemma_mp_growth(match_pos, j);
                    assert(p0 >= 1);
                }
                lemma_mp_growth(match_pos, m_old - 1);
                assert(mp_val(match_pos, m_old - 1) >= p0 + m_old - 1);
                assert(opt_lt(match_pos[m_old - 1], m_new as int));
                assert(match_pos[m_old - 1] matches Option::Some(pl) && (pl as int) < m_new);
                assert(m_old < m_new);
                assert(gate);
                // Nothing targets the first new position.
                if old_positions[0] is Some {
                    let oi = old_positions[0]->0;
                    assert(match_pos[oi as int] == Option::Some(0usize));
                    assert(mp_val(match_pos, oi as int) == 0);
                    assert(mp_val(match_pos, oi as int) >= 1);
                }
                assert(old_positions[0] is None);
                assert(insert_at(inserts, new_start));
                let t0 = choose|t: int|
                    0 <= t < inserts.len() && (#[trigger] inserts[t]).0
                        == new_start;
                assert(false);
            }
    }
}

/// One operation per old middle child, each consuming exactly that child:
/// a `Remove` exactly for the children whose key has no match in the new
/// middle, and every `Move` sent to a new position carrying the old
/// child's key.
pub open spec fn middle_plan_ok(
    old_children: Seq<VNode>,
    os: int,
    oe: int,
    new_children: Seq<VNode>,
    ns: int,
    ne: int,
    planned: Seq<NodeOp>,
) -> bool {
    &&& planned.len() == oe - os
    &&& forall|j: int| 0 <= j < planned.len() ==> op_consumed(#[trigger] planned[j]) == 1
    &&& forall|j: int|
        0 <= j < planned.len() ==> ((#[trigger] planned[j]) is Remove <==> !middle_matched(
            old_children[os + j],
            new_children,
            ns,
            ne,
        ))
    &&& forall|j: int|
        0 <= j < planned.len() ==> ((#[trigger] planned[j]) matches NodeOp::Move(t, _, _, _)
            ==> ns <= t < ne && new_children[t as int].key_view() == old_children[os
            + j].key_view())
    &&& forall|j: int|
        0 <= j < planned.len() && !((#[trigger] planned[j]) is Remove) && !(planned[j]
            is Move) ==> exists|q: int|
            ns <= q < ne && new_children[q].key_view() == old_children[os + j].key_view()
                && diff_post(old_children[os + j], new_children[q], planned[j])
    &&& forall|j: int|
        0 <= j < planned.len() ==> ((#[trigger] planned[j]) matches NodeOp::Move(t, a, c, ins)
            ==> exists|d: NodeOp|
            diff_post(old_children[os + j], new_children[t as int], d) && move_payload_from(
                d,
                a,
                c,
                ins,
            ))
}

/// Reconcile the two non-empty middles left between the common prefix and
/// suffix: `old_children[old_start..old_end]` against
/// `new_children[new_start..new_end]`.  Children are matched by identity
/// key; of several children carrying one key, the last occurrence wins,
/// as in a map filled in order.  A middle child without a key is never
/// matched: an old one is removed, a new one inserted.  When matched
/// children changed their relative order, the survivors picked by a
/// longest increasing subsequence stay in place and the rest move.
///
/// The contract fixes the plan: one operation per old middle child, a
/// `Remove` exactly for the unmatched ones, kept children diffed against
/// their key match and standing at ascending new positions, moves
/// carrying their pair's update payload, exactly the untargeted new
/// positions inserted, and never a bare "no change" for a middle whose
/// first children disagree.
#[verifier::spinoff_prover]
#[verifier::rlimit(100)]
fn diff_middles<'new>(
    queue: &mut OpQueue<'new>,
    inserts: &mut Vec<ChildInsert<'new>>,
    old_children: &Vec<VNode>,
    old_start: usize,
    old_end: usize,
    new_children: &'new Vec<VNode>,
    new_start: usize,
    new_end: usize,
)
    requires
        old(queue).wf(),
        old(inserts)@.len() == 0,
        old_start < old_end <= old_children@.len(),
        new_start < new_end <= new_children@.len(),
        ops_consumed(old(queue).ops()) + (old_end - old_start) <= usize::MAX,
    ensures
        final(queue).wf(),
        ops_consumed(final(queue).ops()) == ops_consumed(old(queue).ops()) + (old_end
            - old_start),
        inserts_in_range(new_children@, final(inserts)@, new_start as int, new_end as int),
        ops_positive(old(queue).ops()) ==> ops_positive(final(queue).ops()),
        old_children@[old_start as int].key_view() != new_children@[new_start as int].key_view()
            && range_keys_distinct(old_children@, old_start as int, old_end as int) ==> !(
        ops_all_skip(final(queue).ops()) && final(inserts)@.len() == 0),
        count_matched(
            old_children@,
            old_start as int,
            old_end as int,
            new_children@,
            new_start as int,
            new_end as int,
        ) != new_end - new_start ==> (forall|q: int|
            new_start <= q < new_end && !pos_targeted(
                old_children@,
                old_start as int,
                old_end as int,
                new_children@,
                new_start as int,
                new_end as int,
                q,
            ) ==> insert_at(final(inserts)@, q)),
        count_matched(
            old_children@,
            old_start as int,
            old_end as int,
            new_children@,
            new_start as int,
            new_end as int,
        ) == new_end - new_start ==> final(inserts)@.len() == 0,
        forall|t: int|
            0 <= t < final(inserts)@.len() ==> !pos_targeted(
                old_children@,
                old_start as int,
                old_end as int,
                new_children@,
                new_start as int,
                new_end as int,
                (#[trigger] final(inserts)@[t]).0 as int,
            ),
        exists|planned: Seq<NodeOp<'new>>|
            #[trigger] push_ops(old(queue).ops(), planned) == final(queue).ops()
                && middle_plan_ok(
                old_children@,
                old_start as int,
                old_end as int,
                new_children@,
                new_start as int,
                new_end as int,
                planned,
            ) && middle_kept_ordered(
                old_children@,
                old_start as int,
                old_end as int,
                new_children@,
                new_start as int,
                new_end as int,
                planned,
            ),
    decreases nodes_size(old_children@), 1int,
{
    let m_old = old_end - old_start;
    let m_new = new_end - new_start;

    // For each new middle position, the last old middle child sent there.
    let mut old_positions: Vec<Option<usize>> = Vec::new();
    let mut t: usize = 0;
    while t < m_new
        invariant
            t <= m_new,
            old_positions@.len() == t,
            forall|q: int| 0 <= q < t ==> (#[trigger] old_positions@[q]) is None,
        decreases m_new - t,
    {
        old_positions.push(Option::None);
        t = t + 1;
    }

    // Match each old middle child against the new middle by key.
    let mut match_pos: Vec<Option<usize>> = Vec::new();
    let mut moved = false;
    let mut removed: usize = 0;
    let mut last_position: usize = 0;
    let mut i: usize = 0;
    let ghost mut inv_a: int = 0;
    let ghost mut inv_b: int = 0;
    let ghost mut last_mi: int = 0;
    let ghost mut has_match: bool = false;
    while i < m_old
        invariant
            m_old == old_end - old_start,
            m_new == new_end - new_start,
            old_start < old_end <= old_children@.len(),
            new_start < new_end <= new_children@.len(),
            i <= m_old,
            removed <= i,
            match_pos@.len() == i,
            old_positions@.len() == m_new,
            forall|j: int| 0 <= j < i ==> opt_lt(#[trigger] match_pos@[j], m_new as int),
            forall|j: int|
                0 <= j < i ==> ((#[trigger] match_pos@[j]) is Some <==> middle_matched(
                    old_children@[old_start + j],
                    new_children@,
                    new_start as int,
                    new_end as int,
                )),
            forall|j: int|
                0 <= j < i ==> ((#[trigger] match_pos@[j]) matches Option::Some(p)
                    ==> new_children@[new_start + p].key_view() == old_children@[old_start
                    + j].key_view()),
            forall|j: int|
                0 <= j < i ==> ((#[trigger] match_pos@[j]) matches Option::Some(p) ==> (
                forall|q2: int|
                    new_start + p < q2 < new_end ==> (#[trigger] new_children@[q2]).key_view()
                        != old_children@[old_start + j].key_view())),
            forall|q: int|
                0 <= q < m_new ==> ((#[trigger] old_positions@[q]) matches Option::Some(oi)
                    ==> oi < i && match_pos@[oi as int] == Option::Some(q as usize)),
            (removed == 0) == (forall|j: int| 0 <= j < i ==> mp_def(match_pos@, j)),
            has_match ==> 0 <= last_mi < i && mp_def(match_pos@, last_mi) && mp_val(
                match_pos@,
                last_mi,
            ) == last_position as int,
            !has_match ==> forall|j: int| 0 <= j < i ==> !mp_def(match_pos@, j),
            !has_match ==> last_position == 0,
            !moved ==> (forall|j: int|
                0 <= j < i && mp_def(match_pos@, j) ==> mp_val(match_pos@, j)
                    <= last_position as int),
            !moved ==> (forall|j1: int, j2: int|
                0 <= j1 < j2 < i && mp_def(match_pos@, j1) && mp_def(match_pos@, j2)
                    ==> mp_val(match_pos@, j1) <= mp_val(match_pos@, j2)),
            moved ==> 0 <= inv_a < inv_b < i && mp_def(match_pos@, inv_a) && mp_def(
                match_pos@,
                inv_b,
            ) && mp_val(match_pos@, inv_a) > mp_val(match_pos@, inv_b),
            removed as int == i - count_matched(
                old_children@,
                old_start as int,
                old_start + i,
                new_children@,
                new_start as int,
                new_end as int,
            ),
            forall|q: int|
                0 <= q < m_new ==> ((#[trigger] old_positions@[q]) is Some <==> pos_targeted(
                    old_children@,
                    old_start as int,
                    old_start + i,
                    new_children@,
                    new_start as int,
                    new_end as int,
                    new_start + q,
                )),
        decreases m_old - i,
    {
        let key_opt = old_children[old_start + i].key();
        let pos = match key_opt {
            Option::Some(k) => find_key_last(new_children, new_start, new_end, k),
            Option::None => Option::None,
        };
        proof {
            let c = old_children@[old_start + i];
            match pos {
                Option::Some(p) => {
                    assert(new_children@[new_start + p as int].key_view() == c.key_view());
                    assert(middle_matched(
                        c,
                        new_children@,
                        new_start as int,
                        new_end as int,
                    ));
                },
                Option::None => {
                    if middle_matched(c, new_children@, new_start as int, new_end as int) {
                        let q = choose|q: int|
                            new_start <= q < new_end && (#[trigger] new_children@[q]).key_view()
                                == c.key_view();
                        assert(new_children@[new_start + (q - new_start)].key_view()
                            == c.key_view());
                        assert(false);
                    }
                },
            }
        }
        let ghost old_positions_prev = old_positions@;
        let ghost match_pos_prev = match_pos@;
        let ghost last_prev = last_position;
        let ghost moved_prev = moved;
        match pos {
            Option::Some(p) => {
                proof {
                    if last_position > p && !moved {
                        inv_a = last_mi;
                        inv_b = i as int;
                    }
                }
                if last_position > p {
                    moved = true;
                }
                last_position = p;
                old_positions[p] = Option::Some(i);
                match_pos.push(Option::Some(p));
                proof {
                    last_mi = i as int;
                    has_match = true;
                    assert(match_pos@[i as int] == Option::Some(p));
                    assert forall|j: int| 0 <= j < i implies match_pos@[j] == match_pos_prev[j]
                        by {}
                    if removed == 0 {
                        assert forall|j: int| 0 <= j < i + 1 implies mp_def(match_pos@, j) by {
                            if j < i {
                                assert(mp_def(match_pos_prev, j));
                            }
                        }
                    } else {
                        assert(!(forall|j: int| 0 <= j < i ==> mp_def(match_pos_prev, j)));
                        let j0 = choose|j: int| 0 <= j < i && !mp_def(match_pos_prev, j);
                        assert(!mp_def(match_pos@, j0));
                    }
                    if !moved {
                        assert(last_prev <= p);
                        assert forall|j: int|
                            0 <= j < i + 1 && mp_def(match_pos@, j) implies mp_val(
                            match_pos@,
                            j,
                        ) <= p as int by {
                            if j < i {
                                assert(mp_def(match_pos_prev, j));
                                assert(mp_val(match_pos_prev, j) <= last_prev as int);
                            }
                        }
                        assert forall|j1: int, j2: int|
                            0 <= j1 < j2 < i + 1 && mp_def(match_pos@, j1) && mp_def(
                            match_pos@,
                            j2,
                        ) implies mp_val(match_pos@, j1) <= mp_val(match_pos@, j2) by {
                            if j2 < i {
                                assert(mp_def(match_pos_prev, j1) && mp_def(
                                    match_pos_prev,
                                    j2,
                                ));
                            } else {
                                assert(mp_def(match_pos_prev, j1));
                                assert(mp_val(match_pos_prev, j1) <= last_prev as int);
                            }
                        }
                    }
                    if moved && !moved_prev {
                        assert(last_prev > p);
                        assert(has_match || last_prev == 0);
                        assert(mp_def(match_pos@, inv_a) && mp_val(match_pos@, inv_a)
                            == last_prev as int);
                        assert(mp_def(match_pos@, inv_b) && mp_val(match_pos@, inv_b)
                            == p as int);
                    }
                    let c = old_children@[old_start + i as int];
                    assert(count_matched(
                        old_children@,
                        old_start as int,
                        old_start + i + 1,
                        new_children@,
                        new_start as int,
                        new_end as int,
                    ) == count_matched(
                        old_children@,
                        old_start as int,
                        old_start + i,
                        new_children@,
                        new_start as int,
                        new_end as int,
                    ) + 1);
                    assert forall|q2: int|
                        new_start + p < q2 < new_end implies (
                    #[trigger] new_children@[q2]).key_view() != c.key_view() by {
                        assert(new_children@[new_start + (q2 - new_start)].key_view()
                            != c.key_view());
                    }
                    assert(pos_targeted(
                        old_children@,
                        old_start as int,
                        old_start + i + 1,
                        new_children@,
                        new_start as int,
                        new_end as int,
                        new_start + p as int,
                    ));
                    assert forall|q: int|
                        0 <= q < m_new implies ((#[trigger] old_positions@[q]) is Some
                        <==> pos_targeted(
                        old_children@,
                        old_start as int,
                        old_start + i + 1,
                        new_children@,
                        new_start as int,
                        new_end as int,
                        new_start + q,
                    )) by {
                        if q != p as int {
                            assert(old_positions@[q] == old_positions_prev[q]);
                            if old_positions_prev[q] is Some {
                                let iw = choose|iw: int|
                                    old_start <= iw < old_start + i && (
                                    #[trigger] old_children@[iw]).key_view() is Some
                                        && new_children@[new_start + q].key_view()
                                        == old_children@[iw].key_view() && (forall|q2: int|
                                        new_start + q < q2 < new_end ==> (
                                        #[trigger] new_children@[q2]).key_view()
                                            != old_children@[iw].key_view());
                                assert(old_start <= iw < old_start + i + 1);
                            }
                            if pos_targeted(
                                old_children@,
                                old_start as int,
                                old_start + i + 1,
                                new_children@,
                                new_start as int,
                                new_end as int,
                                new_start + q,
                            ) {
                                let iw = choose|iw: int|
                                    old_start <= iw < old_start + i + 1 && (
                                    #[trigger] old_children@[iw]).key_view() is Some
                                        && new_children@[new_start + q].key_view()
                                        == old_children@[iw].key_view() && (forall|q2: int|
                                        new_start + q < q2 < new_end ==> (
                                        #[trigger] new_children@[q2]).key_view()
                                            != old_children@[iw].key_view());
                                if iw == old_start + i {
                                    if q < p as int {
                                        assert(new_children@[new_start + p as int].key_view()
                                            != old_children@[iw].key_view());
                                        assert(false);
                                    } else {
                                        assert(new_children@[new_start + q].key_view()
                                            != c.key_view());
                                        assert(false);
                                    }
                                }
                                assert(old_start <= iw < old_start + i);
                            }
                        }
                    }
                    assert forall|q: int|
                        0 <= q < m_new implies ((#[trigger] old_positions@[q]) matches
                    Option::Some(oi) ==> oi < i + 1 && match_pos@[oi as int] == Option::Some(
                        q as usize,
                    )) by {
                        if old_positions@[q] is Some {
                            let oi = old_positions@[q]->0;
                            if q == p {
                                assert(oi == i);
                            } else {
                                assert(old_positions@[q] == old_positions_prev[q]);
                            }
                        }
                    }
                }
            },
            Option::None => {
                removed = removed + 1;
                match_pos.push(Option::None);
                proof {
                    assert(!mp_def(match_pos@, i as int));
                    assert forall|j: int| 0 <= j < i implies match_pos@[j] == match_pos_prev[j]
                        by {}
                    assert(!(forall|j: int| 0 <= j < i + 1 ==> mp_def(match_pos@, j)));
                    if !has_match {
                        assert forall|j: int| 0 <= j < i + 1 implies !mp_def(
                            match_pos@,
                            j,
                        ) by {
                            if j < i {
                                assert(!mp_def(match_pos_prev, j));
                            }
                        }
                    }
                    if !moved {
                        assert forall|j: int|
                            0 <= j < i + 1 && mp_def(match_pos@, j) implies mp_val(
                            match_pos@,
                            j,
                        ) <= last_position as int by {
                            assert(match_pos@[j] == match_pos_prev[j]);
                            assert(mp_def(match_pos_prev, j));
                        }
                        assert forall|j1: int, j2: int|
                            0 <= j1 < j2 < i + 1 && mp_def(match_pos@, j1) && mp_def(
                            match_pos@,
                            j2,
                        ) implies mp_val(match_pos@, j1) <= mp_val(match_pos@, j2) by {
                            assert(match_pos@[j1] == match_pos_prev[j1]);
                            assert(match_pos@[j2] == match_pos_prev[j2]);
                            assert(mp_def(match_pos_prev, j1) && mp_def(match_pos_prev, j2));
                        }
                    }
                    let c = old_children@[old_start + i as int];
                    assert(!middle_matched(
                        c,
                        new_children@,
                        new_start as int,
                        new_end as int,
                    ));
                    assert(count_matched(
                        old_children@,
                        old_start as int,
                        old_start + i + 1,
                        new_children@,
                        new_start as int,
                        new_end as int,
                    ) == count_matched(
                        old_children@,
                        old_start as int,
                        old_start + i,
                        new_children@,
                        new_start as int,
                        new_end as int,
                    ));
                    assert forall|q: int|
                        0 <= q < m_new implies ((#[trigger] old_positions@[q]) is Some
                        <==> pos_targeted(
                        old_children@,
                        old_start as int,
                        old_start + i + 1,
                        new_children@,
                        new_start as int,
                        new_end as int,
                        new_start + q,
                    )) by {
                        if old_positions@[q] is Some {
                            let iw = choose|iw: int|
                                old_start <= iw < old_start + i && (
                                #[trigger] old_children@[iw]).key_view() is Some
                                    && new_children@[new_start + q].key_view()
                                    == old_children@[iw].key_view() && (forall|q2: int|
                                    new_start + q < q2 < new_end ==> (
                                    #[trigger] new_children@[q2]).key_view()
                                        != old_children@[iw].key_view());
                            assert(old_start <= iw < old_start + i + 1);
                        }
                        if pos_targeted(
                            old_children@,
                            old_start as int,
                            old_start + i + 1,
                            new_children@,
                            new_start as int,
                            new_end as int,
                            new_start + q,
                        ) {
                            let iw = choose|iw: int|
                                old_start <= iw < old_start + i + 1 && (
                                #[trigger] old_children@[iw]).key_view() is Some
                                    && new_children@[new_start + q].key_view()
                                    == old_children@[iw].key_view() && (forall|q2: int|
                                    new_start + q < q2 < new_end ==> (
                                    #[trigger] new_children@[q2]).key_view()
                                        != old_children@[iw].key_view());
                            if iw == old_start + i {
                                assert(middle_matched(
                                    c,
                                    new_children@,
                                    new_start as int,
                                    new_end as int,
                                ));
                                assert(false);
                            }
                            assert(old_start <= iw < old_start + i);
                        }
                    }
                }
            },
        }
        i = i + 1;
    }

    // When the counts show that some new middle child has no source,
    // insert every unmatched one.
    let ghost gate = m_old - removed != m_new;
    if m_old - removed != m_new {
        let mut p: usize = 0;
        while p < m_new
            invariant
                m_new == new_end - new_start,
                new_start < new_end <= new_children@.len(),
                p <= m_new,
                old_positions@.len() == m_new,
                inserts_in_range(
                    new_children@,
                    inserts@,
                    new_start as int,
                    new_start + p,
                ),
                forall|q: int|
                    0 <= q < p && (#[trigger] old_positions@[q]) is None ==> insert_at(
                        inserts@,
                        new_start + q,
                    ),
                forall|t: int|
                    0 <= t < inserts@.len() ==> (#[trigger] inserts@[t]).0 - new_start
                        < m_new && !(old_positions@[inserts@[t].0 - new_start] is Some),
            decreases m_new - p,
        {
            if old_positions[p].is_none() {
                let ghost prev_ins = inserts@;
                inserts.push((new_start + p, &new_children[new_start + p]));
                proof {
                    lemma_insert_at_push(prev_ins, inserts@[prev_ins.len() as int]);
                }
            }
            p = p + 1;
        }
    }
    // Pick the survivors that may stay in place.
    let lis: Vec<usize> = if moved {
        positions_lis(&old_positions)
    } else {
        Vec::new()
    };
    let ghost w: Seq<int> = if moved {
        choose|w: Seq<int>| lis_witness(old_positions@, lis@, w)
    } else {
        Seq::empty()
    };

    // Plan one operation per old middle child and push them in order.
    let mut lis_index: usize = 0;
    let mut i2: usize = 0;
    let ghost mut planned: Seq<NodeOp<'new>> = Seq::empty();
    while i2 < m_old
        invariant
            m_old == old_end - old_start,
            m_new == new_end - new_start,
            old_start < old_end <= old_children@.len(),
            new_start < new_end <= new_children@.len(),
            i2 <= m_old,
            match_pos@.len() == m_old,
            forall|j: int| 0 <= j < m_old ==> opt_lt(#[trigger] match_pos@[j], m_new as int),
            forall|j: int|
                0 <= j < m_old ==> ((#[trigger] match_pos@[j]) is Some <==> middle_matched(
                    old_children@[old_start + j],
                    new_children@,
                    new_start as int,
                    new_end as int,
                )),
            forall|j: int|
                0 <= j < m_old ==> ((#[trigger] match_pos@[j]) matches Option::Some(p)
                    ==> new_children@[new_start + p].key_view() == old_children@[old_start
                    + j].key_view()),
            forall|j: int|
                0 <= j < m_old ==> ((#[trigger] match_pos@[j]) matches Option::Some(p) ==> (
                forall|q2: int|
                    new_start + p < q2 < new_end ==> (#[trigger] new_children@[q2]).key_view()
                        != old_children@[old_start + j].key_view())),
            queue.wf(),
            ops_consumed(queue.ops()) == ops_consumed(old(queue).ops()) + i2,
            ops_consumed(old(queue).ops()) + m_old <= usize::MAX,
            ops_positive(old(queue).ops()) ==> ops_positive(queue.ops()),
            inserts_in_range(new_children@, inserts@, new_start as int, new_end as int),
            old_positions@.len() == m_new,
            forall|q: int|
                0 <= q < m_new ==> ((#[trigger] old_positions@[q]) matches Option::Some(oi)
                    ==> 0 <= oi < m_old && match_pos@[oi as int] == Option::Some(q as usize)),
            (removed == 0) == (forall|j: int| 0 <= j < m_old ==> mp_def(match_pos@, j)),
            removed <= m_old,
            !moved ==> (forall|j1: int, j2: int|
                0 <= j1 < j2 < m_old && mp_def(match_pos@, j1) && mp_def(match_pos@, j2)
                    ==> mp_val(match_pos@, j1) <= mp_val(match_pos@, j2)),
            moved ==> 0 <= inv_a < inv_b < m_old && mp_def(match_pos@, inv_a) && mp_def(
                match_pos@,
                inv_b,
            ) && mp_val(match_pos@, inv_a) > mp_val(match_pos@, inv_b),
            moved ==> lis_witness(old_positions@, lis@, w),
            removed as int == m_old - count_matched(
                old_children@,
                old_start as int,
                old_end as int,
                new_children@,
                new_start as int,
                new_end as int,
            ),
            forall|q: int|
                0 <= q < m_new ==> ((#[trigger] old_positions@[q]) is Some <==> pos_targeted(
                    old_children@,
                    old_start as int,
                    old_end as int,
                    new_children@,
                    new_start as int,
                    new_end as int,
                    new_start + q,
                )),
            gate == ((m_old - removed) != m_new),
            gate ==> (forall|q: int|
                0 <= q < m_new && (#[trigger] old_positions@[q]) is None ==> insert_at(
                    inserts@,
                    new_start + q,
                )),
            forall|t: int|
                0 <= t < inserts@.len() ==> (#[trigger] inserts@[t]).0 - new_start < m_new
                    && !(old_positions@[inserts@[t].0 - new_start] is Some),
            !gate ==> inserts@.len() == 0,
            moved ==> (forall|j: int|
                0 <= j < planned.len() && !((#[trigger] planned[j]) is Remove) && !(planned[j]
                    is Move) ==> exists|t: int|
                    0 <= t < lis@.len() && (lis@[t] as int) == j),
            forall|j: int|
                0 <= j < planned.len() && !((#[trigger] planned[j]) is Remove) && !(planned[j]
                    is Move) ==> exists|q: int|
                    new_start <= q < new_end && new_children@[q].key_view()
                        == old_children@[old_start + j].key_view() && diff_post(
                        old_children@[old_start + j],
                        new_children@[q],
                        planned[j],
                    ),
            forall|j: int|
                0 <= j < planned.len() ==> ((#[trigger] planned[j]) matches NodeOp::Move(
                    t,
                    a,
                    c,
                    ins,
                ) ==> exists|d: NodeOp|
                    diff_post(
                        old_children@[old_start + j],
                        new_children@[t as int],
                        d,
                    ) && move_payload_from(d, a, c, ins)),
            planned.len() == i2,
            push_ops(old(queue).ops(), planned) == queue.ops(),
            forall|j: int| 0 <= j < planned.len() ==> op_consumed(#[trigger] planned[j]) == 1,
            forall|j: int|
                0 <= j < planned.len() ==> ((#[trigger] planned[j]) is Remove
                    <==> !middle_matched(
                    old_children@[old_start + j],
                    new_children@,
                    new_start as int,
                    new_end as int,
                )),
            forall|j: int|
                0 <= j < planned.len() ==> ((#[trigger] planned[j]) matches NodeOp::Move(
                    t,
                    _,
                    _,
                    _,
                ) ==> new_start <= t < new_end && new_children@[t as int].key_view()
                    == old_children@[old_start + j].key_view()),
        decreases m_old - i2,
    {
        proof {
            lemma_ops_consumed_nonneg(old(queue).ops());
        }
        let ghost planned_prev = planned;
        match match_pos[i2] {
            Option::None => {
                proof {
                    lemma_push_op_consumed(queue.ops(), NodeOp::Remove(1));
                    if ops_positive(queue.ops()) {
                        lemma_push_op_positive(queue.ops(), NodeOp::Remove(1));
                    }
                    planned = planned.push(NodeOp::Remove(1));
                    assert(planned.drop_last() =~= planned_prev);
                }
                queue.push(NodeOp::Remove(1));
            },
            Option::Some(p) => {
                proof {
                    lemma_nodes_size_elem(old_children@, old_start + i2);
                }
                let d = diff(&old_children[old_start + i2], &new_children[new_start + p]);
                if !moved {
                    proof {
                        lemma_push_op_consumed(queue.ops(), d);
                    if ops_positive(queue.ops()) {
                        lemma_push_op_positive(queue.ops(), d);
                    }
                        planned = planned.push(d);
                        assert(planned.drop_last() =~= planned_prev);
                        assert(new_start <= new_start + p < new_end && new_children@[
                            new_start + p as int
                        ].key_view() == old_children@[old_start + i2 as int].key_view()
                            && diff_post(
                            old_children@[old_start + i2 as int],
                            new_children@[new_start + p as int],
                            d,
                        ));
                    }
                    queue.push(d);
                } else if lis_index < lis.len() && i2 == lis[lis_index] {
                    let ghost t_here = lis_index as int;
                    lis_index = lis_index + 1;
                    proof {
                        assert(0 <= t_here < lis@.len() && (lis@[t_here] as int) == i2 as int);
                        lemma_push_op_consumed(queue.ops(), d);
                    if ops_positive(queue.ops()) {
                        lemma_push_op_positive(queue.ops(), d);
                    }
                        planned = planned.push(d);
                        assert(planned.drop_last() =~= planned_prev);
                        assert(new_start <= new_start + p < new_end && new_children@[
                            new_start + p as int
                        ].key_view() == old_children@[old_start + i2 as int].key_view()
                            && diff_post(
                            old_children@[old_start + i2 as int],
                            new_children@[new_start + p as int],
                            d,
                        ));
                    }
                    queue.push(d);
                } else {
                    let ghost d_g = d;
                    let op = match d {
                        NodeOp::Update(a, u, ins2) => NodeOp::Move(new_start + p, a, u, ins2),
                        _ => NodeOp::Move(
                            new_start + p,
                            Option::None,
                            Option::None,
                            Option::None,
                        ),
                    };
                    proof {
                        lemma_push_op_consumed(queue.ops(), op);
                    if ops_positive(queue.ops()) {
                        lemma_push_op_positive(queue.ops(), op);
                    }
                        planned = planned.push(op);
                        assert(planned.drop_last() =~= planned_prev);
                        assert(diff_post(
                            old_children@[old_start + i2 as int],
                            new_children@[new_start + p as int],
                            d_g,
                        ));
                        assert(op matches NodeOp::Move(t, a, c, ins) ==> t == new_start + p
                            && move_payload_from(d_g, a, c, ins));
                    }
                    queue.push(op);
                }
            },
        }
        i2 = i2 + 1;
    }
    proof {
        assert(middle_plan_ok(
            old_children@,
            old_start as int,
            old_end as int,
            new_children@,
            new_start as int,
            new_end as int,
            planned,
        ));
        lemma_kept_ordering(
            old_children@,
            old_start as int,
            old_end as int,
            new_children@,
            new_start as int,
            new_end as int,
            match_pos@,
            old_positions@,
            lis@,
            w,
            planned,
            moved,
        );
        assert(push_ops(old(queue).ops(), planned) == queue.ops());
        // Exactly the untargeted new positions were inserted when the
        // counts called for it.
        lemma_insert_summary(
            old_children@,
            old_start as int,
            old_end as int,
            new_children@,
            new_start as int,
            new_end as int,
            old_positions@,
            gate,
            removed as int,
            inserts@,
        );
        // A reconciled middle never reports "no change": its first pair of
        // children disagree on keys, so an all-Skip plan with no inserts
        // is contradictory.
        if old_children@[old_start as int].key_view() != new_children@[
            new_start as int
        ].key_view() && range_keys_distinct(old_children@, old_start as int, old_end as int)
            && ops_all_skip(queue.ops()) && inserts@.len() == 0 {
            lemma_middle_no_change(
                old_children@,
                old_start as int,
                old_end as int,
                new_children@,
                new_start as int,
                new_end as int,
                match_pos@,
                old_positions@,
                lis@,
                w,
                planned,
                moved,
                inv_a,
                inv_b,
                gate,
                removed as int,
                inserts@,
                old(queue).ops(),
                queue.ops(),
            );
        }
    }
}

/// Diff two children lists: pairs of the common prefix and suffix are
/// diffed in place, the middles are reconciled by key, and the operation
/// list is compressed; a diff made only of one Skip collapses to absence.
/// Absence is also complete: for well-formed lists with unique sibling
/// keys, an absent result is only ever reported for equivalent lists.
#[verifier::spinoff_prover]
#[verifier::rlimit(100)]
pub fn diff_children<'new>(old: &VElement, new: &'new VElement) -> (r: (
    ChildDiff<'new>,
    ChildInserts<'new>,
))
    ensures
        child_diff_ok(*old, *new, r.0, r.1),
        children_equiv(old.children@, new.children@) && nodes_wf(old.children@) && nodes_wf(
            new.children@,
        ) ==> r.0 is None && r.1 is None,
        old.children@.len() == 0 && new.children@.len() == 0 ==> r.0 is None && r.1 is None,
        old.children@.len() > 0 && new.children@.len() == 0 ==> (r.0 matches Option::Some(ops)
            && ops@ == seq![NodeOp::<'new>::Remove(old.children@.len() as usize)]) && r.1
            is None,
        old.children@.len() == 0 && new.children@.len() > 0 ==> r.0 is None && (r.1 matches
            Option::Some(ins) && ins@.len() == new.children@.len() && (forall|q: int|
            0 <= q < ins@.len() ==> (#[trigger] ins@[q]).0 == q && *ins@[q].1
                == new.children@[q])),
        nodes_wf(old.children@) && nodes_wf(new.children@) && keys_distinct(old.children@)
            && nodes_keys_distinct(old.children@) && nodes_keys_distinct(new.children@) && r.0
            is None && r.1 is None ==> children_equiv(old.children@, new.children@),
    decreases nodes_size(old.children@), 2int,
{
    let old_children = &old.children;
    let new_children: &'new Vec<VNode> = &new.children;
    let old_len = old_children.len();
    let new_len = new_children.len();

    if old_len == 0 && new_len == 0 {
        proof {
            assert(children_equiv(old.children@, new.children@));
        }
        return (Option::None, Option::None);
    }
    if new_len == 0 {
        let mut ops: Vec<NodeOp<'new>> = Vec::new();
        ops.push(NodeOp::Remove(old_len));
        proof {
            assert(ops@ =~= seq![NodeOp::<'new>::Remove(old_len)]);
            lemma_ops_consumed_push(Seq::empty(), NodeOp::Remove(old_len));
            assert(Seq::empty().push(NodeOp::<'new>::Remove(old_len)) =~= ops@);
            assert(ops_positive(ops@));
        }
        return (Option::Some(ops), Option::None);
    }
    if old_len == 0 {
        let mut ins: Vec<ChildInsert<'new>> = Vec::new();
        let mut q: usize = 0;
        while q < new_len
            invariant
                q <= new_len,
                new_len == new_children@.len(),
                ins@.len() == q,
                forall|t: int|
                    0 <= t < q ==> (#[trigger] ins@[t]).0 == t && *ins@[t].1
                        == new_children@[t],
            decreases new_len - q,
        {
            ins.push((q, &new_children[q]));
            q = q + 1;
        }
        return (Option::None, Option::Some(ins));
    }

    let ghost eq_case = children_equiv(old.children@, new.children@) && nodes_wf(
        old.children@,
    ) && nodes_wf(new.children@);
    let ghost cmpl = nodes_wf(old.children@) && nodes_wf(new.children@) && keys_distinct(
        old.children@,
    ) && nodes_keys_distinct(old.children@) && nodes_keys_distinct(new.children@);

    // Common prefix and suffix, matched by key.
    let prefix_len = common_prefix_len(old_children, new_children);
    let min_len = if old_len < new_len {
        old_len
    } else {
        new_len
    };
    let max_suffix = min_len - prefix_len;
    let suffix_len = common_suffix_len(old_children, new_children, max_suffix);
    let old_middle_len = old_len - prefix_len - suffix_len;
    let new_middle_len = new_len - prefix_len - suffix_len;

    proof {
        if eq_case {
            if prefix_len < old_len && prefix_len < new_len {
                lemma_equiv_keys(
                    old.children@[prefix_len as int],
                    new.children@[prefix_len as int],
                );
                assert(false);
            }
            assert(prefix_len == min_len);
            assert(suffix_len == 0);
            assert(old_middle_len == 0 && new_middle_len == 0);
        }
    }

    let mut queue = OpQueue::new();
    let mut inserts: Vec<ChildInsert<'new>> = Vec::new();

    // Diff the aligned prefix pairs.
    let mut i: usize = 0;
    while i < prefix_len
        invariant
            old_len == old.children@.len(),
            new_len == new.children@.len(),
            old_children == &old.children,
            new_children == &new.children,
            prefix_len + suffix_len <= old_len,
            prefix_len + suffix_len <= new_len,
            prefix_len <= old_len,
            prefix_len <= new_len,
            i <= prefix_len,
            queue.wf(),
            ops_consumed(queue.ops()) == i,
            ops_positive(queue.ops()),
            cmpl == (nodes_wf(old.children@) && nodes_wf(new.children@) && keys_distinct(
                old.children@,
            ) && nodes_keys_distinct(old.children@) && nodes_keys_distinct(new.children@)),
            cmpl ==> (ops_all_skip(queue.ops()) ==> forall|j: int|
                0 <= j < i ==> node_equiv(#[trigger] old.children@[j], new.children@[j])),
            eq_case ==> (children_equiv(old.children@, new.children@) && nodes_wf(
                old.children@,
            ) && nodes_wf(new.children@)),
            eq_case ==> queue.ops() == (if i == 0 {
                Seq::<NodeOp<'new>>::empty()
            } else {
                seq![NodeOp::<'new>::Skip(i as usize)]
            }),
            inserts@.len() == 0,
        decreases prefix_len - i,
    {
        proof {
            lemma_nodes_size_elem(old.children@, i as int);
        }
        let d = diff(&old_children[i], &new_children[i]);
        proof {
            lemma_push_op_consumed(queue.ops(), d);
            lemma_push_op_positive(queue.ops(), d);
            if eq_case {
                assert(node_equiv(old.children@[i as int], new.children@[i as int]));
                assert(node_wf(old.children@[i as int]));
                assert(node_wf(new.children@[i as int]));
                assert(d == NodeOp::<'new>::Skip(1));
                if i > 0 {
                    assert(queue.ops().drop_last().push(NodeOp::<'new>::Skip((i + 1) as usize))
                        =~= seq![NodeOp::<'new>::Skip((i + 1) as usize)]);
                } else {
                    assert(queue.ops().push(NodeOp::<'new>::Skip(1)) =~= seq![
                        NodeOp::<'new>::Skip(1usize),
                    ]);
                }
            }
        }
        let ghost prev_ops = queue.ops();
        queue.push(d);
        proof {
            if cmpl && ops_all_skip(queue.ops()) {
                lemma_push_op_all_skip(prev_ops, d);
                assert(d == NodeOp::<'new>::Skip(1));
                assert(node_wf(old.children@[i as int]));
                assert(node_wf(new.children@[i as int]));
                assert(node_keys_distinct(old.children@[i as int]));
                assert(node_keys_distinct(new.children@[i as int]));
                assert(node_equiv(old.children@[i as int], new.children@[i as int]));
            }
        }
        i = i + 1;
    }

    // Handle the middles.
    let ghost pre_mid_ops = queue.ops();
    if old_middle_len == 0 && new_middle_len == 0 {
    } else if new_middle_len == 0 {
        proof {
            lemma_push_op_consumed(queue.ops(), NodeOp::Remove(old_middle_len));
            lemma_push_op_positive(queue.ops(), NodeOp::Remove(old_middle_len));
        }
        queue.push(NodeOp::Remove(old_middle_len));
        proof {
            if ops_all_skip(queue.ops()) {
                lemma_push_op_all_skip(pre_mid_ops, NodeOp::Remove(old_middle_len));
            }
        }
    } else if old_middle_len == 0 {
        let mut p: usize = 0;
        while p < new_middle_len
            invariant
                new_len == new.children@.len(),
                new_children == &new.children,
                prefix_len + new_middle_len <= new_len,
                p <= new_middle_len,
                inserts@.len() == p,
                forall|t: int|
                    0 <= t < inserts@.len() ==> prefix_len <= (#[trigger] inserts@[t]).0
                        < prefix_len + p && *inserts@[t].1 == new.children@[inserts@[t].0 as int],
                forall|t: int|
                    0 <= t < inserts@.len() - 1 ==> (#[trigger] inserts@[t]).0 < inserts@[t
                        + 1].0,
            decreases new_middle_len - p,
        {
            inserts.push((prefix_len + p, &new_children[prefix_len + p]));
            p = p + 1;
        }
    } else {
        proof {
            lemma_ops_consumed_nonneg(queue.ops());
            if cmpl {
                assert(prefix_len < old_len && prefix_len < new_len);
                assert(old.children@[prefix_len as int].key_view()
                    != new.children@[prefix_len as int].key_view());
                assert(range_keys_distinct(
                    old.children@,
                    prefix_len as int,
                    prefix_len + old_middle_len,
                ));
            }
        }
        diff_middles(
            &mut queue,
            &mut inserts,
            old_children,
            prefix_len,
            prefix_len + old_middle_len,
            new_children,
            prefix_len,
            prefix_len + new_middle_len,
        );
        proof {
            if ops_all_skip(queue.ops()) {
                let planned = choose|planned: Seq<NodeOp<'new>>|
                    #[trigger] push_ops(pre_mid_ops, planned) == queue.ops()
                        && middle_plan_ok(
                        old.children@,
                        prefix_len as int,
                        prefix_len + old_middle_len,
                        new.children@,
                        prefix_len as int,
                        prefix_len + new_middle_len,
                        planned,
                    );
                lemma_push_ops_all_skip(pre_mid_ops, planned);
            }
        }
    }
    let ghost mid_ops = queue.ops();
    let ghost mid_inserts = inserts@;

    // Diff the aligned suffix pairs.
    let old_suffix_start = old_len - suffix_len;
    let new_suffix_start = new_len - suffix_len;
    let mut s: usize = 0;
    while s < suffix_len
        invariant
            old_len == old.children@.len(),
            new_len == new.children@.len(),
            old_children == &old.children,
            new_children == &new.children,
            prefix_len + suffix_len <= old_len,
            prefix_len + suffix_len <= new_len,
            old_suffix_start == old_len - suffix_len,
            new_suffix_start == new_len - suffix_len,
            old_middle_len == old_len - prefix_len - suffix_len,
            s <= suffix_len,
            queue.wf(),
            ops_consumed(queue.ops()) == prefix_len + old_middle_len + s,
            ops_positive(queue.ops()),
            forall|t: int|
                0 <= t < inserts@.len() ==> (#[trigger] inserts@[t]).0 < new_len
                    && *inserts@[t].1 == new.children@[inserts@[t].0 as int],
            forall|t: int|
                0 <= t < inserts@.len() - 1 ==> (#[trigger] inserts@[t]).0 < inserts@[t + 1].0,
            eq_case ==> suffix_len == 0,
            eq_case ==> queue.ops() == seq![NodeOp::<'new>::Skip(old_len as usize)]
                && inserts@.len() == 0,
            cmpl == (nodes_wf(old.children@) && nodes_wf(new.children@) && keys_distinct(
                old.children@,
            ) && nodes_keys_distinct(old.children@) && nodes_keys_distinct(new.children@)),
            new_middle_len == new_len - prefix_len - suffix_len,
            inserts@ == mid_inserts,
            ops_all_skip(queue.ops()) ==> ops_all_skip(mid_ops),
            cmpl ==> (ops_all_skip(queue.ops()) ==> forall|j: int|
                0 <= j < s ==> node_equiv(
                    #[trigger] old.children@[old_suffix_start + j],
                    new.children@[new_suffix_start + j],
                )),
            cmpl ==> (ops_all_skip(mid_ops) ==> forall|j: int|
                0 <= j < prefix_len ==> node_equiv(
                    #[trigger] old.children@[j],
                    new.children@[j],
                )),
            old_middle_len > 0 && new_middle_len == 0 ==> !ops_all_skip(mid_ops),
            old_middle_len == 0 && new_middle_len > 0 ==> mid_inserts.len() >= 1,
            cmpl && old_middle_len > 0 && new_middle_len > 0 ==> !(ops_all_skip(mid_ops)
                && mid_inserts.len() == 0),
        decreases suffix_len - s,
    {
        proof {
            lemma_nodes_size_elem(old.children@, old_suffix_start + s);
        }
        let d = diff(&old_children[old_suffix_start + s], &new_children[new_suffix_start + s]);
        proof {
            lemma_push_op_consumed(queue.ops(), d);
            lemma_push_op_positive(queue.ops(), d);
        }
        let ghost prev_ops = queue.ops();
        queue.push(d);
        proof {
            if ops_all_skip(queue.ops()) {
                lemma_push_op_all_skip(prev_ops, d);
                if cmpl {
                    assert(d == NodeOp::<'new>::Skip(1));
                    assert(node_wf(old.children@[old_suffix_start + s]));
                    assert(node_wf(new.children@[new_suffix_start + s]));
                    assert(node_keys_distinct(old.children@[old_suffix_start + s]));
                    assert(node_keys_distinct(new.children@[new_suffix_start + s]));
                    assert(node_equiv(
                        old.children@[old_suffix_start + s],
                        new.children@[new_suffix_start + s],
                    ));
                }
            }
        }
        s = s + 1;
    }

    // Extract the operations; a diff that only skips everything is no
    // change at all.
    proof {
        if eq_case {
            assert(suffix_len == 0 && old_middle_len == 0 && prefix_len == old_len);
            assert(queue.ops() == seq![NodeOp::<'new>::Skip(old_len as usize)]);
        }
    }
    let ghost end_ops = queue.ops();
    let queue = queue.remove_single_skip();
    proof {
        queue.lemma_coalesced();
    }
    let ops = queue.done();

    let ops_empty = ops.len() == 0;
    let inserts_empty = inserts.len() == 0;
    proof {
        if !ops_empty {
            assert(ops@ == queue.ops());
        }
    }
    if ops_empty && inserts_empty {
        proof {
            if cmpl {
                assert(ops_consumed(end_ops) == old_len);
                assert(end_ops.len() == 1 && end_ops[0] is Skip);
                assert(ops_all_skip(end_ops));
                assert(ops_all_skip(mid_ops));
                assert(mid_inserts.len() == 0);
                assert(old_middle_len == 0 && new_middle_len == 0);
                assert(old_len == new_len);
                assert forall|k: int| 0 <= k < old_len implies node_equiv(
                    #[trigger] old.children@[k],
                    new.children@[k],
                ) by {
                    if k >= prefix_len {
                        let j = old_len - 1 - k;
                        assert(0 <= j < suffix_len);
                        assert(node_equiv(
                            old.children@[old_suffix_start + j],
                            new.children@[new_suffix_start + j],
                        ));
                    }
                }
                assert(children_equiv(old.children@, new.children@));
            }
        }
        (Option::None, Option::None)
    } else if ops_empty {
        (Option::None, Option::Some(inserts))
    } else if inserts_empty {
        (Option::Some(ops), Option::None)
    } else {
        (Option::Some(ops), Option::Some(inserts))
    }
}

/// Diff two trees.  The result consumes exactly the one old root: a
/// `Skip(1)` when nothing changed, an `Update` carrying attribute edits,
/// child operations and insertions when the element is kept, and a
/// `Replace` carrying the new subtree otherwise.  Text nodes with equal
/// content are reported unchanged.  For well-formed trees with unique
/// sibling keys, `Skip(1)` is reported exactly for equivalent trees.
pub fn diff<'new>(old: &VNode, new: &'new VNode) -> (r: NodeOp<'new>)
    ensures
        op_consumed(r) == 1,
        !(r is Remove),
        !(r is Move),
        diff_post(*old, *new, r),
        node_wf(*old) && node_wf(*new) && node_equiv(*old, *new) ==> r == NodeOp::<'new>::Skip(
            1,
        ),
        node_wf(*old) && node_wf(*new) && node_keys_distinct(*old) && node_keys_distinct(*new)
            && r == NodeOp::<'new>::Skip(1) ==> node_equiv(*old, *new),
    decreases node_size(*old), 0int,
{
    match (old, new) {
        (VNode::Element(old_element), VNode::Element(new_element)) => {
            proof {
                assert(*old == VNode::Element(*old_element));
                assert(*new == VNode::Element(*new_element));
            }
            // Elements with different tags produce Replace.
            if old_element.tag != new_element.tag {
                NodeOp::Replace(new)
                // Elements with different keys produce Replace.
            } else if !elem_keys_eq(old_element, new_element) {
                NodeOp::Replace(new)
                // Diff attributes and children lists.
            } else {
                let attr_diff = diff_attributes(old_element, new_element);
                proof {
                    assert(node_size(*old) == 1 + nodes_size(old_element.children@));
                }
                let (children_diff, children_inserts) = diff_children(
                    old_element,
                    new_element,
                );
                proof {
                    if node_wf(*old) && node_wf(*new) && node_equiv(*old, *new) {
                        lemma_attr_equiv_no_ops(*old_element, *new_element);
                        if !(attr_diff is None) {
                            let v = attr_diff->0;
                            assert(attr_op_required(*old_element, *new_element, v@[0]@));
                            assert(false);
                        }
                        assert(children_equiv(
                            old_element.children@,
                            new_element.children@,
                        ));
                        assert(nodes_wf(old_element.children@));
                        assert(nodes_wf(new_element.children@));
                    }
                }
                // Check if either of attr and children diffs returned Some.
                match (attr_diff, children_diff, children_inserts) {
                    // No diffs produce Skip.
                    (Option::None, Option::None, Option::None) => {
                        proof {
                            if node_wf(*old) && node_wf(*new) && node_keys_distinct(*old)
                                && node_keys_distinct(*new) {
                                assert(old_element.wf() && new_element.wf());
                                assert(classes_equiv(*old_element, *new_element));
                                assert(attrs_equiv(*old_element, *new_element));
                                assert(nodes_wf(old_element.children@));
                                assert(nodes_wf(new_element.children@));
                                assert(keys_distinct(old_element.children@));
                                assert(nodes_keys_distinct(old_element.children@));
                                assert(nodes_keys_distinct(new_element.children@));
                                assert(children_equiv(
                                    old_element.children@,
                                    new_element.children@,
                                ));
                                assert(node_equiv(*old, *new));
                            }
                        }
                        NodeOp::Skip(1)
                    },
                    // Any diff produces Update.
                    (attr, children, inserts) => NodeOp::Update(attr, children, inserts),
                }
            }
        },
        // Text nodes with unchanged content produce Skip, changed content
        // produces Replace.
        (VNode::Text(old_text), VNode::Text(new_text)) => {
            if old_text.content == new_text.content {
                NodeOp::Skip(1)
            } else {
                NodeOp::Replace(new)
            }
        },
        // VNodes of different type produce Replace.
        _ => NodeOp::Replace(new),
    }
}

} // verus!
