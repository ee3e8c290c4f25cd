use vstd::prelude::*;

use crate::node::VNode;
use crate::node::node_eq;
use crate::node::node_eq_deep;

verus! {

/// An edit of one element's attribute set: class membership changes and
/// attribute insertions, updates and removals.
#[derive(Debug, Clone)]
pub enum AttrOp {
    InsertClass(String),
    RemoveClass(String),
    Insert(String, String),
    Update(String, String),
    Remove(String),
}

/// The shape of an attribute operation over character sequences; the view
/// of an `AttrOp`.
pub enum AttrOpView {
    InsertClass(Seq<char>),
    RemoveClass(Seq<char>),
    Insert(Seq<char>, Seq<char>),
    Update(Seq<char>, Seq<char>),
    Remove(Seq<char>),
}

impl View for AttrOp {
    type V = AttrOpView;

    open spec fn view(&self) -> AttrOpView {
        match self {
            AttrOp::InsertClass(c) => AttrOpView::InsertClass(c@),
            AttrOp::RemoveClass(c) => AttrOpView::RemoveClass(c@),
            AttrOp::Insert(k, v) => AttrOpView::Insert(k@, v@),
            AttrOp::Update(k, v) => AttrOpView::Update(k@, v@),
            AttrOp::Remove(k) => AttrOpView::Remove(k@),
        }
    }
}

/// An attribute diff: absent when nothing changed.
pub type AttrDiff = Option<Vec<AttrOp>>;

/// A children diff: one operation list positionally aligned to the old
/// children; absent when nothing changed.
pub type ChildDiff<'new> = Option<Vec<NodeOp<'new>>>;

/// One insertion: a position in the new children list and the new subtree
/// mounted there.
pub type ChildInsert<'new> = (usize, &'new VNode);

/// The insertions under one parent, in ascending position order; absent
/// when there are none.
pub type ChildInserts<'new> = Option<Vec<ChildInsert<'new>>>;

/// An edit of a region of an old children list.  `Skip(n)` and `Remove(n)`
/// consume `n` old siblings; the rest consume one each.  Positions (in
/// `Move` and in inserts) refer to the new children list.
#[derive(Debug)]
pub enum NodeOp<'new> {
    Skip(usize),
    Remove(usize),
    Move(usize, AttrDiff, ChildDiff<'new>, ChildInserts<'new>),
    Update(AttrDiff, ChildDiff<'new>, ChildInserts<'new>),
    Replace(&'new VNode),
}

/// How many old-list positions one operation consumes.
pub open spec fn op_consumed(op: NodeOp) -> int {
    match op {
        NodeOp::Skip(n) => n as int,
        NodeOp::Remove(n) => n as int,
        _ => 1,
    }
}

/// Old-list positions consumed by a whole operation list.
pub open spec fn ops_consumed(s: Seq<NodeOp>) -> int
    decreases s.len(),
{
    if s.len() == 0 {
        0
    } else {
        ops_consumed(s.drop_last()) + op_consumed(s.last())
    }
}

/// Would the two operations have been merged by the compression queue?
pub open spec fn same_kind(a: NodeOp, b: NodeOp) -> bool {
    (a is Skip && b is Skip) || (a is Remove && b is Remove)
}

/// No two adjacent operations are both Skip or both Remove.
pub open spec fn coalesced(s: Seq<NodeOp>) -> bool {
    forall|i: int| 0 <= i < s.len() - 1 ==> !same_kind(#[trigger] s[i], s[i + 1])
}

/// Append one operation to a coalesced list: a Skip after a Skip, or a
/// Remove after a Remove, merges into the last entry; anything else is
/// appended as it is.
pub open spec fn push_op<'new>(s: Seq<NodeOp<'new>>, op: NodeOp<'new>) -> Seq<NodeOp<'new>> {
    if s.len() > 0 {
        match (s.last(), op) {
            (NodeOp::Skip(a), NodeOp::Skip(b)) => s.drop_last().push(
                NodeOp::Skip((a + b) as usize),
            ),
            (NodeOp::Remove(a), NodeOp::Remove(b)) => s.drop_last().push(
                NodeOp::Remove((a + b) as usize),
            ),
            _ => s.push(op),
        }
    } else {
        s.push(op)
    }
}

/// Structural equality of two attribute operations: same shape, same
/// names and values.  This is what `==` means on them.
pub open spec fn attr_op_eq_deep(a: AttrOp, b: AttrOp) -> bool {
    a@ == b@
}

/// Compare two attribute operations structurally.
pub(crate) fn attr_op_eq(a: &AttrOp, b: &AttrOp) -> (r: bool)
    ensures
        r == (a@ == b@),
{
    match (a, b) {
        (AttrOp::InsertClass(c1), AttrOp::InsertClass(c2)) => *c1 == *c2,
        (AttrOp::RemoveClass(c1), AttrOp::RemoveClass(c2)) => *c1 == *c2,
        (AttrOp::Insert(k1, v1), AttrOp::Insert(k2, v2)) => *k1 == *k2 && *v1 == *v2,
        (AttrOp::Update(k1, v1), AttrOp::Update(k2, v2)) => *k1 == *k2 && *v1 == *v2,
        (AttrOp::Remove(k1), AttrOp::Remove(k2)) => *k1 == *k2,
        _ => false,
    }
}

impl PartialEq for AttrOp {
    fn eq(&self, other: &AttrOp) -> (r: bool) {
        attr_op_eq(self, other)
    }
}

impl vstd::std_specs::cmp::PartialEqSpecImpl for AttrOp {
    open spec fn obeys_eq_spec() -> bool {
        true
    }

    open spec fn eq_spec(&self, other: &AttrOp) -> bool {
        attr_op_eq_deep(*self, *other)
    }
}

/// Size of one operation, counting nested child operations; the
/// termination measure for recursion over patches.
pub open spec fn op_size(op: NodeOp) -> nat
    decreases op,
{
    match op {
        NodeOp::Move(_, _, cd, _) => 1 + child_diff_size(cd),
        NodeOp::Update(_, cd, _) => 1 + child_diff_size(cd),
        _ => 1,
    }
}

/// Size of an optional child operation list.
pub open spec fn child_diff_size(cd: ChildDiff) -> nat
    decreases cd,
{
    match cd {
        Option::Some(v) => 1 + ops_seq_size(v@),
        Option::None => 0,
    }
}

/// Total size of a sequence of operations.
pub open spec fn ops_seq_size(s: Seq<NodeOp>) -> nat
    decreases s,
{
    if s.len() == 0 {
        0
    } else {
        op_size(s[0]) + ops_seq_size(s.drop_first())
    }
}

/// Each member of a sequence is no larger than the whole sequence.
pub proof fn lemma_ops_seq_size_elem(s: Seq<NodeOp>, i: int)
    requires
        0 <= i < s.len(),
    ensures
        op_size(s[i]) <= ops_seq_size(s),
    decreases s.len(),
{
    if i > 0 {
        lemma_ops_seq_size_elem(s.drop_first(), i - 1);
        assert(s.drop_first()[i - 1] == s[i]);
    }
}

/// Structural equality of two node operations: same shape, counts and
/// positions, equal payloads, and replacement or insertion subtrees that
/// are structurally equal trees.  This is what `==` means on them.
pub open spec fn op_eq_deep(a: NodeOp, b: NodeOp) -> bool
    decreases op_size(a), 0int,
{
    match (a, b) {
        (NodeOp::Skip(x), NodeOp::Skip(y)) => x == y,
        (NodeOp::Remove(x), NodeOp::Remove(y)) => x == y,
        (NodeOp::Replace(n1), NodeOp::Replace(n2)) => node_eq_deep(*n1, *n2),
        (NodeOp::Move(p1, a1, c1, i1), NodeOp::Move(p2, a2, c2, i2)) => p1 == p2
            && attr_diff_eq_deep(a1, a2) && child_diff_eq_deep(c1, c2) && inserts_eq_deep(
            i1,
            i2,
        ),
        (NodeOp::Update(a1, c1, i1), NodeOp::Update(a2, c2, i2)) => attr_diff_eq_deep(a1, a2)
            && child_diff_eq_deep(c1, c2) && inserts_eq_deep(i1, i2),
        _ => false,
    }
}

/// Structural equality of optional attribute diffs.
pub open spec fn attr_diff_eq_deep(a: AttrDiff, b: AttrDiff) -> bool {
    match (a, b) {
        (Option::None, Option::None) => true,
        (Option::Some(v1), Option::Some(v2)) => v1@.len() == v2@.len() && forall|i: int|
            0 <= i < v1@.len() ==> (#[trigger] v1@[i])@ == v2@[i]@,
        _ => false,
    }
}

/// Structural equality of optional child diffs.
pub open spec fn child_diff_eq_deep(a: ChildDiff, b: ChildDiff) -> bool
    decreases child_diff_size(a), 1int,
{
    match (a, b) {
        (Option::None, Option::None) => true,
        (Option::Some(v1), Option::Some(v2)) => ops_seq_eq_deep(v1@, v2@),
        _ => false,
    }
}

/// Structural equality of two operation lists, entry by entry.
pub open spec fn ops_seq_eq_deep(s1: Seq<NodeOp>, s2: Seq<NodeOp>) -> bool
    decreases ops_seq_size(s1), 2int,
{
    s1.len() == s2.len() && (s1.len() == 0 || (op_eq_deep(s1[0], s2[0]) && ops_seq_eq_deep(
        s1.drop_first(),
        s2.drop_first(),
    )))
}

/// List equality is equality entry by entry.
pub proof fn lemma_ops_seq_eq_pointwise(s1: Seq<NodeOp>, s2: Seq<NodeOp>)
    ensures
        ops_seq_eq_deep(s1, s2) <==> (s1.len() == s2.len() && forall|i: int|
            0 <= i < s1.len() ==> op_eq_deep(#[trigger] s1[i], s2[i])),
    decreases s1.len(),
{
    if s1.len() > 0 && s1.len() == s2.len() {
        lemma_ops_seq_eq_pointwise(s1.drop_first(), s2.drop_first());
        assert forall|i: int| 0 <= i < s1.drop_first().len() implies #[trigger] s1.drop_first()[i]
            == s1[i + 1] && s2.drop_first()[i] == s2[i + 1] by {}
        if s1.len() == s2.len() && forall|i: int|
            0 <= i < s1.len() ==> op_eq_deep(#[trigger] s1[i], s2[i]) {
            assert forall|i: int|
                0 <= i < s1.drop_first().len() implies op_eq_deep(
                #[trigger] s1.drop_first()[i],
                s2.drop_first()[i],
            ) by {
                assert(op_eq_deep(s1[i + 1], s2[i + 1]));
            }
        }
        if ops_seq_eq_deep(s1, s2) {
            assert forall|i: int| 0 <= i < s1.len() implies op_eq_deep(
                #[trigger] s1[i],
                s2[i],
            ) by {
                if i > 0 {
                    assert(op_eq_deep(s1.drop_first()[i - 1], s2.drop_first()[i - 1]));
                }
            }
        }
    }
}

/// Structural equality of optional insertion lists.
pub open spec fn inserts_eq_deep(a: ChildInserts, b: ChildInserts) -> bool {
    match (a, b) {
        (Option::None, Option::None) => true,
        (Option::Some(v1), Option::Some(v2)) => v1@.len() == v2@.len() && forall|i: int|
            0 <= i < v1@.len() ==> (#[trigger] v1@[i]).0 == v2@[i].0 && node_eq_deep(
                *v1@[i].1,
                *v2@[i].1,
            ),
        _ => false,
    }
}

/// Compare two operations structurally.
pub(crate) fn op_eq(a: &NodeOp, b: &NodeOp) -> (r: bool)
    ensures
        r == op_eq_deep(*a, *b),
    decreases op_size(*a), 2int,
{
    match (a, b) {
        (NodeOp::Skip(x), NodeOp::Skip(y)) => *x == *y,
        (NodeOp::Remove(x), NodeOp::Remove(y)) => *x == *y,
        (NodeOp::Replace(n1), NodeOp::Replace(n2)) => node_eq(n1, n2),
        (NodeOp::Move(p1, a1, c1, i1), NodeOp::Move(p2, a2, c2, i2)) => {
            proof {
                assert(op_size(*a) == 1 + child_diff_size(*c1));
            }
            *p1 == *p2 && attr_diff_eq(a1, a2) && child_diff_eq(c1, c2) && inserts_eq(i1, i2)
        },
        (NodeOp::Update(a1, c1, i1), NodeOp::Update(a2, c2, i2)) => {
            proof {
                assert(op_size(*a) == 1 + child_diff_size(*c1));
            }
            attr_diff_eq(a1, a2) && child_diff_eq(c1, c2) && inserts_eq(i1, i2)
        },
        _ => false,
    }
}

/// Compare two optional attribute diffs structurally.
fn attr_diff_eq(a: &AttrDiff, b: &AttrDiff) -> (r: bool)
    ensures
        r == attr_diff_eq_deep(*a, *b),
{
    match (a, b) {
        (Option::None, Option::None) => true,
        (Option::Some(v1), Option::Some(v2)) => {
            if v1.len() != v2.len() {
                return false;
            }
            let n = v1.len();
            let mut i: usize = 0;
            while i < n
                invariant
                    *a == Option::Some(*v1),
                    *b == Option::Some(*v2),
                    n == v1@.len(),
                    n == v2@.len(),
                    i <= n,
                    forall|j: int| 0 <= j < i ==> (#[trigger] v1@[j])@ == v2@[j]@,
                decreases n - i,
            {
                if !attr_op_eq(&v1[i], &v2[i]) {
                    proof {
                        assert(*a == Option::Some(*v1));
                        assert(*b == Option::Some(*v2));
                        if attr_diff_eq_deep(*a, *b) {
                            assert((v1@[i as int])@ == v2@[i as int]@);
                        }
                    }
                    return false;
                }
                i = i + 1;
            }
            true
        },
        _ => false,
    }
}

/// Compare two optional child diffs structurally.
fn child_diff_eq(a: &ChildDiff, b: &ChildDiff) -> (r: bool)
    ensures
        r == child_diff_eq_deep(*a, *b),
    decreases child_diff_size(*a), 1int,
{
    match (a, b) {
        (Option::None, Option::None) => true,
        (Option::Some(v1), Option::Some(v2)) => {
            if v1.len() != v2.len() {
                return false;
            }
            let n = v1.len();
            let mut i: usize = 0;
            while i < n
                invariant
                    *a == Option::Some(*v1),
                    *b == Option::Some(*v2),
                    n == v1@.len(),
                    n == v2@.len(),
                    i <= n,
                    child_diff_size(*a) == 1 + ops_seq_size(v1@),
                    forall|j: int| 0 <= j < i ==> op_eq_deep(#[trigger] v1@[j], v2@[j]),
                decreases n - i,
            {
                proof {
                    lemma_ops_seq_size_elem(v1@, i as int);
                }
                if !op_eq(&v1[i], &v2[i]) {
                    proof {
                        lemma_ops_seq_eq_pointwise(v1@, v2@);
                    }
                    return false;
                }
                i = i + 1;
            }
            proof {
                lemma_ops_seq_eq_pointwise(v1@, v2@);
            }
            true
        },
        _ => false,
    }
}

/// Compare two optional insertion lists structurally.
fn inserts_eq(a: &ChildInserts, b: &ChildInserts) -> (r: bool)
    ensures
        r == inserts_eq_deep(*a, *b),
{
    match (a, b) {
        (Option::None, Option::None) => true,
        (Option::Some(v1), Option::Some(v2)) => {
            if v1.len() != v2.len() {
                return false;
            }
            let n = v1.len();
            let mut i: usize = 0;
            while i < n
                invariant
                    *a == Option::Some(*v1),
                    *b == Option::Some(*v2),
                    n == v1@.len(),
                    n == v2@.len(),
                    i <= n,
                    forall|j: int|
                        0 <= j < i ==> (#[trigger] v1@[j]).0 == v2@[j].0 && node_eq_deep(
                            *v1@[j].1,
                            *v2@[j].1,
                        ),
                decreases n - i,
            {
                if v1[i].0 != v2[i].0 {
                    proof {
                        if inserts_eq_deep(*a, *b) {
                            assert((v1@[i as int]).0 == v2@[i as int].0);
                        }
                    }
                    return false;
                }
                if !node_eq(v1[i].1, v2[i].1) {
                    proof {
                        if inserts_eq_deep(*a, *b) {
                            assert((v1@[i as int]).0 == v2@[i as int].0);
                        }
                    }
                    return false;
                }
                i = i + 1;
            }
            true
        },
        _ => false,
    }
}

impl<'new> PartialEq for NodeOp<'new> {
    fn eq(&self, other: &NodeOp<'new>) -> (r: bool) {
        op_eq(self, other)
    }
}

impl<'new> vstd::std_specs::cmp::PartialEqSpecImpl for NodeOp<'new> {
    open spec fn obeys_eq_spec() -> bool {
        true
    }

    open spec fn eq_spec(&self, other: &NodeOp<'new>) -> bool {
        op_eq_deep(*self, *other)
    }
}

/// Append a whole list of operations through the queue's merge rule.
pub open spec fn push_ops<'new>(s: Seq<NodeOp<'new>>, ops: Seq<NodeOp<'new>>) -> Seq<
    NodeOp<'new>,
>
    decreases ops.len(),
{
    if ops.len() == 0 {
        s
    } else {
        push_op(push_ops(s, ops.drop_last()), ops.last())
    }
}

/// Every operation in the list consumes at least one old position.
pub open spec fn ops_positive(s: Seq<NodeOp>) -> bool {
    forall|t: int| 0 <= t < s.len() ==> op_consumed(#[trigger] s[t]) >= 1
}

/// Appending an operation that consumes at least one position keeps every
/// count positive, as long as a merged count fits in the machine word.
pub proof fn lemma_push_op_positive(s: Seq<NodeOp>, op: NodeOp)
    requires
        ops_positive(s),
        op_consumed(op) >= 1,
        ops_consumed(s) + op_consumed(op) <= usize::MAX,
    ensures
        ops_positive(push_op(s, op)),
{
    lemma_ops_consumed_nonneg(s);
    let r = push_op(s, op);
    if s.len() > 0 {
        lemma_ops_consumed_nonneg(s.drop_last());
        lemma_ops_consumed_push(s.drop_last(), s.last());
        assert(s.drop_last().push(s.last()) =~= s);
        match (s.last(), op) {
            (NodeOp::Skip(a), NodeOp::Skip(b)) => {
                assert(op_consumed(s.last()) == a as int);
                assert forall|t: int| 0 <= t < r.len() implies op_consumed(#[trigger] r[t])
                    >= 1 by {
                    if t < r.len() - 1 {
                        assert(r[t] == s[t]);
                    }
                }
            },
            (NodeOp::Remove(a), NodeOp::Remove(b)) => {
                assert(op_consumed(s.last()) == a as int);
                assert forall|t: int| 0 <= t < r.len() implies op_consumed(#[trigger] r[t])
                    >= 1 by {
                    if t < r.len() - 1 {
                        assert(r[t] == s[t]);
                    }
                }
            },
            _ => {
                assert forall|t: int| 0 <= t < r.len() implies op_consumed(#[trigger] r[t])
                    >= 1 by {
                    if t < r.len() - 1 {
                        assert(r[t] == s[t]);
                    }
                }
            },
        }
    } else {
        assert(r =~= s.push(op));
    }
}

/// Every operation in the list is a Skip.
pub open spec fn ops_all_skip(s: Seq<NodeOp>) -> bool {
    forall|t: int| 0 <= t < s.len() ==> (#[trigger] s[t]) is Skip
}

/// A merged list of Skips can only have been fed Skips.
pub proof fn lemma_push_op_all_skip(s: Seq<NodeOp>, op: NodeOp)
    requires
        ops_all_skip(push_op(s, op)),
    ensures
        ops_all_skip(s),
        op is Skip,
{
    let r = push_op(s, op);
    if s.len() > 0 {
        match (s.last(), op) {
            (NodeOp::Skip(a), NodeOp::Skip(b)) => {
                assert forall|t: int| 0 <= t < s.len() implies (#[trigger] s[t]) is Skip by {
                    if t < s.len() - 1 {
                        assert(r[t] == s[t]);
                    }
                }
            },
            (NodeOp::Remove(a), NodeOp::Remove(b)) => {
                assert(r[r.len() - 1] is Skip);
                assert(false);
            },
            _ => {
                assert(r[r.len() - 1] == op);
                assert forall|t: int| 0 <= t < s.len() implies (#[trigger] s[t]) is Skip by {
                    assert(r[t] == s[t]);
                }
            },
        }
    } else {
        assert(r[0] == op);
    }
}

/// A merged list of Skips can only have been fed lists of Skips.
pub proof fn lemma_push_ops_all_skip(s: Seq<NodeOp>, ops: Seq<NodeOp>)
    requires
        ops_all_skip(push_ops(s, ops)),
    ensures
        ops_all_skip(s),
        ops_all_skip(ops),
    decreases ops.len(),
{
    if ops.len() > 0 {
        lemma_push_op_all_skip(push_ops(s, ops.drop_last()), ops.last());
        lemma_push_ops_all_skip(s, ops.drop_last());
        assert forall|t: int| 0 <= t < ops.len() implies (#[trigger] ops[t]) is Skip by {
            if t < ops.len() - 1 {
                assert(ops.drop_last()[t] == ops[t]);
            }
        }
    }
}

/// Every operation consumes a nonnegative number of positions.
pub proof fn lemma_ops_consumed_nonneg(s: Seq<NodeOp>)
    ensures
        0 <= ops_consumed(s),
    decreases s.len(),
{
    if s.len() > 0 {
        lemma_ops_consumed_nonneg(s.drop_last());
    }
}

/// Consumption of an appended list.
pub proof fn lemma_ops_consumed_push(s: Seq<NodeOp>, op: NodeOp)
    ensures
        ops_consumed(s.push(op)) == ops_consumed(s) + op_consumed(op),
{
    assert(s.push(op).drop_last() =~= s);
    assert(s.push(op).last() == op);
}

/// Merging keeps the consumption count, as long as a merged count fits in
/// the machine word.
pub proof fn lemma_push_op_consumed(s: Seq<NodeOp>, op: NodeOp)
    requires
        ops_consumed(s) + op_consumed(op) <= usize::MAX,
    ensures
        ops_consumed(push_op(s, op)) == ops_consumed(s) + op_consumed(op),
{
    lemma_ops_consumed_nonneg(s);
    if s.len() > 0 {
        lemma_ops_consumed_nonneg(s.drop_last());
        match (s.last(), op) {
            (NodeOp::Skip(a), NodeOp::Skip(b)) => {
                lemma_ops_consumed_push(s.drop_last(), NodeOp::Skip((a + b) as usize));
            },
            (NodeOp::Remove(a), NodeOp::Remove(b)) => {
                lemma_ops_consumed_push(s.drop_last(), NodeOp::Remove((a + b) as usize));
            },
            _ => {
                lemma_ops_consumed_push(s, op);
            },
        }
    } else {
        lemma_ops_consumed_push(s, op);
    }
}

/// Appending through `push_op` keeps the list coalesced.
pub proof fn lemma_push_op_coalesced(s: Seq<NodeOp>, op: NodeOp)
    requires
        coalesced(s),
    ensures
        coalesced(push_op(s, op)),
{
    let r = push_op(s, op);
    if s.len() > 0 && same_kind(s.last(), op) {
        assert forall|i: int| 0 <= i < r.len() - 1 implies !same_kind(#[trigger] r[i], r[i + 1]) by {
            if i < r.len() - 2 {
                assert(r[i] == s[i]);
                assert(r[i + 1] == s[i + 1]);
            } else {
                assert(r[i] == s[i]);
                assert(same_kind(s[i], r[i + 1]) == same_kind(s[i], s[i + 1]));
            }
        }
    } else {
        assert forall|i: int| 0 <= i < r.len() - 1 implies !same_kind(#[trigger] r[i], r[i + 1]) by {
            if i < r.len() - 2 {
                assert(r[i] == s[i]);
                assert(r[i + 1] == s[i + 1]);
            } else {
                assert(r[i] == s[i]);
                assert(r[i + 1] == op);
            }
        }
    }
}

} // verus!
