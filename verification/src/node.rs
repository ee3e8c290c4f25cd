use vstd::prelude::*;

use crate::element::VElement;
use crate::element::attrs_equiv;
use crate::element::classes_equiv;
use crate::text::VText;

verus! {

/// A node of the virtual tree: either an element or a text leaf.
#[derive(Debug)]
pub enum VNode {
    Element(VElement),
    Text(VText),
}

impl VNode {
    /// The identity key used for reconciliation: an element's key; text
    /// leaves have none.
    pub open spec fn key_view(&self) -> Option<Seq<char>> {
        match self {
            VNode::Element(e) => e.key_view(),
            VNode::Text(_) => None,
        }
    }

    /// Read the identity key, if any.
    pub fn key(&self) -> (r: Option<&String>)
        ensures
            match r {
                Some(k) => self.key_view() == Some(k@),
                None => self.key_view() is None,
            },
    {
        match self {
            VNode::Element(e) => e.get_key(),
            VNode::Text(_) => None,
        }
    }
}

/// Size of a subtree, counting every node; the termination measure for
/// recursion over trees.
pub open spec fn node_size(n: VNode) -> nat
    decreases n,
{
    match n {
        VNode::Text(_) => 1,
        VNode::Element(e) => 1 + nodes_size(e.children@),
    }
}

/// Total size of a sequence of subtrees.
pub open spec fn nodes_size(s: Seq<VNode>) -> nat
    decreases s,
{
    if s.len() == 0 {
        0
    } else {
        node_size(s[0]) + nodes_size(s.drop_first())
    }
}

/// Each member of a sequence is no larger than the whole sequence.
pub proof fn lemma_nodes_size_elem(s: Seq<VNode>, i: int)
    requires
        0 <= i < s.len(),
    ensures
        node_size(s[i]) <= nodes_size(s),
    decreases s.len(),
{
    if i > 0 {
        lemma_nodes_size_elem(s.drop_first(), i - 1);
        assert(s.drop_first()[i - 1] == s[i]);
    }
}

/// Well-formedness of a whole tree: every element keeps its classes
/// deduplicated and its attribute names unique.
pub open spec fn node_wf(n: VNode) -> bool
    decreases n,
{
    match n {
        VNode::Text(_) => true,
        VNode::Element(e) => e.wf() && forall|i: int|
            0 <= i < e.children@.len() ==> node_wf(#[trigger] e.children@[i]),
    }
}

/// No two keyed siblings of the list share a key.
pub open spec fn keys_distinct(s: Seq<VNode>) -> bool {
    forall|i: int, j: int|
        0 <= i < j < s.len() && (#[trigger] s[i]).key_view() is Some && (
        #[trigger] s[j]).key_view() is Some ==> s[i].key_view() != s[j].key_view()
}

/// Keys are unique among siblings throughout the tree.
pub open spec fn node_keys_distinct(n: VNode) -> bool
    decreases n,
{
    match n {
        VNode::Text(_) => true,
        VNode::Element(e) => keys_distinct(e.children@) && forall|i: int|
            0 <= i < e.children@.len() ==> node_keys_distinct(#[trigger] e.children@[i]),
    }
}

/// Every tree of the list keeps sibling keys unique throughout.
pub open spec fn nodes_keys_distinct(s: Seq<VNode>) -> bool {
    forall|i: int| 0 <= i < s.len() ==> node_keys_distinct(#[trigger] s[i])
}

/// Semantic equality of two trees: text leaves match on content; elements
/// match on tag, key, class membership, attribute mapping, and children,
/// pairwise.  Class and attribute order is irrelevant, as is the void
/// marker, which the diff does not consult.
pub open spec fn node_equiv(a: VNode, b: VNode) -> bool
    decreases a,
{
    match (a, b) {
        (VNode::Text(ta), VNode::Text(tb)) => ta.content@ == tb.content@,
        (VNode::Element(ea), VNode::Element(eb)) => {
            &&& ea.tag@ == eb.tag@
            &&& ea.key_view() == eb.key_view()
            &&& classes_equiv(ea, eb)
            &&& attrs_equiv(ea, eb)
            &&& ea.children@.len() == eb.children@.len()
            &&& forall|i: int|
                0 <= i < ea.children@.len() ==> node_equiv(
                    #[trigger] ea.children@[i],
                    eb.children@[i],
                )
        },
        _ => false,
    }
}

/// Structural equality of two trees, field by field: same tag, void
/// marker and key, classes and attributes entry by entry in order, and
/// children pairwise.  This is what `==` means on trees.
pub open spec fn node_eq_deep(a: VNode, b: VNode) -> bool
    decreases a,
{
    match (a, b) {
        (VNode::Text(ta), VNode::Text(tb)) => ta.content@ == tb.content@,
        (VNode::Element(ea), VNode::Element(eb)) => {
            &&& ea.tag@ == eb.tag@
            &&& ea.void == eb.void
            &&& ea.key_view() == eb.key_view()
            &&& ea.classes@.len() == eb.classes@.len()
            &&& (forall|i: int|
                0 <= i < ea.classes@.len() ==> (#[trigger] ea.classes@[i])@ == eb.classes@[i]@)
            &&& ea.attributes@.len() == eb.attributes@.len()
            &&& (forall|i: int|
                0 <= i < ea.attributes@.len() ==> (#[trigger] ea.attributes@[i]).0@
                    == eb.attributes@[i].0@ && ea.attributes@[i].1@ == eb.attributes@[i].1@)
            &&& ea.children@.len() == eb.children@.len()
            &&& (forall|i: int|
                0 <= i < ea.children@.len() ==> node_eq_deep(
                    #[trigger] ea.children@[i],
                    eb.children@[i],
                ))
        },
        _ => false,
    }
}

/// Structural equality of two elements; what `==` means on elements.
pub open spec fn elem_eq_deep(a: VElement, b: VElement) -> bool {
    node_eq_deep(VNode::Element(a), VNode::Element(b))
}

/// Compare two trees structurally.
pub(crate) fn node_eq(a: &VNode, b: &VNode) -> (r: bool)
    ensures
        r == node_eq_deep(*a, *b),
    decreases node_size(*a), 1int,
{
    match (a, b) {
        (VNode::Text(ta), VNode::Text(tb)) => ta.content == tb.content,
        (VNode::Element(ea), VNode::Element(eb)) => {
            proof {
                assert(*a == VNode::Element(*ea));
            }
            elem_eq(ea, eb)
        },
        _ => false,
    }
}

/// Compare two elements structurally.
pub(crate) fn elem_eq(a: &VElement, b: &VElement) -> (r: bool)
    ensures
        r == elem_eq_deep(*a, *b),
    decreases nodes_size(a.children@), 2int,
{
    if a.tag != b.tag {
        return false;
    }
    if a.void != b.void {
        return false;
    }
    let keys_match = match (&a.key, &b.key) {
        (Some(x), Some(y)) => *x == *y,
        (None, None) => true,
        _ => false,
    };
    if !keys_match {
        return false;
    }
    if a.classes.len() != b.classes.len() {
        return false;
    }
    let n_classes = a.classes.len();
    let mut i: usize = 0;
    while i < n_classes
        invariant
            n_classes == a.classes@.len(),
            n_classes == b.classes@.len(),
            i <= n_classes,
            forall|j: int| 0 <= j < i ==> (#[trigger] a.classes@[j])@ == b.classes@[j]@,
        decreases n_classes - i,
    {
        if a.classes[i] != b.classes[i] {
            return false;
        }
        i = i + 1;
    }
    if a.attributes.len() != b.attributes.len() {
        return false;
    }
    let n_attrs = a.attributes.len();
    let mut i2: usize = 0;
    while i2 < n_attrs
        invariant
            n_attrs == a.attributes@.len(),
            n_attrs == b.attributes@.len(),
            i2 <= n_attrs,
            forall|j: int|
                0 <= j < i2 ==> (#[trigger] a.attributes@[j]).0@ == b.attributes@[j].0@
                    && a.attributes@[j].1@ == b.attributes@[j].1@,
        decreases n_attrs - i2,
    {
        if a.attributes[i2].0 != b.attributes[i2].0 {
            return false;
        }
        if a.attributes[i2].1 != b.attributes[i2].1 {
            return false;
        }
        i2 = i2 + 1;
    }
    if a.children.len() != b.children.len() {
        return false;
    }
    let n_children = a.children.len();
    let mut i3: usize = 0;
    while i3 < n_children
        invariant
            n_children == a.children@.len(),
            n_children == b.children@.len(),
            i3 <= n_children,
            forall|j: int|
                0 <= j < i3 ==> node_eq_deep(#[trigger] a.children@[j], b.children@[j]),
        decreases n_children - i3,
    {
        proof {
            lemma_nodes_size_elem(a.children@, i3 as int);
        }
        if !node_eq(&a.children[i3], &b.children[i3]) {
            return false;
        }
        i3 = i3 + 1;
    }
    true
}

impl PartialEq for VNode {
    fn eq(&self, other: &VNode) -> (r: bool) {
        node_eq(self, other)
    }
}

impl vstd::std_specs::cmp::PartialEqSpecImpl for VNode {
    open spec fn obeys_eq_spec() -> bool {
        true
    }

    open spec fn eq_spec(&self, other: &VNode) -> bool {
        node_eq_deep(*self, *other)
    }
}

impl PartialEq for VElement {
    fn eq(&self, other: &VElement) -> (r: bool) {
        elem_eq(self, other)
    }
}

impl vstd::std_specs::cmp::PartialEqSpecImpl for VElement {
    open spec fn obeys_eq_spec() -> bool {
        true
    }

    open spec fn eq_spec(&self, other: &VElement) -> bool {
        elem_eq_deep(*self, *other)
    }
}

impl PartialEq for VText {
    fn eq(&self, other: &VText) -> (r: bool) {
        self.content == other.content
    }
}

impl vstd::std_specs::cmp::PartialEqSpecImpl for VText {
    open spec fn obeys_eq_spec() -> bool {
        true
    }

    open spec fn eq_spec(&self, other: &VText) -> bool {
        self.content@ == other.content@
    }
}

/// Every tree is equivalent to itself; in particular the diff of a tree
/// against itself reports no change.
pub proof fn lemma_node_equiv_refl(n: VNode)
    ensures
        node_equiv(n, n),
    decreases n,
{
    match n {
        VNode::Element(e) => {
            assert forall|i: int| 0 <= i < e.children@.len() implies node_equiv(
                #[trigger] e.children@[i],
                e.children@[i],
            ) by {
                lemma_node_equiv_refl(e.children@[i]);
            }
        },
        VNode::Text(_) => {},
    }
}

} // verus!
