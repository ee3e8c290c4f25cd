use vstd::prelude::*;

use crate::node::VNode;
use crate::text::VText;

verus! {

/// An element node: a tag, an optional void marker (void elements have no
/// closing form and should have no children), an optional identity key used
/// for reconciliation, attributes (a mapping with unique names), classes (a
/// set, kept without duplicates), and an ordered children list.
///
/// Attributes and classes are stored as vectors in insertion order; the
/// builder keeps attribute names unique and class entries deduplicated, and
/// the diff never lets that order influence an equality decision.
#[derive(Debug)]
pub struct VElement {
    pub tag: String,
    pub void: bool,
    pub key: Option<String>,
    pub attributes: Vec<(String, String)>,
    pub classes: Vec<String>,
    pub children: Vec<VNode>,
}

impl VElement {
    /// The identity key as a character sequence, if present.
    pub open spec fn key_view(&self) -> Option<Seq<char>> {
        match self.key {
            Some(k) => Some(k@),
            None => None,
        }
    }

    /// Class membership: does the element carry class `c`?
    pub open spec fn has_class(&self, c: Seq<char>) -> bool {
        exists|i: int| 0 <= i < self.classes@.len() && self.classes@[i]@ == c
    }

    /// Attribute presence: does the element carry an attribute named `k`?
    pub open spec fn has_attr(&self, k: Seq<char>) -> bool {
        exists|i: int| 0 <= i < self.attributes@.len() && self.attributes@[i].0@ == k
    }

    /// The value of the attribute named `k` (meaningful when `has_attr(k)`
    /// holds and attribute names are unique).
    pub open spec fn attr_at(&self, k: Seq<char>) -> Seq<char> {
        let i = choose|i: int|
            0 <= i < self.attributes@.len() && self.attributes@[i].0@ == k;
        self.attributes@[i].1@
    }

    /// No two class entries are the same class.
    pub open spec fn classes_distinct(&self) -> bool {
        forall|i: int, j: int|
            0 <= i < j < self.classes@.len() ==> self.classes@[i]@ != self.classes@[j]@
    }

    /// No two attribute entries share a name.
    pub open spec fn attrs_distinct(&self) -> bool {
        forall|i: int, j: int|
            0 <= i < j < self.attributes@.len() ==> self.attributes@[i].0@
                != self.attributes@[j].0@
    }

    /// The element's own invariant: classes deduplicated, attribute names
    /// unique.  Established by the constructors and kept by every builder
    /// step.
    pub open spec fn wf(&self) -> bool {
        self.classes_distinct() && self.attrs_distinct()
    }

    /// Create a new VElement with the given tag.
    pub fn new(tag: &str) -> (r: Self)
        ensures
            r.tag@ == tag@,
            !r.void,
            r.key is None,
            r.attributes@.len() == 0,
            r.classes@.len() == 0,
            r.children@.len() == 0,
            r.wf(),
    {
        VElement {
            tag: tag.to_owned(),
            void: false,
            key: None,
            attributes: Vec::new(),
            classes: Vec::new(),
            children: Vec::new(),
        }
    }

    /// Create a new void VElement with the given tag.  Void elements have no
    /// closing tag and should be given no children.
    pub fn new_void(tag: &str) -> (r: Self)
        ensures
            r.tag@ == tag@,
            r.void,
            r.key is None,
            r.attributes@.len() == 0,
            r.classes@.len() == 0,
            r.children@.len() == 0,
            r.wf(),
    {
        VElement {
            tag: tag.to_owned(),
            void: true,
            key: None,
            attributes: Vec::new(),
            classes: Vec::new(),
            children: Vec::new(),
        }
    }

    //
    // Getters
    //

    /// Read the tag.
    pub fn get_tag(&self) -> (r: &str)
        ensures
            r@ == self.tag@,
    {
        self.tag.as_str()
    }

    /// Is this a void element?
    pub fn is_void(&self) -> (r: bool)
        ensures
            r == self.void,
    {
        self.void
    }

    /// Read the identity key, if any.
    pub fn get_key(&self) -> (r: Option<&String>)
        ensures
            match r {
                Some(k) => self.key_view() == Some(k@),
                None => self.key_view() is None,
            },
    {
        match &self.key {
            Some(k) => Some(k),
            None => None,
        }
    }

    /// Read the attribute mapping, as name/value pairs in insertion order.
    pub fn get_attributes(&self) -> (r: &Vec<(String, String)>)
        ensures
            r == &self.attributes,
    {
        &self.attributes
    }

    /// Read the class set, in insertion order.
    pub fn get_classes(&self) -> (r: &Vec<String>)
        ensures
            r == &self.classes,
    {
        &self.classes
    }

    /// Read the children list.
    pub fn get_children(&self) -> (r: &Vec<VNode>)
        ensures
            r == &self.children,
    {
        &self.children
    }

    //
    // Builder
    //

    /// Set a key for the VElement.
    pub fn key(self, key: &str) -> (r: Self)
        ensures
            r.tag == self.tag,
            r.void == self.void,
            r.attributes == self.attributes,
            r.classes == self.classes,
            r.children == self.children,
            r.key_view() == Some(key@),
    {
        VElement { key: Some(key.to_owned()), ..self }
    }

    /// Add an attribute.  An attribute of the same name is overwritten; a
    /// fresh name is appended.
    pub fn attr(self, name: &str, value: &str) -> (r: Self)
        ensures
            r.tag == self.tag,
            r.void == self.void,
            r.key == self.key,
            r.classes == self.classes,
            r.children == self.children,
            forall|k: Seq<char>| r.has_attr(k) <==> (self.has_attr(k) || k == name@),
            self.attrs_distinct() ==> r.attrs_distinct(),
            self.attrs_distinct() ==> r.attr_at(name@) == value@,
            forall|k: Seq<char>|
                self.attrs_distinct() && k != name@ && self.has_attr(k) ==> r.attr_at(k)
                    == self.attr_at(k),
    {
        let name_s: String = name.to_owned();
        let value_s: String = value.to_owned();
        let mut me = self;
        let found = find_attr_index(&me.attributes, &name_s);
        let ghost old_attrs = self.attributes@;
        match found {
            Some(i) => {
                me.attributes[i] = (name_s, value_s);
                proof {
                    let new_attrs = me.attributes@;
                    assert forall|k: Seq<char>| me.has_attr(k) <==> (self.has_attr(k) || k
                        == name@) by {
                        if self.has_attr(k) {
                            let j = choose|j: int|
                                0 <= j < old_attrs.len() && old_attrs[j].0@ == k;
                            if j != i {
                                assert(new_attrs[j].0@ == k);
                            } else {
                                assert(new_attrs[i as int].0@ == k);
                            }
                        }
                        if k == name@ {
                            assert(new_attrs[i as int].0@ == k);
                        }
                        if me.has_attr(k) {
                            let j = choose|j: int|
                                0 <= j < new_attrs.len() && new_attrs[j].0@ == k;
                            if j != i {
                                assert(old_attrs[j].0@ == k);
                            }
                        }
                    }
                    if self.attrs_distinct() {
                        assert forall|i1: int, j1: int|
                            0 <= i1 < j1 < me.attributes@.len() implies me.attributes@[i1].0@
                            != me.attributes@[j1].0@ by {
                            if i1 != i && j1 != i {
                                assert(me.attributes@[i1] == old_attrs[i1]);
                                assert(me.attributes@[j1] == old_attrs[j1]);
                            }
                        }
                        lemma_attr_at_unique(me, name@, i as int);
                        assert forall|k: Seq<char>| k != name@ && self.has_attr(k) implies me
                            .attr_at(k) == self.attr_at(k) by {
                            let j = choose|j: int|
                                0 <= j < old_attrs.len() && old_attrs[j].0@ == k;
                            assert(j != i);
                            lemma_attr_at_unique(self, k, j);
                            lemma_attr_at_unique(me, k, j);
                        }
                    }
                }
            },
            None => {
                me.attributes.push((name_s, value_s));
                proof {
                    let new_attrs = me.attributes@;
                    assert forall|k: Seq<char>| me.has_attr(k) <==> (self.has_attr(k) || k
                        == name@) by {
                        if self.has_attr(k) {
                            let j = choose|j: int|
                                0 <= j < old_attrs.len() && old_attrs[j].0@ == k;
                            assert(new_attrs[j].0@ == k);
                        }
                        if k == name@ {
                            assert(new_attrs[new_attrs.len() - 1].0@ == k);
                        }
                        if me.has_attr(k) {
                            let j = choose|j: int|
                                0 <= j < new_attrs.len() && new_attrs[j].0@ == k;
                            if j < old_attrs.len() {
                                assert(old_attrs[j].0@ == k);
                            }
                        }
                    }
                    if self.attrs_distinct() {
                        assert forall|i1: int, j1: int|
                            0 <= i1 < j1 < me.attributes@.len() implies me.attributes@[i1].0@
                            != me.attributes@[j1].0@ by {
                            if j1 == me.attributes@.len() - 1 {
                                assert(old_attrs[i1].0@ != name@);
                            }
                        }
                        lemma_attr_at_unique(me, name@, me.attributes@.len() - 1);
                        assert forall|k: Seq<char>| k != name@ && self.has_attr(k) implies me
                            .attr_at(k) == self.attr_at(k) by {
                            let j = choose|j: int|
                                0 <= j < old_attrs.len() && old_attrs[j].0@ == k;
                            lemma_attr_at_unique(self, k, j);
                            lemma_attr_at_unique(me, k, j);
                        }
                    }
                }
            },
        }
        me
    }

    /// Add a class.  A class already present is not duplicated.
    pub fn class(self, name: &str) -> (r: Self)
        ensures
            r.tag == self.tag,
            r.void == self.void,
            r.key == self.key,
            r.attributes == self.attributes,
            r.children == self.children,
            forall|c: Seq<char>| r.has_class(c) <==> (self.has_class(c) || c == name@),
            self.classes_distinct() ==> r.classes_distinct(),
    {
        let name_s: String = name.to_owned();
        let mut me = self;
        if !contains_class(&me.classes, &name_s) {
            let ghost old_classes = self.classes@;
            me.classes.push(name_s);
            proof {
                let new_classes = me.classes@;
                assert forall|c: Seq<char>| me.has_class(c) <==> (self.has_class(c) || c
                    == name@) by {
                    if self.has_class(c) {
                        let j = choose|j: int|
                            0 <= j < old_classes.len() && old_classes[j]@ == c;
                        assert(new_classes[j]@ == c);
                    }
                    if c == name@ {
                        assert(new_classes[new_classes.len() - 1]@ == c);
                    }
                    if me.has_class(c) {
                        let j = choose|j: int|
                            0 <= j < new_classes.len() && new_classes[j]@ == c;
                        if j < old_classes.len() {
                            assert(old_classes[j]@ == c);
                        }
                    }
                }
                if self.classes_distinct() {
                    assert forall|i1: int, j1: int|
                        0 <= i1 < j1 < me.classes@.len() implies me.classes@[i1]@
                        != me.classes@[j1]@ by {
                        if j1 == me.classes@.len() - 1 {
                            assert(old_classes[i1]@ != name@);
                        }
                    }
                }
            }
        } else {
            proof {
                assert(self.has_class(name@));
            }
        }
        me
    }

    /// Parse a whitespace-separated class list and add each class.
    /// Whitespace here is the ASCII space, tab, newline and carriage
    /// return; classes already present are not duplicated.
    pub fn class_list(self, classes: &str) -> (r: Self)
        ensures
            r.tag == self.tag,
            r.void == self.void,
            r.key == self.key,
            r.attributes == self.attributes,
            r.children == self.children,
            forall|c: Seq<char>|
                r.has_class(c) <==> (self.has_class(c) || has_token(classes@, c)),
            self.classes_distinct() ==> r.classes_distinct(),
    {
        let n = classes.unicode_len();
        let mut me = self;
        let mut i: usize = 0;
        while i < n
            invariant
                n == classes@.len(),
                i <= n,
                me.tag == self.tag,
                me.void == self.void,
                me.key == self.key,
                me.attributes == self.attributes,
                me.children == self.children,
                self.classes_distinct() ==> me.classes_distinct(),
                i == 0 || i == n || is_space(classes@[i - 1]) || is_space(classes@[i as int]),
                forall|c: Seq<char>|
                    me.has_class(c) <==> (self.has_class(c) || exists|a: int, b: int|
                        token_at(classes@, a, b) && b <= i && c == classes@.subrange(a, b)),
            decreases n - i,
        {
            let ch = classes.get_char(i);
            if ch == ' ' || ch == '\t' || ch == '\n' || ch == '\r' {
                i = i + 1;
                proof {
                    assert forall|c: Seq<char>| me.has_class(c) <==> (self.has_class(c)
                        || exists|a: int, b: int|
                        token_at(classes@, a, b) && b <= i && c == classes@.subrange(
                            a,
                            b,
                        )) by {
                        if exists|a: int, b: int|
                            token_at(classes@, a, b) && b <= i && c == classes@.subrange(
                                a,
                                b,
                            ) {
                            let (a, b) = choose|a: int, b: int|
                                token_at(classes@, a, b) && b <= i && c == classes@.subrange(
                                    a,
                                    b,
                                );
                            if b == i {
                                assert(!is_space(classes@[b - 1]));
                                assert(is_space(classes@[i - 1]));
                            }
                        }
                    }
                }
            } else {
                let start = i;
                let mut j: usize = i;
                loop
                    invariant
                        n == classes@.len(),
                        start == i,
                        start < n,
                        start <= j <= n,
                        !is_space(classes@[start as int]),
                        forall|q: int| start <= q < j ==> !is_space(#[trigger] classes@[q]),
                    ensures
                        start < j <= n,
                        forall|q: int| start <= q < j ==> !is_space(#[trigger] classes@[q]),
                        j == n || is_space(classes@[j as int]),
                    decreases n - j,
                {
                    if j >= n {
                        break ;
                    }
                    let c2 = classes.get_char(j);
                    if c2 == ' ' || c2 == '\t' || c2 == '\n' || c2 == '\r' {
                        break ;
                    }
                    j = j + 1;
                }
                let tok = classes.substring_char(start, j);
                proof {
                    assert(token_at(classes@, start as int, j as int));
                }
                let ghost me_before = me;
                me = me.class(tok);
                proof {
                    assert forall|c: Seq<char>| me.has_class(c) <==> (self.has_class(c)
                        || exists|a: int, b: int|
                        token_at(classes@, a, b) && b <= j && c == classes@.subrange(
                            a,
                            b,
                        )) by {
                        if me.has_class(c) {
                            if !me_before.has_class(c) {
                                assert(c == tok@);
                                assert(token_at(classes@, start as int, j as int) && j <= j
                                    && c == classes@.subrange(start as int, j as int));
                            }
                        }
                        if exists|a: int, b: int|
                            token_at(classes@, a, b) && b <= j && c == classes@.subrange(
                                a,
                                b,
                            ) {
                            let (a, b) = choose|a: int, b: int|
                                token_at(classes@, a, b) && b <= j && c == classes@.subrange(
                                    a,
                                    b,
                                );
                            if b > i {
                                // The only token ending inside the run just
                                // consumed is the run itself.
                                if b < j {
                                    assert(!is_space(classes@[b]));
                                    assert(false);
                                }
                                if a < start {
                                    assert(start >= 1);
                                    assert(!is_space(classes@[start - 1]));
                                    assert(false);
                                }
                                if a > start {
                                    assert(is_space(classes@[a - 1]));
                                    assert(false);
                                }
                                assert(c == tok@);
                                assert(me.has_class(c));
                            }
                        }
                    }
                }
                i = j;
            }
        }
        proof {
            assert forall|c: Seq<char>| me.has_class(c) <==> (self.has_class(c) || has_token(
                classes@,
                c,
            )) by {
                if has_token(classes@, c) {
                    let (a, b) = choose|a: int, b: int|
                        token_at(classes@, a, b) && c == classes@.subrange(a, b);
                    assert(token_at(classes@, a, b) && b <= i && c == classes@.subrange(a, b));
                }
                if me.has_class(c) && !self.has_class(c) {
                    let (a, b) = choose|a: int, b: int|
                        token_at(classes@, a, b) && b <= i && c == classes@.subrange(a, b);
                    assert(has_token(classes@, c));
                }
            }
        }
        me
    }

    /// Add an element as a child.
    pub fn child(self, element: VElement) -> (r: Self)
        ensures
            r.tag == self.tag,
            r.void == self.void,
            r.key == self.key,
            r.attributes == self.attributes,
            r.classes == self.classes,
            r.children@ == self.children@.push(VNode::Element(element)),
    {
        let mut me = self;
        me.children.push(VNode::Element(element));
        me
    }

    /// Add a text leaf as a child.
    pub fn text(self, text: &str) -> (r: Self)
        ensures
            r.tag == self.tag,
            r.void == self.void,
            r.key == self.key,
            r.attributes == self.attributes,
            r.classes == self.classes,
            r.children@.len() == self.children@.len() + 1,
            r.children@.subrange(0, self.children@.len() as int) == self.children@,
            r.children@.last() matches VNode::Text(t) && t.content@ == text@,
    {
        let mut me = self;
        me.children.push(VNode::Text(VText::new(text)));
        proof {
            assert(me.children@.subrange(0, self.children@.len() as int) =~= self.children@);
        }
        me
    }

    /// Finish building the VElement and wrap it into a VNode.
    pub fn done(self) -> (r: VNode)
        ensures
            r == VNode::Element(self),
    {
        VNode::Element(self)
    }
}

/// One of the whitespace separators recognised in a class list: the
/// ASCII space, tab, newline and carriage return.
pub open spec fn is_space(c: char) -> bool {
    c == ' ' || c == '\t' || c == '\n' || c == '\r'
}

/// The characters `s[a..b]` form one maximal whitespace-separated token.
pub open spec fn token_at(s: Seq<char>, a: int, b: int) -> bool {
    &&& 0 <= a < b <= s.len()
    &&& (forall|q: int| a <= q < b ==> !is_space(#[trigger] s[q]))
    &&& (a == 0 || is_space(s[a - 1]))
    &&& (b == s.len() || is_space(s[b]))
}

/// Is `c` one of the whitespace-separated tokens of `s`?
pub open spec fn has_token(s: Seq<char>, c: Seq<char>) -> bool {
    exists|a: int, b: int| token_at(s, a, b) && c == s.subrange(a, b)
}

/// With unique attribute names, the value read for a name is the value
/// stored beside any entry carrying that name.
pub proof fn lemma_attr_at_unique(e: VElement, k: Seq<char>, i: int)
    requires
        e.attrs_distinct(),
        0 <= i < e.attributes@.len(),
        e.attributes@[i].0@ == k,
    ensures
        e.has_attr(k),
        e.attr_at(k) == e.attributes@[i].1@,
{
    assert(e.has_attr(k));
    let j = choose|i: int| 0 <= i < e.attributes@.len() && e.attributes@[i].0@ == k;
    assert(e.attributes@[j].0@ == k);
    if j < i {
        assert(e.attributes@[j].0@ != e.attributes@[i].0@);
    } else if j > i {
        assert(e.attributes@[i].0@ != e.attributes@[j].0@);
    }
}

/// Find the first attribute entry carrying `name`.
pub(crate) fn find_attr_index(attrs: &Vec<(String, String)>, name: &String) -> (r: Option<
    usize,
>)
    ensures
        match r {
            Some(i) => 0 <= i < attrs@.len() && attrs@[i as int].0@ == name@ && (forall|j: int|
                0 <= j < i ==> attrs@[j].0@ != name@),
            None => forall|j: int| 0 <= j < attrs@.len() ==> attrs@[j].0@ != name@,
        },
{
    let n = attrs.len();
    let mut i: usize = 0;
    while i < n
        invariant
            n == attrs@.len(),
            i <= n,
            forall|j: int| 0 <= j < i ==> attrs@[j].0@ != name@,
        decreases n - i,
    {
        if attrs[i].0 == *name {
            return Some(i);
        }
        i = i + 1;
    }
    None
}

/// Is `name` one of the classes in the list?
pub(crate) fn contains_class(classes: &Vec<String>, name: &String) -> (r: bool)
    ensures
        r == exists|i: int| 0 <= i < classes@.len() && classes@[i]@ == name@,
{
    let n = classes.len();
    let mut i: usize = 0;
    while i < n
        invariant
            n == classes@.len(),
            i <= n,
            forall|j: int| 0 <= j < i ==> classes@[j]@ != name@,
        decreases n - i,
    {
        if classes[i] == *name {
            return true;
        }
        i = i + 1;
    }
    false
}

/// Class membership agrees between the two elements.
pub open spec fn classes_equiv(a: VElement, b: VElement) -> bool {
    forall|c: Seq<char>| #[trigger] a.has_class(c) == #[trigger] b.has_class(c)
}

/// The attribute mappings agree: same names, same values.
pub open spec fn attrs_equiv(a: VElement, b: VElement) -> bool {
    &&& forall|k: Seq<char>| #[trigger] a.has_attr(k) == #[trigger] b.has_attr(k)
    &&& forall|k: Seq<char>|
        #[trigger] a.has_attr(k) && b.has_attr(k) ==> a.attr_at(k) == b.attr_at(k)
}

//
// Common HTML elements
//

/// Build a `div` element.
pub fn div() -> (r: VElement)
    ensures
        r.tag@ == "div"@,
        !r.void,
        r.key is None,
        r.attributes@.len() == 0,
        r.classes@.len() == 0,
        r.children@.len() == 0,
        r.wf(),
{
    VElement::new("div")
}

/// Build a `p` element.
pub fn p() -> (r: VElement)
    ensures
        r.tag@ == "p"@,
        !r.void,
        r.key is None,
        r.attributes@.len() == 0,
        r.classes@.len() == 0,
        r.children@.len() == 0,
        r.wf(),
{
    VElement::new("p")
}

/// Build an `hr` element (void).
pub fn hr() -> (r: VElement)
    ensures
        r.tag@ == "hr"@,
        r.void,
        r.key is None,
        r.attributes@.len() == 0,
        r.classes@.len() == 0,
        r.children@.len() == 0,
        r.wf(),
{
    VElement::new_void("hr")
}

} // verus!
