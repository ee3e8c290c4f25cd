use vstd::prelude::*;

use crate::node::VNode;

verus! {

/// A text leaf of the virtual tree: an immutable string payload.
#[derive(Debug)]
pub struct VText {
    pub content: String,
}

impl VText {
    /// Create a new VText with the given content.
    pub fn new(content: &str) -> (r: Self)
        ensures
            r.content@ == content@,
    {
        VText { content: content.to_owned() }
    }

    /// Wrap the text into a VNode.
    pub fn done(self) -> (r: VNode)
        ensures
            r == VNode::Text(self),
    {
        VNode::Text(self)
    }

    /// Read the text payload.
    pub fn get_content(&self) -> (r: &str)
        ensures
            r@ == self.content@,
    {
        self.content.as_str()
    }
}

/// Build a text leaf.
pub fn text(content: &str) -> (r: VText)
    ensures
        r.content@ == content@,
{
    VText::new(content)
}

} // verus!
