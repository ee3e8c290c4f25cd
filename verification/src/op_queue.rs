use vstd::prelude::*;

use crate::ops::NodeOp;
use crate::ops::coalesced;
use crate::ops::op_consumed;
use crate::ops::ops_consumed;
use crate::ops::push_op;
use crate::ops::lemma_ops_consumed_nonneg;
use crate::ops::lemma_ops_consumed_push;
use crate::ops::lemma_push_op_coalesced;

verus! {

/// The lazily-held tail operation, not yet committed to the list.
#[derive(Clone, Copy)]
enum LastOp {
    Empty,
    Skip(usize),
    Remove(usize),
}

/// A NodeOp queue with size optimizations.
///
/// All runs of consecutive `Skip` operations, and of consecutive `Remove`
/// operations, are reduced to a single operation with the summed count.
/// Nothing is reordered: the queue holds exactly the pushed sequence with
/// those runs merged.
pub struct OpQueue<'new> {
    last: LastOp,
    queue: Vec<NodeOp<'new>>,
}

impl<'new> OpQueue<'new> {
    /// The pending slot as a zero- or one-element sequence.
    closed spec fn last_seq(self) -> Seq<NodeOp<'new>> {
        match self.last {
            LastOp::Empty => Seq::empty(),
            LastOp::Skip(n) => seq![NodeOp::Skip(n)],
            LastOp::Remove(n) => seq![NodeOp::Remove(n)],
        }
    }

    /// The operation list as it stands, pending slot included.
    pub closed spec fn ops(self) -> Seq<NodeOp<'new>> {
        self.queue@ + self.last_seq()
    }

    /// Internal invariant: the held list is coalesced, and a committed
    /// Skip or Remove tail always sits in the pending slot.
    pub closed spec fn wf(self) -> bool {
        &&& coalesced(self.ops())
        &&& (self.last is Empty ==> self.queue@.len() == 0 || !(self.queue@.last()
            is Skip) && !(self.queue@.last() is Remove))
    }

    /// A well-formed queue holds no two adjacent operations of one
    /// mergeable kind.
    pub proof fn lemma_coalesced(self)
        requires
            self.wf(),
        ensures
            coalesced(self.ops()),
    {
    }

    /// Create an empty queue.
    pub fn new() -> (r: Self)
        ensures
            r.wf(),
            r.ops() == Seq::<NodeOp<'new>>::empty(),
    {
        let r = OpQueue { last: LastOp::Empty, queue: Vec::new() };
        proof {
            assert(r.ops() =~= Seq::<NodeOp<'new>>::empty());
        }
        r
    }

    /// Append one operation, merging it into a pending Skip or Remove run
    /// of the same kind.
    pub fn push(&mut self, op: NodeOp<'new>)
        requires
            old(self).wf(),
            ops_consumed(old(self).ops()) + op_consumed(op) <= usize::MAX,
        ensures
            final(self).wf(),
            final(self).ops() == push_op(old(self).ops(), op),
    {
        let ghost prev = self.ops();
        proof {
            lemma_ops_consumed_nonneg(self.queue@);
            if prev.len() > 0 {
                lemma_ops_consumed_nonneg(prev.drop_last());
                lemma_ops_consumed_push(prev.drop_last(), prev.last());
                assert(prev.drop_last().push(prev.last()) =~= prev);
            }
        }
        match (self.last, op) {
            // When the pending slot is empty
            (LastOp::Empty, NodeOp::Skip(op_count)) => {
                self.last = LastOp::Skip(op_count);
                proof {
                    assert(self.ops() =~= push_op(prev, op));
                }
            },
            (LastOp::Empty, NodeOp::Remove(op_count)) => {
                self.last = LastOp::Remove(op_count);
                proof {
                    assert(self.ops() =~= push_op(prev, op));
                }
            },
            (LastOp::Empty, other) => {
                self.queue.push(other);
                proof {
                    assert(self.ops() =~= push_op(prev, op));
                    lemma_push_op_coalesced(prev, op);
                }
            },
            // When the pending slot holds a Skip
            (LastOp::Skip(last_count), NodeOp::Skip(op_count)) => {
                proof {
                    assert(prev.last() == NodeOp::Skip(last_count));
                    assert(ops_consumed(prev) >= last_count as int);
                }
                self.last = LastOp::Skip(op_count + last_count);
                proof {
                    assert(self.ops() =~= push_op(prev, op));
                }
            },
            (LastOp::Skip(last_count), NodeOp::Remove(op_count)) => {
                self.queue.push(NodeOp::Skip(last_count));
                self.last = LastOp::Remove(op_count);
                proof {
                    assert(self.ops() =~= push_op(prev, op));
                    lemma_push_op_coalesced(prev, op);
                }
            },
            (LastOp::Skip(last_count), other) => {
                self.queue.push(NodeOp::Skip(last_count));
                self.queue.push(other);
                self.last = LastOp::Empty;
                proof {
                    assert(self.ops() =~= push_op(prev, op));
                    lemma_push_op_coalesced(prev, op);
                }
            },
            // When the pending slot holds a Remove
            (LastOp::Remove(last_count), NodeOp::Remove(op_count)) => {
                proof {
                    assert(prev.last() == NodeOp::Remove(last_count));
                    assert(ops_consumed(prev) >= last_count as int);
                }
                self.last = LastOp::Remove(op_count + last_count);
                proof {
                    assert(self.ops() =~= push_op(prev, op));
                }
            },
            (LastOp::Remove(last_count), NodeOp::Skip(op_count)) => {
                self.queue.push(NodeOp::Remove(last_count));
                self.last = LastOp::Skip(op_count);
                proof {
                    assert(self.ops() =~= push_op(prev, op));
                    lemma_push_op_coalesced(prev, op);
                }
            },
            (LastOp::Remove(last_count), other) => {
                self.queue.push(NodeOp::Remove(last_count));
                self.queue.push(other);
                self.last = LastOp::Empty;
                proof {
                    assert(self.ops() =~= push_op(prev, op));
                    lemma_push_op_coalesced(prev, op);
                }
            },
        }
    }

    /// If the whole queue is one Skip, drop it: a diff made only of "skip
    /// everything" is no change at all.
    pub fn remove_single_skip(self) -> (r: Self)
        requires
            self.wf(),
        ensures
            r.wf(),
            if self.ops().len() == 1 && self.ops()[0] is Skip {
                r.ops() == Seq::<NodeOp<'new>>::empty()
            } else {
                r.ops() == self.ops()
            },
    {
        let mut me = self;
        let is_single = me.queue.len() == 0;
        match (is_single, &me.last) {
            (true, LastOp::Skip(_)) => {
                me.last = LastOp::Empty;
                proof {
                    assert(me.ops() =~= Seq::<NodeOp<'new>>::empty());
                }
            },
            _ => {
                proof {
                    if self.ops().len() == 1 && self.ops()[0] is Skip {
                        assert(self.queue@.len() == 0);
                    }
                }
            },
        }
        me
    }

    /// Flush the pending slot and hand the operation list out.
    pub fn done(self) -> (r: Vec<NodeOp<'new>>)
        ensures
            r@ == self.ops(),
    {
        let mut me = self;
        match me.last {
            LastOp::Skip(last_count) => {
                me.queue.push(NodeOp::Skip(last_count));
            },
            LastOp::Remove(last_count) => {
                me.queue.push(NodeOp::Remove(last_count));
            },
            LastOp::Empty => {},
        }
        proof {
            assert(me.queue@ =~= self.ops());
        }
        me.queue
    }

    /// Flush the pending slot and hand the operation list out reversed.
    pub fn done_reverse(self) -> (r: Vec<NodeOp<'new>>)
        ensures
            r@ == self.ops().reverse(),
    {
        let ghost all = self.ops();
        let mut queue = self.done();
        let mut out: Vec<NodeOp<'new>> = Vec::new();
        proof {
            assert(queue@.subrange(0, queue@.len() as int) =~= queue@);
        }
        loop
            invariant
                out@.len() + queue@.len() == all.len(),
                queue@ == all.subrange(0, queue@.len() as int),
                forall|j: int| 0 <= j < out@.len() ==> out@[j] == all[all.len() - 1 - j],
            ensures
                queue@.len() == 0,
            decreases queue@.len(),
        {
            match queue.pop() {
                Some(x) => {
                    proof {
                        assert(x == all[queue@.len() as int]);
                        assert(queue@ =~= all.subrange(0, queue@.len() as int));
                    }
                    out.push(x);
                },
                None => {
                    break;
                },
            }
        }
        proof {
            assert(out@.len() == all.len());
            assert forall|i: int| 0 <= i < all.len() implies out@[i] == all.reverse()[i] by {
                assert(all.reverse()[i] == all[all.len() - 1 - i]);
            }
            assert(out@ =~= all.reverse());
        }
        out
    }
}

} // verus!
