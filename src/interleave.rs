use vstd::prelude::*;

use std::collections::VecDeque;

verus! {

/// Alternates between two sequences, starting with `a`, and stops at the first turn
/// whose sequence has run out.
pub open spec fn interleave_seq<V>(a: Seq<V>, b: Seq<V>) -> Seq<V>
    decreases a.len() + b.len(),
{
    if a.len() == 0 {
        seq![]
    } else {
        seq![a[0]] + interleave_seq(b, a.drop_first())
    }
}

#[derive(Debug, Clone, Copy, PartialEq, Eq)]
enum InterleaveState {
    A,
    B,
    Finished,
}

/// Takes items from two sequences in turn.
#[derive(Debug)]
pub struct InterleaveIters<V> {
    items_a: VecDeque<V>,
    items_b: VecDeque<V>,
    state: InterleaveState,
}

impl<V> InterleaveIters<V> {
    /// The items that are still to come, in order.
    pub closed spec fn pending(&self) -> Seq<V> {
        match self.state {
            InterleaveState::A => interleave_seq(self.items_a@, self.items_b@),
            InterleaveState::B => interleave_seq(self.items_b@, self.items_a@),
            InterleaveState::Finished => seq![],
        }
    }

    /// The next item: from each sequence in turn, until the one whose turn it is runs out.
    pub fn next(&mut self) -> (r: Option<V>)
        ensures
            old(self).pending().len() > 0 ==> r == Some(old(self).pending()[0])
                && final(self).pending() == old(self).pending().drop_first(),
            old(self).pending().len() == 0 ==> r is None && final(self).pending().len() == 0,
    {
        match self.state {
            InterleaveState::A => {
                let next = self.items_a.pop_front();
                self.state = if next.is_none() {
                    InterleaveState::Finished
                } else {
                    InterleaveState::B
                };
                proof {
                    if next is Some {
                        assert(old(self).items_a@.drop_first() =~= self.items_a@);
                    }
                }
                next
            },
            InterleaveState::B => {
                let next = self.items_b.pop_front();
                self.state = if next.is_none() {
                    InterleaveState::Finished
                } else {
                    InterleaveState::A
                };
                proof {
                    if next is Some {
                        assert(old(self).items_b@.drop_first() =~= self.items_b@);
                    }
                }
                next
            },
            InterleaveState::Finished => None,
        }
    }
}

fn into_deque<V>(v: Vec<V>) -> (d: VecDeque<V>)
    ensures
        d@ == v@,
{
    let ghost all = v@;
    let mut v = v;
    let mut d: VecDeque<V> = VecDeque::new();
    while v.len() > 0
        invariant
            v@.len() <= all.len(),
            v@ == all.subrange(0, v@.len() as int),
            d@ == all.subrange(v@.len() as int, all.len() as int),
        decreases v@.len(),
    {
        let x = v.pop().unwrap();
        d.push_front(x);
        assert(d@ =~= all.subrange(v@.len() as int, all.len() as int));
    }
    assert(d@ =~= all);
    d
}

/// Interleaves a sequence with another.
pub trait Interleave<V>: Sized {
    /// The items of `self`, in order.
    spec fn items(&self) -> Seq<V>;

    /// Items of `self` and `other` in turn, starting with `self`.
    fn interleave(self, other: Vec<V>) -> (r: InterleaveIters<V>)
        ensures
            r.pending() == interleave_seq(self.items(), other@),
    ;
}

impl<V> Interleave<V> for Vec<V> {
    open spec fn items(&self) -> Seq<V> {
        self@
    }

    fn interleave(self, other: Vec<V>) -> (r: InterleaveIters<V>) {
        InterleaveIters {
            items_a: into_deque(self),
            items_b: into_deque(other),
            state: InterleaveState::A,
        }
    }
}

} // verus!
