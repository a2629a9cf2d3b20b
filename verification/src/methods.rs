//! The operations on list handles: building, taking apart, measuring.

use crate::arena::Arena;
use crate::lemmas::{lemma_forced_wf, lemma_node_nth, lemma_walk_step};
use crate::list::{List, RcList};
use crate::model::{contains, ends_at, finite, forced, fresh, length, node, nth, walk, Cell};
use crate::source::Source;
use crate::thunk::Thunk;
use vstd::prelude::*;

verus! {

impl<T> List<T> {
    /// A new, empty list.
    pub fn new<S: Source<T>>(arena: &mut Arena<T, S>) -> (list: RcList)
        requires
            old(arena).wf(),
        ensures
            final(arena).wf(),
            list == fresh(old(arena)@),
            final(arena)@ == old(arena)@.push(Cell::Ready(List::Nil)),
    {
        arena.add_cell(Thunk::Evaluated(List::Nil))
    }

    /// A new list with `val` as its only element.
    pub fn singleton<S: Source<T>>(arena: &mut Arena<T, S>, val: T) -> (list: RcList)
        requires
            old(arena).wf(),
        ensures
            final(arena).wf(),
            contains(final(arena)@, list),
            final(arena)@ == old(arena)@.push(Cell::Ready(List::Nil)).push(
                Cell::Ready(List::Cons(val, fresh(old(arena)@))),
            ),
            list == fresh(old(arena)@.push(Cell::Ready(List::<T>::Nil))),
    {
        let empty = List::new(arena);
        arena.add_cell(Thunk::Evaluated(List::Cons(val, empty)))
    }
}

/// The methods of a list handle.
pub trait RcListMethods<T>: Sized {
    /// The handle that the methods work on.
    spec fn handle(&self) -> RcList;

    /// The list with `val` put in front of this one.
    ///
    /// This list becomes the tail of the new one as it is: nothing is copied
    /// and nothing is forced.
    fn push<S: Source<T>>(self, arena: &mut Arena<T, S>, val: T) -> (list: RcList)
        requires
            old(arena).wf(),
            contains(old(arena)@, self.handle()),
        ensures
            final(arena).wf(),
            list == fresh(old(arena)@),
            final(arena)@ == old(arena)@.push(Cell::Ready(List::Cons(val, self.handle()))),
    ;

    /// The first element and the handle of the rest, or `None` for the empty
    /// list: what `head` and `tail` give of the forced node, as a pair. The
    /// cell is forced once.
    fn pop<'a, S: Source<T>>(&self, arena: &'a mut Arena<T, S>) -> (r: Option<(&'a T, RcList)>)
        requires
            old(arena).wf(),
            contains(old(arena)@, self.handle()),
        ensures
            final(arena).wf(),
            final(arena)@ == forced(old(arena)@, self.handle()),
            r == match (
                node(old(arena)@, self.handle()).head(),
                node(old(arena)@, self.handle()).tail(),
            ) {
                (Some(val), Some(tail)) => Some((val, tail)),
                _ => None,
            },
            r matches Some((_, tail)) ==> contains(final(arena)@, tail),
            old(arena)@.len() <= final(arena)@.len(),
    ;

    /// The number of elements of a finite list.
    ///
    /// Forces every cell of the list, the one at its end too.
    fn len<S: Source<T>>(&self, arena: &mut Arena<T, S>) -> (n: usize)
        requires
            old(arena).wf(),
            contains(old(arena)@, self.handle()),
            finite(old(arena)@, self.handle()),
            length(old(arena)@, self.handle()) <= usize::MAX,
        ensures
            final(arena).wf(),
            n == length(old(arena)@, self.handle()),
            final(arena)@ == walk(old(arena)@, self.handle(), (n + 1) as nat).0,
            old(arena)@.len() <= final(arena)@.len(),
    ;
}

impl<T> RcListMethods<T> for RcList {
    open spec fn handle(&self) -> RcList {
        *self
    }

    fn push<S: Source<T>>(self, arena: &mut Arena<T, S>, val: T) -> (list: RcList) {
        arena.add_cell(Thunk::Evaluated(List::Cons(val, self)))
    }

    fn pop<'a, S: Source<T>>(&self, arena: &'a mut Arena<T, S>) -> (r: Option<(&'a T, RcList)>) {
        let ghost before = arena@;
        let forced_node = arena.force(*self);
        proof {
            lemma_forced_wf(before, *self);
        }
        match forced_node {
            List::Cons(val, tail) => Some((val, *tail)),
            List::Nil => None,
        }
    }

    fn len<S: Source<T>>(&self, arena: &mut Arena<T, S>) -> (n: usize) {
        let ghost start = arena@;
        let ghost total = length(start, *self);
        let mut cursor = *self;
        let mut count: usize = 0;
        loop
            invariant_except_break
                contains(arena@, cursor),
                (arena@, cursor) == walk(start, *self, count as nat),
                forall|j: nat| nth(arena@, cursor, j) == nth(start, *self, (count + j) as nat),
            invariant
                arena.wf(),
                ends_at(start, *self, total),
                total <= usize::MAX,
                count <= total,
                start.len() <= arena@.len(),
            ensures
                arena.wf(),
                count == total,
                start.len() <= arena@.len(),
                arena@ == walk(start, *self, (count + 1) as nat).0,
            decreases total - count,
        {
            let ghost before = arena@;
            let ghost at = cursor;
            let more = arena.next(&mut cursor).is_some();
            proof {
                lemma_walk_step(start, *self, count as nat);
                assert forall|j: nat| nth(before, at, j) == nth(start, *self, (count + j) as nat) by {}
                lemma_node_nth(before, at, 0);
            }
            if more {
                proof {
                    assert(nth(start, *self, count as nat) is Some);
                    assert forall|j: nat| nth(arena@, cursor, j) == nth(
                        start,
                        *self,
                        (count + 1 + j) as nat,
                    ) by {
                        lemma_node_nth(before, at, j);
                        assert(nth(before, at, j + 1) == nth(start, *self, (count + (j + 1)) as nat));
                    }
                }
                count = count + 1;
            } else {
                proof {
                    assert(nth(start, *self, count as nat) is None);
                }
                break ;
            }
        }
        count
    }
}

} // verus!
