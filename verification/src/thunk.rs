//! The lazy cell: a computation that is run at most once, on demand.

use crate::list::{List, RcList};
use crate::model::{continues, forced_cell, shift, Cell, Stream};
use crate::source::Source;
use vstd::prelude::*;

verus! {

/// The elements that a source has still to give.
pub open spec fn stream_of<T, S: Source<T>>(source: S) -> Stream<T> {
    |i: nat| source.yields(i)
}

/// A lazy cell for a list node.
///
/// The cell starts out holding the source of the node and everything after
/// it. Forcing runs the source once and keeps the node in its place; from
/// then on the cell only hands the node out.
pub enum Thunk<T, S> {
    /// Not yet forced.
    Unevaluated(S),
    /// Forced: the node that was computed.
    Evaluated(List<T>),
}

impl<T, S: Source<T>> View for Thunk<T, S> {
    type V = Cell<T>;

    open spec fn view(&self) -> Cell<T> {
        match self {
            Thunk::Unevaluated(source) => Cell::Pending(stream_of(*source)),
            Thunk::Evaluated(node) => Cell::Ready(*node),
        }
    }
}

impl<T, S: Source<T>> Thunk<T, S> {
    /// The source of a cell that is not yet forced may be run.
    pub open spec fn wf(&self) -> bool {
        match self {
            Thunk::Unevaluated(source) => source.wf(),
            Thunk::Evaluated(_) => true,
        }
    }

    /// Has the cell been forced?
    pub fn is_evaluated(&self) -> (b: bool)
        ensures
            b == (self@ is Ready),
    {
        match self {
            Thunk::Unevaluated(_) => false,
            Thunk::Evaluated(_) => true,
        }
    }

    /// Forces the cell.
    ///
    /// A cell that is not yet forced runs its source once. If the source gives
    /// an element, the cell becomes the node of that element with `rest` as
    /// its tail, and the source, now past the element, is handed back for the
    /// cell behind `rest`. If the source has ended, the cell becomes the empty
    /// node. A cell that was forced before is left alone and runs nothing.
    ///
    /// The cell changes only when its source has returned. A source that fails
    /// leaves the cell unforced, and the next forcing runs the source again.
    pub fn force(&mut self, rest: RcList) -> (left: Option<S>)
        requires
            old(self).wf(),
        ensures
            final(self)@ == forced_cell(old(self)@, rest),
            final(self).wf(),
            left is Some <==> continues(old(self)@),
            left matches Some(source) ==> source.wf(),
            left matches Some(source) ==> old(self)@ matches Cell::Pending(f) && stream_of(source)
                == shift(f),
    {
        let item = match self {
            Thunk::Unevaluated(source) => source.next(),
            Thunk::Evaluated(_) => {
                return None;
            },
        };
        let goes_on = item.is_some();
        let mut taken: Thunk<T, S> = Thunk::Evaluated(
            match item {
                Some(val) => List::Cons(val, rest),
                None => List::Nil,
            },
        );
        core::mem::swap(self, &mut taken);
        match taken {
            Thunk::Unevaluated(source) => {
                if goes_on {
                    Some(source)
                } else {
                    None
                }
            },
            Thunk::Evaluated(_) => None,
        }
    }

    /// The node of the cell, if the cell has been forced.
    pub fn value(&self) -> (node: Option<&List<T>>)
        ensures
            node == match self@ {
                Cell::Ready(n) => Some(&n),
                Cell::Pending(_) => None,
            },
    {
        match self {
            Thunk::Evaluated(node) => Some(node),
            Thunk::Unevaluated(_) => None,
        }
    }
}

} // verus!
