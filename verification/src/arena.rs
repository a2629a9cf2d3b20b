//! The arena: the owner of every cell, and the place where cells are forced.

use crate::lemmas::{lemma_forced_wf, lemma_push_wf};
use crate::list::{List, RcList};
use crate::model::{advance, contains, forced, fresh, node, stream_closed, wf_cells, Cell};
use crate::source::Source;
use crate::thunk::{stream_of, Thunk};
use vstd::prelude::*;

verus! {

/// The store of all the cells of a family of lists.
///
/// Lists are named by handles into the arena. Cells are only ever added or
/// forced, never changed otherwise, so a handle names the same elements for
/// as long as the arena lives.
pub struct Arena<T, S> {
    cells: Vec<Thunk<T, S>>,
}

impl<T, S: Source<T>> View for Arena<T, S> {
    type V = Seq<Cell<T>>;

    closed spec fn view(&self) -> Seq<Cell<T>> {
        Seq::new(self.cells@.len(), |k: int| self.cells@[k]@)
    }
}

impl<T, S: Source<T>> Arena<T, S> {
    /// Every source that waits in a cell may be run.
    pub closed spec fn sources_wf(&self) -> bool {
        forall|k: int| 0 <= k < self.cells@.len() ==> (#[trigger] self.cells@[k]).wf()
    }

    /// The arena is sound.
    pub open spec fn wf(&self) -> bool {
        wf_cells(self@) && self.sources_wf()
    }

    /// An arena without cells.
    pub fn new() -> (arena: Self)
        ensures
            arena.wf(),
            arena@ == Seq::<Cell<T>>::empty(),
    {
        let arena = Arena { cells: Vec::new() };
        assert(arena@ =~= Seq::<Cell<T>>::empty());
        arena
    }

    /// Is `h` a handle of this arena?
    pub fn contains(&self, h: RcList) -> (b: bool)
        ensures
            b == contains(self@, h),
    {
        h.cell < self.cells.len()
    }

    /// Is `h` a handle of this arena whose cell has been forced?
    pub fn is_forced(&self, h: RcList) -> (b: bool)
        ensures
            b == (contains(self@, h) && self@[h.cell as int] is Ready),
    {
        h.cell < self.cells.len() && self.cells[h.cell].is_evaluated()
    }

    /// Adds a cell and gives its handle.
    pub(crate) fn add_cell(&mut self, thunk: Thunk<T, S>) -> (h: RcList)
        requires
            old(self).wf(),
            thunk.wf(),
            match thunk@ {
                Cell::Ready(List::Cons(_, t)) => contains(old(self)@, t),
                Cell::Ready(List::Nil) => true,
                Cell::Pending(f) => stream_closed(f),
            },
        ensures
            final(self).wf(),
            h == fresh(old(self)@),
            final(self)@ == old(self)@.push(thunk@),
    {
        let n = self.cells.len();
        self.cells.push(thunk);
        proof {
            assert(self@ =~= old(self)@.push(thunk@));
            assert(self.cells@.len() == self.cells.len());
            lemma_push_wf(old(self)@, thunk@);
        }
        RcList { cell: n }
    }

    /// A lazy list of the elements that `source` gives, in its order.
    ///
    /// Nothing is taken from the source now: each cell takes one element when
    /// it is first forced.
    pub fn from_iter(&mut self, source: S) -> (list: RcList)
        requires
            old(self).wf(),
            source.wf(),
        ensures
            final(self).wf(),
            list == fresh(old(self)@),
            final(self)@ == old(self)@.push(Cell::Pending(stream_of(source))),
    {
        proof {
            assert forall|i: nat| stream_of(source)(i) is None implies #[trigger] stream_of(
                source,
            )(i + 1) is None by {
                source.yields_closed(i);
            }
        }
        self.add_cell(Thunk::Unevaluated(source))
    }

    /// Forces the cell of `h` and gives its node.
    ///
    /// The first call on a cell runs the cell's source once; every later call
    /// finds the node in place and changes nothing.
    pub fn force(&mut self, h: RcList) -> (forced_node: &List<T>)
        requires
            old(self).wf(),
            contains(old(self)@, h),
        ensures
            final(self).wf(),
            final(self)@ == forced(old(self)@, h),
            *forced_node == node(old(self)@, h),
            old(self)@.len() <= final(self)@.len(),
    {
        let i = h.cell;
        if !self.cells[i].is_evaluated() {
            let rest = RcList { cell: self.cells.len() };
            let left = self.cells[i].force(rest);
            match left {
                Some(source) => {
                    self.cells.push(Thunk::Unevaluated(source));
                },
                None => {},
            }
            proof {
                assert(self@ =~= forced(old(self)@, h));
                assert(self.cells@.len() == self.cells.len());
                lemma_forced_wf(old(self)@, h);
            }
        }
        self.cells[i].value().unwrap()
    }

    /// One step of a traversal: gives the element under the cursor and moves
    /// the cursor past it, or gives `None` at the end of the list and leaves
    /// the cursor there.
    pub fn next(&mut self, cursor: &mut RcList) -> (item: Option<&T>)
        requires
            old(self).wf(),
            contains(old(self)@, *old(cursor)),
        ensures
            final(self).wf(),
            contains(final(self)@, *final(cursor)),
            (final(self)@, *final(cursor)) == advance(old(self)@, *old(cursor)),
            item == node(old(self)@, *old(cursor)).head(),
            old(self)@.len() <= final(self)@.len(),
    {
        let ghost before = self@;
        let forced_node = self.force(*cursor);
        proof {
            lemma_forced_wf(before, *cursor);
        }
        match forced_node {
            List::Cons(val, tail) => {
                *cursor = *tail;
                Some(val)
            },
            List::Nil => None,
        }
    }
}

} // verus!
