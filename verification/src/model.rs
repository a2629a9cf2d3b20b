//! The mathematical model of an arena: a sequence of cells.
//!
//! A cell is either pending, and then stands for the elements that its source
//! has still to give, or ready, and then holds a node. Everything that the
//! executable functions promise is stated over this model.

use crate::list::{List, RcList};
use vstd::prelude::*;

verus! {

/// A finite or infinite sequence of elements: position `i` holds `Some` while
/// the sequence lasts and `None` from its end on.
pub type Stream<T> = spec_fn(nat) -> Option<T>;

/// What a lazy cell is worth.
pub enum Cell<T> {
    /// Not yet forced: the elements that the cell's source has still to give.
    Pending(Stream<T>),
    /// Forced: the node that was computed, kept for good.
    Ready(List<T>),
}

/// The stream `f` without its first element.
pub open spec fn shift<T>(f: Stream<T>) -> Stream<T> {
    |i: nat| f(i + 1)
}

/// Once `f` has ended it gives nothing more.
pub open spec fn stream_closed<T>(f: Stream<T>) -> bool {
    forall|i: nat| f(i) is None ==> #[trigger] f(i + 1) is None
}

/// The handle is one of this arena.
pub open spec fn contains<T>(cells: Seq<Cell<T>>, h: RcList) -> bool {
    h.cell < cells.len()
}

/// The handle that the next new cell gets.
pub open spec fn fresh<T>(cells: Seq<Cell<T>>) -> RcList {
    RcList { cell: cells.len() as usize }
}

/// The arena is sound: every handle held in a node is one of the arena, every
/// pending stream is closed, and the cells can be counted in a `usize`.
pub open spec fn wf_cells<T>(cells: Seq<Cell<T>>) -> bool {
    &&& cells.len() <= usize::MAX
    &&& forall|k: int|
        0 <= k < cells.len() ==> match #[trigger] cells[k] {
            Cell::Ready(List::Cons(_, t)) => contains(cells, t),
            Cell::Ready(List::Nil) => true,
            Cell::Pending(f) => stream_closed(f),
        }
}

/// A cell after it has been forced, where `rest` is the handle that the
/// cell's continuation gets.
pub open spec fn forced_cell<T>(cell: Cell<T>, rest: RcList) -> Cell<T> {
    match cell {
        Cell::Ready(n) => Cell::Ready(n),
        Cell::Pending(f) => match f(0) {
            None => Cell::Ready(List::Nil),
            Some(v) => Cell::Ready(List::Cons(v, rest)),
        },
    }
}

/// Forcing the cell leaves a continuation: the cell is pending and its stream
/// has not ended.
pub open spec fn continues<T>(cell: Cell<T>) -> bool {
    cell matches Cell::Pending(f) && f(0) is Some
}

/// The arena after the cell of `h` has been forced.
///
/// A ready cell stays as it is. A pending cell takes the first element of its
/// stream and becomes a node whose tail is a new pending cell for the rest of
/// the stream, or becomes the empty node where the stream has ended.
pub open spec fn forced<T>(cells: Seq<Cell<T>>, h: RcList) -> Seq<Cell<T>> {
    match cells[h.cell as int] {
        Cell::Ready(_) => cells,
        Cell::Pending(f) => match f(0) {
            None => cells.update(h.cell as int, Cell::Ready(List::Nil)),
            Some(v) => cells.update(h.cell as int, Cell::Ready(List::Cons(v, fresh(cells)))).push(
                Cell::Pending(shift(f)),
            ),
        },
    }
}

/// The node that forcing the cell of `h` gives.
pub open spec fn node<T>(cells: Seq<Cell<T>>, h: RcList) -> List<T> {
    match cells[h.cell as int] {
        Cell::Ready(n) => n,
        Cell::Pending(f) => match f(0) {
            None => List::Nil,
            Some(v) => List::Cons(v, fresh(cells)),
        },
    }
}

/// The `i`-th element of the list at `h`, or `None` if the list is shorter.
pub open spec fn nth<T>(cells: Seq<Cell<T>>, h: RcList, i: nat) -> Option<T>
    decreases i,
{
    if !contains(cells, h) {
        None
    } else {
        match cells[h.cell as int] {
            Cell::Pending(f) => f(i),
            Cell::Ready(List::Nil) => None,
            Cell::Ready(List::Cons(v, t)) => if i == 0 {
                Some(v)
            } else {
                nth(cells, t, (i - 1) as nat)
            },
        }
    }
}

/// The list at `h` has exactly `n` elements.
pub open spec fn ends_at<T>(cells: Seq<Cell<T>>, h: RcList, n: nat) -> bool {
    &&& nth(cells, h, n) is None
    &&& forall|j: nat| j < n ==> (#[trigger] nth(cells, h, j)) is Some
}

/// The list at `h` has an end.
pub open spec fn finite<T>(cells: Seq<Cell<T>>, h: RcList) -> bool {
    exists|n: nat| ends_at(cells, h, n)
}

/// The number of elements of the finite list at `h`.
pub open spec fn length<T>(cells: Seq<Cell<T>>, h: RcList) -> nat {
    choose|n: nat| ends_at(cells, h, n)
}

/// The elements of the finite list at `h`, in order.
pub open spec fn items<T>(cells: Seq<Cell<T>>, h: RcList) -> Seq<T> {
    Seq::new(length(cells, h), |i: int| nth(cells, h, i as nat).unwrap())
}

/// One step of a traversal: force the cell under the cursor and move the
/// cursor to the tail, or leave it where the list has ended.
pub open spec fn advance<T>(cells: Seq<Cell<T>>, cursor: RcList) -> (Seq<Cell<T>>, RcList) {
    match node(cells, cursor) {
        List::Cons(_, t) => (forced(cells, cursor), t),
        List::Nil => (forced(cells, cursor), cursor),
    }
}

/// The arena and the cursor after `k` steps of a traversal that starts at `h`.
pub open spec fn walk<T>(cells: Seq<Cell<T>>, h: RcList, k: nat) -> (Seq<Cell<T>>, RcList)
    decreases k,
{
    if k == 0 {
        (cells, h)
    } else {
        let (c, cursor) = advance(cells, h);
        walk(c, cursor, (k - 1) as nat)
    }
}

/// The arena after the cell of `h` has been forced `n` times over.
pub open spec fn forced_times<T>(cells: Seq<Cell<T>>, h: RcList, n: nat) -> Seq<Cell<T>>
    decreases n,
{
    if n == 0 {
        cells
    } else {
        forced(forced_times(cells, h, (n - 1) as nat), h)
    }
}

/// The number of cells that have been forced.
pub open spec fn ready_count<T>(cells: Seq<Cell<T>>) -> nat
    decreases cells.len(),
{
    if cells.len() == 0 {
        0
    } else {
        ready_count(cells.drop_last()) + if cells.last() is Ready {
            1nat
        } else {
            0nat
        }
    }
}

} // verus!
