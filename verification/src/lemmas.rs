//! Facts about the model that the executable functions and the laws rest on.

use crate::list::{List, RcList};
use crate::model::{
    advance, contains, forced, fresh, node, nth, ready_count, shift, stream_closed, walk,
    wf_cells, Cell,
};
use vstd::prelude::*;

verus! {

/// The rest of a closed stream is closed.
pub proof fn lemma_shift_closed<T>(f: spec_fn(nat) -> Option<T>)
    requires
        stream_closed(f),
    ensures
        stream_closed(shift(f)),
{
    assert forall|i: nat| shift(f)(i) is None implies #[trigger] shift(f)(i + 1) is None by {
        assert(f(i + 1) is None ==> f(i + 1 + 1) is None);
    }
}

/// A closed stream that has ended at its first position gives nothing at all.
pub proof fn lemma_closed_empty<T>(f: spec_fn(nat) -> Option<T>, i: nat)
    requires
        stream_closed(f),
        f(0) is None,
    ensures
        f(i) is None,
    decreases i,
{
    if i > 0 {
        lemma_closed_empty(f, (i - 1) as nat);
        assert(f((i - 1) as nat) is None ==> f((i - 1) as nat + 1) is None);
    }
}

/// A new cell whose handles are in the arena keeps the arena sound.
pub proof fn lemma_push_wf<T>(cells: Seq<Cell<T>>, cell: Cell<T>)
    requires
        wf_cells(cells),
        cells.len() < usize::MAX,
        match cell {
            Cell::Ready(List::Cons(_, t)) => contains(cells, t),
            Cell::Ready(List::Nil) => true,
            Cell::Pending(f) => stream_closed(f),
        },
    ensures
        wf_cells(cells.push(cell)),
{
    let after = cells.push(cell);
    assert forall|k: int| 0 <= k < after.len() implies match #[trigger] after[k] {
        Cell::Ready(List::Cons(_, t)) => contains(after, t),
        Cell::Ready(List::Nil) => true,
        Cell::Pending(f) => stream_closed(f),
    } by {
        if k < cells.len() {
            assert(after[k] == cells[k]);
        }
    }
}

/// A new cell changes no list that was there before.
pub proof fn lemma_push_nth<T>(cells: Seq<Cell<T>>, cell: Cell<T>, h: RcList, i: nat)
    requires
        wf_cells(cells),
        contains(cells, h),
    ensures
        nth(cells.push(cell), h, i) == nth(cells, h, i),
    decreases i,
{
    let after = cells.push(cell);
    assert(after[h.cell as int] == cells[h.cell as int]);
    if let Cell::Ready(List::Cons(_, t)) = cells[h.cell as int] {
        if i > 0 {
            lemma_push_nth(cells, cell, t, (i - 1) as nat);
        }
    }
}

/// Forcing keeps the arena sound.
pub proof fn lemma_forced_wf<T>(cells: Seq<Cell<T>>, h: RcList)
    requires
        wf_cells(cells),
        contains(cells, h),
        forced(cells, h).len() <= usize::MAX,
    ensures
        wf_cells(forced(cells, h)),
        cells.len() <= forced(cells, h).len() <= cells.len() + 1,
        forced(cells, h)[h.cell as int] == Cell::Ready(node(cells, h)),
        forall|k: int| 0 <= k < cells.len() && k != h.cell ==> forced(cells, h)[k] == cells[k],
{
    let after = forced(cells, h);
    match cells[h.cell as int] {
        Cell::Ready(_) => {},
        Cell::Pending(f) => {
            lemma_shift_closed(f);
            assert forall|k: int| 0 <= k < after.len() implies match #[trigger] after[k] {
                Cell::Ready(List::Cons(_, t)) => contains(after, t),
                Cell::Ready(List::Nil) => true,
                Cell::Pending(g) => stream_closed(g),
            } by {
                if k < cells.len() && k != h.cell {
                    assert(after[k] == cells[k]);
                }
            }
        },
    }
}

/// Forcing a cell changes no list: every handle of the arena names the same
/// elements after it as before.
pub proof fn lemma_forced_nth<T>(cells: Seq<Cell<T>>, h: RcList, other: RcList, i: nat)
    requires
        wf_cells(cells),
        contains(cells, h),
        contains(cells, other),
        forced(cells, h).len() <= usize::MAX,
    ensures
        nth(forced(cells, h), other, i) == nth(cells, other, i),
    decreases i,
{
    let after = forced(cells, h);
    lemma_forced_wf(cells, h);
    if other.cell == h.cell {
        match cells[h.cell as int] {
            Cell::Ready(List::Nil) => {},
            Cell::Ready(List::Cons(_, t)) => {
                if i > 0 {
                    lemma_forced_nth(cells, h, t, (i - 1) as nat);
                }
            },
            Cell::Pending(f) => {
                match f(0) {
                    None => {
                        lemma_closed_empty(f, i);
                    },
                    Some(v) => {
                        assert(after[h.cell as int] == Cell::Ready(List::Cons(v, fresh(cells))));
                        assert(after[fresh(cells).cell as int] == Cell::Pending(shift(f)));
                        if i > 0 {
                            assert(nth(after, fresh(cells), (i - 1) as nat) == shift(f)(
                                (i - 1) as nat,
                            ));
                        }
                    },
                }
            },
        }
    } else {
        assert(after[other.cell as int] == cells[other.cell as int]);
        if let Cell::Ready(List::Cons(_, t)) = cells[other.cell as int] {
            if i > 0 {
                lemma_forced_nth(cells, h, t, (i - 1) as nat);
            }
        }
    }
}

/// The list at the tail of a forced node is the list of the node without its
/// first element; the first element is the node's head.
pub proof fn lemma_node_nth<T>(cells: Seq<Cell<T>>, h: RcList, i: nat)
    requires
        wf_cells(cells),
        contains(cells, h),
        forced(cells, h).len() <= usize::MAX,
    ensures
        match node(cells, h) {
            List::Nil => nth(cells, h, i) is None,
            List::Cons(v, t) => {
                &&& contains(forced(cells, h), t)
                &&& nth(cells, h, 0) == Some(v)
                &&& nth(forced(cells, h), t, i) == nth(cells, h, i + 1)
            },
        },
{
    lemma_forced_wf(cells, h);
    lemma_forced_nth(cells, h, h, i + 1);
    lemma_forced_nth(cells, h, h, 0);
    lemma_forced_nth(cells, h, h, i);
    let after = forced(cells, h);
    assert(after[h.cell as int] == Cell::Ready(node(cells, h)));
}

/// A traversal of `k + 1` steps is a traversal of `k` steps and one step more.
pub proof fn lemma_walk_step<T>(cells: Seq<Cell<T>>, h: RcList, k: nat)
    ensures
        walk(cells, h, k + 1) == advance(walk(cells, h, k).0, walk(cells, h, k).1),
    decreases k,
{
    if k > 0 {
        let (c, cursor) = advance(cells, h);
        lemma_walk_step(c, cursor, (k - 1) as nat);
        assert(walk(cells, h, k + 1) == walk(c, cursor, k));
    } else {
        let (c, cursor) = advance(cells, h);
        assert(walk(c, cursor, 0) == (c, cursor));
    }
}

/// What a traversal of `k` steps leaves behind: a sound arena that has grown
/// by at most `k` cells, a cursor on the rest of the list, every list of the
/// arena as it was, and every cell that was forced before as it was.
pub proof fn lemma_walk<T>(cells: Seq<Cell<T>>, h: RcList, k: nat, other: RcList, j: nat)
    requires
        wf_cells(cells),
        contains(cells, h),
        cells.len() + k <= usize::MAX,
    ensures
        wf_cells(walk(cells, h, k).0),
        contains(walk(cells, h, k).0, walk(cells, h, k).1),
        cells.len() <= walk(cells, h, k).0.len() <= cells.len() + k,
        nth(walk(cells, h, k).0, walk(cells, h, k).1, j) == nth(cells, h, k + j),
        contains(cells, other) ==> nth(walk(cells, h, k).0, other, j) == nth(cells, other, j),
        contains(cells, other) && cells[other.cell as int] is Ready ==> walk(cells, h, k).0[other.cell as int]
            == cells[other.cell as int],
    decreases k,
{
    if k > 0 {
        let (c, cursor) = advance(cells, h);
        lemma_forced_wf(cells, h);
        lemma_node_nth(cells, h, (k - 1 + j) as nat);
        lemma_node_nth(cells, h, (k + j) as nat);
        lemma_forced_nth(cells, h, h, (k - 1 + j) as nat);
        lemma_walk(c, cursor, (k - 1) as nat, other, j);
        if contains(cells, other) {
            lemma_forced_nth(cells, h, other, j);
        }
    }
}

/// Replacing one cell changes the count of forced cells by that cell alone.
pub proof fn lemma_update_count<T>(cells: Seq<Cell<T>>, i: int, cell: Cell<T>)
    requires
        0 <= i < cells.len(),
    ensures
        ready_count(cells.update(i, cell)) + (if cells[i] is Ready {
            1nat
        } else {
            0nat
        }) == ready_count(cells) + (if cell is Ready {
            1nat
        } else {
            0nat
        }),
    decreases cells.len(),
{
    let after = cells.update(i, cell);
    if i == cells.len() - 1 {
        assert(after.drop_last() =~= cells.drop_last());
    } else {
        assert(after.drop_last() =~= cells.drop_last().update(i, cell));
        lemma_update_count(cells.drop_last(), i, cell);
    }
}

/// A new cell counts as forced exactly if it is ready.
pub proof fn lemma_push_count<T>(cells: Seq<Cell<T>>, cell: Cell<T>)
    ensures
        ready_count(cells.push(cell)) == ready_count(cells) + (if cell is Ready {
            1nat
        } else {
            0nat
        }),
{
    assert(cells.push(cell).drop_last() =~= cells);
}

/// Forcing a pending cell adds one forced cell; forcing a ready cell adds none.
pub proof fn lemma_forced_count<T>(cells: Seq<Cell<T>>, h: RcList)
    requires
        contains(cells, h),
    ensures
        ready_count(forced(cells, h)) == ready_count(cells) + (if cells[h.cell as int] is Pending {
            1nat
        } else {
            0nat
        }),
{
    match cells[h.cell as int] {
        Cell::Ready(_) => {},
        Cell::Pending(f) => {
            match f(0) {
                None => {
                    lemma_update_count(cells, h.cell as int, Cell::Ready(List::Nil));
                },
                Some(v) => {
                    let cons = Cell::Ready(List::Cons(v, fresh(cells)));
                    lemma_update_count(cells, h.cell as int, cons);
                    lemma_push_count(cells.update(h.cell as int, cons), Cell::Pending(shift(f)));
                },
            }
        },
    }
}

/// A traversal that starts on a pending cell stays on cells that it has made
/// itself: after `k` steps that each gave an element the cursor is on a new
/// cell, still pending, and each of the `k` steps has forced a cell.
pub proof fn lemma_fresh_walk<T>(cells: Seq<Cell<T>>, h: RcList, k: nat)
    requires
        wf_cells(cells),
        contains(cells, h),
        cells[h.cell as int] is Pending,
        cells.len() + k <= usize::MAX,
        k > 0,
        nth(cells, h, (k - 1) as nat) is Some,
    ensures
        ({
            let (c, cursor) = walk(cells, h, k);
            &&& contains(c, cursor)
            &&& !contains(cells, cursor)
            &&& c[cursor.cell as int] is Pending
            &&& ready_count(c) == ready_count(cells) + k
            &&& c.len() == cells.len() + k
        }),
    decreases k,
{
    let f = cells[h.cell as int]->Pending_0;
    if f(0) is None {
        lemma_closed_empty(f, (k - 1) as nat);
    }
    let (c, cursor) = advance(cells, h);
    lemma_forced_wf(cells, h);
    lemma_forced_count(cells, h);
    assert(cursor == fresh(cells));
    assert(c[cursor.cell as int] is Pending);
    if k > 1 {
        assert(nth(c, cursor, (k - 2) as nat) == f((k - 1) as nat));
        lemma_fresh_walk(c, cursor, (k - 1) as nat);
    } else {
        assert(walk(c, cursor, 0) == (c, cursor));
    }
}

} // verus!
