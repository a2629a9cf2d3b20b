//! The laws of lazy lists, proved over the model of the arena.
//!
//! Each executable function says in its contract which arena it leaves, as a
//! function of the arena it found. The laws below say what follows for lists:
//! what stays, what is shared, and how little is forced.

use crate::lemmas::{
    lemma_forced_count, lemma_forced_nth, lemma_forced_wf, lemma_fresh_walk, lemma_node_nth,
    lemma_push_count, lemma_push_nth, lemma_push_wf, lemma_walk, lemma_walk_step,
};
use crate::list::{List, RcList};
use crate::model::{
    advance, contains, ends_at, forced, forced_times, fresh, items, length, node, nth,
    ready_count, walk, wf_cells, Cell,
};
use crate::source::{seq_nth, Source, VecSource};
use crate::thunk::stream_of;
use vstd::prelude::*;

verus! {

/// Forcing a cell any number of times, once or more, leaves the arena that
/// forcing it once leaves, and every time gives the node that the first time
/// gave. The cell's source is run by the first forcing only: after it the
/// cell is ready, and forcing a ready cell is no change at all.
pub proof fn law_force_once<T>(cells: Seq<Cell<T>>, h: RcList, n: nat)
    requires
        contains(cells, h),
        n > 0,
    ensures
        forced_times(cells, h, n) == forced(cells, h),
        forced_times(cells, h, n)[h.cell as int] == Cell::Ready(node(cells, h)),
        node(forced_times(cells, h, n), h) == node(cells, h),
        forced(forced(cells, h), h) == forced(cells, h),
    decreases n,
{
    let once = forced(cells, h);
    assert(once[h.cell as int] == Cell::Ready(node(cells, h)));
    if n > 1 {
        law_force_once(cells, h, (n - 1) as nat);
    } else {
        assert(forced_times(cells, h, 0) == cells);
    }
}

/// Forcing is not seen by any list: after a cell has been forced, every
/// handle of the arena names the elements that it named before.
pub proof fn law_force_keeps_lists<T>(cells: Seq<Cell<T>>, h: RcList, other: RcList, i: nat)
    requires
        wf_cells(cells),
        contains(cells, h),
        contains(cells, other),
        forced(cells, h).len() <= usize::MAX,
    ensures
        wf_cells(forced(cells, h)),
        contains(forced(cells, h), other),
        nth(forced(cells, h), other, i) == nth(cells, other, i),
{
    lemma_forced_wf(cells, h);
    lemma_forced_nth(cells, h, other, i);
}

/// The head of a forced node is the first element of the list, and the tail
/// is a handle on the list without its first element.
pub proof fn law_head_and_tail<T>(cells: Seq<Cell<T>>, h: RcList, i: nat)
    requires
        wf_cells(cells),
        contains(cells, h),
        forced(cells, h).len() <= usize::MAX,
    ensures
        node(cells, h).head() == match nth(cells, h, 0) {
            Some(v) => Some(&v),
            None => None,
        },
        node(cells, h).tail() is Some <==> nth(cells, h, 0) is Some,
        node(cells, h).tail() matches Some(t) ==> contains(forced(cells, h), t) && nth(
            forced(cells, h),
            t,
            i,
        ) == nth(cells, h, i + 1),
{
    lemma_node_nth(cells, h, i);
    lemma_node_nth(cells, h, 0);
}

/// A list of one element: its head is that element, and its tail is a list
/// whose node is the empty one.
pub proof fn law_singleton<T>(cells: Seq<Cell<T>>, val: T)
    requires
        wf_cells(cells),
        cells.len() + 2 <= usize::MAX,
    ensures
        ({
            let empty = fresh(cells);
            let list = fresh(cells.push(Cell::Ready(List::<T>::Nil)));
            let after = cells.push(Cell::Ready(List::Nil)).push(
                Cell::Ready(List::Cons(val, empty)),
            );
            &&& node(after, list).head() == Some(&val)
            &&& node(after, list).tail() == Some(empty)
            &&& node(after, empty) == List::<T>::Nil
            &&& forced(after, list) == after
            &&& forced(after, empty) == after
            &&& ends_at(after, list, 1)
            &&& items(after, list) == seq![val]
        }),
{
    let empty = fresh(cells);
    let list = fresh(cells.push(Cell::Ready(List::<T>::Nil)));
    let after = cells.push(Cell::Ready(List::Nil)).push(Cell::Ready(List::Cons(val, empty)));
    assert(after[empty.cell as int] == Cell::Ready(List::<T>::Nil));
    assert(after[list.cell as int] == Cell::Ready(List::Cons(val, empty)));
    assert(nth(after, list, 0) == Some(val));
    assert(nth(after, empty, 0) is None);
    assert(nth(after, list, 1) == nth(after, empty, 0));
    assert(ends_at(after, list, 1));
    law_length(after, list, 1);
    assert(items(after, list) =~= seq![val]);
}

/// Pushing `val` onto the list at `h` gives a list whose head is `val` and
/// whose tail is `h` itself: the same cell, not a copy of it. The cells that
/// were there before are as they were, and none of them has been forced.
pub proof fn law_push<T>(cells: Seq<Cell<T>>, h: RcList, val: T, i: nat)
    requires
        wf_cells(cells),
        contains(cells, h),
        cells.len() < usize::MAX,
    ensures
        ({
            let after = cells.push(Cell::Ready(List::Cons(val, h)));
            let list = fresh(cells);
            &&& node(after, list).head() == Some(&val)
            &&& node(after, list).tail() == Some(h)
            &&& forced(after, list) == after
            &&& after.subrange(0, cells.len() as int) == cells
            &&& nth(after, list, 0) == Some(val)
            &&& nth(after, list, i + 1) == nth(cells, h, i)
            &&& nth(after, h, i) == nth(cells, h, i)
        }),
{
    let after = cells.push(Cell::Ready(List::Cons(val, h)));
    let list = fresh(cells);
    assert(after[list.cell as int] == Cell::Ready(List::Cons(val, h)));
    assert(after.subrange(0, cells.len() as int) =~= cells);
    lemma_push_nth(cells, Cell::Ready(List::Cons(val, h)), h, i);
}

/// Two lists made by pushing onto one base share the base: the tail of each
/// is the base's own handle, and the base's cell and elements are what they
/// were before either push.
pub proof fn law_push_shares<T>(cells: Seq<Cell<T>>, base: RcList, a: T, b: T, i: nat)
    requires
        wf_cells(cells),
        contains(cells, base),
        cells.len() + 2 <= usize::MAX,
    ensures
        ({
            let one = cells.push(Cell::Ready(List::Cons(a, base)));
            let two = one.push(Cell::Ready(List::Cons(b, base)));
            let first = fresh(cells);
            let second = fresh(one);
            &&& first != second
            &&& node(two, first).tail() == Some(base)
            &&& node(two, second).tail() == Some(base)
            &&& node(two, first).head() == Some(&a)
            &&& node(two, second).head() == Some(&b)
            &&& two[base.cell as int] == cells[base.cell as int]
            &&& nth(two, base, i) == nth(cells, base, i)
        }),
{
    let one = cells.push(Cell::Ready(List::Cons(a, base)));
    let two = one.push(Cell::Ready(List::Cons(b, base)));
    assert(two[fresh(cells).cell as int] == Cell::Ready(List::Cons(a, base)));
    assert(two[fresh(one).cell as int] == Cell::Ready(List::Cons(b, base)));
    lemma_push_nth(cells, Cell::Ready(List::Cons(a, base)), base, i);
    lemma_push_wf(cells, Cell::Ready(List::Cons(a, base)));
    lemma_push_nth(one, Cell::Ready(List::Cons(b, base)), base, i);
}

/// A list has one length: if it ends at `n`, its length is `n`.
pub proof fn law_length<T>(cells: Seq<Cell<T>>, h: RcList, n: nat)
    requires
        ends_at(cells, h, n),
    ensures
        length(cells, h) == n,
{
    let m = length(cells, h);
    assert(ends_at(cells, h, m));
    if m < n {
        assert(nth(cells, h, m) is Some);
    }
    if n < m {
        assert(nth(cells, h, n) is Some);
    }
}

/// A lazy list names the elements that its source gives, in the source's
/// order, before any of them has been taken from the source.
pub proof fn law_list_of_source<T, S: Source<T>>(cells: Seq<Cell<T>>, source: S, i: nat)
    requires
        wf_cells(cells),
        cells.len() < usize::MAX,
    ensures
        nth(cells.push(Cell::Pending(stream_of(source))), fresh(cells), i) == source.yields(i),
        ready_count(cells.push(Cell::Pending(stream_of(source)))) == ready_count(cells),
{
    let after = cells.push(Cell::Pending(stream_of(source)));
    assert(after[fresh(cells).cell as int] == Cell::Pending(stream_of(source)));
    lemma_push_count(cells, Cell::Pending(stream_of(source)));
}

/// The list built from a vector of `n` elements has exactly those `n`
/// elements, in the vector's order.
pub proof fn law_list_of_vec<T>(cells: Seq<Cell<T>>, source: VecSource<T>)
    requires
        wf_cells(cells),
        cells.len() < usize::MAX,
    ensures
        ({
            let after = cells.push(Cell::Pending(stream_of(source)));
            &&& ends_at(after, fresh(cells), source.remaining().len())
            &&& length(after, fresh(cells)) == source.remaining().len()
            &&& items(after, fresh(cells)) == source.remaining()
        }),
{
    let after = cells.push(Cell::Pending(stream_of(source)));
    let list = fresh(cells);
    let all = source.remaining();
    assert(after[list.cell as int] == Cell::Pending(stream_of(source)));
    assert forall|j: nat| nth(after, list, j) == seq_nth(all, j) by {}
    assert(ends_at(after, list, all.len())) by {
        assert(nth(after, list, all.len()) is None);
        assert forall|j: nat| j < all.len() implies (#[trigger] nth(after, list, j)) is Some by {}
    }
    law_length(after, list, all.len());
    assert(items(after, list) =~= all);
}

/// Iteration gives the elements of the list in order: the step that follows
/// `k` steps gives element `k`, or nothing if the list has no such element.
/// What the cursor then names is the rest of the list, and every list of the
/// arena is as it was before the traversal.
pub proof fn law_walk_yields<T>(cells: Seq<Cell<T>>, h: RcList, k: nat, other: RcList, j: nat)
    requires
        wf_cells(cells),
        contains(cells, h),
        cells.len() + k + 1 <= usize::MAX,
    ensures
        ({
            let (c, cursor) = walk(cells, h, k);
            &&& wf_cells(c)
            &&& contains(c, cursor)
            &&& node(c, cursor).head() == match nth(cells, h, k) {
                Some(v) => Some(&v),
                None => None,
            }
            &&& nth(c, cursor, j) == nth(cells, h, k + j)
            &&& contains(cells, other) ==> nth(c, other, j) == nth(cells, other, j)
        }),
{
    let (c, cursor) = walk(cells, h, k);
    lemma_walk(cells, h, k, other, j);
    lemma_walk(cells, h, k, other, 0);
    lemma_node_nth(c, cursor, 0);
}

/// Iterating over the list built from a vector gives the vector's elements
/// first to last, and then ends.
pub proof fn law_walk_vec<T>(cells: Seq<Cell<T>>, source: VecSource<T>, k: nat)
    requires
        wf_cells(cells),
        cells.len() + k + 2 <= usize::MAX,
    ensures
        ({
            let after = cells.push(Cell::Pending(stream_of(source)));
            let (c, cursor) = walk(after, fresh(cells), k);
            node(c, cursor).head() == match seq_nth(source.remaining(), k) {
                Some(v) => Some(&v),
                None => None,
            }
        }),
{
    let after = cells.push(Cell::Pending(stream_of(source)));
    let list = fresh(cells);
    assert forall|i: nat| stream_of(source)(i) is None implies #[trigger] stream_of(source)(i + 1)
        is None by {
        source.yields_closed(i);
    }
    lemma_push_wf(cells, Cell::Pending(stream_of(source)));
    law_list_of_source(cells, source, k);
    law_walk_yields(after, list, k, list, 0);
}

/// Taking `k` elements forces no cell beyond them. After `k` steps that each
/// gave an element, the cell under the cursor is untouched: it is as it was
/// before the traversal, or, if the traversal made it, it is still pending.
/// At most `k` cells have been forced, and at most `k` cells are new.
pub proof fn law_walk_is_lazy<T>(cells: Seq<Cell<T>>, h: RcList, k: nat)
    requires
        wf_cells(cells),
        contains(cells, h),
        cells.len() + k <= usize::MAX,
        k > 0 ==> nth(cells, h, (k - 1) as nat) is Some,
    ensures
        ({
            let (c, cursor) = walk(cells, h, k);
            &&& contains(c, cursor)
            &&& contains(cells, cursor) ==> c[cursor.cell as int] == cells[cursor.cell as int]
            &&& !contains(cells, cursor) ==> c[cursor.cell as int] is Pending
            &&& ready_count(c) <= ready_count(cells) + k
            &&& c.len() <= cells.len() + k
        }),
    decreases k,
{
    lemma_walk(cells, h, k, h, 0);
    law_walk_count(cells, h, k);
    if k > 0 {
        match cells[h.cell as int] {
            Cell::Pending(_) => {
                lemma_fresh_walk(cells, h, k);
            },
            Cell::Ready(List::Nil) => {},
            Cell::Ready(List::Cons(_, t)) => {
                law_walk_is_lazy(cells, t, (k - 1) as nat);
            },
        }
    }
}

/// A traversal of `k` steps forces at most `k` cells.
pub proof fn law_walk_count<T>(cells: Seq<Cell<T>>, h: RcList, k: nat)
    requires
        wf_cells(cells),
        contains(cells, h),
        cells.len() + k <= usize::MAX,
    ensures
        ready_count(cells) <= ready_count(walk(cells, h, k).0) <= ready_count(cells) + k,
    decreases k,
{
    if k > 0 {
        let (c, cursor) = advance(cells, h);
        lemma_forced_wf(cells, h);
        lemma_forced_count(cells, h);
        lemma_node_nth(cells, h, 0);
        law_walk_count(c, cursor, (k - 1) as nat);
    }
}

/// Measuring a lazy list of `n` elements that has not been touched forces
/// exactly `n + 1` cells: the `n` cells of its elements and the cell of its
/// end. It makes `n` new cells.
pub proof fn law_len_forces<T>(cells: Seq<Cell<T>>, h: RcList, n: nat)
    requires
        wf_cells(cells),
        contains(cells, h),
        cells[h.cell as int] is Pending,
        ends_at(cells, h, n),
        cells.len() + n + 1 <= usize::MAX,
    ensures
        ({
            let c = walk(cells, h, n + 1).0;
            &&& ready_count(c) == ready_count(cells) + n + 1
            &&& c.len() == cells.len() + n
            &&& node(c, walk(cells, h, n + 1).1) == List::<T>::Nil
        }),
{
    let (c, cursor) = walk(cells, h, n);
    lemma_walk_step(cells, h, n);
    lemma_walk(cells, h, n, h, 0);
    if n > 0 {
        assert(nth(cells, h, (n - 1) as nat) is Some);
        lemma_fresh_walk(cells, h, n);
    }
    assert(c[cursor.cell as int] is Pending);
    assert(nth(c, cursor, 0) is None);
    lemma_forced_count(c, cursor);
    lemma_forced_wf(c, cursor);
}

} // verus!
