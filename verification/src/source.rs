//! Sources: the deferred computations that lazy cells run when they are forced.
//!
//! A source hands out the elements of a finite or infinite sequence one at a
//! time. Its model is the function `yields`: `yields(i)` is the `i`-th element
//! that the source has still to give, or `None` once it has run dry.

use vstd::prelude::*;

verus! {

/// A producer of list elements, pulled one element at a time.
pub trait Source<T> {
    /// The source is in a state in which `next` may be called.
    spec fn wf(&self) -> bool;

    /// The `i`-th element that the source has still to give, if there is one.
    spec fn yields(&self, i: nat) -> Option<T>;

    /// A source that has run dry stays dry: `yields` has no gaps.
    proof fn yields_closed(&self, i: nat)
        requires
            self.wf(),
        ensures
            self.yields(i) is None ==> self.yields(i + 1) is None,
    ;

    /// Gives the next element and moves past it.
    fn next(&mut self) -> (item: Option<T>)
        requires
            old(self).wf(),
        ensures
            final(self).wf(),
            item == old(self).yields(0),
            forall|i: nat| final(self).yields(i) == old(self).yields(i + 1),
    ;
}

/// The `i`-th element of `items`, or `None` past its end.
pub open spec fn seq_nth<T>(items: Seq<T>, i: nat) -> Option<T> {
    if i < items.len() {
        Some(items[i as int])
    } else {
        None
    }
}

/// A source that gives the elements of a vector, first to last.
pub struct VecSource<T> {
    /// The elements not yet given, last one first.
    rest: Vec<T>,
}

impl<T> VecSource<T> {
    /// The elements that the source has still to give, in order.
    pub closed spec fn remaining(&self) -> Seq<T> {
        self.rest@.reverse()
    }

    /// A source for the elements of `items`, in their order.
    pub fn new(items: Vec<T>) -> (source: Self)
        ensures
            source.remaining() == items@,
    {
        let ghost all = items@;
        let mut items = items;
        let mut rest: Vec<T> = Vec::new();
        while items.len() > 0
            invariant
                items@.len() + rest@.len() == all.len(),
                items@ == all.subrange(0, items@.len() as int),
                rest@.reverse() == all.subrange(items@.len() as int, all.len() as int),
            decreases items@.len(),
        {
            let ghost before = rest@;
            let ghost k = items@.len();
            let x = items.pop().unwrap();
            rest.push(x);
            assert(rest@.reverse() == all.subrange(k - 1, all.len() as int)) by {
                assert(rest@ == before.push(x));
                assert(rest@.reverse() =~= seq![x] + before.reverse());
                assert(seq![x] + all.subrange(k as int, all.len() as int) =~= all.subrange(
                    k - 1,
                    all.len() as int,
                ));
            }
            assert(items@ == all.subrange(0, k - 1));
        }
        assert(all.subrange(0, all.len() as int) == all);
        VecSource { rest }
    }
}

impl<T> Source<T> for VecSource<T> {
    open spec fn wf(&self) -> bool {
        true
    }

    open spec fn yields(&self, i: nat) -> Option<T> {
        seq_nth(self.remaining(), i)
    }

    proof fn yields_closed(&self, i: nat) {
    }

    fn next(&mut self) -> (item: Option<T>) {
        let ghost before = self.rest@;
        let item = self.rest.pop();
        proof {
            if before.len() > 0 {
                assert(self.rest@ == before.drop_last());
                assert forall|i: nat| self.yields(i) == seq_nth(before.reverse(), i + 1) by {
                    if i < self.rest@.len() {
                        assert(self.rest@.reverse()[i as int] == before.reverse()[i as int + 1]);
                    }
                }
            }
        }
        item
    }
}

/// Every state is one that the step function accepts.
pub open spec fn step_total<T, St, F: Fn(&St) -> Option<(T, St)>>(step: F) -> bool {
    forall|s: St| step.requires((&s,))
}

/// The step function gives one result for each state.
pub open spec fn step_functional<T, St, F: Fn(&St) -> Option<(T, St)>>(step: F) -> bool {
    forall|s: St, a: Option<(T, St)>, b: Option<(T, St)>|
        step.ensures((&s,), a) && step.ensures((&s,), b) ==> a == b
}

/// What the step function gives for the state `s`.
pub open spec fn step_result<T, St, F: Fn(&St) -> Option<(T, St)>>(step: F, s: St) -> Option<
    (T, St),
> {
    choose|r: Option<(T, St)>| step.ensures((&s,), r)
}

/// The `i`-th element reached by stepping from `state`; `None` as the state
/// stands for a generator that has ended.
pub open spec fn unfold_nth<T, St, F: Fn(&St) -> Option<(T, St)>>(
    step: F,
    state: Option<St>,
    i: nat,
) -> Option<T>
    decreases i,
{
    match state {
        None => None,
        Some(s) => match step_result(step, s) {
            None => None,
            Some((v, s2)) => if i == 0 {
                Some(v)
            } else {
                unfold_nth(step, Some(s2), (i - 1) as nat)
            },
        },
    }
}

/// A source that grows a sequence from a seed: each step reads the state and
/// gives the next element and the state that follows, or ends the sequence.
///
/// The state is replaced only when a step has returned, so a step that fails
/// leaves the source where it was.
pub struct Unfold<St, F> {
    state: Option<St>,
    step: F,
}

impl<T, St, F: Fn(&St) -> Option<(T, St)>> Unfold<St, F> {
    /// The state that the next step starts from; `None` once the sequence has ended.
    pub closed spec fn state(&self) -> Option<St> {
        self.state
    }

    /// The step function.
    pub closed spec fn step(&self) -> F {
        self.step
    }

    /// A source that starts from `seed` and steps with `step`.
    ///
    /// The step function must accept every state and must be a function of
    /// the state: the sequence is the one that its results spell out.
    pub fn new(seed: St, step: F) -> (source: Self)
        requires
            step_total(step),
            step_functional(step),
        ensures
            source.state() == Some(seed),
            source.step() == step,
            source.wf(),
    {
        Unfold { state: Some(seed), step }
    }
}

impl<T, St, F: Fn(&St) -> Option<(T, St)>> Source<T> for Unfold<St, F> {
    open spec fn wf(&self) -> bool {
        step_total(self.step()) && step_functional(self.step())
    }

    open spec fn yields(&self, i: nat) -> Option<T> {
        unfold_nth(self.step(), self.state(), i)
    }

    proof fn yields_closed(&self, i: nat) {
        lemma_unfold_closed(self.step(), self.state(), i);
    }

    fn next(&mut self) -> (item: Option<T>) {
        let stepped = match &self.state {
            None => None,
            Some(s) => {
                let r = (self.step)(s);
                assert(r == step_result(self.step, *s));
                r
            },
        };
        match stepped {
            None => {
                self.state = None;
                None
            },
            Some((v, s2)) => {
                self.state = Some(s2);
                Some(v)
            },
        }
    }
}

/// Past the end of an unfolded sequence there is nothing more.
pub proof fn lemma_unfold_closed<T, St, F: Fn(&St) -> Option<(T, St)>>(
    step: F,
    state: Option<St>,
    i: nat,
)
    ensures
        unfold_nth(step, state, i) is None ==> unfold_nth(step, state, i + 1) is None,
    decreases i,
{
    if let Some(s) = state {
        if let Some((v, s2)) = step_result(step, s) {
            if i > 0 {
                lemma_unfold_closed(step, Some(s2), (i - 1) as nat);
            }
        }
    }
}

} // verus!
