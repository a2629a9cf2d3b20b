//! List nodes and the handles that name them.

use vstd::prelude::*;

verus! {

/// A handle on a list: the place of the list's first cell in its `Arena`.
///
/// A handle is a plain index. It may be copied freely, and every copy names
/// the same cell, so lists that hold the same handle share one tail.
#[derive(Clone, Copy, PartialEq, Eq, Debug, Structural)]
pub struct RcList {
    pub cell: usize,
}

/// One position of a list: its end, or an element and the handle of the rest.
#[derive(Debug)]
pub enum List<T> {
    /// The empty list.
    Nil,
    /// An element, followed by the list behind the handle.
    Cons(T, RcList),
}

impl<T> List<T> {
    /// The first element, if the node holds one.
    pub open spec fn spec_head(&self) -> Option<&T> {
        match self {
            List::Cons(val, _) => Some(val),
            List::Nil => None,
        }
    }

    /// The handle of the rest, if the node holds an element.
    pub open spec fn spec_tail(&self) -> Option<RcList> {
        match self {
            List::Cons(_, tail) => Some(*tail),
            List::Nil => None,
        }
    }

    /// The first element, if there is one.
    #[verifier::when_used_as_spec(spec_head)]
    pub fn head(&self) -> (r: Option<&T>)
        ensures
            r == self.spec_head(),
    {
        match self {
            List::Cons(val, _) => Some(val),
            List::Nil => None,
        }
    }

    /// The handle of the list after the first element, if there is one.
    #[verifier::when_used_as_spec(spec_tail)]
    pub fn tail(&self) -> (r: Option<RcList>)
        ensures
            r == self.spec_tail(),
    {
        match self {
            List::Cons(_, tail) => Some(*tail),
            List::Nil => None,
        }
    }
}

impl<T: Clone> Clone for List<T> {
    /// A node with a clone of the element and the same tail.
    fn clone(&self) -> (copy: Self)
        ensures
            match (*self, copy) {
                (List::Nil, List::Nil) => true,
                (List::Cons(v, t), List::Cons(w, u)) => cloned(v, w) && t == u,
                _ => false,
            },
    {
        match self {
            List::Nil => List::Nil,
            List::Cons(val, tail) => List::Cons(val.clone(), *tail),
        }
    }
}

} // verus!
