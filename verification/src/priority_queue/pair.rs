//! An element with its priority.

use vstd::prelude::*;

verus! {

/// An element and the priority it has in a heap.
#[derive(Debug)]
pub struct Pair<T> {
    pub priority: usize,
    pub element: T,
}

impl<T: Clone> Clone for Pair<T> {
    /// A pair of the same priority whose element is a clone of this one's.
    fn clone(&self) -> (copy: Self)
        ensures
            copy.priority == self.priority,
            cloned(self.element, copy.element),
    {
        Pair { priority: self.priority, element: self.element.clone() }
    }
}

impl<T> Pair<T> {
    /// Pairs `element` with `priority`.
    pub fn new(element: T, priority: usize) -> (pair: Self)
        ensures
            pair == (Pair { priority, element }),
    {
        Pair { priority, element }
    }

    /// The element.
    pub fn get_element(&self) -> (element: &T)
        ensures
            *element == self.element,
    {
        &self.element
    }

    /// A clone of the element.
    pub fn get_cloned_element(&self) -> (element: T) where T: Clone
        ensures
            cloned(self.element, element),
    {
        self.element.clone()
    }
}

} // verus!
