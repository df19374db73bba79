//! A first-in-first-out list together with a consuming iterator over
//! it.

use vstd::prelude::*;

verus! {

/// A first-in-first-out list. Its view is the sequence of stored
/// values, head first.
pub struct List<T: Clone> {
    pub elems: Vec<T>,
    pub length: usize,
}

impl<T: Clone> View for List<T> {
    type V = Seq<T>;

    open spec fn view(&self) -> Seq<T> {
        self.elems@
    }
}

impl<T: Clone> List<T> {
    /// `length` agrees with the stored values. Constructors establish
    /// this and methods keep it; it can only be broken by writing the
    /// public field directly.
    pub open spec fn wf(&self) -> bool {
        self.length == self.elems@.len()
    }

    /// Creates a new empty list.
    pub fn new_empty() -> (r: List<T>)
        ensures
            r@ == Seq::<T>::empty(),
            r.length == 0,
            r.wf(),
    {
        List { elems: Vec::new(), length: 0 }
    }

    /// Appends a value at the end of the list.
    pub fn append(&mut self, value: T)
        requires
            old(self).wf(),
        ensures
            final(self).wf(),
            final(self)@ == old(self)@.push(value),
            final(self).length == old(self).length + 1,
    {
        self.elems.push(value);
        self.length = self.elems.len();
    }

    /// Removes the list's head and returns it, `None` when the list is
    /// empty.
    pub fn pop_front(&mut self) -> (r: Option<T>)
        requires
            old(self).wf(),
        ensures
            final(self).wf(),
            old(self)@.len() == 0 ==> r is None && final(self)@ == old(self)@,
            old(self)@.len() > 0 ==> r == Some(old(self)@[0]) && final(self)@ == old(
                self,
            )@.subrange(1, old(self)@.len() as int) && final(self).length + 1 == old(self).length,
    {
        if self.elems.len() == 0 {
            None
        } else {
            let v = self.elems.remove(0);
            self.length = self.elems.len();
            proof {
                assert(self.elems@ =~= old(self).elems@.subrange(1, old(self).elems@.len() as int));
            }
            Some(v)
        }
    }
}

/// An iterator that consumes the list it was built from, yielding the
/// values head first.
pub struct ConsumingListIterator<T: Clone> {
    pub list: List<T>,
}

impl<T: Clone> View for ConsumingListIterator<T> {
    type V = Seq<T>;

    open spec fn view(&self) -> Seq<T> {
        self.list@
    }
}

impl<T: Clone> ConsumingListIterator<T> {
    pub open spec fn wf(&self) -> bool {
        self.list.wf()
    }

    /// Create a new iterator for this list.
    pub fn new(list: List<T>) -> (r: ConsumingListIterator<T>)
        requires
            list.wf(),
        ensures
            r@ == list@,
            r.wf(),
    {
        ConsumingListIterator { list }
    }

    /// The next remaining value, front first; `None` once exhausted.
    pub fn next(&mut self) -> (r: Option<T>)
        requires
            old(self).wf(),
        ensures
            final(self).wf(),
            old(self)@.len() == 0 ==> r is None && final(self)@ == old(self)@,
            old(self)@.len() > 0 ==> r == Some(old(self)@[0]) && final(self)@ == old(
                self,
            )@.subrange(1, old(self)@.len() as int),
    {
        self.list.pop_front()
    }
}

} // verus!
