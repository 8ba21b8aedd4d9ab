use vstd::prelude::*;

verus! {

/// One stored record: a value and the number of records in the subtree that
/// ends at this record, the record itself included.
#[derive(Debug)]
pub struct Node<T> {
    pub value: T,
    pub width: usize,
}

impl<T: Clone> Clone for Node<T> {
    /// A record of the same width around a clone of the value.
    fn clone(&self) -> (copy: Node<T>)
        ensures
            copy.width == self.width,
            cloned::<T>(self.value, copy.value),
    {
        Node { value: self.value.clone(), width: self.width }
    }
}

} // verus!
