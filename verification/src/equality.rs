//! Comparing stores and views record by record.

use crate::grove::Grove;
use crate::grove_buf::GroveBuf;
use crate::node::Node;
use crate::tree::Tree;
use vstd::prelude::*;
use vstd::std_specs::cmp::PartialEqSpec;
use vstd::std_specs::cmp::PartialEqSpecImpl;

verus! {

impl<T, U: PartialEq<T>> PartialEq<Node<T>> for Node<U> {
    fn eq(&self, other: &Node<T>) -> (equal: bool) {
        self.value == other.value && self.width == other.width
    }
}

impl<T, U: PartialEq<T>> PartialEqSpecImpl<Node<T>> for Node<U> {
    open spec fn obeys_eq_spec() -> bool {
        U::obeys_eq_spec()
    }

    open spec fn eq_spec(&self, other: &Node<T>) -> bool {
        self.value.eq_spec(&other.value) && self.width == other.width
    }
}

impl<T: Eq> Eq for Node<T> {

}

impl<T: Eq> Eq for GroveBuf<T> {

}

impl<'a, T: Eq> Eq for Tree<'a, T> {

}

/// Two runs of records are alike when they are equally long and, position by
/// position, hold equal values with equal widths.
pub open spec fn records_alike<T, U: PartialEqSpec<T>>(a: Seq<Node<U>>, b: Seq<Node<T>>) -> bool {
    &&& a.len() == b.len()
    &&& forall|i: int|
        0 <= i < a.len() ==> (#[trigger] a[i]).value.eq_spec(&b[i].value) && a[i].width
            == b[i].width
}

/// Compares two runs of records position by position.
pub fn same_records<T, U: PartialEq<T>>(a: &[Node<U>], b: &[Node<T>]) -> (same: bool)
    ensures
        U::obeys_eq_spec() ==> same == records_alike(a@, b@),
{
    if a.len() != b.len() {
        return false;
    }
    let mut at: usize = 0;
    while at < a.len()
        invariant
            a@.len() == b@.len(),
            at <= a@.len(),
            U::obeys_eq_spec() ==> forall|i: int|
                0 <= i < at ==> (#[trigger] a@[i]).value.eq_spec(&b@[i].value) && a@[i].width
                    == b@[i].width,
        decreases a@.len() - at,
    {
        if !(a[at] == b[at]) {
            return false;
        }
        at += 1;
    }
    true
}

impl<'a, 'b, T, U: PartialEq<T>> PartialEq<Tree<'b, T>> for Tree<'a, U> {
    fn eq(&self, other: &Tree<'b, T>) -> (equal: bool) {
        same_records(self.nodes, other.nodes)
    }
}

impl<'a, 'b, T, U: PartialEq<T>> PartialEqSpecImpl<Tree<'b, T>> for Tree<'a, U> {
    open spec fn obeys_eq_spec() -> bool {
        U::obeys_eq_spec()
    }

    open spec fn eq_spec(&self, other: &Tree<'b, T>) -> bool {
        records_alike(self@, other@)
    }
}

impl<'a, T, U: PartialEq<T>> PartialEq<GroveBuf<T>> for Tree<'a, U> {
    fn eq(&self, other: &GroveBuf<T>) -> (equal: bool) {
        same_records(self.nodes, other.nodes.as_slice())
    }
}

impl<'a, T, U: PartialEq<T>> PartialEqSpecImpl<GroveBuf<T>> for Tree<'a, U> {
    open spec fn obeys_eq_spec() -> bool {
        U::obeys_eq_spec()
    }

    open spec fn eq_spec(&self, other: &GroveBuf<T>) -> bool {
        records_alike(self@, other@)
    }
}

impl<'a, T, U: PartialEq<T>> PartialEq<Tree<'a, T>> for GroveBuf<U> {
    fn eq(&self, other: &Tree<'a, T>) -> (equal: bool) {
        same_records(self.nodes.as_slice(), other.nodes)
    }
}

impl<'a, T, U: PartialEq<T>> PartialEqSpecImpl<Tree<'a, T>> for GroveBuf<U> {
    open spec fn obeys_eq_spec() -> bool {
        U::obeys_eq_spec()
    }

    open spec fn eq_spec(&self, other: &Tree<'a, T>) -> bool {
        records_alike(self@, other@)
    }
}

impl<'a, T, U: PartialEq<T>> PartialEq<GroveBuf<T>> for Grove<'a, U> {
    fn eq(&self, other: &GroveBuf<T>) -> (equal: bool) {
        same_records(self.nodes, other.nodes.as_slice())
    }
}

impl<'a, T, U: PartialEq<T>> PartialEqSpecImpl<GroveBuf<T>> for Grove<'a, U> {
    open spec fn obeys_eq_spec() -> bool {
        U::obeys_eq_spec()
    }

    open spec fn eq_spec(&self, other: &GroveBuf<T>) -> bool {
        records_alike(self@, other@)
    }
}

impl<'a, T, U: PartialEq<T>> PartialEq<Grove<'a, T>> for GroveBuf<U> {
    fn eq(&self, other: &Grove<'a, T>) -> (equal: bool) {
        same_records(self.nodes.as_slice(), other.nodes)
    }
}

impl<'a, T, U: PartialEq<T>> PartialEqSpecImpl<Grove<'a, T>> for GroveBuf<U> {
    open spec fn obeys_eq_spec() -> bool {
        U::obeys_eq_spec()
    }

    open spec fn eq_spec(&self, other: &Grove<'a, T>) -> bool {
        records_alike(self@, other@)
    }
}

impl<T, U: PartialEq<T>> PartialEq<GroveBuf<T>> for GroveBuf<U> {
    fn eq(&self, other: &GroveBuf<T>) -> (equal: bool) {
        same_records(self.nodes.as_slice(), other.nodes.as_slice())
    }
}

impl<T, U: PartialEq<T>> PartialEqSpecImpl<GroveBuf<T>> for GroveBuf<U> {
    open spec fn obeys_eq_spec() -> bool {
        U::obeys_eq_spec()
    }

    open spec fn eq_spec(&self, other: &GroveBuf<T>) -> bool {
        records_alike(self@, other@)
    }
}

} // verus!
