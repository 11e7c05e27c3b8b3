use vstd::prelude::*;

verus! {

/// An identity-bearing container pairing a node id with a payload value.
/// Two nodes represent the same vertex exactly when their ids are equal;
/// the payload never participates in identity.
pub struct Node<T = ()> {
    pub id: usize,
    pub value: T,
}

impl<T> Node<T> {
    pub fn new(id: usize, val: T) -> (r: Self)
        ensures
            r.id == id,
            r.value == val,
    {
        Node { id, value: val }
    }

    pub fn get_id(&self) -> (r: &usize)
        ensures
            *r == self.id,
    {
        &self.id
    }

    pub fn into_tuple(self) -> (r: (usize, T))
        ensures
            r.0 == self.id,
            r.1 == self.value,
    {
        (self.id, self.value)
    }

    pub fn get_value(&self) -> (r: &T)
        ensures
            *r == self.value,
    {
        &self.value
    }

    pub fn get_value_mut(&mut self) -> (r: &mut T)
        ensures
            *r == old(self).value,
            final(self).id == old(self).id,
            final(self).value == *final(r),
    {
        &mut self.value
    }

    pub fn is_id(&self, k: &usize) -> (r: bool)
        ensures
            r == (self.id == *k),
    {
        self.id == *k
    }
}

} // verus!
