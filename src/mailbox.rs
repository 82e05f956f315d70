use vstd::prelude::*;

verus! {

/// A single-slot mailbox between the capture interrupt (the one writer) and
/// the main loop (the one reader). Sending overwrites whatever is there and
/// taking leaves it empty, so the reader must take each byte before the
/// next one is sent: faster than one byte per eight bit periods.
pub struct MyVolatileCell<T> {
    pub value: T,
}

impl<T> MyVolatileCell<T> {
    /// A cell holding `value`.
    pub fn new(value: T) -> (r: MyVolatileCell<T>)
        ensures
            r.value == value,
    {
        MyVolatileCell { value }
    }
}

impl<T: Copy> MyVolatileCell<T> {
    /// A copy of the contained value.
    pub fn get(&self) -> (r: T)
        ensures
            r == self.value,
    {
        self.value
    }

    /// Replaces the contained value.
    pub fn set(&mut self, value: T)
        ensures
            final(self).value == value,
    {
        self.value = value;
    }

    /// Stores `val` and returns what was there before.
    pub fn replace(&mut self, val: T) -> (r: T)
        ensures
            r == old(self).value,
            final(self).value == val,
    {
        let old_value = self.get();
        self.set(val);
        old_value
    }
}

impl<T: Copy> MyVolatileCell<Option<T>> {
    /// Takes what the cell holds and leaves it empty.
    pub fn take(&mut self) -> (r: Option<T>)
        ensures
            r == old(self).value,
            final(self).value is None,
    {
        self.replace(None)
    }
}

} // verus!
