//! A byte vector with a capacity fixed in its type.
use vstd::prelude::*;

verus! {

/// At most `N` bytes. Growing beyond `N` is refused, never truncated.
#[derive(Clone, Debug)]
pub struct BoundedBytes<const N: usize> {
    bytes: Vec<u8>,
}

impl<const N: usize> View for BoundedBytes<N> {
    type V = Seq<u8>;

    closed spec fn view(&self) -> Seq<u8> {
        self.bytes@
    }
}

impl<const N: usize> BoundedBytes<N> {
    /// The invariant of the type: the contents fit the capacity. Every
    /// function that returns or changes a vector establishes it.
    pub open spec fn wf(&self) -> bool {
        self@.len() <= N
    }

    /// An empty vector.
    pub fn new() -> (v: Self)
        ensures
            v@ == Seq::<u8>::empty(),
            v.wf(),
    {
        BoundedBytes { bytes: Vec::new() }
    }

    /// A vector that holds `other`, or `Err` when `other` is longer than `N`.
    pub fn from_slice(other: &[u8]) -> (made: Result<Self, ()>)
        ensures
            made is Ok <==> other@.len() <= N,
            made matches Ok(v) ==> v@ == other@ && v.wf(),
    {
        let mut v = Self::new();
        match v.extend_from_slice(other) {
            Ok(()) => Ok(v),
            Err(()) => Err(()),
        }
    }

    /// Appends `other`, or changes nothing and returns `Err` when it does not
    /// fit.
    pub fn extend_from_slice(&mut self, other: &[u8]) -> (extended: Result<(), ()>)
        requires
            old(self).wf(),
        ensures
            final(self).wf(),
            extended is Ok <==> old(self)@.len() + other@.len() <= N,
            extended is Ok ==> final(self)@ == old(self)@ + other@,
            extended is Err ==> final(self)@ == old(self)@,
    {
        if other.len() > N - self.bytes.len() {
            Err(())
        } else {
            self.bytes.extend_from_slice(other);
            assert(self.bytes@ =~= old(self).bytes@ + other@);
            Ok(())
        }
    }

    /// Appends `item`, or changes nothing and hands it back when the vector
    /// is full.
    pub fn push(&mut self, item: u8) -> (pushed: Result<(), u8>)
        requires
            old(self).wf(),
        ensures
            final(self).wf(),
            pushed is Ok <==> old(self)@.len() < N,
            pushed is Ok ==> final(self)@ == old(self)@.push(item),
            pushed is Err ==> final(self)@ == old(self)@,
            pushed matches Err(back) ==> back == item,
    {
        if self.bytes.len() < N {
            self.bytes.push(item);
            Ok(())
        } else {
            Err(item)
        }
    }

    /// The number of bytes held.
    pub fn len(&self) -> (len: usize)
        ensures
            len == self@.len(),
    {
        self.bytes.len()
    }

    /// The most bytes the vector can hold.
    pub fn capacity(&self) -> (capacity: usize)
        ensures
            capacity == N,
    {
        N
    }

    /// The bytes held.
    pub fn as_slice(&self) -> (slice: &[u8])
        ensures
            slice@ == self@,
    {
        self.bytes.as_slice()
    }
}

} // verus!
