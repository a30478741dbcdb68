use vstd::prelude::*;

use crate::util::Pixel;

verus! {

/// Backing buffer for the data of a plane.
#[derive(Debug)]
pub struct PlaneData<T: Pixel> {
    data: Vec<T>,
}

impl<T: Pixel> View for PlaneData<T> {
    type V = Seq<T>;

    closed spec fn view(&self) -> Seq<T> {
        self.data@
    }
}

impl<T: Pixel> Clone for PlaneData<T> {
    /// A buffer with the same samples.
    fn clone(&self) -> (pd: Self)
        ensures
            pd@ == self@,
    {
        let mut data: Vec<T> = Vec::new();
        let mut i: usize = 0;
        while i < self.data.len()
            invariant
                i <= self.data@.len(),
                data@ == self.data@.take(i as int),
            decreases self.data@.len() - i,
        {
            data.push(self.data[i]);
            i = i + 1;
            assert(data@ =~= self.data@.take(i as int));
        }
        assert(self.data@.take(i as int) =~= self.data@);
        PlaneData { data }
    }
}

impl<T: Pixel> std::ops::Deref for PlaneData<T> {
    type Target = [T];

    /// The samples.
    fn deref(&self) -> (s: &[T])
        ensures
            s@ == self@,
    {
        self.data.as_slice()
    }
}

impl<T: Pixel> PlaneData<T> {
    /// The samples, for writing.
    pub fn deref_mut(&mut self) -> (s: &mut [T])
        ensures
            s@ == old(self)@,
            final(self)@ == final(s)@,
    {
        self.data.as_mut_slice()
    }

    /// A buffer of `len` samples, each the mid-grey value 128.
    pub fn new(len: usize) -> (pd: Self)
        ensures
            pd@ == Seq::new(len as nat, |i: int| T::spec_cast_from(128)),
    {
        let mut data: Vec<T> = Vec::new();
        let mut i: usize = 0;
        while i < len
            invariant
                i <= len,
                data@ == Seq::new(i as nat, |k: int| T::spec_cast_from(128)),
            decreases len - i,
        {
            data.push(T::cast_from(128));
            i = i + 1;
            assert(data@ =~= Seq::new(i as nat, |k: int| T::spec_cast_from(128)));
        }
        PlaneData { data }
    }

    /// A buffer holding a copy of `data`.
    pub fn from_slice(data: &[T]) -> (pd: Self)
        ensures
            pd@ == data@,
    {
        let mut v: Vec<T> = Vec::new();
        let mut i: usize = 0;
        while i < data.len()
            invariant
                i <= data@.len(),
                v@ == data@.take(i as int),
            decreases data@.len() - i,
        {
            v.push(data[i]);
            i = i + 1;
            assert(v@ =~= data@.take(i as int));
        }
        assert(data@.take(i as int) =~= data@);
        PlaneData { data: v }
    }
}

} // verus!
