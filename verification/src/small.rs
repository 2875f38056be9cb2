//! The `smallvec` vectors that the router fills, seen through their contents.
//!
//! Verus does not take `SmallVec`'s declaration (its parameter is bound by the
//! crate's own `Array` trait), so each vector is held in a private field of an
//! opaque struct. What the struct holds is named by a spec function, and each
//! method that the router calls has a wrapper whose contract says what it
//! does to those contents.
use core::ops::Range;
use smallvec::SmallVec;
use vstd::prelude::*;

verus! {

/// The byte ranges of the captured parameters of a match.
#[verifier::external_body]
#[derive(Debug, PartialEq, Eq)]
pub struct Ranges {
    v: SmallVec<[Range<usize>; 8]>,
}

/// The captured parameters of a match, as slices of the matched path.
#[verifier::external_body]
#[derive(Debug, PartialEq, Eq)]
pub struct Raws<'b> {
    v: SmallVec<[&'b str; 4]>,
}

/// The ranges that a [`Ranges`] holds, in order, each as `(start, end)`.
pub uninterp spec fn ranges_of(v: Ranges) -> Seq<(usize, usize)>;

/// The slices that a [`Raws`] holds, in order, each by its characters.
pub uninterp spec fn raws_of(v: Raws) -> Seq<Seq<char>>;

impl Ranges {
    /// `SmallVec::new_const`: a vector that holds nothing.
    #[verifier::external_body]
    pub(crate) fn new() -> (v: Ranges)
        ensures
            ranges_of(v) == Seq::<(usize, usize)>::empty(),
    {
        Ranges { v: SmallVec::new_const() }
    }

    /// `SmallVec::push`: appends `start..end` at the end. The push panics on
    /// capacity overflow, which the bound on the length leaves out.
    #[verifier::external_body]
    pub(crate) fn push(&mut self, start: usize, end: usize)
        requires
            ranges_of(*old(self)).len() < usize::MAX / 64,
        ensures
            ranges_of(*final(self)) == ranges_of(*old(self)).push((start, end)),
    {
        self.v.push(start..end)
    }

    /// `SmallVec::len`: the number of ranges held.
    #[verifier::external_body]
    pub(crate) fn len(&self) -> (n: usize)
        ensures
            n == ranges_of(*self).len(),
    {
        self.v.len()
    }

    /// Indexing: the range at `i`, as its two ends.
    #[verifier::external_body]
    pub(crate) fn get(&self, i: usize) -> (r: (usize, usize))
        requires
            i < ranges_of(*self).len(),
        ensures
            r == ranges_of(*self)[i as int],
    {
        let r = &self.v[i];
        (r.start, r.end)
    }
}

impl Ranges {
    /// The ranges held, in order, each as `(start, end)`.
    pub fn to_vec(&self) -> (v: Vec<(usize, usize)>)
        ensures
            v@ == ranges_of(*self),
    {
        let n = self.len();
        let mut v: Vec<(usize, usize)> = Vec::new();
        let mut i: usize = 0;
        while i < n
            invariant
                n == ranges_of(*self).len(),
                i <= n,
                v@ == ranges_of(*self).take(i as int),
            decreases n - i,
        {
            v.push(self.get(i));
            proof {
                assert(ranges_of(*self).take(i + 1) =~= ranges_of(*self).take(i as int).push(ranges_of(*self)[i as int]));
            }
            i = i + 1;
        }
        proof {
            assert(ranges_of(*self).take(n as int) =~= ranges_of(*self));
        }
        v
    }
}

impl<'b> Raws<'b> {
    /// The slices of `v`, in order, held in a new vector.
    pub fn from_texts(v: &[&'b str]) -> (r: Raws<'b>)
        requires
            v@.len() < usize::MAX / 64,
        ensures
            raws_of(r) == v@.map_values(|s: &'b str| s@),
    {
        let mut r = Raws::new();
        let mut i: usize = 0;
        while i < v.len()
            invariant
                i <= v@.len() < usize::MAX / 64,
                raws_of(r) == v@.take(i as int).map_values(|s: &'b str| s@),
            decreases v@.len() - i,
        {
            r.push(v[i]);
            proof {
                assert(v@.take(i + 1).map_values(|s: &'b str| s@) =~= v@.take(i as int).map_values(|s: &'b str| s@).push(v@[i as int]@));
            }
            i = i + 1;
        }
        proof {
            assert(v@.take(v@.len() as int) =~= v@);
        }
        r
    }

    /// The slices held, in order.
    pub fn to_vec(&self) -> (v: Vec<&'b str>)
        ensures
            v@.len() == raws_of(*self).len(),
            forall|i: int| 0 <= i < v@.len() ==> (#[trigger] v@[i])@ == raws_of(*self)[i],
    {
        let n = self.len();
        let mut v: Vec<&'b str> = Vec::new();
        let mut i: usize = 0;
        while i < n
            invariant
                n == raws_of(*self).len(),
                i <= n,
                v@.len() == i,
                forall|j: int| 0 <= j < i ==> (#[trigger] v@[j])@ == raws_of(*self)[j],
            decreases n - i,
        {
            v.push(self.get(i));
            i = i + 1;
        }
        v
    }
}

impl<'b> Raws<'b> {
    /// `SmallVec::new`: a vector that holds nothing.
    #[verifier::external_body]
    pub(crate) fn new() -> (v: Raws<'b>)
        ensures
            raws_of(v) == Seq::<Seq<char>>::empty(),
    {
        Raws { v: SmallVec::new() }
    }

    /// `SmallVec::push`: appends `s` at the end. The push panics on capacity
    /// overflow, which the bound on the length leaves out.
    #[verifier::external_body]
    pub(crate) fn push(&mut self, s: &'b str)
        requires
            raws_of(*old(self)).len() < usize::MAX / 64,
        ensures
            raws_of(*final(self)) == raws_of(*old(self)).push(s@),
    {
        self.v.push(s)
    }

    /// `SmallVec::len`: the number of slices held.
    #[verifier::external_body]
    pub(crate) fn len(&self) -> (n: usize)
        ensures
            n == raws_of(*self).len(),
    {
        self.v.len()
    }

    /// Indexing: the slice at `i`.
    #[verifier::external_body]
    pub(crate) fn get(&self, i: usize) -> (s: &'b str)
        requires
            i < raws_of(*self).len(),
        ensures
            s@ == raws_of(*self)[i as int],
    {
        self.v[i]
    }
}

} // verus!
