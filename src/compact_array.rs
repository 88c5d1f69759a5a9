//! A growable list of small length (at most 255 elements) that asks for no
//! spare room when it grows.

use vstd::prelude::*;

verus! {

/// Largest number of elements a `CompactVec` holds: its length is one byte.
pub const MAX_COMPACT_LEN: usize = 255;

/// Relies on `Vec::reserve_exact`: the contents are unchanged; only the
/// capacity grows, by the least amount asked of the allocator (which may
/// still hand back more).
#[verifier::external_body]
fn reserve_exact<T>(v: &mut Vec<T>, additional: usize)
    requires
        old(v)@.len() + additional <= MAX_COMPACT_LEN,
    ensures
        final(v)@ == old(v)@,
{
    v.reserve_exact(additional)
}

/// A list of at most 255 elements. Each growth reserves room for just the
/// new elements rather than doubling the capacity.
#[derive(Debug)]
pub struct CompactVec<T> {
    items: Vec<T>,
}

/// A cursor over the elements of a `CompactVec`, front to back.
pub struct CompactVecIterator<'a, T> {
    compact_vec: &'a CompactVec<T>,
    idx: u8,
}

impl<T> View for CompactVec<T> {
    type V = Seq<T>;

    closed spec fn view(&self) -> Seq<T> {
        self.items@
    }
}

impl<T> CompactVec<T> {
    #[verifier::type_invariant]
    spec fn inv(&self) -> bool {
        self.items@.len() <= MAX_COMPACT_LEN
    }

    /// The number of elements.
    pub fn len(&self) -> (r: u8)
        ensures
            r as int == self@.len(),
    {
        proof {
            use_type_invariant(self);
        }
        self.items.len() as u8
    }

    /// A cursor positioned at the first element.
    pub fn iterator(&self) -> (r: CompactVecIterator<'_, T>)
        ensures
            r.view() == (self@, 0int),
    {
        CompactVecIterator { compact_vec: self, idx: 0 }
    }

    /// The element at `idx`.
    pub fn get(&self, idx: u8) -> (r: &T)
        requires
            (idx as int) < self@.len(),
        ensures
            *r == self@[idx as int],
    {
        &self.items[idx as usize]
    }

    /// Appends one element.
    pub fn push(&mut self, elem: T)
        requires
            old(self)@.len() < MAX_COMPACT_LEN,
        ensures
            final(self)@ == old(self)@.push(elem),
    {
        proof {
            use_type_invariant(&*self);
        }
        let mut items = Vec::new();
        std::mem::swap(&mut items, &mut self.items);
        reserve_exact(&mut items, 1);
        items.push(elem);
        self.items = items;
    }

    /// Appends two elements, `elem1` first.
    pub fn push2(&mut self, elem1: T, elem2: T)
        requires
            old(self)@.len() + 2 <= MAX_COMPACT_LEN,
        ensures
            final(self)@ == old(self)@.push(elem1).push(elem2),
    {
        proof {
            use_type_invariant(&*self);
        }
        let mut items = Vec::new();
        std::mem::swap(&mut items, &mut self.items);
        reserve_exact(&mut items, 2);
        items.push(elem1);
        items.push(elem2);
        self.items = items;
    }

    /// An empty list, which owns no allocation.
    pub fn empty() -> (r: CompactVec<T>)
        ensures
            r@ == Seq::<T>::empty(),
    {
        CompactVec { items: Vec::new() }
    }

    /// Appends all of `vec`, in order.
    pub fn append(&mut self, vec: Vec<T>)
        requires
            old(self)@.len() + vec@.len() <= MAX_COMPACT_LEN,
        ensures
            final(self)@ == old(self)@ + vec@,
    {
        proof {
            use_type_invariant(&*self);
        }
        if vec.len() == 0 {
            return;
        }
        let mut vec = vec;
        let mut items = Vec::new();
        std::mem::swap(&mut items, &mut self.items);
        reserve_exact(&mut items, vec.len());
        items.append(&mut vec);
        self.items = items;
    }

    /// A list holding exactly the elements of `vec`.
    pub fn from_vec(vec: Vec<T>) -> (r: CompactVec<T>)
        requires
            vec@.len() <= MAX_COMPACT_LEN,
        ensures
            r@ == vec@,
    {
        let mut r = CompactVec::empty();
        r.append(vec);
        proof {
            assert(r@ =~= vec@);
        }
        r
    }
}

impl<'a, T> CompactVecIterator<'a, T> {
    /// The list being walked and the position of the next element.
    pub closed spec fn view(&self) -> (Seq<T>, int) {
        (self.compact_vec@, self.idx as int)
    }

    /// The next element, or `None` once every element has been handed out.
    pub fn next(&mut self) -> (r: Option<&'a T>)
        requires
            0 <= old(self).view().1 <= old(self).view().0.len(),
        ensures
            final(self).view().0 == old(self).view().0,
            old(self).view().1 < old(self).view().0.len() ==> r == Some(&old(self).view().0[old(self).view().1])
                && final(self).view().1 == old(self).view().1 + 1,
            old(self).view().1 >= old(self).view().0.len() ==> r.is_none() && final(self).view().1
                == old(self).view().1,
    {
        let len = self.compact_vec.len();
        let idx = self.idx;
        if idx < len {
            let res = self.compact_vec.get(idx);
            self.idx = idx + 1;
            Some(res)
        } else {
            None
        }
    }
}

} // verus!
