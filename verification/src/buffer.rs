//! A word buffer that grows towards its front.

use vstd::prelude::*;
use vstd::slice::slice_subrange;

verus! {

broadcast use vstd::std_specs::vec::group_vec_axioms;

/// Allocation size after growing from `cur` words until `min` words fit:
/// doubling from at least eight words, saturating at the largest `usize`.
pub open spec fn spec_grown(cur: nat, min: nat) -> nat
    decreases usize::MAX - cur,
{
    if cur >= min || cur >= usize::MAX || cur == 0 {
        cur
    } else if cur * 2 > usize::MAX {
        usize::MAX as nat
    } else {
        spec_grown(cur * 2, min)
    }
}

/// Allocation size after growing an allocation of `cur` words so that `min`
/// words fit.
pub open spec fn spec_grow_target(cur: nat, min: nat) -> nat {
    spec_grown(if cur < 8 { 8 } else { cur }, min)
}

/// Words written from the back of an allocation towards its front: the
/// active content is the suffix that starts at `off` (which never passes
/// the end of the allocation).
#[derive(Debug)]
pub struct Buffer {
    data: Vec<u32>,
    off: usize,
}

impl Clone for Buffer {
    fn clone(&self) -> (r: Self)
        ensures
            r.content() == self.content(),
            r.spec_allocated() == self.spec_allocated(),
    {
        Buffer { data: self.data.clone(), off: self.off }
    }
}

impl Buffer {
    /// The active words.
    pub closed spec fn content(&self) -> Seq<u32> {
        self.data@.subrange(self.spec_front() as int, self.data@.len() as int)
    }

    /// Where the active words start.
    pub closed spec fn spec_front(&self) -> nat {
        if self.off <= self.data@.len() {
            self.off as nat
        } else {
            self.data@.len()
        }
    }

    /// Where the active words start.
    fn front(&self) -> (r: usize)
        ensures
            r == self.spec_front(),
            self.spec_front() <= self.data@.len() <= usize::MAX,
    {
        if self.off <= self.data.len() {
            self.off
        } else {
            self.data.len()
        }
    }

    /// The whole allocation, the active words at its end.
    pub closed spec fn spec_data(&self) -> Seq<u32> {
        self.data@
    }

    /// Number of allocated words.
    pub closed spec fn spec_allocated(&self) -> nat {
        self.data@.len()
    }

    /// An empty buffer with no allocation.
    pub fn new() -> (r: Self)
        ensures
            r.content() == Seq::<u32>::empty(),
            r.spec_allocated() == 0,
    {
        Buffer { data: Vec::new(), off: 0 }
    }

    /// An empty buffer with `words` allocated words.
    pub fn with_capacity_words(words: usize) -> (r: Self)
        ensures
            r.content() == Seq::<u32>::empty(),
            r.spec_allocated() == words,
    {
        Buffer { data: vec![0u32; words], off: words }
    }

    /// Discards the active words, keeping the allocation.
    pub fn clear(&mut self)
        ensures
            final(self).content() == Seq::<u32>::empty(),
            final(self).spec_allocated() == old(self).spec_allocated(),
            final(self).spec_data() == old(self).spec_data(),
    {
        self.off = self.data.len();
    }

    /// Number of allocated words.
    pub fn allocated_words(&self) -> (r: usize)
        ensures
            r == self.spec_allocated(),
    {
        self.data.len()
    }

    /// Number of active words.
    pub fn len(&self) -> (r: usize)
        ensures
            r == self.content().len(),
    {
        self.data.len() - self.front()
    }

    /// Whether there are no active words.
    pub fn is_empty(&self) -> (r: bool)
        ensures
            r == (self.content().len() == 0),
    {
        self.len() == 0
    }

    /// The active words.
    pub fn view(&self) -> (r: &[u32])
        ensures
            r@ == self.content(),
    {
        slice_subrange(self.data.as_slice(), self.front(), self.data.len())
    }

    /// The active words.
    pub fn head(&self) -> (r: &[u32])
        ensures
            r@ == self.content(),
    {
        self.view()
    }

    /// The active words, for writing in place; what is written through the
    /// slice (which keeps its length) becomes the active words.
    pub fn head_mut(&mut self) -> (r: &mut [u32])
        ensures
            r@ == old(self).content(),
            final(r)@.len() == r@.len() ==> final(self).content() == final(r)@ && final(self).spec_allocated()
                == old(self).spec_allocated(),
    {
        let start: usize = self.front();
        let (_, rest) = self.data.as_mut_slice().split_at_mut(start);
        rest
    }

    /// The last `words` words of the allocation.
    pub fn at_from_end(&self, words: usize) -> (r: Option<&[u32]>)
        ensures
            words <= self.spec_allocated() ==> (r matches Some(s) && s@
                == self.spec_data().subrange(self.spec_allocated() - words, self.spec_allocated() as int)),
            words > self.spec_allocated() ==> r is None,
    {
        if words > self.data.len() {
            return None;
        }
        let start: usize = self.data.len() - words;
        Some(slice_subrange(self.data.as_slice(), start, self.data.len()))
    }

    /// The last `words` words of the allocation, for writing in place;
    /// what is written through the slice (which keeps its length) becomes
    /// those words.
    pub fn at_from_end_mut(&mut self, words: usize) -> (r: Option<&mut [u32]>)
        ensures
            words <= old(self).spec_allocated() ==> (r matches Some(s) && s@
                == old(self).spec_data().subrange(old(self).spec_allocated() - words, old(self).spec_allocated() as int)
                && (final(s)@.len() == s@.len() ==> final(self).spec_data() == old(self).spec_data().subrange(
                0,
                old(self).spec_allocated() - words,
            ) + final(s)@ && final(self).spec_front() == old(self).spec_front())),
            words > old(self).spec_allocated() ==> r is None && *final(self) == *old(self),
    {
        if words > self.data.len() {
            return None;
        }
        let start: usize = self.data.len() - words;
        let (_, rest) = self.data.as_mut_slice().split_at_mut(start);
        Some(rest)
    }

    /// Word `index` of the active words.
    pub fn get(&self, index: usize) -> (r: u32)
        requires
            index < self.content().len(),
        ensures
            r == self.content()[index as int],
    {
        self.data[self.front() + index]
    }

    /// Overwrites word `index` of the active words.
    pub fn set(&mut self, index: usize, value: u32)
        requires
            index < old(self).content().len(),
        ensures
            final(self).content() == old(self).content().update(index as int, value),
            final(self).spec_allocated() == old(self).spec_allocated(),
    {
        let i: usize = self.front() + index;
        self.data.set(i, value);
        proof {
            assert(self.content() =~= old(self).content().update(index as int, value));
        }
    }

    /// Makes room for at least `words` allocated words.
    pub fn reserve_words(&mut self, words: usize)
        ensures
            final(self).content() == old(self).content(),
            words > old(self).spec_allocated() ==> final(self).spec_allocated() == spec_grow_target(
                old(self).spec_allocated(),
                words as nat,
            ),
            words <= old(self).spec_allocated() ==> final(self).spec_allocated() == old(
                self,
            ).spec_allocated(),
    {
        if words > self.data.len() {
            self.grow(words);
        }
    }

    /// Adds `delta` words in front of the active words, growing the
    /// allocation when needed, and gives those words for writing: what they
    /// hold at first is left open (it may be earlier data), and what is
    /// written through the slice (which keeps its length) becomes the front
    /// of the active words.
    pub fn expand(&mut self, delta: usize) -> (r: &mut [u32])
        requires
            old(self).content().len() + delta <= usize::MAX,
        ensures
            r@.len() == delta,
            final(r)@.len() == delta ==> final(self).content() == final(r)@ + old(self).content()
                && final(self).spec_allocated() >= old(self).content().len() + delta,
    {
        if self.front() < delta {
            let needed: usize = self.len() + delta;
            self.grow(needed);
        }
        let start: usize = self.front() - delta;
        self.off = start;
        proof {
            assert(self.content().subrange(delta as int, self.content().len() as int) =~= old(self).content());
        }
        let (_, rest) = self.data.as_mut_slice().split_at_mut(start);
        let (front, _) = rest.split_at_mut(delta);
        front
    }

    /// Discards the first `delta` active words.
    pub fn shrink(&mut self, delta: usize)
        requires
            delta <= old(self).content().len(),
        ensures
            final(self).content() == old(self).content().subrange(delta as int, old(self).content().len() as int),
            final(self).spec_allocated() == old(self).spec_allocated(),
    {
        self.off = self.front() + delta;
        proof {
            assert(self.content() =~= old(self).content().subrange(delta as int, old(self).content().len() as int));
        }
    }

    /// Puts one word in front of the active words.
    pub fn put(&mut self, value: u32)
        requires
            old(self).content().len() < usize::MAX,
        ensures
            final(self).content() == seq![value] + old(self).content(),
    {
        self.expand(1);
        self.set(0, value);
        proof {
            assert(self.content() =~= seq![value] + old(self).content());
        }
    }

    /// Puts `words` in front of the active words.
    pub fn put_words(&mut self, words: &[u32])
        requires
            old(self).content().len() + words@.len() <= usize::MAX,
        ensures
            final(self).content() == words@ + old(self).content(),
            final(self).spec_allocated() >= final(self).content().len(),
    {
        let n: usize = words.len();
        self.expand(n);
        let ghost mid = self.content();
        let mut i: usize = 0;
        while i < n
            invariant
                n == words@.len(),
                i <= n,
                self.content().len() == old(self).content().len() + n,
                self.content().subrange(n as int, self.content().len() as int) == old(self).content(),
                forall|j: int| 0 <= j < i ==> self.content()[j] == words@[j],
            decreases n - i,
        {
            self.set(i, words[i]);
            proof {
                assert(self.content().subrange(n as int, self.content().len() as int) =~= old(self).content());
            }
            i += 1;
        }
        proof {
            assert(self.content() =~= words@ + old(self).content());
        }
    }

    fn grow(&mut self, min_words: usize)
        requires
            min_words >= old(self).content().len(),
        ensures
            final(self).content() == old(self).content(),
            final(self).spec_allocated() == spec_grow_target(
                old(self).spec_allocated(),
                min_words as nat,
            ),
            final(self).spec_allocated() >= min_words,
    {
        let active: usize = self.len();
        let first: usize = self.front();
        let mut new_words: usize = if self.data.len() < 8 {
            8
        } else {
            self.data.len()
        };
        let ghost start: nat = new_words as nat;
        while new_words < min_words
            invariant
                new_words >= 8,
                spec_grown(new_words as nat, min_words as nat) == spec_grown(start, min_words as nat),
            decreases usize::MAX - new_words,
        {
            new_words = if new_words > usize::MAX / 2 {
                usize::MAX
            } else {
                new_words * 2
            };
        }
        let mut data: Vec<u32> = vec![0u32; new_words];
        let new_off: usize = new_words - active;
        let mut i: usize = 0;
        while i < active
            invariant
                active == old(self).content().len(),
                new_off + active == new_words,
                data@.len() == new_words,
                first + active == self.data@.len(),
                first == old(self).spec_front(),
                self.data@.len() <= usize::MAX,
                self.data@ == old(self).data@,
                self.off == old(self).off,
                i <= active,
                forall|j: int| 0 <= j < i ==> data@[new_off + j] == old(self).content()[j],
            decreases active - i,
        {
            data.set(new_off + i, self.data[first + i]);
            i += 1;
        }
        self.data = data;
        self.off = new_off;
        proof {
            assert(self.content() =~= old(self).content());
        }
    }
}

} // verus!
