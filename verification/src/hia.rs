//! The hash-indexed array: 64 slots mapping a pixel hash to the last
//! pixel stored under it.

use vstd::prelude::*;

use crate::pixel::{hash_rgba, px_hash, Pixel};

verus! {

/// Folds a pixel feed into a table: each pixel in order overwrites the
/// slot its hash names.
pub open spec fn bulk_update(hia: Seq<Pixel>, feed: Seq<Pixel>) -> Seq<Pixel>
    decreases feed.len(),
{
    if feed.len() == 0 {
        hia
    } else {
        bulk_update(hia.update(px_hash(feed[0]), feed[0]), feed.skip(1))
    }
}

/// The all-zero table both coders start from.
pub open spec fn init_hia() -> Seq<Pixel> {
    Seq::new(64, |i: int| Pixel::zero())
}

/// Folding one more pixel onto the feed updates the folded table at that
/// pixel's hash.
pub proof fn lemma_bulk_update_snoc(hia: Seq<Pixel>, feed: Seq<Pixel>, p: Pixel)
    ensures
        bulk_update(hia, feed.push(p)) == bulk_update(hia, feed).update(px_hash(p), p),
    decreases feed.len(),
{
    if feed.len() == 0 {
        assert(feed.push(p)[0] == p);
        assert(feed.push(p).skip(1) =~= Seq::<Pixel>::empty());
        assert(bulk_update(hia, feed.push(p)) == bulk_update(hia.update(px_hash(p), p), feed.push(
            p,
        ).skip(1)));
    } else {
        assert(feed.push(p)[0] == feed[0]);
        assert(feed.push(p).skip(1) =~= feed.skip(1).push(p));
        lemma_bulk_update_snoc(hia.update(px_hash(feed[0]), feed[0]), feed.skip(1), p);
    }
}

/// Folding a feed keeps the table's length.
pub proof fn lemma_bulk_update_len(hia: Seq<Pixel>, feed: Seq<Pixel>)
    requires
        hia.len() == 64,
    ensures
        bulk_update(hia, feed).len() == 64,
    decreases feed.len(),
{
    if feed.len() > 0 {
        assert(0 <= px_hash(feed[0]) < 64);
        lemma_bulk_update_len(hia.update(px_hash(feed[0]), feed[0]), feed.skip(1));
    }
}

/// What a folded slot holds: the last pixel of the feed hashing to it,
/// or the old slot value if no pixel of the feed does. This is the
/// resynchronization guarantee the decoder's lazy table update rests on.
pub proof fn lemma_bulk_update_last(hia: Seq<Pixel>, feed: Seq<Pixel>, h: int)
    requires
        hia.len() == 64,
        0 <= h < 64,
    ensures
        (exists|i: int| 0 <= i < feed.len() && px_hash(feed[i]) == h) ==> {
            let i = last_with_hash(feed, h);
            &&& 0 <= i < feed.len()
            &&& px_hash(feed[i]) == h
            &&& bulk_update(hia, feed)[h] == feed[i]
        },
        (forall|i: int| 0 <= i < feed.len() ==> px_hash(feed[i]) != h) ==> bulk_update(hia, feed)[h]
            == hia[h],
    decreases feed.len(),
{
    if feed.len() > 0 {
        let hia1 = hia.update(px_hash(feed[0]), feed[0]);
        lemma_bulk_update_last(hia1, feed.skip(1), h);
        assert(forall|j: int| 0 <= j < feed.skip(1).len() ==> feed.skip(1)[j] == feed[j + 1]);
        if exists|i: int| 0 <= i < feed.len() && px_hash(feed[i]) == h {
            lemma_last_with_hash_props(feed, h);
            let i = last_with_hash(feed, h);
            if i == 0 {
                assert(forall|j: int|
                    0 <= j < feed.skip(1).len() ==> px_hash(feed.skip(1)[j]) != h);
            } else {
                assert(exists|j: int| 1 <= j < feed.len() && px_hash(feed[j]) == h) by {
                    assert(1 <= i < feed.len() && px_hash(feed[i]) == h);
                }
                lemma_last_with_hash_skip(feed, h);
                assert(last_with_hash(feed.skip(1), h) == i - 1);
                assert(px_hash(feed.skip(1)[i - 1]) == h);
                assert(exists|j: int|
                    0 <= j < feed.skip(1).len() && px_hash(feed.skip(1)[j]) == h) by {
                    assert(px_hash(feed.skip(1)[i - 1]) == h);
                }
                assert(feed.skip(1)[i - 1] == feed[i]);
            }
        } else {
            assert(px_hash(feed[0]) != h);
            assert(forall|j: int| 0 <= j < feed.skip(1).len() ==> px_hash(feed.skip(1)[j]) != h);
        }
    }
}

/// The index of the last pixel of the feed hashing to `h`; meaningful
/// only when one exists.
pub open spec fn last_with_hash(feed: Seq<Pixel>, h: int) -> int
    decreases feed.len(),
{
    if feed.len() == 0 {
        -1
    } else if px_hash(feed[feed.len() - 1]) == h {
        feed.len() - 1
    } else {
        last_with_hash(feed.take(feed.len() - 1), h)
    }
}

proof fn lemma_last_with_hash_props(feed: Seq<Pixel>, h: int)
    requires
        exists|i: int| 0 <= i < feed.len() && px_hash(feed[i]) == h,
    ensures
        0 <= last_with_hash(feed, h) < feed.len(),
        px_hash(feed[last_with_hash(feed, h)]) == h,
        forall|j: int| last_with_hash(feed, h) < j < feed.len() ==> px_hash(feed[j]) != h,
    decreases feed.len(),
{
    let n = feed.len() as int;
    if px_hash(feed[n - 1]) == h {
    } else {
        let i = choose|i: int| 0 <= i < feed.len() && px_hash(feed[i]) == h;
        assert(0 <= i < n - 1);
        assert(feed.take(n - 1)[i] == feed[i]);
        lemma_last_with_hash_props(feed.take(n - 1), h);
        assert(forall|j: int| 0 <= j < n - 1 ==> feed.take(n - 1)[j] == feed[j]);
    }
}

proof fn lemma_last_with_hash_skip(feed: Seq<Pixel>, h: int)
    requires
        feed.len() > 0,
        exists|i: int| 1 <= i < feed.len() && px_hash(feed[i]) == h,
    ensures
        last_with_hash(feed, h) == last_with_hash(feed.skip(1), h) + 1,
    decreases feed.len(),
{
    let n = feed.len() as int;
    assert(feed.skip(1).len() == n - 1);
    if px_hash(feed[n - 1]) == h {
        assert(feed.skip(1)[n - 2] == feed[n - 1]);
    } else {
        if n == 2 {
            let i = choose|i: int| 1 <= i < feed.len() && px_hash(feed[i]) == h;
            assert(i == 1);
            assert(false);
        } else {
            assert(feed.take(n - 1).skip(1) =~= feed.skip(1).take(n - 2));
            let i = choose|i: int| 1 <= i < feed.len() && px_hash(feed[i]) == h;
            assert(i < n - 1);
            assert(feed.take(n - 1)[i] == feed[i]);
            lemma_last_with_hash_skip(feed.take(n - 1), h);
            assert(feed.skip(1)[n - 2] == feed[n - 1]);
        }
    }
}

/// The 64-entry recently-seen-pixel table.
pub struct HashIndexedArray {
    indices_array: Vec<Pixel>,
}

impl View for HashIndexedArray {
    type V = Seq<Pixel>;

    closed spec fn view(&self) -> Seq<Pixel> {
        self.indices_array@
    }
}

impl HashIndexedArray {
    /// The table always holds exactly 64 slots.
    pub closed spec fn wf(&self) -> bool {
        self.indices_array@.len() == 64
    }

    /// A fresh table of 64 zero pixels.
    pub fn new() -> (r: Self)
        ensures
            r.wf(),
            r@ == init_hia(),
    {
        let mut v: Vec<Pixel> = Vec::new();
        let mut i: usize = 0;
        while i < 64
            invariant
                i <= 64,
                v@.len() == i,
                forall|j: int| 0 <= j < i ==> v@[j] == Pixel::zero(),
            decreases 64 - i,
        {
            v.push(Pixel { r: 0, g: 0, b: 0, a: 0 });
            i += 1;
        }
        proof {
            assert(v@ =~= init_hia());
        }
        HashIndexedArray { indices_array: v }
    }

    /// The pixel a hash slot holds.
    pub fn fetch(&self, hash: u8) -> (p: Pixel)
        requires
            self.wf(),
            hash < 64,
        ensures
            p == self@[hash as int],
    {
        self.indices_array[hash as usize]
    }

    /// Stores a pixel under its own hash; returns the displaced slot
    /// value and the hash.
    pub fn push(&mut self, pixel: Pixel) -> (r: (Pixel, u8))
        requires
            old(self).wf(),
        ensures
            final(self).wf(),
            r.1 == px_hash(pixel),
            r.0 == old(self)@[px_hash(pixel)],
            final(self)@ == old(self)@.update(px_hash(pixel), pixel),
    {
        let hash = hash_rgba(&pixel);
        let previous = self.indices_array[hash as usize];
        self.indices_array.set(hash as usize, pixel);
        (previous, hash)
    }

    /// `push`, under the name the word-oriented coder uses.
    pub fn swap(&mut self, pixel: &Pixel) -> (r: (Pixel, u8))
        requires
            old(self).wf(),
        ensures
            final(self).wf(),
            r.1 == px_hash(*pixel),
            r.0 == old(self)@[px_hash(*pixel)],
            final(self)@ == old(self)@.update(px_hash(*pixel), *pixel),
    {
        self.push(*pixel)
    }

    /// Stores each pixel of `feed[start..end]` in order under its hash.
    pub fn update(&mut self, feed: &Vec<Pixel>, start: usize, end: usize) -> (r: ())
        requires
            old(self).wf(),
            start <= end <= feed@.len(),
        ensures
            final(self).wf(),
            final(self)@ == bulk_update(old(self)@, feed@.subrange(start as int, end as int)),
    {
        let mut i: usize = start;
        while i < end
            invariant
                start <= i <= end <= feed@.len(),
                self.wf(),
                self@ == bulk_update(old(self)@, feed@.subrange(start as int, i as int)),
            decreases end - i,
        {
            let ghost pre = feed@.subrange(start as int, i as int);
            self.push(feed[i]);
            proof {
                assert(feed@.subrange(start as int, i + 1 as int) =~= pre.push(feed@[i as int]));
                lemma_bulk_update_snoc(old(self)@, pre, feed@[i as int]);
            }
            i += 1;
        }
        proof {
            assert(feed@.subrange(start as int, start as int) =~= Seq::<Pixel>::empty());
        }
    }
}

/// A well-formed table holds exactly 64 slots.
pub proof fn lemma_hia_wf_len(h: &HashIndexedArray)
    requires
        h.wf(),
    ensures
        h@.len() == 64,
{
}

/// Folding a feed in two pieces equals folding it whole: the decoder may
/// therefore bring the table up to date in batches, one per RUN or INDEX
/// op, and every slot still ends up holding the last pixel of the whole
/// history that hashes to it (`lemma_bulk_update_last`).
pub proof fn lemma_bulk_update_chain(hia: Seq<Pixel>, a: Seq<Pixel>, b: Seq<Pixel>)
    ensures
        bulk_update(bulk_update(hia, a), b) == bulk_update(hia, a + b),
    decreases a.len(),
{
    if a.len() == 0 {
        assert(a + b =~= b);
    } else {
        assert((a + b)[0] == a[0]);
        assert((a + b).skip(1) =~= a.skip(1) + b);
        lemma_bulk_update_chain(hia.update(px_hash(a[0]), a[0]), a.skip(1), b);
    }
}

} // verus!
