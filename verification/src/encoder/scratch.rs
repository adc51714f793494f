//! Buffers that are used again and again.

use vstd::prelude::*;

verus! {

/// Number of buffers for the bands of a frame, one for each mode that competes.
pub const BAND_BUFFERS: usize = 8;

/// Makes a buffer `len` long. What it held stays, as far as there is room; zeros follow.
fn resize(buffer: &mut Vec<i32>, len: usize)
    ensures
        final(buffer)@ == resized(old(buffer)@, len as nat),
{
    let ghost before = buffer@;
    buffer.resize(len, 0);
    proof {
        if len <= before.len() {
            assert(buffer@ =~= resized(before, len as nat));
        } else {
            assert forall|i: int| 0 <= i < len implies buffer@[i] == resized(
                before,
                len as nat,
            )[i] by {
                if i < before.len() {
                    assert(buffer@.subrange(0, before.len() as int)[i] == buffer@[i]);
                }
            }
            assert(buffer@ =~= resized(before, len as nat));
        }
    }
}

/// The first `len` numbers, with zeros where there are not so many.
pub open spec fn resized(s: Seq<i32>, len: nat) -> Seq<i32> {
    Seq::new(
        len,
        |i: int|
            if i < s.len() {
                s[i]
            } else {
                0
            },
    )
}

/// Buffers for one frame.
pub struct FrameScratch {
    residuals: Vec<i32>,
    reconstruction: Vec<i32>,
}

impl Default for FrameScratch {
    fn default() -> (s: FrameScratch)
        ensures
            s.first() == Seq::<i32>::empty(),
            s.second() == Seq::<i32>::empty(),
    {
        FrameScratch { residuals: Vec::new(), reconstruction: Vec::new() }
    }
}

impl FrameScratch {
    /// What the buffer for residuals holds.
    pub closed spec fn first(&self) -> Seq<i32> {
        self.residuals@
    }

    /// What the buffer for the reconstruction holds.
    pub closed spec fn second(&self) -> Seq<i32> {
        self.reconstruction@
    }

    /// The buffer for residuals, `len` long.
    pub fn residuals(&mut self, len: usize) -> (r: &mut Vec<i32>)
        ensures
            r@ == resized(old(self).first(), len as nat),
            final(self).first() == final(r)@,
            final(self).second() == old(self).second(),
    {
        resize(&mut self.residuals, len);
        &mut self.residuals
    }

    /// The buffers for residuals and the reconstruction, both `len` long.
    pub fn closed_loop(&mut self, len: usize) -> (r: (&mut Vec<i32>, &mut Vec<i32>))
        ensures
            r.0@ == resized(old(self).first(), len as nat),
            r.1@ == resized(old(self).second(), len as nat),
            final(self).first() == final(r.0)@,
            final(self).second() == final(r.1)@,
    {
        resize(&mut self.residuals, len);
        resize(&mut self.reconstruction, len);
        (&mut self.residuals, &mut self.reconstruction)
    }
}

/// Buffers for the bands of a frame.
pub struct BandScratch {
    candidates: Vec<Vec<i32>>,
}

impl Default for BandScratch {
    fn default() -> (s: BandScratch)
        ensures
            s.view() == Seq::new(BAND_BUFFERS as nat, |i: int| Seq::<i32>::empty()),
    {
        let mut candidates: Vec<Vec<i32>> = Vec::new();
        let mut i: usize = 0;
        while i < BAND_BUFFERS
            invariant
                i <= BAND_BUFFERS,
                candidates@.len() == i,
                forall|j: int| 0 <= j < i ==> (#[trigger] candidates@[j])@ == Seq::<i32>::empty(),
            decreases BAND_BUFFERS - i,
        {
            candidates.push(Vec::new());
            i = i + 1;
        }
        let s: BandScratch = BandScratch { candidates };
        assert(s.view() =~= Seq::new(BAND_BUFFERS as nat, |i: int| Seq::<i32>::empty()));
        s
    }
}

impl BandScratch {
    pub closed spec fn view(&self) -> Seq<Seq<i32>> {
        Seq::new(self.candidates@.len(), |i: int| self.candidates@[i]@)
    }

    /// Buffer `index`, `len` long.
    pub fn candidate(&mut self, index: usize, len: usize) -> (r: &mut Vec<i32>)
        requires
            index < old(self)@.len(),
        ensures
            r@ == resized(old(self)@[index as int], len as nat),
            final(self)@ == old(self)@.update(index as int, final(r)@),
    {
        let ghost before = self.candidates@;
        let buffer: &mut Vec<i32> = &mut self.candidates[index];
        resize(buffer, len);
        buffer
    }

    /// What buffer `index` holds.
    pub fn candidate_ref(&self, index: usize) -> (r: &Vec<i32>)
        requires
            index < self@.len(),
        ensures
            r@ == self@[index as int],
    {
        &self.candidates[index]
    }
}

} // verus!
