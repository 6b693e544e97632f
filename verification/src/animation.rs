//! A steppable animation cursor: an index that walks cyclically through a
//! fixed window of sprite frames.

use vstd::prelude::*;

verus! {

/// A cursor into a window of `len` frames starting at `first`.
#[derive(Clone, Copy, PartialEq, Eq, Structural, Debug)]
pub struct StepableAnimation {
    pub current_index: usize,
    pub first: usize,
    pub len: usize,
}

impl StepableAnimation {
    /// The cursor points into its window and the window fits in `usize`.
    pub open spec fn wf(self) -> bool {
        self.len > 0 && self.first <= self.current_index < self.first + self.len && self.first
            + self.len <= usize::MAX
    }

    /// Advances one frame, wrapping from the last frame of the window back
    /// to the first.
    pub fn step_forward(&mut self)
        requires
            old(self).wf(),
        ensures
            final(self).wf(),
            final(self).first == old(self).first,
            final(self).len == old(self).len,
            final(self).current_index == if old(self).current_index == old(self).first + old(
                self,
            ).len - 1 {
                old(self).first as int
            } else {
                old(self).current_index + 1
            },
    {
        let offset = self.current_index - self.first + 1;
        proof {
            if offset < self.len {
                vstd::arithmetic::div_mod::lemma_small_mod(offset as nat, self.len as nat);
            } else {
                vstd::arithmetic::div_mod::lemma_mod_self_0(self.len as int);
            }
        }
        self.current_index = self.first + offset % self.len;
    }

    /// Steps one frame back, wrapping from the first frame of the window to
    /// the last.
    pub fn step_backward(&mut self)
        requires
            old(self).wf(),
        ensures
            final(self).wf(),
            final(self).first == old(self).first,
            final(self).len == old(self).len,
            final(self).current_index == if old(self).current_index == old(self).first {
                old(self).first + old(self).len - 1
            } else {
                old(self).current_index - 1
            },
    {
        if self.current_index == self.first {
            self.current_index = self.first + self.len - 1;
            return ;
        }
        self.current_index = self.current_index - 1;
    }
}

} // verus!
