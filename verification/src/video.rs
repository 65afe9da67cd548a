//! Frame-buffer ownership for a streaming sink.
//!
//! When a whole transition's frames go to a zero-copy video sink as one
//! batch, each buffer's memory belongs to the sink from the push until the
//! sink signals that it consumed the buffer. `FrameHandoff` records those
//! one-shot release signals: a buffer may be reclaimed only after its
//! signal, a second signal for the same buffer is an error, and the next
//! frame set starts only once every buffer of the last one came back.
use vstd::prelude::*;

verus! {

/// Why a release signal was refused.
#[derive(Debug, PartialEq, Eq, Structural)]
pub enum HandoffError {
    /// The signal names a buffer the current frame set does not have.
    OutOfRange,
    /// The buffer was already released once; releasing it again would free
    /// it twice.
    AlreadyReleased,
}

/// The release state of the frame buffers handed to the sink: one flag per
/// buffer, set once the sink has signalled that buffer consumed.
pub struct FrameHandoff {
    released: Vec<bool>,
}

impl View for FrameHandoff {
    type V = Seq<bool>;

    closed spec fn view(&self) -> Seq<bool> {
        self.released@
    }
}

impl FrameHandoff {
    /// Starts a handoff of `count` buffers, all owned by the sink and none
    /// released yet.
    pub fn begin(count: usize) -> (r: Self)
        ensures
            r@.len() == count,
            forall|i: int| 0 <= i < count ==> !r@[i],
    {
        let mut released: Vec<bool> = Vec::new();
        let mut i: usize = 0;
        while i < count
            invariant
                i <= count,
                released@.len() == i,
                forall|k: int| 0 <= k < i ==> !released@[k],
            decreases count - i,
        {
            released.push(false);
            i = i + 1;
        }
        Self { released }
    }

    /// Accepts the sink's one-shot signal that it consumed a buffer. A
    /// signal for an unknown buffer, or a second signal for the same one, is
    /// refused and changes nothing.
    pub fn consume(&mut self, index: usize) -> (r: Result<(), HandoffError>)
        ensures
            r is Ok <==> index < old(self)@.len() && !old(self)@[index as int],
            r is Ok ==> final(self)@ =~= old(self)@.update(index as int, true),
            r == Err::<(), HandoffError>(HandoffError::OutOfRange) <==> index >= old(
                self,
            )@.len(),
            r == Err::<(), HandoffError>(HandoffError::AlreadyReleased) <==> index < old(
                self,
            )@.len() && old(self)@[index as int],
            r is Err ==> final(self)@ =~= old(self)@,
    {
        if index >= self.released.len() {
            return Err(HandoffError::OutOfRange);
        }
        if self.released[index] {
            return Err(HandoffError::AlreadyReleased);
        }
        self.released.set(index, true);
        Ok(())
    }

    /// Whether a buffer's memory may be reclaimed: only after the sink's
    /// release signal for it.
    pub fn may_reclaim(&self, index: usize) -> (r: bool)
        ensures
            r == (index < self@.len() && self@[index as int]),
    {
        index < self.released.len() && self.released[index]
    }

    /// Whether every buffer of the frame set came back; only then may the
    /// next set be pushed.
    pub fn all_released(&self) -> (r: bool)
        ensures
            r == (forall|i: int| 0 <= i < self@.len() ==> self@[i]),
    {
        let mut i: usize = 0;
        while i < self.released.len()
            invariant
                i <= self.released.len(),
                forall|k: int| 0 <= k < i ==> self@[k],
            decreases self.released.len() - i,
        {
            if !self.released[i] {
                proof {
                    assert(!self@[i as int]);
                }
                return false;
            }
            i = i + 1;
        }
        true
    }
}

} // verus!
