use crate::error::Error;
use crate::parameters::{SegmentKind, AEAD_MAX_SEGMENTS};
use vstd::prelude::*;

verus! {

/// The position of the next segment of a message, and whether its final
/// segment has been processed.
#[derive(Clone, Copy, Debug, PartialEq, Eq, Structural)]
pub struct SegmentCounter {
    pub next: u64,
    pub closed: bool,
}

impl SegmentCounter {
    /// The next position is one that a message can have.
    pub open spec fn wf(self) -> bool {
        self.next < AEAD_MAX_SEGMENTS
    }

    /// The counter of a message of which nothing has been processed.
    pub open spec fn start() -> SegmentCounter {
        SegmentCounter { next: 0, closed: false }
    }

    /// The error, if any, of processing a segment of `kind` next. The last
    /// position of all is kept for a final segment.
    pub open spec fn error(self, kind: SegmentKind) -> Option<Error> {
        if self.closed {
            Some(Error::Closed)
        } else if kind is NonFinal && self.next == AEAD_MAX_SEGMENTS - 1 {
            Some(Error::SegmentLimit)
        } else if kind is Final && self.next >= AEAD_MAX_SEGMENTS {
            Some(Error::SegmentLimit)
        } else {
            None
        }
    }

    /// The counter after a segment of `kind`.
    pub open spec fn advanced(self, kind: SegmentKind) -> SegmentCounter {
        match kind {
            SegmentKind::NonFinal => SegmentCounter {
                next: (self.next + 1) as u64,
                closed: self.closed,
            },
            SegmentKind::Final => SegmentCounter { next: self.next, closed: true },
        }
    }

    /// Positions count up from zero: each non-final segment takes the next
    /// position and leaves the one after it, up to the last position of all,
    /// two to the power of forty less one, which takes a final segment only.
    /// A final segment ends the message.
    pub proof fn lemma_positions_count_up(self, kind: SegmentKind)
        requires
            self.wf(),
        ensures
            Self::start().next == 0,
            !Self::start().closed,
            self.error(kind) is Some <==> self.closed || (kind is NonFinal && self.next
                == 0xff_ffff_ffff),
            self.error(kind) == Some(Error::Closed) <==> self.closed,
            self.error(kind) matches Some(error) ==> error == Error::Closed || error
                == Error::SegmentLimit,
            kind is NonFinal && self.error(kind) is None ==> self.advanced(kind).next == self.next
                + 1 && !self.advanced(kind).closed,
            kind is Final ==> self.advanced(kind).next == self.next && self.advanced(kind).closed,
    {
    }

    /// A message that still fits its limit can always be completed: where the
    /// counter refuses a non-final segment of an open message, it takes a
    /// final one, and after a final segment it takes none.
    pub proof fn lemma_final_segment_always_fits(self)
        requires
            self.wf(),
        ensures
            !self.closed ==> self.error(SegmentKind::Final) is None,
            self.error(SegmentKind::NonFinal) is None ==> self.advanced(SegmentKind::NonFinal).wf(),
            forall|kind: SegmentKind|
                self.advanced(SegmentKind::Final).error(kind) == Some(Error::Closed),
    {
    }

    pub fn new() -> (counter: Self)
        ensures
            counter == Self::start(),
            counter.wf(),
    {
        SegmentCounter { next: 0, closed: false }
    }

    pub fn position_for(self, kind: SegmentKind) -> (result: Result<u64, Error>)
        ensures
            match result {
                Ok(position) => self.error(kind) is None && position == self.next,
                Err(error) => self.error(kind) == Some(error),
            },
    {
        if self.closed {
            return Err(Error::Closed);
        }
        match kind {
            SegmentKind::NonFinal => if self.next == AEAD_MAX_SEGMENTS - 1 {
                Err(Error::SegmentLimit)
            } else {
                Ok(self.next)
            },
            SegmentKind::Final => if self.next >= AEAD_MAX_SEGMENTS {
                Err(Error::SegmentLimit)
            } else {
                Ok(self.next)
            },
        }
    }

    pub fn complete(&mut self, kind: SegmentKind)
        requires
            old(self).wf(),
        ensures
            *final(self) == old(self).advanced(kind),
    {
        match kind {
            SegmentKind::NonFinal => {
                self.next = self.next + 1;
            },
            SegmentKind::Final => {
                self.closed = true;
            },
        }
    }

    pub fn finish(self) -> (result: Result<(), Error>)
        ensures
            match result {
                Ok(_) => self.closed,
                Err(error) => !self.closed && error == Error::Truncated,
            },
    {
        if self.closed {
            Ok(())
        } else {
            Err(Error::Truncated)
        }
    }
}

} // verus!
