//! Nesting-depth bookkeeping shared by the reader and the printer.
use vstd::prelude::*;
use crate::error::{Fault, Severity, SexpError};

verus! {

pub const DEFAULT_MAX_DEPTH: usize = 1024;

/// The current list nesting depth and its limit (0 means no limit).
#[derive(Debug, Clone, Copy, PartialEq, Eq, Structural)]
pub struct DepthManager {
    pub depth: usize,
    pub max_depth: usize,
}

impl DepthManager {
    /// The depth after one more list is opened, and whether the limit allows it.
    /// A depth that has reached `usize::MAX` cannot grow and counts as exceeding.
    pub open spec fn spec_increase(self, position: i32) -> (Self, Result<(), SexpError>) {
        let err = SexpError::Sexp {
            fault: Fault::MaxDepth { max: self.max_depth },
            severity: Severity::Error,
            position,
        };
        if self.depth == usize::MAX {
            (self, Err(err))
        } else {
            let next = DepthManager { depth: (self.depth + 1) as usize, ..self };
            if self.max_depth != 0 && next.depth > self.max_depth {
                (next, Err(err))
            } else {
                (next, Ok(()))
            }
        }
    }

    pub fn new(max_depth: usize) -> (r: Self)
        ensures
            r.depth == 0,
            r.max_depth == max_depth,
    {
        DepthManager { depth: 0, max_depth }
    }

    pub fn reset(&mut self, max_depth: usize)
        ensures
            final(self).depth == 0,
            final(self).max_depth == max_depth,
    {
        self.depth = 0;
        self.max_depth = max_depth;
    }

    /// Enters one more list. `position` is reported with the error; a negative
    /// position means that there is none (as for the printer).
    pub fn increase(&mut self, position: i32) -> (r: Result<(), SexpError>)
        ensures
            (*final(self), r) == old(self).spec_increase(position),
    {
        if self.depth == usize::MAX {
            return Err(SexpError::Sexp {
                fault: Fault::MaxDepth { max: self.max_depth },
                severity: Severity::Error,
                position,
            });
        }
        self.depth = self.depth + 1;
        if self.max_depth != 0 && self.depth > self.max_depth {
            Err(SexpError::Sexp {
                fault: Fault::MaxDepth { max: self.max_depth },
                severity: Severity::Error,
                position,
            })
        } else {
            Ok(())
        }
    }

    pub fn decrease(&mut self)
        requires
            old(self).depth > 0,
        ensures
            *final(self) == (DepthManager { depth: (old(self).depth - 1) as usize, ..*old(self) }),
    {
        self.depth = self.depth - 1;
    }
}

/// Entering a list and leaving it again gives back the depth one started from,
/// when the limit allows the list.
pub proof fn lemma_increase_decrease(d: DepthManager, position: i32)
    requires
        d.spec_increase(position).1 is Ok,
    ensures
        d.spec_increase(position).0.depth > 0,
        (DepthManager { depth: (d.spec_increase(position).0.depth - 1) as usize, ..d.spec_increase(position).0 }) == d,
{
}

/// The limit is honoured: a successful increase never goes beyond a nonzero limit.
pub proof fn lemma_increase_within_limit(d: DepthManager, position: i32)
    requires
        d.spec_increase(position).1 is Ok,
        d.max_depth != 0,
    ensures
        d.spec_increase(position).0.depth <= d.max_depth,
{
}

} // verus!
