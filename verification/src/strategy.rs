//! Naming a strategy, and what to fall back on where the host lacks a facility.

use vstd::prelude::*;
use crate::error::CountError;
use crate::scan::Scanner;

verus! {

/// How the file's bytes are reached.
#[derive(Clone, Copy, Debug, PartialEq, Eq, Structural)]
pub enum Access {
    /// Read block by block, on one thread.
    Streamed,
    /// Mapped into memory and scanned in one pass.
    Mapped,
    /// Mapped into memory and scanned chunk by chunk by several workers.
    Parallel,
}

/// A counting strategy: how the bytes are reached, which scanner counts them, and whether
/// the kernel is first asked for sequential read-ahead.
#[derive(Clone, Copy, Debug, PartialEq, Eq, Structural)]
pub struct Strategy {
    pub access: Access,
    pub scanner: Scanner,
    pub advise: bool,
}

impl Strategy {
    /// How much the strategy asks of the host: a mapping weighs two, a hint one.
    pub open spec fn demands(self) -> nat {
        let mapping: nat = if self.access is Streamed {
            0
        } else {
            2
        };
        let hint: nat = if self.advise {
            1
        } else {
            0
        };
        mapping + hint
    }

    /// The strategy to try after this one failed with `err`, if there is one. A file that
    /// cannot be mapped is streamed instead, with the same scanner and the same wish for a
    /// hint; after a refused hint it is streamed without one. No other error, and no
    /// error that the strategy cannot have met, has a fallback.
    pub open spec fn fallback_for(self, err: CountError) -> Option<Strategy> {
        match err {
            CountError::Mapping if !(self.access is Streamed) => Some(
                Strategy { access: Access::Streamed, scanner: self.scanner, advise: self.advise },
            ),
            CountError::Advise(_) if self.advise => Some(
                Strategy { access: Access::Streamed, scanner: self.scanner, advise: false },
            ),
            _ => None,
        }
    }

    /// The strategy to try after this one failed with `err`, if there is one.
    pub fn fallback(self, err: CountError) -> (next: Option<Strategy>)
        ensures
            next == self.fallback_for(err),
    {
        match err {
            CountError::Mapping => match self.access {
                Access::Streamed => None,
                _ => Some(
                    Strategy {
                        access: Access::Streamed,
                        scanner: self.scanner,
                        advise: self.advise,
                    },
                ),
            },
            CountError::Advise(_) => if self.advise {
                Some(Strategy { access: Access::Streamed, scanner: self.scanner, advise: false })
            } else {
                None
            },
            _ => None,
        }
    }
}

/// Falling back always ends: a fallback is streamed, keeps the scanner, and asks less of
/// the host than the strategy it replaces, so at most two fallbacks follow one another.
pub proof fn lemma_fallback_descends(strategy: Strategy, err: CountError)
    ensures
        strategy.demands() <= 3,
        match strategy.fallback_for(err) {
            Some(next) => {
                &&& next.access is Streamed
                &&& next.scanner == strategy.scanner
                &&& next.demands() < strategy.demands()
                &&& next.demands() <= 1
            },
            None => true,
        },
{
}

} // verus!
