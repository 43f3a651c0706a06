use vstd::prelude::*;

verus! {

/// Failures reported by selector configuration and by selection.
#[derive(Debug)]
pub enum Error {
    /// The configured strategy name names no strategy.
    UnsupportedSelectorType { selector_type: String },
    /// No live, non-excluded peer was found in the namespace.
    NoAvailablePeer { namespace: u64 },
}

impl Error {
    /// Whether this is the "no live peer" condition.
    pub fn is_no_available_peer(&self) -> (r: bool)
        ensures
            r == (self is NoAvailablePeer),
    {
        match self {
            Error::NoAvailablePeer { .. } => true,
            _ => false,
        }
    }
}

} // verus!
