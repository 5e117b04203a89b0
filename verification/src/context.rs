use vstd::prelude::*;

verus! {

/// Mutable per-stream cursor over a shared automaton: the current state and
/// the early-exit mode flag.  It owns no automaton data; several cursors may
/// drive the same immutable automaton independently.
pub struct Context {
    /// The current state, kept between calls so that scanning can resume
    /// across chunks of a stream.
    pub state: u16,
    /// When set, a scan returns as soon as any pattern has matched.
    pub return_on_first_match: bool,
}

impl Context {
    /// Opens a fresh cursor positioned at the root state.
    pub fn new(return_on_first_match: bool) -> (r: Context)
        ensures
            r.state == 0,
            r.return_on_first_match == return_on_first_match,
    {
        Context { state: 0, return_on_first_match }
    }
}

} // verus!
