//! Multi-pattern string matching with a shared, immutable Aho–Corasick
//! automaton and cheap per-stream sessions.  The automaton is built once from
//! a list of ASCII byte-string patterns; a session then scans byte chunks
//! and reports, per call, the indices of the patterns that end inside the
//! scanned chunk.  The cursor persists between calls, so a match may span
//! chunk boundaries.

pub mod automaton;
pub mod context;
pub mod patterns;
pub mod scanner;

use std::collections::HashSet;
use std::rc::Rc;
use vstd::prelude::*;

use crate::automaton::Automaton;
use crate::context::Context;

verus! {

/// Relies on Rc::clone: the result is a second handle to the same shared
/// value, so it equals the original; nothing is rebuilt or copied.
#[verifier::external_body]
fn clone_handle(v: &Rc<Automaton>) -> (r: Rc<Automaton>)
    ensures
        r == *v,
{
    Rc::clone(v)
}

/// A matching session: a shared handle to one immutable automaton, plus this
/// stream's own small cursor.  Any number of sessions may scan over the same
/// automaton independently.
pub struct AhoCorasick {
    pub automaton: Rc<Automaton>,
    pub context: Context,
}

impl AhoCorasick {
    /// A session is usable when its automaton is well formed and its cursor
    /// points at one of the automaton's states.
    pub open spec fn wf(self) -> bool {
        &&& (*self.automaton).wf()
        &&& (self.context.state as int) < (*self.automaton).states()
    }

    /// Opens a session over an already built automaton, with the cursor at
    /// the root state.
    pub fn new(auto: Rc<Automaton>, return_on_first_match: bool) -> (r: AhoCorasick)
        ensures
            r.automaton == auto,
            r.context.state == 0,
            r.context.return_on_first_match == return_on_first_match,
            (*auto).wf() ==> r.wf(),
    {
        let context: Context = Context::new(return_on_first_match);
        AhoCorasick { automaton: auto, context }
    }

    /// Opens a second session against the same built automaton.  The tables
    /// are shared, not copied, and construction is not re-run; only the small
    /// mutable state — the cursor and the mode flag — is duplicated.
    pub fn clone(self) -> (r: AhoCorasick)
        ensures
            r.automaton == self.automaton,
            r.context.state == self.context.state,
            r.context.return_on_first_match == self.context.return_on_first_match,
            self.wf() ==> r.wf(),
    {
        let automaton: Rc<Automaton> = clone_handle(&self.automaton);
        let context: Context = Context {
            state: self.context.state,
            return_on_first_match: self.context.return_on_first_match,
        };
        AhoCorasick { automaton, context }
    }

    /// Scans the next chunk of the stream and reports the indices of the
    /// patterns discovered in this call, or `None` when there were none — a
    /// scan never fails, so absence of matches is a value, not an error.  In
    /// early-exit mode the chunk is consumed only up to the first match.
    pub fn execute(&mut self, bytes: &[u8]) -> (r: Option<HashSet<usize>>)
        requires
            old(self).wf(),
        ensures
            final(self).wf(),
            final(self).automaton == old(self).automaton,
            final(self).context.return_on_first_match == old(
                self,
            ).context.return_on_first_match,
            ({
                let a = *old(self).automaton;
                let s0 = old(self).context.state as int;
                let stop = a.scan_extent(s0, bytes@, old(self).context.return_on_first_match);
                &&& final(self).context.state as int == a.run(s0, bytes@.take(stop))
                &&& (match r {
                    Some(found) => found@ == a.matched(s0, bytes@.take(stop)) && !a.matched(
                        s0,
                        bytes@,
                    ).is_empty(),
                    None => a.matched(s0, bytes@).is_empty(),
                })
            }),
    {
        let matches = self.automaton.execute(&mut self.context, bytes);
        proof {
            let a = *old(self).automaton;
            let s0 = old(self).context.state as int;
            if old(self).context.return_on_first_match {
                a.lemma_first_match_empty(s0, bytes@);
            } else {
                assert(bytes@.take(bytes@.len() as int) =~= bytes@);
            }
        }
        if matches.is_empty() {
            return None;
        }
        Some(matches)
    }

    /// Rewinds this session's cursor to the root state so the stream can be
    /// scanned from scratch; the shared automaton is untouched.
    pub fn reset(&mut self)
        ensures
            final(self).automaton == old(self).automaton,
            final(self).context.state == 0,
            final(self).context.return_on_first_match == old(
                self,
            ).context.return_on_first_match,
            (*old(self).automaton).wf() ==> final(self).wf(),
    {
        self.context.state = 0;
    }
}

} // verus!
