use std::collections::HashSet;
use std::rc::Rc;
use vstd::prelude::*;

use crate::context::Context;

verus! {

broadcast use vstd::std_specs::hash::group_hash_axioms;

/// The number of input byte values that each state has transitions for.
/// Bytes outside this range are clamped to 0 before any table lookup.
pub const MAX_CHARS: usize = 128;

/// Sentinel transition-table entry meaning "no transition here".  It is the
/// largest `u16` value, so no state may ever receive this id.
pub const UNDEFINED: u16 = 65535;

/// A pattern set may not need this many states or more; the sentinel above is
/// reserved and every state id must stay below it.
pub const STATE_SENTINEL: u64 = 65535;

/// Clamping rule for input bytes: anything outside the table's alphabet is
/// looked up as byte 0.
pub open spec fn norm(b: u8) -> u8 {
    if b >= 128 {
        0
    } else {
        b
    }
}

pub open spec fn is_lower(b: u8) -> bool {
    97 <= b <= 122
}

pub open spec fn is_upper(b: u8) -> bool {
    65 <= b <= 90
}

pub open spec fn is_alpha(b: u8) -> bool {
    is_lower(b) || is_upper(b)
}

/// The opposite-case counterpart of an alphabetic ASCII byte; other bytes map
/// to themselves.
pub open spec fn swap_case(b: u8) -> u8 {
    if is_lower(b) {
        (b - 32) as u8
    } else if is_upper(b) {
        (b + 32) as u8
    } else {
        b
    }
}

pub open spec fn ascii_seq(p: Seq<u8>) -> bool {
    forall|i: int| 0 <= i < p.len() ==> p[i] < 128
}

pub open spec fn all_ascii(ps: Seq<Seq<u8>>) -> bool {
    forall|k: int| 0 <= k < ps.len() ==> ascii_seq(#[trigger] ps[k])
}

/// How many alphabetic bytes a pattern holds; each one reserves an extra
/// state for its case-duplicate transition.
pub open spec fn alpha_count(p: Seq<u8>) -> int
    decreases p.len(),
{
    if p.len() == 0 {
        0
    } else {
        alpha_count(p.drop_last()) + if is_alpha(p.last()) {
            1int
        } else {
            0int
        }
    }
}

/// Worst-case number of states one pattern can demand: one per byte plus one
/// per alphabetic byte.
pub open spec fn weight(p: Seq<u8>) -> int {
    p.len() + alpha_count(p)
}

pub open spec fn weight_sum(ps: Seq<Seq<u8>>) -> int
    decreases ps.len(),
{
    if ps.len() == 0 {
        0
    } else {
        weight_sum(ps.drop_last()) + weight(ps.last())
    }
}

/// Worst-case state bound for a pattern set: the root plus every pattern's
/// worst case.  Construction must reject a set whose bound reaches the
/// sentinel.
pub open spec fn state_bound(ps: Seq<Seq<u8>>) -> int {
    1 + weight_sum(ps)
}

/// Whether two bytes are the same up to ASCII case.
pub open spec fn eq_mod_case(x: u8, y: u8) -> bool {
    y == x || (is_alpha(x) && y == swap_case(x))
}

/// Whether two byte strings are the same up to ASCII case, position by
/// position.
pub open spec fn case_variant(u: Seq<u8>, v: Seq<u8>) -> bool {
    u.len() == v.len() && forall|i: int| 0 <= i < u.len() ==> eq_mod_case(#[trigger] u[i], v[i])
}

/// Whether some pattern of the set opens with byte `b`, in either case.
pub open spec fn starts_pattern(ps: Seq<Seq<u8>>, b: u8) -> bool {
    exists|k: int| 0 <= k < ps.len() && (#[trigger] ps[k]).len() > 0 && eq_mod_case(ps[k][0], b)
}

/// Why a pattern set was rejected.  Both kinds arise only during
/// construction; scanning never fails.
#[derive(Clone, Copy, PartialEq, Eq, Structural, Debug)]
pub enum BuildError {
    /// A pattern holds a byte outside the 7-bit ASCII range.
    InvalidPattern,
    /// The worst-case state bound reaches the reserved sentinel value.
    /// Carries the computed bound and the largest acceptable bound.
    CapacityExceeded { bound: u64, limit: u16 },
}

/// The value `v` clamped to what a `u64` can hold.
pub open spec fn capped(v: int) -> int {
    if v <= u64::MAX {
        v
    } else {
        u64::MAX as int
    }
}

/// `u64` addition that saturates instead of overflowing.
fn sat_add(a: u64, b: u64) -> (r: u64)
    ensures
        r as int == capped(a as int + b as int),
{
    if a > u64::MAX - b {
        u64::MAX
    } else {
        a + b
    }
}

/// Every pattern holds between zero and `len` alphabetic bytes.
pub proof fn lemma_alpha_count_bounds(p: Seq<u8>)
    ensures
        0 <= alpha_count(p) <= p.len(),
    decreases p.len(),
{
    if p.len() > 0 {
        lemma_alpha_count_bounds(p.drop_last());
    }
}

/// The worst-case weight of a pattern set is never negative.
pub proof fn lemma_weight_sum_nonneg(ps: Seq<Seq<u8>>)
    ensures
        weight_sum(ps) >= 0,
    decreases ps.len(),
{
    if ps.len() > 0 {
        lemma_weight_sum_nonneg(ps.drop_last());
        lemma_alpha_count_bounds(ps.last());
    }
}

/// The byte sequences of a list of byte vectors.
pub open spec fn views(ps: Seq<Vec<u8>>) -> Seq<Seq<u8>> {
    Seq::new(ps.len(), |i: int| ps[i]@)
}

/// Immutable compiled state machine: flat transition table, failure table and
/// per-state output sets, plus the pattern list for introspection.  State ids
/// index the tables; `goto` stores row `s` at `s * MAX_CHARS`.
#[derive(Clone)]
pub struct Automaton {
    /// The patterns the automaton was built from; a pattern's position here
    /// is its identity in every match report.
    pub patterns: Vec<Vec<u8>>,
    /// The largest state id that may be allocated; the tables hold
    /// `max_states + 1` rows.
    pub max_states: u16,
    /// Transition table: entry `s * MAX_CHARS + b` is the successor of state
    /// `s` on byte `b`, or `UNDEFINED`.
    pub goto: Vec<u16>,
    /// Failure table: where a scan falls back when a transition is missing.
    pub fail: Vec<u16>,
    /// Output sets: the indices of the patterns that end at each state.
    pub out: Vec<Vec<usize>>,
    /// Trie depth of each state, kept only for the proofs: failure links
    /// always step to a strictly shallower state, which is what makes
    /// failure-chasing terminate.
    pub depth: Ghost<Seq<nat>>,
}

impl Automaton {
    /// The number of state rows allocated in the tables.
    pub open spec fn states(self) -> int {
        self.fail@.len() as int
    }

    /// The transition-table entry for state `s` and byte `b`.
    pub open spec fn g(self, s: int, b: int) -> u16
        recommends
            0 <= s < self.states(),
            0 <= b < 128,
    {
        self.goto@[s * 128 + b]
    }

    /// The patterns as mathematical byte sequences.
    pub open spec fn pats(self) -> Seq<Seq<u8>> {
        views(self.patterns@)
    }

    /// The output set of state `s`, as a set of pattern indices.
    pub open spec fn out_set(self, s: int) -> Set<usize>
        recommends
            0 <= s < self.states(),
    {
        self.out@[s]@.to_set()
    }

    /// Whether any pattern ends at state `s`.
    pub open spec fn out_nonempty(self, s: int) -> bool
        recommends
            0 <= s < self.states(),
    {
        self.out@[s]@.len() > 0
    }

    /// Well-formedness of a built automaton.  The two load-bearing clauses
    /// are: the root row has no undefined entries, and every failure link
    /// strictly decreases the recorded depth — together they guarantee that
    /// failure-chasing terminates at every state.
    pub open spec fn wf(self) -> bool {
        let n = self.states();
        &&& 1 <= n <= 65534
        &&& self.max_states as int + 1 == n
        &&& self.goto@.len() == n * 128
        &&& self.out@.len() == n
        &&& self.depth@.len() == n
        &&& forall|s: int, b: int|
            0 <= s < n && 0 <= b < 128 ==> (#[trigger] self.g(s, b)) == UNDEFINED || self.g(
                s,
                b,
            ) < n
        &&& forall|b: int| 0 <= b < 128 ==> (#[trigger] self.g(0, b)) != UNDEFINED
        &&& self.fail@[0] == 0
        &&& self.depth@[0] == 0
        &&& forall|s: int| 1 <= s < n ==> (#[trigger] self.fail@[s]) < n
        &&& forall|s: int|
            1 <= s < n ==> self.depth@[(#[trigger] self.fail@[s]) as int] < self.depth@[s]
    }

    /// The trie accepts either case of every alphabetic byte along a pattern
    /// edge: the two case columns of the table are identical.
    pub open spec fn case_symmetric(self) -> bool {
        forall|s: int, b: u8|
            0 <= s < self.states() && b < 128 && is_alpha(b) ==> #[trigger] self.g(s, b as int)
                == self.g(s, swap_case(b) as int)
    }

    /// Every root transition that no pattern's first byte (in either case)
    /// claims is a self-loop: unmatched bytes at the root stay at the root.
    pub open spec fn root_self_loops(self) -> bool {
        forall|b: u8|
            b < 128 && (#[trigger] self.g(0, b as int)) != 0 ==> starts_pattern(self.pats(), b)
    }

    /// The failure closure of the output sets: whatever is reported at a
    /// state's non-root failure target is reported at the state itself, so
    /// matches inherited along failure chains are never lost.
    pub open spec fn out_closed(self) -> bool {
        forall|s: int|
            1 <= s < self.states() && (#[trigger] self.fail@[s]) != 0 ==> self.out_set(
                self.fail@[s] as int,
            ).subset_of(self.out_set(s))
    }

    /// The state reached from `s` by following failure links until byte `b`
    /// has a defined transition.  Terminates because failure links strictly
    /// decrease the depth and the root row is fully defined.
    pub open spec fn chase(self, s: int, b: int) -> int
        recommends
            self.wf(),
            0 <= s < self.states(),
            0 <= b < 128,
        decreases self.depth@[s],
            when self.wf() && 0 <= s < self.states() && 0 <= b < 128
    {
        if self.g(s, b) != UNDEFINED {
            s
        } else {
            self.chase(self.fail@[s] as int, b)
        }
    }

    /// One scan step from state `s` on raw input byte `b`: clamp the byte,
    /// chase failures until the transition is defined, then take it.
    pub open spec fn step(self, s: int, b: u8) -> int
        recommends
            self.wf(),
            0 <= s < self.states(),
    {
        self.g(self.chase(s, norm(b) as int), norm(b) as int) as int
    }

    /// The state reached from `s` after scanning `input` byte by byte.
    pub open spec fn run(self, s: int, input: Seq<u8>) -> int
        recommends
            self.wf(),
            0 <= s < self.states(),
        decreases input.len(),
    {
        if input.len() == 0 {
            s
        } else {
            self.step(self.run(s, input.drop_last()), input.last())
        }
    }

    /// Every pattern index reported while scanning `input` from state `s`:
    /// the union, over each scanned byte, of the output set of the state
    /// reached there.
    pub open spec fn matched(self, s: int, input: Seq<u8>) -> Set<usize>
        recommends
            self.wf(),
            0 <= s < self.states(),
        decreases input.len(),
    {
        if input.len() == 0 {
            Set::empty()
        } else {
            self.matched(s, input.drop_last()).union(self.out_set(self.run(s, input)))
        }
    }

    /// How many bytes an early-exit scan consumes: it stops right after the
    /// first byte whose reached state reports a match, or consumes the whole
    /// input if no byte does.
    pub open spec fn scan_len(self, s: int, input: Seq<u8>) -> int
        recommends
            self.wf(),
            0 <= s < self.states(),
        decreases input.len(),
    {
        if input.len() == 0 {
            0
        } else {
            let s1 = self.step(s, input[0]);
            if self.out_nonempty(s1) {
                1
            } else {
                1 + self.scan_len(s1, input.skip(1))
            }
        }
    }

    /// How many bytes a scan consumes in each mode: all of them, or up to the
    /// first match when `first` is set.
    pub open spec fn scan_extent(self, s: int, input: Seq<u8>, first: bool) -> int {
        if first {
            self.scan_len(s, input)
        } else {
            input.len() as int
        }
    }

    /// Whether the exact byte string `w` runs from state `s` along defined
    /// transitions only (no failure link taken).
    pub open spec fn path_defined(self, s: int, w: Seq<u8>) -> bool
        decreases w.len(),
    {
        w.len() == 0 || (self.g(s, w[0] as int) != UNDEFINED && self.path_defined(
            self.g(s, w[0] as int) as int,
            w.skip(1),
        ))
    }

    /// The state where the defined path spelled by `w` ends.
    pub open spec fn path_end(self, s: int, w: Seq<u8>) -> int
        recommends
            self.path_defined(s, w),
        decreases w.len(),
    {
        if w.len() == 0 {
            s
        } else {
            self.path_end(self.g(s, w[0] as int) as int, w.skip(1))
        }
    }

    /// What the trie pass establishes: every pattern's exact bytes run along
    /// defined transitions from the root, and the pattern's index sits in the
    /// output set of the state where they end.
    pub open spec fn patterns_in_trie(self) -> bool {
        self.trie_has_patterns(self.pats().len() as int)
    }

    /// Allocates the tables for `max_states + 1` states, every transition
    /// undefined, every failure link at the root, every output set empty.
    pub fn new(max_states: u16, patterns: Vec<Vec<u8>>) -> (r: Automaton)
        ensures
            r.patterns == patterns,
            r.max_states == max_states,
            r.states() == max_states as int + 1,
            r.goto@.len() == r.states() * 128,
            r.out@.len() == r.states(),
            r.depth@.len() == r.states(),
            forall|s: int, b: int|
                0 <= s < r.states() && 0 <= b < 128 ==> (#[trigger] r.g(s, b)) == UNDEFINED,
            forall|s: int| 0 <= s < r.states() ==> (#[trigger] r.fail@[s]) == 0,
            forall|s: int| 0 <= s < r.states() ==> (#[trigger] r.out@[s])@.len() == 0,
            r.depth@[0] == 0,
            forall|s: int| 1 <= s < r.states() ==> (#[trigger] r.depth@[s]) == 1,
    {
        let rows: usize = max_states as usize + 1;
        let total: usize = rows * MAX_CHARS;
        let mut goto: Vec<u16> = Vec::new();
        let mut i: usize = 0;
        while i < total
            invariant
                i <= total,
                goto@.len() == i,
                forall|j: int| 0 <= j < i ==> goto@[j] == UNDEFINED,
            decreases total - i,
        {
            goto.push(UNDEFINED);
            i = i + 1;
        }
        let mut fail: Vec<u16> = Vec::new();
        let mut out: Vec<Vec<usize>> = Vec::new();
        let mut s: usize = 0;
        while s < rows
            invariant
                s <= rows,
                fail@.len() == s,
                out@.len() == s,
                forall|j: int| 0 <= j < s ==> (#[trigger] fail@[j]) == 0,
                forall|j: int| 0 <= j < s ==> (#[trigger] out@[j])@.len() == 0,
            decreases rows - s,
        {
            fail.push(0);
            out.push(Vec::new());
            s = s + 1;
        }
        let r = Automaton {
            patterns,
            max_states,
            goto,
            fail,
            out,
            depth: Ghost(Seq::new(rows as nat, |i: int| if i == 0 { 0nat } else { 1nat })),
        };
        assert forall|s: int, b: int|
            0 <= s < r.states() && 0 <= b < 128 implies (#[trigger] r.g(s, b)) == UNDEFINED by {
            assert(0 <= s * 128 + b < r.states() * 128) by (nonlinear_arith)
                requires
                    0 <= s < r.states(),
                    0 <= b < 128,
            ;
        }
        r
    }

    /// Table shape that every construction phase keeps: the row counts, and
    /// a depth for each state with the root at zero.
    pub open spec fn build_frame(self, n: int) -> bool {
        &&& self.states() == n
        &&& 1 <= n <= 65534
        &&& self.max_states as int + 1 == n
        &&& self.goto@.len() == n * 128
        &&& self.out@.len() == n
        &&& self.depth@.len() == n
        &&& self.depth@[0] == 0
        &&& forall|s: int| 1 <= s < n ==> (#[trigger] self.depth@[s]) >= 1
    }

    /// Every defined transition targets a state in range.
    pub open spec fn targets_bounded(self) -> bool {
        forall|s: int, b: int|
            0 <= s < self.states() && 0 <= b < 128 ==> (#[trigger] self.g(s, b)) == UNDEFINED
                || self.g(s, b) < self.states()
    }

    /// Every defined transition into a non-root state goes one level deeper.
    pub open spec fn edges_deepen(self) -> bool {
        forall|s: int, b: int|
            0 <= s < self.states() && 0 <= b < 128 && (#[trigger] self.g(s, b)) != UNDEFINED
                && self.g(s, b) != 0 ==> self.depth@[self.g(s, b) as int] == self.depth@[s] + 1
    }

    /// Every failure link lands in range on a strictly shallower state.
    pub open spec fn fails_shallower(self) -> bool {
        forall|s: int|
            1 <= s < self.states() ==> (#[trigger] self.fail@[s]) < self.states()
                && self.depth@[self.fail@[s] as int] < self.depth@[s]
    }

    /// Invariant of the trie pass, with `sc` states allocated so far: defined
    /// transitions target allocated non-root states, unallocated rows are
    /// untouched, depths follow edges, failure links are still unset, and the
    /// case columns stay identical.
    pub open spec fn trie_inv(self, n: int, sc: int) -> bool {
        &&& self.build_frame(n)
        &&& 1 <= sc <= n
        &&& forall|s: int, b: int|
            0 <= s < n && 0 <= b < 128 ==> (#[trigger] self.g(s, b)) == UNDEFINED || (1 <= self.g(
                s,
                b,
            ) < sc)
        &&& forall|s: int, b: int|
            sc <= s < n && 0 <= b < 128 ==> (#[trigger] self.g(s, b)) == UNDEFINED
        &&& self.edges_deepen()
        &&& forall|s: int| 0 <= s < n ==> (#[trigger] self.fail@[s]) == 0
        &&& self.case_symmetric()
        &&& forall|b: u8|
            b < 128 && (#[trigger] self.g(0, b as int)) != UNDEFINED ==> starts_pattern(
                self.pats(),
                b,
            )
    }

    /// Invariant of the failure-resolution pass: the automaton is already
    /// well formed apart from where the failure links point, the case
    /// columns stay identical, and every pattern keeps its trie path.
    pub open spec fn bfs_inv(self, n: int) -> bool {
        &&& self.build_frame(n)
        &&& forall|b: int|
            0 <= b < 128 ==> (#[trigger] self.g(0, b)) != UNDEFINED && self.g(0, b) < n
        &&& forall|s: int, b: int|
            1 <= s < n && 0 <= b < 128 ==> (#[trigger] self.g(s, b)) == UNDEFINED || (1 <= self.g(
                s,
                b,
            ) < n)
        &&& self.edges_deepen()
        &&& self.fail@[0] == 0
        &&& self.fails_shallower()
        &&& self.case_symmetric()
        &&& self.root_self_loops()
        &&& all_ascii(self.pats())
        &&& self.patterns_in_trie()
    }

    /// One table extends another when it keeps every defined transition and
    /// only adds to the output sets.
    pub open spec fn extends(self, prev: Automaton) -> bool {
        &&& self.states() == prev.states()
        &&& forall|s: int, b: int|
            0 <= s < prev.states() && 0 <= b < 128 && (#[trigger] prev.g(s, b)) != UNDEFINED
                ==> self.g(s, b) == prev.g(s, b)
        &&& forall|s: int|
            0 <= s < prev.states() ==> (#[trigger] prev.out_set(s)).subset_of(self.out_set(s))
    }

    /// When every defined transition targets a non-root state, a non-empty
    /// defined path never ends at the root.
    pub proof fn lemma_path_end_positive(self, s: int, w: Seq<u8>)
        requires
            forall|s2: int, b2: int|
                0 <= s2 < self.states() && 0 <= b2 < 128 ==> (#[trigger] self.g(s2, b2))
                    == UNDEFINED || 1 <= self.g(s2, b2) < self.states(),
            self.path_defined(s, w),
            ascii_seq(w),
            0 <= s < self.states(),
            w.len() > 0,
        ensures
            1 <= self.path_end(s, w),
        decreases w.len(),
    {
        let t = self.g(s, w[0] as int) as int;
        if w.len() == 1 {
            assert(w.skip(1).len() == 0);
            assert(self.path_end(t, w.skip(1)) == t);
            assert(self.path_end(s, w) == t);
        } else {
            assert(forall|i: int| 0 <= i < w.skip(1).len() ==> #[trigger] w.skip(1)[i] == w[i + 1]);
            self.lemma_path_end_positive(t, w.skip(1));
        }
    }

    /// Walking a defined path stays in range.
    pub proof fn lemma_path_in_range(self, s: int, w: Seq<u8>)
        requires
            self.targets_bounded(),
            self.path_defined(s, w),
            ascii_seq(w),
            0 <= s < self.states(),
        ensures
            0 <= self.path_end(s, w) < self.states(),
        decreases w.len(),
    {
        if w.len() > 0 {
            assert(forall|i: int| 0 <= i < w.skip(1).len() ==> #[trigger] w.skip(1)[i] == w[i + 1]);
            self.lemma_path_in_range(self.g(s, w[0] as int) as int, w.skip(1));
        }
    }

    /// A defined path survives, unchanged, in any extension of the table.
    pub proof fn lemma_extends_path(self, prev: Automaton, s: int, w: Seq<u8>)
        requires
            self.extends(prev),
            prev.targets_bounded(),
            prev.path_defined(s, w),
            ascii_seq(w),
            0 <= s < prev.states(),
        ensures
            self.path_defined(s, w),
            self.path_end(s, w) == prev.path_end(s, w),
        decreases w.len(),
    {
        if w.len() > 0 {
            assert(forall|i: int| 0 <= i < w.skip(1).len() ==> #[trigger] w.skip(1)[i] == w[i + 1]);
            self.lemma_extends_path(prev, prev.g(s, w[0] as int) as int, w.skip(1));
        }
    }

    /// The first `upto` patterns keep their trie paths and their recorded
    /// indices in any extension of the table.
    pub proof fn lemma_extends_patterns(self, prev: Automaton, upto: int)
        requires
            self.extends(prev),
            prev.targets_bounded(),
            prev.trie_has_patterns(upto),
            self.pats() == prev.pats(),
            all_ascii(prev.pats()),
            0 <= upto <= prev.pats().len(),
            prev.states() >= 1,
        ensures
            self.trie_has_patterns(upto),
    {
        assert forall|k: int| 0 <= k < upto implies self.path_defined(
            0,
            #[trigger] self.pats()[k],
        ) && self.out_set(self.path_end(0, self.pats()[k])).contains(k as usize) by {
            self.lemma_extends_path(prev, 0, prev.pats()[k]);
            prev.lemma_path_in_range(0, prev.pats()[k]);
        }
    }

    /// Extending a defined path by one defined transition.
    pub proof fn lemma_path_snoc(self, s: int, w: Seq<u8>, b: u8)
        requires
            self.path_defined(s, w),
            self.g(self.path_end(s, w), b as int) != UNDEFINED,
        ensures
            self.path_defined(s, w.push(b)),
            self.path_end(s, w.push(b)) == self.g(self.path_end(s, w), b as int),
        decreases w.len(),
    {
        let w1 = w.push(b);
        if w.len() == 0 {
            assert(w1.len() == 1);
            assert(w1[0] == b);
            assert(self.path_end(s, w) == s);
            assert(w1.skip(1).len() == 0);
            assert(self.path_defined(self.g(s, w1[0] as int) as int, w1.skip(1)));
            assert(self.path_defined(s, w1));
            assert(self.path_end(s, w1) == self.path_end(
                self.g(s, w1[0] as int) as int,
                w1.skip(1),
            ));
        } else {
            assert(w1[0] == w[0]);
            assert(w1.skip(1) =~= w.skip(1).push(b));
            let t = self.g(s, w[0] as int) as int;
            assert(self.path_defined(t, w.skip(1)));
            assert(self.path_end(s, w) == self.path_end(t, w.skip(1)));
            self.lemma_path_snoc(t, w.skip(1), b);
            assert(self.path_defined(t, w1.skip(1)));
            assert(self.path_defined(s, w1));
            assert(self.path_end(s, w1) == self.path_end(t, w1.skip(1)));
        }
    }

    /// The first `upto` patterns run from the root along defined transitions
    /// and are recorded in the output set where they end.
    pub open spec fn trie_has_patterns(self, upto: int) -> bool {
        forall|k: int|
            0 <= k < upto ==> self.path_defined(0, #[trigger] self.pats()[k]) && self.out_set(
                self.path_end(0, self.pats()[k]),
            ).contains(k as usize)
    }

    /// The chased state is in range and has a defined transition for `b`.
    pub proof fn lemma_chase_ok(self, s: int, b: int)
        requires
            self.wf(),
            0 <= s < self.states(),
            0 <= b < 128,
        ensures
            0 <= self.chase(s, b) < self.states(),
            self.g(self.chase(s, b), b) != UNDEFINED,
        decreases self.depth@[s],
    {
        if self.g(s, b) == UNDEFINED {
            if s == 0 {
                assert(self.g(0, b) != UNDEFINED);
            }
            self.lemma_chase_ok(self.fail@[s] as int, b);
        }
    }

    /// A scan step lands on a valid state.
    pub proof fn lemma_step_in_range(self, s: int, b: u8)
        requires
            self.wf(),
            0 <= s < self.states(),
        ensures
            0 <= self.step(s, b) < self.states(),
    {
        self.lemma_chase_ok(s, norm(b) as int);
    }

    /// A whole scan lands on a valid state.
    pub proof fn lemma_run_in_range(self, s: int, input: Seq<u8>)
        requires
            self.wf(),
            0 <= s < self.states(),
        ensures
            0 <= self.run(s, input) < self.states(),
        decreases input.len(),
    {
        if input.len() > 0 {
            self.lemma_run_in_range(s, input.drop_last());
            self.lemma_step_in_range(self.run(s, input.drop_last()), input.last());
        }
    }

    /// Streaming law: feeding a buffer in two chunks to one cursor reaches
    /// the same state, and reports the same union of matches, as feeding the
    /// whole buffer at once.
    pub proof fn lemma_streaming_split(self, s: int, a: Seq<u8>, b: Seq<u8>)
        requires
            self.wf(),
            0 <= s < self.states(),
        ensures
            self.run(s, a + b) == self.run(self.run(s, a), b),
            self.matched(s, a + b) == self.matched(s, a).union(self.matched(self.run(s, a), b)),
        decreases b.len(),
    {
        if b.len() == 0 {
            assert(a + b =~= a);
            assert(self.matched(s, a).union(self.matched(self.run(s, a), b)) =~= self.matched(
                s,
                a,
            ));
        } else {
            assert((a + b).drop_last() =~= a + b.drop_last());
            assert((a + b).last() == b.last());
            self.lemma_streaming_split(s, a, b.drop_last());
            assert(self.run(s, a + b) == self.run(self.run(s, a), b));
            assert(self.matched(s, a + b) =~= self.matched(s, a).union(
                self.matched(self.run(s, a), b),
            ));
        }
    }

    /// Scanning a prefix of length `l >= 1` equals one step on the first byte
    /// followed by a scan of the rest.
    pub proof fn lemma_run_shift(self, s: int, input: Seq<u8>, l: int)
        requires
            self.wf(),
            0 <= s < self.states(),
            1 <= l <= input.len(),
        ensures
            self.run(s, input.take(l)) == self.run(
                self.step(s, input[0]),
                input.skip(1).take(l - 1),
            ),
    {
        let a = input.take(1);
        let rest = input.skip(1).take(l - 1);
        assert(input.take(l) =~= a + rest);
        self.lemma_streaming_split(s, a, rest);
        assert(a.drop_last().len() == 0);
        assert(self.run(s, a.drop_last()) == s);
        assert(a.last() == input[0]);
        assert(self.run(s, a) == self.step(s, input[0]));
    }

    /// Where an early-exit scan stops, given the position of the first match:
    /// right after it, or at the end of the input if no byte matches.
    pub proof fn lemma_scan_len_stop(self, s: int, input: Seq<u8>, i: int)
        requires
            self.wf(),
            0 <= s < self.states(),
            0 <= i <= input.len(),
            forall|l: int|
                1 <= l <= i ==> !self.out_nonempty(#[trigger] self.run(s, input.take(l))),
            i < input.len() ==> self.out_nonempty(self.run(s, input.take(i + 1))),
        ensures
            self.scan_len(s, input) == if i < input.len() {
                i + 1
            } else {
                i
            },
        decreases input.len(),
    {
        if input.len() > 0 {
            let s1 = self.step(s, input[0]);
            self.lemma_step_in_range(s, input[0]);
            assert(input.take(1).drop_last().len() == 0);
            assert(self.run(s, input.take(1).drop_last()) == s);
            assert(input.take(1).last() == input[0]);
            assert(self.run(s, input.take(1)) == s1);
            if self.out_nonempty(s1) {
                if i >= 1 {
                    assert(!self.out_nonempty(self.run(s, input.take(1))));
                    assert(false);
                }
            } else {
                if i == 0 {
                    assert(self.out_nonempty(self.run(s, input.take(1))));
                    assert(false);
                }
                let rest = input.skip(1);
                assert forall|l: int|
                    1 <= l <= i - 1 implies !self.out_nonempty(
                    #[trigger] self.run(s1, rest.take(l)),
                ) by {
                    self.lemma_run_shift(s, input, l + 1);
                    assert(!self.out_nonempty(self.run(s, input.take(l + 1))));
                }
                if i - 1 < rest.len() {
                    self.lemma_run_shift(s, input, i + 1);
                }
                self.lemma_scan_len_stop(s1, rest, i - 1);
            }
        }
    }

    /// Along a path of defined transitions no failure link is ever taken, so
    /// a scan follows the path exactly.
    pub proof fn lemma_path_run(self, s: int, w: Seq<u8>)
        requires
            self.wf(),
            self.path_defined(s, w),
            ascii_seq(w),
            0 <= s < self.states(),
        ensures
            self.run(s, w) == self.path_end(s, w),
        decreases w.len(),
    {
        if w.len() > 0 {
            let b = w[0];
            let t = self.g(s, b as int) as int;
            self.lemma_run_shift(s, w, w.len() as int);
            assert(w.take(w.len() as int) =~= w);
            assert(w.skip(1).take(w.len() as int - 1) =~= w.skip(1));
            assert(norm(b) == b);
            assert(self.chase(s, b as int) == s);
            assert(self.step(s, b) == t);
            assert(forall|i: int| 0 <= i < w.skip(1).len() ==> #[trigger] w.skip(1)[i] == w[i + 1]);
            self.lemma_path_run(t, w.skip(1));
            assert(self.run(s, w) == self.run(t, w.skip(1)));
        }
    }

    /// What construction guarantees for every non-empty pattern: scanning
    /// the pattern's exact bytes from a fresh cursor at the root reports the
    /// pattern's own index.
    pub proof fn lemma_pattern_found(self, k: int)
        requires
            self.wf(),
            self.patterns_in_trie(),
            all_ascii(self.pats()),
            0 <= k < self.pats().len(),
            self.pats()[k].len() > 0,
        ensures
            self.matched(0, self.pats()[k]).contains(k as usize),
    {
        let w = self.pats()[k];
        self.lemma_path_run(0, w);
        assert(self.out_set(self.run(0, w)).contains(k as usize));
        assert(self.matched(0, w) == self.matched(0, w.drop_last()).union(
            self.out_set(self.run(0, w)),
        ));
    }

    /// Chasing failure links treats the two cases of an alphabetic byte the
    /// same, because the two case columns are identical.
    pub proof fn lemma_chase_case(self, s: int, b: u8)
        requires
            self.wf(),
            self.case_symmetric(),
            0 <= s < self.states(),
            b < 128,
            is_alpha(b),
        ensures
            self.chase(s, b as int) == self.chase(s, swap_case(b) as int),
        decreases self.depth@[s],
    {
        assert(self.g(s, b as int) == self.g(s, swap_case(b) as int));
        if self.g(s, b as int) == UNDEFINED {
            if s == 0 {
                assert(self.g(0, b as int) != UNDEFINED);
            }
            self.lemma_chase_case(self.fail@[s] as int, b);
        }
    }

    /// One scan step treats two bytes that are equal up to ASCII case the
    /// same.
    pub proof fn lemma_step_case(self, s: int, x: u8, y: u8)
        requires
            self.wf(),
            self.case_symmetric(),
            0 <= s < self.states(),
            eq_mod_case(x, y),
        ensures
            self.step(s, x) == self.step(s, y),
    {
        if y != x {
            assert(is_alpha(x) && x < 128 && y == swap_case(x) && y < 128);
            assert(norm(x) == x && norm(y) == y);
            self.lemma_chase_case(s, x);
            self.lemma_chase_ok(s, x as int);
            assert(self.g(self.chase(s, x as int), x as int) == self.g(
                self.chase(s, x as int),
                swap_case(x) as int,
            ));
        }
    }

    /// Case-insensitivity law: scanning any case-variant of a buffer reaches
    /// the same state and reports the same pattern indices as scanning the
    /// buffer itself.
    pub proof fn lemma_case_insensitive(self, s: int, u: Seq<u8>, v: Seq<u8>)
        requires
            self.wf(),
            self.case_symmetric(),
            0 <= s < self.states(),
            case_variant(u, v),
        ensures
            self.run(s, u) == self.run(s, v),
            self.matched(s, u) == self.matched(s, v),
        decreases u.len(),
    {
        if u.len() > 0 {
            assert forall|i: int| 0 <= i < u.drop_last().len() implies eq_mod_case(
                #[trigger] u.drop_last()[i],
                v.drop_last()[i],
            ) by {
                assert(eq_mod_case(u[i], v[i]));
            }
            self.lemma_case_insensitive(s, u.drop_last(), v.drop_last());
            self.lemma_run_in_range(s, u.drop_last());
            assert(eq_mod_case(u.last(), v.last()));
            self.lemma_step_case(self.run(s, u.drop_last()), u.last(), v.last());
        }
    }

    /// Every index the automaton can ever report is the identity of one of
    /// its patterns.
    pub open spec fn out_bounded(self) -> bool {
        forall|s: int, u: usize|
            0 <= s < self.states() && (#[trigger] self.out_set(s).contains(u)) ==> (u as int)
                < self.pats().len()
    }

    /// Every index a scan reports names one of the automaton's patterns.
    pub proof fn lemma_matched_bounded(self, s: int, input: Seq<u8>, u: usize)
        requires
            self.wf(),
            self.out_bounded(),
            0 <= s < self.states(),
            self.matched(s, input).contains(u),
        ensures
            (u as int) < self.pats().len(),
        decreases input.len(),
    {
        if input.len() > 0 {
            if self.matched(s, input.drop_last()).contains(u) {
                self.lemma_matched_bounded(s, input.drop_last(), u);
            } else {
                self.lemma_run_in_range(s, input);
                assert(self.out_set(self.run(s, input)).contains(u));
            }
        }
    }

    /// The state reached after `k` failure steps from `s`.
    pub open spec fn fail_iter(self, s: int, k: nat) -> int
        recommends
            self.wf(),
            0 <= s < self.states(),
        decreases k,
    {
        if k == 0 {
            s
        } else {
            self.fail_iter(self.fail@[s] as int, (k - 1) as nat)
        }
    }

    /// Whether the first `k` failure steps from `s` all land on non-root
    /// states.
    pub open spec fn chain_off_root(self, s: int, k: nat) -> bool
        recommends
            self.wf(),
            0 <= s < self.states(),
        decreases k,
    {
        k == 0 || (self.fail@[s] != 0 && self.chain_off_root(
            self.fail@[s] as int,
            (k - 1) as nat,
        ))
    }

    /// Output-closure law along failure chains: a state reports every match
    /// that any of its failure ancestors reports, as long as the chain to
    /// that ancestor does not pass the root.
    pub proof fn lemma_failure_chain_outputs(self, s: int, k: nat)
        requires
            self.wf(),
            self.out_closed(),
            1 <= s < self.states(),
            self.chain_off_root(s, k),
        ensures
            self.out_set(self.fail_iter(s, k)).subset_of(self.out_set(s)),
        decreases k,
    {
        if k == 0 {
            assert(self.out_set(s).subset_of(self.out_set(s)));
        } else {
            let f = self.fail@[s] as int;
            self.lemma_failure_chain_outputs(f, (k - 1) as nat);
        }
    }

    /// A state's output set is empty exactly when no pattern ends there.
    pub proof fn lemma_out_set_empty_iff(self, t: int)
        requires
            self.wf(),
            0 <= t < self.states(),
        ensures
            self.out_set(t).is_empty() <==> !self.out_nonempty(t),
    {
        let row = self.out@[t]@;
        if row.len() > 0 {
            assert(row.contains(row[0]));
            assert(self.out_set(t).contains(row[0]));
        } else {
            assert(self.out_set(t) =~= Set::<usize>::empty());
        }
    }

    /// A scan reports nothing exactly when no scanned byte lands on a state
    /// with a non-empty output set.
    pub proof fn lemma_matched_empty_iff(self, s: int, input: Seq<u8>)
        requires
            self.wf(),
            0 <= s < self.states(),
        ensures
            self.matched(s, input).is_empty() <==> (forall|l: int|
                1 <= l <= input.len() ==> !self.out_nonempty(
                    #[trigger] self.run(s, input.take(l)),
                )),
        decreases input.len(),
    {
        if input.len() > 0 {
            let d = input.drop_last();
            let len = input.len() as int;
            self.lemma_matched_empty_iff(s, d);
            self.lemma_run_in_range(s, input);
            self.lemma_out_set_empty_iff(self.run(s, input));
            assert(input.take(len) =~= input);
            assert forall|l: int| 1 <= l <= d.len() implies #[trigger] d.take(l) == input.take(
                l,
            ) by {
                assert(d.take(l) =~= input.take(l));
            }
            if self.matched(s, input).is_empty() {
                assert(self.matched(s, d).is_empty());
                assert(self.out_set(self.run(s, input)).is_empty());
                assert forall|l: int|
                    1 <= l <= input.len() implies !self.out_nonempty(
                    #[trigger] self.run(s, input.take(l)),
                ) by {
                    if l <= d.len() {
                        assert(!self.out_nonempty(self.run(s, d.take(l))));
                    }
                }
            }
            if forall|l: int|
                1 <= l <= input.len() ==> !self.out_nonempty(
                    #[trigger] self.run(s, input.take(l)),
                ) {
                assert forall|l: int|
                    1 <= l <= d.len() implies !self.out_nonempty(
                    #[trigger] self.run(s, d.take(l)),
                ) by {
                    assert(!self.out_nonempty(self.run(s, input.take(l))));
                }
                assert(self.matched(s, d).is_empty());
                assert(!self.out_nonempty(self.run(s, input.take(len))));
                assert(self.matched(s, input) =~= Set::<usize>::empty());
            }
        }
    }

    /// Basic facts about where an early-exit scan stops: never past the
    /// input, never past the first match, and on a match if it stops early.
    pub proof fn lemma_scan_len_props(self, s: int, input: Seq<u8>)
        requires
            self.wf(),
            0 <= s < self.states(),
        ensures
            0 <= self.scan_len(s, input) <= input.len(),
            input.len() > 0 ==> self.scan_len(s, input) >= 1,
            forall|l: int|
                1 <= l < self.scan_len(s, input) ==> !self.out_nonempty(
                    #[trigger] self.run(s, input.take(l)),
                ),
            self.scan_len(s, input) < input.len() ==> self.out_nonempty(
                self.run(s, input.take(self.scan_len(s, input))),
            ),
        decreases input.len(),
    {
        if input.len() > 0 {
            let s1 = self.step(s, input[0]);
            self.lemma_step_in_range(s, input[0]);
            assert(input.take(1).drop_last().len() == 0);
            assert(self.run(s, input.take(1).drop_last()) == s);
            assert(input.take(1).last() == input[0]);
            assert(self.run(s, input.take(1)) == s1);
            if !self.out_nonempty(s1) {
                let rest = input.skip(1);
                let sub = self.scan_len(s1, rest);
                self.lemma_scan_len_props(s1, rest);
                assert forall|l: int|
                    1 <= l < self.scan_len(s, input) implies !self.out_nonempty(
                    #[trigger] self.run(s, input.take(l)),
                ) by {
                    if l >= 2 {
                        self.lemma_run_shift(s, input, l);
                    }
                }
                if self.scan_len(s, input) < input.len() {
                    self.lemma_run_shift(s, input, sub + 1);
                    assert(self.out_nonempty(self.run(s1, rest.take(sub))));
                }
            }
        }
    }

    /// In early-exit mode, the part of the input the scan consumes reports
    /// something exactly when the whole input would.
    pub proof fn lemma_first_match_empty(self, s: int, input: Seq<u8>)
        requires
            self.wf(),
            0 <= s < self.states(),
        ensures
            self.matched(s, input.take(self.scan_len(s, input))).is_empty()
                <==> self.matched(s, input).is_empty(),
    {
        let len = input.len() as int;
        let stop = self.scan_len(s, input);
        self.lemma_scan_len_props(s, input);
        if stop == len {
            assert(input.take(stop) =~= input);
        } else {
            self.lemma_matched_empty_iff(s, input);
            self.lemma_matched_empty_iff(s, input.take(stop));
            assert(stop >= 1);
            assert(input.take(stop).take(stop) =~= input.take(stop));
            assert(self.out_nonempty(self.run(s, input.take(stop))));
            assert(self.out_nonempty(self.run(s, input.take(stop).take(stop))));
            assert(!self.matched(s, input.take(stop)).is_empty());
            assert(!self.matched(s, input).is_empty());
        }
    }

    /// Scans a chunk of bytes, advancing the cursor and returning every
    /// pattern index discovered.  In early-exit mode the scan stops right
    /// after the first byte that reports a match; otherwise the whole chunk
    /// is consumed.  Input bytes outside the table's alphabet are clamped to
    /// 0, exactly as `norm` says; scanning never fails.
    #[verifier::loop_isolation(false)]
    pub fn execute(&self, ctx: &mut Context, bytes: &[u8]) -> (found: HashSet<usize>)
        requires
            self.wf(),
            (old(ctx).state as int) < self.states(),
        ensures
            final(ctx).return_on_first_match == old(ctx).return_on_first_match,
            (final(ctx).state as int) < self.states(),
            ({
                let stop = self.scan_extent(
                    old(ctx).state as int,
                    bytes@,
                    old(ctx).return_on_first_match,
                );
                &&& found@ == self.matched(old(ctx).state as int, bytes@.take(stop))
                &&& final(ctx).state as int == self.run(old(ctx).state as int, bytes@.take(stop))
            }),
    {
        let ghost s0: int = ctx.state as int;
        let ghost inp: Seq<u8> = bytes@;
        let first: bool = ctx.return_on_first_match;
        let mut found: HashSet<usize> = HashSet::new();
        let n: usize = self.fail.len();
        let mut i: usize = 0;
        proof {
            assert(inp.take(0).len() == 0);
        }
        while i < bytes.len()
            invariant
                self.wf(),
                0 <= s0 < self.states(),
                n == self.states(),
                inp == bytes@,
                i <= bytes@.len(),
                ctx.return_on_first_match == first,
                (ctx.state as int) < self.states(),
                ctx.state as int == self.run(s0, inp.take(i as int)),
                found@ == self.matched(s0, inp.take(i as int)),
                first ==> forall|l: int|
                    1 <= l <= i ==> !self.out_nonempty(#[trigger] self.run(s0, inp.take(l))),
            decreases bytes@.len() - i,
        {
            let b0: u8 = bytes[i];
            let byte: u8 = if b0 >= MAX_CHARS as u8 {
                0
            } else {
                b0
            };
            let ghost entry: int = ctx.state as int;
            let mut next: u16 = ctx.state;
            while self.goto[(next as usize) * 128 + (byte as usize)] == UNDEFINED
                invariant
                    self.wf(),
                    n == self.states(),
                    (next as int) < self.states(),
                    0 <= byte < 128,
                    self.chase(next as int, byte as int) == self.chase(entry, byte as int),
                decreases self.depth@[next as int],
            {
                proof {
                    if next == 0 {
                        assert(self.g(0, byte as int) != UNDEFINED);
                        assert(false);
                    }
                }
                next = self.fail[next as usize];
            }
            let t: u16 = self.goto[(next as usize) * 128 + (byte as usize)];
            proof {
                assert(t == self.g(next as int, byte as int));
                assert(self.chase(next as int, byte as int) == next as int);
                assert(byte == norm(b0));
                assert(t as int == self.step(entry, b0));
                lemma_take_succ(inp, i as int);
                assert(self.run(s0, inp.take(i as int + 1)) == self.step(
                    self.run(s0, inp.take(i as int)),
                    inp[i as int],
                ));
                assert(t as int == self.run(s0, inp.take(i as int + 1)));
            }
            ctx.state = t;
            let ghost prev_found = found@;
            let st: usize = t as usize;
            let row_len: usize = self.out[st].len();
            proof {
                assert(self.out@[st as int]@.take(0).to_set() =~= Set::<usize>::empty());
                assert(found@ =~= prev_found.union(self.out@[st as int]@.take(0).to_set()));
            }
            let mut k: usize = 0;
            while k < row_len
                invariant
                    self.wf(),
                    n == self.states(),
                    st < n,
                    row_len == self.out@[st as int]@.len(),
                    k <= row_len,
                    found@ == prev_found.union(self.out@[st as int]@.take(k as int).to_set()),
                decreases row_len - k,
            {
                let v: usize = self.out[st][k];
                found.insert(v);
                proof {
                    lemma_to_set_take_succ(self.out@[st as int]@, k as int);
                    assert(found@ =~= prev_found.union(
                        self.out@[st as int]@.take(k as int + 1).to_set(),
                    ));
                }
                k = k + 1;
            }
            proof {
                assert(self.out@[st as int]@.take(row_len as int) =~= self.out@[st as int]@);
                assert(inp.take(i as int + 1).drop_last() == inp.take(i as int));
                assert(self.matched(s0, inp.take(i as int + 1)) == self.matched(
                    s0,
                    inp.take(i as int),
                ).union(self.out_set(t as int)));
                assert(found@ =~= self.matched(s0, inp.take(i as int + 1)));
            }
            if first && row_len > 0 {
                proof {
                    assert(self.out_nonempty(self.run(s0, inp.take(i as int + 1))));
                    self.lemma_scan_len_stop(s0, inp, i as int);
                    assert(self.scan_extent(s0, inp, first) == i as int + 1);
                }
                return found;
            }
            i = i + 1;
        }
        proof {
            if first {
                self.lemma_scan_len_stop(s0, inp, inp.len() as int);
            }
            assert(inp.take(inp.len() as int) =~= inp);
        }
        found
    }
}

/// Total byte length of a pattern set; the trie pass allocates at most one
/// state per pattern byte.
pub open spec fn len_sum(ps: Seq<Seq<u8>>) -> int
    decreases ps.len(),
{
    if ps.len() == 0 {
        0
    } else {
        len_sum(ps.drop_last()) + ps.last().len()
    }
}

/// A pattern set's byte length never exceeds its worst-case weight.
pub proof fn lemma_len_sum_le_weight_sum(ps: Seq<Seq<u8>>)
    ensures
        0 <= len_sum(ps) <= weight_sum(ps),
    decreases ps.len(),
{
    if ps.len() > 0 {
        lemma_len_sum_le_weight_sum(ps.drop_last());
        lemma_alpha_count_bounds(ps.last());
    }
}

/// A prefix of a pattern set weighs no more than the whole set.
pub proof fn lemma_weight_sum_prefix(ps: Seq<Seq<u8>>, k: int)
    requires
        0 <= k <= ps.len(),
    ensures
        weight_sum(ps.take(k)) <= weight_sum(ps),
    decreases ps.len(),
{
    if k == ps.len() {
        assert(ps.take(k) =~= ps);
    } else {
        assert(ps.drop_last().take(k) =~= ps.take(k));
        lemma_weight_sum_prefix(ps.drop_last(), k);
        lemma_alpha_count_bounds(ps.last());
    }
}

/// How many entries of a boolean sequence are set.
pub open spec fn count_true(s: Seq<bool>) -> int
    decreases s.len(),
{
    if s.len() == 0 {
        0
    } else {
        count_true(s.drop_last()) + if s.last() {
            1int
        } else {
            0int
        }
    }
}

pub proof fn lemma_count_true_bound(s: Seq<bool>)
    ensures
        0 <= count_true(s) <= s.len(),
    decreases s.len(),
{
    if s.len() > 0 {
        lemma_count_true_bound(s.drop_last());
    }
}

/// Setting a clear entry raises the count by one.
pub proof fn lemma_count_true_update(s: Seq<bool>, i: int)
    requires
        0 <= i < s.len(),
        !s[i],
    ensures
        count_true(s.update(i, true)) == count_true(s) + 1,
    decreases s.len(),
{
    if i == s.len() - 1 {
        assert(s.update(i, true).drop_last() =~= s.drop_last());
        assert(s.update(i, true).last());
    } else {
        assert(s.update(i, true).drop_last() =~= s.drop_last().update(i, true));
        assert(s.update(i, true).last() == s.last());
        lemma_count_true_update(s.drop_last(), i);
    }
}

/// An executable shadow of the ghost depth table, used to order the output
/// closure sweep: same length, same values, and never deeper than the state
/// id (states are numbered parent before child).
spec fn depth_mirror(a: Automaton, ds: Seq<u16>) -> bool {
    &&& ds.len() == a.states()
    &&& forall|s: int| 0 <= s < a.states() ==> (#[trigger] ds[s]) as nat == a.depth@[s]
    &&& forall|s: int| 0 <= s < a.states() ==> (#[trigger] ds[s]) as int <= s
}

/// The failure-pass invariant does not depend on what the output sets hold,
/// so it carries over to any automaton with the same tables, provided the
/// patterns still have their trie paths.
proof fn lemma_bfs_inv_tables(cur: Automaton, prev: Automaton, n: int)
    requires
        prev.bfs_inv(n),
        cur.goto@ == prev.goto@,
        cur.fail@ == prev.fail@,
        cur.depth@ == prev.depth@,
        cur.out@.len() == prev.out@.len(),
        cur.max_states == prev.max_states,
        cur.patterns@ == prev.patterns@,
        cur.patterns_in_trie(),
    ensures
        cur.bfs_inv(n),
{
    assert forall|b2: int| 0 <= b2 < 128 implies (#[trigger] cur.g(0, b2)) != UNDEFINED && cur.g(
        0,
        b2,
    ) < n by {
        assert(cur.g(0, b2) == prev.g(0, b2));
    }
    assert forall|s2: int, b2: int|
        1 <= s2 < n && 0 <= b2 < 128 implies ((#[trigger] cur.g(s2, b2)) == UNDEFINED || (1
        <= cur.g(s2, b2) && (cur.g(s2, b2) as int) < n)) by {
        assert(cur.g(s2, b2) == prev.g(s2, b2));
    }
    assert forall|s2: int, b2: int|
        0 <= s2 < n && 0 <= b2 < 128 && (#[trigger] cur.g(s2, b2)) != UNDEFINED && cur.g(s2, b2)
            != 0 implies cur.depth@[cur.g(s2, b2) as int] == cur.depth@[s2] + 1 by {
        assert(cur.g(s2, b2) == prev.g(s2, b2));
    }
    assert forall|s2: int, b2: u8|
        0 <= s2 < cur.states() && b2 < 128 && is_alpha(b2) implies #[trigger] cur.g(s2, b2 as int)
        == cur.g(s2, swap_case(b2) as int) by {
        assert(cur.g(s2, b2 as int) == prev.g(s2, b2 as int));
        assert(cur.g(s2, swap_case(b2) as int) == prev.g(s2, swap_case(b2) as int));
    }
    assert forall|b2: u8|
        b2 < 128 && (#[trigger] cur.g(0, b2 as int)) != 0 implies starts_pattern(
        cur.pats(),
        b2,
    ) by {
        assert(cur.g(0, b2 as int) == prev.g(0, b2 as int));
    }
}

/// The trie invariant does not depend on what the output sets hold, so it
/// carries over to any automaton with the same tables.
proof fn lemma_trie_inv_tables(cur: Automaton, prev: Automaton, n: int, sc: int)
    requires
        prev.trie_inv(n, sc),
        cur.goto@ == prev.goto@,
        cur.fail@ == prev.fail@,
        cur.depth@ == prev.depth@,
        cur.out@.len() == prev.out@.len(),
        cur.max_states == prev.max_states,
        cur.patterns@ == prev.patterns@,
    ensures
        cur.trie_inv(n, sc),
{
    assert forall|b2: u8|
        b2 < 128 && (#[trigger] cur.g(0, b2 as int)) != UNDEFINED implies starts_pattern(
        cur.pats(),
        b2,
    ) by {
        assert(cur.g(0, b2 as int) == prev.g(0, b2 as int));
    }
    assert forall|s2: int, b2: int| 0 <= s2 < n && 0 <= b2 < 128 implies ((#[trigger] cur.g(
        s2,
        b2,
    )) == UNDEFINED || (1 <= cur.g(s2, b2) && (cur.g(s2, b2) as int) < sc)) by {
        assert(cur.g(s2, b2) == prev.g(s2, b2));
    }
    assert forall|s2: int, b2: int| sc <= s2 < n && 0 <= b2 < 128 implies (#[trigger] cur.g(
        s2,
        b2,
    )) == UNDEFINED by {
        assert(cur.g(s2, b2) == prev.g(s2, b2));
    }
    assert forall|s2: int, b2: int|
        0 <= s2 < n && 0 <= b2 < 128 && (#[trigger] cur.g(s2, b2)) != UNDEFINED && cur.g(s2, b2)
            != 0 implies cur.depth@[cur.g(s2, b2) as int] == cur.depth@[s2] + 1 by {
        assert(cur.g(s2, b2) == prev.g(s2, b2));
    }
    assert forall|s2: int, b2: u8|
        0 <= s2 < cur.states() && b2 < 128 && is_alpha(b2) implies #[trigger] cur.g(s2, b2 as int)
        == cur.g(s2, swap_case(b2) as int) by {
        assert(cur.g(s2, b2 as int) == prev.g(s2, b2 as int));
        assert(cur.g(s2, swap_case(b2) as int) == prev.g(s2, swap_case(b2) as int));
    }
}

/// Builds the automaton for a pattern set: validates it, lays the patterns
/// into a trie whose alphabetic edges accept either case, rewrites the
/// root's undefined transitions into self-loops, resolves every failure
/// link and output set breadth-first, and settles the output closure in
/// depth order.  On success the automaton is well formed, its case columns
/// are identical, every root byte no pattern opens with self-loops, every
/// pattern's exact bytes run from the root to a state that reports the
/// pattern's index, output sets are closed under failure inheritance, and
/// every reported index names a pattern.
#[verifier::loop_isolation(false)]
#[verifier::rlimit(60)]
pub fn build_automaton(patterns: Vec<Vec<u8>>) -> (r: Result<Rc<Automaton>, BuildError>)
    ensures
        match r {
            Ok(a) => {
                &&& (*a).wf()
                &&& (*a).case_symmetric()
                &&& (*a).root_self_loops()
                &&& (*a).out_closed()
                &&& (*a).out_bounded()
                &&& (*a).patterns_in_trie()
                &&& (*a).patterns@ == patterns@
                &&& all_ascii(views(patterns@))
                &&& state_bound(views(patterns@)) < STATE_SENTINEL
                &&& (*a).states() == state_bound(views(patterns@))
            },
            Err(BuildError::InvalidPattern) => !all_ascii(views(patterns@)),
            Err(BuildError::CapacityExceeded { bound, limit }) => {
                &&& all_ascii(views(patterns@))
                &&& state_bound(views(patterns@)) >= STATE_SENTINEL
                &&& bound as int == capped(state_bound(views(patterns@)))
                &&& limit == STATE_SENTINEL - 1
            },
        },
{
    let ghost ps = views(patterns@);
    let mut auto: Automaton;
    match create_automaton_skeleton(patterns) {
        Err(e) => {
            return Err(e);
        },
        Ok(a) => {
            auto = a;
        },
    }
    let n: usize = auto.fail.len();
    let ghost n_int = n as int;
    let ghost pvec = auto.patterns@;

    // Executable shadow of the ghost depth table; the output-closure sweep
    // at the end runs in its order.
    let mut depths: Vec<u16> = Vec::new();
    let mut z0: usize = 0;
    while z0 < n
        invariant
            z0 <= n,
            depths@.len() == z0,
            forall|s2: int|
                0 <= s2 < z0 ==> (#[trigger] depths@[s2]) == (if s2 == 0 {
                    0u16
                } else {
                    1u16
                }),
        decreases n - z0,
    {
        if z0 == 0 {
            depths.push(0);
        } else {
            depths.push(1);
        }
        z0 = z0 + 1;
    }
    proof {
        assert(depth_mirror(auto, depths@));
    }

    // Trie pass: lay each pattern into the table, allocating a state per new
    // edge and pointing the opposite-case column at the same state.
    let mut state_count: u16 = 1;
    proof {
        assert(auto.trie_inv(n_int, 1));
        assert(len_sum(ps.take(0)) == 0);
        assert forall|s2: int, u: usize|
            0 <= s2 < n_int && #[trigger] auto.out_set(s2).contains(u) implies (u as int)
            < auto.pats().len() by {
            assert(auto.out@[s2]@.len() == 0);
        }
        assert(auto.out_bounded());
    }
    let mut ix: usize = 0;
    while ix < auto.patterns.len()
        invariant
            ix <= pvec.len(),
            auto.patterns@ == pvec,
            auto.trie_inv(n_int, state_count as int),
            auto.trie_has_patterns(ix as int),
            auto.out_bounded(),
            depth_mirror(auto, depths@),
            state_count as int <= 1 + len_sum(ps.take(ix as int)),
        decreases pvec.len() - ix,
    {
        let plen: usize = auto.patterns[ix].len();
        let ghost pk = ps[ix as int];
        let mut state: u16 = 0;
        proof {
            assert(pk.take(0).len() == 0);
            assert(auto.path_defined(0, pk.take(0)));
            assert(auto.path_end(0, pk.take(0)) == 0);
        }
        let mut j: usize = 0;
        while j < plen
            invariant
                j <= plen,
                plen == pk.len(),
                ix < pvec.len(),
                auto.patterns@ == pvec,
                auto.trie_inv(n_int, state_count as int),
                auto.trie_has_patterns(ix as int),
                auto.out_bounded(),
                depth_mirror(auto, depths@),
                auto.path_defined(0, pk.take(j as int)),
                auto.path_end(0, pk.take(j as int)) == state as int,
                (state as int) < state_count as int,
                state_count as int <= 1 + len_sum(ps.take(ix as int)) + j,
            decreases plen - j,
        {
            let ghost prev = auto;
            let ghost dprev = depths@;
            let byte: u8 = auto.patterns[ix][j];
            proof {
                assert(pk[j as int] == byte);
                assert(ascii_seq(ps[ix as int]));
                assert(byte < 128);
            }
            let mut extra: u8 = 0;
            let mut has_extra = false;
            if 97 <= byte && byte <= 122 {
                extra = byte - 32;
                has_extra = true;
            } else if 65 <= byte && byte <= 90 {
                extra = byte + 32;
                has_extra = true;
            }
            proof {
                assert(has_extra == is_alpha(byte));
                if has_extra {
                    assert(extra == swap_case(byte));
                    assert(extra < 128);
                    assert(extra != byte);
                }
            }
            let previous_state: u16 = state;
            let bidx: usize = (state as usize) * 128 + (byte as usize);
            let existing: u16 = auto.goto[bidx];
            if existing == UNDEFINED {
                proof {
                    lemma_take_succ(ps, ix as int);
                    assert(len_sum(ps.take(ix as int + 1)) == len_sum(ps.take(ix as int))
                        + pk.len());
                    lemma_len_sum_le_weight_sum(ps.take(ix as int + 1));
                    lemma_weight_sum_prefix(ps, ix as int + 1);
                    assert(state_count as int <= n_int - 1);
                }
                let fresh: u16 = state_count;
                auto.goto[bidx] = fresh;
                auto.depth = Ghost(
                    auto.depth@.update(
                        fresh as int,
                        (auto.depth@[previous_state as int] + 1) as nat,
                    ),
                );
                depths[fresh as usize] = depths[previous_state as usize] + 1;
                state_count = state_count + 1;
                state = fresh;
                if has_extra {
                    let eidx: usize = (previous_state as usize) * 128 + (extra as usize);
                    proof {
                        assert(prev.g(previous_state as int, extra as int) == prev.g(
                            previous_state as int,
                            byte as int,
                        ));
                        assert(eidx != bidx);
                        assert(auto.goto@[eidx as int] == UNDEFINED);
                    }
                    auto.goto[eidx] = fresh;
                }
                proof {
                    let cur = auto;
                    let scn = state_count as int;
                    let pst = previous_state as int;
                    let bi = pst * 128 + byte as int;
                    let ei: int = if has_extra {
                        pst * 128 + swap_case(byte) as int
                    } else {
                        bi
                    };
                    assert(cur.fail@ == prev.fail@);
                    assert(cur.out@ == prev.out@);
                    assert(cur.depth@ == prev.depth@.update(
                        fresh as int,
                        (prev.depth@[pst] + 1) as nat,
                    ));
                    assert(pst < fresh as int);
                    assert forall|s2: int, b2: int|
                        0 <= s2 < n_int && 0 <= b2 < 128 && !(s2 == pst && (b2 == byte as int || (
                        has_extra && b2 == swap_case(byte) as int))) implies #[trigger] cur.g(
                        s2,
                        b2,
                    ) == prev.g(s2, b2) by {
                        assert(s2 * 128 + b2 != bi);
                        assert(s2 * 128 + b2 != ei);
                    }
                    assert(cur.g(pst, byte as int) == fresh);
                    if has_extra {
                        assert(cur.g(pst, swap_case(byte) as int) == fresh);
                    }
                    // allocated targets stay in range
                    assert forall|s2: int, b2: int|
                        0 <= s2 < n_int && 0 <= b2 < 128 implies ((#[trigger] cur.g(s2, b2))
                            == UNDEFINED || (1 <= cur.g(s2, b2) && (cur.g(s2, b2) as int)
                            < scn)) by {
                        if !(s2 == pst && (b2 == byte as int || (has_extra && b2 == swap_case(
                            byte,
                        ) as int))) {
                            assert(cur.g(s2, b2) == prev.g(s2, b2));
                        }
                    }
                    // untouched rows stay clean
                    assert forall|s2: int, b2: int|
                        scn <= s2 < n_int && 0 <= b2 < 128 implies (#[trigger] cur.g(s2, b2))
                            == UNDEFINED by {
                        assert(cur.g(s2, b2) == prev.g(s2, b2));
                    }
                    // edges still deepen by one
                    assert forall|s2: int, b2: int|
                        0 <= s2 < n_int && 0 <= b2 < 128 && (#[trigger] cur.g(s2, b2))
                            != UNDEFINED && cur.g(s2, b2) != 0 implies cur.depth@[cur.g(
                            s2,
                            b2,
                        ) as int] == cur.depth@[s2] + 1 by {
                        if s2 == pst && (b2 == byte as int || (has_extra && b2 == swap_case(
                            byte,
                        ) as int)) {
                            assert(cur.g(s2, b2) == fresh);
                            assert(cur.depth@[fresh as int] == prev.depth@[pst] + 1);
                            assert(cur.depth@[pst] == prev.depth@[pst]);
                        } else {
                            assert(cur.g(s2, b2) == prev.g(s2, b2));
                            let tt = prev.g(s2, b2) as int;
                            assert(1 <= tt && tt < fresh as int);
                            if s2 == fresh as int {
                                assert(prev.g(s2, b2) == UNDEFINED);
                            }
                            assert(cur.depth@[tt] == prev.depth@[tt]);
                            assert(cur.depth@[s2] == prev.depth@[s2]);
                        }
                    }
                    // the case columns stay identical
                    assert forall|s2: int, b2: u8|
                        0 <= s2 < n_int && b2 < 128 && is_alpha(b2) implies #[trigger] cur.g(
                        s2,
                        b2 as int,
                    ) == cur.g(s2, swap_case(b2) as int) by {
                        assert(swap_case(swap_case(b2)) == b2);
                        assert(is_alpha(swap_case(b2)));
                        assert(swap_case(b2) < 128);
                        if s2 == pst && has_extra && (b2 == byte || b2 == swap_case(byte)) {
                            assert(swap_case(swap_case(byte)) == byte);
                            assert(cur.g(s2, b2 as int) == fresh);
                            assert(cur.g(s2, swap_case(b2) as int) == fresh);
                        } else if s2 == pst && !has_extra && b2 == byte {
                            assert(!is_alpha(byte));
                            assert(false);
                        } else {
                            assert(b2 != byte || s2 != pst || has_extra);
                            assert(cur.g(s2, b2 as int) == prev.g(s2, b2 as int));
                            assert(cur.g(s2, swap_case(b2) as int) == prev.g(
                                s2,
                                swap_case(b2) as int,
                            ));
                        }
                    }
                    assert forall|s2: int|
                        0 <= s2 < n_int implies ((#[trigger] depths@[s2]) as nat
                        == cur.depth@[s2] && (depths@[s2] as int) <= s2) by {
                        if s2 == fresh as int {
                            assert(depths@[s2] == dprev[pst] + 1);
                            assert(cur.depth@[s2] == prev.depth@[pst] + 1);
                        } else {
                            assert(depths@[s2] == dprev[s2]);
                            assert(cur.depth@[s2] == prev.depth@[s2]);
                        }
                    }
                    assert(depth_mirror(cur, depths@));
                    assert forall|b2: u8|
                        b2 < 128 && (#[trigger] cur.g(0, b2 as int)) != UNDEFINED
                        implies starts_pattern(cur.pats(), b2) by {
                        if pst == 0 && (b2 == byte || (has_extra && b2 == swap_case(byte))) {
                            if j > 0 {
                                prev.lemma_path_end_positive(0, pk.take(j as int));
                                assert(false);
                            }
                            assert(pk[0] == byte);
                            assert(ps[ix as int].len() > 0 && eq_mod_case(ps[ix as int][0], b2));
                        } else {
                            assert(cur.g(0, b2 as int) == prev.g(0, b2 as int));
                        }
                    }
                    assert(cur.trie_inv(n_int, scn));
                    // the paths laid down so far survive
                    assert(cur.extends(prev)) by {
                        assert forall|s2: int|
                            0 <= s2 < n_int implies (#[trigger] prev.out_set(s2)).subset_of(
                            cur.out_set(s2),
                        ) by {
                            assert(cur.out@[s2] == prev.out@[s2]);
                        }
                    }
                    assert(prev.targets_bounded());
                    assert forall|s2: int, u: usize|
                        0 <= s2 < n_int && #[trigger] cur.out_set(s2).contains(u) implies (
                    u as int) < cur.pats().len() by {
                        assert(cur.out@[s2] == prev.out@[s2]);
                        assert(prev.out_set(s2).contains(u));
                    }
                    assert(cur.out_bounded());
                    cur.lemma_extends_patterns(prev, ix as int);
                    cur.lemma_extends_path(prev, 0, pk.take(j as int));
                    cur.lemma_path_snoc(0, pk.take(j as int), byte);
                    assert(pk.take(j as int + 1) =~= pk.take(j as int).push(pk[j as int]));
                }
            } else {
                state = existing;
                proof {
                    auto.lemma_path_snoc(0, pk.take(j as int), byte);
                    assert(pk.take(j as int + 1) =~= pk.take(j as int).push(pk[j as int]));
                }
            }
            j = j + 1;
        }
        // record the pattern's index at its terminal state
        let ghost prev2 = auto;
        let sidx: usize = state as usize;
        auto.out[sidx].push(ix);
        proof {
            let cur = auto;
            lemma_trie_inv_tables(cur, prev2, n_int, state_count as int);
            assert(cur.extends(prev2)) by {
                assert forall|s2: int|
                    0 <= s2 < n_int implies (#[trigger] prev2.out_set(s2)).subset_of(
                    cur.out_set(s2),
                ) by {
                    if s2 == sidx as int {
                        assert forall|u: usize| prev2.out_set(s2).contains(u) implies cur.out_set(
                            s2,
                        ).contains(u) by {
                            let w = choose|w: int|
                                0 <= w < prev2.out@[s2]@.len() && #[trigger] prev2.out@[s2]@[w]
                                    == u;
                            assert(cur.out@[s2]@[w] == u);
                        }
                    } else {
                        assert(cur.out@[s2] == prev2.out@[s2]);
                    }
                }
            }
            assert(prev2.targets_bounded());
            cur.lemma_extends_patterns(prev2, ix as int);
            assert(pk.take(plen as int) =~= pk);
            cur.lemma_extends_path(prev2, 0, pk);
            assert(cur.path_defined(0, pk) && cur.path_end(0, pk) == state as int);
            assert(cur.out@[sidx as int]@.last() == ix);
            assert(cur.out@[sidx as int]@.contains(ix));
            assert(cur.out_set(state as int).contains(ix));
            lemma_to_set_push(prev2.out@[sidx as int]@, ix);
            assert forall|s2: int, u: usize|
                0 <= s2 < n_int && #[trigger] cur.out_set(s2).contains(u) implies (u as int)
                < cur.pats().len() by {
                if s2 == sidx as int {
                    assert(cur.out_set(s2) == prev2.out_set(s2).insert(ix));
                } else {
                    assert(cur.out@[s2] == prev2.out@[s2]);
                    assert(prev2.out_set(s2).contains(u));
                }
            }
            assert(cur.out_bounded());
            assert(cur.pats()[ix as int] == pk);
            assert(cur.trie_has_patterns(ix as int + 1));
            lemma_take_succ(ps, ix as int);
            assert(len_sum(ps.take(ix as int + 1)) == len_sum(ps.take(ix as int)) + pk.len());
        }
        ix = ix + 1;
    }

    // Root completion: every byte the root has no transition for loops back
    // to the root, so failure-chasing can always stop there.
    let ghost comp0 = auto;
    let mut b: usize = 0;
    while b < MAX_CHARS
        invariant
            b <= 128,
            auto.goto@.len() == comp0.goto@.len(),
            auto.fail == comp0.fail,
            auto.out == comp0.out,
            auto.depth == comp0.depth,
            auto.patterns == comp0.patterns,
            auto.max_states == comp0.max_states,
            forall|c: int|
                0 <= c < b ==> #[trigger] auto.goto@[c] == (if comp0.goto@[c] == UNDEFINED {
                    0u16
                } else {
                    comp0.goto@[c]
                }),
            forall|c: int| b <= c < comp0.goto@.len() ==> #[trigger] auto.goto@[c] == comp0.goto@[c],
            depth_mirror(auto, depths@),
        decreases 128 - b,
    {
        if auto.goto[b] == UNDEFINED {
            auto.goto[b] = 0;
        }
        b = b + 1;
    }
    proof {
        let cur = auto;
        let sc = state_count as int;
        assert forall|b2: int| 0 <= b2 < 128 implies (#[trigger] cur.g(0, b2)) != UNDEFINED && (
        cur.g(0, b2) as int) < n_int by {
            assert(cur.goto@[b2] == (if comp0.goto@[b2] == UNDEFINED {
                0u16
            } else {
                comp0.goto@[b2]
            }));
            assert(comp0.g(0, b2) == comp0.goto@[b2]);
        }
        assert forall|s2: int, b2: int|
            1 <= s2 < n_int && 0 <= b2 < 128 implies #[trigger] cur.g(s2, b2) == comp0.g(
            s2,
            b2,
        ) by {
            assert(s2 * 128 + b2 >= 128);
        }
        assert forall|s2: int, b2: int|
            1 <= s2 < n_int && 0 <= b2 < 128 implies ((#[trigger] cur.g(s2, b2)) == UNDEFINED || (1
                <= cur.g(s2, b2) && (cur.g(s2, b2) as int) < n_int)) by {
            assert(cur.g(s2, b2) == comp0.g(s2, b2));
        }
        assert forall|s2: int, b2: int|
            0 <= s2 < n_int && 0 <= b2 < 128 && (#[trigger] cur.g(s2, b2)) != UNDEFINED && cur.g(
                s2,
                b2,
            ) != 0 implies cur.depth@[cur.g(s2, b2) as int] == cur.depth@[s2] + 1 by {
            if s2 == 0 {
                assert(cur.goto@[b2] == (if comp0.goto@[b2] == UNDEFINED {
                    0u16
                } else {
                    comp0.goto@[b2]
                }));
                assert(comp0.g(0, b2) != UNDEFINED && comp0.g(0, b2) == cur.g(0, b2));
            } else {
                assert(cur.g(s2, b2) == comp0.g(s2, b2));
            }
        }
        assert forall|s2: int, b2: u8|
            0 <= s2 < n_int && b2 < 128 && is_alpha(b2) implies #[trigger] cur.g(s2, b2 as int)
            == cur.g(s2, swap_case(b2) as int) by {
            assert(swap_case(b2) < 128);
            if s2 == 0 {
                assert(cur.goto@[b2 as int] == (if comp0.goto@[b2 as int] == UNDEFINED {
                    0u16
                } else {
                    comp0.goto@[b2 as int]
                }));
                assert(cur.goto@[swap_case(b2) as int] == (if comp0.goto@[swap_case(b2) as int]
                    == UNDEFINED {
                    0u16
                } else {
                    comp0.goto@[swap_case(b2) as int]
                }));
                assert(comp0.g(0, b2 as int) == comp0.g(0, swap_case(b2) as int));
            } else {
                assert(cur.g(s2, b2 as int) == comp0.g(s2, b2 as int));
                assert(cur.g(s2, swap_case(b2) as int) == comp0.g(s2, swap_case(b2) as int));
            }
        }
        assert(cur.fails_shallower());
        assert forall|b2: u8|
            b2 < 128 && (#[trigger] cur.g(0, b2 as int)) != 0 implies starts_pattern(
            cur.pats(),
            b2,
        ) by {
            assert(cur.goto@[b2 as int] == (if comp0.goto@[b2 as int] == UNDEFINED {
                0u16
            } else {
                comp0.goto@[b2 as int]
            }));
            assert(comp0.g(0, b2 as int) != UNDEFINED && comp0.g(0, b2 as int) == cur.g(
                0,
                b2 as int,
            ));
        }
        assert(cur.extends(comp0)) by {
            assert forall|s2: int, b2: int|
                0 <= s2 < n_int && 0 <= b2 < 128 && (#[trigger] comp0.g(s2, b2))
                    != UNDEFINED implies cur.g(s2, b2) == comp0.g(s2, b2) by {
                if s2 == 0 {
                    assert(cur.goto@[b2] == (if comp0.goto@[b2] == UNDEFINED {
                        0u16
                    } else {
                        comp0.goto@[b2]
                    }));
                } else {
                    assert(s2 * 128 + b2 >= 128);
                }
            }
            assert forall|s2: int|
                0 <= s2 < n_int implies (#[trigger] comp0.out_set(s2)).subset_of(
                cur.out_set(s2),
            ) by {
                assert(cur.out@[s2] == comp0.out@[s2]);
            }
        }
        assert(comp0.targets_bounded());
        cur.lemma_extends_patterns(comp0, pvec.len() as int);
        assert forall|s2: int, u: usize|
            0 <= s2 < n_int && #[trigger] cur.out_set(s2).contains(u) implies (u as int)
            < cur.pats().len() by {
            assert(cur.out@[s2] == comp0.out@[s2]);
            assert(comp0.out_set(s2).contains(u));
        }
        assert(cur.out_bounded());
        assert(cur.bfs_inv(n_int));
    }

    // Failure pass: resolve failure links and fold output sets breadth-first
    // from the root outward.
    let mut queue: Vec<u16> = Vec::new();
    let mut enqueued: Vec<bool> = Vec::new();
    let mut z: usize = 0;
    while z < n
        invariant
            z <= n,
            enqueued@.len() == z,
            forall|i2: int| 0 <= i2 < z ==> !(#[trigger] enqueued@[i2]),
        decreases n - z,
    {
        enqueued.push(false);
        z = z + 1;
    }
    proof {
        lemma_count_true_bound(enqueued@);
    }
    let mut c: usize = 0;
    while c < MAX_CHARS
        invariant
            c <= 128,
            auto.bfs_inv(n_int),
            auto.patterns@ == pvec,
            auto.out_bounded(),
            depth_mirror(auto, depths@),
            enqueued@.len() == n_int,
            forall|qi: int|
                0 <= qi < queue@.len() ==> 1 <= (#[trigger] queue@[qi]) as int && (
                queue@[qi] as int) < n_int,
            count_true(enqueued@) <= n_int,
        decreases 128 - c,
    {
        let t: u16 = auto.goto[c];
        proof {
            assert(t == auto.g(0, c as int));
        }
        if t != 0 {
            if !enqueued[t as usize] {
                let ghost enq0 = enqueued@;
                enqueued[t as usize] = true;
                queue.push(t);
                proof {
                    lemma_count_true_update(enq0, t as int);
                    lemma_count_true_bound(enqueued@);
                }
            }
        }
        c = c + 1;
    }
    while queue.len() > 0
        invariant
            auto.bfs_inv(n_int),
            auto.patterns@ == pvec,
            auto.out_bounded(),
            depth_mirror(auto, depths@),
            enqueued@.len() == n_int,
            forall|qi: int|
                0 <= qi < queue@.len() ==> 1 <= (#[trigger] queue@[qi]) as int && (
                queue@[qi] as int) < n_int,
            count_true(enqueued@) <= n_int,
        decreases 2 * (n_int - count_true(enqueued@)) + queue@.len(),
    {
        let ghost q0 = queue@;
        let state: u16 = queue.remove(0);
        proof {
            assert(state == q0[0]);
            assert forall|qi: int|
                0 <= qi < queue@.len() implies 1 <= (#[trigger] queue@[qi]) as int && (
            queue@[qi] as int) < n_int by {
                assert(queue@[qi] == q0[qi + 1]);
            }
        }
        let ghost m0 = 2 * (n_int - count_true(enqueued@)) + queue@.len();
        let mut bc: usize = 0;
        while bc < MAX_CHARS
            invariant
                bc <= 128,
                auto.bfs_inv(n_int),
                auto.patterns@ == pvec,
                auto.out_bounded(),
                depth_mirror(auto, depths@),
                enqueued@.len() == n_int,
                forall|qi: int|
                    0 <= qi < queue@.len() ==> 1 <= (#[trigger] queue@[qi]) as int && (
                    queue@[qi] as int) < n_int,
                count_true(enqueued@) <= n_int,
                2 * (n_int - count_true(enqueued@)) + queue@.len() <= m0,
                1 <= state as int && (state as int) < n_int,
            decreases 128 - bc,
        {
            let t: u16 = auto.goto[(state as usize) * 128 + bc];
            proof {
                assert(t == auto.g(state as int, bc as int));
            }
            if t != UNDEFINED {
                resolve_edge(&mut auto, &mut queue, &mut enqueued, state, bc);
            }
            bc = bc + 1;
        }
    }
    // Output closure: in depth order, fold each state's failure target's
    // output set into the state's own, so a state reports every match of
    // every failure ancestor.  The breadth-first pass above has already
    // merged these sets; this sweep settles them bottom-up, and the guarded
    // merge pushes nothing that is already there.
    let mut buckets: Vec<Vec<u16>> = Vec::new();
    let mut z1: usize = 0;
    while z1 < n
        invariant
            z1 <= n,
            buckets@.len() == z1,
            forall|d2: int| 0 <= d2 < z1 ==> (#[trigger] buckets@[d2])@.len() == 0,
        decreases n - z1,
    {
        buckets.push(Vec::new());
        z1 = z1 + 1;
    }
    let mut sb: usize = 1;
    while sb < n
        invariant
            1 <= sb <= n,
            buckets@.len() == n_int,
            depth_mirror(auto, depths@),
            auto.bfs_inv(n_int),
            auto.out_bounded(),
            auto.patterns@ == pvec,
            forall|d2: int, w2: int|
                0 <= d2 < n_int && 0 <= w2 < buckets@[d2]@.len() ==> (1 <= (
                #[trigger] buckets@[d2]@[w2]) as int && (buckets@[d2]@[w2] as int) < n_int
                    && depths@[buckets@[d2]@[w2] as int] as int == d2),
            forall|s2: int|
                #![trigger depths@[s2]]
                1 <= s2 < sb ==> buckets@[depths@[s2] as int]@.contains(s2 as u16),
        decreases n - sb,
    {
        let ghost bprev = buckets@;
        let dd: usize = depths[sb] as usize;
        buckets[dd].push(sb as u16);
        proof {
            assert forall|d2: int, w2: int|
                0 <= d2 < n_int && 0 <= w2 < buckets@[d2]@.len() implies (1 <= (
            #[trigger] buckets@[d2]@[w2]) as int && (buckets@[d2]@[w2] as int) < n_int
                && depths@[buckets@[d2]@[w2] as int] as int == d2) by {
                if d2 == dd as int && w2 == bprev[d2]@.len() {
                    assert(buckets@[d2]@[w2] == sb as u16);
                } else {
                    assert(buckets@[d2]@[w2] == bprev[d2]@[w2]);
                }
            }
            assert forall|s2: int|
                #![trigger depths@[s2]]
                1 <= s2 < sb + 1 implies buckets@[depths@[s2] as int]@.contains(s2 as u16) by {
                if s2 < sb {
                    let w3 = choose|w3: int|
                        0 <= w3 < bprev[depths@[s2] as int]@.len()
                            && #[trigger] bprev[depths@[s2] as int]@[w3] == (s2 as u16);
                    assert(buckets@[depths@[s2] as int]@[w3] == (s2 as u16));
                } else {
                    assert(buckets@[dd as int]@[bprev[dd as int]@.len() as int] == (sb as u16));
                }
            }
        }
        sb = sb + 1;
    }
    let mut dlev: usize = 2;
    while dlev < n
        invariant
            2 <= dlev,
            buckets@.len() == n_int,
            depth_mirror(auto, depths@),
            auto.bfs_inv(n_int),
            auto.out_bounded(),
            auto.patterns@ == pvec,
            forall|d2: int, w2: int|
                0 <= d2 < n_int && 0 <= w2 < buckets@[d2]@.len() ==> (1 <= (
                #[trigger] buckets@[d2]@[w2]) as int && (buckets@[d2]@[w2] as int) < n_int
                    && depths@[buckets@[d2]@[w2] as int] as int == d2),
            forall|s2: int|
                #![trigger depths@[s2]]
                1 <= s2 < n_int ==> buckets@[depths@[s2] as int]@.contains(s2 as u16),
            forall|s2: int|
                1 <= s2 < n_int && 2 <= auto.depth@[s2] && auto.depth@[s2] < dlev
                    ==> (#[trigger] auto.out_set(auto.fail@[s2] as int)).subset_of(
                    auto.out_set(s2),
                ),
        decreases n - dlev,
    {
        let blen: usize = buckets[dlev].len();
        let mut w: usize = 0;
        while w < blen
            invariant
                w <= blen,
                2 <= dlev && dlev < n_int,
                blen == buckets@[dlev as int]@.len(),
                buckets@.len() == n_int,
                depth_mirror(auto, depths@),
                auto.bfs_inv(n_int),
                auto.out_bounded(),
                auto.patterns@ == pvec,
                forall|d2: int, w2: int|
                    0 <= d2 < n_int && 0 <= w2 < buckets@[d2]@.len() ==> (1 <= (
                    #[trigger] buckets@[d2]@[w2]) as int && (buckets@[d2]@[w2] as int) < n_int
                        && depths@[buckets@[d2]@[w2] as int] as int == d2),
                forall|s2: int|
                    #![trigger depths@[s2]]
                    1 <= s2 < n_int ==> buckets@[depths@[s2] as int]@.contains(s2 as u16),
                forall|s2: int|
                    1 <= s2 < n_int && 2 <= auto.depth@[s2] && auto.depth@[s2] < dlev
                        ==> (#[trigger] auto.out_set(auto.fail@[s2] as int)).subset_of(
                        auto.out_set(s2),
                    ),
                forall|w2: int|
                    0 <= w2 < w ==> (#[trigger] auto.out_set(
                        auto.fail@[buckets@[dlev as int]@[w2] as int] as int,
                    )).subset_of(auto.out_set(buckets@[dlev as int]@[w2] as int)),
            decreases blen - w,
        {
            let sel: u16 = buckets[dlev][w];
            let ghost before = auto;
            let f: u16 = auto.fail[sel as usize];
            proof {
                assert(1 <= sel as int && (sel as int) < n_int);
                assert(depths@[sel as int] as int == dlev);
                assert(auto.depth@[sel as int] == dlev);
                assert((f as int) < n_int);
                assert(auto.depth@[f as int] < dlev);
                assert(f != sel);
            }
            merge_rows(&mut auto.out, sel as usize, f as usize);
            proof {
                let cur = auto;
                assert(cur.extends(before)) by {
                    assert forall|s2: int|
                        0 <= s2 < n_int implies (#[trigger] before.out_set(s2)).subset_of(
                        cur.out_set(s2),
                    ) by {
                        if s2 == sel as int {
                            assert(cur.out@[s2]@.to_set() == before.out@[s2]@.to_set().union(
                                before.out@[f as int]@.to_set(),
                            ));
                        } else {
                            assert(cur.out@[s2] == before.out@[s2]);
                        }
                    }
                }
                assert(before.targets_bounded());
                cur.lemma_extends_patterns(before, before.pats().len() as int);
                lemma_bfs_inv_tables(cur, before, n_int);
                assert forall|s2: int, u: usize|
                    0 <= s2 < n_int && #[trigger] cur.out_set(s2).contains(u) implies (u as int)
                    < cur.pats().len() by {
                    if s2 == sel as int {
                        assert(cur.out@[s2]@.to_set() == before.out@[s2]@.to_set().union(
                            before.out@[f as int]@.to_set(),
                        ));
                        assert(before.out_set(s2).contains(u) || before.out_set(
                            f as int,
                        ).contains(u));
                    } else {
                        assert(cur.out@[s2] == before.out@[s2]);
                        assert(before.out_set(s2).contains(u));
                    }
                }
                assert(cur.out_bounded());
                assert(cur.out@[f as int] == before.out@[f as int]);
                assert(cur.out_set(sel as int) == before.out_set(sel as int).union(
                    before.out_set(f as int),
                ));
                assert forall|s2: int|
                    1 <= s2 < n_int && 2 <= cur.depth@[s2] && cur.depth@[s2]
                        < dlev implies (#[trigger] cur.out_set(cur.fail@[s2] as int)).subset_of(
                    cur.out_set(s2),
                ) by {
                    assert(before.out_set(before.fail@[s2] as int).subset_of(
                        before.out_set(s2),
                    ));
                    assert(cur.depth@[sel as int] == dlev);
                    assert(cur.depth@[cur.fail@[s2] as int] < cur.depth@[s2]);
                    assert(cur.fail@[s2] as int != sel as int);
                    assert(s2 != sel as int);
                    assert(cur.out@[cur.fail@[s2] as int] == before.out@[cur.fail@[s2] as int]);
                    assert(cur.out_set(cur.fail@[s2] as int) == before.out_set(
                        before.fail@[s2] as int,
                    ));
                    assert(cur.out@[s2] == before.out@[s2]);
                    assert(cur.out_set(s2) == before.out_set(s2));
                }
                assert forall|w2: int|
                    0 <= w2 < w + 1 implies (#[trigger] cur.out_set(
                    cur.fail@[buckets@[dlev as int]@[w2] as int] as int,
                )).subset_of(cur.out_set(buckets@[dlev as int]@[w2] as int)) by {
                    let s3 = buckets@[dlev as int]@[w2] as int;
                    if w2 < w {
                        assert(before.out_set(before.fail@[s3] as int).subset_of(
                            before.out_set(s3),
                        ));
                        assert(cur.depth@[s3] == dlev);
                        assert(cur.depth@[sel as int] == dlev);
                        assert(cur.depth@[cur.fail@[s3] as int] < dlev);
                        assert(cur.fail@[s3] as int != sel as int);
                        assert(cur.out@[cur.fail@[s3] as int] == before.out@[cur.fail@[
                            s3] as int]);
                        assert(cur.out_set(cur.fail@[s3] as int) == before.out_set(
                            before.fail@[s3] as int,
                        ));
                        if s3 != sel as int {
                            assert(cur.out@[s3] == before.out@[s3]);
                            assert(cur.out_set(s3) == before.out_set(s3));
                        } else {
                            assert(before.out_set(s3).subset_of(cur.out_set(s3)));
                        }
                    } else {
                        assert(s3 == sel as int);
                        assert(cur.fail@[s3] == f);
                    }
                }
            }
            w = w + 1;
        }
        proof {
            assert forall|s2: int|
                1 <= s2 < n_int && 2 <= auto.depth@[s2] && auto.depth@[s2] < dlev
                    + 1 implies (#[trigger] auto.out_set(auto.fail@[s2] as int)).subset_of(
                auto.out_set(s2),
            ) by {
                if auto.depth@[s2] == dlev {
                    assert(depths@[s2] as int == dlev);
                    assert(buckets@[depths@[s2] as int]@.contains(s2 as u16));
                    let w3 = choose|w3: int|
                        0 <= w3 < buckets@[dlev as int]@.len() && #[trigger] buckets@[
                            dlev as int]@[w3] == (s2 as u16);
                    assert(auto.out_set(
                        auto.fail@[buckets@[dlev as int]@[w3] as int] as int,
                    ).subset_of(auto.out_set(buckets@[dlev as int]@[w3] as int)));
                    assert(buckets@[dlev as int]@[w3] as int == s2);
                }
            }
        }
        dlev = dlev + 1;
    }
    proof {
        assert forall|s2: int|
            1 <= s2 < n_int && (#[trigger] auto.fail@[s2]) != 0 implies auto.out_set(
            auto.fail@[s2] as int,
        ).subset_of(auto.out_set(s2)) by {
            assert(auto.depth@[auto.fail@[s2] as int] < auto.depth@[s2]);
            assert(auto.depth@[auto.fail@[s2] as int] >= 1);
            assert(auto.depth@[s2] >= 2);
            assert((depths@[s2] as int) <= s2);
            assert(auto.depth@[s2] < n_int);
        }
        assert(auto.out_closed());
        assert(auto.wf());
    }
    Ok(Rc::new(auto))
}

/// Whether the row already holds the value.
fn row_contains(row: &Vec<usize>, x: usize) -> (r: bool)
    ensures
        r == row@.contains(x),
{
    let mut i: usize = 0;
    while i < row.len()
        invariant
            i <= row@.len(),
            forall|w: int| 0 <= w < i ==> row@[w] != x,
        decreases row@.len() - i,
    {
        if row[i] == x {
            assert(row@[i as int] == x);
            return true;
        }
        i = i + 1;
    }
    false
}

/// Folds the output set of row `src` into row `dst`: afterwards `dst` holds
/// the union of the two sets.  Entries `dst` already holds are not pushed
/// again, so merging twice leaves no duplicates behind.
#[verifier::loop_isolation(false)]
fn merge_rows(out: &mut Vec<Vec<usize>>, dst: usize, src: usize)
    requires
        dst < old(out)@.len(),
        src < old(out)@.len(),
        dst != src,
    ensures
        final(out)@.len() == old(out)@.len(),
        forall|s2: int|
            0 <= s2 < old(out)@.len() && s2 != dst as int ==> final(out)@[s2] == old(out)@[s2],
        final(out)@[dst as int]@.len() >= old(out)@[dst as int]@.len(),
        forall|w: int|
            0 <= w < old(out)@[dst as int]@.len() ==> final(out)@[dst as int]@[w] == old(
                out,
            )@[dst as int]@[w],
        final(out)@[dst as int]@.to_set() == old(out)@[dst as int]@.to_set().union(
            old(out)@[src as int]@.to_set(),
        ),
{
    let ghost base = old(out)@[dst as int]@;
    let ghost from = old(out)@[src as int]@;
    let mlen: usize = out[src].len();
    let mut m: usize = 0;
    proof {
        assert(from.take(0).to_set() =~= Set::<usize>::empty());
        assert(base.to_set().union(from.take(0).to_set()) =~= base.to_set());
    }
    while m < mlen
        invariant
            m <= mlen,
            out@.len() == old(out)@.len(),
            forall|s2: int|
                0 <= s2 < old(out)@.len() && s2 != dst as int ==> out@[s2] == old(out)@[s2],
            out@[dst as int]@.len() >= base.len(),
            forall|w: int| 0 <= w < base.len() ==> out@[dst as int]@[w] == base[w],
            out@[dst as int]@.to_set() == base.to_set().union(from.take(m as int).to_set()),
        decreases mlen - m,
    {
        let v: usize = out[src][m];
        let ghost pre = out@[dst as int]@;
        proof {
            assert(from[m as int] == v);
            lemma_to_set_take_succ(from, m as int);
        }
        if !row_contains(&out[dst], v) {
            out[dst].push(v);
            proof {
                lemma_to_set_push(pre, v);
                assert(out@[dst as int]@.to_set() =~= base.to_set().union(
                    from.take(m as int + 1).to_set(),
                ));
            }
        } else {
            proof {
                assert(pre.to_set().contains(v));
                assert(out@[dst as int]@.to_set() =~= base.to_set().union(
                    from.take(m as int + 1).to_set(),
                ));
            }
        }
        m = m + 1;
    }
    proof {
        assert(from.take(mlen as int) =~= from);
    }
}

/// Resolves one trie edge `state --bcol--> t` during the failure pass: finds
/// the failure target for `t` by chasing failure links from `state`'s own
/// failure state, merges the output set of that target into `t`'s, and
/// queues `t` if it has not been queued yet.
#[verifier::loop_isolation(false)]
fn resolve_edge(auto: &mut Automaton, queue: &mut Vec<u16>, enqueued: &mut Vec<bool>, state: u16, bcol: usize)
    requires
        old(auto).bfs_inv(old(auto).states()),
        old(auto).out_bounded(),
        1 <= state as int && (state as int) < old(auto).states(),
        bcol < 128,
        old(auto).g(state as int, bcol as int) != UNDEFINED,
        old(enqueued)@.len() == old(auto).states(),
        forall|qi: int|
            0 <= qi < old(queue)@.len() ==> 1 <= (#[trigger] old(queue)@[qi]) as int
                && (old(queue)@[qi] as int) < old(auto).states(),
    ensures
        final(auto).bfs_inv(old(auto).states()),
        final(auto).out_bounded(),
        final(auto).states() == old(auto).states(),
        final(auto).patterns == old(auto).patterns,
        final(auto).goto == old(auto).goto,
        final(auto).depth == old(auto).depth,
        final(enqueued)@.len() == old(auto).states(),
        forall|qi: int|
            0 <= qi < final(queue)@.len() ==> 1 <= (#[trigger] final(queue)@[qi]) as int
                && (final(queue)@[qi] as int) < old(auto).states(),
        2 * (old(auto).states() - count_true(final(enqueued)@)) + final(queue)@.len() <= 2 * (
        old(auto).states() - count_true(old(enqueued)@)) + old(queue)@.len(),
        count_true(final(enqueued)@) <= old(auto).states(),
{
    let ghost n_int = old(auto).states();
    let n: usize = auto.fail.len();
    let t: u16 = auto.goto[(state as usize) * 128 + bcol];
    let mut failure: u16 = auto.fail[state as usize];
    let ghost dcap = auto.depth@[failure as int];
    while auto.goto[(failure as usize) * 128 + bcol] == UNDEFINED
        invariant
            (failure as int) < n_int,
            auto.depth@[failure as int] <= dcap,
        decreases auto.depth@[failure as int],
    {
        proof {
            if failure == 0 {
                assert(auto.g(0, bcol as int) != UNDEFINED);
                assert(false);
            }
        }
        failure = auto.fail[failure as usize];
    }
    let r: u16 = auto.goto[(failure as usize) * 128 + bcol];
    proof {
        assert(r == auto.g(failure as int, bcol as int));
        if failure == 0 {
            assert((r as int) < n_int);
        }
        assert((r as int) < n_int);
        assert(t == auto.g(state as int, bcol as int));
        assert(1 <= t as int && (t as int) < n_int);
        assert(auto.depth@[t as int] == auto.depth@[state as int] + 1);
        assert(auto.depth@[(auto.fail@[state as int]) as int] < auto.depth@[state as int]);
        if r != 0 {
            assert(auto.depth@[r as int] == auto.depth@[failure as int] + 1);
        }
        assert(auto.depth@[r as int] < auto.depth@[t as int]);
        assert(r != t);
    }
    auto.fail[t as usize] = r;
    merge_rows(&mut auto.out, t as usize, r as usize);
    if !enqueued[t as usize] {
        let ghost enq0 = enqueued@;
        enqueued[t as usize] = true;
        queue.push(t);
        proof {
            lemma_count_true_update(enq0, t as int);
            lemma_count_true_bound(enqueued@);
        }
    }
    proof {
        lemma_count_true_bound(enqueued@);
        let prev = *old(auto);
        let cur = *auto;
        assert(cur.fail@ == prev.fail@.update(t as int, r));
        assert forall|s2: int| 1 <= s2 < n_int implies (#[trigger] cur.fail@[s2]) < n_int
            && cur.depth@[cur.fail@[s2] as int] < cur.depth@[s2] by {
            if s2 != t as int {
                assert(cur.fail@[s2] == prev.fail@[s2]);
            }
        }
        assert(cur.fails_shallower());
        assert(cur.goto == prev.goto);
        assert forall|s2: int, b2: int|
            0 <= s2 < n_int && 0 <= b2 < 128 implies #[trigger] cur.g(s2, b2) == prev.g(
            s2,
            b2,
        ) by {}
        assert(cur.extends(prev)) by {
            assert forall|s2: int|
                0 <= s2 < n_int implies (#[trigger] prev.out_set(s2)).subset_of(
                cur.out_set(s2),
            ) by {
                if s2 == t as int {
                    assert(cur.out@[s2]@.to_set() == prev.out@[s2]@.to_set().union(
                        prev.out@[r as int]@.to_set(),
                    ));
                } else {
                    assert(cur.out@[s2] == prev.out@[s2]);
                }
            }
        }
        assert(prev.targets_bounded());
        cur.lemma_extends_patterns(prev, prev.pats().len() as int);
        assert forall|b2: u8|
            b2 < 128 && (#[trigger] cur.g(0, b2 as int)) != 0 implies starts_pattern(
            cur.pats(),
            b2,
        ) by {
            assert(cur.g(0, b2 as int) == prev.g(0, b2 as int));
        }
        assert forall|s2: int, u: usize|
            0 <= s2 < n_int && #[trigger] cur.out_set(s2).contains(u) implies (u as int)
            < cur.pats().len() by {
            if s2 == t as int {
                assert(cur.out@[s2]@.to_set() == prev.out@[s2]@.to_set().union(
                    prev.out@[r as int]@.to_set(),
                ));
                assert(prev.out_set(s2).contains(u) || prev.out_set(r as int).contains(u));
            } else {
                assert(cur.out@[s2] == prev.out@[s2]);
                assert(prev.out_set(s2).contains(u));
            }
        }
        assert(cur.out_bounded());
        assert(cur.bfs_inv(n_int));
    }
}

/// Validates a pattern set and allocates the empty tables for it: rejects
/// any pattern with a byte outside the ASCII range, computes the worst-case
/// state bound, and rejects the set when that bound reaches the reserved
/// sentinel.  Nothing is allocated for a rejected set.
#[verifier::loop_isolation(false)]
pub fn create_automaton_skeleton(patterns: Vec<Vec<u8>>) -> (r: Result<Automaton, BuildError>)
    ensures
        match r {
            Ok(a) => {
                &&& all_ascii(views(patterns@))
                &&& state_bound(views(patterns@)) < STATE_SENTINEL
                &&& a.patterns == patterns
                &&& a.states() == state_bound(views(patterns@))
                &&& a.goto@.len() == a.states() * 128
                &&& a.out@.len() == a.states()
                &&& a.depth@.len() == a.states()
                &&& a.max_states as int + 1 == a.states()
                &&& forall|s: int, b: int|
                    0 <= s < a.states() && 0 <= b < 128 ==> (#[trigger] a.g(s, b)) == UNDEFINED
                &&& forall|s: int| 0 <= s < a.states() ==> (#[trigger] a.fail@[s]) == 0
                &&& forall|s: int| 0 <= s < a.states() ==> (#[trigger] a.out@[s])@.len() == 0
                &&& a.depth@[0] == 0
                &&& forall|s: int| 1 <= s < a.states() ==> (#[trigger] a.depth@[s]) == 1
            },
            Err(BuildError::InvalidPattern) => !all_ascii(views(patterns@)),
            Err(BuildError::CapacityExceeded { bound, limit }) => {
                &&& all_ascii(views(patterns@))
                &&& state_bound(views(patterns@)) >= STATE_SENTINEL
                &&& bound as int == capped(state_bound(views(patterns@)))
                &&& limit == STATE_SENTINEL - 1
            },
        },
{
    let ghost ps = views(patterns@);
    let mut bound: u64 = 1;
    let mut k: usize = 0;
    while k < patterns.len()
        invariant
            k <= patterns@.len(),
            forall|k2: int| 0 <= k2 < k ==> ascii_seq(#[trigger] ps[k2]),
            bound as int == capped(state_bound(ps.take(k as int))),
        decreases patterns@.len() - k,
    {
        let ghost pk = patterns@[k as int]@;
        let ghost bound_in = bound as int;
        let p_len: usize = patterns[k].len();
        bound = sat_add(bound, p_len as u64);
        let mut j: usize = 0;
        while j < p_len
            invariant
                j <= pk.len(),
                p_len == pk.len(),
                forall|t: int| 0 <= t < j ==> #[trigger] pk[t] < 128,
                bound as int == capped(bound_in + pk.len() + alpha_count(pk.take(j as int))),
            decreases p_len - j,
        {
            let c: u8 = patterns[k][j];
            if c >= 128 {
                proof {
                    assert(!ascii_seq(ps[k as int]));
                }
                return Err(BuildError::InvalidPattern);
            }
            proof {
                lemma_take_succ(pk, j as int);
            }
            if (97 <= c && c <= 122) || (65 <= c && c <= 90) {
                bound = sat_add(bound, 1);
            }
            j = j + 1;
        }
        proof {
            assert(pk.take(pk.len() as int) =~= pk);
            lemma_alpha_count_bounds(pk);
            lemma_weight_sum_nonneg(ps.take(k as int));
            lemma_take_succ(ps, k as int);
            assert(ps.take(k as int + 1).drop_last() == ps.take(k as int));
            assert(weight_sum(ps.take(k as int + 1)) == weight_sum(ps.take(k as int)) + weight(
                pk,
            ));
        }
        k = k + 1;
    }
    proof {
        assert(ps.take(ps.len() as int) =~= ps);
    }
    if bound >= 65535 {
        return Err(BuildError::CapacityExceeded { bound, limit: 65534 });
    }
    proof {
        lemma_weight_sum_nonneg(ps);
    }
    let max_states: u16 = (bound - 1) as u16;
    Ok(Automaton::new(max_states, patterns))
}

/// Splitting off one more element extends a prefix by its last element.
proof fn lemma_take_succ<A>(s: Seq<A>, i: int)
    requires
        0 <= i < s.len(),
    ensures
        s.take(i + 1).drop_last() == s.take(i),
        s.take(i + 1).last() == s[i],
{
    assert(s.take(i + 1).drop_last() =~= s.take(i));
}

/// Appending one element grows the set by exactly that element.
proof fn lemma_to_set_push<A>(s: Seq<A>, v: A)
    ensures
        s.push(v).to_set() == s.to_set().insert(v),
{
    let a = s.push(v).to_set();
    let b = s.to_set().insert(v);
    assert forall|x: A| a.contains(x) implies b.contains(x) by {
        let j = choose|j: int| 0 <= j < s.push(v).len() && #[trigger] s.push(v)[j] == x;
        if j < s.len() {
            assert(s[j] == x);
        }
    }
    assert forall|x: A| b.contains(x) implies a.contains(x) by {
        if x == v {
            assert(s.push(v)[s.len() as int] == x);
        } else {
            let j = choose|j: int| 0 <= j < s.len() && #[trigger] s[j] == x;
            assert(s.push(v)[j] == x);
        }
    }
    assert(a =~= b);
}

/// The set of a one-longer prefix gains exactly the new element.
proof fn lemma_to_set_take_succ<A>(s: Seq<A>, i: int)
    requires
        0 <= i < s.len(),
    ensures
        s.take(i + 1).to_set() == s.take(i).to_set().insert(s[i]),
{
    let a = s.take(i + 1).to_set();
    let b = s.take(i).to_set().insert(s[i]);
    assert forall|x: A| a.contains(x) implies b.contains(x) by {
        let j = choose|j: int| 0 <= j < s.take(i + 1).len() && #[trigger] s.take(i + 1)[j] == x;
        if j < i {
            assert(s.take(i)[j] == x);
        }
    }
    assert forall|x: A| b.contains(x) implies a.contains(x) by {
        if x == s[i] {
            assert(s.take(i + 1)[i] == x);
        } else {
            let j = choose|j: int| 0 <= j < s.take(i).len() && #[trigger] s.take(i)[j] == x;
            assert(s.take(i + 1)[j] == x);
        }
    }
    assert(a =~= b);
}

} // verus!
