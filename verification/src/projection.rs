//! The projection: what a sieve is allowed to reason about, read off a real DFA.
//!
//! **The reachable core.** States are discovered by breadth-first search from the
//! unanchored start over all 256 bytes and compacted into dense `u16` ids — the only
//! projection that is *true*, because a state no byte string can reach cannot affect
//! whether a document matches.
//!
//! **A minimal byte-class partition.** Two bytes are equivalent when no core state
//! routes them differently. The search above already touched all 256 bytes on every
//! core state, so the exact partition is free here, and it keeps the lattice closure
//! affordable: the closure loop runs once per class, not once per byte.

use vstd::prelude::*;

use crate::dfa::{dfa_run, has_match, matches_along, matches_at, reachable, Dfa};
use crate::lattice::canon::{
    canonical, lemma_canonical_unique, lemma_covers, lemma_top_push, next_label, same_kernel, uses,
};

verus! {

/// Cost policy on the harvest, not a bound on correctness: above this many reachable
/// states the sieve declines.
pub const MAX_CORE_STATES: usize = 96;

/// Why a pattern gets no sieve. Each is checked against the finished automaton.
#[derive(Debug, Clone, Copy, PartialEq, Eq, Structural)]
pub enum Decline {
    /// The automaton can abandon a search mid-scan, which a continuous run does not
    /// model.
    Quits,
    /// The start state already matches, so every position accepts.
    MatchesEmpty,
    /// The reachable core is wider than [`MAX_CORE_STATES`] states.
    TooWide,
}

impl Decline {
    /// What the refusal means, in a sentence.
    pub fn message(&self) -> (r: &'static str)
        ensures
            r@ == (match *self {
                Decline::Quits => "the automaton carries quit bytes and can abandon a scan mid-run"@,
                Decline::MatchesEmpty => "the start state already matches, so every position accepts"@,
                Decline::TooWide => "the reachable core exceeds 96 states"@,
            }),
    {
        match self {
            Decline::Quits => "the automaton carries quit bytes and can abandon a scan mid-run",
            Decline::MatchesEmpty => "the start state already matches, so every position accepts",
            Decline::TooWide => "the reachable core exceeds 96 states",
        }
    }
}

/// What each refusal says of the automaton: `Quits` that it names no start state or
/// some nonempty byte string leads it to a quit state, `MatchesEmpty` that its start
/// state matches, `TooWide` that more than [`MAX_CORE_STATES`] distinct states are
/// reachable.
pub open spec fn declined<D: Dfa>(dfa: &D, d: Decline) -> bool {
    match d {
        Decline::Quits => dfa.start_spec() is None || exists|hay: Seq<u8>|
            hay.len() > 0 && dfa.is_quit_spec(dfa_run(dfa, dfa.start_spec()->Some_0, hay)),
        Decline::MatchesEmpty => dfa.start_spec() matches Some(s) && dfa.is_match_spec(s),
        Decline::TooWide => exists|xs: Seq<D::State>|
            {
                &&& xs.len() == MAX_CORE_STATES + 1
                &&& xs.no_duplicates()
                &&& forall|i: int| 0 <= i < xs.len() ==> reachable(dfa, #[trigger] xs[i])
            },
    }
}

/// The refusal a breadth-first walk meets, having numbered `ids` and finished every
/// state before `head` and the bytes of `head` before `byte`: reading the next byte from
/// the next state, a quit state is `Quits`, a state met before is passed over, a new state
/// past [`MAX_CORE_STATES`] is `TooWide`, and any other new state is numbered next;
/// `None` once every numbered state has been read on every byte.
pub open spec fn walk_refusal<D: Dfa>(dfa: &D, ids: Seq<D::State>, head: int, byte: int) -> Option<
    Decline,
>
    decreases MAX_CORE_STATES + 1 - head, 257 - byte,
{
    if head < 0 || byte < 0 || ids.len() > MAX_CORE_STATES || head >= ids.len() {
        None
    } else if byte >= 256 {
        walk_refusal(dfa, ids, head + 1, 0)
    } else {
        let t = dfa.next_spec(ids[head], byte as u8);
        if dfa.is_quit_spec(t) {
            Some(Decline::Quits)
        } else if ids.contains(t) {
            walk_refusal(dfa, ids, head, byte + 1)
        } else if ids.len() == MAX_CORE_STATES {
            Some(Decline::TooWide)
        } else {
            walk_refusal(dfa, ids.push(t), head, byte + 1)
        }
    }
}

/// The refusal [`Projection::of`] gives `dfa`, or `None` when it gives none: `Quits` for
/// no start state, then `MatchesEmpty` for a start state that matches, then whatever the
/// breadth-first walk from the start meets first.
#[verifier::opaque]
pub open spec fn refusal<D: Dfa>(dfa: &D) -> Option<Decline> {
    match dfa.start_spec() {
        None => Some(Decline::Quits),
        Some(s) => if dfa.is_match_spec(s) {
            Some(Decline::MatchesEmpty)
        } else {
            walk_refusal(dfa, seq![s], 0, 0)
        },
    }
}

/// What the refusal is before the walk, and that after it the walk decides.
proof fn lemma_refusal_first_steps<D: Dfa>(dfa: &D)
    ensures
        dfa.start_spec() is None ==> refusal(dfa) == Some(Decline::Quits),
        dfa.start_spec() matches Some(s) && dfa.is_match_spec(s) ==> refusal(dfa) == Some(
            Decline::MatchesEmpty,
        ),
        dfa.start_spec() is Some && !dfa.is_match_spec(dfa.start_spec()->Some_0) ==> refusal(dfa)
            == walk_refusal(dfa, seq![dfa.start_spec()->Some_0], 0, 0),
{
    reveal(refusal);
}

/// A DFA projected onto its reachable core: compact state ids, one transition table
/// over derived byte classes, and the accept set.
///
/// `accept` folds the end-of-input transition into the interior one — a state is
/// accepting if it matches *or* would match at end of input. Over-marking can only
/// make the sieve pass documents it could have rejected, never reject one that matches.
pub struct Projection {
    /// Number of core states.
    pub states: usize,
    /// Number of byte classes.
    pub classes: usize,
    /// `[states * classes]` compact successor ids.
    pub delta: Vec<u16>,
    /// `[states]` — matches now, or would match at end of input.
    pub accept: Vec<bool>,
    /// Compact id of the unanchored start state. Always 0 by construction.
    pub start: u16,
    /// Byte to class.
    pub class_of: [u8; 256],
}

/// `a` and `b` are routed alike by every row of `rows`.
pub open spec fn same_column(rows: Seq<[u16; 256]>, a: int, b: int) -> bool {
    forall|s: int| 0 <= s < rows.len() ==> #[trigger] rows[s][a] == rows[s][b]
}

impl Projection {
    /// The table is internally consistent: every successor and every class names one
    /// that exists.
    pub open spec fn wf(&self) -> bool {
        &&& 1 <= self.states <= MAX_CORE_STATES
        &&& 1 <= self.classes <= 256
        &&& self.delta@.len() == self.states * self.classes
        &&& forall|i: int| 0 <= i < self.delta@.len() ==> #[trigger] self.delta@[i] < self.states
        &&& self.accept@.len() == self.states
        &&& self.start == 0
        &&& forall|b: int| 0 <= b < 256 ==> #[trigger] self.class_of[b] < self.classes
    }

    /// The successor of core state `s` on byte `b`.
    pub open spec fn succ(&self, s: int, b: u8) -> int {
        self.delta@[s * self.classes + self.class_of[b as int]] as int
    }

    /// The byte classes are exact: two bytes share a class if and only if no core state
    /// routes them differently.
    pub open spec fn classes_exact(&self) -> bool {
        forall|a: u8, b: u8|
            #[trigger] self.class_of[a as int] == #[trigger] self.class_of[b as int] <==> forall|s: int|
                0 <= s < self.states ==> #[trigger] self.succ(s, a) == self.succ(s, b)
    }

    /// The successor of core state `s` on byte class `k`.
    pub open spec fn next(&self, s: int, k: int) -> int {
        self.delta@[s * self.classes + k] as int
    }

    /// Successors on a class stay inside the core.
    pub proof fn lemma_next_in_core(&self, s: int, k: int)
        requires
            self.wf(),
            0 <= s < self.states,
            0 <= k < self.classes,
        ensures
            0 <= self.next(s, k) < self.states,
    {
        lemma_slot(s, k, self.states as int, self.classes as int);
    }

    /// Successors on a byte stay inside the core.
    pub proof fn lemma_succ_in_core(&self, s: int, b: u8)
        requires
            self.wf(),
            0 <= s < self.states,
        ensures
            0 <= self.succ(s, b) < self.states,
    {
        lemma_slot(s, self.class_of[b as int] as int, self.states as int, self.classes as int);
    }

    /// The core state reached from `s` after reading `hay`.
    pub open spec fn run(&self, s: int, hay: Seq<u8>) -> int
        decreases hay.len(),
    {
        if hay.len() == 0 {
            s
        } else {
            self.succ(self.run(s, hay.drop_last()), hay.last())
        }
    }

    /// Some prefix of `hay`, the empty one included, leaves a run from `s` in an
    /// accepting core state.
    pub open spec fn accepts_along(&self, s: int, hay: Seq<u8>) -> bool
        decreases hay.len(),
    {
        if hay.len() == 0 {
            self.accept@[s]
        } else {
            self.accepts_along(s, hay.drop_last()) || self.accept@[self.run(s, hay)]
        }
    }

    /// `ids[s]` is the automaton state core state `s` stands for, each core state standing
    /// for its own, and the table and accept set say of the ids exactly what `dfa` says of
    /// the states.
    pub open spec fn models<D: Dfa>(&self, dfa: &D, ids: Seq<D::State>) -> bool {
        &&& ids.len() == self.states
        &&& ids.no_duplicates()
        &&& dfa.start_spec() == Some(ids[0])
        &&& forall|s: int, b: u8|
            0 <= s < self.states ==> #[trigger] ids[self.succ(s, b)] == dfa.next_spec(ids[s], b)
        &&& forall|s: int|
            0 <= s < self.states ==> #[trigger] self.accept@[s] == matches_at(dfa, ids[s])
        &&& forall|s: int, b: u8|
            0 <= s < self.states ==> !dfa.is_quit_spec(#[trigger] dfa.next_spec(ids[s], b))
    }

    /// Core state `k` is the successor of an earlier core state `s` on byte `b`, and every
    /// earlier pair (an earlier state, or `s` on an earlier byte) leads to a state
    /// numbered below `k`: `(s, b)` is where a breadth-first walk over bytes first
    /// reaches `k`.
    pub open spec fn first_reached_at(&self, k: int, s: int, b: u8) -> bool {
        &&& 0 <= s < k
        &&& self.succ(s, b) == k
        &&& forall|s2: int, b2: u8|
            0 <= s2 < self.states && (s2 < s || (s2 == s && b2 < b)) ==> #[trigger] self.succ(
                s2,
                b2,
            ) < k
    }

    /// Some pair is where a breadth-first walk first reaches core state `k`.
    pub open spec fn first_reached(&self, k: int) -> bool {
        exists|s: int, b: u8| #[trigger] self.first_reached_at(k, s, b)
    }

    /// The numbering a breadth-first walk gives: every core state but the start in the
    /// order the walk first reaches it, and the byte classes in the order the bytes first
    /// show them. With faithfulness and exact classes this leaves one projection per
    /// automaton ([`Projection::lemma_walk_numbering_is_unique`]).
    pub open spec fn walk_numbered(&self) -> bool {
        &&& forall|k: int| 1 <= k < self.states ==> #[trigger] self.first_reached(k)
        &&& canonical(self.class_of@)
        &&& self.classes == next_label(self.class_of@)
    }

    /// There is a labelling under which this projection models `dfa`.
    pub open spec fn faithful<D: Dfa>(&self, dfa: &D) -> bool {
        exists|ids: Seq<D::State>| self.models(dfa, ids)
    }

    /// The successor of core state `s` on class `k`.
    pub fn step(&self, s: u16, k: usize) -> (r: u16)
        requires
            self.wf(),
            s < self.states,
            k < self.classes,
        ensures
            r == self.next(s as int, k as int),
            r < self.states,
    {
        proof {
            lemma_slot(s as int, k as int, self.states as int, self.classes as int);
            assert(self.states * self.classes <= 96 * 256) by (nonlinear_arith)
                requires
                    self.states <= 96,
                    self.classes <= 256,
            ;
        }
        self.delta[s as usize * self.classes + k]
    }

    /// Core runs stay inside the core.
    pub proof fn lemma_run_in_core(&self, s: int, hay: Seq<u8>)
        requires
            self.wf(),
            0 <= s < self.states,
        ensures
            0 <= self.run(s, hay) < self.states,
        decreases hay.len(),
    {
        if hay.len() > 0 {
            self.lemma_run_in_core(s, hay.drop_last());
            let r = self.run(s, hay.drop_last());
            let k = self.class_of[hay.last() as int] as int;
            lemma_slot(r, k, self.states as int, self.classes as int);
        }
    }

    /// A projection that models `dfa` runs in lockstep with it, so the core accepts
    /// along a document exactly when the automaton matches along it.
    pub proof fn lemma_models_runs<D: Dfa>(&self, dfa: &D, ids: Seq<D::State>, hay: Seq<u8>)
        requires
            self.wf(),
            self.models(dfa, ids),
        ensures
            ids[self.run(0, hay)] == dfa_run(dfa, ids[0], hay),
            self.accepts_along(0, hay) == matches_along(dfa, ids[0], hay),
        decreases hay.len(),
    {
        self.lemma_run_in_core(0, hay);
        if hay.len() > 0 {
            self.lemma_models_runs(dfa, ids, hay.drop_last());
            self.lemma_run_in_core(0, hay.drop_last());
        }
    }

    /// A faithful projection accepts along a document exactly when the automaton has a
    /// match in it.
    pub proof fn lemma_faithful_matches<D: Dfa>(&self, dfa: &D, hay: Seq<u8>)
        requires
            self.wf(),
            self.faithful(dfa),
        ensures
            self.accepts_along(0, hay) == has_match(dfa, hay),
    {
        let ids = choose|ids: Seq<D::State>| self.models(dfa, ids);
        self.lemma_models_runs(dfa, ids, hay);
    }

    /// A faithful projection whose start state does not match leaves the automaton no
    /// reason to be declined: every state a nonempty string reaches is a successor the
    /// core models, none of them quits, and all the reachable states are among the core's.
    pub proof fn lemma_faithful_not_declined<D: Dfa>(&self, dfa: &D, d: Decline)
        requires
            self.wf(),
            self.faithful(dfa),
            dfa.start_spec() matches Some(s) && !dfa.is_match_spec(s),
        ensures
            !declined(dfa, d),
    {
        let ids = choose|ids: Seq<D::State>| self.models(dfa, ids);
        let start = ids[0];
        match d {
            Decline::Quits => {
                assert forall|hay: Seq<u8>| hay.len() > 0 implies !dfa.is_quit_spec(
                    dfa_run(dfa, start, hay),
                ) by {
                    let pre = hay.drop_last();
                    self.lemma_models_runs(dfa, ids, pre);
                    self.lemma_run_in_core(0, pre);
                    let s = self.run(0, pre);
                    assert(!dfa.is_quit_spec(dfa.next_spec(ids[s], hay.last())));
                }
            },
            Decline::MatchesEmpty => {},
            Decline::TooWide => {
                if declined(dfa, d) {
                    let xs = choose|xs: Seq<D::State>|
                        {
                            &&& xs.len() == MAX_CORE_STATES + 1
                            &&& xs.no_duplicates()
                            &&& forall|i: int| 0 <= i < xs.len() ==> reachable(dfa, #[trigger] xs[i])
                        };
                    assert forall|x: D::State| xs.to_set().contains(x) implies #[trigger] ids.to_set().contains(
                        x,
                    ) by {
                        let i = choose|i: int| 0 <= i < xs.len() && xs[i] == x;
                        assert(reachable(dfa, xs[i]));
                        let hay = choose|hay: Seq<u8>| #[trigger] dfa_run(dfa, start, hay) == x;
                        self.lemma_models_runs(dfa, ids, hay);
                        self.lemma_run_in_core(0, hay);
                        assert(ids[self.run(0, hay)] == x);
                    }
                    xs.unique_seq_to_set();
                    ids.lemma_cardinality_of_set();
                    vstd::set_lib::lemma_len_subset(xs.to_set(), ids.to_set());
                }
            },
        }
    }

    /// The walk's numbering leaves one projection per automaton: two faithful projections
    /// of `dfa` with exact classes, both numbered as the walk numbers, are the same table.
    pub proof fn lemma_walk_numbering_is_unique<D: Dfa>(&self, other: &Projection, dfa: &D)
        requires
            self.wf(),
            other.wf(),
            self.faithful(dfa),
            other.faithful(dfa),
            self.classes_exact(),
            other.classes_exact(),
            self.walk_numbered(),
            other.walk_numbered(),
        ensures
            self.states == other.states,
            self.classes == other.classes,
            self.class_of == other.class_of,
            self.delta@ == other.delta@,
            self.accept@ == other.accept@,
            self.start == other.start,
    {
        let ia = choose|ids: Seq<D::State>| self.models(dfa, ids);
        let ib = choose|ids: Seq<D::State>| other.models(dfa, ids);
        let m = if self.states < other.states { self.states as int } else { other.states as int };
        lemma_ids_agree(self, other, dfa, ia, ib, m - 1);
        lemma_same_size(self, other, dfa, ia, ib);
        lemma_same_size(other, self, dfa, ib, ia);
        assert(ia =~= ib);
        assert forall|t: int, x: u8| 0 <= t < self.states implies #[trigger] self.succ(t, x)
            == other.succ(t, x) by {
            self.lemma_succ_in_core(t, x);
            other.lemma_succ_in_core(t, x);
            assert(ia[self.succ(t, x)] == dfa.next_spec(ia[t], x));
            assert(ib[other.succ(t, x)] == dfa.next_spec(ib[t], x));
        }
        assert(same_kernel(self.class_of@, other.class_of@)) by {
            assert forall|i: int, j: int| 0 <= i < 256 && 0 <= j < 256 implies (
            #[trigger] self.class_of@[i] == #[trigger] self.class_of@[j] <==> other.class_of@[i]
                == other.class_of@[j]) by {
                let (x, y) = (i as u8, j as u8);
                assert(self.class_of@[i] == self.class_of[x as int]);
                assert(other.class_of@[i] == other.class_of[x as int]);
                assert(self.class_of@[j] == self.class_of[y as int]);
                assert(other.class_of@[j] == other.class_of[y as int]);
                if self.class_of[x as int] == self.class_of[y as int] {
                    assert forall|t: int| 0 <= t < other.states implies #[trigger] other.succ(t, x)
                        == other.succ(t, y) by {
                        assert(self.succ(t, x) == self.succ(t, y));
                    }
                }
                if other.class_of[x as int] == other.class_of[y as int] {
                    assert forall|t: int| 0 <= t < self.states implies #[trigger] self.succ(t, x)
                        == self.succ(t, y) by {
                        assert(other.succ(t, x) == other.succ(t, y));
                    }
                }
            }
        }
        lemma_canonical_unique(self.class_of@, other.class_of@);
        assert(self.class_of =~= other.class_of);
        let n = self.states as int;
        let c = self.classes as int;
        lemma_covers(self.class_of@);
        assert forall|i: int| 0 <= i < self.delta@.len() implies #[trigger] self.delta@[i]
            == other.delta@[i] by {
            lemma_div_slot(i, n, c);
            let t = i / c;
            let k = i % c;
            assert(uses(self.class_of@, k));
            let x = choose|x: int| 0 <= x < 256 && #[trigger] self.class_of@[x] == k;
            assert(self.class_of[(x as u8) as int] == k);
            assert(self.succ(t, x as u8) == other.succ(t, x as u8));
        }
        assert(self.delta@ =~= other.delta@);
        assert forall|t: int| 0 <= t < n implies #[trigger] self.accept@[t] == other.accept@[t] by {
            assert(ia[t] == ib[t]);
        }
        assert(self.accept@ =~= other.accept@);
    }

    /// Walk `dfa` and project it, or say why not.
    ///
    /// `Quits` when the automaton names no start state or some nonempty byte string
    /// reaches a quit state; `MatchesEmpty` when the start state matches; `TooWide`
    /// when more than [`MAX_CORE_STATES`] distinct states are reachable. Which refusal
    /// comes first when several apply follows the breadth-first walk.
    pub fn of<D: Dfa>(dfa: &D) -> (r: Result<Projection, Decline>)
        requires
            vstd::laws_eq::obeys_concrete_eq::<D::State>(),
        ensures
            r matches Ok(p) ==> {
                &&& p.wf()
                &&& p.faithful(dfa)
                &&& p.walk_numbered()
                &&& forall|d: Decline| !#[trigger] declined(dfa, d)
                &&& p.classes_exact()
                &&& (dfa.start_spec() matches Some(s) && !dfa.is_match_spec(s))
            },
            r matches Err(d) ==> declined(dfa, d),
            r is Ok <==> refusal(dfa) is None,
            r matches Err(d) ==> refusal(dfa) == Some(d),
    {
        proof {
            lemma_refusal_first_steps(dfa);
        }
        let start = match dfa.start() {
            Some(s) => s,
            None => {
                return Err(Decline::Quits);
            },
        };
        if dfa.is_match(start) {
            return Err(Decline::MatchesEmpty);
        }
        let (ids, rows, accepts) = match explore(dfa, start) {
            Ok(found) => found,
            Err(why) => {
                return Err(why);
            },
        };
        let states = ids.len();
        let (class_of, reps) = refine(&rows);
        let classes = reps.len();
        let delta = table(&rows, &reps);
        let p = Projection { states, classes, delta, accept: accepts, start: 0, class_of };
        proof {
            lemma_walk_projects(&p, dfa, ids@, rows@, reps@, start);
        }
        Ok(p)
    }
}

/// The successor table over classes, row-major: each state's successor on each class's
/// first byte.
fn table(rows: &Vec<[u16; 256]>, reps: &Vec<u8>) -> (delta: Vec<u16>)
    requires
        1 <= rows@.len() <= MAX_CORE_STATES,
        1 <= reps@.len() <= 256,
        forall|k: int| 0 <= k < reps@.len() ==> #[trigger] reps@[k] < 256,
        forall|i: int, b: int|
            0 <= i < rows@.len() && 0 <= b < 256 ==> #[trigger] rows@[i][b] < rows@.len(),
    ensures
        delta@.len() == rows@.len() * reps@.len(),
        forall|t: int, k: int|
            0 <= t < rows@.len() && 0 <= k < reps@.len() ==> #[trigger] delta@[t * reps@.len() + k]
                == rows@[t][reps@[k] as int],
{
let states = rows.len();
let classes = reps.len();
let mut delta: Vec<u16> = Vec::new();
    let mut s: usize = 0;
    while s < states
        invariant
            states == rows@.len(),
            1 <= states <= MAX_CORE_STATES,
            1 <= classes <= 256,
            classes == reps@.len(),
            s <= states,
            delta@.len() == s * classes,
            forall|k: int| 0 <= k < classes ==> #[trigger] reps@[k] < 256,
            forall|i: int, b: int|
                0 <= i < states && 0 <= b < 256 ==> #[trigger] rows@[i][b] < states,
            forall|t: int, k: int|
                0 <= t < s && 0 <= k < classes ==> #[trigger] delta@[t * classes + k]
                    == rows@[t][reps@[k] as int],
        decreases states - s,
    {
        let mut k: usize = 0;
        while k < classes
            invariant
                states == rows@.len(),
                1 <= states <= MAX_CORE_STATES,
                1 <= classes <= 256,
                classes == reps@.len(),
                s < states,
                k <= classes,
                delta@.len() == s * classes + k,
                forall|j: int| 0 <= j < classes ==> #[trigger] reps@[j] < 256,
                forall|i: int, b: int|
                    0 <= i < states && 0 <= b < 256 ==> #[trigger] rows@[i][b] < states,
                forall|t: int, j: int|
                    0 <= t < s && 0 <= j < classes ==> #[trigger] delta@[t * classes + j]
                        == rows@[t][reps@[j] as int],
                forall|j: int|
                    0 <= j < k ==> #[trigger] delta@[s * classes + j] == rows@[s as int][reps@[j] as int],
            decreases classes - k,
        {
            proof {
                lemma_slot(s as int, k as int, states as int, classes as int);
            }
            delta.push(rows[s][reps[k] as usize]);
            proof {
                assert forall|t: int, j: int|
                    0 <= t < s && 0 <= j < classes implies #[trigger] delta@[t * classes + j]
                        == rows@[t][reps@[j] as int] by {
                    lemma_slot(t, j, s as int, classes as int);
                }
            }
            k += 1;
        }
        proof {
            assert forall|t: int, j: int|
                0 <= t < s + 1 && 0 <= j < classes implies #[trigger] delta@[t * classes + j]
                    == rows@[t][reps@[j] as int] by {
                if t == s {
                    assert(delta@[s * classes + j] == rows@[s as int][reps@[j] as int]);
                }
            }
            assert((s + 1) * classes == s * classes + classes) by (nonlinear_arith);
        }
        s += 1;
    }
    delta
}

/// What the walk found, tabled, is a well-formed projection that models the automaton
/// with exact classes and the walk's numbering, and leaves no reason to decline it.
proof fn lemma_walk_projects<D: Dfa>(
    p: &Projection,
    dfa: &D,
    ids: Seq<D::State>,
    rows: Seq<[u16; 256]>,
    reps: Seq<u8>,
    start: D::State,
)
    requires
        dfa.start_spec() == Some(start),
        !dfa.is_match_spec(start),
        1 <= ids.len() <= MAX_CORE_STATES,
        ids.no_duplicates(),
        ids[0] == start,
        rows.len() == ids.len(),
        p.accept@.len() == ids.len(),
        forall|s: int, b: int| 0 <= s < ids.len() && 0 <= b < 256 ==> #[trigger] rows[s][b] < ids.len(),
        forall|s: int, b: int|
            0 <= s < ids.len() && 0 <= b < 256 ==> ids[#[trigger] rows[s][b] as int] == dfa.next_spec(
                ids[s],
                b as u8,
            ),
        forall|s: int, b: u8| 0 <= s < ids.len() ==> !dfa.is_quit_spec(#[trigger] dfa.next_spec(ids[s], b)),
        forall|s: int| 0 <= s < ids.len() ==> #[trigger] p.accept@[s] == matches_at(dfa, ids[s]),
        forall|k: int| 1 <= k < ids.len() ==> #[trigger] met(rows, k),
        p.states == ids.len(),
        p.classes == reps.len(),
        p.start == 0,
        1 <= reps.len() <= 256,
        forall|b: int| 0 <= b < 256 ==> #[trigger] p.class_of[b] < reps.len(),
        forall|k: int| 0 <= k < reps.len() ==> #[trigger] reps[k] < 256,
        forall|k: int| 0 <= k < reps.len() ==> p.class_of[#[trigger] reps[k] as int] == k,
        forall|b: int| 0 <= b < 256 ==> same_column(rows, reps[#[trigger] p.class_of[b] as int] as int, b),
        forall|a: int, b: int|
            0 <= a < 256 && 0 <= b < 256 ==> (#[trigger] p.class_of[a] == #[trigger] p.class_of[b]
                <==> same_column(rows, a, b)),
        canonical(p.class_of@),
        reps.len() == next_label(p.class_of@),
        p.delta@.len() == rows.len() * reps.len(),
        forall|t: int, k: int|
            0 <= t < rows.len() && 0 <= k < reps.len() ==> #[trigger] p.delta@[t * reps.len() + k]
                == rows[t][reps[k] as int],
    ensures
        p.wf(),
        p.faithful(dfa),
        p.walk_numbered(),
        forall|d: Decline| !#[trigger] declined(dfa, d),
        p.classes_exact(),
{
    assert forall|i: int| 0 <= i < p.delta@.len() implies #[trigger] p.delta@[i] < p.states by {
        let t = i / (p.classes as int);
        let j = i % (p.classes as int);
        lemma_div_slot(i, p.states as int, p.classes as int);
        assert(p.delta@[t * p.classes + j] == rows[t][reps[j] as int]);
    }
    assert forall|t: int, b: u8| 0 <= t < p.states implies p.succ(t, b) == rows[t][b as int] by {
        let k = p.class_of[b as int] as int;
        assert(p.delta@[t * p.classes + k] == rows[t][reps[k] as int]);
        assert(same_column(rows, reps[k] as int, b as int));
    }
    assert(p.models(dfa, ids));
    assert forall|a: u8, b: u8|
        #[trigger] p.class_of[a as int] == #[trigger] p.class_of[b as int] <==> forall|t: int|
            0 <= t < p.states ==> #[trigger] p.succ(t, a) == p.succ(t, b) by {
        if forall|t: int| 0 <= t < p.states ==> #[trigger] p.succ(t, a) == p.succ(t, b) {
            assert forall|t: int| 0 <= t < rows.len() implies #[trigger] rows[t][a as int]
                == rows[t][b as int] by {
                assert(p.succ(t, a) == rows[t][a as int]);
                assert(p.succ(t, b) == rows[t][b as int]);
            }
            assert(same_column(rows, a as int, b as int));
        }
        if p.class_of[a as int] == p.class_of[b as int] {
            assert(same_column(rows, a as int, b as int));
            assert forall|t: int| 0 <= t < p.states implies #[trigger] p.succ(t, a) == p.succ(t, b) by {
                assert(p.succ(t, a) == rows[t][a as int]);
                assert(p.succ(t, b) == rows[t][b as int]);
            }
        }
    }
    assert forall|d: Decline| !#[trigger] declined(dfa, d) by {
        p.lemma_faithful_not_declined(dfa, d);
    }
    lemma_reached_as_walked(p, rows);
}

/// Row-major slots stay inside the table.
proof fn lemma_slot(s: int, k: int, states: int, classes: int)
    requires
        0 <= s < states,
        0 <= k < classes,
    ensures
        0 <= s * classes + k < states * classes,
        s * classes + k + 1 <= states * classes,
{
    assert(s * classes + k < states * classes) by (nonlinear_arith)
        requires
            0 <= s < states,
            0 <= k < classes,
    ;
    assert(0 <= s * classes) by (nonlinear_arith)
        requires
            0 <= s,
            0 <= k < classes,
    ;
}

/// A slot splits back into its row and column.
proof fn lemma_div_slot(i: int, states: int, classes: int)
    requires
        0 <= i < states * classes,
        classes > 0,
    ensures
        0 <= i / classes < states,
        0 <= i % classes < classes,
        i == (i / classes) * classes + i % classes,
{
    assert(0 <= i / classes < states) by (nonlinear_arith)
        requires
            0 <= i < states * classes,
            classes > 0,
    ;
    assert(i == (i / classes) * classes + i % classes) by (nonlinear_arith)
        requires
            classes > 0,
    ;
}

/// A table whose rows are the walk's rows reaches each state where the walk met it.
proof fn lemma_reached_as_walked(p: &Projection, rows: Seq<[u16; 256]>)
    requires
        rows.len() == p.states,
        forall|t: int, b: u8| 0 <= t < p.states ==> #[trigger] p.succ(t, b) == rows[t][b as int],
        forall|k: int| 1 <= k < p.states ==> #[trigger] met(rows, k),
    ensures
        forall|k: int| 1 <= k < p.states ==> #[trigger] p.first_reached(k),
{
    assert forall|k: int| 1 <= k < p.states implies #[trigger] p.first_reached(k) by {
        assert(met(rows, k));
        let (t, b) = choose|t: int, b: int| #[trigger] met_at(rows, k, t, b);
        assert(p.succ(t, b as u8) == rows[t][b]);
        assert forall|s2: int, b2: u8|
            0 <= s2 < p.states && (s2 < t || (s2 == t && b2 < b as u8)) implies #[trigger] p.succ(
            s2,
            b2,
        ) < k by {
            assert(p.succ(s2, b2) == rows[s2][b2 as int]);
        }
        assert(p.first_reached_at(k, t, b as u8));
    }
}

/// Two projections of `dfa` numbered as the walk numbers stand for the same automaton
/// state at every core state both have, up to `k`.
proof fn lemma_ids_agree<D: Dfa>(
    a: &Projection,
    b: &Projection,
    dfa: &D,
    ia: Seq<D::State>,
    ib: Seq<D::State>,
    k: int,
)
    requires
        a.wf(),
        b.wf(),
        a.models(dfa, ia),
        b.models(dfa, ib),
        a.walk_numbered(),
        b.walk_numbered(),
        k < a.states,
        k < b.states,
    ensures
        forall|j: int| 0 <= j <= k ==> #[trigger] ia[j] == ib[j],
    decreases k,
{
    if k > 0 {
        lemma_ids_agree(a, b, dfa, ia, ib, k - 1);
        assert(a.first_reached(k) && b.first_reached(k));
        let (s, x) = choose|s: int, x: u8| #[trigger] a.first_reached_at(k, s, x);
        let (t, y) = choose|t: int, y: u8| #[trigger] b.first_reached_at(k, t, y);
        assert(ia[k] == dfa.next_spec(ia[s], x));
        assert(ib[k] == dfa.next_spec(ib[t], y));
        if s < t || (s == t && x < y) {
            let j = b.succ(s, x);
            assert(j < k);
            assert(ib[j] == dfa.next_spec(ib[s], x));
            assert(ia[j] == ia[k]);
            assert(false);
        } else if t < s || (t == s && y < x) {
            let j = a.succ(t, y);
            assert(j < k);
            assert(ia[j] == dfa.next_spec(ia[t], y));
            assert(ib[j] == ib[k]);
            assert(false);
        } else {
            assert(s == t && x == y);
        }
    }
}

/// The projection numbered as the walk numbers has no core state the other lacks.
proof fn lemma_same_size<D: Dfa>(a: &Projection, b: &Projection, dfa: &D, ia: Seq<D::State>, ib: Seq<D::State>)
    requires
        a.wf(),
        b.wf(),
        a.models(dfa, ia),
        b.models(dfa, ib),
        a.walk_numbered(),
        b.walk_numbered(),
        forall|j: int| 0 <= j < a.states && j < b.states ==> #[trigger] ia[j] == ib[j],
    ensures
        b.states <= a.states,
{
    if a.states < b.states {
        let k = a.states as int;
        assert(b.first_reached(k));
        let (t, y) = choose|t: int, y: u8| #[trigger] b.first_reached_at(k, t, y);
        let j = a.succ(t, y);
        a.lemma_succ_in_core(t, y);
        assert(0 <= j < k);
        assert(ia[j] == dfa.next_spec(ia[t], y));
        assert(ib[k] == dfa.next_spec(ib[t], y));
        assert(ib[j] == ib[k]);
        assert(false);
    }
}

/// In `rows`, state `k` is the successor of the pair `(p, b)`, and every pair before it,
/// state by state and byte by byte, leads to a state numbered below `k`: `(p, b)` is
/// where a breadth-first walk first meets `k`.
spec fn met_at(rows: Seq<[u16; 256]>, k: int, p: int, b: int) -> bool {
    &&& 0 <= p < rows.len()
    &&& p < k
    &&& 0 <= b < 256
    &&& rows[p][b] == k
    &&& forall|p2: int, b2: int|
        0 <= p2 < rows.len() && 0 <= b2 < 256 && (p2 < p || (p2 == p && b2 < b))
            ==> #[trigger] rows[p2][b2] < k
}

/// Some pair is where a breadth-first walk over `rows` first meets `k`.
spec fn met(rows: Seq<[u16; 256]>, k: int) -> bool {
    exists|p: int, b: int| #[trigger] met_at(rows, k, p, b)
}

/// State `k` is met, in the walk half done, either in a finished row or in the part of
/// the current row `next` read so far.
spec fn met_so_far(rows: Seq<[u16; 256]>, next: [u16; 256], byte: int, k: int, at: (int, int)) -> bool {
    ||| met_at(rows, k, at.0, at.1)
    ||| {
        &&& at.0 == rows.len()
        &&& at.0 < k
        &&& 0 <= at.1 < byte
        &&& next[at.1] == k
        &&& forall|p2: int, b2: int| 0 <= p2 < rows.len() && 0 <= b2 < 256 ==> #[trigger] rows[p2][b2] < k
        &&& forall|b2: int| 0 <= b2 < at.1 ==> #[trigger] next[b2] < k
    }
}

/// Breadth-first over all 256 bytes from `start`, recording every successor so the
/// class refinement needs no second walk of the automaton.
fn explore<D: Dfa>(dfa: &D, start: D::State) -> (r: Result<
    (Vec<D::State>, Vec<[u16; 256]>, Vec<bool>),
    Decline,
>)
    requires
        vstd::laws_eq::obeys_concrete_eq::<D::State>(),
        dfa.start_spec() == Some(start),
    ensures
        r matches Ok((ids, rows, accepts)) ==> {
            &&& 1 <= ids@.len() <= MAX_CORE_STATES
            &&& ids@.no_duplicates()
            &&& ids@[0] == start
            &&& rows@.len() == ids@.len()
            &&& accepts@.len() == ids@.len()
            &&& forall|s: int, b: int|
                0 <= s < ids@.len() && 0 <= b < 256 ==> #[trigger] rows@[s][b] < ids@.len()
            &&& forall|s: int, b: int|
                0 <= s < ids@.len() && 0 <= b < 256 ==> ids@[#[trigger] rows@[s][b] as int]
                    == dfa.next_spec(ids@[s], b as u8)
            &&& forall|s: int, b: u8|
                0 <= s < ids@.len() ==> !dfa.is_quit_spec(#[trigger] dfa.next_spec(ids@[s], b))
            &&& forall|s: int| 0 <= s < ids@.len() ==> #[trigger] accepts@[s] == matches_at(dfa, ids@[s])
            &&& forall|k: int| 1 <= k < ids@.len() ==> #[trigger] met(rows@, k)
        },
        r == Err::<(Vec<D::State>, Vec<[u16; 256]>, Vec<bool>), Decline>(Decline::Quits) ==> exists|
            hay: Seq<u8>,
        | hay.len() > 0 && dfa.is_quit_spec(dfa_run(dfa, start, hay)),
        r == Err::<(Vec<D::State>, Vec<[u16; 256]>, Vec<bool>), Decline>(Decline::TooWide) ==> exists|
            xs: Seq<D::State>,
        |
            {
                &&& xs.len() == MAX_CORE_STATES + 1
                &&& xs.no_duplicates()
                &&& forall|i: int| 0 <= i < xs.len() ==> reachable(dfa, #[trigger] xs[i])
            },
        r != Err::<(Vec<D::State>, Vec<[u16; 256]>, Vec<bool>), Decline>(Decline::MatchesEmpty),
        r is Ok ==> walk_refusal(dfa, seq![start], 0, 0) is None,
        r matches Err(d) ==> walk_refusal(dfa, seq![start], 0, 0) == Some(d),
{
    let mut ids: Vec<D::State> = Vec::new();
    ids.push(start);
    let ghost mut words: Seq<Seq<u8>> = seq![Seq::<u8>::empty()];
    let mut rows: Vec<[u16; 256]> = Vec::new();
    let mut accepts: Vec<bool> = Vec::new();
    let mut head: usize = 0;
    let ghost mut disc: Seq<(int, int)> = seq![(0int, 0int)];
    let ghost first = walk_refusal(dfa, seq![start], 0, 0);
    proof {
        assert(ids@ =~= seq![start]);
    }
    while head < ids.len()
        invariant
            walk_refusal(dfa, ids@, head as int, 0) == first,
            first == walk_refusal(dfa, seq![start], 0, 0),
            disc.len() == ids@.len(),
            forall|k: int| 1 <= k < ids@.len() ==> #[trigger] met_at(rows@, k, disc[k].0, disc[k].1),
            vstd::laws_eq::obeys_concrete_eq::<D::State>(),
            dfa.start_spec() == Some(start),
            1 <= ids@.len() <= MAX_CORE_STATES,
            ids@[0] == start,
            ids@.no_duplicates(),
            words.len() == ids@.len(),
            forall|k: int| 0 <= k < ids@.len() ==> dfa_run(dfa, start, #[trigger] words[k]) == ids@[k],
            head == rows@.len(),
            head == accepts@.len(),
            head <= ids@.len(),
            forall|s: int, b: int|
                0 <= s < head && 0 <= b < 256 ==> #[trigger] rows@[s][b] < ids@.len(),
            forall|s: int, b: int|
                0 <= s < head && 0 <= b < 256 ==> ids@[#[trigger] rows@[s][b] as int]
                    == dfa.next_spec(ids@[s], b as u8),
            forall|s: int, b: u8|
                0 <= s < head ==> !dfa.is_quit_spec(#[trigger] dfa.next_spec(ids@[s], b)),
            forall|s: int| 0 <= s < head ==> #[trigger] accepts@[s] == matches_at(dfa, ids@[s]),
        decreases MAX_CORE_STATES - head,
    {
        let s = ids[head];
        let mut next = [0u16; 256];
        let mut byte: usize = 0;
        while byte < 256
            invariant
                walk_refusal(dfa, ids@, head as int, byte as int) == first,
                first == walk_refusal(dfa, seq![start], 0, 0),
                disc.len() == ids@.len(),
                forall|k: int|
                    1 <= k < ids@.len() ==> #[trigger] met_so_far(rows@, next, byte as int, k, disc[k]),
                vstd::laws_eq::obeys_concrete_eq::<D::State>(),
                dfa.start_spec() == Some(start),
                1 <= ids@.len() <= MAX_CORE_STATES,
                ids@[0] == start,
                ids@.no_duplicates(),
                words.len() == ids@.len(),
                forall|k: int| 0 <= k < ids@.len() ==> dfa_run(dfa, start, #[trigger] words[k]) == ids@[k],
                head == rows@.len(),
                head == accepts@.len(),
                head < ids@.len(),
                s == ids@[head as int],
                byte <= 256,
                forall|t: int, b: int|
                    0 <= t < head && 0 <= b < 256 ==> #[trigger] rows@[t][b] < ids@.len(),
                forall|t: int, b: int|
                    0 <= t < head && 0 <= b < 256 ==> ids@[#[trigger] rows@[t][b] as int]
                        == dfa.next_spec(ids@[t], b as u8),
                forall|t: int, b: u8|
                    0 <= t < head ==> !dfa.is_quit_spec(#[trigger] dfa.next_spec(ids@[t], b)),
                forall|t: int| 0 <= t < head ==> #[trigger] accepts@[t] == matches_at(dfa, ids@[t]),
                forall|b: int| 0 <= b < byte ==> #[trigger] next[b] < ids@.len(),
                forall|b: int|
                    0 <= b < byte ==> ids@[#[trigger] next[b] as int] == dfa.next_spec(s, b as u8),
                forall|b: int| 0 <= b < byte ==> !dfa.is_quit_spec(#[trigger] dfa.next_spec(s, b as u8)),
            decreases 256 - byte,
        {
            let ghost prior_next = next;
            let ghost prior_len = ids@.len();
            let t = dfa.next(s, byte as u8);
            let ghost word = words[head as int].push(byte as u8);
            proof {
                assert(word.drop_last() =~= words[head as int]);
                assert(dfa_run(dfa, start, word) == t);
            }
            if dfa.is_quit(t) {
                proof {
                    assert(word.len() > 0 && dfa.is_quit_spec(dfa_run(dfa, start, word)));
                }
                return Err(Decline::Quits);
            }
            match index_of(&ids, t) {
                Some(known) => {
                    next[byte] = known as u16;
                },
                None => {
                    if ids.len() == MAX_CORE_STATES {
                        proof {
                            let xs = ids@.push(t);
                            assert forall|i: int, j: int|
                                0 <= i < xs.len() && 0 <= j < xs.len() && i != j implies xs[i]
                                != xs[j] by {
                                if i == xs.len() - 1 {
                                    assert(!ids@.contains(t));
                                    assert(xs[j] == ids@[j]);
                                } else if j == xs.len() - 1 {
                                    assert(!ids@.contains(t));
                                    assert(xs[i] == ids@[i]);
                                }
                            }
                            assert forall|i: int| 0 <= i < xs.len() implies reachable(dfa, #[trigger] xs[i]) by {
                                assert(dfa.start_spec() == Some(start));
                                let w = if i == xs.len() - 1 { word } else { words[i] };
                                if i == xs.len() - 1 {
                                    assert(xs[i] == t);
                                } else {
                                    assert(xs[i] == ids@[i]);
                                }
                                assert(dfa_run(dfa, start, w) == xs[i]);
                                assert(dfa.start_spec()->Some_0 == start);
                                assert(dfa_run(dfa, dfa.start_spec()->Some_0, w) == xs[i]);
                                assert(reachable(dfa, xs[i]));
                            }
                            assert(xs.len() == MAX_CORE_STATES + 1);
                        }
                        return Err(Decline::TooWide);
                    }
                    let fresh = ids.len();
                    let ghost before = ids@;
                    ids.push(t);
                    proof {
                        disc = disc.push((head as int, byte as int));
                        words = words.push(word);
                        assert forall|i: int, j: int|
                            0 <= i < ids@.len() && 0 <= j < ids@.len() && i != j implies ids@[i]
                            != ids@[j] by {
                            if i == ids@.len() - 1 {
                                assert(ids@[j] == before[j]);
                            } else if j == ids@.len() - 1 {
                                assert(ids@[i] == before[i]);
                            }
                        }
                    }
                    next[byte] = fresh as u16;
                },
            }
            proof {
                assert forall|k: int| 1 <= k < ids@.len() implies #[trigger] met_so_far(
                    rows@,
                    next,
                    byte + 1,
                    k,
                    disc[k],
                ) by {
                    let at = disc[k];
                    if k < prior_len {
                        assert(met_so_far(rows@, prior_next, byte as int, k, at));
                        if !met_at(rows@, k, at.0, at.1) {
                            assert(at.1 < byte);
                            assert(next[at.1] == prior_next[at.1]);
                            assert forall|b2: int| 0 <= b2 < at.1 implies #[trigger] next[b2] < k by {
                                assert(next[b2] == prior_next[b2]);
                            }
                        }
                    } else {
                        assert(at == (head as int, byte as int));
                        assert(next[byte as int] == k);
                        assert forall|b2: int| 0 <= b2 < at.1 implies #[trigger] next[b2] < k by {
                            assert(next[b2] == prior_next[b2]);
                        }
                    }
                }
            }
            byte += 1;
        }
        let accepts_here = dfa.is_match(s) || dfa.is_match(dfa.next_eoi(s));
        let ghost done_rows = rows@;
        rows.push(next);
        accepts.push(accepts_here);
        proof {
            assert forall|k: int| 1 <= k < ids@.len() implies #[trigger] met_at(
                rows@,
                k,
                disc[k].0,
                disc[k].1,
            ) by {
                assert(met_so_far(done_rows, next, 256, k, disc[k]));
                assert(forall|t: int| 0 <= t < done_rows.len() ==> rows@[t] == done_rows[t]);
                assert(rows@[head as int] == next);
            }
            assert forall|t: int, b: u8| 0 <= t < head + 1 implies !dfa.is_quit_spec(
                #[trigger] dfa.next_spec(ids@[t], b),
            ) by {
                if t == head {
                    assert(!dfa.is_quit_spec(dfa.next_spec(s, (b as int) as u8)));
                }
            }
        }
        head += 1;
    }
    proof {
        assert forall|k: int| 1 <= k < ids@.len() implies #[trigger] met(rows@, k) by {
            assert(met_at(rows@, k, disc[k].0, disc[k].1));
        }
    }
    Ok((ids, rows, accepts))
}

/// Where `x` sits in `v`, by equality alone.
fn index_of<S: PartialEq + Copy>(v: &Vec<S>, x: S) -> (r: Option<usize>)
    requires
        vstd::laws_eq::obeys_concrete_eq::<S>(),
    ensures
        r matches Some(i) ==> i < v@.len() && v@[i as int] == x,
        r is None ==> !v@.contains(x),
{
    proof {
        reveal(vstd::laws_eq::obeys_concrete_eq);
    }
    let mut i: usize = 0;
    while i < v.len()
        invariant
            i <= v@.len(),
            vstd::laws_eq::obeys_concrete_eq::<S>(),
            forall|j: int| 0 <= j < i ==> v@[j] != x,
        decreases v@.len() - i,
    {
        proof {
            reveal(vstd::laws_eq::obeys_concrete_eq);
        }
        if v[i] == x {
            return Some(i);
        }
        i += 1;
    }
    None
}

/// Do rows `a` and `b` of every successor row agree?
fn columns_agree(rows: &Vec<[u16; 256]>, a: usize, b: usize) -> (r: bool)
    requires
        a < 256,
        b < 256,
    ensures
        r == same_column(rows@, a as int, b as int),
{
    let mut s: usize = 0;
    while s < rows.len()
        invariant
            a < 256,
            b < 256,
            s <= rows@.len(),
            forall|t: int| 0 <= t < s ==> #[trigger] rows@[t][a as int] == rows@[t][b as int],
        decreases rows@.len() - s,
    {
        if rows[s][a] != rows[s][b] {
            return false;
        }
        s += 1;
    }
    true
}

/// Group bytes no core state routes differently: the exact partition, numbered in
/// first-seen order, with the first byte of each class as its representative.
fn refine(rows: &Vec<[u16; 256]>) -> (r: ([u8; 256], Vec<u8>))
    ensures
        1 <= r.1@.len() <= 256,
        forall|b: int| 0 <= b < 256 ==> #[trigger] r.0[b] < r.1@.len(),
        forall|k: int| 0 <= k < r.1@.len() ==> #[trigger] r.1@[k] < 256,
        forall|k: int| 0 <= k < r.1@.len() ==> r.0[#[trigger] r.1@[k] as int] == k,
        forall|b: int| 0 <= b < 256 ==> same_column(rows@, r.1@[#[trigger] r.0[b] as int] as int, b),
        forall|a: int, b: int|
            0 <= a < 256 && 0 <= b < 256 ==> (#[trigger] r.0[a] == #[trigger] r.0[b] <==> same_column(
                rows@,
                a,
                b,
            )),
        canonical(r.0@),
        r.1@.len() == next_label(r.0@),
{
    let mut class_of = [0u8; 256];
    let mut reps: Vec<u8> = Vec::new();
    let mut byte: usize = 0;
    while byte < 256
        invariant
            byte <= 256,
            reps@.len() <= byte,
            byte > 0 ==> reps@.len() >= 1,
            forall|k: int| 0 <= k < reps@.len() ==> #[trigger] reps@[k] < byte,
            forall|b: int| 0 <= b < byte ==> #[trigger] class_of[b] < reps@.len(),
            forall|k: int| 0 <= k < reps@.len() ==> class_of[#[trigger] reps@[k] as int] == k,
            forall|b: int|
                0 <= b < byte ==> same_column(rows@, reps@[#[trigger] class_of[b] as int] as int, b),
            forall|j: int, k: int|
                0 <= j < reps@.len() && 0 <= k < reps@.len() && j != k ==> !same_column(
                    rows@,
                    #[trigger] reps@[j] as int,
                    #[trigger] reps@[k] as int,
                ),
            canonical(class_of@.take(byte as int)),
            reps@.len() == next_label(class_of@.take(byte as int)),
        decreases 256 - byte,
    {
        let ghost prefix = class_of@.take(byte as int);
        let mut k: usize = 0;
        let mut found = false;
        while k < reps.len() && !found
            invariant
                byte < 256,
                k <= reps@.len(),
                forall|j: int| 0 <= j < reps@.len() ==> #[trigger] reps@[j] < byte,
                found ==> k < reps@.len() && same_column(rows@, reps@[k as int] as int, byte as int),
                !found ==> forall|j: int|
                    0 <= j < k ==> !same_column(rows@, #[trigger] reps@[j] as int, byte as int),
            decreases reps@.len() - k + (if found { 0int } else { 1int }),
        {
            if columns_agree(rows, reps[k] as usize, byte) {
                found = true;
            } else {
                k += 1;
            }
        }
        if found {
            class_of[byte] = k as u8;
        } else {
            class_of[byte] = reps.len() as u8;
            reps.push(byte as u8);
        }
        proof {
            let label = class_of[byte as int];
            let after = class_of@.take(byte + 1);
            assert(after =~= prefix.push(label));
            lemma_top_push(prefix, label);
            if prefix.len() > 0 {
                lemma_covers(prefix);
            }
            assert forall|t: int| 0 <= t < after.len() implies #[trigger] after[t] <= next_label(
                after.take(t),
            ) by {
                if t < byte {
                    assert(after.take(t) =~= prefix.take(t));
                    assert(after[t] == prefix[t]);
                } else {
                    assert(after.take(t) =~= prefix);
                }
            }
        }
        byte += 1;
    }
    proof {
        assert(class_of@.take(256) =~= class_of@);
    }
    proof {
        assert forall|a: int, b: int|
            0 <= a < 256 && 0 <= b < 256 implies (#[trigger] class_of[a] == #[trigger] class_of[b]
            <==> same_column(rows@, a, b)) by {
            let ka = class_of[a] as int;
            let kb = class_of[b] as int;
            assert(same_column(rows@, reps@[ka] as int, a));
            assert(same_column(rows@, reps@[kb] as int, b));
            if same_column(rows@, a, b) && ka != kb {
                assert(same_column(rows@, reps@[ka] as int, reps@[kb] as int)) by {
                    assert forall|s: int| 0 <= s < rows@.len() implies #[trigger] rows@[s][reps@[ka] as int]
                        == rows@[s][reps@[kb] as int] by {
                        assert(rows@[s][reps@[ka] as int] == rows@[s][a]);
                        assert(rows@[s][reps@[kb] as int] == rows@[s][b]);
                        assert(rows@[s][a] == rows@[s][b]);
                    }
                }
            }
            if ka == kb {
                assert forall|s: int| 0 <= s < rows@.len() implies #[trigger] rows@[s][a] == rows@[s][b] by {
                    assert(rows@[s][reps@[ka] as int] == rows@[s][a]);
                    assert(rows@[s][reps@[kb] as int] == rows@[s][b]);
                }
            }
        }
    }
    (class_of, reps)
}

} // verus!
