//! The SP-partition lattice harvest: where an over-approximating automaton comes
//! from, and why rejecting on it is sound.

use vstd::prelude::*;

use crate::projection::{Projection, MAX_CORE_STATES};

pub mod canon;

use canon::{
    canonical, lemma_canonical_unique, lemma_roots_bound, lemma_roots_exact, lemma_roots_identity, lemma_roots_merge,
    lemma_top_push, lemma_covers, next_label, roots,
};

verus! {

/// Residency bound: a 16-lane byte shuffle holds one transition row, so a quotient
/// partitions into at most this many blocks.
pub const LANES: usize = 16;

/// How many quotients may be conjoined.
pub const MAX_CONJUNCTS: usize = 2;

/// Union-find steps the whole harvest may spend before it stops looking. A partial
/// harvest is deterministic and still sound — it just sees fewer candidates.
pub const MAX_CLOSURE_STEPS: u64 = 1_500_000;

/// Distinct closed partitions kept before ranking.
pub const MAX_CANDIDATES: usize = 64;

/// A quotient of at most sixteen blocks, byte-expanded into exactly the form the
/// shuffle kernel consumes: `rows[b][block]` is the block a run in `block` reaches on
/// byte `b`. Accepting blocks are the top ones: a block accepts iff
/// `block >= threshold`.
#[derive(Clone)]
pub struct Quotient {
    /// How many of the register's lanes this quotient actually uses.
    pub blocks: u8,
    /// Accepting iff `block >= threshold`.
    pub threshold: u8,
    /// The block the start state landed in.
    pub start: u8,
    /// `rows[b][block]` — the destination block a run in `block` reaches on byte `b`.
    pub rows: [[u8; 16]; 256],
}

impl Quotient {
    /// Every lane of every row names a lane, and the start is a lane: what a kernel
    /// that shuffles whole registers needs in order to stay inside one.
    pub open spec fn in_register(&self) -> bool {
        &&& self.start < LANES
        &&& forall|b: int, x: int|
            0 <= b < 256 && 0 <= x < LANES ==> #[trigger] self.rows[b][x] < LANES
    }

    /// The shape the harvest produces: at most sixteen blocks, every row closed over
    /// the blocks in use, and a start block that does not accept.
    pub open spec fn wf(&self) -> bool {
        &&& 1 <= self.blocks <= LANES
        &&& self.threshold <= self.blocks
        &&& self.start < self.threshold
        &&& forall|b: int, x: int|
            0 <= b < 256 && 0 <= x < LANES ==> #[trigger] self.rows[b][x] < self.blocks
    }

    /// The harvest's shape keeps every run inside the register.
    pub proof fn lemma_wf_in_register(&self)
        requires
            self.wf(),
        ensures
            self.in_register(),
    {
    }

    /// Reading nothing visits only the start block, which does not accept.
    pub proof fn lemma_nothing_read_refutes(&self, hay: Seq<u8>)
        requires
            self.wf(),
            hay.len() == 0,
        ensures
            self.refutes_spec(hay),
    {
    }

    /// One step of the quotient.
    pub open spec fn step(&self, s: int, b: u8) -> int {
        self.rows[b as int][s] as int
    }

    /// The block a run reaches from `s` after reading `hay`.
    pub open spec fn run(&self, s: int, hay: Seq<u8>) -> int
        decreases hay.len(),
    {
        if hay.len() == 0 {
            s
        } else {
            self.step(self.run(s, hay.drop_last()), hay.last())
        }
    }

    /// The highest block a run from `s` visits while reading `hay`, `s` included.
    pub open spec fn peak(&self, s: int, hay: Seq<u8>) -> int
        decreases hay.len(),
    {
        if hay.len() == 0 {
            s
        } else {
            let before = self.peak(s, hay.drop_last());
            let now = self.run(s, hay);
            if before >= now {
                before
            } else {
                now
            }
        }
    }

    /// The highest block a run from `s` reaches *after* reading at least one byte of
    /// `hay`; `-1` when `hay` is empty and nothing was read.
    pub open spec fn climb(&self, s: int, hay: Seq<u8>) -> int
        decreases hay.len(),
    {
        if hay.len() == 0 {
            -1
        } else {
            let before = self.climb(s, hay.drop_last());
            let now = self.run(s, hay);
            if before >= now {
                before
            } else {
                now
            }
        }
    }

    /// The peak is the start or the climb, whichever is higher.
    pub proof fn lemma_peak_is_start_or_climb(&self, s: int, hay: Seq<u8>)
        requires
            s >= 0,
        ensures
            self.peak(s, hay) == (if s >= self.climb(s, hay) {
                s
            } else {
                self.climb(s, hay)
            }),
        decreases hay.len(),
    {
        if hay.len() > 0 {
            self.lemma_peak_is_start_or_climb(s, hay.drop_last());
        }
    }

    /// The climb over `a + b` is the higher of the two climbs.
    pub proof fn lemma_climb_append(&self, s: int, a: Seq<u8>, b: Seq<u8>)
        ensures
            self.climb(s, a + b) == (if self.climb(s, a) >= self.climb(self.run(s, a), b) {
                self.climb(s, a)
            } else {
                self.climb(self.run(s, a), b)
            }),
        decreases b.len(),
    {
        if b.len() == 0 {
            assert(a + b =~= a);
        } else {
            assert((a + b).drop_last() =~= a + b.drop_last());
            assert((a + b).last() == b.last());
            self.lemma_run_append(s, a, b.drop_last());
            self.lemma_run_append(s, a, b);
            self.lemma_climb_append(s, a, b.drop_last());
        }
    }

    /// `h` maps every core state onto a block, the start onto the start, every accepting
    /// state onto an accepting block, and commutes with the transitions: reading a
    /// byte and then mapping is mapping and then reading it.
    pub open spec fn abstracts_with(&self, core: &Projection, h: Seq<int>) -> bool {
        &&& h.len() == core.states
        &&& forall|s: int| 0 <= s < core.states ==> 0 <= #[trigger] h[s] < LANES
        &&& h[0] == self.start
        &&& forall|s: int, b: u8|
            0 <= s < core.states ==> #[trigger] self.rows[b as int][h[s]] == h[core.succ(s, b)]
        &&& forall|s: int| 0 <= s < core.states && #[trigger] core.accept@[s] ==> h[s] >= self.threshold
    }

    /// This quotient over-approximates `core`: some map of its states onto blocks is a
    /// homomorphism that preserves acceptance.
    pub open spec fn abstracts(&self, core: &Projection) -> bool {
        exists|h: Seq<int>| self.abstracts_with(core, h)
    }

    /// Under a homomorphism the quotient shadows the core step for step, so a core run
    /// that accepts drags the quotient run into an accepting block.
    pub proof fn lemma_shadows(&self, core: &Projection, h: Seq<int>, hay: Seq<u8>)
        requires
            core.wf(),
            self.abstracts_with(core, h),
        ensures
            self.run(self.start as int, hay) == h[core.run(0, hay)],
            core.accepts_along(0, hay) ==> self.peak(self.start as int, hay) >= self.threshold,
        decreases hay.len(),
    {
        core.lemma_run_in_core(0, hay);
        if hay.len() > 0 {
            self.lemma_shadows(core, h, hay.drop_last());
            core.lemma_run_in_core(0, hay.drop_last());
        }
    }

    /// The law a sieve rests on: a quotient that over-approximates the core and never
    /// visits an accepting block along `hay` proves the core never accepts along it.
    pub proof fn lemma_refutation_is_sound(&self, core: &Projection, hay: Seq<u8>)
        requires
            core.wf(),
            self.abstracts(core),
            self.refutes_spec(hay),
        ensures
            !core.accepts_along(0, hay),
    {
        let h = choose|h: Seq<int>| self.abstracts_with(core, h);
        self.lemma_shadows(core, h, hay);
    }

    /// A run from the start block over `hay` never visits an accepting block.
    pub open spec fn refutes_spec(&self, hay: Seq<u8>) -> bool {
        self.peak(self.start as int, hay) < self.threshold
    }

    /// Runs stay inside the register.
    pub proof fn lemma_run_in_register(&self, s: int, hay: Seq<u8>)
        requires
            self.in_register(),
            0 <= s < LANES,
        ensures
            0 <= self.run(s, hay) < LANES,
            0 <= self.peak(s, hay) < LANES,
            self.peak(s, hay) >= s,
            self.peak(s, hay) >= self.run(s, hay),
        decreases hay.len(),
    {
        if hay.len() > 0 {
            self.lemma_run_in_register(s, hay.drop_last());
            let r = self.run(s, hay.drop_last());
            assert(self.rows[hay.last() as int][r] < LANES);
        }
    }

    /// Reading `a` then `b` is reading `a + b`, for both the end block and the peak.
    pub proof fn lemma_run_append(&self, s: int, a: Seq<u8>, b: Seq<u8>)
        ensures
            self.run(s, a + b) == self.run(self.run(s, a), b),
            self.peak(s, a + b) == (if self.peak(s, a) >= self.peak(self.run(s, a), b) {
                self.peak(s, a)
            } else {
                self.peak(self.run(s, a), b)
            }),
        decreases b.len(),
    {
        if b.len() == 0 {
            assert(a + b =~= a);
        } else {
            assert((a + b).drop_last() =~= a + b.drop_last());
            assert((a + b).last() == b.last());
            self.lemma_run_append(s, a, b.drop_last());
        }
    }

    /// A run that only reads bytes looping on `s` stays at `s`.
    pub proof fn lemma_run_loops(&self, s: int, hay: Seq<u8>)
        requires
            forall|i: int| 0 <= i < hay.len() ==> self.step(s, #[trigger] hay[i]) == s,
        ensures
            self.run(s, hay) == s,
            self.peak(s, hay) == s,
            self.climb(s, hay) == (if hay.len() == 0 {
                -1
            } else {
                s
            }),
        decreases hay.len(),
    {
        if hay.len() > 0 {
            let d = hay.drop_last();
            assert forall|i: int| 0 <= i < d.len() implies self.step(s, #[trigger] d[i]) == s by {
                assert(d[i] == hay[i]);
            }
            self.lemma_run_loops(s, d);
            assert(self.step(s, hay[hay.len() - 1]) == s);
        }
    }
}

/// Disjoint-set forest over compact state ids, with path halving.
///
/// `root` and `depth` are the forest's meaning: every node's representative, and a
/// height that strictly falls from a node to its parent, which is what makes `find`
/// terminate.
struct Forest {
    parent: Vec<u16>,
    root: Ghost<Seq<int>>,
    depth: Ghost<Seq<nat>>,
}

impl Forest {
    spec fn wf(&self, n: int) -> bool {
        &&& self.parent@.len() == n
        &&& n <= MAX_CORE_STATES
        &&& self.root@.len() == n
        &&& self.depth@.len() == n
        &&& forall|x: int| 0 <= x < n ==> #[trigger] self.parent@[x] < n
        &&& forall|x: int| 0 <= x < n ==> 0 <= #[trigger] self.root@[x] < n
        &&& forall|x: int| 0 <= x < n ==> self.root@[#[trigger] self.root@[x]] == self.root@[x]
        &&& forall|x: int|
            0 <= x < n ==> (#[trigger] self.parent@[x] == x <==> self.root@[x] == x)
        &&& forall|x: int|
            0 <= x < n ==> self.root@[#[trigger] self.parent@[x] as int] == self.root@[x]
        &&& forall|x: int|
            0 <= x < n && #[trigger] self.parent@[x] != x ==> self.depth@[self.parent@[x] as int]
                < self.depth@[x]
    }

    fn new(n: usize) -> (r: Forest)
        requires
            n <= MAX_CORE_STATES,
        ensures
            r.wf(n as int),
            forall|x: int| 0 <= x < n ==> #[trigger] r.root@[x] == x,
    {
        let mut forest = Forest {
            parent: Vec::new(),
            root: Ghost(Seq::empty()),
            depth: Ghost(Seq::empty()),
        };
        let mut i: usize = 0;
        while i < n
            invariant
                i <= n <= MAX_CORE_STATES,
                forest.parent@.len() == i,
            decreases n - i,
        {
            forest.parent.push(0);
            i += 1;
        }
        forest.reset();
        forest
    }

    /// Every state its own root.
    fn reset(&mut self)
        requires
            old(self).parent@.len() <= MAX_CORE_STATES,
        ensures
            final(self).wf(old(self).parent@.len() as int),
            forall|x: int| 0 <= x < old(self).parent@.len() ==> #[trigger] final(self).root@[x] == x,
    {
        let n = self.parent.len();
        let mut i: usize = 0;
        while i < n
            invariant
                n == self.parent@.len(),
                n <= MAX_CORE_STATES,
                i <= n,
                forall|x: int| 0 <= x < i ==> #[trigger] self.parent@[x] == x,
            decreases n - i,
        {
            self.parent.set(i, i as u16);
            i += 1;
        }
        self.root = Ghost(Seq::new(n as nat, |x: int| x));
        self.depth = Ghost(Seq::new(n as nat, |x: int| 0nat));
    }

    /// The representative of `x`, halving the path on the way.
    fn find(&mut self, x: u16) -> (r: u16)
        requires
            old(self).wf(old(self).parent@.len() as int),
            x < old(self).parent@.len(),
        ensures
            final(self).wf(old(self).parent@.len() as int),
            final(self).root@ == old(self).root@,
            r == old(self).root@[x as int],
    {
        let ghost n = self.parent@.len() as int;
        let mut x = x;
        let ghost target = self.root@[x as int];
        while self.parent[x as usize] != x
            invariant
                self.wf(n),
                self.root@ == old(self).root@,
                0 <= x < n,
                self.root@[x as int] == target,
            decreases self.depth@[x as int],
        {
            let up = self.parent[x as usize];
            let grand = self.parent[up as usize];
            proof {
                assert(self.root@[up as int] == self.root@[x as int]);
                if self.parent@[up as int] != up {
                    assert(self.depth@[grand as int] < self.depth@[up as int]);
                }
            }
            self.parent.set(x as usize, grand);
            x = grand;
        }
        x
    }

    /// Merge the sets of `a` and `b`; `false` if they were one set already.
    fn join(&mut self, a: u16, b: u16) -> (r: bool)
        requires
            old(self).wf(old(self).parent@.len() as int),
            a < old(self).parent@.len(),
            b < old(self).parent@.len(),
        ensures
            final(self).wf(old(self).parent@.len() as int),
            r == (old(self).root@[a as int] != old(self).root@[b as int]),
            forall|x: int|
                0 <= x < old(self).parent@.len() ==> #[trigger] final(self).root@[x] == (if old(
                    self,
                ).root@[x] == old(self).root@[a as int] {
                    old(self).root@[b as int]
                } else {
                    old(self).root@[x]
                }),
    {
        let ghost n = self.parent@.len() as int;
        let ra = self.find(a);
        let rb = self.find(b);
        if ra == rb {
            return false;
        }
        let ghost root0 = self.root@;
        let ghost depth0 = self.depth@;
        self.parent.set(ra as usize, rb);
        self.root = Ghost(
            Seq::new(n as nat, |y: int| if root0[y] == ra as int { rb as int } else { root0[y] }),
        );
        self.depth = Ghost(
            Seq::new(
                n as nat,
                |y: int|
                    if root0[y] == ra as int {
                        depth0[y] + depth0[rb as int] + 1
                    } else {
                        depth0[y]
                    },
            ),
        );
        proof {
            assert forall|x: int| 0 <= x < n implies self.root@[#[trigger] self.parent@[x] as int]
                == self.root@[x] by {
                if x != ra {
                    assert(root0[self.parent@[x] as int] == root0[x]);
                }
            }
            assert forall|x: int|
                0 <= x < n && #[trigger] self.parent@[x] != x implies self.depth@[self.parent@[x] as int]
                < self.depth@[x] by {
                if x != ra {
                    assert(root0[self.parent@[x] as int] == root0[x]);
                }
            }
        }
        true
    }
}


/// Two of the first `n` states share a representative, or the two are one.
spec fn root_eq(root: Seq<int>, n: int) -> spec_fn(int, int) -> bool {
    |u: int, v: int| u == v || (0 <= u < n && 0 <= v < n && root[u] == root[v])
}

/// The least equivalence above `e` that also relates `x` and `y`, when `e` is one.
spec fn joined(e: spec_fn(int, int) -> bool, x: int, y: int) -> spec_fn(int, int) -> bool {
    |u: int, v: int| e(u, v) || (e(u, x) && e(y, v)) || (e(u, y) && e(x, v))
}

spec fn is_equiv(e: spec_fn(int, int) -> bool) -> bool {
    &&& forall|u: int| #[trigger] e(u, u)
    &&& forall|u: int, v: int| #[trigger] e(u, v) ==> e(v, u)
    &&& forall|u: int, v: int, w: int| #[trigger] e(u, v) && #[trigger] e(v, w) ==> e(u, w)
}

spec fn within(e1: spec_fn(int, int) -> bool, e2: spec_fn(int, int) -> bool) -> bool {
    forall|u: int, v: int| #[trigger] e1(u, v) ==> e2(u, v)
}

/// What the forest's classes become once every pair still on the work stack is merged.
spec fn pending(base: spec_fn(int, int) -> bool, work: Seq<(u16, u16)>) -> spec_fn(
    int,
    int,
) -> bool
    decreases work.len(),
{
    if work.len() == 0 {
        base
    } else {
        joined(pending(base, work.drop_last()), work.last().0 as int, work.last().1 as int)
    }
}

proof fn lemma_root_eq(root: Seq<int>, n: int)
    ensures
        is_equiv(root_eq(root, n)),
        forall|u: int, v: int|
            0 <= u < n && 0 <= v < n ==> #[trigger] root_eq(root, n)(u, v) == (root[u] == root[v]),
{
}

proof fn lemma_joined(e: spec_fn(int, int) -> bool, x: int, y: int)
    requires
        is_equiv(e),
    ensures
        is_equiv(joined(e, x, y)),
        within(e, joined(e, x, y)),
        joined(e, x, y)(x, y),
{
    let j = joined(e, x, y);
    assert(e(x, x) && e(y, y));
    assert forall|u: int, v: int| #[trigger] j(u, v) implies j(v, u) by {
        if e(u, v) {
            assert(e(v, u));
        } else if e(u, x) && e(y, v) {
            assert(e(x, u) && e(v, y));
        } else {
            assert(e(y, u) && e(v, x));
        }
    }
    assert forall|u: int, v: int, w: int| #[trigger] j(u, v) && #[trigger] j(v, w) implies j(
        u,
        w,
    ) by {
        if e(u, v) {
            if e(v, w) {
                assert(e(u, w));
            } else if e(v, x) && e(y, w) {
                assert(e(u, x));
            } else {
                assert(e(u, y));
            }
        } else if e(u, x) && e(y, v) {
            if e(v, w) {
                assert(e(y, w));
            } else if e(v, x) && e(y, w) {
            } else {
                assert(e(y, y));
                assert(e(y, v) && e(v, y));
                assert(e(x, w));
                assert(e(u, w));
            }
        } else {
            assert(e(u, y) && e(x, v));
            if e(v, w) {
                assert(e(x, w));
            } else if e(v, x) && e(y, w) {
                assert(e(x, x));
                assert(e(u, w));
            } else {
            }
        }
    }
}

/// `joined` is least: an equivalence above `e` that relates `x` and `y` holds it.
proof fn lemma_joined_least(
    e: spec_fn(int, int) -> bool,
    r: spec_fn(int, int) -> bool,
    x: int,
    y: int,
)
    requires
        is_equiv(r),
        within(e, r),
        r(x, y),
    ensures
        within(joined(e, x, y), r),
{
    assert forall|u: int, v: int| #[trigger] joined(e, x, y)(u, v) implies r(u, v) by {
        if e(u, v) {
        } else if e(u, x) && e(y, v) {
            assert(r(u, x) && r(y, v));
            assert(r(u, y));
        } else {
            assert(r(u, y) && r(x, v));
            assert(r(y, x));
            assert(r(u, x));
        }
    }
}

/// Merging a pair already related changes nothing.
proof fn lemma_joined_absorb(e: spec_fn(int, int) -> bool, x: int, y: int)
    requires
        is_equiv(e),
        e(x, y),
    ensures
        within(joined(e, x, y), e),
{
    lemma_joined_least(e, e, x, y);
}

proof fn lemma_pending(base: spec_fn(int, int) -> bool, work: Seq<(u16, u16)>)
    requires
        is_equiv(base),
    ensures
        is_equiv(pending(base, work)),
        within(base, pending(base, work)),
    decreases work.len(),
{
    if work.len() > 0 {
        let inner = pending(base, work.drop_last());
        lemma_pending(base, work.drop_last());
        lemma_joined(inner, work.last().0 as int, work.last().1 as int);
    }
}

proof fn lemma_pending_mono(
    b1: spec_fn(int, int) -> bool,
    b2: spec_fn(int, int) -> bool,
    work: Seq<(u16, u16)>,
)
    requires
        within(b1, b2),
    ensures
        within(pending(b1, work), pending(b2, work)),
    decreases work.len(),
{
    if work.len() > 0 {
        lemma_pending_mono(b1, b2, work.drop_last());
        let p1 = pending(b1, work.drop_last());
        let p2 = pending(b2, work.drop_last());
        let (x, y) = (work.last().0 as int, work.last().1 as int);
        assert forall|u: int, v: int| #[trigger] joined(p1, x, y)(u, v) implies joined(p2, x, y)(
            u,
            v,
        ) by {
            if p1(u, v) {
                assert(p2(u, v));
            } else if p1(u, x) && p1(y, v) {
                assert(p2(u, x) && p2(y, v));
            } else {
                assert(p1(u, y) && p1(x, v));
                assert(p2(u, y) && p2(x, v));
            }
        }
    }
}

/// A partition of the core's states, given as block ids, that is closed under every
/// class transition: states sharing a block step to states sharing a block.
pub open spec fn is_closed(core: &Projection, block: Seq<u8>) -> bool {
    &&& block.len() == core.states
    &&& forall|i: int, j: int, k: int|
        0 <= i < core.states && 0 <= j < core.states && 0 <= k < core.classes && block[i]
            == block[j] ==> #[trigger] block[core.next(i, k)] == #[trigger] block[core.next(j, k)]
}

/// Every closed partition that puts the two states of `pair` in one block also puts in
/// one block every two states the forest has merged, and every pair still waiting on the
/// work stack.
spec fn respects(core: &Projection, root: Seq<int>, work: Seq<(u16, u16)>, pair: (u16, u16)) -> bool {
    forall|other: Seq<u8>|
        #[trigger] is_closed(core, other) && other[pair.0 as int] == other[pair.1 as int] ==> {
            &&& forall|i: int, j: int|
                0 <= i < core.states && 0 <= j < core.states && root[i] == root[j] ==> #[trigger] other[i]
                    == #[trigger] other[j]
            &&& forall|t: int|
                0 <= t < work.len() ==> other[(#[trigger] work[t]).0 as int] == other[work[t].1 as int]
        }
}

/// The three buffers a pair closure would otherwise allocate afresh on every pair the
/// sweep walks: the propagation stack, the canonical-id map, and the partition being
/// built.
struct Scratch {
    work: Vec<(u16, u16)>,
    canon: Vec<u8>,
    block: Vec<u8>,
}

/// The closure of `pair`: the least partition closed under the transitions in which the
/// two states of `pair` share a block, written to `scratch.block` as block ids in
/// first-seen order. `false` when the harvest's step budget ran out.
///
/// Merging two states forces their successors to merge, transitively. Because the
/// forest already carries transitivity, propagating only the popped pair is complete.
/// A closure whose merges already overspent the budget overspends it whole: every
/// closed partition that identifies `pair` respects the forest's merges, so it has no
/// more blocks than the forest has sets.
proof fn lemma_over_budget(core: &Projection, root: Seq<int>, pair: (u16, u16), before: int, now: int)
    requires
        core.wf(),
        root.len() == core.states,
        forall|x: int| 0 <= x < core.states ==> 0 <= #[trigger] root[x] < core.states,
        forall|x: int| 0 <= x < core.states ==> root[#[trigger] root[x]] == root[x],
        roots(root, core.states as int).finite(),
        now == before + core.classes * (core.states - roots(root, core.states as int).len()),
        now > MAX_CLOSURE_STEPS,
        forall|other: Seq<u8>|
            #[trigger] is_closed(core, other) && other[pair.0 as int] == other[pair.1 as int] ==> (
            forall|i: int, j: int|
                0 <= i < core.states && 0 <= j < core.states && root[i] == root[j]
                    ==> #[trigger] other[i] == #[trigger] other[j]),
    ensures
        forall|c: Seq<u8>|
            #[trigger] closure_of(core, c, pair.0 as int, pair.1 as int) && canonical(c) ==> before
                + core.classes * (core.states - (top(c) + 1)) > MAX_CLOSURE_STEPS,
{
    let n = core.states as int;
    assert forall|c: Seq<u8>|
        #[trigger] closure_of(core, c, pair.0 as int, pair.1 as int) && canonical(c) implies before
        + core.classes * (core.states - (top(c) + 1)) > MAX_CLOSURE_STEPS by {
        assert(is_closed(core, c) && c[pair.0 as int] == c[pair.1 as int]);
        lemma_roots_bound(root, n, c);
        let m = roots(root, n).len() as int;
        let cls = core.classes as int;
        let t = top(c) + 1;
        assert(cls * (n - t) >= cls * (n - m)) by (nonlinear_arith)
            requires
                cls >= 0,
                n - t >= n - m,
        ;
    }
}

/// Label each state by its forest set, numbering the sets in order of first appearance.
fn label_blocks(core: &Projection, forest: &mut Forest, scratch: &mut Scratch)
    requires
        core.wf(),
        old(forest).wf(core.states as int),
        old(scratch).canon@.len() == core.states,
        old(scratch).block@.len() == core.states,
    ensures
        final(forest).wf(core.states as int),
        final(forest).root@ == old(forest).root@,
        final(scratch).canon@.len() == core.states,
        final(scratch).block@.len() == core.states,
        forall|x: int, y: int|
            0 <= x < core.states && 0 <= y < core.states ==> (#[trigger] final(scratch).block@[x]
                == #[trigger] final(scratch).block@[y] <==> old(forest).root@[x] == old(
                forest,
            ).root@[y]),
        forall|i: int| 0 <= i < core.states ==> #[trigger] final(scratch).block@[i] <= i,
        canonical(final(scratch).block@),
        roots(old(forest).root@, core.states as int).len() == next_label(final(scratch).block@),
{
    let n = core.states;
    let ghost root = forest.root@;
    let mut c: usize = 0;
    while c < n
        invariant
            n == core.states,
            c <= n,
            scratch.canon@.len() == n,
            scratch.block@.len() == n,
            forall|r: int| 0 <= r < c ==> #[trigger] scratch.canon@[r] == u8::MAX,
        decreases n - c,
    {
        scratch.canon.set(c, u8::MAX);
        c += 1;
    }
    let mut blocks: u8 = 0;
    let mut i: u16 = 0;
    while (i as usize) < n
        invariant
            core.wf(),
            n == core.states,
            forest.wf(n as int),
            forest.root@ == root,
            blocks <= i <= n,
            scratch.canon@.len() == n,
            scratch.block@.len() == n,
            forall|r: int|
                0 <= r < n && #[trigger] scratch.canon@[r] != u8::MAX ==> scratch.canon@[r]
                    < blocks,
            forall|r1: int, r2: int|
                0 <= r1 < n && 0 <= r2 < n && #[trigger] scratch.canon@[r1] != u8::MAX
                    && #[trigger] scratch.canon@[r2] == scratch.canon@[r1] ==> r1 == r2,
            forall|j: int|
                0 <= j < i ==> #[trigger] scratch.block@[j] == scratch.canon@[root[j]]
                    && scratch.canon@[root[j]] != u8::MAX && scratch.block@[j] <= j,
            forall|r: int| 0 <= r < n && #[trigger] scratch.canon@[r] != u8::MAX ==> root[r] == r,
            canonical(scratch.block@.take(i as int)),
            blocks == next_label(scratch.block@.take(i as int)),
        decreases n - i,
    {
        let ghost before = scratch.block@.take(i as int);
        let r = forest.find(i) as usize;
        if scratch.canon[r] == u8::MAX {
            scratch.canon.set(r, blocks);
            blocks += 1;
        }
        let label = scratch.canon[r];
        scratch.block.set(i as usize, label);
        proof {
            let after = scratch.block@.take(i + 1);
            assert(after =~= before.push(label));
            lemma_top_push(before, label);
            if before.len() == 0 {
                assert(label == 0);
            } else {
                lemma_covers(before);
            }
            assert forall|t: int| 0 <= t < after.len() implies #[trigger] after[t] <= next_label(
                after.take(t),
            ) by {
                if t < i {
                    assert(after.take(t) =~= before.take(t));
                    assert(after[t] == before[t]);
                } else {
                    assert(after.take(t) =~= before);
                }
            }
        }
        i += 1;
    }
    proof {
        let blk = scratch.block@;
        assert(blk.take(n as int) =~= blk);
        lemma_covers(blk);
        lemma_top(blk);
        assert forall|x: int| 0 <= x < n implies #[trigger] blk[x] == blk[root[x]] by {
            assert(root[root[x]] == root[x]);
        }
        assert forall|r1: int, r2: int|
            0 <= r1 < n && 0 <= r2 < n && root[r1] == r1 && root[r2] == r2 && #[trigger] blk[r1]
                == #[trigger] blk[r2] implies r1 == r2 by {
            assert(scratch.canon@[root[r1]] == scratch.canon@[root[r2]]);
        }
        lemma_roots_exact(root, n as int, blk, blocks as int);
        assert forall|x: int, y: int| 0 <= x < n && 0 <= y < n implies (blk[x] == blk[y]
            <==> root[x] == root[y]) by {
            if blk[x] == blk[y] {
                assert(scratch.canon@[root[x]] == scratch.canon@[root[y]]);
            }
        }
    }
}

fn close(
    core: &Projection,
    forest: &mut Forest,
    steps: &mut u64,
    scratch: &mut Scratch,
    pair: (u16, u16),
) -> (r: bool)
    requires
        core.wf(),
        old(forest).parent@.len() == core.states,
        old(scratch).canon@.len() == core.states,
        old(scratch).block@.len() == core.states,
        pair.0 < core.states,
        pair.1 < core.states,
        *old(steps) <= MAX_CLOSURE_STEPS,
    ensures
        final(forest).parent@.len() == core.states,
        final(scratch).canon@.len() == core.states,
        final(scratch).block@.len() == core.states,
        *final(steps) >= *old(steps),
        r == (*final(steps) <= MAX_CLOSURE_STEPS),
        r ==> is_closed(core, final(scratch).block@),
        r ==> final(scratch).block@[pair.0 as int] == final(scratch).block@[pair.1 as int],
        r ==> forall|i: int| 0 <= i < core.states ==> #[trigger] final(scratch).block@[i] <= i,
        r ==> forall|other: Seq<u8>|
            #[trigger] is_closed(core, other) && other[pair.0 as int] == other[pair.1 as int]
                ==> refines_spec(final(scratch).block@, other),
        r ==> canonical(final(scratch).block@),
        r ==> *final(steps) == *old(steps) + core.classes * (core.states - (top(
            final(scratch).block@,
        ) + 1)),
        !r ==> forall|c: Seq<u8>|
            #[trigger] closure_of(core, c, pair.0 as int, pair.1 as int) && canonical(c) ==> *old(
                steps,
            ) + core.classes * (core.states - (top(c) + 1)) > MAX_CLOSURE_STEPS,
{
    let n = core.states;
    forest.reset();
    proof {
        lemma_roots_identity(forest.root@, n as int);
    }
    scratch.work.clear();
    scratch.work.push(pair);
    proof {
        let e = root_eq(forest.root@, n as int);
        lemma_root_eq(forest.root@, n as int);
        assert(scratch.work@.drop_last() =~= Seq::<(u16, u16)>::empty());
        assert(pending(e, Seq::<(u16, u16)>::empty()) == e);
        assert(pending(e, scratch.work@) == joined(e, pair.0 as int, pair.1 as int));
        lemma_joined(e, pair.0 as int, pair.1 as int);
        assert forall|i: int, k: int| 0 <= i < n && 0 <= k < core.classes implies #[trigger]
            pending(e, scratch.work@)(core.next(i, k), core.next(forest.root@[i], k)) by {
            assert(forest.root@[i] == i);
            assert(e(core.next(i, k), core.next(i, k)));
        }
        assert(scratch.work@[0] == pair);
        assert(respects(core, forest.root@, scratch.work@, pair));
    }
    while scratch.work.len() > 0
        invariant
            core.wf(),
            n == core.states,
            forest.wf(n as int),
            scratch.canon@.len() == n,
            scratch.block@.len() == n,
            *steps <= MAX_CLOSURE_STEPS,
            *steps >= *old(steps),
            roots(forest.root@, n as int).finite(),
            roots(forest.root@, n as int).len() <= n,
            *steps == *old(steps) + core.classes * (n - roots(forest.root@, n as int).len()),
            pair.0 < n,
            pair.1 < n,
            forall|t: int|
                0 <= t < scratch.work@.len() ==> (#[trigger] scratch.work@[t]).0 < n
                    && scratch.work@[t].1 < n,
            pending(root_eq(forest.root@, n as int), scratch.work@)(pair.0 as int, pair.1 as int),
            forall|i: int, k: int|
                0 <= i < n && 0 <= k < core.classes ==> #[trigger] pending(
                    root_eq(forest.root@, n as int),
                    scratch.work@,
                )(core.next(i, k), core.next(forest.root@[i], k)),
            respects(core, forest.root@, scratch.work@, pair),
        decreases MAX_CLOSURE_STEPS - *steps, scratch.work@.len(),
    {
        let ghost w0 = scratch.work@;
        let ghost root0 = forest.root@;
        let (a, b) = scratch.work.pop().unwrap();
        let ghost w1 = scratch.work@;
        let ghost e0 = root_eq(root0, n as int);
        let ghost old_rel = pending(e0, w0);
        proof {
            assert(w0.drop_last() =~= w1);
            assert(w0.last() == (a, b));
            assert(w0[w0.len() - 1] == (a, b));
            lemma_root_eq(root0, n as int);
            lemma_pending(e0, w1);
            assert(old_rel == joined(pending(e0, w1), a as int, b as int));
        }
        if !forest.join(a, b) {
            proof {
                assert(forest.root@ =~= root0);
                assert(e0(a as int, b as int));
                lemma_joined_absorb(pending(e0, w1), a as int, b as int);
                assert(forall|t: int| 0 <= t < w1.len() ==> #[trigger] w1[t] == w0[t]);
                assert forall|i: int, k: int| 0 <= i < n && 0 <= k < core.classes implies
                    #[trigger] pending(e0, w1)(core.next(i, k), core.next(root0[i], k)) by {
                    assert(old_rel(core.next(i, k), core.next(root0[i], k)));
                }
                assert(old_rel(pair.0 as int, pair.1 as int));
                assert forall|other: Seq<u8>|
                    #[trigger] is_closed(core, other) && other[pair.0 as int] == other[pair.1 as int]
                    implies forall|t: int|
                    0 <= t < w1.len() ==> other[(#[trigger] w1[t]).0 as int] == other[w1[t].1 as int] by {
                    assert forall|t: int| 0 <= t < w1.len() implies other[(#[trigger] w1[t]).0 as int]
                        == other[w1[t].1 as int] by {
                        assert(w0[t] == w1[t]);
                    }
                }
            }
            continue;
        }
        let ghost root1 = forest.root@;
        proof {
            lemma_roots_merge(root0, root1, n as int, root0[a as int], root0[b as int]);
            let cls = core.classes as int;
            let l1 = roots(root1, n as int).len() as int;
            let l0 = roots(root0, n as int).len() as int;
            assert(cls * (n - l1) == cls * (n - l0) + cls) by (nonlinear_arith)
                requires
                    l1 + 1 == l0,
            ;
        }
        *steps += core.classes as u64;
        let ghost e1 = root_eq(root1, n as int);
        proof {
            lemma_root_eq(root1, n as int);
            assert forall|u: int, v: int| #[trigger] e0(u, v) implies e1(u, v) by {
                if u != v {
                    assert(root1[u] == root1[v]);
                }
            }
            assert(within(e0, e1));
            assert(e1(a as int, b as int));
            lemma_pending_mono(e0, e1, w1);
            lemma_pending(e1, w1);
            lemma_joined_least(pending(e0, w1), pending(e1, w1), a as int, b as int);
            assert(forall|t: int| 0 <= t < w1.len() ==> #[trigger] w1[t] == w0[t]);
        }
        proof {
            assert forall|other: Seq<u8>|
                #[trigger] is_closed(core, other) && other[pair.0 as int] == other[pair.1 as int]
                implies other[a as int] == other[b as int] && (forall|i: int, j: int|
                0 <= i < n && 0 <= j < n && root1[i] == root1[j] ==> #[trigger] other[i]
                    == #[trigger] other[j]) && (forall|t: int|
                0 <= t < w1.len() ==> other[(#[trigger] w1[t]).0 as int] == other[w1[t].1 as int]) by {
                assert(w0[w0.len() - 1] == (a, b));
                assert(other[a as int] == other[b as int]);
                assert forall|i: int, j: int| 0 <= i < n && 0 <= j < n && root1[i] == root1[j] implies
                    #[trigger] other[i] == #[trigger] other[j] by {
                    if root0[i] == root0[j] {
                    } else if root0[i] == root0[a as int] {
                        assert(root0[j] == root0[b as int]);
                        assert(other[i] == other[a as int]);
                        assert(other[j] == other[b as int]);
                    } else {
                        assert(root0[j] == root0[a as int]);
                        assert(root0[i] == root0[b as int]);
                        assert(other[j] == other[a as int]);
                        assert(other[i] == other[b as int]);
                    }
                }
                assert forall|t: int| 0 <= t < w1.len() implies other[(#[trigger] w1[t]).0 as int]
                    == other[w1[t].1 as int] by {
                    assert(w0[t] == w1[t]);
                }
            }
        }
        if *steps > MAX_CLOSURE_STEPS {
            proof {
                lemma_over_budget(core, root1, pair, *old(steps) as int, *steps as int);
            }
            return false;
        }
        let mut k: usize = 0;
        while k < core.classes
            invariant
                core.wf(),
                n == core.states,
                a < n,
                b < n,
                pair.0 < n,
                pair.1 < n,
                forall|other: Seq<u8>|
                    #[trigger] is_closed(core, other) && other[pair.0 as int] == other[pair.1 as int]
                        ==> other[a as int] == other[b as int],
                respects(core, root1, scratch.work@, pair),
                forest.wf(n as int),
                forest.root@ == root1,
                e1 == root_eq(root1, n as int),
                is_equiv(e1),
                scratch.canon@.len() == n,
                scratch.block@.len() == n,
                k <= core.classes,
                forall|t: int|
                    0 <= t < scratch.work@.len() ==> (#[trigger] scratch.work@[t]).0 < n
                        && scratch.work@[t].1 < n,
                within(old_rel, pending(e1, scratch.work@)),
                forall|j: int|
                    0 <= j < k ==> #[trigger] pending(e1, scratch.work@)(
                        core.next(a as int, j),
                        core.next(b as int, j),
                    ),
            decreases core.classes - k,
        {
            let x = core.step(a, k);
            let y = core.step(b, k);
            let ghost before = scratch.work@;
            proof {
                lemma_pending(e1, before);
            }
            if forest.find(x) != forest.find(y) {
                scratch.work.push((x, y));
                proof {
                    assert(scratch.work@.drop_last() =~= before);
                    lemma_joined(pending(e1, before), x as int, y as int);
                    assert(forall|t: int|
                        0 <= t < before.len() ==> #[trigger] scratch.work@[t] == before[t]);
                    assert forall|other: Seq<u8>|
                        #[trigger] is_closed(core, other) && other[pair.0 as int] == other[pair.1 as int]
                        implies forall|t: int|
                        0 <= t < scratch.work@.len() ==> other[(#[trigger] scratch.work@[t]).0 as int]
                            == other[scratch.work@[t].1 as int] by {
                        assert(other[a as int] == other[b as int]);
                        assert(other[core.next(a as int, k as int)] == other[core.next(b as int, k as int)]);
                        assert forall|t: int| 0 <= t < scratch.work@.len() implies other[(
                        #[trigger] scratch.work@[t]).0 as int] == other[scratch.work@[t].1 as int] by {
                            if t < before.len() {
                                assert(scratch.work@[t] == before[t]);
                            }
                        }
                    }
                }
            } else {
                proof {
                    lemma_root_eq(root1, n as int);
                }
                assert(e1(x as int, y as int));
            }
            k += 1;
        }
        proof {
            let cur = pending(e1, scratch.work@);
            lemma_pending(e1, scratch.work@);
            assert forall|i: int, j: int| 0 <= i < n && 0 <= j < core.classes implies #[trigger]
                cur(core.next(i, j), core.next(root1[i], j)) by {
                assert(old_rel(core.next(i, j), core.next(root0[i], j)));
                if root0[i] == root0[a as int] {
                    assert(old_rel(core.next(a as int, j), core.next(root0[a as int], j)));
                    assert(old_rel(core.next(b as int, j), core.next(root0[b as int], j)));
                    assert(cur(core.next(a as int, j), core.next(b as int, j)));
                    assert(cur(core.next(i, j), core.next(root0[a as int], j)));
                    assert(cur(core.next(root0[a as int], j), core.next(a as int, j)));
                    assert(cur(core.next(i, j), core.next(a as int, j)));
                    assert(cur(core.next(i, j), core.next(b as int, j)));
                    assert(cur(core.next(i, j), core.next(root0[b as int], j)));
                }
            }
        }
    }
    let ghost root = forest.root@;
    proof {
        let e = root_eq(root, n as int);
        lemma_root_eq(root, n as int);
        assert(scratch.work@ =~= Seq::<(u16, u16)>::empty());
        assert forall|x: int, k: int| 0 <= x < n && 0 <= k < core.classes implies root[core.next(
            x,
            k,
        )] == root[core.next(root[x], k)] by {
            assert(pending(root_eq(forest.root@, n as int), scratch.work@)(
                core.next(x, k),
                core.next(forest.root@[x], k),
            ));
        }
        assert(pending(root_eq(forest.root@, n as int), scratch.work@)(pair.0 as int, pair.1 as int));
        assert(root[pair.0 as int] == root[pair.1 as int]);
    }
    label_blocks(core, forest, scratch);
    proof {
        let blk = scratch.block@;
        assert(roots(root, n as int).len() == top(blk) + 1);
        assert forall|other: Seq<u8>|
            #[trigger] is_closed(core, other) && other[pair.0 as int] == other[pair.1 as int]
            implies refines_spec(blk, other) by {
            assert forall|x: int, y: int|
                0 <= x < blk.len() && 0 <= y < blk.len() && #[trigger] blk[x] == #[trigger] blk[y]
                implies other[x] == other[y] by {
                assert(root[x] == root[y]);
            }
        }
        assert forall|x: int, y: int, k: int|
            0 <= x < n && 0 <= y < n && 0 <= k < core.classes && blk[x] == blk[y] implies
            #[trigger] blk[core.next(x, k)] == #[trigger] blk[core.next(y, k)] by {
            core.lemma_next_in_core(x, k);
            core.lemma_next_in_core(y, k);
            assert(root[x] == root[y]);
            assert(root[core.next(x, k)] == root[core.next(root[x], k)]);
            assert(root[core.next(y, k)] == root[core.next(root[y], k)]);
        }
    }
    true
}


/// How many labels the partition uses: one past the largest, saturating.
pub open spec fn top(block: Seq<u8>) -> int
    decreases block.len(),
{
    if block.len() == 0 {
        0
    } else {
        let rest = top(block.drop_last());
        if rest >= block.last() {
            rest
        } else {
            block.last() as int
        }
    }
}

proof fn lemma_top(block: Seq<u8>)
    ensures
        0 <= top(block) < 256,
        forall|i: int| 0 <= i < block.len() ==> #[trigger] block[i] <= top(block),
        block.len() > 0 ==> exists|i: int| 0 <= i < block.len() && #[trigger] block[i] == top(block),
    decreases block.len(),
{
    if block.len() > 0 {
        let d = block.drop_last();
        lemma_top(d);
        assert forall|i: int| 0 <= i < block.len() implies #[trigger] block[i] <= top(block) by {
            if i < d.len() {
                assert(block[i] == d[i]);
            }
        }
        if top(block) == block.last() {
            assert(block[block.len() - 1] == top(block));
        } else {
            let w = choose|i: int| 0 <= i < d.len() && #[trigger] d[i] == top(d);
            assert(block[w] == d[w]);
        }
    }
}

/// The number of blocks a partition written as block ids uses: one past the largest id.
fn block_count(block: &[u8]) -> (r: u8)
    ensures
        r == (if top(block@) + 1 > 255 {
            255
        } else {
            top(block@) + 1
        }),
{
    let mut best: u8 = 0;
    let mut i: usize = 0;
    while i < block.len()
        invariant
            i <= block@.len(),
            best == top(block@.subrange(0, i as int)),
        decreases block@.len() - i,
    {
        proof {
            assert(block@.subrange(0, i + 1).drop_last() =~= block@.subrange(0, i as int));
        }
        if block[i] > best {
            best = block[i];
        }
        i += 1;
    }
    proof {
        assert(block@.subrange(0, block@.len() as int) =~= block@);
    }
    best.saturating_add(1)
}

/// Every pair of states `fine` puts in one block, `coarse` puts in one block too: a
/// conjunction that holds `fine` learns nothing from adding `coarse`.
pub open spec fn refines_spec(fine: Seq<u8>, coarse: Seq<u8>) -> bool {
    forall|i: int, j: int|
        0 <= i < fine.len() && 0 <= j < fine.len() && #[trigger] fine[i] == #[trigger] fine[j]
            ==> coarse[i] == coarse[j]
}

/// Does `fine` already distinguish everything `coarse` does?
fn refines(fine: &[u8], coarse: &[u8]) -> (r: bool)
    requires
        fine@.len() == coarse@.len(),
        forall|i: int| 0 <= i < fine@.len() ==> #[trigger] fine@[i] < LANES,
    ensures
        r == refines_spec(fine@, coarse@),
{
    let mut seen = [i16::MIN; 16];
    let mut i: usize = 0;
    while i < fine.len()
        invariant
            i <= fine@.len() == coarse@.len(),
            forall|x: int| 0 <= x < fine@.len() ==> #[trigger] fine@[x] < LANES,
            forall|x: int|
                0 <= x < LANES ==> (#[trigger] seen[x] != i16::MIN ==> exists|j: int|
                    0 <= j < i && #[trigger] fine@[j] == x),
            forall|j: int| 0 <= j < i ==> #[trigger] seen[fine@[j] as int] == coarse@[j] as i16,
        decreases fine@.len() - i,
    {
        let a = fine[i] as usize;
        let b = coarse[i] as i16;
        if seen[a] == i16::MIN {
            seen[a] = b;
        } else if seen[a] != b {
            proof {
                let j = choose|j: int| 0 <= j < i && #[trigger] fine@[j] == a as int;
                assert(fine@[j] == fine@[i as int]);
            }
            return false;
        }
        i += 1;
    }
    assert forall|x: int, y: int|
        0 <= x < fine@.len() && 0 <= y < fine@.len() && #[trigger] fine@[x] == #[trigger] fine@[y]
        implies coarse@[x] == coarse@[y] by {
        assert(seen[fine@[x] as int] == coarse@[x] as i16);
        assert(seen[fine@[y] as int] == coarse@[y] as i16);
    }
    true
}

/// Some state of block `x` accepts.
pub open spec fn block_accepts(core: &Projection, block: Seq<u8>, x: int) -> bool {
    exists|i: int| 0 <= i < core.states && #[trigger] block[i] == x && core.accept@[i]
}

/// How many of the blocks below `x` accept (`acc`), or do not.
pub open spec fn count_below(core: &Projection, block: Seq<u8>, x: int, acc: bool) -> int
    decreases x,
{
    if x <= 0 {
        0
    } else {
        count_below(core, block, x - 1, acc) + (if block_accepts(core, block, x - 1) == acc {
            1int
        } else {
            0int
        })
    }
}

/// The number of blocks among the first `blocks` that accept nothing.
pub open spec fn threshold_of(core: &Projection, block: Seq<u8>, blocks: int) -> int {
    count_below(core, block, blocks, false)
}

/// Block `x` renumbered so that the blocks that accept nothing come first, each group in
/// its old order.
pub open spec fn relabel(core: &Projection, block: Seq<u8>, blocks: int, x: int) -> int {
    if block_accepts(core, block, x) {
        threshold_of(core, block, blocks) + count_below(core, block, x, true)
    } else {
        count_below(core, block, x, false)
    }
}

/// The renumbered block of every state.
pub open spec fn relabelled(core: &Projection, block: Seq<u8>, blocks: int) -> Seq<int> {
    Seq::new(core.states as nat, |s: int| relabel(core, block, blocks, block[s] as int))
}

/// A partition the harvest can run: it fits the register, some block accepts and some
/// does not, the start state's block accepts nothing, it is closed under the
/// transitions, and every renumbered block has a member.
pub open spec fn inducible(core: &Projection, block: Seq<u8>, blocks: int) -> bool {
    &&& blocks <= LANES
    &&& 0 < threshold_of(core, block, blocks) < blocks
    &&& !block_accepts(core, block, block[0] as int)
    &&& is_closed(core, block)
    &&& forall|f: int| 0 <= f < blocks ==> #[trigger] has_member(core, block, blocks, f)
}

/// Some state lands in renumbered block `f`.
pub open spec fn has_member(core: &Projection, block: Seq<u8>, blocks: int, f: int) -> bool {
    exists|i: int|
        0 <= i < core.states && #[trigger] relabel(core, block, blocks, block[i] as int) == f
}

proof fn lemma_count_mono(core: &Projection, block: Seq<u8>, x: int, y: int, acc: bool)
    requires
        0 <= x <= y,
    ensures
        count_below(core, block, x, acc) <= count_below(core, block, y, acc),
        count_below(core, block, y, acc) - count_below(core, block, x, acc) <= y - x,
    decreases y - x,
{
    if x < y {
        lemma_count_mono(core, block, x, y - 1, acc);
    }
}

proof fn lemma_count_split(core: &Projection, block: Seq<u8>, x: int)
    requires
        0 <= x,
    ensures
        count_below(core, block, x, true) + count_below(core, block, x, false) == x,
    decreases x,
{
    if x > 0 {
        lemma_count_split(core, block, x - 1);
    }
}

/// Renumbering maps the blocks one to one onto themselves, accepting ones to the top.
proof fn lemma_relabel(core: &Projection, block: Seq<u8>, blocks: int)
    requires
        0 <= blocks,
    ensures
        forall|x: int|
            0 <= x < blocks ==> 0 <= #[trigger] relabel(core, block, blocks, x) < blocks && (
            relabel(core, block, blocks, x) >= threshold_of(core, block, blocks)
                <==> block_accepts(core, block, x)),
        forall|x: int, y: int|
            0 <= x < blocks && 0 <= y < blocks && x != y ==> #[trigger] relabel(
                core,
                block,
                blocks,
                x,
            ) != #[trigger] relabel(core, block, blocks, y),
{
    lemma_count_split(core, block, blocks);
    assert forall|x: int| 0 <= x < blocks implies 0 <= #[trigger] relabel(core, block, blocks, x)
        < blocks && (relabel(core, block, blocks, x) >= threshold_of(core, block, blocks)
        <==> block_accepts(core, block, x)) by {
        lemma_count_mono(core, block, 0, x, true);
        lemma_count_mono(core, block, 0, x, false);
        lemma_count_mono(core, block, x + 1, blocks, true);
        lemma_count_mono(core, block, x + 1, blocks, false);
    }
    assert forall|x: int, y: int| 0 <= x < blocks && 0 <= y < blocks && x != y implies
        #[trigger] relabel(core, block, blocks, x) != #[trigger] relabel(core, block, blocks, y) by {
        let (lo, hi) = if x < y {
            (x, y)
        } else {
            (y, x)
        };
        lemma_count_mono(core, block, lo + 1, hi, true);
        lemma_count_mono(core, block, lo + 1, hi, false);
        lemma_count_mono(core, block, 0, lo, true);
        lemma_count_mono(core, block, 0, lo, false);
        lemma_count_mono(core, block, hi + 1, blocks, true);
        lemma_count_mono(core, block, hi + 1, blocks, false);
    }
}


/// A closed partition that survived [`induce`], at the resolution the check itself runs
/// at: one column per byte class rather than per byte.
struct Induced {
    /// Accepting iff `block >= threshold`, over the renumbered blocks.
    threshold: u8,
    /// The block the start state landed in, renumbered.
    start: u8,
    /// `table[block][class]`: the successor the closure check re-derived and agreed with.
    table: [[u8; 256]; 16],
    /// The partition this was induced from.
    block: Ghost<Seq<u8>>,
}

impl Induced {
    /// This is the quotient `self.block` induces on `core`, renumbered.
    spec fn describes(&self, core: &Projection, blocks: int) -> bool {
        let block = self.block@;
        &&& block.len() == core.states
        &&& forall|i: int| 0 <= i < core.states ==> #[trigger] block[i] < blocks
        &&& inducible(core, block, blocks)
        &&& self.threshold == threshold_of(core, block, blocks)
        &&& self.start == relabel(core, block, blocks, block[0] as int)
        &&& forall|i: int, k: int|
            0 <= i < core.states && 0 <= k < core.classes ==> self.table[relabel(
                core,
                block,
                blocks,
                block[i] as int,
            )][k] == relabel(core, block, blocks, block[#[trigger] core.next(i, k)] as int)
    }

    /// Widen the class columns back out to the byte rows the shuffle kernel indexes.
    /// Lanes past the block count stay zero: a block that does not exist is never
    /// entered, so its column is never read.
    fn expand(&self, core: &Projection, blocks: u8) -> (q: Quotient)
        requires
            core.wf(),
            self.describes(core, blocks as int),
        ensures
            q.wf(),
            q.abstracts_with(core, relabelled(core, self.block@, blocks as int)),
            q.blocks == blocks,
            q.threshold == self.threshold,
            q.start == self.start,
            forall|b: int, x: int| 0 <= b < 256 && blocks <= x < LANES ==> #[trigger] q.rows[b][x] == 0,
    {
        let ghost bl = self.block@;
        let ghost nb = blocks as int;
        proof {
            lemma_relabel(core, bl, nb);
        }
        let mut rows = [[0u8; 16]; 256];
        let mut b: usize = 0;
        while b < 256
            invariant
                core.wf(),
                b <= 256,
                blocks <= LANES,
                forall|c: int, x: int|
                    0 <= c < b && 0 <= x < LANES ==> #[trigger] rows[c][x] == (if x < blocks {
                        self.table[x][core.class_of[c] as int]
                    } else {
                        0
                    }),
            decreases 256 - b,
        {
            let k = core.class_of[b] as usize;
            let mut row = [0u8; 16];
            let mut lane: usize = 0;
            while lane < blocks as usize
                invariant
                    lane <= blocks <= LANES,
                    k < 256,
                    forall|x: int| 0 <= x < lane ==> #[trigger] row[x] == self.table[x][k as int],
                    forall|x: int| lane <= x < LANES ==> #[trigger] row[x] == 0,
                decreases blocks - lane,
            {
                row[lane] = self.table[lane][k];
                lane += 1;
            }
            rows[b] = row;
            b += 1;
        }
        let q = Quotient { blocks, threshold: self.threshold, start: self.start, rows };
        proof {
            let h = relabelled(core, bl, nb);
            assert forall|c: int, x: int| 0 <= c < 256 && 0 <= x < LANES implies #[trigger] q.rows[c][x]
                < q.blocks by {
                if x < blocks {
                    assert(has_member(core, bl, nb, x));
                    let i = choose|i: int|
                        0 <= i < core.states && #[trigger] relabel(core, bl, nb, bl[i] as int) == x;
                    let k = core.class_of[c] as int;
                    core.lemma_next_in_core(i, k);
                    assert(self.table[relabel(core, bl, nb, bl[i] as int)][k] == relabel(
                        core,
                        bl,
                        nb,
                        bl[core.next(i, k)] as int,
                    ));
                }
            }
            assert forall|s: int, c: u8| 0 <= s < core.states implies #[trigger] q.rows[c as int][h[s]]
                == h[core.succ(s, c)] by {
                let k = core.class_of[c as int] as int;
                core.lemma_next_in_core(s, k);
                assert(core.succ(s, c) == core.next(s, k));
                assert(self.table[relabel(core, bl, nb, bl[s] as int)][k] == relabel(
                    core,
                    bl,
                    nb,
                    bl[core.next(s, k)] as int,
                ));
            }
            assert forall|s: int| 0 <= s < core.states && #[trigger] core.accept@[s] implies h[s]
                >= q.threshold by {
                assert(bl[s] == bl[s] && core.accept@[s]);
                assert(block_accepts(core, bl, bl[s] as int));
            }
        }
        q
    }
}

/// Check the quotient a closed partition induces, or decline.
///
/// The harvest's arithmetic is not trusted: the transition is re-derived from the raw
/// partition and any disagreement rejects the candidate, because a partition that is
/// not actually closed over-approximates nothing. The other declinatures are economic:
/// a quotient whose start block accepts would accept at every position, and one where
/// every block accepts would reject nothing.
#[verifier::rlimit(40)]
fn induce(core: &Projection, block: &[u8], blocks: u8) -> (r: Option<Induced>)
    requires
        core.wf(),
        block@.len() == core.states,
        forall|i: int| 0 <= i < core.states ==> #[trigger] block@[i] < blocks,
    ensures
        r is Some <==> inducible(core, block@, blocks as int),
        r matches Some(d) ==> d.block@ == block@ && d.describes(core, blocks as int),
{
    if blocks as usize > LANES {
        return None;
    }
    let n = core.states;
    let ghost bl = block@;
    let ghost nb = blocks as int;
    proof {
        lemma_relabel(core, bl, nb);
    }
    let mut accepts = [false; 16];
    let mut i: usize = 0;
    while i < n
        invariant
            core.wf(),
            n == core.states,
            i <= n,
            block@ == bl,
            bl.len() == n,
            blocks <= LANES,
            forall|j: int| 0 <= j < n ==> #[trigger] bl[j] < blocks,
            forall|x: int|
                0 <= x < LANES ==> (accepts[x] <==> exists|j: int|
                    0 <= j < i && #[trigger] bl[j] == x && core.accept@[j]),
        decreases n - i,
    {
        if core.accept[i] {
            accepts[block[i] as usize] = true;
        }
        i += 1;
    }
    let nb_usize = blocks as usize;
    let mut threshold: u8 = 0;
    let mut x: usize = 0;
    while x < nb_usize
        invariant
            x <= nb_usize == nb <= LANES,
            threshold == count_below(core, bl, x as int, false),
            threshold <= x,
            forall|y: int| 0 <= y < LANES ==> accepts[y] == block_accepts(core, bl, y),
        decreases nb_usize - x,
    {
        if !accepts[x] {
            threshold += 1;
        }
        x += 1;
    }
    if threshold == 0 || threshold == blocks {
        return None;
    }
    // Renumber so non-accepting blocks come first: `state >= threshold` is then the
    // whole accept test.
    let mut renumber = [0u8; 16];
    let mut lo: u8 = 0;
    let mut hi: u8 = threshold;
    let mut x: usize = 0;
    while x < nb_usize
        invariant
            x <= nb_usize == nb <= LANES,
            threshold == threshold_of(core, bl, nb),
            threshold <= nb,
            lo == count_below(core, bl, x as int, false),
            hi == threshold + count_below(core, bl, x as int, true),
            forall|y: int| 0 <= y < LANES ==> accepts[y] == block_accepts(core, bl, y),
            forall|y: int| 0 <= y < x ==> #[trigger] renumber[y] == relabel(core, bl, nb, y),
        decreases nb_usize - x,
    {
        proof {
            lemma_count_mono(core, bl, 0, x as int, true);
            lemma_count_mono(core, bl, 0, x as int, false);
            lemma_count_mono(core, bl, x as int, nb, false);
        }
        if accepts[x] {
            renumber[x] = hi;
            hi += 1;
        } else {
            renumber[x] = lo;
            lo += 1;
        }
        x += 1;
    }
    let start = renumber[block[core.start as usize] as usize];
    if start >= threshold {
        return None;  // the start block accepts, so every position would
    }
    let mut table = [[0u8; 256]; 16];
    let mut filled = [false; 16];
    let mut i: usize = 0;
    while i < n
        invariant
            core.wf(),
            n == core.states,
            i <= n,
            block@ == bl,
            bl.len() == n,
            nb == blocks <= LANES,
            forall|j: int| 0 <= j < n ==> #[trigger] bl[j] < blocks,
            forall|y: int| 0 <= y < nb ==> #[trigger] renumber[y] == relabel(core, bl, nb, y),
            forall|f: int|
                0 <= f < LANES ==> (#[trigger] filled[f] <==> exists|j: int|
                    0 <= j < i && #[trigger] relabel(core, bl, nb, bl[j] as int) == f),
            forall|j: int, k: int|
                0 <= j < i && 0 <= k < core.classes ==> table[relabel(
                    core,
                    bl,
                    nb,
                    bl[j] as int,
                )][k] == relabel(core, bl, nb, bl[#[trigger] core.next(j, k)] as int),
        decreases n - i,
    {
        proof {
            lemma_relabel(core, bl, nb);
        }
        let from = renumber[block[i] as usize] as usize;
        let ghost table0 = table;
        let mut k: usize = 0;
        while k < core.classes
            invariant
                core.wf(),
                n == core.states,
                i < n,
                k <= core.classes,
                block@ == bl,
                bl.len() == n,
                nb == blocks <= LANES,
                forall|j: int| 0 <= j < n ==> #[trigger] bl[j] < blocks,
                forall|y: int| 0 <= y < nb ==> #[trigger] renumber[y] == relabel(core, bl, nb, y),
                from == relabel(core, bl, nb, bl[i as int] as int),
                from < LANES,
                forall|f: int|
                    0 <= f < LANES ==> (#[trigger] filled[f] <==> exists|j: int|
                        0 <= j < i && #[trigger] relabel(core, bl, nb, bl[j] as int) == f),
                forall|f: int, kk: int|
                    0 <= f < LANES && f != from && 0 <= kk < 256 ==> #[trigger] table[f][kk]
                        == table0[f][kk],
                forall|kk: int| k <= kk < 256 ==> #[trigger] table[from as int][kk] == table0[from as int][kk],
                forall|j: int, kk: int|
                    0 <= j < i && 0 <= kk < core.classes ==> table0[relabel(
                        core,
                        bl,
                        nb,
                        bl[j] as int,
                    )][kk] == relabel(core, bl, nb, bl[#[trigger] core.next(j, kk)] as int),
                filled[from as int] ==> forall|kk: int|
                    0 <= kk < 256 ==> #[trigger] table[from as int][kk] == table0[from as int][kk],
                forall|kk: int|
                    0 <= kk < k ==> table[from as int][kk] == relabel(
                        core,
                        bl,
                        nb,
                        bl[#[trigger] core.next(i as int, kk)] as int,
                    ),
            decreases core.classes - k,
        {
            let next = core.step(i as u16, k);
            let to = renumber[block[next as usize] as usize];
            if filled[from] {
                if table[from][k] != to {
                    proof {
                        lemma_relabel(core, bl, nb);
                        let j = choose|j: int|
                            0 <= j < i && #[trigger] relabel(core, bl, nb, bl[j] as int) == from;
                        assert(bl[j] == bl[i as int]);
                        core.lemma_next_in_core(j, k as int);
                        assert(bl[core.next(j, k as int)] != bl[core.next(i as int, k as int)]);
                    }
                    return None;  // not closed after all
                }
            } else {
                table[from][k] = to;
            }
            k += 1;
        }
        filled[from] = true;
        proof {
            assert forall|j: int, kk: int|
                0 <= j < i + 1 && 0 <= kk < core.classes implies table[relabel(
                core,
                bl,
                nb,
                bl[j] as int,
            )][kk] == relabel(core, bl, nb, bl[#[trigger] core.next(j, kk)] as int) by {
                if j < i && relabel(core, bl, nb, bl[j] as int) == from {
                    assert(table0[from as int][kk] == relabel(core, bl, nb, bl[core.next(j, kk)] as int));
                }
            }
        }
        i += 1;
    }
    let mut f: usize = 0;
    while f < nb_usize
        invariant
            f <= nb_usize == nb <= LANES,
            n == core.states,
            bl.len() == n,
            block@ == bl,
            nb == blocks,
            forall|g: int| 0 <= g < f ==> #[trigger] filled[g],
            forall|g: int|
                0 <= g < LANES ==> (#[trigger] filled[g] <==> exists|j: int|
                    0 <= j < n && #[trigger] relabel(core, bl, nb, bl[j] as int) == g),
        decreases nb_usize - f,
    {
        if !filled[f] {
            proof {
                if has_member(core, bl, nb, f as int) {
                    let j = choose|j: int|
                        0 <= j < core.states && #[trigger] relabel(core, bl, nb, bl[j] as int) == f;
                    assert(filled[f as int]);
                }
            }
            return None;  // an empty block means the renumbering lied
        }
        f += 1;
    }
    proof {
        assert forall|a: int, c: int, k: int|
            0 <= a < core.states && 0 <= c < core.states && 0 <= k < core.classes && bl[a] == bl[c]
            implies #[trigger] bl[core.next(a, k)] == #[trigger] bl[core.next(c, k)] by {
            core.lemma_next_in_core(a, k);
            core.lemma_next_in_core(c, k);
        }
        assert forall|g: int| 0 <= g < nb implies #[trigger] has_member(core, bl, nb, g) by {
            assert(filled[g]);
        }
    }
    Some(Induced { threshold, start, table, block: Ghost(bl) })
}


/// `q` is the register form of the quotient that the closed partition `block`
/// induces on `core`: its blocks renumbered so the accepting ones are on top, the start
/// state's block as start, and its rows the partition's transitions.
pub open spec fn induced_by(q: Quotient, core: &Projection, block: Seq<u8>) -> bool {
    let blocks = top(block) + 1;
    &&& q.wf()
    &&& q.blocks == blocks
    &&& q.threshold == threshold_of(core, block, blocks)
    &&& q.start == relabel(core, block, blocks, block[0] as int)
    &&& q.abstracts_with(core, relabelled(core, block, blocks))
    &&& forall|b: int, x: int| 0 <= b < 256 && blocks <= x < LANES ==> #[trigger] q.rows[b][x] == 0
}

/// The ranking key of a quotient with `blocks` blocks of which those from `threshold`
/// up accept: the share of its blocks that accept, less a ten-thousandth per block so
/// that ties go to the finer partition, the one closer to the truth it approximates.
/// Scaled by 720720, which every block count up to sixteen divides, it is an integer, so
/// candidates compare exactly.
pub open spec fn rank_key(blocks: int, threshold: int) -> int {
    10000 * (blocks - threshold) * (720720int / blocks) + (LANES - blocks) * 720720
}

fn rank_key_of(blocks: u8, threshold: u8) -> (r: u64)
    requires
        1 <= blocks <= LANES,
        threshold <= blocks,
    ensures
        r == rank_key(blocks as int, threshold as int),
{
    let per = 720720u64 / blocks as u64;
    assert(per <= 720720);
    let accepting = (blocks - threshold) as u64;
    assert(accepting * per <= 16 * 720720) by (nonlinear_arith)
        requires
            accepting <= 16,
            per <= 720720,
    ;
    assert(10000 * (accepting * per) == 10000 * accepting * per) by (nonlinear_arith);
    10000 * (accepting * per) + (16 - blocks as u64) * 720720
}

/// A candidate the sweep kept: a closed partition and its ranking key.
struct Kept {
    block: Vec<u8>,
    key: u64,
}

/// Candidate `i` ranks ahead of candidate `j`: a lower key, or an equal key found
/// earlier.
spec fn precedes(kept: Seq<Kept>, i: int, j: int) -> bool {
    kept[i].key < kept[j].key || (kept[i].key == kept[j].key && i < j)
}

/// Candidate `j` ranks after `prev`; every candidate ranks after nothing.
spec fn after(kept: Seq<Kept>, prev: Option<usize>, j: int) -> bool {
    match prev {
        None => true,
        Some(p) => precedes(kept, p as int, j),
    }
}

/// Candidate `c` ranks ahead of every other.
spec fn leads(kept: Seq<Kept>, c: int) -> bool {
    &&& 0 <= c < kept.len()
    &&& forall|j: int| 0 <= j < kept.len() && j != c ==> #[trigger] precedes(kept, c, j)
}

/// Candidate `d` ranks ahead of every other candidate the leader `c` does not refine,
/// and `c` does not refine it.
spec fn runner_up(kept: Seq<Kept>, c: int, d: int) -> bool {
    &&& 0 <= d < kept.len()
    &&& !refines_spec(kept[c].block@, kept[d].block@)
    &&& forall|j: int|
        0 <= j < kept.len() && j != d && !refines_spec(kept[c].block@, kept[j].block@)
            ==> #[trigger] precedes(kept, d, j)
}

/// `block` is the closure of the state pair `(p, q)`: the least partition closed under
/// the transitions that puts both states in one block.
pub open spec fn closure_of(core: &Projection, block: Seq<u8>, p: int, q: int) -> bool {
    &&& 0 <= p < core.states
    &&& 0 <= q < core.states
    &&& is_closed(core, block)
    &&& block[p] == block[q]
    &&& forall|other: Seq<u8>|
        #[trigger] is_closed(core, other) && other[p] == other[q] ==> refines_spec(block, other)
}

/// `block` is the closure of some pair of distinct states.
pub open spec fn pair_closure(core: &Projection, block: Seq<u8>) -> bool {
    exists|p: int, q: int| p < q && #[trigger] closure_of(core, block, p, q)
}

/// A partition of the core into at most sixteen blocks that induces a quotient.
pub open spec fn runnable(core: &Projection, block: Seq<u8>) -> bool {
    &&& block.len() == core.states
    &&& top(block) + 1 <= LANES
    &&& inducible(core, block, top(block) + 1)
}

/// Two canonical closures of one pair are one partition.
proof fn lemma_closure_unique(core: &Projection, a: Seq<u8>, b: Seq<u8>, p: int, q: int)
    requires
        closure_of(core, a, p, q),
        canonical(a),
        closure_of(core, b, p, q),
        canonical(b),
    ensures
        a == b,
{
    assert(refines_spec(a, b) && refines_spec(b, a));
    assert forall|i: int, j: int| 0 <= i < a.len() && 0 <= j < a.len() implies (#[trigger] a[i]
        == #[trigger] a[j] <==> b[i] == b[j]) by {
        if a[i] == a[j] {
            assert(b[i] == b[j]);
        }
        if b[i] == b[j] {
            assert(a[i] == a[j]);
        }
    }
    lemma_canonical_unique(a, b);
}

/// The pair `(p, q)` has a closure written canonically.
pub open spec fn has_closure(core: &Projection, p: int, q: int) -> bool {
    exists|c: Seq<u8>| #[trigger] closure_of(core, c, p, q) && canonical(c)
}

/// The closure of the pair `(p, q)`, written canonically.
pub open spec fn closure_spec(core: &Projection, p: int, q: int) -> Seq<u8> {
    choose|c: Seq<u8>| #[trigger] closure_of(core, c, p, q) && canonical(c)
}

/// What closing a partition of the core into `c`'s blocks costs the step budget: one
/// step per class for each of the merges that take the core's states down to its blocks.
pub open spec fn closure_cost(core: &Projection, c: Seq<u8>) -> int {
    core.classes * (core.states - (top(c) + 1))
}

/// Some candidate in `kept` is the partition `block`.
pub open spec fn held(kept: Seq<(Seq<u8>, int)>, block: Seq<u8>) -> bool {
    exists|t: int| 0 <= t < kept.len() && #[trigger] kept[t].0 == block
}

/// Where the sweep over state pairs stands: the steps spent, the candidates kept with
/// their ranking keys, and whether it has stopped.
pub struct Sweep {
    pub steps: int,
    pub kept: Seq<(Seq<u8>, int)>,
    pub done: bool,
}

/// Visit the pair `(p, q)`: close it, stop if the closure overspends the budget, and keep
/// it (with its key) if it has two to sixteen blocks, is not held already and induces a
/// quotient; stop once the candidate cap is reached.
#[verifier::opaque]
pub open spec fn visit(core: &Projection, s: Sweep, p: int, q: int) -> Sweep {
    if s.done {
        s
    } else if !has_closure(core, p, q) || s.steps + closure_cost(core, closure_spec(core, p, q))
        > MAX_CLOSURE_STEPS {
        Sweep { steps: s.steps, kept: s.kept, done: true }
    } else {
        let c = closure_spec(core, p, q);
        let blocks = top(c) + 1;
        let steps = s.steps + closure_cost(core, c);
        if 1 < blocks <= LANES && !held(s.kept, c) && inducible(core, c, blocks) {
            let kept = s.kept.push((c, rank_key(blocks, threshold_of(core, c, blocks))));
            Sweep { steps, kept, done: kept.len() == MAX_CANDIDATES }
        } else {
            Sweep { steps, kept: s.kept, done: false }
        }
    }
}

/// The sweep before it visits the pair `(p, q)`: every pair `(p', q')` with `p' < q'`
/// visited in order, rows `p' < p` whole and row `p` below `q`.
pub open spec fn sweep_before(core: &Projection, p: int, q: int) -> Sweep
    decreases p, q,
{
    if p < 0 || q <= 0 || (p == 0 && q <= 1) {
        Sweep { steps: 0, kept: Seq::empty(), done: false }
    } else if q > p + 1 {
        visit(core, sweep_before(core, p, q - 1), p, q - 1)
    } else {
        sweep_before(core, p - 1, core.states as int)
    }
}

/// The candidates the whole sweep keeps, in the order it finds them.
pub open spec fn candidates(core: &Projection) -> Seq<(Seq<u8>, int)> {
    sweep_before(core, core.states as int, core.states + 1).kept
}

/// Once stopped, the sweep stays where it stopped.
proof fn lemma_sweep_stays(core: &Projection, p: int, q: int, p2: int, q2: int)
    requires
        0 <= p,
        p + 1 <= q <= core.states,
        sweep_before(core, p, q).done,
        p < p2 || (p == p2 && q <= q2),
        p2 <= core.states,
        p2 + 1 <= q2,
        q2 <= core.states || q2 == p2 + 1,
    ensures
        sweep_before(core, p2, q2) == sweep_before(core, p, q),
    decreases p2, q2,
{
    reveal(visit);
    if p2 == p && q2 == q {
    } else if q2 > p2 + 1 {
        lemma_sweep_stays(core, p, q, p2, q2 - 1);
    } else {
        assert(p2 > p);
        lemma_sweep_stays(core, p, q, p2 - 1, core.states as int);
    }
}

/// `i` ranks ahead of `j` among the candidates: a lower key, or an equal key found
/// earlier.
pub open spec fn ranks_ahead(k: Seq<(Seq<u8>, int)>, i: int, j: int) -> bool {
    k[i].1 < k[j].1 || (k[i].1 == k[j].1 && i < j)
}

/// Candidate `c` ranks ahead of every other.
pub open spec fn ranks_first(k: Seq<(Seq<u8>, int)>, c: int) -> bool {
    &&& 0 <= c < k.len()
    &&& forall|j: int| 0 <= j < k.len() && j != c ==> #[trigger] ranks_ahead(k, c, j)
}

/// Candidate `d` ranks ahead of every other candidate the leader `c` does not refine,
/// and `c` does not refine it.
pub open spec fn ranks_second(k: Seq<(Seq<u8>, int)>, c: int, d: int) -> bool {
    &&& 0 <= d < k.len()
    &&& !refines_spec(k[c].0, k[d].0)
    &&& forall|j: int|
        0 <= j < k.len() && j != d && !refines_spec(k[c].0, k[j].0) ==> #[trigger] ranks_ahead(
            k,
            d,
            j,
        )
}

/// The candidate ranked next after `prev` (after nothing: the first).
fn next_in_rank(kept: &Vec<Kept>, prev: Option<usize>) -> (r: Option<usize>)
    requires
        prev matches Some(p) ==> p < kept@.len(),
    ensures
        r is None <==> forall|j: int| 0 <= j < kept@.len() ==> !#[trigger] after(kept@, prev, j),
        r matches Some(c) ==> {
            &&& c < kept@.len()
            &&& after(kept@, prev, c as int)
            &&& forall|j: int|
                0 <= j < kept@.len() && j != c && #[trigger] after(kept@, prev, j) ==> precedes(
                    kept@,
                    c as int,
                    j,
                )
        },
{
    let mut best: Option<usize> = None;
    let mut j: usize = 0;
    while j < kept.len()
        invariant
            j <= kept@.len(),
            prev matches Some(p) ==> p < kept@.len(),
            best is None ==> forall|t: int| 0 <= t < j ==> !#[trigger] after(kept@, prev, t),
            best matches Some(c) ==> {
                &&& c < j
                &&& after(kept@, prev, c as int)
                &&& forall|t: int|
                    0 <= t < j && t != c && #[trigger] after(kept@, prev, t) ==> precedes(
                        kept@,
                        c as int,
                        t,
                    )
            },
        decreases kept@.len() - j,
    {
        let later = match prev {
            None => true,
            Some(p) => kept[p].key < kept[j].key || (kept[p].key == kept[j].key && p < j),
        };
        if later {
            let better = match best {
                None => true,
                Some(c) => kept[j].key < kept[c].key,
            };
            if better {
                best = Some(j);
            }
        }
        j += 1;
    }
    best
}

/// Where the greedy walk stands after visiting `prev` and every candidate ranked ahead of
/// it: `chosen` are the candidates it kept, `out` their quotients. The first candidate
/// visited leads the ranking and is always kept; the second kept is the first in rank
/// the leader does not refine.
spec fn greedy(
    core: &Projection,
    k: Seq<Kept>,
    out: Seq<Quotient>,
    chosen: Seq<usize>,
    prev: Option<usize>,
) -> bool {
    &&& out.len() == chosen.len() <= MAX_CONJUNCTS
    &&& forall|t: int| 0 <= t < chosen.len() ==> #[trigger] chosen[t] < k.len()
    &&& prev is None ==> out.len() == 0
    &&& prev matches Some(p) ==> {
        &&& p < k.len()
        &&& out.len() >= 1
        &&& leads(k, chosen[0] as int)
    }
    &&& out.len() >= 1 ==> induced_by(out[0], core, k[chosen[0] as int].block@)
    &&& out.len() == 1 ==> (prev matches Some(p) && forall|j: int|
        0 <= j < k.len() && j != chosen[0] && (j == p || precedes(k, j, p as int))
            ==> refines_spec(k[chosen[0] as int].block@, #[trigger] k[j].block@))
    &&& out.len() == 2 ==> {
        &&& chosen[1] != chosen[0]
        &&& !refines_spec(k[chosen[0] as int].block@, k[chosen[1] as int].block@)
        &&& forall|j: int|
            0 <= j < k.len() && j != chosen[0] && #[trigger] precedes(k, j, chosen[1] as int)
                ==> refines_spec(k[chosen[0] as int].block@, k[j].block@)
        &&& precedes(k, chosen[0] as int, chosen[1] as int)
        &&& induced_by(out[1], core, k[chosen[1] as int].block@)
    }
}

/// Visit candidate `cur`: keep it unless a kept candidate refines it.
fn consider(
    core: &Projection,
    kept: &Vec<Kept>,
    cur: usize,
    out: &mut Vec<Quotient>,
    chosen: &mut Vec<usize>,
)
    requires
        core.wf(),
        cur < kept@.len(),
        forall|i: int| 0 <= i < kept@.len() ==> runnable(core, #[trigger] kept@[i].block@),
        forall|t: int| 0 <= t < old(chosen)@.len() ==> #[trigger] old(chosen)@[t] < kept@.len(),
    ensures
        (exists|u: int|
            0 <= u < old(chosen)@.len() && refines_spec(
                kept@[#[trigger] old(chosen)@[u] as int].block@,
                kept@[cur as int].block@,
            )) ==> final(out)@ == old(out)@ && final(chosen)@ == old(chosen)@,
        !(exists|u: int|
            0 <= u < old(chosen)@.len() && refines_spec(
                kept@[#[trigger] old(chosen)@[u] as int].block@,
                kept@[cur as int].block@,
            )) ==> {
            &&& final(chosen)@ == old(chosen)@.push(cur)
            &&& final(out)@.len() == old(out)@.len() + 1
            &&& final(out)@.drop_last() == old(out)@
            &&& induced_by(final(out)@.last(), core, kept@[cur as int].block@)
        },
{
    let ghost k = kept@;
    let mut refined = false;
    let mut t: usize = 0;
    while t < chosen.len()
        invariant
            kept@ == k,
            cur < k.len(),
            t <= chosen@.len(),
            chosen@ == old(chosen)@,
            forall|i: int| 0 <= i < k.len() ==> runnable(core, #[trigger] k[i].block@),
            forall|u: int| 0 <= u < chosen@.len() ==> #[trigger] chosen@[u] < k.len(),
            refined == exists|u: int|
                0 <= u < t && refines_spec(
                    k[#[trigger] chosen@[u] as int].block@,
                    k[cur as int].block@,
                ),
        decreases chosen@.len() - t,
    {
        let c = chosen[t];
        proof {
            lemma_top(k[c as int].block@);
        }
        if refines(&kept[c].block, &kept[cur].block) {
            refined = true;
        }
        t += 1;
    }
    if !refined {
        let blocks = block_count(&kept[cur].block);
        proof {
            lemma_top(k[cur as int].block@);
        }
        match induce(core, &kept[cur].block, blocks) {
            Some(induced) => {
                let q = induced.expand(core, blocks);
                out.push(q);
                chosen.push(cur);
                proof {
                    assert(out@.drop_last() =~= old(out)@);
                }
            },
            None => {},
        }
    }
}

/// One visit keeps the walk greedy.
proof fn lemma_visit(
    core: &Projection,
    k: Seq<Kept>,
    out0: Seq<Quotient>,
    chosen0: Seq<usize>,
    before: Option<usize>,
    cur: usize,
    out1: Seq<Quotient>,
    chosen1: Seq<usize>,
)
    requires
        greedy(core, k, out0, chosen0, before),
        out0.len() < MAX_CONJUNCTS,
        cur < k.len(),
        after(k, before, cur as int),
        forall|j: int|
            0 <= j < k.len() && j != cur && #[trigger] after(k, before, j) ==> precedes(
                k,
                cur as int,
                j,
            ),
        (exists|u: int|
            0 <= u < chosen0.len() && refines_spec(
                k[#[trigger] chosen0[u] as int].block@,
                k[cur as int].block@,
            )) ==> out1 == out0 && chosen1 == chosen0,
        !(exists|u: int|
            0 <= u < chosen0.len() && refines_spec(
                k[#[trigger] chosen0[u] as int].block@,
                k[cur as int].block@,
            )) ==> {
            &&& chosen1 == chosen0.push(cur)
            &&& out1.len() == out0.len() + 1
            &&& out1.drop_last() == out0
            &&& induced_by(out1.last(), core, k[cur as int].block@)
        },
    ensures
        greedy(core, k, out1, chosen1, Some(cur)),
{
    if before is None {
        assert(chosen0.len() == 0);
        assert forall|j: int| 0 <= j < k.len() && j != cur implies #[trigger] precedes(
            k,
            cur as int,
            j,
        ) by {
            assert(after(k, before, j));
        }
        assert(leads(k, cur as int));
        assert(chosen1 == seq![cur]);
        assert(out1[0] == out1.last());
        assert forall|j: int|
            0 <= j < k.len() && j != chosen1[0] && (j == cur || precedes(k, j, cur as int))
                implies refines_spec(k[chosen1[0] as int].block@, #[trigger] k[j].block@) by {
            assert(precedes(k, cur as int, j));
        }
    } else {
        let p = before->0;
        let c0 = chosen0[0] as int;
        assert(precedes(k, p as int, cur as int));
        if c0 != p {
            assert(precedes(k, c0, p as int));
        }
        assert(precedes(k, c0, cur as int));
        assert forall|j: int|
            0 <= j < k.len() && j != c0 && (j == cur || precedes(k, j, cur as int)) implies (j
            == p || precedes(k, j, p as int) || j == cur) by {
            if j != p && j != cur && !precedes(k, j, p as int) {
                assert(after(k, before, j));
                assert(precedes(k, cur as int, j));
            }
        }
        assert(chosen1[0] == chosen0[0]);
        assert(out1[0] == out0[0]);
        if chosen1.len() == 2 {
            assert(chosen1[1] == cur);
            assert(out1[1] == out1.last());
            assert(!refines_spec(k[c0].block@, k[cur as int].block@));
            assert forall|j: int|
                0 <= j < k.len() && j != c0 && #[trigger] precedes(k, j, chosen1[1] as int)
                    implies refines_spec(k[c0].block@, k[j].block@) by {
                assert(j == p || precedes(k, j, p as int) || j == cur);
            }
        }
    }
}

/// Greedy by rank, skipping any partition an already-chosen one already distinguishes
/// everything about: a conjunct that adds no discriminating power is a second register
/// chain bought for nothing.
fn select(core: &Projection, kept: Vec<Kept>) -> (out: Vec<Quotient>)
    requires
        core.wf(),
        forall|i: int| 0 <= i < kept@.len() ==> runnable(core, #[trigger] kept@[i].block@),
    ensures
        out@.len() <= MAX_CONJUNCTS,
        (out@.len() == 0) == (kept@.len() == 0),
        forall|c: int| #[trigger] leads(kept@, c) ==> induced_by(out@[0], core, kept@[c].block@),
        forall|c: int|
            #[trigger] leads(kept@, c) ==> (out@.len() == 2 <==> exists|j: int|
                0 <= j < kept@.len() && !refines_spec(kept@[c].block@, #[trigger] kept@[j].block@)),
        forall|c: int, d: int|
            leads(kept@, c) && #[trigger] runner_up(kept@, c, d) && out@.len() == 2 ==> induced_by(
                out@[1],
                core,
                kept@[d].block@,
            ),
        out@.len() >= 1 ==> exists|c: int|
            #[trigger] leads(kept@, c) && induced_by(out@[0], core, kept@[c].block@),
        out@.len() == 2 ==> exists|c: int, d: int|
            #[trigger] runner_up(kept@, c, d) && leads(kept@, c) && induced_by(
                out@[1],
                core,
                kept@[d].block@,
            ),
{
    let ghost k = kept@;
    let mut out: Vec<Quotient> = Vec::new();
    let mut chosen: Vec<usize> = Vec::new();
    let mut prev: Option<usize> = None;
    let mut running = true;
    let ghost mut last_key: int = -1;
    let ghost mut last_idx: int = -1;
    while running
        invariant
            core.wf(),
            kept@ == k,
            forall|i: int| 0 <= i < k.len() ==> runnable(core, #[trigger] k[i].block@),
            greedy(core, k, out@, chosen@, prev),
            prev is None ==> last_key == -1 && last_idx == -1,
            prev matches Some(p) ==> last_key == k[p as int].key && last_idx == p,
            !running ==> out@.len() == 2 || (forall|j: int|
                0 <= j < k.len() ==> !#[trigger] after(k, prev, j)),
        decreases (if running {
            1int
        } else {
            0int
        }), 18446744073709551616int - last_key, k.len() - last_idx,
    {
        if out.len() == MAX_CONJUNCTS {
            running = false;
        } else {
            match next_in_rank(&kept, prev) {
                None => {
                    running = false;
                },
                Some(cur) => {
                    proof {
                        last_key = k[cur as int].key as int;
                        last_idx = cur as int;
                    }
                    let ghost out0 = out@;
                    let ghost chosen0 = chosen@;
                    let ghost before = prev;
                    consider(core, &kept, cur, &mut out, &mut chosen);
                    prev = Some(cur);
                    proof {
                        lemma_visit(core, k, out0, chosen0, before, cur, out@, chosen@);
                    }
                },
            }
        }
    }
    proof {
        if k.len() > 0 && out@.len() == 0 {
            assert(prev is None);
            assert(after(k, prev, 0));
        }
        assert forall|c: int| #[trigger] leads(k, c) implies induced_by(
            out@[0],
            core,
            k[c].block@,
        ) by {
            if c != chosen@[0] {
                assert(precedes(k, c, chosen@[0] as int));
                assert(precedes(k, chosen@[0] as int, c));
            }
        }
        assert forall|c: int| #[trigger] leads(k, c) implies (out@.len() == 2 <==> exists|j: int|
            0 <= j < k.len() && !refines_spec(k[c].block@, #[trigger] k[j].block@)) by {
            if c != chosen@[0] {
                assert(precedes(k, c, chosen@[0] as int));
                assert(precedes(k, chosen@[0] as int, c));
            }
            if out@.len() == 2 {
                let d = chosen@[1] as int;
                assert(0 <= d < k.len() && !refines_spec(k[c].block@, k[d].block@));
            } else {
                assert(out@.len() == 1);
                let p = prev->0;
                assert forall|j: int| 0 <= j < k.len() implies refines_spec(
                    k[c].block@,
                    #[trigger] k[j].block@,
                ) by {
                    if j != p {
                        assert(!after(k, prev, j));
                        assert(precedes(k, j, p as int));
                    }
                }
            }
        }
        if out@.len() >= 1 {
            assert(leads(k, chosen@[0] as int));
        }
        if out@.len() == 2 {
            let c0 = chosen@[0] as int;
            let c1 = chosen@[1] as int;
            assert forall|j: int|
                0 <= j < k.len() && j != c1 && !refines_spec(k[c0].block@, k[j].block@)
                    implies #[trigger] precedes(k, c1, j) by {
                if !precedes(k, c1, j) {
                    assert(precedes(k, j, c1));
                }
            }
            assert(runner_up(k, c0, c1));
        }
        assert forall|c: int, d: int|
            leads(k, c) && #[trigger] runner_up(k, c, d) && out@.len() == 2 implies induced_by(
            out@[1],
            core,
            k[d].block@,
        ) by {
            if c != chosen@[0] {
                assert(precedes(k, c, chosen@[0] as int));
                assert(precedes(k, chosen@[0] as int, c));
            }
            let d1 = chosen@[1] as int;
            if d != d1 {
                assert(d != c);
                if precedes(k, d, d1) {
                } else {
                    assert(precedes(k, d1, d));
                    assert(precedes(k, d, d1));
                }
            }
        }
    }
    out
}


/// A quotient induced by a runnable partition over-approximates the core.
proof fn lemma_induced_sound(core: &Projection, q: Quotient, block: Seq<u8>)
    requires
        runnable(core, block),
        induced_by(q, core, block),
    ensures
        q.wf(),
        q.abstracts(core),
        is_closed(core, block),
{
    assert(q.abstracts_with(core, relabelled(core, block, top(block) + 1)));
}

/// What `select` returns is a register form of closed partitions of the core.
proof fn lemma_selected_sound(core: &Projection, k: Seq<Kept>, out: Seq<Quotient>)
    requires
        forall|i: int|
            0 <= i < k.len() ==> runnable(core, #[trigger] k[i].block@) && pair_closure(
                core,
                k[i].block@,
            ),
        out.len() <= MAX_CONJUNCTS,
        out.len() >= 1 ==> exists|c: int|
            #[trigger] leads(k, c) && induced_by(out[0], core, k[c].block@),
        out.len() == 2 ==> exists|c: int, d: int|
            #[trigger] runner_up(k, c, d) && leads(k, c) && induced_by(out[1], core, k[d].block@),
    ensures
        forall|i: int|
            0 <= i < out.len() ==> #[trigger] out[i].wf() && out[i].abstracts(core) && exists|
                block: Seq<u8>,
            | runnable(core, block) && pair_closure(core, block) && induced_by(out[i], core, block),
{
    if out.len() >= 1 {
        let c = choose|c: int| #[trigger] leads(k, c) && induced_by(out[0], core, k[c].block@);
        let block = k[c].block@;
        lemma_induced_sound(core, out[0], block);
        assert(runnable(core, block) && pair_closure(core, block) && induced_by(out[0], core, block));
    }
    if out.len() == 2 {
        let (c, d) = choose|c: int, d: int|
            #[trigger] runner_up(k, c, d) && leads(k, c) && induced_by(out[1], core, k[d].block@);
        let block = k[d].block@;
        lemma_induced_sound(core, out[1], block);
        assert(runnable(core, block) && pair_closure(core, block) && induced_by(out[1], core, block));
    }
    assert forall|i: int| 0 <= i < out.len() implies #[trigger] out[i].wf() && out[i].abstracts(
        core,
    ) && exists|block: Seq<u8>|
        runnable(core, block) && pair_closure(core, block) && induced_by(out[i], core, block) by {
        if i == 0 {
        } else {
            assert(i == 1);
        }
    }
}

/// A partition the sweep already holds.
fn already_kept(kept: &Vec<Kept>, block: &Vec<u8>) -> (r: bool)
    ensures
        r == exists|t: int| 0 <= t < kept@.len() && #[trigger] kept@[t].block@ == block@,
{
    let mut t: usize = 0;
    while t < kept.len()
        invariant
            t <= kept@.len(),
            forall|u: int| 0 <= u < t ==> #[trigger] kept@[u].block@ != block@,
        decreases kept@.len() - t,
    {
        let seen = &kept[t].block;
        if seen.len() == block.len() {
            let mut i: usize = 0;
            let mut same = true;
            while i < seen.len()
                invariant
                    i <= seen@.len() == block@.len(),
                    same == forall|x: int| 0 <= x < i ==> #[trigger] seen@[x] == block@[x],
                decreases seen@.len() - i,
            {
                if seen[i] != block[i] {
                    same = false;
                }
                i += 1;
            }
            if same {
                assert(seen@ =~= block@);
                return true;
            }
        }
        t += 1;
    }
    false
}

/// A fresh copy of `block`.
fn copy_of(block: &Vec<u8>) -> (r: Vec<u8>)
    ensures
        r@ == block@,
{
    let mut r: Vec<u8> = Vec::new();
    let mut i: usize = 0;
    while i < block.len()
        invariant
            i <= block@.len(),
            r@ == block@.subrange(0, i as int),
        decreases block@.len() - i,
    {
        r.push(block[i]);
        i += 1;
        assert(r@ =~= block@.subrange(0, i as int));
    }
    assert(block@.subrange(0, block@.len() as int) =~= block@);
    r
}

/// The candidates as the sweep keeps them: each partition with its ranking key.
spec fn as_candidates(kept: Seq<Kept>) -> Seq<(Seq<u8>, int)> {
    kept.map_values(|k: Kept| (k.block@, k.key as int))
}

/// The harvest's own state stands where the sweep `s` does.
spec fn tracks(kept: Seq<Kept>, steps: u64, done: bool, s: Sweep) -> bool {
    &&& as_candidates(kept) == s.kept
    &&& done == s.done
    &&& !done ==> steps == s.steps
}

/// The ranking `select` walks is the ranking of the candidates.
proof fn lemma_ranks(kept: Seq<Kept>)
    ensures
        forall|c: int| #[trigger] leads(kept, c) <==> ranks_first(as_candidates(kept), c),
        forall|c: int, d: int|
            0 <= c < kept.len() ==> (#[trigger] runner_up(kept, c, d) <==> ranks_second(
                as_candidates(kept),
                c,
                d,
            )),
{
    let k = as_candidates(kept);
    assert forall|i: int| 0 <= i < kept.len() implies #[trigger] k[i] == (
    kept[i].block@,
    kept[i].key as int,
    ) by {}
    assert forall|i: int, j: int| 0 <= i < kept.len() && 0 <= j < kept.len() implies (
    #[trigger] precedes(kept, i, j) <==> ranks_ahead(k, i, j)) by {
        assert(k[i].1 == kept[i].key && k[j].1 == kept[j].key);
    }
    assert forall|c: int| #[trigger] leads(kept, c) <==> ranks_first(k, c) by {
        if leads(kept, c) {
            assert forall|j: int| 0 <= j < k.len() && j != c implies #[trigger] ranks_ahead(k, c, j) by {
                assert(precedes(kept, c, j));
            }
        }
        if ranks_first(k, c) {
            assert forall|j: int| 0 <= j < kept.len() && j != c implies #[trigger] precedes(
                kept,
                c,
                j,
            ) by {
                assert(ranks_ahead(k, c, j));
            }
        }
    }
    assert forall|c: int, d: int| 0 <= c < kept.len() implies (#[trigger] runner_up(kept, c, d)
        <==> ranks_second(k, c, d)) by {
        if 0 <= d < kept.len() {
            assert(k[c].0 == kept[c].block@ && k[d].0 == kept[d].block@);
            if runner_up(kept, c, d) {
                assert forall|j: int|
                    0 <= j < k.len() && j != d && !refines_spec(k[c].0, k[j].0) implies #[trigger] ranks_ahead(
                    k,
                    d,
                    j,
                ) by {
                    assert(k[j].0 == kept[j].block@);
                    assert(precedes(kept, d, j));
                }
            }
            if ranks_second(k, c, d) {
                assert forall|j: int|
                    0 <= j < kept.len() && j != d && !refines_spec(kept[c].block@, kept[j].block@)
                        implies #[trigger] precedes(kept, d, j) by {
                    assert(k[j].0 == kept[j].block@);
                    assert(ranks_ahead(k, d, j));
                }
            }
        }
    }
}

/// A visit whose closure overspends the budget, or that finds none, stops the sweep.
proof fn lemma_visit_stops(core: &Projection, s: Sweep, p: int, q: int)
    requires
        !s.done,
        forall|c: Seq<u8>|
            #[trigger] closure_of(core, c, p, q) && canonical(c) ==> s.steps + closure_cost(core, c)
                > MAX_CLOSURE_STEPS,
    ensures
        visit(core, s, p, q) == (Sweep { steps: s.steps, kept: s.kept, done: true }),
{
    reveal(visit);
    if has_closure(core, p, q) {
        let c = closure_spec(core, p, q);
        assert(closure_of(core, c, p, q) && canonical(c));
    }
}

/// A visit within the budget spends the closure's cost and keeps the closure exactly
/// when it qualifies.
proof fn lemma_visit_steps(
    core: &Projection,
    s: Sweep,
    p: int,
    q: int,
    c: Seq<u8>,
    after: Sweep,
)
    requires
        !s.done,
        closure_of(core, c, p, q),
        canonical(c),
        s.steps + closure_cost(core, c) <= MAX_CLOSURE_STEPS,
        after.steps == s.steps + closure_cost(core, c),
        (1 < top(c) + 1 <= LANES && !held(s.kept, c) && inducible(core, c, top(c) + 1)) ==> {
            &&& after.kept == s.kept.push((c, rank_key(top(c) + 1, threshold_of(core, c, top(c) + 1))))
            &&& after.done == (after.kept.len() == MAX_CANDIDATES)
        },
        !(1 < top(c) + 1 <= LANES && !held(s.kept, c) && inducible(core, c, top(c) + 1)) ==> {
            &&& after.kept == s.kept
            &&& !after.done
        },
    ensures
        visit(core, s, p, q) == after,
{
    reveal(visit);
    assert(has_closure(core, p, q));
    lemma_closure_unique(core, closure_spec(core, p, q), c, p, q);
}

/// Visit the pair `(p, q)` of the sweep: close it and keep it if it qualifies. `true`
/// when the sweep stops here.
fn visit_pair(
    core: &Projection,
    forest: &mut Forest,
    steps: &mut u64,
    scratch: &mut Scratch,
    kept: &mut Vec<Kept>,
    p: u16,
    q: u16,
) -> (done: bool)
    requires
        core.wf(),
        old(forest).parent@.len() == core.states,
        old(scratch).canon@.len() == core.states,
        old(scratch).block@.len() == core.states,
        p < q < core.states,
        *old(steps) <= MAX_CLOSURE_STEPS,
        old(kept)@.len() < MAX_CANDIDATES,
    ensures
        final(forest).parent@.len() == core.states,
        final(scratch).canon@.len() == core.states,
        final(scratch).block@.len() == core.states,
        final(kept)@.len() <= MAX_CANDIDATES,
        !done ==> *final(steps) <= MAX_CLOSURE_STEPS && final(kept)@.len() < MAX_CANDIDATES,
        forall|t: int| 0 <= t < old(kept)@.len() ==> #[trigger] final(kept)@[t] == old(kept)@[t],
        forall|t: int|
            old(kept)@.len() <= t < final(kept)@.len() ==> runnable(
                core,
                #[trigger] final(kept)@[t].block@,
            ) && pair_closure(core, final(kept)@[t].block@),
        final(kept)@.len() >= old(kept)@.len(),
        tracks(
            final(kept)@,
            *final(steps),
            done,
            visit(
                core,
                Sweep { steps: *old(steps) as int, kept: as_candidates(old(kept)@), done: false },
                p as int,
                q as int,
            ),
        ),
{
    let ghost kept0 = kept@;
    let ghost s0 = Sweep { steps: *old(steps) as int, kept: as_candidates(kept0), done: false };
    if !close(core, forest, steps, scratch, (p, q)) {
        proof {
            assert forall|c: Seq<u8>|
                #[trigger] closure_of(core, c, p as int, q as int) && canonical(c) implies s0.steps
                + closure_cost(core, c) > MAX_CLOSURE_STEPS by {
                assert(closure_of(core, c, (p, q).0 as int, (p, q).1 as int));
            }
            lemma_visit_stops(core, s0, p as int, q as int);
        }
        // step budget spent; what we have is still sound
        return true;
    }
    let ghost c = scratch.block@;
    let blocks = block_count(&scratch.block);
    proof {
        lemma_top(c);
        assert(closure_of(core, c, p as int, q as int));
    }
    let mut done = false;
    // Cheapest refusal first: a partition already held is rejected on a byte compare
    // rather than after inducing a quotient nothing will keep.
    let fresh = blocks > 1 && blocks as usize <= LANES && !already_kept(kept, &scratch.block);
    proof {
        assert(fresh == (1 < top(c) + 1 <= LANES && !held(s0.kept, c))) by {
            if held(s0.kept, c) {
                let t = choose|t: int| 0 <= t < kept0.len() && #[trigger] s0.kept[t].0 == c;
                assert(kept0[t].block@ == c);
            }
            if 1 < top(c) + 1 <= LANES && exists|t: int|
                0 <= t < kept0.len() && #[trigger] kept0[t].block@ == c {
                let t = choose|t: int| 0 <= t < kept0.len() && #[trigger] kept0[t].block@ == c;
                assert(s0.kept[t].0 == c);
            }
        }
    }
    if fresh {
        match induce(core, &scratch.block, blocks) {
            Some(induced) => {
                let key = rank_key_of(blocks, induced.threshold);
                let block = copy_of(&scratch.block);
                proof {
                    assert(pair_closure(core, block@));
                }
                kept.push(Kept { block, key });
                proof {
                    assert(as_candidates(kept@) =~= s0.kept.push((c, key as int)));
                }
                if kept.len() == MAX_CANDIDATES {
                    done = true;
                }
            },
            None => {},
        }
    }
    proof {
        lemma_visit_steps(
            core,
            s0,
            p as int,
            q as int,
            c,
            Sweep { steps: *steps as int, kept: as_candidates(kept@), done },
        );
    }
    done
}

/// `r` is the conjunction the harvest chooses from the sweep's [`candidates`]: none when
/// there are none; first the quotient of the candidate that ranks first; and a second,
/// present exactly when the first does not refine every candidate, the quotient of the
/// best ranked candidate it does not refine.
pub open spec fn harvested(core: &Projection, r: Seq<Quotient>) -> bool {
    &&& r.len() <= MAX_CONJUNCTS
    &&& (r.len() == 0) == (candidates(core).len() == 0)
    &&& forall|c: int|
        #[trigger] ranks_first(candidates(core), c) ==> induced_by(r[0], core, candidates(core)[c].0)
    &&& forall|c: int|
        #[trigger] ranks_first(candidates(core), c) ==> (r.len() == 2 <==> exists|j: int|
            0 <= j < candidates(core).len() && !refines_spec(
                candidates(core)[c].0,
                #[trigger] candidates(core)[j].0,
            ))
    &&& forall|c: int, d: int|
        ranks_first(candidates(core), c) && #[trigger] ranks_second(candidates(core), c, d)
            && r.len() == 2 ==> induced_by(r[1], core, candidates(core)[d].0)
}

/// What `select` promises of its candidates, said of the candidates as the sweep keeps
/// them.
proof fn lemma_chosen(core: &Projection, kept: Seq<Kept>, out: Seq<Quotient>)
    requires
        as_candidates(kept) == candidates(core),
        out.len() <= MAX_CONJUNCTS,
        (out.len() == 0) == (kept.len() == 0),
        forall|c: int| #[trigger] leads(kept, c) ==> induced_by(out[0], core, kept[c].block@),
        forall|c: int|
            #[trigger] leads(kept, c) ==> (out.len() == 2 <==> exists|j: int|
                0 <= j < kept.len() && !refines_spec(kept[c].block@, #[trigger] kept[j].block@)),
        forall|c: int, d: int|
            leads(kept, c) && #[trigger] runner_up(kept, c, d) && out.len() == 2 ==> induced_by(
                out[1],
                core,
                kept[d].block@,
            ),
    ensures
        harvested(core, out),
{
    let k = candidates(core);
    lemma_ranks(kept);
    assert(k.len() == kept.len());
    assert forall|j: int| 0 <= j < kept.len() implies #[trigger] k[j].0 == kept[j].block@ by {
        assert(as_candidates(kept)[j] == (kept[j].block@, kept[j].key as int));
    }
    assert forall|c: int| #[trigger] ranks_first(k, c) implies induced_by(out[0], core, k[c].0) by {
        assert(leads(kept, c));
    }
    assert forall|c: int| #[trigger] ranks_first(k, c) implies (out.len() == 2 <==> exists|j: int|
        0 <= j < k.len() && !refines_spec(k[c].0, #[trigger] k[j].0)) by {
        assert(leads(kept, c));
        if out.len() == 2 {
            let j = choose|j: int|
                0 <= j < kept.len() && !refines_spec(kept[c].block@, #[trigger] kept[j].block@);
            assert(k[j].0 == kept[j].block@);
        }
        if exists|j: int| 0 <= j < k.len() && !refines_spec(k[c].0, #[trigger] k[j].0) {
            let j = choose|j: int| 0 <= j < k.len() && !refines_spec(k[c].0, #[trigger] k[j].0);
            assert(!refines_spec(kept[c].block@, kept[j].block@));
        }
    }
    assert forall|c: int, d: int|
        ranks_first(k, c) && #[trigger] ranks_second(k, c, d) && out.len() == 2 implies induced_by(
        out[1],
        core,
        k[d].0,
    ) by {
        assert(leads(kept, c));
        assert(runner_up(kept, c, d));
    }
}

/// Harvest the lattice and return the chosen conjunction, most selective first. An empty
/// result means no closed partition small enough to hold in a register carried any
/// discriminating power.
///
/// Every state pair is closed in a fixed order ([`sweep_before`]); each closure of two to
/// sixteen blocks not already held that induces a quotient is kept with its ranking key,
/// until the step budget or the candidate cap runs out ([`candidates`]). The first
/// conjunct is the quotient of the candidate that ranks first; the second, present
/// exactly when the first does not refine every candidate, is the quotient of the best
/// ranked candidate it does not refine.
#[verifier::rlimit(40)]
pub fn harvest(core: &Projection) -> (r: Vec<Quotient>)
    requires
        core.wf(),
    ensures
        harvested(core, r@),
        forall|i: int|
            0 <= i < r@.len() ==> #[trigger] r@[i].wf() && r@[i].abstracts(core) && exists|
                block: Seq<u8>,
            | runnable(core, block) && pair_closure(core, block) && induced_by(r@[i], core, block),
{
    let n = core.states;
    let mut forest = Forest::new(n);
    let mut scratch = Scratch { work: Vec::new(), canon: Vec::new(), block: Vec::new() };
    let mut i: usize = 0;
    while i < n
        invariant
            i <= n,
            scratch.canon@.len() == i,
            scratch.block@.len() == i,
        decreases n - i,
    {
        scratch.canon.push(u8::MAX);
        scratch.block.push(0);
        i += 1;
    }
    let mut steps: u64 = 0;
    let mut kept: Vec<Kept> = Vec::new();
    // The core is capped at MAX_CORE_STATES, so the sweep counts in the id type itself.
    let states = n as u16;
    let mut done = false;
    let mut p: u16 = 0;
    let ghost mut ap: int = 0;
    let ghost mut aq: int = 1;
    proof {
        assert(as_candidates(kept@) =~= Seq::<(Seq<u8>, int)>::empty());
    }
    while p < states && !done
        invariant
            core.wf(),
            n == core.states,
            states == n,
            p <= states,
            forest.parent@.len() == n,
            scratch.canon@.len() == n,
            scratch.block@.len() == n,
            !done ==> steps <= MAX_CLOSURE_STEPS,
            kept@.len() <= MAX_CANDIDATES,
            !done ==> kept@.len() < MAX_CANDIDATES,
            forall|t: int|
                0 <= t < kept@.len() ==> runnable(core, #[trigger] kept@[t].block@) && pair_closure(
                    core,
                    kept@[t].block@,
                ),
            tracks(kept@, steps, done, sweep_before(core, ap, aq)),
            !done ==> ap == p && aq == p + 1,
            done ==> 0 <= ap && ap + 1 <= aq <= n,
        decreases states - p,
    {
        let mut q: u16 = p + 1;
        while q < states && !done
            invariant
                core.wf(),
                n == core.states,
                states == n,
                p < states,
                p < q <= states || q == p + 1,
                forest.parent@.len() == n,
                scratch.canon@.len() == n,
                scratch.block@.len() == n,
                !done ==> steps <= MAX_CLOSURE_STEPS,
                kept@.len() <= MAX_CANDIDATES,
                !done ==> kept@.len() < MAX_CANDIDATES,
                forall|t: int|
                    0 <= t < kept@.len() ==> runnable(core, #[trigger] kept@[t].block@)
                        && pair_closure(core, kept@[t].block@),
                tracks(kept@, steps, done, sweep_before(core, ap, aq)),
                !done ==> ap == p && aq == q,
                done ==> 0 <= ap && ap + 1 <= aq <= n,
            decreases states - q,
        {
            let ghost s0 = sweep_before(core, p as int, q as int);
            proof {
                assert(sweep_before(core, p as int, q + 1) == visit(core, s0, p as int, q as int));
                assert(s0 == Sweep { steps: steps as int, kept: as_candidates(kept@), done: false });
            }
            done = visit_pair(core, &mut forest, &mut steps, &mut scratch, &mut kept, p, q);
            proof {
                ap = p as int;
                aq = q + 1;
            }
            q += 1;
        }
        proof {
            if !done {
                assert(sweep_before(core, p + 1, p + 2) == sweep_before(core, p as int, n as int));
                ap = p + 1;
                aq = p + 2;
            }
        }
        p += 1;
    }
    proof {
        if done {
            lemma_sweep_stays(core, ap, aq, n as int, n + 1);
        }
        assert(as_candidates(kept@) == candidates(core));
    }
    let ghost k = kept@;
    let out = select(core, kept);
    proof {
        lemma_selected_sound(core, k, out@);
        lemma_chosen(core, k, out@);
    }
    out
}

} // verus!
