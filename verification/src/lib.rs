//! **sheng** — register-resident refutation sieves for regex automata.
//!
//! A sieve answers one question, in one direction: *can this document be proven to hold
//! no match?* When the answer is yes it is conclusive and the document never needs to be
//! scanned. When the answer is no it means nothing at all, and a real engine has to run.
//!
//! A sieve reads a finished DFA through [`Dfa`], projects it onto its reachable core
//! ([`projection`]), and climbs the lattice of substitution-property partitions past the
//! point where language is preserved ([`lattice`]). The quotient a closed partition
//! induces recognizes a superset of the pattern's language, so a quotient that rejects
//! proves the original rejects. A quotient is capped at sixteen blocks, one register, so
//! the transition step is a single byte shuffle ([`shuffle`]); where a block sits still
//! for long runs a [`Skip`] jumps to the next byte that moves it ([`skip`]).

pub mod arch;
pub mod dfa;
pub mod lattice;
pub mod price;
pub mod prior;
pub mod projection;
pub mod relax;
pub mod selectivity;
pub mod shuffle;
pub mod skip;

pub use arch::Kernel;
pub use dfa::Dfa;
pub use lattice::{harvest, Quotient, MAX_CONJUNCTS};
pub use projection::{Decline, Projection, MAX_CORE_STATES};
pub use skip::{Instrument, Skip};

use vstd::prelude::*;

use crate::dfa::has_match;
use crate::lattice::{candidates, harvested};
use crate::projection::{declined, refusal};
use crate::shuffle::serves;
use crate::skip::{leaves_block, refused};

verus! {

/// Whether to enforce the worth test.
///
/// [`Gate::Ungated`] says the caller wants the sieve whatever its economics: soundness is
/// a property of the quotient construction and holds on every pattern that harvests one,
/// not only on the ones the cost policy admits.
#[derive(Debug, Clone, Copy, PartialEq, Eq, Structural)]
pub enum Gate {
    /// Build only if the arming inequality says the sieve pays for itself.
    Worth,
    /// Build whenever a quotient exists, regardless of the economics.
    Ungated,
}

/// Why an automaton's shape gets it no sieve.
#[derive(Debug, Clone, Copy, PartialEq, Eq, Structural)]
pub enum Refusal {
    /// The automaton's shape rules a sieve out. See [`Decline`].
    Shape(Decline),
    /// No closed partition small enough for a register carried any discriminating power.
    NoQuotient,
}

/// The escape set of `block` in `rows` is one a [`Skip`] can represent exactly.
pub open spec fn skippable(rows: [[u8; 16]; 256], block: u8) -> bool {
    !refused(
        Set::new(|b: u8| leaves_block(rows, block, b)).len(),
        exists|b: u8| b >= 0x80 && leaves_block(rows, block, b),
    )
}

/// `s` is the skip for `block` in `rows`: it resides there and escapes on exactly the
/// bytes that leave it, with the searcher those bytes call for. Every such skip is the one
/// [`Skip::of`] builds, field for field (`skip::lemma_skip_is_determined`).
pub open spec fn skip_for(s: Skip, rows: [[u8; 16]; 256], block: u8) -> bool {
    &&& s.wf()
    &&& s.resident_spec() == block
    &&& forall|b: u8| #[trigger] s.escapes(b) <==> leaves_block(rows, block, b)
}

/// `lane`, one of `conjuncts`, reads with a skip only where skipping was `usable` and
/// `pays` judged the skip cheaper, and with the composition kernel only where skipping
/// was not usable, no exact skip exists, or `pays` judged it dearer.
pub open spec fn planned<F: Fn(&Skip, usize) -> bool>(
    lane: Lane,
    usable: bool,
    conjuncts: usize,
    pays: &F,
) -> bool {
    &&& lane.skip matches Some(k) ==> usable && pays.ensures((&k, conjuncts), true)
    &&& lane.skip is None ==> {
        ||| !usable
        ||| !skippable(lane.quotient.rows, lane.quotient.start)
        ||| exists|k: Skip|
            skip_for(k, lane.quotient.rows, lane.quotient.start) && #[trigger] pays.ensures(
                (&k, conjuncts),
                false,
            )
    }
}

/// One conjunct, together with how it reads a haystack: by the composition kernel, or,
/// where a skip was priced cheaper, by skipping the runs its start block sits still
/// through.
pub struct Lane {
    /// The quotient this conjunct runs.
    pub quotient: Quotient,
    /// Present only where skipping was judged the cheaper way to read this quotient.
    pub skip: Option<Skip>,
}

impl Lane {
    /// The lane reads its quotient soundly: the quotient has the harvest's shape, and a
    /// skip, where there is one, is the skip for the start block.
    pub open spec fn wf(&self) -> bool {
        &&& self.quotient.wf()
        &&& (self.skip matches Some(s) ==> serves(&s, &self.quotient) && s.resident_spec()
            == self.quotient.start)
    }

    /// Choose a kernel for `quotient`, one of `conjuncts`. A skip is taken only when
    /// `usable` (the caller's verdict that skipping may be priced at all), the start block
    /// does not accept, [`Skip::of`] represents the escape set exactly, and `pays` judges
    /// that skip the cheaper read for a sieve of `conjuncts` lanes; every refusal falls
    /// back to the composition kernel, which is always correct.
    pub fn plan<F: Fn(&Skip, usize) -> bool>(
        quotient: Quotient,
        usable: bool,
        conjuncts: usize,
        pays: &F,
    ) -> (r: Lane)
        requires
            quotient.wf(),
            forall|s: &Skip, n: usize| #[trigger] pays.requires((s, n)),
        ensures
            r.wf(),
            r.quotient == quotient,
            planned(r, usable, conjuncts, pays),
            r.skip matches Some(s) ==> {
                &&& usable
                &&& quotient.start < quotient.threshold
                &&& skip_for(s, quotient.rows, quotient.start)
                &&& pays.ensures((&s, conjuncts), true)
            },
            r.skip is None ==> {
                ||| !usable
                ||| quotient.start >= quotient.threshold
                ||| !skippable(quotient.rows, quotient.start)
                ||| exists|s: Skip|
                    skip_for(s, quotient.rows, quotient.start) && #[trigger] pays.ensures(
                        (&s, conjuncts),
                        false,
                    )
            },
    {
        if usable && quotient.start < quotient.threshold {
            match Skip::of(&quotient.rows, quotient.start) {
                Some(s) => {
                    if pays(&s, conjuncts) {
                        return Lane { quotient, skip: Some(s) };
                    }
                },
                None => {},
            }
        }
        Lane { quotient, skip: None }
    }

    /// Does this conjunct prove `haystack` holds no match for its quotient?
    pub fn refutes(&self, haystack: &[u8]) -> (r: bool)
        requires
            self.wf(),
        ensures
            r == self.quotient.refutes_spec(haystack@),
    {
        let q = &self.quotient;
        proof {
            q.lemma_wf_in_register();
            q.lemma_peak_is_start_or_climb(q.start as int, haystack@);
        }
        match &self.skip {
            Some(skip) => shuffle::refutes_skipping(q, skip, haystack),
            None => shuffle::refutes(q, haystack),
        }
    }
}

/// How many of `lanes` skip.
pub open spec fn skip_count(lanes: Seq<Lane>) -> nat
    decreases lanes.len(),
{
    if lanes.len() == 0 {
        0
    } else {
        skip_count(lanes.drop_last()) + (if lanes.last().skip is Some {
            1nat
        } else {
            0nat
        })
    }
}

/// A conjunction of over-approximating quotients, run as one refutation pass.
///
/// Immutable and holding no scan state, so one instance serves every document.
pub struct Sieve {
    lanes: Vec<Lane>,
    projected: Ghost<Projection>,
}

impl Sieve {
    /// The projection the sieve was harvested from: every lane's quotient abstracts it.
    pub closed spec fn projected(&self) -> Projection {
        self.projected@
    }

    /// The lanes, in the order they run.
    pub closed spec fn lanes_spec(&self) -> Seq<Lane> {
        self.lanes@
    }

    /// Every sieve is sound: one or two lanes, each reading a quotient that
    /// over-approximates a well-formed core.
    #[verifier::type_invariant]
    pub closed spec fn sound(&self) -> bool {
        &&& self.projected@.wf()
        &&& 1 <= self.lanes@.len() <= MAX_CONJUNCTS
        &&& forall|i: int|
            0 <= i < self.lanes@.len() ==> #[trigger] self.lanes@[i].wf()
                && self.lanes@[i].quotient.abstracts(&self.projected@)
    }

    /// Some lane's quotient refutes `hay`.
    pub open spec fn refutes_spec(&self, hay: Seq<u8>) -> bool {
        exists|i: int|
            0 <= i < self.lanes_spec().len() && #[trigger] self.lanes_spec()[i].quotient.refutes_spec(
                hay,
            )
    }

    /// The quotients the lanes run, in order.
    pub open spec fn quotients(&self) -> Seq<Quotient> {
        self.lanes_spec().map_values(|l: Lane| l.quotient)
    }

    /// Everything of a build except the economics: project `filter`, harvest its
    /// lattice, and plan a kernel for each conjunct (see [`Lane::plan`]).
    ///
    /// `Shape`, with the refusal [`Projection::of`] gives, when the projection declines;
    /// `NoQuotient` when the harvest comes back empty. On success the sieve's core is the projection of `filter` (faithful, with
    /// exact classes and the walk's numbering, so the one [`Projection::of`] makes) and
    /// its lanes run, in order, the conjunction the harvest chose from that core.
    pub fn assemble<D: Dfa, F: Fn(&Skip, usize) -> bool>(filter: &D, usable: bool, pays: &F) -> (r:
        Result<Sieve, Refusal>)
        requires
            vstd::laws_eq::obeys_concrete_eq::<D::State>(),
            forall|s: &Skip, n: usize| #[trigger] pays.requires((s, n)),
        ensures
            r matches Ok(s) ==> {
                &&& s.sound()
                &&& s.projected().faithful(filter)
                &&& s.projected().walk_numbered()
                &&& s.projected().classes_exact()
                &&& harvested(&s.projected(), s.quotients())
                &&& forall|i: int|
                    0 <= i < s.lanes_spec().len() ==> #[trigger] planned(
                        s.lanes_spec()[i],
                        usable,
                        s.lanes_spec().len() as usize,
                        pays,
                    )
            },
            r matches Err(Refusal::Shape(d)) ==> declined(filter, d) && refusal(filter) == Some(d),
            !(r matches Err(Refusal::Shape(_))) ==> refusal(filter) is None && forall|d: Decline|
                !#[trigger] declined(filter, d),
            r matches Err(Refusal::NoQuotient) ==> exists|p: Projection|
                p.wf() && #[trigger] p.faithful(filter) && p.walk_numbered() && p.classes_exact()
                    && candidates(&p).len() == 0,
    {
        let core = match Projection::of(filter) {
            Ok(p) => p,
            Err(d) => {
                return Err(Refusal::Shape(d));
            },
        };
        let mut quotients = harvest(&core);
        if quotients.len() == 0 {
            return Err(Refusal::NoQuotient);
        }
        let conjuncts = quotients.len();
        let ghost all = quotients@;
        assert(all.len() >= 1);
        assert(forall|i: int| 0 <= i < all.len() ==> #[trigger] all[i].wf() && all[i].abstracts(&core));
        let mut lanes: Vec<Lane> = Vec::new();
        while quotients.len() > 0
            invariant
                core.wf(),
                forall|s: &Skip, n: usize| #[trigger] pays.requires((s, n)),
                conjuncts == all.len(),
                lanes@.len() + quotients@.len() == all.len(),
                all.len() <= MAX_CONJUNCTS,
                quotients@ == all.subrange(lanes@.len() as int, all.len() as int),
                forall|i: int|
                    0 <= i < all.len() ==> #[trigger] all[i].wf() && all[i].abstracts(&core),
                harvested(&core, all),
                forall|i: int|
                    0 <= i < lanes@.len() ==> #[trigger] lanes@[i].wf() && lanes@[i].quotient == all[i]
                        && planned(lanes@[i], usable, conjuncts, pays),
            decreases quotients@.len(),
        {
            let q = quotients.remove(0);
            proof {
                assert(q == all[lanes@.len() as int]);
            }
            let lane = Lane::plan(q, usable, conjuncts, pays);
            lanes.push(lane);
            proof {
                assert(quotients@ =~= all.subrange(lanes@.len() as int, all.len() as int));
            }
        }
        proof {
            assert(lanes@.len() == all.len());
            assert(all.len() >= 1);
            assert forall|i: int| 0 <= i < lanes@.len() implies #[trigger] lanes@[i].wf()
                && lanes@[i].quotient.abstracts(&core) by {
                assert(all[i].wf() && all[i].abstracts(&core));
            }
        }
        let sieve = Sieve { lanes, projected: Ghost(core) };
        proof {
            assert(sieve.lanes@ == lanes@);
            assert forall|i: int| 0 <= i < all.len() implies #[trigger] sieve.quotients()[i] == all[i] by {
                assert(sieve.lanes@[i].wf());
            }
            assert(sieve.quotients() =~= all);
        }
        proof {
            assert forall|i: int| 0 <= i < sieve.lanes_spec().len() implies #[trigger] planned(
                sieve.lanes_spec()[i],
                usable,
                sieve.lanes_spec().len() as usize,
                pays,
            ) by {
                assert(sieve.lanes@[i].wf());
            }
        }
        Ok(sieve)
    }

    /// Does this sieve **prove** `haystack` holds no match?
    ///
    /// `true` is conclusive: the core the sieve was harvested from accepts nowhere along
    /// the document. `false` is not evidence of a match — it only means this filter could
    /// not rule one out.
    pub fn refutes(&self, haystack: &[u8]) -> (r: bool)
        ensures
            r == self.refutes_spec(haystack@),
            r ==> !self.projected().accepts_along(0, haystack@),
    {
        proof {
            use_type_invariant(self);
        }
        let mut i: usize = 0;
        while i < self.lanes.len()
            invariant
                self.sound(),
                i <= self.lanes@.len(),
                forall|j: int| 0 <= j < i ==> !#[trigger] self.lanes@[j].quotient.refutes_spec(
                    haystack@,
                ),
            decreases self.lanes@.len() - i,
        {
            proof {
                assert(self.lanes@[i as int].wf());
            }
            if self.lanes[i].refutes(haystack) {
                proof {
                    self.lanes@[i as int].quotient.lemma_refutation_is_sound(&self.projected@, haystack@);
                }
                return true;
            }
            i += 1;
        }
        false
    }

    /// The scalar reference path, semantically identical to [`Sieve::refutes`].
    pub fn refutes_scalar(&self, haystack: &[u8]) -> (r: bool)
        ensures
            r == self.refutes_spec(haystack@),
    {
        proof {
            use_type_invariant(self);
        }
        let mut i: usize = 0;
        while i < self.lanes.len()
            invariant
                self.sound(),
                i <= self.lanes@.len(),
                forall|j: int| 0 <= j < i ==> !#[trigger] self.lanes@[j].quotient.refutes_spec(
                    haystack@,
                ),
            decreases self.lanes@.len() - i,
        {
            let q = &self.lanes[i].quotient;
            proof {
                assert(self.lanes@[i as int].wf());
                q.lemma_wf_in_register();
                if haystack@.len() == 0 {
                    q.lemma_nothing_read_refutes(haystack@);
                }
            }
            if shuffle::scalar(q, haystack) {
                return true;
            }
            i += 1;
        }
        false
    }

    /// The lanes, in the order they run.
    pub fn lanes(&self) -> (r: &[Lane])
        ensures
            r@ == self.lanes_spec(),
    {
        self.lanes.as_slice()
    }

    /// How many quotients are conjoined.
    pub fn conjuncts(&self) -> (r: usize)
        ensures
            r == self.lanes_spec().len(),
            1 <= r <= MAX_CONJUNCTS,
    {
        proof {
            use_type_invariant(self);
        }
        self.lanes.len()
    }

    /// How many conjuncts read their haystack with a skip loop rather than the
    /// composition kernel.
    pub fn skipping(&self) -> (r: usize)
        ensures
            r == skip_count(self.lanes_spec()),
    {
        let mut n: usize = 0;
        let mut i: usize = 0;
        while i < self.lanes.len()
            invariant
                i <= self.lanes@.len(),
                n == skip_count(self.lanes@.subrange(0, i as int)),
                n <= i,
            decreases self.lanes@.len() - i,
        {
            proof {
                assert(self.lanes@.subrange(0, i + 1).drop_last() =~= self.lanes@.subrange(
                    0,
                    i as int,
                ));
            }
            if self.lanes[i].skip.is_some() {
                n += 1;
            }
            i += 1;
        }
        proof {
            assert(self.lanes@.subrange(0, self.lanes@.len() as int) =~= self.lanes@);
        }
        n
    }
}

/// The law a sieve exists for: a sieve built from `dfa` that refutes a document proves
/// the document holds no match for `dfa`.
pub proof fn lemma_refutation_proves_no_match<D: Dfa>(sieve: Sieve, dfa: &D, hay: Seq<u8>)
    requires
        sieve.sound(),
        sieve.projected().faithful(dfa),
        sieve.refutes_spec(hay),
    ensures
        !has_match(dfa, hay),
{
    let i = choose|i: int|
        0 <= i < sieve.lanes_spec().len() && #[trigger] sieve.lanes_spec()[i].quotient.refutes_spec(
            hay,
        );
    assert(sieve.lanes_spec()[i].wf());
    sieve.lanes_spec()[i].quotient.lemma_refutation_is_sound(&sieve.projected(), hay);
    sieve.projected().lemma_faithful_matches(dfa, hay);
}

} // verus!
