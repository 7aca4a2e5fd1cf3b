//! What a measurement sample has to be before a timing taken over it means anything,
//! and which regime that timing runs in.

use vstd::prelude::*;

use crate::dfa::Dfa;
use crate::lattice::{harvest, harvested, Quotient};
use crate::projection::refusal;
use crate::{skip_for, skippable};
use crate::price::calibration::{Residency, RESIDENT_ABOVE};
use crate::projection::Projection;
use crate::shuffle::serves;
use crate::skip::Skip;

verus! {

/// The smallest sample a timing is taken over: below it the clock's resolution is a
/// visible fraction of the traversal.
pub const MEASURABLE_ABOVE: usize = 64 << 10;

/// How many traversals each coefficient is the minimum over, unless the caller says
/// otherwise.
pub const ROUNDS: usize = 7;

/// Why no row could be taken. Every variant is a case where returning a calibration
/// anyway would have been fiction.
#[derive(Debug, Clone, Copy, PartialEq, Eq, Structural)]
pub enum Unmeasurable {
    /// The sample is too small for the clock. Hand [`MEASURABLE_ABOVE`] bytes or more.
    TooFewBytes {
        /// What the sample held.
        bytes: usize,
        /// [`MEASURABLE_ABOVE`].
        floor: usize,
    },
    /// The sample contains the byte sequence the reference patterns are built *not* to
    /// find, so every timing would be of an early exit rather than a full traversal.
    ProbeMatched,
    /// The clock reported that a full traversal took no time at all.
    NoElapsedTime,
}

/// `needle` occurs in `hay` starting at `at`.
pub open spec fn occurs_at(hay: Seq<u8>, needle: Seq<u8>, at: int) -> bool {
    &&& 0 <= at
    &&& at + needle.len() <= hay.len()
    &&& hay.subrange(at, at + needle.len()) == needle
}

/// `memchr::memmem::find` returns the index of the first occurrence of `needle` in
/// `haystack`, or `None` when it occurs nowhere.
pub assume_specification[ memchr::memmem::find ](haystack: &[u8], needle: &[u8]) -> (r: Option<
    usize,
>)
    ensures
        r matches Some(i) ==> occurs_at(haystack@, needle@, i as int) && forall|j: int|
            0 <= j < i ==> !occurs_at(haystack@, needle@, j),
        r is None ==> forall|j: int| !occurs_at(haystack@, needle@, j),
;

/// The bytes every reference pattern requires and ordinary text never holds:
/// `\x00\x01zz`.
pub open spec fn sentinel() -> Seq<u8> {
    seq![0x00u8, 0x01u8, 0x7au8, 0x7au8]
}

/// The probe a sample is vetted for is the four bytes `00 01 7a 7a` (`\x00\x01zz`), and
/// nothing shorter: it occurs at `at` exactly when those four bytes stand there in that
/// order. A sample holding `00 01` alone is not refused.
pub proof fn lemma_probe_is_four_bytes(hay: Seq<u8>, at: int)
    ensures
        occurs_at(hay, sentinel(), at) <==> (0 <= at && at + 4 <= hay.len() && hay[at] == 0x00
            && hay[at + 1] == 0x01 && hay[at + 2] == 0x7a && hay[at + 3] == 0x7a),
{
    if 0 <= at && at + 4 <= hay.len() {
        let w = hay.subrange(at, at + 4);
        assert(w[0] == hay[at] && w[1] == hay[at + 1] && w[2] == hay[at + 2] && w[3] == hay[at + 3]);
        if hay[at] == 0x00 && hay[at + 1] == 0x01 && hay[at + 2] == 0x7a && hay[at + 3] == 0x7a {
            assert(w =~= sentinel());
        }
    }
}

/// How many bytes the documents hold between them.
pub open spec fn total_len(docs: Seq<&[u8]>) -> nat
    decreases docs.len(),
{
    if docs.len() == 0 {
        0
    } else {
        total_len(docs.drop_last()) + docs.last()@.len()
    }
}

/// A measurement in progress: the caller's documents, and how many chances each timing
/// loop gets.
#[derive(Debug, Clone, Copy)]
pub struct Bench<'a> {
    docs: &'a [&'a [u8]],
    rounds: usize,
}

impl<'a> Bench<'a> {
    /// The documents the sample holds.
    pub closed spec fn docs_spec(&self) -> Seq<&'a [u8]> {
        self.docs@
    }

    /// How many traversals each coefficient is the minimum over.
    pub closed spec fn rounds_spec(&self) -> usize {
        self.rounds
    }

    /// Price this machine over `docs`, a sample of the documents the caller is really
    /// going to search, with [`ROUNDS`] traversals per coefficient.
    pub fn new(docs: &'a [&'a [u8]]) -> (r: Bench<'a>)
        ensures
            r.docs_spec() == docs@,
            r.rounds_spec() == ROUNDS,
    {
        Bench { docs, rounds: ROUNDS }
    }

    /// How many traversals each coefficient is the minimum over. Zero is read as one.
    pub fn rounds(self, rounds: usize) -> (r: Bench<'a>)
        ensures
            r.docs_spec() == self.docs_spec(),
            r.rounds_spec() == (if rounds == 0 {
                1
            } else {
                rounds
            }),
    {
        Bench { docs: self.docs, rounds: if rounds == 0 { 1 } else { rounds } }
    }

    /// The documents, for the timing loops.
    pub fn docs(&self) -> (r: &'a [&'a [u8]])
        ensures
            r@ == self.docs_spec(),
    {
        self.docs
    }

    /// How many traversals each coefficient is the minimum over, for the timing loops.
    pub fn round_count(&self) -> (r: usize)
        ensures
            r == self.rounds_spec(),
    {
        self.rounds
    }

    /// Total bytes in the sample.
    pub fn bytes(&self) -> (r: usize)
        requires
            total_len(self.docs_spec()) <= usize::MAX,
        ensures
            r == total_len(self.docs_spec()),
    {
        let mut total: usize = 0;
        let mut i: usize = 0;
        while i < self.docs.len()
            invariant
                i <= self.docs@.len(),
                total_len(self.docs@) <= usize::MAX,
                total == total_len(self.docs@.subrange(0, i as int)),
            decreases self.docs@.len() - i,
        {
            proof {
                assert(self.docs@.subrange(0, i + 1).drop_last() =~= self.docs@.subrange(
                    0,
                    i as int,
                ));
                lemma_total_prefix(self.docs@, i + 1);
            }
            total = total + self.docs[i].len();
            i += 1;
        }
        proof {
            assert(self.docs@.subrange(0, self.docs@.len() as int) =~= self.docs@);
        }
        total
    }

    /// Which regime a traversal of this sample runs in, and therefore which column a
    /// measurement over it can honestly fill. Inferred rather than accepted: it is a fact
    /// about the timing loop that is about to run, whose corpus is in hand.
    pub fn regime(&self) -> (r: Residency)
        requires
            total_len(self.docs_spec()) <= usize::MAX,
        ensures
            r == (if total_len(self.docs_spec()) > RESIDENT_ABOVE {
                Residency::Memory
            } else {
                Residency::Cache
            }),
    {
        Residency::of_working_set(self.bytes())
    }

    /// Whether a timing over this sample can mean anything: `TooFewBytes` below
    /// [`MEASURABLE_ABOVE`], `ProbeMatched` when some document holds the sentinel the
    /// reference patterns are built not to find.
    pub fn vet(&self) -> (r: Result<(), Unmeasurable>)
        requires
            total_len(self.docs_spec()) <= usize::MAX,
        ensures
            total_len(self.docs_spec()) < MEASURABLE_ABOVE ==> r == Err::<(), Unmeasurable>(
                Unmeasurable::TooFewBytes {
                    bytes: total_len(self.docs_spec()) as usize,
                    floor: MEASURABLE_ABOVE,
                },
            ),
            total_len(self.docs_spec()) >= MEASURABLE_ABOVE ==> (r == Err::<(), Unmeasurable>(
                Unmeasurable::ProbeMatched,
            ) <==> exists|d: int, at: int|
                0 <= d < self.docs_spec().len() && #[trigger] occurs_at(
                    self.docs_spec()[d]@,
                    sentinel(),
                    at,
                )),
            total_len(self.docs_spec()) >= MEASURABLE_ABOVE ==> (r is Ok || r == Err::<
                (),
                Unmeasurable,
            >(Unmeasurable::ProbeMatched)),
    {
        let bytes = self.bytes();
        if bytes < MEASURABLE_ABOVE {
            return Err(Unmeasurable::TooFewBytes { bytes, floor: MEASURABLE_ABOVE });
        }
        let needle: [u8; 4] = [0x00, 0x01, 0x7a, 0x7a];
        proof {
            assert(needle@ =~= sentinel());
        }
        let mut i: usize = 0;
        while i < self.docs.len()
            invariant
                i <= self.docs@.len(),
                needle@ == sentinel(),
                total_len(self.docs@) >= MEASURABLE_ABOVE,
                forall|d: int, at: int|
                    0 <= d < i ==> !#[trigger] occurs_at(self.docs@[d]@, sentinel(), at),
            decreases self.docs@.len() - i,
        {
            let found = memchr::memmem::find(self.docs[i], &needle);
            if let Some(at) = found {
                assert(occurs_at(self.docs@[i as int]@, sentinel(), at as int));
                return Err(Unmeasurable::ProbeMatched);
            }
            i += 1;
        }
        Ok(())
    }
}

/// `qs` is what the harvest chose from `p`, and `p` is the projection of `dfa`.
pub open spec fn harvested_from<D: Dfa>(dfa: &D, p: Projection, qs: Seq<Quotient>) -> bool {
    &&& p.wf()
    &&& p.faithful(dfa)
    &&& p.walk_numbered()
    &&& p.classes_exact()
    &&& harvested(&p, qs)
}

/// The first harvested quotient of `dfa` and the skip over its start block, or `None`
/// when the automaton yields neither: what a skip instrument is timed on.
///
/// `None` exactly when the projection declines (see [`refusal`]), the harvest of the
/// projection comes back empty, or the first quotient's start block escapes on a set no
/// skip represents.
pub fn harvest_skip<D: Dfa>(dfa: &D) -> (r: Option<(Quotient, Skip)>)
    requires
        vstd::laws_eq::obeys_concrete_eq::<D::State>(),
    ensures
        r matches Some((q, s)) ==> {
            &&& q.wf()
            &&& serves(&s, &q)
            &&& skip_for(s, q.rows, q.start)
            &&& exists|p: Projection, qs: Seq<Quotient>|
                #[trigger] harvested_from(dfa, p, qs) && qs.len() >= 1 && qs[0] == q
        },
        r is None ==> {
            ||| refusal(dfa) is Some
            ||| exists|p: Projection, qs: Seq<Quotient>|
                #[trigger] harvested_from(dfa, p, qs) && (qs.len() == 0 || !skippable(
                    qs[0].rows,
                    qs[0].start,
                ))
        },
{
    let core = match Projection::of(dfa) {
        Ok(p) => p,
        Err(_) => {
            return None;
        },
    };
    let mut quotients = harvest(&core);
    let ghost qs = quotients@;
    proof {
        assert(qs.len() > 0 ==> qs[0].wf() && qs[0].abstracts(&core));
        assert(harvested_from(dfa, core, qs));
    }
    if quotients.len() == 0 {
        return None;
    }
    let quotient = quotients.remove(0);
    assert(quotient == qs[0]);
    let probe = match Skip::of(&quotient.rows, quotient.start) {
        Some(s) => s,
        None => {
            return None;
        },
    };
    proof {
        assert forall|b: u8| #[trigger] probe.escapes(b) <==> crate::skip::leaves_block(
            quotient.rows,
            quotient.start,
            b,
        ) by {}
    }
    if quotient.start < quotient.threshold {
        Some((quotient, probe))
    } else {
        None
    }
}

/// The running total grows by each document in turn and never shrinks.
proof fn lemma_total_prefix(docs: Seq<&[u8]>, n: int)
    requires
        0 <= n <= docs.len(),
    ensures
        total_len(docs.subrange(0, n)) <= total_len(docs),
    decreases docs.len() - n,
{
    if n < docs.len() {
        lemma_total_prefix(docs, n + 1);
        assert(docs.subrange(0, n + 1).drop_last() =~= docs.subrange(0, n));
    } else {
        assert(docs.subrange(0, n) =~= docs);
    }
}

} // verus!
