//! The one transform applied to a pattern before reading its automaton: drop the
//! *upper* bound on every repetition, and pull a lower bound down to one.
//!
//! A bounded repeat costs a DFA state per count, so `AKIA[0-9A-Z]{16}` is sixteen counter
//! states and the whole population of credential and fixed-width patterns would be
//! refused on core width before a single coefficient was read. Relaxing `{16}` to `+`
//! collapses those states to one.
//!
//! It is sound because `L(x{n,m}) ⊆ L(x{min(n,1),})` and every combinator of a parsed
//! pattern is monotone in the languages of its sub-expressions, so the relaxed pattern's
//! language contains the strict one's: a refutation by the relaxed automaton is a
//! refutation for the strict pattern.
//!
//! The transform reads only a pattern's shape: repetitions with their bounds, captures,
//! concatenations and alternations. Every sub-expression with no sub-expressions (the
//! empty string, a literal, a class, a look-around) is a [`Shape::Leaf`] naming its place
//! in the caller's own table, and passes through untouched.

use vstd::prelude::*;

verus! {

/// The shape of a parsed pattern, as far as relaxation reads it.
#[derive(Debug)]
pub enum Shape {
    /// A sub-expression with no sub-expressions, by its index in the caller's table of
    /// leaves.
    Leaf(usize),
    /// `sub{min,max}`; `max` is `None` when there is no upper bound.
    Repetition { min: u32, max: Option<u32>, greedy: bool, sub: Box<Shape> },
    /// A capturing group.
    Capture { index: u32, name: Option<String>, sub: Box<Shape> },
    /// The sub-expressions one after another.
    Concat(Vec<Shape>),
    /// Any one of the sub-expressions.
    Alternation(Vec<Shape>),
}

/// Some repetition in `s` carries a bound relaxation would move: a lower bound above one,
/// or any upper bound at all.
pub open spec fn bounded_spec(s: Shape) -> bool
    decreases s,
{
    match s {
        Shape::Leaf(_) => false,
        Shape::Repetition { min, max, greedy: _, sub } => min > 1 || max is Some || bounded_spec(
            *sub,
        ),
        Shape::Capture { index: _, name: _, sub } => bounded_spec(*sub),
        Shape::Concat(subs) => any_bounded(subs@),
        Shape::Alternation(subs) => any_bounded(subs@),
    }
}

/// Some shape of `subs` is bounded.
pub open spec fn any_bounded(subs: Seq<Shape>) -> bool
    decreases subs,
{
    if subs.len() == 0 {
        false
    } else {
        any_bounded(subs.drop_last()) || bounded_spec(subs.last())
    }
}

/// `b` is `a` with every repetition unbounded above and bounded by at most one below,
/// and everything else as it was.
pub open spec fn relaxes(a: Shape, b: Shape) -> bool
    decreases a,
{
    match a {
        Shape::Leaf(x) => b matches Shape::Leaf(y) && y == x,
        Shape::Repetition { min, max: _, greedy, sub } => b matches Shape::Repetition {
            min: m,
            max: x,
            greedy: g,
            sub: t,
        } && m == (if min < 1 {
            min
        } else {
            1
        }) && x is None && g == greedy && relaxes(*sub, *t),
        Shape::Capture { index, name, sub } => b matches Shape::Capture { index: i, name: n, sub: t }
            && i == index && n == name && relaxes(*sub, *t),
        Shape::Concat(subs) => b matches Shape::Concat(w) && relaxes_all(subs@, w@),
        Shape::Alternation(subs) => b matches Shape::Alternation(w) && relaxes_all(subs@, w@),
    }
}

/// `b` relaxes `a` position by position.
pub open spec fn relaxes_all(a: Seq<Shape>, b: Seq<Shape>) -> bool
    decreases a,
{
    &&& a.len() == b.len()
    &&& a.len() > 0 ==> relaxes_all(a.drop_last(), b.drop_last()) && relaxes(a.last(), b.last())
}

/// `a` and `b` are the same tree.
pub open spec fn same_shape(a: Shape, b: Shape) -> bool
    decreases a,
{
    match a {
        Shape::Leaf(x) => b matches Shape::Leaf(y) && y == x,
        Shape::Repetition { min, max, greedy, sub } => b matches Shape::Repetition {
            min: m,
            max: x,
            greedy: g,
            sub: t,
        } && m == min && x == max && g == greedy && same_shape(*sub, *t),
        Shape::Capture { index, name, sub } => b matches Shape::Capture { index: i, name: n, sub: t }
            && i == index && n == name && same_shape(*sub, *t),
        Shape::Concat(subs) => b matches Shape::Concat(w) && same_all(subs@, w@),
        Shape::Alternation(subs) => b matches Shape::Alternation(w) && same_all(subs@, w@),
    }
}

/// `a` and `b` are the same trees, position by position.
pub open spec fn same_all(a: Seq<Shape>, b: Seq<Shape>) -> bool
    decreases a,
{
    &&& a.len() == b.len()
    &&& a.len() > 0 ==> same_all(a.drop_last(), b.drop_last()) && same_shape(a.last(), b.last())
}

/// How a shape covers a stretch of a document: for a repetition or a concatenation, the
/// pieces one after another (`kids`) and the position where each of them starts (`cuts`);
/// for a capture or an alternation, the parse of the one sub-expression that matched.
pub struct Parse {
    pub cuts: Seq<int>,
    pub kids: Seq<Parse>,
}

/// `p` shows that `s` matches the stretch `hay[i..j]` of a document, each leaf matching
/// where `leaf` says it does. A leaf is judged by its position in the whole document, so a
/// look-around that reads the bytes around its stretch is a leaf like any other.
pub open spec fn derives(
    s: Shape,
    p: Parse,
    leaf: spec_fn(usize, Seq<u8>, int, int) -> bool,
    hay: Seq<u8>,
    i: int,
    j: int,
) -> bool
    decreases s, 0int,
{
    match s {
        Shape::Leaf(x) => leaf(x, hay, i, j),
        Shape::Repetition { min, max, greedy: _, sub } => {
            &&& min <= p.kids.len()
            &&& max matches Some(m) ==> p.kids.len() <= m
            &&& repeats(*sub, p.kids, p.cuts, leaf, hay, i, j)
        },
        Shape::Capture { index: _, name: _, sub } => derives(*sub, p, leaf, hay, i, j),
        Shape::Concat(subs) => derives_concat(subs@, p.kids, p.cuts, leaf, hay, i, j),
        Shape::Alternation(subs) => derives_any(subs@, p, leaf, hay, i, j),
    }
}

/// The pieces `kids`, each a match of `s` starting at its cut, cover `hay[i..j]` one after
/// another.
pub open spec fn repeats(
    s: Shape,
    kids: Seq<Parse>,
    cuts: Seq<int>,
    leaf: spec_fn(usize, Seq<u8>, int, int) -> bool,
    hay: Seq<u8>,
    i: int,
    j: int,
) -> bool
    decreases s, kids.len(),
{
    if kids.len() == 0 {
        cuts.len() == 0 && i == j
    } else {
        &&& cuts.len() == kids.len()
        &&& i <= cuts.last() <= j
        &&& repeats(s, kids.drop_last(), cuts.drop_last(), leaf, hay, i, cuts.last())
        &&& derives(s, kids.last(), leaf, hay, cuts.last(), j)
    }
}

/// The pieces `kids`, the `k`-th a match of `subs[k]` starting at its cut, cover
/// `hay[i..j]` one after another.
pub open spec fn derives_concat(
    subs: Seq<Shape>,
    kids: Seq<Parse>,
    cuts: Seq<int>,
    leaf: spec_fn(usize, Seq<u8>, int, int) -> bool,
    hay: Seq<u8>,
    i: int,
    j: int,
) -> bool
    decreases subs, 0int,
{
    &&& kids.len() == subs.len()
    &&& cuts.len() == subs.len()
    &&& if subs.len() == 0 {
        i == j
    } else {
        &&& i <= cuts.last() <= j
        &&& derives_concat(subs.drop_last(), kids.drop_last(), cuts.drop_last(), leaf, hay, i, cuts.last())
        &&& derives(subs.last(), kids.last(), leaf, hay, cuts.last(), j)
    }
}

/// `p` shows that some shape of `subs` matches `hay[i..j]`.
pub open spec fn derives_any(
    subs: Seq<Shape>,
    p: Parse,
    leaf: spec_fn(usize, Seq<u8>, int, int) -> bool,
    hay: Seq<u8>,
    i: int,
    j: int,
) -> bool
    decreases subs, 0int,
{
    if subs.len() == 0 {
        false
    } else {
        derives_any(subs.drop_last(), p, leaf, hay, i, j) || derives(subs.last(), p, leaf, hay, i, j)
    }
}

/// `s` matches the stretch `hay[i..j]` of a document, each leaf matching where `leaf`
/// says it does.
pub open spec fn spans(
    s: Shape,
    leaf: spec_fn(usize, Seq<u8>, int, int) -> bool,
    hay: Seq<u8>,
    i: int,
    j: int,
) -> bool {
    exists|p: Parse| #[trigger] derives(s, p, leaf, hay, i, j)
}

/// Does this shape contain a repetition whose bounds [`relax`] would move?
///
/// Checked before relaxing so the common pattern, with no counted repeat at all, costs
/// one walk of the tree instead of a rebuild whose answer is the automaton already held.
pub fn bounded(s: &Shape) -> (r: bool)
    ensures
        r == bounded_spec(*s),
    decreases s,
{
    match s {
        Shape::Leaf(_) => false,
        Shape::Repetition { min, max, greedy: _, sub } => *min > 1 || max.is_some() || bounded(
            sub,
        ),
        Shape::Capture { index: _, name: _, sub } => bounded(sub),
        Shape::Concat(subs) => bounded_all(subs),
        Shape::Alternation(subs) => bounded_all(subs),
    }
}

/// Is any of `subs` bounded?
fn bounded_all(subs: &Vec<Shape>) -> (r: bool)
    ensures
        r == any_bounded(subs@),
    decreases subs,
{
    let mut found = false;
    let mut i: usize = 0;
    while i < subs.len()
        invariant
            i <= subs@.len(),
            found == any_bounded(subs@.subrange(0, i as int)),
        decreases subs@.len() - i,
    {
        proof {
            assert(subs@.subrange(0, i + 1).drop_last() =~= subs@.subrange(0, i as int));
            assert(subs@.subrange(0, i + 1).last() == subs@[i as int]);
        }
        let here = bounded(&subs[i]);
        found = found || here;
        i += 1;
    }
    proof {
        assert(subs@.subrange(0, subs@.len() as int) =~= subs@);
    }
    found
}

/// Rebuild `s` with every repetition unbounded above and bounded by at most one below.
///
/// `min(1)` rather than `0`: a repetition that must occur at least once still says so,
/// which keeps a `+` from becoming a `*` and a quotient from having to treat the empty
/// string as a member.
pub fn relax(s: Shape) -> (r: Shape)
    ensures
        relaxes(s, r),
    decreases s,
{
    match s {
        Shape::Leaf(x) => Shape::Leaf(x),
        Shape::Repetition { min, max: _, greedy, sub } => {
            let inner = relax(*sub);
            Shape::Repetition {
                min: if min < 1 {
                    min
                } else {
                    1
                },
                max: None,
                greedy,
                sub: Box::new(inner),
            }
        },
        Shape::Capture { index, name, sub } => {
            let inner = relax(*sub);
            Shape::Capture { index, name, sub: Box::new(inner) }
        },
        Shape::Concat(subs) => Shape::Concat(relax_all(subs)),
        Shape::Alternation(subs) => Shape::Alternation(relax_all(subs)),
    }
}

/// Relax each of `subs`, in order.
fn relax_all(subs: Vec<Shape>) -> (r: Vec<Shape>)
    ensures
        relaxes_all(subs@, r@),
    decreases subs,
{
    let ghost all = subs@;
    let mut rest = subs;
    let mut out: Vec<Shape> = Vec::new();
    while rest.len() > 0
        invariant
            out@.len() + rest@.len() == all.len(),
            rest@ == all.subrange(out@.len() as int, all.len() as int),
            relaxes_all(all.subrange(0, out@.len() as int), out@),
            all == subs@,
        decreases rest@.len(),
    {
        let ghost k = out@.len() as int;
        let first = rest.remove(0);
        proof {
            assert(first == all[k]);
            assert(decreases_to!(subs => subs[k]));
        }
        let relaxed = relax(first);
        let ghost before = out@;
        out.push(relaxed);
        proof {
            assert(all.subrange(0, k + 1).drop_last() =~= all.subrange(0, k));
            assert(out@.drop_last() =~= before);
            assert(rest@ =~= all.subrange(k + 1, all.len() as int));
            assert(all.subrange(0, k + 1).last() == all[k]);
            assert(relaxes_all(all.subrange(0, k + 1), out@));
        }
    }
    proof {
        assert(all.subrange(0, all.len() as int) =~= all);
    }
    out
}

/// Relaxation leaves no bound anywhere, at any nesting depth.
pub proof fn lemma_relaxed_is_unbounded(a: Shape, b: Shape)
    requires
        relaxes(a, b),
    ensures
        !bounded_spec(b),
    decreases a,
{
    match a {
        Shape::Leaf(_) => {},
        Shape::Repetition { min: _, max: _, greedy: _, sub } => {
            let t = b->Repetition_sub;
            lemma_relaxed_is_unbounded(*sub, *t);
        },
        Shape::Capture { index: _, name: _, sub } => {
            let t = b->Capture_sub;
            lemma_relaxed_is_unbounded(*sub, *t);
        },
        Shape::Concat(subs) => {
            lemma_relaxed_all_unbounded(subs@, b->Concat_0@);
        },
        Shape::Alternation(subs) => {
            lemma_relaxed_all_unbounded(subs@, b->Alternation_0@);
        },
    }
}

proof fn lemma_relaxed_all_unbounded(a: Seq<Shape>, b: Seq<Shape>)
    requires
        relaxes_all(a, b),
    ensures
        !any_bounded(b),
    decreases a,
{
    if a.len() > 0 {
        lemma_relaxed_all_unbounded(a.drop_last(), b.drop_last());
        lemma_relaxed_is_unbounded(a.last(), b.last());
    }
}

/// A shape with no bound is its own relaxation: relaxing twice is relaxing once.
pub proof fn lemma_relaxing_is_idempotent(b: Shape, c: Shape)
    requires
        !bounded_spec(b),
        relaxes(b, c),
    ensures
        same_shape(b, c),
    decreases b,
{
    match b {
        Shape::Leaf(_) => {},
        Shape::Repetition { min: _, max: _, greedy: _, sub } => {
            lemma_relaxing_is_idempotent(*sub, *c->Repetition_sub);
        },
        Shape::Capture { index: _, name: _, sub } => {
            lemma_relaxing_is_idempotent(*sub, *c->Capture_sub);
        },
        Shape::Concat(subs) => {
            lemma_relaxing_all_is_idempotent(subs@, c->Concat_0@);
        },
        Shape::Alternation(subs) => {
            lemma_relaxing_all_is_idempotent(subs@, c->Alternation_0@);
        },
    }
}

proof fn lemma_relaxing_all_is_idempotent(b: Seq<Shape>, c: Seq<Shape>)
    requires
        !any_bounded(b),
        relaxes_all(b, c),
    ensures
        same_all(b, c),
    decreases b,
{
    if b.len() > 0 {
        lemma_relaxing_all_is_idempotent(b.drop_last(), c.drop_last());
        lemma_relaxing_is_idempotent(b.last(), c.last());
    }
}

/// Relaxation only widens: wherever a shape matches, its relaxation matches too, so the
/// relaxed pattern's language contains the strict one's and a refutation by the relaxed
/// automaton is a refutation for the strict pattern.
pub proof fn lemma_relaxing_only_widens(
    a: Shape,
    b: Shape,
    leaf: spec_fn(usize, Seq<u8>, int, int) -> bool,
    hay: Seq<u8>,
    i: int,
    j: int,
)
    requires
        relaxes(a, b),
        spans(a, leaf, hay, i, j),
    ensures
        spans(b, leaf, hay, i, j),
{
    let p = choose|p: Parse| #[trigger] derives(a, p, leaf, hay, i, j);
    lemma_parse_widens(a, b, p, leaf, hay, i, j);
}

proof fn lemma_parse_widens(
    a: Shape,
    b: Shape,
    p: Parse,
    leaf: spec_fn(usize, Seq<u8>, int, int) -> bool,
    hay: Seq<u8>,
    i: int,
    j: int,
)
    requires
        relaxes(a, b),
        derives(a, p, leaf, hay, i, j),
    ensures
        derives(b, p, leaf, hay, i, j),
    decreases a, 0int,
{
    match a {
        Shape::Leaf(_) => {},
        Shape::Repetition { min: _, max: _, greedy: _, sub } => {
            lemma_repeats_widen(*sub, *b->Repetition_sub, p.kids, p.cuts, leaf, hay, i, j);
        },
        Shape::Capture { index: _, name: _, sub } => {
            lemma_parse_widens(*sub, *b->Capture_sub, p, leaf, hay, i, j);
        },
        Shape::Concat(subs) => {
            lemma_concat_widens(subs@, b->Concat_0@, p.kids, p.cuts, leaf, hay, i, j);
        },
        Shape::Alternation(subs) => {
            lemma_any_widens(subs@, b->Alternation_0@, p, leaf, hay, i, j);
        },
    }
}

proof fn lemma_repeats_widen(
    a: Shape,
    b: Shape,
    kids: Seq<Parse>,
    cuts: Seq<int>,
    leaf: spec_fn(usize, Seq<u8>, int, int) -> bool,
    hay: Seq<u8>,
    i: int,
    j: int,
)
    requires
        relaxes(a, b),
        repeats(a, kids, cuts, leaf, hay, i, j),
    ensures
        repeats(b, kids, cuts, leaf, hay, i, j),
    decreases a, kids.len(),
{
    if kids.len() > 0 {
        lemma_repeats_widen(a, b, kids.drop_last(), cuts.drop_last(), leaf, hay, i, cuts.last());
        lemma_parse_widens(a, b, kids.last(), leaf, hay, cuts.last(), j);
    }
}

proof fn lemma_concat_widens(
    a: Seq<Shape>,
    b: Seq<Shape>,
    kids: Seq<Parse>,
    cuts: Seq<int>,
    leaf: spec_fn(usize, Seq<u8>, int, int) -> bool,
    hay: Seq<u8>,
    i: int,
    j: int,
)
    requires
        relaxes_all(a, b),
        derives_concat(a, kids, cuts, leaf, hay, i, j),
    ensures
        derives_concat(b, kids, cuts, leaf, hay, i, j),
    decreases a, 0int,
{
    if a.len() > 0 {
        lemma_concat_widens(a.drop_last(), b.drop_last(), kids.drop_last(), cuts.drop_last(), leaf, hay, i, cuts.last());
        lemma_parse_widens(a.last(), b.last(), kids.last(), leaf, hay, cuts.last(), j);
    }
}

proof fn lemma_any_widens(
    a: Seq<Shape>,
    b: Seq<Shape>,
    p: Parse,
    leaf: spec_fn(usize, Seq<u8>, int, int) -> bool,
    hay: Seq<u8>,
    i: int,
    j: int,
)
    requires
        relaxes_all(a, b),
        derives_any(a, p, leaf, hay, i, j),
    ensures
        derives_any(b, p, leaf, hay, i, j),
    decreases a, 0int,
{
    if a.len() > 0 {
        if derives_any(a.drop_last(), p, leaf, hay, i, j) {
            lemma_any_widens(a.drop_last(), b.drop_last(), p, leaf, hay, i, j);
        } else {
            lemma_parse_widens(a.last(), b.last(), p, leaf, hay, i, j);
        }
    }
}

} // verus!
