//! Partitions written the one way the harvest writes them: blocks numbered in order of
//! first appearance. Written so, a partition is determined by which states it puts
//! together, and its block count can be read off the forest that built it.

use vstd::prelude::*;
use vstd::set_lib::{lemma_int_range, lemma_len_subset, lemma_map_size, lemma_map_size_bound, set_int_range};

use super::{lemma_top, top};

verus! {

/// The label the first state of a new block gets after `prefix`: one past the largest
/// so far, or zero for the very first state.
pub open spec fn next_label(prefix: Seq<u8>) -> int {
    if prefix.len() == 0 {
        0
    } else {
        top(prefix) + 1
    }
}

/// `block` numbers its blocks in order of first appearance: each state joins a block
/// already seen or opens the next one.
pub open spec fn canonical(block: Seq<u8>) -> bool {
    forall|i: int| 0 <= i < block.len() ==> #[trigger] block[i] <= next_label(block.take(i))
}

/// `a` and `b` put the same states together.
pub open spec fn same_kernel(a: Seq<u8>, b: Seq<u8>) -> bool {
    &&& a.len() == b.len()
    &&& forall|i: int, j: int|
        0 <= i < a.len() && 0 <= j < a.len() ==> (#[trigger] a[i] == #[trigger] a[j] <==> b[i]
            == b[j])
}

/// Some state of `block` carries label `v`.
pub open spec fn uses(block: Seq<u8>, v: int) -> bool {
    exists|x: int| 0 <= x < block.len() && #[trigger] block[x] == v
}

/// The states below `n` that are their own representative.
pub open spec fn roots(root: Seq<int>, n: int) -> Set<int> {
    Set::new(|x: int| 0 <= x < n && root[x] == x)
}

/// Appending a label moves the largest label only if it is larger.
pub proof fn lemma_top_push(prefix: Seq<u8>, x: u8)
    ensures
        top(prefix.push(x)) == (if top(prefix) >= x {
            top(prefix)
        } else {
            x as int
        }),
{
    assert(prefix.push(x).drop_last() =~= prefix);
}

/// A prefix of a canonical partition is canonical.
pub proof fn lemma_canonical_take(block: Seq<u8>, m: int)
    requires
        canonical(block),
        0 <= m <= block.len(),
    ensures
        canonical(block.take(m)),
{
    let p = block.take(m);
    assert forall|i: int| 0 <= i < p.len() implies #[trigger] p[i] <= next_label(p.take(i)) by {
        assert(p.take(i) =~= block.take(i));
        assert(p[i] == block[i]);
    }
}

/// A canonical partition uses every label below its next one.
pub proof fn lemma_covers(block: Seq<u8>)
    requires
        canonical(block),
    ensures
        block.len() > 0 ==> next_label(block) == top(block) + 1,
        forall|v: int| 0 <= v < next_label(block) ==> #[trigger] uses(block, v),
    decreases block.len(),
{
    if block.len() > 0 {
        let d = block.drop_last();
        let e = block.last();
        assert(d =~= block.take(block.len() - 1));
        lemma_canonical_take(block, block.len() - 1);
        lemma_covers(d);
        assert(block[block.len() - 1] <= next_label(block.take(block.len() - 1)));
        assert(d.push(e) =~= block);
        lemma_top_push(d, e);
        lemma_top(d);
        assert forall|v: int| 0 <= v < next_label(block) implies #[trigger] uses(block, v) by {
            if v < next_label(d) {
                assert(uses(d, v));
                let x = choose|x: int| 0 <= x < d.len() && #[trigger] d[x] == v;
                assert(block[x] == d[x]);
            } else {
                assert(block[block.len() - 1] == e);
            }
        }
    }
}

/// In a canonical partition a state that shares its block with no earlier state opens
/// the next block.
proof fn lemma_fresh_label(a: Seq<u8>, i: int)
    requires
        canonical(a),
        0 <= i < a.len(),
        forall|j: int| 0 <= j < i ==> #[trigger] a[j] != a[i],
    ensures
        a[i] == next_label(a.take(i)),
{
    let p = a.take(i);
    lemma_canonical_take(a, i);
    lemma_covers(p);
    assert(a[i] <= next_label(p));
    if a[i] < next_label(p) {
        assert(uses(p, a[i] as int));
        let x = choose|x: int| 0 <= x < p.len() && #[trigger] p[x] == a[i];
        assert(a[x] == p[x]);
    }
}

/// Two canonical partitions that put the same states together agree on a prefix of
/// any length.
proof fn lemma_same_prefix(a: Seq<u8>, b: Seq<u8>, m: int)
    requires
        canonical(a),
        canonical(b),
        same_kernel(a, b),
        0 <= m <= a.len(),
    ensures
        a.take(m) == b.take(m),
    decreases m,
{
    if m > 0 {
        let i = m - 1;
        lemma_same_prefix(a, b, i);
        assert(a.take(i) =~= b.take(i));
        assert(a[i] == b[i]) by {
            if exists|j: int| 0 <= j < i && #[trigger] a[j] == a[i] {
                let j = choose|j: int| 0 <= j < i && #[trigger] a[j] == a[i];
                assert(a.take(i)[j] == a[j] && b.take(i)[j] == b[j]);
                assert(b[j] == b[i]);
            } else {
                assert forall|j: int| 0 <= j < i implies #[trigger] b[j] != b[i] by {
                    if b[j] == b[i] {
                        assert(a[j] == a[i]);
                    }
                }
                lemma_fresh_label(a, i);
                lemma_fresh_label(b, i);
            }
        }
        assert forall|t: int| 0 <= t < m implies a.take(m)[t] == b.take(m)[t] by {
            if t < i {
                assert(a.take(i)[t] == a[t] && b.take(i)[t] == b[t]);
            }
        }
        assert(a.take(m) =~= b.take(m));
    }
}

/// A partition is determined by which states it puts together, once written canonically.
pub proof fn lemma_canonical_unique(a: Seq<u8>, b: Seq<u8>)
    requires
        canonical(a),
        canonical(b),
        same_kernel(a, b),
    ensures
        a == b,
{
    lemma_same_prefix(a, b, a.len() as int);
    assert(a.take(a.len() as int) =~= a);
    assert(b.take(b.len() as int) =~= b);
}

/// The representatives below `n` form a finite set of at most `n` states.
pub proof fn lemma_roots_finite(root: Seq<int>, n: int)
    requires
        0 <= n,
    ensures
        roots(root, n).finite(),
        roots(root, n).len() <= n,
{
    lemma_int_range(0, n);
    lemma_len_subset(roots(root, n), set_int_range(0, n));
}

/// Before any merge every state is its own representative.
pub proof fn lemma_roots_identity(root: Seq<int>, n: int)
    requires
        0 <= n,
        root.len() == n,
        forall|x: int| 0 <= x < n ==> #[trigger] root[x] == x,
    ensures
        roots(root, n).finite(),
        roots(root, n).len() == n,
{
    lemma_int_range(0, n);
    assert(roots(root, n) =~= set_int_range(0, n));
}

/// Merging the set of `ra` into the set of `rb` leaves one representative fewer.
pub proof fn lemma_roots_merge(root0: Seq<int>, root1: Seq<int>, n: int, ra: int, rb: int)
    requires
        0 <= n,
        0 <= ra < n,
        0 <= rb < n,
        ra != rb,
        root0[ra] == ra,
        root0[rb] == rb,
        forall|x: int|
            0 <= x < n ==> #[trigger] root1[x] == (if root0[x] == ra {
                rb
            } else {
                root0[x]
            }),
    ensures
        roots(root1, n).finite(),
        roots(root1, n).len() + 1 == roots(root0, n).len(),
{
    lemma_roots_finite(root0, n);
    assert(roots(root1, n) =~= roots(root0, n).remove(ra));
}

/// A partition every merge of the forest respects has no more blocks than the forest
/// has representatives.
pub proof fn lemma_roots_bound(root: Seq<int>, n: int, c: Seq<u8>)
    requires
        0 < n,
        c.len() == n,
        canonical(c),
        forall|x: int| 0 <= x < n ==> 0 <= #[trigger] root[x] < n,
        forall|x: int| 0 <= x < n ==> root[#[trigger] root[x]] == root[x],
        forall|i: int, j: int|
            0 <= i < n && 0 <= j < n && root[i] == root[j] ==> #[trigger] c[i] == #[trigger] c[j],
    ensures
        roots(root, n).len() >= top(c) + 1,
{
    let r = roots(root, n);
    let f = |x: int| c[x] as int;
    let labels = set_int_range(0, top(c) + 1);
    lemma_roots_finite(root, n);
    lemma_covers(c);
    lemma_top(c);
    assert forall|v: int| #[trigger] labels.contains(v) implies r.map(f).contains(v) by {
        assert(uses(c, v));
        let x = choose|x: int| 0 <= x < c.len() && #[trigger] c[x] == v;
        let y = root[x];
        assert(root[y] == root[x]);
        assert(c[y] == c[x]);
        assert(r.contains(y) && f(y) == v);
    }
    assert forall|v: int| #[trigger] r.map(f).contains(v) implies labels.contains(v) by {
        let y = choose|y: int| r.contains(y) && #[trigger] f(y) == v;
        assert(c[y] <= top(c));
    }
    assert(r.map(f) =~= labels);
    lemma_map_size_bound(r, labels, f);
    lemma_int_range(0, top(c) + 1);
}

/// A labelling that gives each representative its own label and every state its
/// representative's uses exactly as many labels as there are representatives.
pub proof fn lemma_roots_exact(root: Seq<int>, n: int, c: Seq<u8>, blocks: int)
    requires
        0 <= blocks,
        c.len() == n,
        forall|x: int| 0 <= x < n ==> 0 <= #[trigger] root[x] < n,
        forall|x: int| 0 <= x < n ==> root[#[trigger] root[x]] == root[x],
        forall|x: int| 0 <= x < n ==> #[trigger] c[x] == c[root[x]],
        forall|x: int| 0 <= x < n ==> #[trigger] c[x] < blocks,
        forall|v: int| 0 <= v < blocks ==> #[trigger] uses(c, v),
        forall|r1: int, r2: int|
            0 <= r1 < n && 0 <= r2 < n && root[r1] == r1 && root[r2] == r2 && #[trigger] c[r1]
                == #[trigger] c[r2] ==> r1 == r2,
    ensures
        roots(root, n).len() == blocks,
{
    let r = roots(root, n);
    let f = |x: int| c[x] as int;
    let labels = set_int_range(0, blocks);
    lemma_roots_finite(root, n);
    assert forall|v: int| #[trigger] labels.contains(v) implies r.map(f).contains(v) by {
        assert(uses(c, v));
        let x = choose|x: int| 0 <= x < n && #[trigger] c[x] == v;
        let y = root[x];
        assert(c[x] == c[y]);
        assert(r.contains(y) && f(y) == v);
    }
    assert forall|v: int| #[trigger] r.map(f).contains(v) implies labels.contains(v) by {
        let y = choose|y: int| r.contains(y) && #[trigger] f(y) == v;
        assert(c[y] < blocks);
    }
    assert(r.map(f) =~= labels);
    assert forall|x1: int, x2: int| r.contains(x1) && r.contains(x2) && #[trigger] f(x1) == #[trigger] f(
        x2,
    ) implies x1 == x2 by {
        assert(c[x1] == c[x2]);
    }
    assert(vstd::relations::injective_on(f, r));
    lemma_map_size(r, labels, f);
    lemma_int_range(0, blocks);
}

} // verus!
