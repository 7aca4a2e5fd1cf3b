//! A quotient's transition table regrouped to the resolution the prior has.
//!
//! Bytes of one class are interchangeable to a chain over [`Class`], so all that
//! survives of a quotient's 256 byte columns is *where a class can carry a block and
//! how many of the class's bytes go there*: typically one or two edges where a byte loop
//! walks 256. The regrouping is done once per quotient, in integers; the chain only
//! decides how much mass takes each class, never which block a class reaches.

use vstd::prelude::*;

use crate::lattice::{Quotient, LANES};
use crate::prior::{class_at, class_index, class_of, count_below, members_spec, Class, CLASSES};

verus! {

/// How many byte values below `n` fall into class `c` and carry `block` of `rows` to
/// `to`.
pub open spec fn carried_below(rows: [[u8; 16]; 256], block: int, c: Class, to: int, n: int) -> nat
    decreases n,
{
    if n <= 0 {
        0
    } else {
        carried_below(rows, block, c, to, n - 1) + (if class_of((n - 1) as u8) == c && rows[n
            - 1][block] == to {
            1nat
        } else {
            0nat
        })
    }
}

/// How many byte values of class `c` carry `block` of `rows` to `to`.
pub open spec fn carried(rows: [[u8; 16]; 256], block: int, c: Class, to: int) -> nat {
    carried_below(rows, block, c, to, 256)
}

/// The edges of class `c` out of `block`, over the destinations below `to`: each
/// destination the class reaches, with how many of its bytes go there, in block order.
pub open spec fn span_below(rows: [[u8; 16]; 256], block: int, c: Class, to: int) -> Seq<(u8, u16)>
    decreases to,
{
    if to <= 0 {
        Seq::empty()
    } else {
        let s = span_below(rows, block, c, to - 1);
        if carried(rows, block, c, to - 1) > 0 {
            s.push(((to - 1) as u8, carried(rows, block, c, to - 1) as u16))
        } else {
            s
        }
    }
}

/// How many bytes a run of edges carries in all.
pub open spec fn span_total(s: Seq<(u8, u16)>) -> int
    decreases s.len(),
{
    if s.len() == 0 {
        0
    } else {
        span_total(s.drop_last()) + s.last().1
    }
}

/// Where the span of `(block, class)` starts when spans are laid out block by block and,
/// within a block, class by class: where the span before it ends.
pub open spec fn span_start(spans: [[(u16, u16); 7]; 16], block: int, class: int) -> int {
    if class > 0 {
        spans[block][class - 1].1 as int
    } else if block > 0 {
        spans[block - 1][CLASSES - 1].1 as int
    } else {
        0
    }
}

/// A quotient's rows regrouped by byte class: for every live block and class, the span
/// of `edges` that lists where the class carries the block.
pub struct Fanout {
    /// How many blocks the quotient uses.
    pub blocks: u8,
    /// The quotient's start block.
    pub start: u8,
    /// The quotient's first accepting block.
    pub threshold: u8,
    /// `(destination, bytes)` for every span, concatenated.
    pub edges: Vec<(u8, u16)>,
    /// `[block][class]`: the half-open range of `edges` that span owns.
    pub spans: [[(u16, u16); 7]; 16],
}

impl Fanout {
    /// `self` is `q` regrouped: every live span lists exactly the blocks its class carries
    /// its block to, with their byte counts, the spans lie end to end in block and class
    /// order, and the spans of blocks the quotient does not use are empty.
    pub open spec fn regroups(&self, q: &Quotient) -> bool {
        &&& self.blocks == q.blocks
        &&& self.start == q.start
        &&& self.threshold == q.threshold
        &&& forall|block: int, class: int|
            0 <= block < q.blocks && 0 <= class < CLASSES ==> {
                &&& #[trigger] self.spans[block][class].0 == span_start(self.spans, block, class)
                &&& self.spans[block][class].0 <= self.spans[block][class].1 <= self.edges@.len()
                &&& self.edges@.subrange(
                    self.spans[block][class].0 as int,
                    self.spans[block][class].1 as int,
                ) == span_below(q.rows, block, class_at(class), q.blocks as int)
            }
        &&& self.edges@.len() == span_start(self.spans, q.blocks as int, 0)
        &&& forall|block: int, class: int|
            q.blocks <= block < LANES && 0 <= class < CLASSES ==> #[trigger] self.spans[block][class]
                == (0u16, 0u16)
    }

    /// Regroup `q`'s 256 byte columns into per-class successor sets: one pass over the
    /// table per block, the last time any of this looks at a byte.
    pub fn of(q: &Quotient) -> (r: Fanout)
        requires
            q.wf(),
        ensures
            r.regroups(q),
    {
        let blocks = q.blocks;
        let mut edges: Vec<(u8, u16)> = Vec::new();
        let mut spans = [[(0u16, 0u16); 7]; 16];
        let mut block: u8 = 0;
        while block < blocks
            invariant
                q.wf(),
                blocks == q.blocks,
                block <= blocks,
                edges@.len() <= block as int * 7 * 16,
                edges@.len() == span_start(spans, block as int, 0),
                forall|b: int, class: int|
                    0 <= b < block && 0 <= class < CLASSES ==> {
                        &&& #[trigger] spans[b][class].0 == span_start(spans, b, class)
                        &&& spans[b][class].0 <= spans[b][class].1 <= edges@.len()
                        &&& edges@.subrange(spans[b][class].0 as int, spans[b][class].1 as int)
                            == span_below(q.rows, b, class_at(class), blocks as int)
                    },
                forall|b: int, class: int|
                    block <= b < LANES && 0 <= class < CLASSES ==> #[trigger] spans[b][class] == (
                    0u16,
                    0u16,
                ),
            decreases blocks - block,
        {
            let tally = tally_block(q, block);
            let mut class: usize = 0;
            while class < 7
                invariant
                    q.wf(),
                    blocks == q.blocks,
                    block < blocks,
                    class <= 7,
                    forall|k: int, to: int|
                        0 <= k < 7 && 0 <= to < 16 ==> #[trigger] tally[k][to] == carried(
                            q.rows,
                            block as int,
                            class_at(k),
                            to,
                        ),
                    edges@.len() <= block as int * 7 * 16 + class as int * 16,
                    edges@.len() == span_start(spans, block as int, class as int),
                    forall|b: int, k: int|
                        (0 <= b < block && 0 <= k < CLASSES) || (b == block && 0 <= k < class)
                            ==> {
                            &&& #[trigger] spans[b][k].0 == span_start(spans, b, k)
                            &&& spans[b][k].0 <= spans[b][k].1 <= edges@.len()
                            &&& edges@.subrange(spans[b][k].0 as int, spans[b][k].1 as int)
                                == span_below(q.rows, b, class_at(k), blocks as int)
                        },
                    forall|b: int, k: int|
                        ((block < b < LANES && 0 <= k < CLASSES) || (b == block && class <= k
                            < CLASSES)) ==> #[trigger] spans[b][k] == (0u16, 0u16),
                decreases 7 - class,
            {
                let from = edges.len();
                let ghost before = edges@;
                let mut to: u8 = 0;
                while to < blocks
                    invariant
                        q.wf(),
                        blocks == q.blocks,
                        to <= blocks,
                        class < 7,
                        forall|k: int, t: int|
                            0 <= k < 7 && 0 <= t < 16 ==> #[trigger] tally[k][t] == carried(
                                q.rows,
                                block as int,
                                class_at(k),
                                t,
                            ),
                        from <= edges@.len() <= from + to,
                        from == before.len(),
                        before.len() <= block as int * 7 * 16 + class as int * 16,
                        block < blocks,
                        edges@.subrange(0, from as int) == before,
                        edges@.subrange(from as int, edges@.len() as int) == span_below(
                            q.rows,
                            block as int,
                            class_at(class as int),
                            to as int,
                        ),
                    decreases blocks - to,
                {
                    let n = tally[class][to as usize];
                    let ghost was = edges@;
                    proof {
                        lemma_carried_bound(q, block as int, class_at(class as int), to as int, 256);
                    }
                    if n > 0 {
                        edges.push((to, n));
                    }
                    proof {
                        assert(edges@.subrange(0, from as int) =~= before);
                        assert(edges@.subrange(from as int, edges@.len() as int) =~= span_below(
                            q.rows,
                            block as int,
                            class_at(class as int),
                            to + 1,
                        )) by {
                            if n > 0 {
                                assert(was.subrange(from as int, was.len() as int).push((to, n))
                                    =~= edges@.subrange(from as int, edges@.len() as int));
                            } else {
                                assert(was =~= edges@);
                            }
                        }
                    }
                    to += 1;
                }
                let until = edges.len();
                let ghost prior = spans;
                spans[block as usize][class] = (from as u16, until as u16);
                proof {
                    assert forall|b: int, k: int|
                        (0 <= b < block && 0 <= k < CLASSES) || (b == block && 0 <= k < class + 1)
                            implies {
                        &&& #[trigger] spans[b][k].0 == span_start(spans, b, k)
                        &&& spans[b][k].0 <= spans[b][k].1 <= edges@.len()
                        &&& edges@.subrange(spans[b][k].0 as int, spans[b][k].1 as int)
                            == span_below(q.rows, b, class_at(k), blocks as int)
                    } by {
                        if b == block && k == class {
                            assert(spans[b][k] == (from as u16, until as u16));
                        } else {
                            assert(spans[b][k] == prior[b][k]);
                            assert(span_start(spans, b, k) == span_start(prior, b, k));
                            assert(edges@.subrange(spans[b][k].0 as int, spans[b][k].1 as int)
                                =~= before.subrange(spans[b][k].0 as int, spans[b][k].1 as int));
                        }
                    }
                }
                class += 1;
            }
            block += 1;
        }
        Fanout { blocks, start: q.start, threshold: q.threshold, edges, spans }
    }
}

/// For each class and destination, how many bytes of the class carry `block` there.
fn tally_block(q: &Quotient, block: u8) -> (r: [[u16; 16]; 7])
    requires
        q.wf(),
        block < q.blocks,
    ensures
        forall|k: int, to: int|
            0 <= k < 7 && 0 <= to < 16 ==> #[trigger] r[k][to] == carried(
                q.rows,
                block as int,
                class_at(k),
                to,
            ),
{
    let mut tally = [[0u16; 16]; 7];
    let mut b: usize = 0;
    while b < 256
        invariant
            q.wf(),
            block < q.blocks,
            b <= 256,
            forall|k: int, to: int|
                0 <= k < 7 && 0 <= to < 16 ==> #[trigger] tally[k][to] == carried_below(
                    q.rows,
                    block as int,
                    class_at(k),
                    to,
                    b as int,
                ),
            forall|k: int, to: int| 0 <= k < 7 && 0 <= to < 16 ==> #[trigger] tally[k][to] <= b,
        decreases 256 - b,
    {
        let k = Class::of(b as u8).index();
        let to = q.rows[b][block as usize] as usize;
        let ghost old_tally = tally;
        tally[k][to] = tally[k][to] + 1;
        proof {
            assert forall|kk: int, t: int| 0 <= kk < 7 && 0 <= t < 16 implies #[trigger] tally[kk][t]
                == carried_below(q.rows, block as int, class_at(kk), t, b + 1) by {
                assert(class_at(kk) == class_of(b as u8) <==> kk == k);
            }
        }
        b += 1;
    }
    tally
}

/// Every byte of a class lands somewhere: the edges of a span carry, between them, every
/// byte value of its class. A span that did not would under-count what reaches each of
/// its destinations.
pub proof fn lemma_span_carries_its_class(q: &Quotient, block: int, c: Class)
    requires
        q.wf(),
        0 <= block < q.blocks,
    ensures
        span_total(span_below(q.rows, block, c, q.blocks as int)) == members_spec(c),
{
    lemma_total_below(q, block, c, q.blocks as int);
    lemma_carried_anywhere(q, block, c, 256);
}

/// The edges over destinations below `to` carry the bytes of `c` that land below `to`.
proof fn lemma_total_below(q: &Quotient, block: int, c: Class, to: int)
    requires
        q.wf(),
        0 <= block < q.blocks,
        0 <= to <= q.blocks,
    ensures
        span_total(span_below(q.rows, block, c, to)) == landed_below(q, block, c, to, 256),
    decreases to,
{
    if to > 0 {
        lemma_total_below(q, block, c, to - 1);
        lemma_landed_step(q, block, c, to - 1, 256);
        let s = span_below(q.rows, block, c, to - 1);
        if carried(q.rows, block, c, to - 1) > 0 {
            assert(s.push(((to - 1) as u8, carried(q.rows, block, c, to - 1) as u16)).drop_last() =~= s);
            lemma_carried_bound(q, block, c, to - 1, 256);
        }
    } else {
        lemma_landed_none(q, block, c, 256);
    }
}

/// How many byte values below `n` fall into `c` and carry `block` below `to`.
spec fn landed_below(q: &Quotient, block: int, c: Class, to: int, n: int) -> nat
    decreases n,
{
    if n <= 0 {
        0
    } else {
        landed_below(q, block, c, to, n - 1) + (if class_of((n - 1) as u8) == c && q.rows[n
            - 1][block] < to {
            1nat
        } else {
            0nat
        })
    }
}

/// Widening the destinations by one adds the bytes that go to it.
proof fn lemma_landed_step(q: &Quotient, block: int, c: Class, to: int, n: int)
    requires
        0 <= n <= 256,
    ensures
        landed_below(q, block, c, to + 1, n) == landed_below(q, block, c, to, n) + carried_below(
            q.rows,
            block,
            c,
            to,
            n,
        ),
    decreases n,
{
    if n > 0 {
        lemma_landed_step(q, block, c, to, n - 1);
    }
}

/// Nothing lands below the first destination.
proof fn lemma_landed_none(q: &Quotient, block: int, c: Class, n: int)
    requires
        0 <= n <= 256,
    ensures
        landed_below(q, block, c, 0, n) == 0,
    decreases n,
{
    if n > 0 {
        lemma_landed_none(q, block, c, n - 1);
    }
}

/// Every byte of `c` below `n` lands below the quotient's block count.
proof fn lemma_carried_anywhere(q: &Quotient, block: int, c: Class, n: int)
    requires
        q.wf(),
        0 <= block < q.blocks,
        0 <= n <= 256,
    ensures
        landed_below(q, block, c, q.blocks as int, n) == count_below(c, n),
    decreases n,
{
    if n > 0 {
        lemma_carried_anywhere(q, block, c, n - 1);
        assert(q.rows[n - 1][block] < q.blocks);
    }
}

/// No destination receives more bytes than there are byte values.
proof fn lemma_carried_bound(q: &Quotient, block: int, c: Class, to: int, n: int)
    requires
        0 <= n <= 256,
    ensures
        carried_below(q.rows, block, c, to, n) <= n,
    decreases n,
{
    if n > 0 {
        lemma_carried_bound(q, block, c, to, n - 1);
    }
}

} // verus!
