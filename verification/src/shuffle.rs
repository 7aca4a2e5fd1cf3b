//! The register-resident kernel: one shuffle per byte, no gather, no branch.
//!
//! The register holds the *function* a run of bytes computes rather than the state a
//! run is in: seeded with the identity, one shuffle per byte composes, so after any
//! run of bytes lane `i` holds the block that run would reach from block `i`. The
//! haystack then splits into independent slices that advance in lockstep, and the
//! slices are collapsed back onto the one real trajectory at the end of each chunk.

use vstd::prelude::*;

use crate::lattice::{Quotient, LANES};
use crate::skip::{is_first, Skip};

verus! {

/// Bytes between accept checks.
pub const CHUNK: usize = 256;

/// Independent composition chains advanced in lockstep.
pub const WAYS: usize = 4;

/// Bytes each chain walks per full chunk.
pub const STRIDE: usize = 64;

/// The do-nothing function: lane `i` holds `i`.
pub const IDENTITY: [u8; 16] = [0, 1, 2, 3, 4, 5, 6, 7, 8, 9, 10, 11, 12, 13, 14, 15];

/// The bytes slice `w` of a sweep reads: `stride` bytes starting `w * stride` past
/// `base`, truncated to the first `step` of them.
pub open spec fn slice_of(hay: Seq<u8>, base: int, stride: int, w: int, step: int) -> Seq<u8> {
    hay.subrange(base + w * stride, base + w * stride + step)
}

/// One byte's worth of a composition, across all sixteen lanes: `f := row ∘ f` and
/// `h := max(h, f)`.
fn compose_row(row: &[u8; 16], f0: [u8; 16], h0: [u8; 16]) -> (res: ([u8; 16], [u8; 16]))
    requires
        forall|x: int| 0 <= x < LANES ==> #[trigger] row[x] < LANES,
        forall|x: int| 0 <= x < LANES ==> #[trigger] f0[x] < LANES,
    ensures
        forall|x: int| 0 <= x < LANES ==> #[trigger] res.0[x] == row[f0[x] as int],
        forall|x: int|
            0 <= x < LANES ==> #[trigger] res.1[x] == (if h0[x] >= row[f0[x] as int] {
                h0[x]
            } else {
                row[f0[x] as int]
            }),
{
    let mut f = f0;
    let mut h = h0;
    let mut i: usize = 0;
    while i < 16
        invariant
            0 <= i <= 16,
            forall|x: int| 0 <= x < LANES ==> #[trigger] row[x] < LANES,
            forall|x: int| 0 <= x < LANES ==> #[trigger] f0[x] < LANES,
            forall|x: int| 0 <= x < i ==> #[trigger] f[x] == row[f0[x] as int],
            forall|x: int|
                0 <= x < i ==> #[trigger] h[x] == (if h0[x] >= row[f0[x] as int] {
                    h0[x]
                } else {
                    row[f0[x] as int]
                }),
            forall|x: int| i <= x < LANES ==> #[trigger] f[x] == f0[x],
            forall|x: int| i <= x < LANES ==> #[trigger] h[x] == h0[x],
        decreases 16 - i,
    {
        let next = row[f[i] as usize];
        f[i] = next;
        if next > h[i] {
            h[i] = next;
        }
        i += 1;
    }
    (f, h)
}

/// Compose `ways` slices of `stride` bytes each, starting at `base`, then collapse them
/// onto the one trajectory that enters at `live`. Returns the block that trajectory
/// leaves in and the highest block it visited.
fn sweep(q: &Quotient, hay: &[u8], base: usize, stride: usize, ways: usize, live: u8) -> (res: (
    u8,
    u8,
))
    requires
        q.in_register(),
        live < LANES,
        1 <= ways <= 16,
        base + ways * stride <= hay@.len(),
    ensures
        res.0 == q.run(live as int, hay@.subrange(base as int, base + ways * stride)),
        res.1 == q.peak(live as int, hay@.subrange(base as int, base + ways * stride)),
{
    let n = hay.len();
    let mut compose: Vec<[u8; 16]> = Vec::new();
    let mut high: Vec<[u8; 16]> = Vec::new();
    let mut w: usize = 0;
    while w < ways
        invariant
            w <= ways,
            compose@.len() == w,
            high@.len() == w,
            forall|v: int, x: int|
                0 <= v < w && 0 <= x < LANES ==> #[trigger] compose@[v][x] == x && high@[v][x]
                    == x,
        decreases ways - w,
    {
        compose.push(IDENTITY);
        high.push(IDENTITY);
        w += 1;
    }
    let ghost h = hay@;
    proof {
        assert forall|v: int, x: int| 0 <= v < ways && 0 <= x < LANES implies #[trigger] compose@[v][x]
            == q.run(x, slice_of(h, base as int, stride as int, v, 0)) && high@[v][x] == q.peak(
            x,
            slice_of(h, base as int, stride as int, v, 0),
        ) by {
            assert(slice_of(h, base as int, stride as int, v, 0).len() == 0);
        }
    }
    let mut step: usize = 0;
    while step < stride
        invariant
            q.in_register(),
            base + ways * stride <= hay@.len(),
            h == hay@,
            n == hay@.len(),
            1 <= ways <= 16,
            step <= stride,
            compose@.len() == ways,
            high@.len() == ways,
            forall|v: int, x: int|
                0 <= v < ways && 0 <= x < LANES ==> #[trigger] compose@[v][x] == q.run(
                    x,
                    slice_of(h, base as int, stride as int, v, step as int),
                ) && high@[v][x] == q.peak(
                    x,
                    slice_of(h, base as int, stride as int, v, step as int),
                ),
        decreases stride - step,
    {
        let mut way: usize = 0;
        while way < ways
            invariant
                q.in_register(),
                base + ways * stride <= hay@.len(),
                h == hay@,
                n == hay@.len(),
                1 <= ways <= 16,
                step < stride,
                way <= ways,
                compose@.len() == ways,
                high@.len() == ways,
                forall|v: int, x: int|
                    way <= v < ways && 0 <= x < LANES ==> #[trigger] compose@[v][x] == q.run(
                        x,
                        slice_of(h, base as int, stride as int, v, step as int),
                    ) && high@[v][x] == q.peak(
                        x,
                        slice_of(h, base as int, stride as int, v, step as int),
                    ),
                forall|v: int, x: int|
                    0 <= v < way && 0 <= x < LANES ==> #[trigger] compose@[v][x] == q.run(
                        x,
                        slice_of(h, base as int, stride as int, v, step + 1),
                    ) && high@[v][x] == q.peak(
                        x,
                        slice_of(h, base as int, stride as int, v, step + 1),
                    ),
            decreases ways - way,
        {
            assert(way * stride + step < ways * stride && way * stride <= ways * stride) by (nonlinear_arith)
                requires
                    way < ways,
                    step < stride,
            ;
            let at = base + way * stride + step;
            let byte = hay[at];
            let row = q.rows[byte as usize];
            let f = compose[way];
            let g = high[way];
            proof {
                assert forall|x: int| 0 <= x < LANES implies #[trigger] row[x] < LANES by {
                    assert(q.rows[byte as int][x] < LANES);
                }
                assert forall|x: int| 0 <= x < LANES implies #[trigger] f[x] < LANES by {
                    let s = slice_of(h, base as int, stride as int, way as int, step as int);
                    q.lemma_run_in_register(x, s);
                }
            }
            let ghost f0 = f;
            let ghost g0 = g;
            let (f, g) = compose_row(&row, f, g);
            proof {
                let s0 = slice_of(h, base as int, stride as int, way as int, step as int);
                let s1 = slice_of(h, base as int, stride as int, way as int, step + 1);
                assert(s1.drop_last() =~= s0);
                assert(s1.last() == byte);
                assert forall|x: int| 0 <= x < LANES implies #[trigger] f[x] == q.run(x, s1)
                    && g[x] == q.peak(x, s1) by {
                    assert(f0[x] == q.run(x, s0));
                    assert(g0[x] == q.peak(x, s0));
                }
            }
            let ghost c0 = compose@;
            let ghost k0 = high@;
            compose.set(way, f);
            high.set(way, g);
            proof {
                assert forall|v: int| 0 <= v < ways && v != way implies compose@[v] == c0[v]
                    && high@[v] == k0[v] by {}
                assert(compose@[way as int] == f && high@[way as int] == g);
                let s1 = slice_of(h, base as int, stride as int, way as int, step + 1);
                assert forall|v: int, x: int|
                    0 <= v < way + 1 && 0 <= x < LANES implies #[trigger] compose@[v][x] == q.run(
                    x,
                    slice_of(h, base as int, stride as int, v, step + 1),
                ) && high@[v][x] == q.peak(x, slice_of(h, base as int, stride as int, v, step + 1)) by {
                    if v == way {
                        assert(f[x] == q.run(x, s1));
                    } else {
                        assert(compose@[v] == c0[v]);
                    }
                }
                assert forall|v: int, x: int|
                    way + 1 <= v < ways && 0 <= x < LANES implies #[trigger] compose@[v][x] == q.run(
                    x,
                    slice_of(h, base as int, stride as int, v, step as int),
                ) && high@[v][x] == q.peak(x, slice_of(h, base as int, stride as int, v, step as int)) by {
                    assert(compose@[v] == c0[v]);
                    assert(high@[v] == k0[v]);
                    assert(c0[v][x] == q.run(x, slice_of(h, base as int, stride as int, v, step as int)));
                }
            }
            way += 1;
            assert(forall|v: int, x: int|
                    way <= v < ways && 0 <= x < LANES ==> #[trigger] compose@[v][x] == q.run(
                        x,
                        slice_of(h, base as int, stride as int, v, step as int),
                    ) && high@[v][x] == q.peak(
                        x,
                        slice_of(h, base as int, stride as int, v, step as int),
                    ));
        }
        step += 1;
    }
    let mut seen: u8 = live;
    let mut cur: u8 = live;
    let mut w: usize = 0;
    while w < ways
        invariant
            q.in_register(),
            base + ways * stride <= hay@.len(),
            h == hay@,
            1 <= ways <= 16,
            w <= ways,
            live < LANES,
            compose@.len() == ways,
            high@.len() == ways,
            forall|v: int, x: int|
                0 <= v < ways && 0 <= x < LANES ==> #[trigger] compose@[v][x] == q.run(
                    x,
                    slice_of(h, base as int, stride as int, v, stride as int),
                ) && high@[v][x] == q.peak(
                    x,
                    slice_of(h, base as int, stride as int, v, stride as int),
                ),
            cur < LANES,
            cur == q.run(live as int, h.subrange(base as int, base + w * stride)),
            seen == q.peak(live as int, h.subrange(base as int, base + w * stride)),
        decreases ways - w,
    {
        proof {
            assert((w + 1) * stride == w * stride + stride) by (nonlinear_arith);
            assert(w * stride + stride <= ways * stride) by (nonlinear_arith)
                requires
                    w < ways,
            ;
            let a = h.subrange(base as int, base + w * stride);
            let b = slice_of(h, base as int, stride as int, w as int, stride as int);
            assert(a + b =~= h.subrange(base as int, base + (w + 1) * stride));
            q.lemma_run_append(live as int, a, b);
            q.lemma_run_in_register(cur as int, b);
        }
        let top = high[w][cur as usize];
        if top > seen {
            seen = top;
        }
        cur = compose[w][cur as usize];
        w += 1;
    }
    (cur, seen)
}

/// The composition kernel over `ways` independent slices: chunk by chunk, then the
/// short final chunk at its own stride, then the remainder too short to slice.
pub fn sweep_shuffle(q: &Quotient, hay: &[u8], ways: usize) -> (r: bool)
    requires
        q.in_register(),
        1 <= ways <= 16,
        CHUNK % ways == 0,
    ensures
        r == q.refutes_spec(hay@),
{
    let stride = CHUNK / ways;
    assert(stride * ways == CHUNK) by (nonlinear_arith)
        requires
            stride == CHUNK / ways,
            CHUNK % ways == 0,
            ways >= 1,
    ;
    let mut live: u8 = q.start;
    let mut pos: usize = 0;
    proof {
        assert(hay@.subrange(0, 0) =~= Seq::<u8>::empty());
    }
    while hay.len() - pos >= CHUNK
        invariant
            q.in_register(),
            1 <= ways <= 16,
            stride * ways == CHUNK,
            pos <= hay@.len(),
            live < LANES,
            live == q.run(q.start as int, hay@.subrange(0, pos as int)),
            pos > 0 ==> q.peak(q.start as int, hay@.subrange(0, pos as int)) < q.threshold,
            pos == 0 ==> hay@.subrange(0, pos as int) =~= Seq::<u8>::empty(),
        decreases hay@.len() - pos,
    {
        let (next, seen) = sweep(q, hay, pos, stride, ways, live);
        proof {
            let a = hay@.subrange(0, pos as int);
            let b = hay@.subrange(pos as int, pos + ways * stride);
            assert(a + b =~= hay@.subrange(0, pos + CHUNK));
            q.lemma_run_append(q.start as int, a, b);
            q.lemma_run_in_register(live as int, b);
        }
        if seen >= q.threshold {
            proof {
                let c = hay@.subrange(0, pos + CHUNK);
                let d = hay@.subrange(pos + CHUNK, hay@.len() as int);
                assert(c + d =~= hay@);
                q.lemma_run_append(q.start as int, c, d);
            }
            return false;
        }
        live = next;
        pos = pos + CHUNK;
    }
    let left = hay.len() - pos;
    let tail_stride = left / ways;
    assert(tail_stride * ways <= left) by (nonlinear_arith)
        requires
            tail_stride == left / ways,
            ways >= 1,
    ;
    let paved = tail_stride * ways;
    assert(ways * tail_stride == paved) by (nonlinear_arith)
        requires
            paved == tail_stride * ways,
    ;
    let (next, seen) = sweep(q, hay, pos, tail_stride, ways, live);
    proof {
        let a = hay@.subrange(0, pos as int);
        let b = hay@.subrange(pos as int, pos + paved);
        assert(a + b =~= hay@.subrange(0, pos + paved));
        q.lemma_run_append(q.start as int, a, b);
        q.lemma_run_in_register(live as int, b);
    }
    if seen >= q.threshold {
        proof {
            let c = hay@.subrange(0, pos + paved);
            let d = hay@.subrange(pos + paved, hay@.len() as int);
            assert(c + d =~= hay@);
            q.lemma_run_append(q.start as int, c, d);
        }
        return false;
    }
    let trailing = &hay[pos + paved..hay.len()];
    let done = walk(q, trailing, next);
    proof {
        let c = hay@.subrange(0, pos + paved);
        assert(c + trailing@ =~= hay@);
        q.lemma_run_append(q.start as int, c, trailing@);
    }
    done.is_some()
}

/// Does `q` **prove** `hay` holds no match? The four-slice composition kernel.
///
/// `true` is a conclusive negative: the quotient never visits an accepting block.
/// `false` means "cannot rule it out" and is never evidence of a match.
pub fn refutes(q: &Quotient, hay: &[u8]) -> (r: bool)
    requires
        q.in_register(),
    ensures
        r == q.refutes_spec(hay@),
{
    sweep_shuffle(q, hay, WAYS)
}

/// Every kernel agrees with the definition on a quotient of the harvest's shape: the
/// scalar reference, which answers `true` on an empty haystack whatever the start, and
/// the skipping loop, which judges only the blocks reached after a byte is read, both
/// answer exactly [`Quotient::refutes_spec`], because the start block never accepts.
pub proof fn lemma_kernels_agree(q: &Quotient, hay: Seq<u8>)
    requires
        q.wf(),
    ensures
        (q.refutes_spec(hay) || hay.len() == 0) == q.refutes_spec(hay),
        (q.climb(q.start as int, hay) < q.threshold) == q.refutes_spec(hay),
{
    q.lemma_peak_is_start_or_climb(q.start as int, hay);
    if hay.len() == 0 {
        q.lemma_nothing_read_refutes(hay);
    }
}

/// `skip` is a skip for a non-accepting block of `q` whose escape set is exactly the
/// bytes that leave that block.
pub open spec fn serves(skip: &Skip, q: &Quotient) -> bool {
    &&& skip.wf()
    &&& skip.resident_spec() < q.threshold
    &&& skip.resident_spec() < LANES
    &&& forall|b: u8|
        #![trigger skip.escapes(b)]
        skip.escapes(b) <==> q.rows[b as int][skip.resident_spec() as int] != skip.resident_spec()
}

/// [`refutes`], but skipping the runs the quotient provably sits still through.
///
/// While the run is in the block `skip` describes, [`Skip::find`] says where the next
/// byte that moves it is and the loop jumps there; otherwise it steps. Exact, not
/// approximate: a self-loop byte in a non-accepting block cannot change the state and
/// cannot visit an accepting block. Like the walk, it checks the blocks reached after
/// each byte; the start block itself is the caller's to have checked.
pub fn refutes_skipping(q: &Quotient, skip: &Skip, hay: &[u8]) -> (r: bool)
    requires
        q.in_register(),
        serves(skip, q),
    ensures
        r == (q.climb(q.start as int, hay@) < q.threshold),
{
    let mut at: usize = 0;
    let mut state: u8 = q.start;
    proof {
        assert(hay@.subrange(0, 0) =~= Seq::<u8>::empty());
        skip.lemma_resident();
    }
    while at < hay.len()
        invariant
            q.in_register(),
            serves(skip, q),
            at <= hay@.len(),
            state < LANES,
            state == q.run(q.start as int, hay@.subrange(0, at as int)),
            q.climb(q.start as int, hay@.subrange(0, at as int)) < q.threshold,
            skip.resident_spec() == skip.resident,
        decreases hay@.len() - at,
    {
        let ghost prefix = hay@.subrange(0, at as int);
        if state == skip.resident {
            let rest = &hay[at..hay.len()];
            let found = skip.find(rest);
            match found {
                None => {
                    proof {
                        assert forall|i: int| 0 <= i < rest@.len() implies q.step(
                            state as int,
                            #[trigger] rest@[i],
                        ) == state by {
                            assert(!skip.escapes(rest@[i]));
                        }
                        q.lemma_run_loops(state as int, rest@);
                        assert(prefix + rest@ =~= hay@);
                        q.lemma_climb_append(q.start as int, prefix, rest@);
                    }
                    return true;
                },
                Some(step) => {
                    proof {
                        let loops = rest@.subrange(0, step as int);
                        assert forall|i: int| 0 <= i < loops.len() implies q.step(
                            state as int,
                            #[trigger] loops[i],
                        ) == state by {
                            assert(loops[i] == rest@[i]);
                            assert(!skip.escapes(rest@[i]));
                        }
                        q.lemma_run_loops(state as int, loops);
                        assert(prefix + loops =~= hay@.subrange(0, at + step));
                        q.lemma_run_append(q.start as int, prefix, loops);
                        q.lemma_climb_append(q.start as int, prefix, loops);
                    }
                    at = at + step;
                },
            }
        }
        let ghost before = hay@.subrange(0, at as int);
        let byte = hay[at];
        proof {
            assert(q.rows[byte as int][state as int] < LANES);
            assert(hay@.subrange(0, at + 1).drop_last() =~= before);
            assert(hay@.subrange(0, at + 1).last() == byte);
        }
        state = q.rows[byte as usize][state as usize];
        if state >= q.threshold {
            proof {
                let c = hay@.subrange(0, at + 1);
                let d = hay@.subrange(at + 1, hay@.len() as int);
                assert(c + d =~= hay@);
                q.lemma_climb_append(q.start as int, c, d);
            }
            return false;
        }
        at += 1;
    }
    proof {
        assert(hay@.subrange(0, at as int) =~= hay@);
    }
    true
}

/// The reference semantics every vector path is checked against: a scalar walk,
/// checked for an accept once per chunk.
pub fn scalar(q: &Quotient, hay: &[u8]) -> (r: bool)
    requires
        q.in_register(),
    ensures
        r == (q.refutes_spec(hay@) || hay@.len() == 0),
{
    let mut state: u8 = q.start;
    let mut pos: usize = 0;
    proof {
        assert(hay@.subrange(0, 0) =~= Seq::<u8>::empty());
    }
    while pos < hay.len()
        invariant
            q.in_register(),
            pos <= hay@.len(),
            state < LANES,
            state == q.run(q.start as int, hay@.subrange(0, pos as int)),
            pos > 0 ==> q.peak(q.start as int, hay@.subrange(0, pos as int)) < q.threshold,
            pos == 0 ==> hay@.subrange(0, pos as int) =~= Seq::<u8>::empty(),
        decreases hay@.len() - pos,
    {
        let end = if hay.len() - pos > CHUNK {
            pos + CHUNK
        } else {
            hay.len()
        };
        let chunk = &hay[pos..end];
        let reached = walk(q, chunk, state);
        proof {
            let a = hay@.subrange(0, pos as int);
            assert(a + chunk@ =~= hay@.subrange(0, end as int));
            q.lemma_run_append(q.start as int, a, chunk@);
        }
        match reached {
            Some(next) => {
                state = next;
            },
            None => {
                proof {
                    let c = hay@.subrange(0, end as int);
                    let d = hay@.subrange(end as int, hay@.len() as int);
                    assert(c + d =~= hay@);
                    q.lemma_run_append(q.start as int, c, d);
                }
                return false;
            },
        }
        proof {
            q.lemma_run_in_register(q.start as int, hay@.subrange(0, end as int));
        }
        pos = end;
    }
    proof {
        assert(hay@.subrange(0, pos as int) =~= hay@);
    }
    true
}

/// Step `q` across `hay` from `state`, or `None` the moment the run is known to have
/// visited an accepting block.
pub fn walk(q: &Quotient, hay: &[u8], state: u8) -> (r: Option<u8>)
    requires
        q.in_register(),
        state < LANES,
    ensures
        r == (if q.peak(state as int, hay@) < q.threshold {
            Some(q.run(state as int, hay@) as u8)
        } else {
            None
        }),
{
    let mut s: u8 = state;
    let mut high: u8 = state;
    let mut i: usize = 0;
    while i < hay.len()
        invariant
            q.in_register(),
            state < LANES,
            i <= hay@.len(),
            s < LANES,
            s == q.run(state as int, hay@.take(i as int)),
            high == q.peak(state as int, hay@.take(i as int)),
        decreases hay@.len() - i,
    {
        let byte = hay[i];
        proof {
            assert(hay@.take(i + 1).drop_last() =~= hay@.take(i as int));
            assert(hay@.take(i + 1).last() == byte);
            assert(q.rows[byte as int][s as int] < LANES);
        }
        s = q.rows[byte as usize][s as usize];
        if s > high {
            high = s;
        }
        i += 1;
    }
    proof {
        assert(hay@.take(hay@.len() as int) =~= hay@);
    }
    if high < q.threshold {
        Some(s)
    } else {
        None
    }
}

} // verus!
