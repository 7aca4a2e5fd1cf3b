//! Finding the next byte that matters, without looking at the ones that do not.
//!
//! While a run sits in a non-accepting block, a byte that loops on that block cannot
//! change the state and cannot visit an accepting block, so it is uninformative and
//! skipping it is exact. [`Skip`] finds the next byte that *leaves* the block:
//! `memchr` for one to three byte values, a nibble classifier for a wider ASCII set.

use vstd::prelude::*;

pub mod wide;

verus! {

/// Widest escape set the classifier will accept.
pub const MAX_WIDE: usize = 128;

/// Is `r` the offset of the first byte of `hay` that `member` admits, with `None`
/// meaning no byte of `hay` is admitted?
pub open spec fn is_first(hay: Seq<u8>, r: Option<usize>, member: spec_fn(u8) -> bool) -> bool {
    match r {
        Some(i) => {
            &&& i < hay.len()
            &&& member(hay[i as int])
            &&& forall|j: int| 0 <= j < i ==> !member(#[trigger] hay[j])
        },
        None => forall|j: int| 0 <= j < hay.len() ==> !member(#[trigger] hay[j]),
    }
}

/// There is only one first member: two searches held to [`is_first`] over the same set
/// answer alike, which is what lets the vector and scalar searchers be compared at all.
pub proof fn lemma_first_is_unique(
    hay: Seq<u8>,
    a: Option<usize>,
    b: Option<usize>,
    member: spec_fn(u8) -> bool,
)
    requires
        is_first(hay, a, member),
        is_first(hay, b, member),
    ensures
        a == b,
{
    match (a, b) {
        (Some(i), Some(j)) => {
            if i < j {
                assert(!member(hay[i as int]));
            } else if j < i {
                assert(!member(hay[j as int]));
            }
        },
        (Some(i), None) => {
            assert(!member(hay[i as int]));
        },
        (None, Some(j)) => {
            assert(!member(hay[j as int]));
        },
        (None, None) => {},
    }
}

/// `memchr::memchr` returns the offset of the first byte of `haystack` equal to `needle`,
/// or `None` when no byte is.
pub assume_specification[ memchr::memchr ](needle: u8, haystack: &[u8]) -> (r: Option<usize>)
    ensures
        is_first(haystack@, r, |b: u8| b == needle),
;

/// `memchr::memchr2` returns the offset of the first byte of `haystack` equal to either
/// needle, or `None` when no byte is.
pub assume_specification[ memchr::memchr2 ](needle1: u8, needle2: u8, haystack: &[u8]) -> (r:
    Option<usize>)
    ensures
        is_first(haystack@, r, |b: u8| b == needle1 || b == needle2),
;

/// `memchr::memchr3` returns the offset of the first byte of `haystack` equal to any of
/// the three needles, or `None` when no byte is.
pub assume_specification[ memchr::memchr3 ](
    needle1: u8,
    needle2: u8,
    needle3: u8,
    haystack: &[u8],
) -> (r: Option<usize>)
    ensures
        is_first(haystack@, r, |b: u8| b == needle1 || b == needle2 || b == needle3),
;

/// Which searcher a skip runs, and therefore what its excursions cost.
#[derive(Debug, Clone, Copy, PartialEq, Eq, Structural)]
pub enum Instrument {
    /// `memchr` over one to three byte values.
    Few,
    /// The nibble classifier over a wider ASCII set.
    Wide,
}

/// The instrument, chosen by how many byte values leave the block.
pub enum Escape {
    /// Nothing leaves: the block is an absorbing sink.
    Never,
    /// One to three values, searched by `memchr`.
    Few([u8; 3], usize),
    /// A wider ASCII set, searched by the nibble classifier.
    Wide { lo: [u8; 16], hi: [u8; 16] },
}

/// How to find the next byte that leaves a block, and which block that is.
pub struct Skip {
    /// The block this is a skip *for*. Only valid while the run is here.
    pub resident: u8,
    pub(crate) escape: Escape,
    pub(crate) leaves: Vec<u8>,
}

/// The byte `b` is a member of the set the nibble tables `lo` and `hi` describe.
pub open spec fn member_spec(lo: [u8; 16], hi: [u8; 16], b: u8) -> bool {
    lo[(b & 0xF) as int] & hi[(b >> 4) as int] != 0
}

/// Bit `g` of `x` is set.
pub open spec fn has_bit(x: u8, g: u8) -> bool {
    (x >> g) & 1 == 1
}

/// `seq` is strictly increasing, so it names each byte once and in order.
pub open spec fn increasing(seq: Seq<u8>) -> bool {
    forall|i: int, j: int| 0 <= i < j < seq.len() ==> seq[i] < seq[j]
}

/// The bytes on which `rows` sends `block` somewhere else.
pub open spec fn leaves_block(rows: [[u8; 16]; 256], block: u8, b: u8) -> bool {
    rows[b as int][block as int] != block
}

/// Would [`Escape::of`] refuse a set of `len` bytes with a high byte somewhere in it
/// exactly when `high` holds?
pub open spec fn refused(len: nat, high: bool) -> bool {
    len > 3 && (len > MAX_WIDE || high)
}

impl Escape {
    /// This instrument searches for exactly the bytes of `leaves`, in the shape its
    /// size calls for.
    pub open spec fn describes(&self, leaves: Seq<u8>) -> bool {
        match *self {
            Escape::Never => leaves.len() == 0,
            Escape::Few(set, n) => {
                &&& 1 <= n <= 3
                &&& leaves.len() == n
                &&& forall|i: int| 0 <= i < n ==> set[i] == leaves[i]
                &&& forall|i: int| n <= i < 3 ==> set[i] == leaves[n - 1]
            },
            Escape::Wide { lo, hi } => {
                &&& 4 <= leaves.len() <= MAX_WIDE
                &&& forall|b: u8| member_spec(lo, hi, b) <==> leaves.contains(b)
                &&& forall|k: int| 0 <= k < 8 ==> #[trigger] hi[k] == (1u8 << (k as u8))
                &&& forall|k: int| 8 <= k < 16 ==> #[trigger] hi[k] == 0
                &&& forall|l: int, g: u8|
                    0 <= l < 16 && g < 8 ==> (#[trigger] has_bit(lo[l], g) <==> exists|j: int|
                        0 <= j < leaves.len() && #[trigger] leaves[j] == g * 16 + l)
            },
        }
    }

    /// The instrument for the escape set `escape`: nothing for an empty set, `memchr`
    /// over one to three values, and otherwise the nibble tables, which hold exactly the
    /// set: no ASCII byte outside it aliases in through a shared nibble, and no byte at or
    /// above `0x80` is a member. `None`, refused, for a set of more than three values
    /// holding a non-ASCII byte or more than [`MAX_WIDE`] of them.
    pub fn of(escape: &[u8]) -> (r: Option<Escape>)
        ensures
            r is None <==> refused(
                escape@.len(),
                exists|i: int| 0 <= i < escape@.len() && escape@[i] >= 0x80,
            ),
            r matches Some(e) ==> e.describes(escape@),
            r matches Some(Escape::Wide { lo, hi }) ==> {
                &&& forall|b: u8| #[trigger] member_spec(lo, hi, b) <==> escape@.contains(b)
                &&& forall|b: u8| b >= 0x80 ==> !#[trigger] member_spec(lo, hi, b)
            },
    {
        let n = escape.len();
        if n == 0 {
            return Some(Escape::Never);
        }
        if n == 1 {
            return Some(Escape::Few([escape[0], escape[0], escape[0]], 1));
        }
        if n == 2 {
            return Some(Escape::Few([escape[0], escape[1], escape[1]], 2));
        }
        if n == 3 {
            return Some(Escape::Few([escape[0], escape[1], escape[2]], 3));
        }
        if n > MAX_WIDE {
            return None;
        }
        let mut i: usize = 0;
        while i < n
            invariant
                n == escape@.len(),
                3 < n <= MAX_WIDE,
                i <= n,
                forall|j: int| 0 <= j < i ==> escape@[j] < 0x80,
            decreases n - i,
        {
            if escape[i] >= 0x80 {
                assert(escape@[i as int] >= 0x80);
                return None;
            }
            i += 1;
        }
        // `hi[h]` selects bit `h` of a `lo` entry; the high half of the table is zero,
        // which is why every member has to be ASCII for this to be the truth.
        let mut hi = [0u8; 16];
        let mut h: u8 = 0;
        while h < 8
            invariant
                h <= 8,
                forall|k: int| 0 <= k < h ==> #[trigger] hi[k] == (1u8 << (k as u8)),
                forall|k: int| h <= k < 16 ==> #[trigger] hi[k] == 0,
            decreases 8 - h,
        {
            hi[h as usize] = 1u8 << h;
            h += 1;
        }
        // `lo[l]` carries one bit per high nibble among the members with low nibble `l`.
        let mut lo = [0u8; 16];
        proof {
            assert forall|l: int, g: u8| 0 <= l < 16 && g < 8 implies !#[trigger] has_bit(lo[l], g) by {
                lemma_zero_has_no_bits(g);
            }
        }
        let mut i: usize = 0;
        while i < n
            invariant
                n == escape@.len(),
                i <= n,
                forall|j: int| 0 <= j < n ==> escape@[j] < 0x80,
                forall|l: int, g: u8|
                    0 <= l < 16 && g < 8 ==> (#[trigger] has_bit(lo[l], g) <==> exists|j: int|
                        0 <= j < i && #[trigger] escape@[j] == g * 16 + l),
            decreases n - i,
        {
            let b = escape[i];
            let l = (b & 0xF) as usize;
            let g = b >> 4;
            proof {
                lemma_nibbles(b);
            }
            let old = lo[l];
            lo[l] = old | (1u8 << g);
            proof {
                assert forall|l2: int, g2: u8| 0 <= l2 < 16 && g2 < 8 implies (
                #[trigger] has_bit(lo[l2], g2) <==> exists|j: int|
                    0 <= j < i + 1 && #[trigger] escape@[j] == g2 * 16 + l2) by {
                    if l2 == l {
                        lemma_set_bit(old, g, g2);
                        if g2 == g {
                            assert(escape@[i as int] == g2 * 16 + l2);
                        }
                    } else {
                        if exists|j: int| 0 <= j < i + 1 && #[trigger] escape@[j] == g2 * 16 + l2 {
                            let j = choose|j: int| 0 <= j < i + 1 && #[trigger] escape@[j] == g2 * 16 + l2;
                            assert(j != i);
                        }
                    }
                }
            }
            i += 1;
        }
        proof {
            assert forall|b: u8| member_spec(lo, hi, b) <==> escape@.contains(b) by {
                lemma_nibbles(b);
                let l = (b & 0xF) as int;
                let g = b >> 4;
                if g < 8 {
                    assert(hi[g as int] == (1u8 << g));
                    lemma_select_bit(lo[l], g);
                    if escape@.contains(b) {
                        let j = choose|j: int| 0 <= j < escape@.len() && escape@[j] == b;
                        assert(escape@[j] == g * 16 + l);
                    }
                } else {
                    assert(hi[g as int] == 0);
                    lemma_and_zero(lo[l]);
                    if escape@.contains(b) {
                        let j = choose|j: int| 0 <= j < escape@.len() && escape@[j] == b;
                        assert(escape@[j] < 0x80);
                    }
                }
            }
        }
        Some(Escape::Wide { lo, hi })
    }
}

/// A byte splits into its two nibbles.
pub(crate) proof fn lemma_nibbles(b: u8)
    ensures
        (b & 0xF) < 16,
        (b >> 4) < 16,
        b == (b >> 4) * 16 + (b & 0xF),
        b < 0x80 ==> (b >> 4) < 8,
        b >= 0x80 ==> (b >> 4) >= 8,
{
    assert((b & 0xF) < 16) by (bit_vector);
    assert((b >> 4) < 16) by (bit_vector);
    assert(b == (b >> 4) * 16 + (b & 0xF)) by (bit_vector);
    assert(b < 0x80 ==> (b >> 4) < 8) by (bit_vector);
    assert(b >= 0x80 ==> (b >> 4) >= 8) by (bit_vector);
}

/// Setting bit `g` sets bit `g` and no other.
proof fn lemma_set_bit(x: u8, g: u8, g2: u8)
    requires
        g < 8,
        g2 < 8,
    ensures
        has_bit(x | (1u8 << g), g2) <==> (has_bit(x, g2) || g2 == g),
{
    assert(((x | (1u8 << g)) >> g2) & 1 == 1 <==> ((x >> g2) & 1 == 1 || g2 == g)) by (bit_vector)
        requires
            g < 8,
            g2 < 8,
    ;
}

/// Zero has no bits set.
proof fn lemma_zero_has_no_bits(g: u8)
    ensures
        !has_bit(0, g),
{
    assert(!has_bit(0, g)) by (bit_vector);
}

/// Masking by zero leaves nothing.
proof fn lemma_and_zero(x: u8)
    ensures
        x & 0 == 0,
{
    assert(x & 0 == 0) by (bit_vector);
}

/// Masking by bit `g` tests bit `g`.
proof fn lemma_select_bit(x: u8, g: u8)
    requires
        g < 8,
    ensures
        (x & (1u8 << g) != 0) <==> has_bit(x, g),
{
    assert((x & (1u8 << g) != 0) <==> ((x >> g) & 1 == 1)) by (bit_vector)
        requires
            g < 8,
    ;
}

impl Skip {
    /// The byte values that leave [`Skip::resident`], in increasing order.
    pub closed spec fn leaves_spec(&self) -> Seq<u8> {
        self.leaves@
    }

    /// [`Skip::resident`], for contracts.
    pub closed spec fn resident_spec(&self) -> u8 {
        self.resident
    }

    /// The field and its contract name are one value.
    pub(crate) proof fn lemma_resident(&self)
        ensures
            self.resident_spec() == self.resident,
    {
    }

    /// Does byte `b` leave [`Skip::resident`]?
    pub open spec fn escapes(&self, b: u8) -> bool {
        self.leaves_spec().contains(b)
    }

    /// The searcher this skip runs, for contracts.
    pub closed spec fn escape_spec(&self) -> Escape {
        self.escape
    }

    /// The searcher agrees with the escape set it was built for.
    pub closed spec fn wf(&self) -> bool {
        &&& self.escape.describes(self.leaves@)
        &&& increasing(self.leaves@)
    }

    /// The skip for `block` in a quotient whose rows are `rows`, or `None` when the
    /// escape set is one the classifier cannot represent exactly.
    pub fn of(rows: &[[u8; 16]; 256], block: u8) -> (r: Option<Skip>)
        requires
            block < 16,
        ensures
            r is None <==> refused(
                Set::new(|b: u8| leaves_block(*rows, block, b)).len(),
                exists|b: u8| b >= 0x80 && leaves_block(*rows, block, b),
            ),
            r matches Some(s) ==> {
                &&& s.wf()
                &&& s.resident_spec() == block
                &&& increasing(s.leaves_spec())
                &&& forall|b: u8| s.escapes(b) <==> leaves_block(*rows, block, b)
            },
    {
        let mut escape: Vec<u8> = Vec::new();
        let mut b: usize = 0;
        while b < 256
            invariant
                b <= 256,
                block < 16,
                increasing(escape@),
                forall|i: int| 0 <= i < escape@.len() ==> escape@[i] < b,
                forall|c: u8| c < b ==> (escape@.contains(c) <==> leaves_block(*rows, block, c)),
                escape@.len() <= b,
            decreases 256 - b,
        {
            let ghost before = escape@;
            if rows[b][block as usize] != block {
                escape.push(b as u8);
            }
            proof {
                assert forall|c: u8| c < b + 1 implies (escape@.contains(c) <==> leaves_block(*rows, block, c)) by {
                    if c < b {
                        if escape@.contains(c) {
                            let k = choose|k: int| 0 <= k < escape@.len() && escape@[k] == c;
                            if k < before.len() {
                                assert(before[k] == c);
                            }
                        }
                        if before.contains(c) {
                            let k = choose|k: int| 0 <= k < before.len() && before[k] == c;
                            assert(escape@[k] == c);
                        }
                    } else {
                        if leaves_block(*rows, block, c) {
                            assert(escape@[escape@.len() - 1] == c);
                        } else {
                            assert(escape@ == before);
                        }
                    }
                }
            }
            b += 1;
        }
        let ghost set = Set::new(|c: u8| leaves_block(*rows, block, c));
        proof {
            assert(set =~= escape@.to_set());
            lemma_increasing_no_duplicates(escape@);
            escape@.unique_seq_to_set();
            assert((exists|c: u8| c >= 0x80 && leaves_block(*rows, block, c)) <==> exists|i: int|
                0 <= i < escape@.len() && escape@[i] >= 0x80) by {
                if exists|c: u8| c >= 0x80 && leaves_block(*rows, block, c) {
                    let c = choose|c: u8| c >= 0x80 && leaves_block(*rows, block, c);
                    assert(escape@.contains(c));
                }
                if exists|i: int| 0 <= i < escape@.len() && escape@[i] >= 0x80 {
                    let i = choose|i: int| 0 <= i < escape@.len() && escape@[i] >= 0x80;
                    assert(escape@.contains(escape@[i]));
                }
            }
        }
        let found = Escape::of(escape.as_slice());
        match found {
            Some(e) => Some(Skip { resident: block, escape: e, leaves: escape }),
            None => None,
        }
    }

    /// The byte values that leave [`Skip::resident`].
    pub fn leaves(&self) -> (r: &[u8])
        ensures
            r@ == self.leaves_spec(),
    {
        self.leaves.as_slice()
    }

    /// Which searcher this skip runs. A block nothing leaves reads as
    /// [`Instrument::Few`].
    pub fn instrument(&self) -> (r: Instrument)
        requires
            self.wf(),
        ensures
            r == (if self.leaves_spec().len() >= 4 {
                Instrument::Wide
            } else {
                Instrument::Few
            }),
    {
        match self.escape {
            Escape::Wide { .. } => Instrument::Wide,
            Escape::Never | Escape::Few(..) => Instrument::Few,
        }
    }

    /// Offset of the first byte of `hay` that leaves [`Skip::resident`], or `None`
    /// when the whole slice keeps the run where it is.
    pub fn find(&self, hay: &[u8]) -> (r: Option<usize>)
        requires
            self.wf(),
        ensures
            is_first(hay@, r, |b: u8| self.escapes(b)),
    {
        match &self.escape {
            Escape::Never => None,
            Escape::Few(set, n) => {
                let found = if *n == 1 {
                    memchr::memchr(set[0], hay)
                } else if *n == 2 {
                    memchr::memchr2(set[0], set[1], hay)
                } else {
                    memchr::memchr3(set[0], set[1], set[2], hay)
                };
                proof {
                    self.lemma_few_member();
                }
                found
            },
            Escape::Wide { lo, hi } => wide::find(lo, hi, hay),
        }
    }

    proof fn lemma_few_member(&self)
        requires
            self.wf(),
            self.escape is Few,
        ensures
            ({
                let (set, n) = (self.escape->Few_0, self.escape->Few_1);
                forall|b: u8|
                    #![trigger self.escapes(b)]
                    self.escapes(b) <==> (b == set[0] || b == set[1] || b == set[2])
            }),
    {
        let (set, n) = (self.escape->Few_0, self.escape->Few_1);
        assert forall|b: u8| self.escapes(b) <==> (b == set[0] || b == set[1] || b == set[2]) by {
            if self.escapes(b) {
                let j = choose|j: int| 0 <= j < self.leaves@.len() && self.leaves@[j] == b;
                assert(set[j] == b);
            }
            if b == set[1] {
                assert(self.leaves@[if n >= 2 { 1int } else { 0int }] == b);
            }
            if b == set[2] {
                assert(self.leaves@[n - 1] == set[2] || self.leaves@[2] == set[2]);
            }
            if b == set[0] {
                assert(self.leaves@[0] == b);
            }
        }
    }

    /// The definition [`Skip::find`] is held to: a plain scan.
    pub fn find_scalar(&self, hay: &[u8]) -> (r: Option<usize>)
        requires
            self.wf(),
        ensures
            is_first(hay@, r, |b: u8| self.escapes(b)),
    {
        match &self.escape {
            Escape::Never => None,
            Escape::Few(set, n) => {
                let mut i: usize = 0;
                while i < hay.len()
                    invariant
                        self.wf(),
                        self.escape == Escape::Few(*set, *n),
                        i <= hay@.len(),
                        forall|j: int| 0 <= j < i ==> !self.escapes(#[trigger] hay@[j]),
                    decreases hay@.len() - i,
                {
                    let b = hay[i];
                    let mut k: usize = 0;
                    let mut hit = false;
                    while k < *n
                        invariant
                            self.wf(),
                            self.escape == Escape::Few(*set, *n),
                            k <= *n,
                            hit <==> exists|m: int| 0 <= m < k && set[m] == b,
                        decreases *n - k,
                    {
                        if set[k] == b {
                            hit = true;
                        }
                        k += 1;
                    }
                    proof {
                        if self.escapes(b) {
                            let j = choose|j: int| 0 <= j < self.leaves@.len() && self.leaves@[j] == b;
                            assert(set[j] == b);
                        }
                    }
                    if hit {
                        proof {
                            let m = choose|m: int| 0 <= m < *n && set[m] == b;
                            assert(self.leaves@[m] == b);
                            assert(self.leaves@.contains(b));
                        }
                        return Some(i);
                    }
                    i += 1;
                }
                None
            },
            Escape::Wide { lo, hi } => wide::scalar(lo, hi, hay),
        }
    }
}

/// Strictly increasing means no byte twice.
proof fn lemma_increasing_no_duplicates(s: Seq<u8>)
    requires
        increasing(s),
    ensures
        s.no_duplicates(),
{
    assert forall|i: int, j: int| 0 <= i < s.len() && 0 <= j < s.len() && i != j implies s[i]
        != s[j] by {
        if i < j {
            assert(s[i] < s[j]);
        } else {
            assert(s[j] < s[i]);
        }
    }
}


/// Two strictly increasing sequences holding the same bytes are the same sequence.
proof fn lemma_increasing_unique(a: Seq<u8>, b: Seq<u8>)
    requires
        increasing(a),
        increasing(b),
        forall|x: u8| a.contains(x) <==> b.contains(x),
    ensures
        a == b,
    decreases a.len(),
{
    if a.len() == 0 {
        if b.len() > 0 {
            assert(b.contains(b[0]));
        }
        assert(a =~= b);
    } else {
        if b.len() == 0 {
            assert(a.contains(a[0]));
        }
        let (x, y) = (a.last(), b.last());
        assert(a.contains(x));
        assert(b.contains(y));
        let i = choose|i: int| 0 <= i < b.len() && b[i] == x;
        let j = choose|j: int| 0 <= j < a.len() && a[j] == y;
        if i < b.len() - 1 {
            assert(x < y);
        }
        if j < a.len() - 1 {
            assert(y < x);
        }
        assert(x == y);
        let (da, db) = (a.drop_last(), b.drop_last());
        assert forall|z: u8| da.contains(z) <==> db.contains(z) by {
            if da.contains(z) {
                let k = choose|k: int| 0 <= k < da.len() && da[k] == z;
                assert(a[k] == z && z < x);
                assert(b.contains(z));
                let m = choose|m: int| 0 <= m < b.len() && b[m] == z;
                assert(m != b.len() - 1);
                assert(db[m] == z);
            }
            if db.contains(z) {
                let k = choose|k: int| 0 <= k < db.len() && db[k] == z;
                assert(b[k] == z && z < y);
                assert(a.contains(z));
                let m = choose|m: int| 0 <= m < a.len() && a[m] == z;
                assert(m != a.len() - 1);
                assert(da[m] == z);
            }
        }
        lemma_increasing_unique(da, db);
        assert(a =~= da.push(x));
        assert(b =~= db.push(y));
    }
}

/// A byte is determined by its eight bits.
proof fn lemma_bits_determine(x: u8, y: u8)
    requires
        forall|g: u8| g < 8 ==> (#[trigger] has_bit(x, g) <==> has_bit(y, g)),
    ensures
        x == y,
{
    assert(has_bit(x, 0) == has_bit(y, 0));
    assert(has_bit(x, 1) == has_bit(y, 1));
    assert(has_bit(x, 2) == has_bit(y, 2));
    assert(has_bit(x, 3) == has_bit(y, 3));
    assert(has_bit(x, 4) == has_bit(y, 4));
    assert(has_bit(x, 5) == has_bit(y, 5));
    assert(has_bit(x, 6) == has_bit(y, 6));
    assert(has_bit(x, 7) == has_bit(y, 7));
    assert(((x >> 0u8) & 1 == 1) == ((y >> 0u8) & 1 == 1) && ((x >> 1u8) & 1 == 1) == ((y >> 1u8) & 1
        == 1) && ((x >> 2u8) & 1 == 1) == ((y >> 2u8) & 1 == 1) && ((x >> 3u8) & 1 == 1) == ((y
        >> 3u8) & 1 == 1) && ((x >> 4u8) & 1 == 1) == ((y >> 4u8) & 1 == 1) && ((x >> 5u8) & 1 == 1)
        == ((y >> 5u8) & 1 == 1) && ((x >> 6u8) & 1 == 1) == ((y >> 6u8) & 1 == 1) && ((x >> 7u8) & 1
        == 1) == ((y >> 7u8) & 1 == 1) ==> x == y) by (bit_vector);
}

/// The skip for a block is determined by the bytes that leave it: two skips for the same
/// block with the same escape set list the same bytes and run the same searcher, tables
/// and all.
pub proof fn lemma_skip_is_determined(a: &Skip, b: &Skip)
    requires
        a.wf(),
        b.wf(),
        forall|x: u8| a.escapes(x) <==> b.escapes(x),
    ensures
        a.leaves_spec() == b.leaves_spec(),
        a.escape_spec() == b.escape_spec(),
{
    let (la, lb) = (a.leaves@, b.leaves@);
    assert forall|x: u8| la.contains(x) <==> lb.contains(x) by {
        assert(a.escapes(x) == la.contains(x));
        assert(b.escapes(x) == lb.contains(x));
    }
    lemma_increasing_unique(la, lb);
    match (a.escape, b.escape) {
        (Escape::Few(sa, na), Escape::Few(sb, nb)) => {
            assert(na == nb);
            assert forall|i: int| 0 <= i < 3 implies sa[i] == sb[i] by {
                if i < na {
                    assert(sa[i] == la[i] && sb[i] == lb[i]);
                } else {
                    assert(sa[i] == la[na - 1] && sb[i] == lb[nb - 1]);
                }
            }
            assert(sa =~= sb);
        },
        (Escape::Wide { lo: loa, hi: hia }, Escape::Wide { lo: lob, hi: hib }) => {
            assert forall|k: int| 0 <= k < 16 implies hia[k] == hib[k] by {
                if k < 8 {
                    assert(hia[k] == (1u8 << (k as u8)) && hib[k] == (1u8 << (k as u8)));
                } else {
                    assert(hia[k] == 0 && hib[k] == 0);
                }
            }
            assert(hia =~= hib);
            assert forall|l: int| 0 <= l < 16 implies loa[l] == lob[l] by {
                assert forall|g: u8| g < 8 implies (#[trigger] has_bit(loa[l], g) <==> has_bit(lob[l], g)) by {
                    assert(has_bit(loa[l], g) <==> exists|j: int| 0 <= j < la.len() && #[trigger] la[j] == g * 16 + l);
                    assert(has_bit(lob[l], g) <==> exists|j: int| 0 <= j < lb.len() && #[trigger] lb[j] == g * 16 + l);
                }
                lemma_bits_determine(loa[l], lob[l]);
            }
            assert(loa =~= lob);
        },
        _ => {},
    }
}

} // verus!
