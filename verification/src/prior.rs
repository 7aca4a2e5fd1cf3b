//! What a byte is likely to be, given the byte before it: the byte classes the
//! first-order chains are written over.
//!
//! The selectivity gate predicts how often a quotient accepts from a chain over seven
//! byte classes with a uniform spread within each class. The chains themselves are
//! measured probabilities and live with the caller; what is here is the classifier they
//! are indexed by, and how many byte values each class spreads its mass over, counted
//! from the classifier so the two can never disagree.

use vstd::prelude::*;

verus! {

/// Byte classes coarse enough that a 7x7 matrix over a real corpus has dense support,
/// and fine enough that the runs patterns actually require are each their own row.
#[derive(Debug, Clone, Copy, PartialEq, Eq, Structural)]
pub enum Class {
    /// Horizontal whitespace.
    Space,
    /// Line breaks.
    Break,
    /// `a`..=`z`.
    Lower,
    /// `A`..=`Z`.
    Upper,
    /// `0`..=`9`.
    Digit,
    /// Printable ASCII punctuation.
    Punct,
    /// Non-ASCII and the remaining control bytes.
    High,
}

/// How many rows and columns a transition matrix over [`Class`] carries.
pub const CLASSES: usize = 7;

/// A class's row in every matrix.
pub open spec fn class_index(c: Class) -> int {
    match c {
        Class::Space => 0,
        Class::Break => 1,
        Class::Lower => 2,
        Class::Upper => 3,
        Class::Digit => 4,
        Class::Punct => 5,
        Class::High => 6,
    }
}

/// Which class a raw byte falls into.
pub open spec fn class_of(b: u8) -> Class {
    if b == 0x20 || b == 0x09 {
        Class::Space
    } else if b == 0x0a || b == 0x0d {
        Class::Break
    } else if 0x61 <= b <= 0x7a {
        Class::Lower
    } else if 0x41 <= b <= 0x5a {
        Class::Upper
    } else if 0x30 <= b <= 0x39 {
        Class::Digit
    } else if (0x21 <= b <= 0x2f) || (0x3a <= b <= 0x40) || (0x5b <= b <= 0x60) || (0x7b <= b
        <= 0x7e) {
        Class::Punct
    } else {
        Class::High
    }
}

/// How many of the byte values below `n` fall into `c`.
pub open spec fn count_below(c: Class, n: int) -> nat
    decreases n,
{
    if n <= 0 {
        0
    } else {
        count_below(c, n - 1) + (if class_of((n - 1) as u8) == c {
            1nat
        } else {
            0nat
        })
    }
}

/// How many of the 256 byte values `c` holds.
pub open spec fn members_spec(c: Class) -> nat {
    count_below(c, 256)
}

impl Class {
    /// Index order for every matrix over classes.
    pub fn all() -> (r: [Class; 7])
        ensures
            forall|i: int| 0 <= i < 7 ==> class_index(#[trigger] r[i]) == i,
    {
        [Class::Space, Class::Break, Class::Lower, Class::Upper, Class::Digit, Class::Punct, Class::High]
    }

    /// The class's row in every matrix.
    pub fn index(self) -> (r: usize)
        ensures
            r == class_index(self),
            r < CLASSES,
    {
        match self {
            Class::Space => 0,
            Class::Break => 1,
            Class::Lower => 2,
            Class::Upper => 3,
            Class::Digit => 4,
            Class::Punct => 5,
            Class::High => 6,
        }
    }

    /// Which class a raw byte falls into.
    pub fn of(b: u8) -> (r: Class)
        ensures
            r == class_of(b),
    {
        if b == 0x20 || b == 0x09 {
            Class::Space
        } else if b == 0x0A || b == 0x0D {
            Class::Break
        } else if 0x61 <= b && b <= 0x7A {
            Class::Lower
        } else if 0x41 <= b && b <= 0x5A {
            Class::Upper
        } else if 0x30 <= b && b <= 0x39 {
            Class::Digit
        } else if (0x21 <= b && b <= 0x2F) || (0x3A <= b && b <= 0x40) || (0x5B <= b && b <= 0x60)
            || (0x7B <= b && b <= 0x7E) {
            Class::Punct
        } else {
            Class::High
        }
    }
}

/// How many byte values each class holds, by class index, counted from [`Class::of`].
fn tally() -> (r: [u16; 7])
    ensures
        forall|i: int| 0 <= i < 7 ==> #[trigger] r[i] == count_below(class_at(i), 256),
{
    let mut n = [0u16; 7];
    let mut b: u16 = 0;
    while b < 256
        invariant
            b <= 256,
            forall|i: int| 0 <= i < 7 ==> #[trigger] n[i] == count_below(class_at(i), b as int),
            forall|i: int| 0 <= i < 7 ==> #[trigger] n[i] <= b,
        decreases 256 - b,
    {
        let c = Class::of(b as u8).index();
        proof {
            assert forall|i: int| 0 <= i < 7 implies class_at(i) == class_of(b as u8) <==> i == c by {
            }
        }
        n[c] = n[c] + 1;
        b += 1;
    }
    n
}

/// The class whose row is `i`.
pub open spec fn class_at(i: int) -> Class {
    if i == 0 {
        Class::Space
    } else if i == 1 {
        Class::Break
    } else if i == 2 {
        Class::Lower
    } else if i == 3 {
        Class::Upper
    } else if i == 4 {
        Class::Digit
    } else if i == 5 {
        Class::Punct
    } else {
        Class::High
    }
}

/// How many of the 256 byte values `class` holds, counted from [`Class::of`] so the
/// spread inside a class can never disagree with the classifier.
pub fn member_count(class: Class) -> (r: u16)
    ensures
        r == members_spec(class),
{
    let counts = tally();
    let i = class.index();
    proof {
        assert(class_at(i as int) == class);
    }
    counts[i]
}

/// The classes partition the byte values: every byte value falls into exactly one, so
/// their member counts sum to 256.
pub proof fn lemma_classes_partition_bytes(n: int)
    requires
        0 <= n <= 256,
    ensures
        count_below(Class::Space, n) + count_below(Class::Break, n) + count_below(Class::Lower, n)
            + count_below(Class::Upper, n) + count_below(Class::Digit, n) + count_below(
            Class::Punct,
            n,
        ) + count_below(Class::High, n) == n,
    decreases n,
{
    if n > 0 {
        lemma_classes_partition_bytes(n - 1);
    }
}

/// Across a run of byte values that all fall into `k`, only `k`'s count grows, by the
/// run's length.
proof fn lemma_count_run(lo: int, hi: int, k: Class)
    requires
        0 <= lo <= hi <= 256,
        forall|b: int| lo <= b < hi ==> #[trigger] class_of(b as u8) == k,
    ensures
        forall|c: Class|
            #[trigger] count_below(c, hi) == count_below(c, lo) + (if c == k {
                hi - lo
            } else {
                0
            }),
    decreases hi - lo,
{
    if hi > lo {
        lemma_count_run(lo, hi - 1, k);
        assert(class_of((hi - 1) as u8) == k);
        assert forall|c: Class| #[trigger] count_below(c, hi) == count_below(c, lo) + (if c == k {
            hi - lo
        } else {
            0
        }) by {
            assert(count_below(c, hi) == count_below(c, hi - 1) + (if class_of((hi - 1) as u8) == c {
                1nat
            } else {
                0nat
            }));
            assert(count_below(c, hi - 1) == count_below(c, lo) + (if c == k {
                hi - 1 - lo
            } else {
                0
            }));
        }
    }
}

/// Every class holds at least one byte value: two spaces, two breaks, twenty-six of each
/// letter case, ten digits, thirty-two punctuation marks, and the remaining 158.
pub proof fn lemma_every_class_is_inhabited()
    ensures
        members_spec(Class::Space) == 2,
        members_spec(Class::Break) == 2,
        members_spec(Class::Lower) == 26,
        members_spec(Class::Upper) == 26,
        members_spec(Class::Digit) == 10,
        members_spec(Class::Punct) == 32,
        members_spec(Class::High) == 158,
{
    assert(forall|c: Class| #[trigger] count_below(c, 0) == 0);
    lemma_count_run(0x00, 0x009, Class::High);
    lemma_count_run(0x09, 0x00a, Class::Space);
    lemma_count_run(0x0a, 0x00b, Class::Break);
    lemma_count_run(0x0b, 0x00d, Class::High);
    lemma_count_run(0x0d, 0x00e, Class::Break);
    lemma_count_run(0x0e, 0x020, Class::High);
    lemma_count_run(0x20, 0x021, Class::Space);
    lemma_count_run(0x21, 0x030, Class::Punct);
    lemma_count_run(0x30, 0x03a, Class::Digit);
    lemma_count_run(0x3a, 0x041, Class::Punct);
    lemma_count_run(0x41, 0x05b, Class::Upper);
    lemma_count_run(0x5b, 0x061, Class::Punct);
    lemma_count_run(0x61, 0x07b, Class::Lower);
    lemma_count_run(0x7b, 0x07f, Class::Punct);
    lemma_count_run(0x7f, 0x100, Class::High);
}

/// The classes are the ASCII character categories: the lower-case letters `a`..=`z` and
/// nothing else are `Lower`, the capitals `A`..=`Z` are `Upper`, the digits `0`..=`9`
/// are `Digit`, space and tab are `Space`, line feed and carriage return are `Break`,
/// every other printable ASCII character (`!`..=`~` that is neither a letter nor a digit)
/// is `Punct`, and the rest (the other control bytes, `DEL` and every byte from `0x80`)
/// are `High`. [`Class::of`] returns `class_of`.
pub proof fn lemma_classes_are_the_ascii_categories(b: u8)
    ensures
        (class_of(b) == Class::Lower) <==> (0x61 <= b && b <= 0x7a),
        (class_of(b) == Class::Upper) <==> (0x41 <= b && b <= 0x5a),
        (class_of(b) == Class::Digit) <==> (0x30 <= b && b <= 0x39),
        (class_of(b) == Class::Space) <==> (b == 0x20 || b == 0x09),
        (class_of(b) == Class::Break) <==> (b == 0x0a || b == 0x0d),
        (class_of(b) == Class::Punct) <==> (0x21 <= b && b <= 0x7e && !(0x61 <= b && b <= 0x7a)
            && !(0x41 <= b && b <= 0x5a) && !(0x30 <= b && b <= 0x39)),
        (class_of(b) == Class::High) <==> (b >= 0x7f || (b < 0x20 && b != 0x09 && b != 0x0a && b
            != 0x0d)),
{
}

/// Which byte distribution an arming decision is priced under.
#[derive(Debug, Clone, Copy, PartialEq, Eq, Structural)]
pub enum Prior {
    /// Uniform random bytes, drawn independently.
    Uniform,
    /// Source-text class shares, drawn independently: the memoryless model the
    /// persistence matrix supersedes.
    Text,
    /// Source text as a first-order chain.
    Source,
    /// English literary prose.
    Prose,
    /// Machine-generated JSON, where every class persists and none is rare.
    Json,
    /// Production service logs.
    Log,
}

impl Prior {
    /// Every prior an arming decision consults. The decision is the worst case over this
    /// set, so adding one can only make it stricter.
    pub fn all() -> (r: [Prior; 6])
        ensures
            r[0] == Prior::Uniform,
            r[1] == Prior::Text,
            r[2] == Prior::Source,
            r[3] == Prior::Prose,
            r[4] == Prior::Json,
            r[5] == Prior::Log,
    {
        [Prior::Uniform, Prior::Text, Prior::Source, Prior::Prose, Prior::Json, Prior::Log]
    }
}

} // verus!
