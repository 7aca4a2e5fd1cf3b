//! The nibble classifier: `lo[b & 0xF] & hi[b >> 4]` is nonzero exactly on the
//! members of an ASCII set.

use vstd::prelude::*;

use super::{is_first, lemma_nibbles, member_spec};

verus! {


/// The first member of the nibble set in `hay`. Every instruction set shares this
/// one meaning; here it is computed by the plain scan.
pub fn find(lo: &[u8; 16], hi: &[u8; 16], hay: &[u8]) -> (r: Option<usize>)
    ensures
        is_first(hay@, r, |b: u8| member_spec(*lo, *hi, b)),
{
    scalar(lo, hi, hay)
}

/// The meaning of the two tables, spelled out once.
pub fn member(lo: &[u8; 16], hi: &[u8; 16], b: u8) -> (r: bool)
    ensures
        r == member_spec(*lo, *hi, b),
{
    proof {
        lemma_nibbles(b);
    }
    lo[(b & 0xF) as usize] & hi[(b >> 4) as usize] != 0
}

/// The first member of the nibble set in `hay`, by a plain scan.
pub fn scalar(lo: &[u8; 16], hi: &[u8; 16], hay: &[u8]) -> (r: Option<usize>)
    ensures
        is_first(hay@, r, |b: u8| member_spec(*lo, *hi, b)),
{
    let mut i: usize = 0;
    while i < hay.len()
        invariant
            i <= hay@.len(),
            forall|j: int| 0 <= j < i ==> !member_spec(*lo, *hi, #[trigger] hay@[j]),
        decreases hay@.len() - i,
    {
        if member(lo, hi, hay[i]) {
            return Some(i);
        }
        i += 1;
    }
    None
}

/// The `hay.len() % step` bytes no whole vector step covers.
pub fn tail(lo: &[u8; 16], hi: &[u8; 16], hay: &[u8], step: usize) -> (r: Option<usize>)
    requires
        step > 0,
    ensures
        ({
            let done = hay@.len() as int - (hay@.len() as int) % (step as int);
            match r {
                Some(i) => {
                    &&& done <= i < hay@.len()
                    &&& member_spec(*lo, *hi, hay@[i as int])
                    &&& forall|j: int| done <= j < i ==> !member_spec(*lo, *hi, #[trigger] hay@[j])
                },
                None => forall|j: int|
                    done <= j < hay@.len() ==> !member_spec(*lo, *hi, #[trigger] hay@[j]),
            }
        }),
{
    assert(hay.len() % step <= hay.len()) by (nonlinear_arith)
        requires
            step > 0,
    ;
    let done = hay.len() - hay.len() % step;
    let rest = &hay[done..hay.len()];
    let found = scalar(lo, hi, rest);
    proof {
        assert forall|j: int| 0 <= j < rest@.len() implies rest@[j] == hay@[done + j] by {}
    }
    match found {
        Some(i) => {
            proof {
                assert forall|j: int| done <= j < done + i implies !member_spec(*lo, *hi, #[trigger] hay@[j]) by {
                    assert(hay@[j] == rest@[j - done]);
                }
            }
            Some(done + i)
        },
        None => {
            proof {
                assert forall|j: int| done <= j < hay@.len() implies !member_spec(*lo, *hi, #[trigger] hay@[j]) by {
                    assert(hay@[j] == rest@[j - done]);
                }
            }
            None
        },
    }
}

} // verus!
