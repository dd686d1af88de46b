//! Deciding whether a library may be copied over a file of the same name.
use vstd::prelude::*;

verus! {

/// Whether two byte strings are equal: false at once when their lengths
/// differ, else a comparison byte by byte.
pub fn bytes_equal(x: &[u8], y: &[u8]) -> (r: bool)
    ensures
        r == (x@ == y@),
{
    if x.len() != y.len() {
        return false;
    }
    let mut i: usize = 0;
    while i < x.len()
        invariant
            x@.len() == y@.len(),
            i <= x@.len(),
            forall|k: int| 0 <= k < i ==> x@[k] == y@[k],
        decreases x.len() - i,
    {
        if x[i] != y[i] {
            proof {
                assert(x@[i as int] != y@[i as int]);
            }
            return false;
        }
        i = i + 1;
    }
    proof {
        assert(x@ =~= y@);
    }
    true
}

/// Two files, each given by its contents or by `None` when it does not
/// exist, are compatible when either is missing or both hold the same
/// bytes.
pub open spec fn compatible(a: Option<Seq<u8>>, b: Option<Seq<u8>>) -> bool {
    match (a, b) {
        (Some(x), Some(y)) => x == y,
        _ => true,
    }
}

pub open spec fn contents(f: Option<&[u8]>) -> Option<Seq<u8>> {
    match f {
        Some(x) => Some(x@),
        None => None,
    }
}

/// Whether a library may be copied over a file of the same name: true when
/// either file is missing, false when their sizes differ, and otherwise
/// true exactly when they agree byte for byte.
pub fn are_compatible(a: Option<&[u8]>, b: Option<&[u8]>) -> (r: bool)
    ensures
        r == compatible(contents(a), contents(b)),
        a is None || b is None ==> r,
{
    match (a, b) {
        (Some(x), Some(y)) => bytes_equal(x, y),
        _ => true,
    }
}

} // verus!
