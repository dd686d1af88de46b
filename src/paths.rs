//! Paths as byte strings: the base name of a resolved path, and where its
//! copy goes in the flat library directory.
use vstd::prelude::*;
use crate::listing::SLASH;

verus! {

/// Where the last component of `p[..i]` starts.
pub open spec fn name_start(p: Seq<u8>, i: int) -> int
    decreases i,
{
    if i <= 0 || i > p.len() {
        0
    } else if p[i - 1] == SLASH {
        i
    } else {
        name_start(p, i - 1)
    }
}

/// The last component of `p`, unless it is empty, `.` or `..`.
pub open spec fn base_name(p: Seq<u8>) -> Option<Seq<u8>> {
    let name = p.subrange(name_start(p, p.len() as int), p.len() as int);
    if name.len() == 0 || name == seq![46u8] || name == seq![46u8, 46u8] {
        None
    } else {
        Some(name)
    }
}

/// The path of the file `name` inside the directory `dir`.
pub open spec fn copy_path(dir: Seq<u8>, name: Seq<u8>) -> Seq<u8> {
    if dir.len() == 0 || dir.last() == SLASH {
        dir + name
    } else {
        dir + seq![SLASH] + name
    }
}

/// The file name of a path: the bytes after its last `/`. A path that ends
/// in `/`, `.` or `..` has none.
pub fn file_name(p: &[u8]) -> (r: Option<Vec<u8>>)
    ensures
        match r {
            Some(n) => base_name(p@) == Some(n@),
            None => base_name(p@) is None,
        },
{
    let mut i: usize = p.len();
    while i > 0 && p[i - 1] != SLASH
        invariant
            i <= p@.len(),
            name_start(p@, p@.len() as int) == name_start(p@, i as int),
        decreases i,
    {
        i = i - 1;
    }
    let mut name: Vec<u8> = Vec::new();
    let mut k: usize = i;
    while k < p.len()
        invariant
            i <= k <= p@.len(),
            name@ == p@.subrange(i as int, k as int),
        decreases p.len() - k,
    {
        name.push(p[k]);
        k = k + 1;
    }
    let n = name.len();
    if n == 0 || (n == 1 && name[0] == 46u8) || (n == 2 && name[0] == 46u8 && name[1] == 46u8) {
        proof {
            if n == 1 {
                assert(name@ =~= seq![46u8]);
            }
            if n == 2 {
                assert(name@ =~= seq![46u8, 46u8]);
            }
        }
        None
    } else {
        proof {
            if name@ == seq![46u8] {
                assert(name@[0] == 46u8);
            }
            if name@ == seq![46u8, 46u8] {
                assert(name@[0] == 46u8 && name@[1] == 46u8);
            }
        }
        Some(name)
    }
}

/// A fresh copy of a byte string.
pub fn copy_bytes(v: &[u8]) -> (r: Vec<u8>)
    ensures
        r@ == v@,
{
    let mut r: Vec<u8> = Vec::new();
    let mut i: usize = 0;
    while i < v.len()
        invariant
            i <= v@.len(),
            r@ == v@.take(i as int),
        decreases v.len() - i,
    {
        r.push(v[i]);
        i = i + 1;
        proof {
            assert(r@ =~= v@.take(i as int));
        }
    }
    proof {
        assert(v@.take(v@.len() as int) =~= v@);
    }
    r
}

/// The path of the copy of `name` in the directory `dir`.
pub fn join(dir: &[u8], name: &[u8]) -> (r: Vec<u8>)
    requires
        dir@.len() + name@.len() + 1 <= usize::MAX,
    ensures
        r@ == copy_path(dir@, name@),
{
    let mut r: Vec<u8> = Vec::new();
    let mut i: usize = 0;
    while i < dir.len()
        invariant
            i <= dir@.len(),
            r@ == dir@.take(i as int),
        decreases dir.len() - i,
    {
        r.push(dir[i]);
        i = i + 1;
        proof {
            assert(r@ =~= dir@.take(i as int));
        }
    }
    proof {
        assert(dir@.take(dir@.len() as int) =~= dir@);
    }
    if dir.len() > 0 && dir[dir.len() - 1] != SLASH {
        r.push(SLASH);
    }
    let ghost base = r@;
    let mut j: usize = 0;
    while j < name.len()
        invariant
            j <= name@.len(),
            r@ == base + name@.take(j as int),
        decreases name.len() - j,
    {
        r.push(name[j]);
        j = j + 1;
        proof {
            assert(r@ =~= base + name@.take(j as int));
        }
    }
    proof {
        assert(name@.take(name@.len() as int) =~= name@);
    }
    r
}

} // verus!
