//! The bundle's layout: where the executable, its launcher and its
//! libraries go, and what the launcher says.
//!
//! ```text
//! <name>/
//!   bin/<name>                    launcher
//!   lib/                          the flat library directory
//!   original_executable/<name>    the unmodified executable
//! ```
use vstd::prelude::*;
use vstd::string::StringSliceAdditionalSpecFns;
use crate::paths::{base_name, copy_bytes, copy_path, file_name, join};

verus! {

/// `bin`
pub open spec fn bin_dir_name() -> Seq<u8> {
    seq![98u8, 105u8, 110u8]
}

/// `lib`
pub open spec fn lib_dir_name() -> Seq<u8> {
    seq![108u8, 105u8, 98u8]
}

/// `original_executable`
pub open spec fn original_dir_name() -> Seq<u8> {
    seq![
        111u8, 114u8, 105u8, 103u8, 105u8, 110u8, 97u8, 108u8, 95u8, 101u8, 120u8, 101u8, 99u8,
        117u8, 116u8, 97u8, 98u8, 108u8, 101u8,
    ]
}

/// The launcher up to the executable's name. It stops on any error or unset
/// variable, finds its own location, and points the dynamic loader at the
/// sibling `lib` directory.
pub const LAUNCHER_HEAD: &'static str = "#! /usr/bin/env bash\nset -euo pipefail\nHERE=$(dirname $(readlink -f \"$BASH_SOURCE\"))\nPRELOAD=$(readlink -f \"$HERE/../lib\")\nLD_LIBRARY_PATH=\"$PRELOAD\" exec \"$HERE/../original_executable/";

/// The launcher after the executable's name: every argument is forwarded
/// unchanged.
pub const LAUNCHER_TAIL: &'static str = "\" \"$@\"\n";

/// The launcher for an executable named `name`.
pub open spec fn launcher_text(name: Seq<u8>) -> Seq<u8> {
    LAUNCHER_HEAD.spec_bytes() + name + LAUNCHER_TAIL.spec_bytes()
}

/// The paths of one bundle, relative to the working directory.
pub struct Layout {
    pub root: Vec<u8>,
    pub bin_dir: Vec<u8>,
    pub lib_dir: Vec<u8>,
    pub original_dir: Vec<u8>,
    pub launcher: Vec<u8>,
    pub original: Vec<u8>,
}

/// The layout of the bundle of an executable whose file name is `n`.
pub open spec fn layout_of(l: Layout, n: Seq<u8>) -> bool {
    &&& l.root@ == n
    &&& l.bin_dir@ == copy_path(n, bin_dir_name())
    &&& l.lib_dir@ == copy_path(n, lib_dir_name())
    &&& l.original_dir@ == copy_path(n, original_dir_name())
    &&& l.launcher@ == copy_path(l.bin_dir@, n)
    &&& l.original@ == copy_path(l.original_dir@, n)
}

fn append(r: &mut Vec<u8>, s: &[u8])
    ensures
        final(r)@ == old(r)@ + s@,
{
    let ghost start = r@;
    let mut i: usize = 0;
    while i < s.len()
        invariant
            i <= s@.len(),
            r@ == start + s@.take(i as int),
        decreases s.len() - i,
    {
        r.push(s[i]);
        i = i + 1;
        proof {
            assert(r@ =~= start + s@.take(i as int));
        }
    }
    proof {
        assert(s@.take(s@.len() as int) =~= s@);
    }
}

/// The launcher script for an executable whose file name is `name`.
pub fn launcher_script(name: &[u8]) -> (r: Vec<u8>)
    ensures
        r@ == launcher_text(name@),
{
    let mut r: Vec<u8> = Vec::new();
    append(&mut r, LAUNCHER_HEAD.as_bytes());
    append(&mut r, name);
    append(&mut r, LAUNCHER_TAIL.as_bytes());
    proof {
        assert(Seq::<u8>::empty() + LAUNCHER_HEAD.spec_bytes() =~= LAUNCHER_HEAD.spec_bytes());
    }
    r
}

/// The layout of the bundle of `executable`, named after its file name;
/// `None` when the path has no file name, or one too long to hold.
pub fn plan_layout(executable: &[u8]) -> (r: Option<Layout>)
    ensures
        match r {
            Some(l) => base_name(executable@) is Some && layout_of(l, base_name(executable@)->0),
            None => base_name(executable@) is None || base_name(executable@)->0.len()
                >= usize::MAX / 4,
        },
{
    let name = match file_name(executable) {
        None => {
            return None;
        },
        Some(n) => n,
    };
    if name.len() >= usize::MAX / 4 {
        return None;
    }
    let bin: Vec<u8> = vec![98u8, 105u8, 110u8];
    let lib: Vec<u8> = vec![108u8, 105u8, 98u8];
    let orig: Vec<u8> = vec![
        111u8, 114u8, 105u8, 103u8, 105u8, 110u8, 97u8, 108u8, 95u8, 101u8, 120u8, 101u8, 99u8,
        117u8, 116u8, 97u8, 98u8, 108u8, 101u8,
    ];
    proof {
        assert(bin@ =~= bin_dir_name());
        assert(lib@ =~= lib_dir_name());
        assert(orig@ =~= original_dir_name());
    }
    let bin_dir = join(name.as_slice(), bin.as_slice());
    let lib_dir = join(name.as_slice(), lib.as_slice());
    let original_dir = join(name.as_slice(), orig.as_slice());
    proof {
        assert(bin@.len() == 3);
        assert(orig@.len() == 19);
        assert(bin_dir@.len() <= name@.len() + 4);
        assert(original_dir@.len() <= name@.len() + 20);
    }
    let launcher = join(bin_dir.as_slice(), name.as_slice());
    let original = join(original_dir.as_slice(), name.as_slice());
    let root = copy_bytes(name.as_slice());
    Some(Layout { root, bin_dir, lib_dir, original_dir, launcher, original })
}

} // verus!
