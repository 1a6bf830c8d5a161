//! The working tree: which directory entries become candidate paths.

use vstd::prelude::*;
use crate::bytes::compare_bytes;
use vstd::string::StringSliceAdditionalSpecFns;

verus! {

/// The names that are never listed nor entered: ".", "..", ".git",
/// "target", ".idea" and "cmake-build-debug".
pub open spec fn ignored_name(n: Seq<u8>) -> bool {
    n == seq![46u8] || n == seq![46u8, 46u8] || n == seq![46u8, 103u8, 105u8, 116u8] || n
        == seq![116u8, 97u8, 114u8, 103u8, 101u8, 116u8] || n == seq![
        46u8,
        105u8,
        100u8,
        101u8,
        97u8,
    ] || n == seq![
        99u8,
        109u8,
        97u8,
        107u8,
        101u8,
        45u8,
        98u8,
        117u8,
        105u8,
        108u8,
        100u8,
        45u8,
        100u8,
        101u8,
        98u8,
        117u8,
        103u8,
    ]
}

/// What the walk does with one entry of a directory.
#[derive(Clone, Copy, Debug, PartialEq, Eq, Structural)]
pub enum Visit {
    /// An ignored name: neither listed nor entered.
    Skip,
    /// A directory to walk into.
    Descend,
    /// A file to list.
    Keep,
}

/// Whether a directory entry of this name is left out of the walk.
pub fn is_ignored(name: &str) -> (r: bool)
    ensures
        r == ignored_name(name.spec_bytes()),
{
    let n = name.as_bytes();
    let names: Vec<Vec<u8>> = vec![
        vec![46u8],
        vec![46u8, 46u8],
        vec![46u8, 103u8, 105u8, 116u8],
        vec![116u8, 97u8, 114u8, 103u8, 101u8, 116u8],
        vec![46u8, 105u8, 100u8, 101u8, 97u8],
        vec![99u8, 109u8, 97u8, 107u8, 101u8, 45u8, 98u8, 117u8, 105u8, 108u8, 100u8, 45u8, 100u8, 101u8, 98u8, 117u8, 103u8],
    ];
    let ghost spec_names = seq![
        seq![46u8],
        seq![46u8, 46u8],
        seq![46u8, 103u8, 105u8, 116u8],
        seq![116u8, 97u8, 114u8, 103u8, 101u8, 116u8],
        seq![46u8, 105u8, 100u8, 101u8, 97u8],
        seq![99u8, 109u8, 97u8, 107u8, 101u8, 45u8, 98u8, 117u8, 105u8, 108u8, 100u8, 45u8, 100u8, 101u8, 98u8, 117u8, 103u8],
    ];
    assert(names@.len() == 6);
    assert forall|k: int| 0 <= k < 6 implies #[trigger] names@[k]@ == spec_names[k] by {
        assert(names@[k]@ =~= spec_names[k]);
    }
    assert(ignored_name(n@) <==> exists|k: int| 0 <= k < 6 && n@ == #[trigger] spec_names[k]) by {
        if ignored_name(n@) {
            if n@ == spec_names[0] {} else if n@ == spec_names[1] {} else if n@ == spec_names[2] {}
            else if n@ == spec_names[3] {} else if n@ == spec_names[4] {} else {
                assert(n@ == spec_names[5]);
            }
        }
    }
    let mut k: usize = 0;
    while k < names.len()
        invariant
            k <= 6,
            names@.len() == 6,
            forall|j: int| 0 <= j < 6 ==> #[trigger] names@[j]@ == spec_names[j],
            forall|j: int| 0 <= j < k ==> n@ != #[trigger] spec_names[j],
            n@ == name.spec_bytes(),
            ignored_name(n@) <==> exists|j: int| 0 <= j < 6 && n@ == #[trigger] spec_names[j],
        decreases 6 - k,
    {
        if compare_bytes(n, names[k].as_slice()) == 0 {
            assert(n@ == spec_names[k as int]);
            return true;
        }
        k = k + 1;
    }
    false
}

/// What the walk does with an entry of this name, a directory or not.
pub fn visit(name: &str, is_dir: bool) -> (r: Visit)
    ensures
        r == (if ignored_name(name.spec_bytes()) {
            Visit::Skip
        } else if is_dir {
            Visit::Descend
        } else {
            Visit::Keep
        }),
{
    if is_ignored(name) {
        Visit::Skip
    } else if is_dir {
        Visit::Descend
    } else {
        Visit::Keep
    }
}

/// The root of a working tree.
pub struct Workspace {
    pub path: String,
}

impl Workspace {
    pub fn new(path: String) -> (r: Workspace)
        ensures
            r.path@ == path@,
    {
        Workspace { path }
    }

    /// The candidate files: when the root is a directory, the files that the
    /// walk kept, as they came; otherwise the root alone.
    pub fn list_files(&self, root_is_dir: bool, walked: Vec<String>) -> (r: Vec<String>)
        ensures
            root_is_dir ==> r@ == walked@,
            !root_is_dir ==> r@.len() == 1 && r@[0]@ == self.path@,
    {
        if root_is_dir {
            walked
        } else {
            let mut r: Vec<String> = Vec::new();
            r.push(self.path.clone());
            r
        }
    }
}

} // verus!
