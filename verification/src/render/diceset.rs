//! Where a custom diceset's gltf lives.

use vstd::prelude::*;
use vstd::string::{StringExecFns, StringSliceAdditionalSpecFns};

verus! {

broadcast use vstd::slice::group_slice_axioms;

/// The UTF-8 bytes of `.glb`.
pub open spec fn glb_suffix() -> Seq<u8> {
    seq![46u8, 103u8, 108u8, 98u8]
}

/// The UTF-8 bytes of `.gltf`.
pub open spec fn gltf_suffix() -> Seq<u8> {
    seq![46u8, 103u8, 108u8, 116u8, 102u8]
}

/// `bytes` ends with `suffix`.
pub open spec fn ends_with(bytes: Seq<u8>, suffix: Seq<u8>) -> bool {
    bytes.len() >= suffix.len() && bytes.subrange(bytes.len() - suffix.len(), bytes.len() as int) == suffix
}

/// Whether the last bytes of `bytes` are those of `suffix`.
fn bytes_end_with(bytes: &[u8], suffix: &[u8]) -> (found: bool)
    ensures
        found == ends_with(bytes@, suffix@),
{
    let n = bytes.len();
    let m = suffix.len();
    if n < m {
        return false;
    }
    let start = n - m;
    let mut i: usize = 0;
    while i < m
        invariant
            n == bytes@.len(),
            m == suffix@.len(),
            n >= m,
            start == n - m,
            i <= m,
            forall|j: int| 0 <= j < i ==> bytes@[start + j] == suffix@[j],
        decreases m - i,
    {
        if bytes[start + i] != suffix[i] {
            assert(bytes@.subrange(start as int, bytes@.len() as int)[i as int] != suffix@[i as int]);
            return false;
        }
        i = i + 1;
    }
    assert(bytes@.subrange(start as int, bytes@.len() as int) =~= suffix@);
    true
}

/// The asset path of a custom diceset: `path` itself when it names a
/// `.glb` or `.gltf` file, otherwise `path` with `.glb` appended.
pub fn custom_asset_path(path: &str) -> (asset_path: String)
    ensures
        ends_with(path.spec_bytes(), glb_suffix()) || ends_with(path.spec_bytes(), gltf_suffix()) ==> asset_path@
            == path@,
        !(ends_with(path.spec_bytes(), glb_suffix()) || ends_with(path.spec_bytes(), gltf_suffix()))
            ==> asset_path@ == path@ + ".glb"@,
{
    let glb: [u8; 4] = [46, 103, 108, 98];
    let gltf: [u8; 5] = [46, 103, 108, 116, 102];
    assert(glb@ =~= glb_suffix());
    assert(gltf@ =~= gltf_suffix());
    let bytes = path.as_bytes();
    let mut asset_path = String::from_str(path);
    if !bytes_end_with(bytes, glb.as_slice()) && !bytes_end_with(bytes, gltf.as_slice()) {
        asset_path.append(".glb");
    }
    asset_path
}

} // verus!
