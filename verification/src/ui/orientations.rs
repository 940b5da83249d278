//! The JSON chunk of a binary gltf (`.glb`) container, where a diceset keeps
//! its face-orientation table.

use vstd::prelude::*;
use vstd::slice::slice_subrange;

verus! {

broadcast use vstd::slice::group_slice_axioms;

/// The magic bytes `glTF` that open a binary container.
pub open spec fn glb_magic() -> Seq<u8> {
    seq![103u8, 108u8, 84u8, 70u8]
}

/// The chunk type of a JSON chunk: the bytes `JSON` read little-endian.
pub const JSON_CHUNK_TYPE: u32 = 0x4E4F_534A;

/// The little-endian `u32` in `bytes[i..i + 4]`.
pub open spec fn le_u32(bytes: Seq<u8>, i: int) -> int {
    bytes[i] + bytes[i + 1] * 256 + bytes[i + 2] * 65536 + bytes[i + 3] * 16777216
}

/// The first chunk of a binary gltf when it is a JSON chunk that lies
/// wholly inside the input: a 12-byte header (magic, version, length), then
/// the chunk's length and type, then its bytes. `None` for anything else.
pub open spec fn spec_gltf_json(bytes: Seq<u8>) -> Option<Seq<u8>> {
    if bytes.len() < 20 || bytes.subrange(0, 4) != glb_magic() {
        None
    } else if le_u32(bytes, 16) != JSON_CHUNK_TYPE {
        None
    } else if 20 + le_u32(bytes, 12) > bytes.len() {
        None
    } else {
        Some(bytes.subrange(20, 20 + le_u32(bytes, 12)))
    }
}

/// Reads the little-endian `u32` at `bytes[i..i + 4]`.
fn read_le_u32(bytes: &[u8], i: usize) -> (value: u32)
    requires
        i + 4 <= bytes@.len(),
    ensures
        value == le_u32(bytes@, i as int),
{
    bytes[i] as u32 + bytes[i + 1] as u32 * 256 + bytes[i + 2] as u32 * 65536 + bytes[i + 3] as u32 * 16777216
}

/// The JSON chunk of a `.glb` container, or `None` when `bytes` is no
/// binary gltf whose first chunk is JSON and fits in the input.
pub fn extract_gltf_json(bytes: &[u8]) -> (json: Option<&[u8]>)
    ensures
        match spec_gltf_json(bytes@) {
            Some(chunk) => json matches Some(j) && j@ == chunk,
            None => json is None,
        },
{
    if bytes.len() < 20 || bytes[0] != 103 || bytes[1] != 108 || bytes[2] != 84 || bytes[3] != 70 {
        proof {
            if bytes@.len() >= 20 {
                assert(bytes@.subrange(0, 4)[0] == bytes@[0]);
                assert(bytes@.subrange(0, 4)[1] == bytes@[1]);
                assert(bytes@.subrange(0, 4)[2] == bytes@[2]);
                assert(bytes@.subrange(0, 4)[3] == bytes@[3]);
            }
        }
        return None;
    }
    assert(bytes@.subrange(0, 4) =~= glb_magic());
    let chunk_length = read_le_u32(bytes, 12);
    let chunk_type = read_le_u32(bytes, 16);
    if chunk_type != JSON_CHUNK_TYPE {
        return None;
    }
    let start: usize = 20;
    let end = match start.checked_add(chunk_length as usize) {
        Some(end) => end,
        None => {
            return None;
        },
    };
    if end > bytes.len() {
        return None;
    }
    Some(slice_subrange(bytes, start, end))
}

} // verus!
