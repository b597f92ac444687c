use vstd::prelude::*;
use vstd::arithmetic::div_mod::lemma_fundamental_div_mod;

verus! {

/// Side length of a cubic chunk, in blocks.
pub const CHUNK_SIZE: u32 = 16;

/// Number of blocks in one chunk.
pub const CHUNK_VOLUME: u32 = 4096;

/// The chunk that a global coordinate falls in, with floor semantics:
/// `-1` lies in chunk `-1`, not in chunk `0`.
pub open spec fn chunk_coord(g: int) -> int {
    g / 16
}

/// The position of a global coordinate within its chunk, always in `[0, 16)`.
pub open spec fn local_coord(g: int) -> int {
    g % 16
}

/// Floor division by the chunk side.
pub fn floor_div_chunk(a: i32) -> (q: i32)
    ensures
        q == chunk_coord(a as int),
{
    match a.checked_div_euclid(16) {
        Some(q) => q,
        None => vstd::pervasive::unreached(),
    }
}

/// Euclidean remainder by the chunk side; the result is a valid local
/// coordinate.
pub fn rem_chunk(a: i32) -> (r: u32)
    ensures
        r == local_coord(a as int),
        r < 16,
{
    match a.checked_rem_euclid(16) {
        Some(r) => r as u32,
        None => vstd::pervasive::unreached(),
    }
}

/// Placing a local coordinate into a chunk and transforming back
/// recovers the chunk and local coordinates: the two transforms are
/// mutually inverse.
pub proof fn lemma_compose_coords(c: int, l: int)
    requires
        0 <= l < 16,
    ensures
        chunk_coord(16 * c + l) == c,
        local_coord(16 * c + l) == l,
{
    vstd::arithmetic::div_mod::lemma_fundamental_div_mod_converse(16 * c + l, 16, c, l);
}

/// The global-to-chunk-local transform loses nothing: scaling the chunk
/// coordinate back up and adding the local coordinate reconstructs the
/// starting global coordinate exactly, negatives included.
pub proof fn lemma_coord_round_trip(g: int)
    ensures
        16 * chunk_coord(g) + local_coord(g) == g,
        0 <= local_coord(g) < 16,
{
    lemma_fundamental_div_mod(g, 16);
}

} // verus!
