//! Coordinate spaces of a world: blocks, chunks (16 x 16 blocks) and
//! regions (32 x 32 chunks).

use vstd::prelude::*;

verus! {

/// Number of chunks along one side of a region.
pub const REGION_CHUNKS: i64 = 32;

/// The region holding chunk coordinate `c` (floored division by 32).
pub open spec fn region_of(c: int) -> int {
    c / 32
}

/// The position of chunk coordinate `c` inside its region, in `0..32`.
pub open spec fn local_of(c: int) -> int {
    c % 32
}

/// The chunk holding block coordinate `b` (floored division by 16).
pub open spec fn chunk_of_block_spec(b: int) -> int {
    b / 16
}

proof fn lemma_floor_of_negative(c: int, m: int, d: int)
    requires
        d > 0,
        m >= 0,
        c == -m - 1,
    ensures
        c / d == -(m / d) - 1,
        c % d == d - 1 - m % d,
{
    let q = m / d;
    let r = m % d;
    assert(m == d * q + r && 0 <= r < d) by (nonlinear_arith)
        requires
            d > 0,
            m >= 0,
            q == m / d,
            r == m % d,
    ;
    assert(c == (-q - 1) * d + (d - 1 - r)) by (nonlinear_arith)
        requires
            m == d * q + r,
            c == -m - 1,
    ;
    vstd::arithmetic::div_mod::lemma_fundamental_div_mod_converse(c, d, -q - 1, d - 1 - r);
}

/// Floored division and remainder of `c` by the positive divisor `d`.
fn floor_div_rem(c: i64, d: i64) -> (r: (i64, i64))
    requires
        1 < d <= REGION_CHUNKS,
    ensures
        r.0 == c as int / d as int,
        r.1 == c as int % d as int,
{
    if c >= 0 {
        let u = c as u64;
        let du = d as u64;
        ((u / du) as i64, (u % du) as i64)
    } else {
        let m = (-(c + 1)) as u64;
        let du = d as u64;
        proof {
            lemma_floor_of_negative(c as int, m as int, d as int);
        }
        (-((m / du) as i64) - 1, d - 1 - (m % du) as i64)
    }
}

/// Splits a chunk coordinate into its position inside its region and the
/// region's coordinate: `(local, region)` with `region * 32 + local == c`
/// and `0 <= local < 32`, for negative coordinates too.
pub fn split(c: i64) -> (r: (i64, i64))
    ensures
        r.0 == local_of(c as int),
        r.1 == region_of(c as int),
        0 <= r.0 < 32,
        r.1 * 32 + r.0 == c,
{
    let (q, m) = floor_div_rem(c, REGION_CHUNKS);
    proof {
        vstd::arithmetic::div_mod::lemma_fundamental_div_mod(c as int, 32);
    }
    (m, q)
}

/// The chunk coordinate holding block coordinate `b`.
pub fn chunk_of_block(b: i64) -> (r: i64)
    ensures
        r == chunk_of_block_spec(b as int),
{
    floor_div_rem(b, 16).0
}

/// The region coordinate holding chunk coordinate `c`.
pub fn region_of_chunk(c: i64) -> (r: i64)
    ensures
        r == region_of(c as int),
{
    split(c).1
}

/// A chunk's coordinate: `x` and `z` span the map, `y` is carried along.
#[derive(Clone, Copy, Debug, PartialEq, Eq)]
pub struct Coord {
    pub x: i64,
    pub y: i64,
    pub z: i64,
}

impl Coord {
    pub fn new(x: i64, y: i64, z: i64) -> (r: Coord)
        ensures
            r.x == x,
            r.y == y,
            r.z == z,
    {
        Coord { x, y, z }
    }

    /// The chunk coordinate that holds block coordinate `self`.
    pub fn chunk_of_block(&self) -> (r: Coord)
        ensures
            r.x == chunk_of_block_spec(self.x as int),
            r.y == self.y,
            r.z == chunk_of_block_spec(self.z as int),
    {
        Coord { x: chunk_of_block(self.x), y: self.y, z: chunk_of_block(self.z) }
    }

    /// Splits a chunk coordinate into the slot inside its region and the
    /// region's coordinate, each with `y` kept.
    pub fn split(&self) -> (r: (Coord, Coord))
        ensures
            r.0.x == local_of(self.x as int),
            r.0.z == local_of(self.z as int),
            r.1.x == region_of(self.x as int),
            r.1.z == region_of(self.z as int),
            r.0.y == self.y,
            r.1.y == self.y,
    {
        let (lx, rx) = split(self.x);
        let (lz, rz) = split(self.z);
        (Coord { x: lx, y: self.y, z: lz }, Coord { x: rx, y: self.y, z: rz })
    }
}

/// Splitting a chunk coordinate gives a slot in `0..32` and a region that,
/// scaled back by 32 and added to the slot, give the coordinate again; and a
/// region with a slot in `0..32` is split back into that region and slot.
pub proof fn lemma_split_round_trip(c: int, region: int, local: int)
    ensures
        0 <= local_of(c) < 32,
        region_of(c) * 32 + local_of(c) == c,
        0 <= local < 32 ==> region_of(region * 32 + local) == region && local_of(region * 32
            + local) == local,
{
    vstd::arithmetic::div_mod::lemma_fundamental_div_mod(c, 32);
    if 0 <= local < 32 {
        vstd::arithmetic::div_mod::lemma_fundamental_div_mod_converse(
            region * 32 + local,
            32,
            region,
            local,
        );
    }
}

} // verus!
