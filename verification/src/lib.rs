//! A minimal peer-to-peer file distribution library: a tracker keeps a roster
//! of peers, and peers exchange fixed-size packets of a shared file until every
//! peer holds a complete copy. This crate holds the verified core: the packet
//! store with its availability bitmap, the wire codec, the tracker state, and
//! the seed/leech decision logic. Network and file I/O live outside it.

pub mod bitmap;
pub mod client;
pub mod codec;
pub mod requests;
pub mod server;
pub mod torrent_file;

use vstd::prelude::*;

verus! {

/// Ceiling of `a / b` over the mathematical integers.
pub open spec fn div_ceil(a: int, b: int) -> int
    recommends
        b > 0,
{
    (a + b - 1) / b
}

/// Returns ceil(a/b).
///
/// Currently stable Rust offers no straightforward integer ceil division.
pub fn div_usize_ceil(a: usize, b: usize) -> (r: usize)
    requires
        b > 0,
    ensures
        r == div_ceil(a as int, b as int),
{
    let floor: usize = a / b;
    proof {
        assert(0 <= (a as int / b as int) * b as int <= a as int && a as int / b as int <= (a as int
            / b as int) * b as int) by (nonlinear_arith)
            requires
                b > 0,
                a >= 0,
        ;
    }
    if floor * b < a {
        proof {
            lemma_div_ceil_bump(a as int, b as int);
        }
        floor + 1
    } else {
        proof {
            lemma_div_ceil_exact(a as int, b as int);
        }
        floor
    }
}

/// When the division leaves a remainder, the ceiling is one more than the floor.
proof fn lemma_div_ceil_bump(a: int, b: int)
    requires
        b > 0,
        0 <= a,
        (a / b) * b < a,
    ensures
        div_ceil(a, b) == a / b + 1,
{
    assert(div_ceil(a, b) == a / b + 1) by (nonlinear_arith)
        requires
            b > 0,
            0 <= a,
            (a / b) * b < a,
    ;
}

/// When the division is exact, the ceiling equals the floor.
proof fn lemma_div_ceil_exact(a: int, b: int)
    requires
        b > 0,
        0 <= a,
        (a / b) * b >= a,
    ensures
        div_ceil(a, b) == a / b,
{
    assert(div_ceil(a, b) == a / b) by (nonlinear_arith)
        requires
            b > 0,
            0 <= a,
            (a / b) * b >= a,
    ;
}

} // verus!
