//! A move generator that plays randomly, but still follows the rules:
//! it tries a few random points, then scans the whole board, and passes
//! only when no legal point is left untried.

use vstd::prelude::*;

use rand::RngExt;

use crate::board::Board;
use crate::board::Colour;
use crate::board::Vertex;
use crate::board::play_allowed;
use crate::board::play_post;
use crate::geometry::in_extent;

verus! {

/// Relies on rand's thread-local generator: `random_range` over the
/// inclusive range `1..=size` returns a value within that range. The
/// result depends on the generator's state, so nothing more is claimed
/// of it.
#[verifier::external_body]
fn random_coord(size: usize) -> (r: usize)
    requires
        1 <= size,
    ensures
        1 <= r <= size,
{
    rand::rng().random_range(1..=size)
}

/// Generates and plays a move for the given player: up to ten random
/// tries, then a full scan; passes (changing nothing) when every point
/// of the scan is rejected.
pub fn genmove(goban: &mut Board, player: Colour) -> (v: Vertex)
    requires
        old(goban).wf(),
    ensures
        final(goban).wf(),
        v matches Vertex::Put(vx, vy) ==> in_extent((vx, vy), old(goban).spec_size())
            && play_allowed(*old(goban), player, vx, vy) && play_post(
            *old(goban),
            *final(goban),
            player,
            vx,
            vy,
        ),
        v is Pass ==> *final(goban) == *old(goban) && forall|a: usize, b: usize|
            in_extent((a, b), old(goban).spec_size()) ==> !play_allowed(
                *old(goban),
                player,
                a,
                b,
            ),
{
    let size = goban.get_size();
    proof {
        assert(1 <= size <= 25);
    }
    // try at most 10 random moves
    let mut i: usize = 0;
    while i < 10
        invariant
            *goban == *old(goban),
            old(goban).wf(),
            size == goban.spec_size(),
            1 <= size,
        decreases 10 - i,
    {
        let x = random_coord(size);
        let y = random_coord(size);
        if goban.play(player, x, y) {
            return Vertex::Put(x, y);
        }
        i = i + 1;
    }
    // random failed: try every point in order
    let mut x: usize = 1;
    while x <= size
        invariant
            *goban == *old(goban),
            old(goban).wf(),
            size == goban.spec_size(),
            1 <= size,
            1 <= x,
            forall|a: usize, b: usize|
                1 <= a < x && in_extent((a, b), size) ==> !play_allowed(
                    *old(goban),
                    player,
                    a,
                    b,
                ),
        decreases size + 1 - x,
    {
        let mut y: usize = 1;
        while y <= size
            invariant
                *goban == *old(goban),
                old(goban).wf(),
                size == goban.spec_size(),
                1 <= size,
                1 <= x <= size,
                1 <= y,
                forall|a: usize, b: usize|
                    1 <= a < x && in_extent((a, b), size) ==> !play_allowed(
                        *old(goban),
                        player,
                        a,
                        b,
                    ),
                forall|b: usize|
                    1 <= b < y && b <= size ==> !play_allowed(*old(goban), player, x, b),
        decreases size + 1 - y,
        {
            if goban.play(player, x, y) {
                return Vertex::Put(x, y);
            }
            y = y + 1;
        }
        x = x + 1;
    }
    // no point of the whole sweep was playable
    Vertex::Pass
}

} // verus!
