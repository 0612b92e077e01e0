//! The arcade cabinet: the tiles its screen protocol names, drawn in
//! (x, y, tile) output triples, and the count of blocks on the screen
//! a finished game leaves.

use crate::intcode::{init_state, started, stop_state, VM};
use vstd::prelude::*;

verus! {

/// One screen tile.
#[derive(Debug, Clone, Copy, PartialEq, Eq, Structural)]
pub enum Tile {
    Empty,
    Wall,
    Block,
    Paddle,
    Ball,
}

/// The tile a protocol value names.
pub open spec fn tile_of(i: i64) -> Tile {
    if i == 0 {
        Tile::Empty
    } else if i == 1 {
        Tile::Wall
    } else if i == 2 {
        Tile::Block
    } else if i == 3 {
        Tile::Paddle
    } else {
        Tile::Ball
    }
}

impl Tile {
    /// The tile a protocol value names. Meaningful for 0 through 4.
    pub fn from(i: i64) -> (r: Tile)
        requires
            0 <= i <= 4,
        ensures
            r == tile_of(i),
    {
        match i {
            0 => Tile::Empty,
            1 => Tile::Wall,
            2 => Tile::Block,
            3 => Tile::Paddle,
            _ => Tile::Ball,
        }
    }
}

/// Output triple `i`: an x, a y, and a tile value.
pub open spec fn tri(outs: Seq<i64>, i: int) -> (i64, i64, i64) {
    (outs[3 * i], outs[3 * i + 1], outs[3 * i + 2])
}

/// Whether triple `i` is the last one drawn at its cell.
pub open spec fn last_draw(outs: Seq<i64>, i: int) -> bool {
    forall|j: int|
        i < j < outs.len() / 3 ==> ((#[trigger] tri(outs, j)).0, tri(outs, j).1) != (
            tri(outs, i).0,
            tri(outs, i).1,
        )
}

/// How many of the first `k` triples leave a block on their cell.
pub open spec fn blocks_upto(outs: Seq<i64>, k: int) -> int
    decreases k,
{
    if k <= 0 {
        0
    } else {
        blocks_upto(outs, k - 1) + if last_draw(outs, k - 1) && tri(outs, k - 1).2 == 2 {
            1int
        } else {
            0int
        }
    }
}

/// Runs the game program and counts the block tiles left on the
/// screen: the cells whose last draw is a block.
pub fn solve_01(mem: &[i64]) -> (r: usize)
    ensures
        ({
            let outs = stop_state(started(init_state(mem@))).output;
            r == blocks_upto(outs, outs.len() as int / 3)
        }),
{
    let mut vm = VM::new(mem);
    vm.run();
    let outs = vm.outputs();
    let n = outs.len();
    let nt = n / 3;
    proof {
        assert(3 * (nt as int) <= n as int) by (nonlinear_arith)
            requires
                nt == n as int / 3,
        ;
    }
    let mut cnt: usize = 0;
    let mut i: usize = 0;
    while i < nt
        invariant
            i <= nt,
            n == outs@.len(),
            nt == n as int / 3,
            3 * (nt as int) <= n as int,
            cnt == blocks_upto(outs@, i as int),
            cnt <= i,
        decreases nt - i,
    {
        let x = outs[3 * i];
        let y = outs[3 * i + 1];
        let t = outs[3 * i + 2];
        let mut covered = false;
        let mut j = i + 1;
        while j < nt
            invariant
                i < j <= nt,
                n == outs@.len(),
                nt == n as int / 3,
                3 * (nt as int) <= n as int,
                x == tri(outs@, i as int).0,
                y == tri(outs@, i as int).1,
                covered == exists|u: int|
                    i < u < j && ((#[trigger] tri(outs@, u)).0, tri(outs@, u).1) == (
                        tri(outs@, i as int).0,
                        tri(outs@, i as int).1,
                    ),
            decreases nt - j + if covered {
                0int
            } else {
                1int
            },
        {
            if outs[3 * j] == x && outs[3 * j + 1] == y {
                proof {
                    assert((tri(outs@, j as int).0, tri(outs@, j as int).1) == (
                        tri(outs@, i as int).0,
                        tri(outs@, i as int).1,
                    ));
                }
                covered = true;
                j = nt;
            } else {
                proof {
                    assert((tri(outs@, j as int).0, tri(outs@, j as int).1) != (
                        tri(outs@, i as int).0,
                        tri(outs@, i as int).1,
                    ));
                }
                j = j + 1;
            }
        }
        proof {
            assert(covered == !last_draw(outs@, i as int));
            assert(t == tri(outs@, i as int).2);
        }
        if !covered && t == 2 {
            cnt = cnt + 1;
        }
        i = i + 1;
    }
    cnt
}

} // verus!
