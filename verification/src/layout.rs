//! Deterministic radial layout: `surround` emits points along an outward
//! square spiral in axis-aligned legs, rotating Right, Up, Left, Down and
//! lengthening the legs as the spiral grows. No physics, no collision checks:
//! distinct indices receive distinct, reproducible points.

use vstd::prelude::*;

verus! {

#[derive(Clone, Copy)]
pub enum Dir {
    Right,
    Up,
    Left,
    Down,
}

/// The spiral walker's state: current point, heading, distance left on the
/// current leg, and the leg-length multiplier.
pub ghost struct SpiralState {
    pub pos: (int, int),
    pub dir: Dir,
    pub dist: int,
    pub k: int,
}

/// Vertical step size: horizontal legs move by `r`, vertical ones by this.
pub open spec fn y_step(r: int) -> int {
    if r > 100 {
        (r / 4) * 2
    } else {
        (r / 3) * 2
    }
}

/// One step of the spiral walk: move along the heading; when the current leg
/// is exhausted rotate Right to Up to Left to Down to Right, the multiplier
/// growing on the Up-to-Left and Down-to-Right turns.
pub open spec fn spiral_step(s: SpiralState, r: int) -> SpiralState {
    match s.dir {
        Dir::Right => {
            let p = (s.pos.0 + r, s.pos.1);
            if s.dist == r {
                SpiralState { pos: p, dir: Dir::Up, dist: s.k * r, k: s.k }
            } else {
                SpiralState { pos: p, dir: Dir::Right, dist: s.dist - r, k: s.k }
            }
        },
        Dir::Up => {
            let p = (s.pos.0, s.pos.1 + y_step(r));
            if s.dist == r {
                SpiralState { pos: p, dir: Dir::Left, dist: (s.k + 1) * r, k: s.k + 1 }
            } else {
                SpiralState { pos: p, dir: Dir::Up, dist: s.dist - r, k: s.k }
            }
        },
        Dir::Left => {
            let p = (s.pos.0 - r, s.pos.1);
            if s.dist == r {
                SpiralState { pos: p, dir: Dir::Down, dist: s.k * r, k: s.k }
            } else {
                SpiralState { pos: p, dir: Dir::Left, dist: s.dist - r, k: s.k }
            }
        },
        Dir::Down => {
            let p = (s.pos.0, s.pos.1 - y_step(r));
            if s.dist == r {
                SpiralState { pos: p, dir: Dir::Right, dist: (s.k + 1) * r, k: s.k + 1 }
            } else {
                SpiralState { pos: p, dir: Dir::Down, dist: s.dist - r, k: s.k }
            }
        },
    }
}

/// The walker's state before emitting the point of index `n`.
pub open spec fn spiral_state(c: (int, int), r: int, n: nat) -> SpiralState
    decreases n,
{
    if n == 0 {
        SpiralState { pos: c, dir: Dir::Right, dist: r, k: 1 }
    } else {
        spiral_step(spiral_state(c, r, (n - 1) as nat), r)
    }
}

/// The point of index `n` on the spiral around `c` with leg length `r`.
pub open spec fn spiral_pos(c: (int, int), r: int, n: nat) -> (int, int) {
    spiral_state(c, r, n).pos
}

/// Every spiral point stays within `n` leg lengths of the center.
pub proof fn lemma_spiral_pos_bounds(c: (int, int), r: int, n: nat)
    requires
        r >= 0,
    ensures
        c.0 - n * r <= spiral_pos(c, r, n).0 <= c.0 + n * r,
        c.1 - n * r <= spiral_pos(c, r, n).1 <= c.1 + n * r,
    decreases n,
{
    if n == 0 {
    } else {
        lemma_spiral_pos_bounds(c, r, (n - 1) as nat);
        assert(0 <= y_step(r) <= r);
        assert((n - 1) * r + r == n * r) by (nonlinear_arith);
    }
}

/// Emits `max_len` spiral points starting at `c`: the point of index `i` is
/// exactly `spiral_pos(c, r, i)`, so the placement is fully deterministic.
/// The bounds on `c`, `r` and `max_len` keep every coordinate within `i64`.
pub fn surround(c: (i64, i64), r: i64, max_len: usize) -> (cords: Vec<(i64, i64)>)
    requires
        0 <= r <= 100_000,
        -1_000_000_000 <= c.0 <= 1_000_000_000,
        -1_000_000_000 <= c.1 <= 1_000_000_000,
        max_len <= 1_000_000,
    ensures
        cords@.len() == max_len,
        forall|i: int|
            0 <= i < max_len ==> ((#[trigger] cords@[i]).0 as int, cords@[i].1 as int)
                == spiral_pos((c.0 as int, c.1 as int), r as int, i as nat),
{
    let ghost ci = (c.0 as int, c.1 as int);
    let ghost ri = r as int;
    let mut cords: Vec<(i64, i64)> = Vec::new();
    let mut cx = c.0;
    let mut cy = c.1;
    let mut dir = Dir::Right;
    let mut dist: i64 = r;
    let mut dir_changes: i64 = 1;
    while cords.len() < max_len
        invariant
            0 <= r <= 100_000,
            -1_000_000_000 <= c.0 <= 1_000_000_000,
            -1_000_000_000 <= c.1 <= 1_000_000_000,
            max_len <= 1_000_000,
            ci == (c.0 as int, c.1 as int),
            ri == r as int,
            cords@.len() <= max_len,
            cx as int == spiral_state(ci, ri, cords@.len() as nat).pos.0,
            cy as int == spiral_state(ci, ri, cords@.len() as nat).pos.1,
            dir == spiral_state(ci, ri, cords@.len() as nat).dir,
            dist as int == spiral_state(ci, ri, cords@.len() as nat).dist,
            dir_changes as int == spiral_state(ci, ri, cords@.len() as nat).k,
            1 <= dir_changes <= cords@.len() + 1,
            c.0 - cords@.len() * ri <= cx as int <= c.0 + cords@.len() * ri,
            c.1 - cords@.len() * ri <= cy as int <= c.1 + cords@.len() * ri,
            -((cords@.len() + 1) * ri) <= dist as int <= (cords@.len() + 1) * ri,
            forall|i: int|
                0 <= i < cords@.len() ==> ((#[trigger] cords@[i]).0 as int, cords@[i].1 as int)
                    == spiral_pos(ci, ri, i as nat),
        decreases max_len - cords.len(),
    {
        let ghost n = cords@.len() as int;
        proof {
            assert(n * ri <= 100_000_000_000int && (n + 1) * ri <= 100_000_100_000int && (n + 2)
                * ri <= 100_000_200_000int && 0 <= n * ri && 0 <= (n + 1) * ri && 0 <= (n + 2)
                * ri && (n + 1) * ri == n * ri + ri && (n + 2) * ri == (n + 1) * ri + ri) by (nonlinear_arith)
                requires
                    0 <= n <= 1_000_000,
                    0 <= ri <= 100_000,
            ;
            assert((dir_changes as int) * ri <= (n + 1) * ri && ((dir_changes as int) + 1) * ri <= (
            n + 2) * ri && 0 <= (dir_changes as int) * ri) by (nonlinear_arith)
                requires
                    0 <= ri <= 100_000,
                    1 <= dir_changes as int <= n + 1,
            ;
        }
        cords.push((cx, cy));
        let ystep: i64 = if r > 100 {
            ((r as u64 / 4) * 2) as i64
        } else {
            ((r as u64 / 3) * 2) as i64
        };
        proof {
            assert(ystep as int == y_step(ri));
            assert(0 <= y_step(ri) <= ri);
        }
        match dir {
            Dir::Right => {
                cx = cx + r;
                if dist == r {
                    dir = Dir::Up;
                    dist = dir_changes * r;
                } else {
                    dist = dist - r;
                }
            },
            Dir::Up => {
                cy = cy + ystep;
                if dist == r {
                    dir = Dir::Left;
                    dir_changes = dir_changes + 1;
                    dist = dir_changes * r;
                } else {
                    dist = dist - r;
                }
            },
            Dir::Left => {
                cx = cx - r;
                if dist == r {
                    dir = Dir::Down;
                    dist = dir_changes * r;
                } else {
                    dist = dist - r;
                }
            },
            Dir::Down => {
                cy = cy - ystep;
                if dist == r {
                    dir = Dir::Right;
                    dir_changes = dir_changes + 1;
                    dist = dir_changes * r;
                } else {
                    dist = dist - r;
                }
            },
        }
        proof {
            let st = spiral_state(ci, ri, n as nat);
            assert(spiral_state(ci, ri, (n + 1) as nat) == spiral_step(st, ri));
        }
    }
    cords
}

} // verus!
