//! How many squares a queen attacks on a board with obstacles.

use vstd::prelude::*;

verus! {

/// The eight directions a queen moves in. North is towards higher rows,
/// east towards higher columns.
pub enum Direction {
    North,
    NorthEast,
    East,
    SouthEast,
    South,
    SouthWest,
    West,
    NorthWest,
}

/// The smaller of two numbers.
pub open spec fn lesser(a: int, b: int) -> int {
    if a <= b {
        a
    } else {
        b
    }
}

/// How many squares lie between the queen at `(rq, cq)` and the edge of an
/// `n` by `n` board in direction `d`. Rows and columns count from 1.
pub open spec fn edge(d: Direction, n: int, rq: int, cq: int) -> int {
    match d {
        Direction::North => n - rq,
        Direction::NorthEast => lesser(n - rq, n - cq),
        Direction::East => n - cq,
        Direction::SouthEast => lesser(rq - 1, n - cq),
        Direction::South => rq - 1,
        Direction::SouthWest => lesser(rq - 1, cq - 1),
        Direction::West => cq - 1,
        Direction::NorthWest => lesser(n - rq, cq - 1),
    }
}

/// The number of steps from the queen at `(rq, cq)` to the square `(r, c)`
/// in direction `d`, if the square lies in that direction.
pub open spec fn steps(d: Direction, rq: int, cq: int, r: int, c: int) -> Option<int> {
    match d {
        Direction::North => if c == cq && r > rq {
            Some(r - rq)
        } else {
            None
        },
        Direction::NorthEast => if r > rq && c > cq && r - rq == c - cq {
            Some(r - rq)
        } else {
            None
        },
        Direction::East => if r == rq && c > cq {
            Some(c - cq)
        } else {
            None
        },
        Direction::SouthEast => if r < rq && c > cq && rq - r == c - cq {
            Some(rq - r)
        } else {
            None
        },
        Direction::South => if c == cq && r < rq {
            Some(rq - r)
        } else {
            None
        },
        Direction::SouthWest => if r < rq && c < cq && rq - r == cq - c {
            Some(rq - r)
        } else {
            None
        },
        Direction::West => if r == rq && c < cq {
            Some(cq - c)
        } else {
            None
        },
        Direction::NorthWest => if r > rq && c < cq && r - rq == cq - c {
            Some(r - rq)
        } else {
            None
        },
    }
}

/// How far the queen can move in direction `d`: up to the edge of the
/// board, or up to the square before the nearest obstacle in her way.
pub open spec fn reach(d: Direction, n: int, rq: int, cq: int, obstacles: Seq<Vec<i32>>) -> int
    decreases obstacles.len(),
{
    if obstacles.len() == 0 {
        edge(d, n, rq, cq)
    } else {
        let rest = reach(d, n, rq, cq, obstacles.drop_last());
        match steps(d, rq, cq, obstacles.last()@[0] as int, obstacles.last()@[1] as int) {
            Some(t) => lesser(rest, t - 1),
            None => rest,
        }
    }
}

/// The number of squares the queen attacks.
pub open spec fn attacked(n: int, rq: int, cq: int, obstacles: Seq<Vec<i32>>) -> int {
    if n <= 1 {
        0
    } else {
        reach(Direction::North, n, rq, cq, obstacles) + reach(
            Direction::NorthEast,
            n,
            rq,
            cq,
            obstacles,
        ) + reach(Direction::East, n, rq, cq, obstacles) + reach(
            Direction::SouthEast,
            n,
            rq,
            cq,
            obstacles,
        ) + reach(Direction::South, n, rq, cq, obstacles) + reach(
            Direction::SouthWest,
            n,
            rq,
            cq,
            obstacles,
        ) + reach(Direction::West, n, rq, cq, obstacles) + reach(
            Direction::NorthWest,
            n,
            rq,
            cq,
            obstacles,
        )
    }
}

/// Every obstacle has a row and a column.
pub open spec fn placed(obstacles: Seq<Vec<i32>>) -> bool {
    forall|i: int| 0 <= i < obstacles.len() ==> (#[trigger] obstacles[i])@.len() >= 2
}

/// The reach in a direction is at most the way to the edge and stops short
/// of every obstacle in that direction; and it is either the way to the
/// edge or ends right before an obstacle.
pub proof fn lemma_reach_is_nearest(
    d: Direction,
    n: int,
    rq: int,
    cq: int,
    obstacles: Seq<Vec<i32>>,
)
    ensures
        reach(d, n, rq, cq, obstacles) <= edge(d, n, rq, cq),
        forall|i: int|
            0 <= i < obstacles.len() ==> (#[trigger] steps(
                d,
                rq,
                cq,
                obstacles[i]@[0] as int,
                obstacles[i]@[1] as int,
            ) matches Some(t) ==> reach(d, n, rq, cq, obstacles) < t),
        reach(d, n, rq, cq, obstacles) == edge(d, n, rq, cq) || exists|i: int|
            0 <= i < obstacles.len() && #[trigger] steps(
                d,
                rq,
                cq,
                obstacles[i]@[0] as int,
                obstacles[i]@[1] as int,
            ) == Some(reach(d, n, rq, cq, obstacles) + 1),
    decreases obstacles.len(),
{
    if obstacles.len() > 0 {
        let rest = obstacles.drop_last();
        let last = obstacles.len() - 1;
        lemma_reach_is_nearest(d, n, rq, cq, rest);
        assert(obstacles.last() == obstacles[last]);
        assert forall|i: int| 0 <= i < obstacles.len() implies (#[trigger] steps(
            d,
            rq,
            cq,
            obstacles[i]@[0] as int,
            obstacles[i]@[1] as int,
        ) matches Some(t) ==> reach(d, n, rq, cq, obstacles) < t) by {
            if i < last {
                assert(rest[i] == obstacles[i]);
            }
        }
        let here = reach(d, n, rq, cq, obstacles);
        if here != edge(d, n, rq, cq) {
            if here == reach(d, n, rq, cq, rest) {
                let i = choose|i: int|
                    0 <= i < rest.len() && #[trigger] steps(
                        d,
                        rq,
                        cq,
                        rest[i]@[0] as int,
                        rest[i]@[1] as int,
                    ) == Some(reach(d, n, rq, cq, rest) + 1);
                assert(rest[i] == obstacles[i]);
                assert(steps(d, rq, cq, obstacles[i]@[0] as int, obstacles[i]@[1] as int)
                    == Some(here + 1));
            } else {
                assert(steps(d, rq, cq, obstacles[last]@[0] as int, obstacles[last]@[1] as int)
                    == Some(here + 1));
            }
        }
    }
}

/// The number of squares that a queen at row `r_q`, column `c_q` of an
/// `n` by `n` board attacks, with obstacles given as `[row, column]`.
pub fn queens_attack(n: i32, _k: i32, r_q: i32, c_q: i32, obstacles: &[Vec<i32>]) -> (squares: i32)
    requires
        placed(obstacles@),
        i32::MIN <= attacked(n as int, r_q as int, c_q as int, obstacles@) <= i32::MAX,
    ensures
        squares == attacked(n as int, r_q as int, c_q as int, obstacles@),
{
    if n <= 1 {
        return 0;
    }
    let size = n as i64;
    let rq = r_q as i64;
    let cq = c_q as i64;
    let mut north: i64 = size - rq;
    let mut north_east: i64 = if size - rq <= size - cq {
        size - rq
    } else {
        size - cq
    };
    let mut east: i64 = size - cq;
    let mut south_east: i64 = if rq - 1 <= size - cq {
        rq - 1
    } else {
        size - cq
    };
    let mut south: i64 = rq - 1;
    let mut south_west: i64 = if rq - 1 <= cq - 1 {
        rq - 1
    } else {
        cq - 1
    };
    let mut west: i64 = cq - 1;
    let mut north_west: i64 = if size - rq <= cq - 1 {
        size - rq
    } else {
        cq - 1
    };
    let ghost nn = n as int;
    let ghost qr = r_q as int;
    let ghost qc = c_q as int;
    proof {
        assert(obstacles@.take(0) =~= Seq::<Vec<i32>>::empty());
    }
    let mut i: usize = 0;
    while i < obstacles.len()
        invariant
            i <= obstacles@.len(),
            placed(obstacles@),
            nn == n,
            qr == r_q,
            qc == c_q,
            rq == r_q,
            cq == c_q,
            -0x2_0000_0000 <= north <= 0x2_0000_0000,
            -0x2_0000_0000 <= north_east <= 0x2_0000_0000,
            -0x2_0000_0000 <= east <= 0x2_0000_0000,
            -0x2_0000_0000 <= south_east <= 0x2_0000_0000,
            -0x2_0000_0000 <= south <= 0x2_0000_0000,
            -0x2_0000_0000 <= south_west <= 0x2_0000_0000,
            -0x2_0000_0000 <= west <= 0x2_0000_0000,
            -0x2_0000_0000 <= north_west <= 0x2_0000_0000,
            north == reach(Direction::North, nn, qr, qc, obstacles@.take(i as int)),
            north_east == reach(Direction::NorthEast, nn, qr, qc, obstacles@.take(i as int)),
            east == reach(Direction::East, nn, qr, qc, obstacles@.take(i as int)),
            south_east == reach(Direction::SouthEast, nn, qr, qc, obstacles@.take(i as int)),
            south == reach(Direction::South, nn, qr, qc, obstacles@.take(i as int)),
            south_west == reach(Direction::SouthWest, nn, qr, qc, obstacles@.take(i as int)),
            west == reach(Direction::West, nn, qr, qc, obstacles@.take(i as int)),
            north_west == reach(Direction::NorthWest, nn, qr, qc, obstacles@.take(i as int)),
        decreases obstacles@.len() - i,
    {
        proof {
            assert(obstacles@.take(i + 1).drop_last() =~= obstacles@.take(i as int));
            assert(obstacles@.take(i + 1).last() == obstacles@[i as int]);
            assert(obstacles@[i as int]@.len() >= 2);
        }
        let obstacle = &obstacles[i];
        let r = obstacle[0] as i64;
        let c = obstacle[1] as i64;
        if r == rq {
            if c > cq {
                if c - cq - 1 < east {
                    east = c - cq - 1;
                }
            } else if c < cq {
                if cq - c - 1 < west {
                    west = cq - c - 1;
                }
            }
        } else {
            let rise = if r >= rq {
                r - rq
            } else {
                rq - r
            };
            let run = if c >= cq {
                c - cq
            } else {
                cq - c
            };
            let same_col = c == cq;
            let is_diag = rise == run;
            if r > rq {
                if same_col {
                    if rise - 1 < north {
                        north = rise - 1;
                    }
                } else if is_diag {
                    if c > cq {
                        if rise - 1 < north_east {
                            north_east = rise - 1;
                        }
                    } else if c < cq {
                        if rise - 1 < north_west {
                            north_west = rise - 1;
                        }
                    }
                }
            } else {
                if same_col {
                    if rise - 1 < south {
                        south = rise - 1;
                    }
                } else if is_diag {
                    if c > cq {
                        if rise - 1 < south_east {
                            south_east = rise - 1;
                        }
                    }
                    if c < cq {
                        if rise - 1 < south_west {
                            south_west = rise - 1;
                        }
                    }
                }
            }
        }
        i = i + 1;
    }
    proof {
        assert(obstacles@.take(obstacles@.len() as int) =~= obstacles@);
    }
    let total = north + north_east + east + south_east + south + south_west + west + north_west;
    total as i32
}

} // verus!
