//! The cheapest way to turn a 3 by 3 square of numbers into a magic square.

use vstd::prelude::*;

verus! {

/// The eight magic squares of order three, row by row.
pub open spec fn magic_squares() -> Seq<Seq<int>> {
    seq![
        seq![8, 1, 6, 3, 5, 7, 4, 9, 2],
        seq![6, 1, 8, 7, 5, 3, 2, 9, 4],
        seq![4, 9, 2, 3, 5, 7, 8, 1, 6],
        seq![2, 9, 4, 7, 5, 3, 6, 1, 8],
        seq![8, 3, 4, 1, 5, 9, 6, 7, 2],
        seq![4, 3, 8, 9, 5, 1, 2, 7, 6],
        seq![6, 7, 2, 1, 5, 9, 8, 3, 4],
        seq![2, 7, 6, 9, 5, 1, 4, 3, 8],
    ]
}

/// The distance between two numbers.
pub open spec fn gap(a: int, b: int) -> int {
    if a >= b {
        a - b
    } else {
        b - a
    }
}

/// The cost of changing the first `n` cells of `s`, row by row, into those
/// of the magic square `magic`.
pub open spec fn cost(s: Seq<Vec<i32>>, magic: Seq<int>, n: nat) -> int
    decreases n,
{
    if n == 0 {
        0
    } else {
        let cell = (n - 1) as int;
        cost(s, magic, (n - 1) as nat) + gap(s[cell / 3]@[cell % 3] as int, magic[cell])
    }
}

/// The least cost over the first `n` magic squares, starting from the
/// largest representable value.
pub open spec fn least_cost(s: Seq<Vec<i32>>, n: nat) -> int
    decreases n,
{
    if n == 0 {
        i32::MAX as int
    } else {
        let here = cost(s, magic_squares()[n - 1], 9);
        let rest = least_cost(s, (n - 1) as nat);
        if here < rest {
            here
        } else {
            rest
        }
    }
}

/// `s` has three rows of three numbers at least.
pub open spec fn holds_square(s: Seq<Vec<i32>>) -> bool {
    s.len() >= 3 && forall|i: int| 0 <= i < 3 ==> (#[trigger] s[i])@.len() >= 3
}

/// The magic squares, for the machine.
fn squares() -> (table: Vec<Vec<i32>>)
    ensures
        table@.len() == 8,
        forall|k: int| 0 <= k < 8 ==> (#[trigger] table@[k])@.len() == 9,
        forall|k: int, c: int|
            0 <= k < 8 && 0 <= c < 9 ==> (#[trigger] table@[k]@[c]) as int
                == magic_squares()[k][c],
{
    let table = vec![
        vec![8, 1, 6, 3, 5, 7, 4, 9, 2],
        vec![6, 1, 8, 7, 5, 3, 2, 9, 4],
        vec![4, 9, 2, 3, 5, 7, 8, 1, 6],
        vec![2, 9, 4, 7, 5, 3, 6, 1, 8],
        vec![8, 3, 4, 1, 5, 9, 6, 7, 2],
        vec![4, 3, 8, 9, 5, 1, 2, 7, 6],
        vec![6, 7, 2, 1, 5, 9, 8, 3, 4],
        vec![2, 7, 6, 9, 5, 1, 4, 3, 8],
    ];
    table
}

/// The least total change, cell by cell, that turns the top-left 3 by 3
/// block of `s` into a magic square.
pub fn forming_magic_square(s: &[Vec<i32>]) -> (min_cost: i32)
    requires
        holds_square(s@),
    ensures
        min_cost == least_cost(s@, 8),
{
    let magic_squares = squares();
    let mut min_cost: i64 = i32::MAX as i64;
    let mut k: usize = 0;
    while k < 8
        invariant
            k <= 8,
            holds_square(s@),
            magic_squares@.len() == 8,
            forall|a: int| 0 <= a < 8 ==> (#[trigger] magic_squares@[a])@.len() == 9,
            forall|a: int, c: int|
                0 <= a < 8 && 0 <= c < 9 ==> (#[trigger] magic_squares@[a]@[c]) as int
                    == self::magic_squares()[a][c],
            min_cost == least_cost(s@, k as nat),
            0 <= min_cost <= i32::MAX,
        decreases 8 - k,
    {
        let magic_square = &magic_squares[k];
        let ghost magic = self::magic_squares()[k as int];
        let mut total: i64 = 0;
        let mut cell: usize = 0;
        while cell < 9
            invariant
                cell <= 9,
                holds_square(s@),
                magic_square@.len() == 9,
                forall|c: int| 0 <= c < 9 ==> (#[trigger] magic_square@[c]) as int == magic[c],
                forall|c: int| 0 <= c < 9 ==> 1 <= #[trigger] magic[c] <= 9,
                total == cost(s@, magic, cell as nat),
                0 <= total <= cell * 0x1_0000_0000,
            decreases 9 - cell,
        {
            let i = cell / 3;
            let j = cell % 3;
            assert(s@[i as int]@.len() >= 3);
            let have = s[i][j] as i64;
            let want = magic_square[cell] as i64;
            assert(1 <= magic[cell as int] <= 9);
            let change = if have >= want {
                have - want
            } else {
                want - have
            };
            total = total + change;
            cell = cell + 1;
        }
        if total < min_cost {
            min_cost = total;
        }
        k = k + 1;
    }
    min_cost as i32
}

} // verus!
