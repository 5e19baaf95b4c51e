//! Rotating the rings of a matrix anticlockwise.

use crate::algorithm::spiral_data::{
    lemma_cell_on_ring, lemma_ring_at_inside, place_of, ring_at, ring_count, ring_len, ring_of,
    SpiralData,
};
use vstd::prelude::*;

verus! {

/// The number of places a rotation count stands for: the count itself, or,
/// for a negative count, the count taken as an unsigned machine word.
pub open spec fn turns(r: i32) -> int {
    if r >= 0 {
        r as int
    } else {
        usize::MAX + 1 + r
    }
}

/// Number of rows and columns that are read from a matrix given as rows.
pub open spec fn extent(matrix: Seq<Vec<i32>>) -> (int, int) {
    if matrix.len() == 0 || matrix[0]@.len() == 0 {
        (0, 0)
    } else {
        (matrix.len() as int, matrix[0]@.len() as int)
    }
}

/// The cell whose value ends up at `(r, c)` after turning every ring of an
/// `h` by `w` matrix by `shift` places.
pub open spec fn source(h: int, w: int, r: int, c: int, shift: int) -> (int, int) {
    let k = ring_of(h, w, r, c);
    ring_at(h, w, k, (place_of(h, w, r, c) + shift) % ring_len(h, w, k))
}

/// The matrix with every ring turned `r` places anticlockwise.
pub fn matrix_rotation(matrix: &[Vec<i32>], r: i32) -> (rotated: Vec<Vec<i32>>)
    requires
        forall|i: int| 0 <= i < matrix@.len() ==> (#[trigger] matrix@[i])@.len() >= matrix@[0].len(),
    ensures
        rotated@.len() == extent(matrix@).0,
        forall|i: int| 0 <= i < rotated@.len() ==> (#[trigger] rotated@[i])@.len() == extent(
            matrix@,
        ).1,
        forall|i: int, j: int|
            0 <= i < extent(matrix@).0 && 0 <= j < extent(matrix@).1 ==> rotated@[i]@[j]
                == matrix@[source(extent(matrix@).0, extent(matrix@).1, i, j, turns(r)).0]@[source(
                extent(matrix@).0,
                extent(matrix@).1,
                i,
                j,
                turns(r),
            ).1],
{
    let mut rows: Vec<Vec<i32>> = Vec::new();
    let mut i: usize = 0;
    while i < matrix.len()
        invariant
            i <= matrix@.len(),
            rows@.len() == i,
            forall|a: int| 0 <= a < i ==> (#[trigger] rows@[a])@ == matrix@[a]@,
        decreases matrix@.len() - i,
    {
        let line = &matrix[i];
        let mut copy: Vec<i32> = Vec::new();
        let mut j: usize = 0;
        while j < line.len()
            invariant
                j <= line@.len(),
                copy@ == line@.take(j as int),
            decreases line@.len() - j,
        {
            copy.push(line[j]);
            proof {
                assert(copy@ =~= line@.take(j + 1));
            }
            j = j + 1;
        }
        proof {
            assert(line@.take(line@.len() as int) =~= line@);
        }
        rows.push(copy);
        i = i + 1;
    }
    let mut spiral = SpiralData::from_matrix(rows);
    let ghost taken = spiral;
    let shift: usize = if r >= 0 {
        r as usize
    } else {
        usize::MAX - ((-1 - r) as usize)
    };
    spiral.slide(shift);
    let rotated = spiral.to_matrix();
    proof {
        let h = extent(matrix@).0;
        let w = extent(matrix@).1;
        assert(shift == turns(r));
        if matrix@.len() > 0 {
            assert(rows@[0]@ == matrix@[0]@);
        }
        assert(taken.rows() == h);
        assert(taken.cols() == w);
        assert forall|a: int, b: int| 0 <= a < h && 0 <= b < w implies rotated@[a]@[b]
            == matrix@[source(h, w, a, b, turns(r)).0]@[source(h, w, a, b, turns(r)).1] by {
            lemma_cell_on_ring(h, w, a, b);
            let k = ring_of(h, w, a, b);
            let p = place_of(h, w, a, b);
            let q = (p + shift) % ring_len(h, w, k);
            assert(rotated@[a]@[b] == spiral.cell(a, b));
            assert(spiral.layer(k)[p] == taken.layer(k)[q]);
            assert(0 <= q < ring_len(h, w, k)) by (nonlinear_arith)
                requires
                    q == (p + shift) % ring_len(h, w, k),
                    ring_len(h, w, k) > 0,
                    p + shift >= 0,
            ;
            lemma_ring_at_inside(h, w, k, q);
            let from = ring_at(h, w, k, q);
            assert(taken.cell(from.0, from.1) == rows@[from.0]@[from.1]);
            assert(rows@[from.0]@ == matrix@[from.0]@);
        }
    }
    rotated
}

/// The rings of a matrix, outermost first, each listed clockwise from its
/// top-left corner.
pub fn spiral_traversal<T: Copy>(matrix: Vec<Vec<T>>) -> (layers: Vec<Vec<T>>)
    requires
        forall|r: int| 0 <= r < matrix@.len() ==> (#[trigger] matrix@[r])@.len() >= matrix@[0].len(),
    ensures
        matrix@.len() == 0 || matrix@[0]@.len() == 0 ==> layers@.len() == 0,
        matrix@.len() > 0 && matrix@[0]@.len() > 0 ==> layers@.len() == ring_count(
            matrix@.len() as int,
            matrix@[0]@.len() as int,
        ),
        forall|k: int|
            0 <= k < layers@.len() ==> (#[trigger] layers@[k])@.len() == ring_len(
                matrix@.len() as int,
                matrix@[0]@.len() as int,
                k,
            ),
        forall|k: int, i: int|
            0 <= k < layers@.len() && 0 <= i < layers@[k]@.len() ==> #[trigger] layers@[k]@[i]
                == matrix@[ring_at(matrix@.len() as int, matrix@[0]@.len() as int, k, i).0]@[ring_at(
                matrix@.len() as int,
                matrix@[0]@.len() as int,
                k,
                i,
            ).1],
{
    let ghost h = matrix@.len() as int;
    let ghost w = if h > 0 {
        matrix@[0]@.len() as int
    } else {
        0
    };
    let spiral = SpiralData::from_matrix(matrix);
    proof {
        spiral.lemma_layers();
        assert forall|k: int, i: int|
            0 <= k < ring_count(spiral.rows(), spiral.cols()) && 0 <= i < ring_len(
                spiral.rows(),
                spiral.cols(),
                k,
            ) implies #[trigger] spiral.layer(k)[i] == matrix@[ring_at(h, w, k, i).0]@[ring_at(
            h,
            w,
            k,
            i,
        ).1] by {
            lemma_ring_at_inside(h, w, k, i);
            let at = ring_at(h, w, k, i);
            assert(spiral.cell(at.0, at.1) == matrix@[at.0]@[at.1]);
        }
    }
    spiral.into_layers()
}

} // verus!
