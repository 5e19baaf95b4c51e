//! A matrix held as its concentric rings, each ring listed clockwise from
//! its top-left corner.

use vstd::prelude::*;

verus! {

/// Number of rings of a matrix with `h` rows and `w` columns.
pub open spec fn ring_count(h: int, w: int) -> int {
    if h <= 0 || w <= 0 {
        0
    } else if h <= w {
        (h + 1) / 2
    } else {
        (w + 1) / 2
    }
}

/// Number of cells on ring `k`.
pub open spec fn ring_len(h: int, w: int, k: int) -> int {
    let b = h - 1 - k;
    let r = w - 1 - k;
    (r - k + 1) + (b - k) + (if b > k {
        r - k
    } else {
        0
    }) + (if r > k && b > k {
        b - k - 1
    } else {
        0
    })
}

/// The cell at place `i` of ring `k`: along the top row from the left, down
/// the right column, back along the bottom row, and up the left column.
pub open spec fn ring_at(h: int, w: int, k: int, i: int) -> (int, int) {
    let b = h - 1 - k;
    let r = w - 1 - k;
    let n1 = r - k + 1;
    let n2 = b - k;
    let n3 = if b > k {
        r - k
    } else {
        0
    };
    if i < n1 {
        (k, k + i)
    } else if i < n1 + n2 {
        (k + 1 + (i - n1), r)
    } else if i < n1 + n2 + n3 {
        (b, r - 1 - (i - n1 - n2))
    } else {
        (b - 1 - (i - n1 - n2 - n3), k)
    }
}

/// The ring on which cell `(r, c)` lies.
pub open spec fn ring_of(h: int, w: int, r: int, c: int) -> int {
    let a = if r <= h - 1 - r {
        r
    } else {
        h - 1 - r
    };
    let b = if c <= w - 1 - c {
        c
    } else {
        w - 1 - c
    };
    if a <= b {
        a
    } else {
        b
    }
}

/// The place of cell `(r, c)` on its ring.
pub open spec fn place_of(h: int, w: int, r: int, c: int) -> int {
    let k = ring_of(h, w, r, c);
    let bottom = h - 1 - k;
    let right = w - 1 - k;
    let n1 = right - k + 1;
    let n2 = bottom - k;
    let n3 = if bottom > k {
        right - k
    } else {
        0
    };
    if r == k {
        c - k
    } else if c == right {
        n1 + (r - k - 1)
    } else if r == bottom {
        n1 + n2 + (right - 1 - c)
    } else {
        n1 + n2 + n3 + (bottom - 1 - r)
    }
}

/// Every place of every ring is a cell of the matrix, and the cell tells
/// its ring and place: no two places share a cell.
pub proof fn lemma_ring_at_inside(h: int, w: int, k: int, i: int)
    requires
        0 <= k < ring_count(h, w),
        0 <= i < ring_len(h, w, k),
    ensures
        0 <= ring_at(h, w, k, i).0 < h,
        0 <= ring_at(h, w, k, i).1 < w,
        ring_of(h, w, ring_at(h, w, k, i).0, ring_at(h, w, k, i).1) == k,
        place_of(h, w, ring_at(h, w, k, i).0, ring_at(h, w, k, i).1) == i,
{
}

/// Every cell of the matrix is a place of a ring: the rings cover the matrix.
pub proof fn lemma_cell_on_ring(h: int, w: int, r: int, c: int)
    requires
        0 <= r < h,
        0 <= c < w,
    ensures
        0 <= ring_of(h, w, r, c) < ring_count(h, w),
        0 <= place_of(h, w, r, c) < ring_len(h, w, ring_of(h, w, r, c)),
        ring_at(h, w, ring_of(h, w, r, c), place_of(h, w, r, c)) == (r, c),
{
}

/// The rings of a matrix, with the cell of each place.
pub struct SpiralData<T> {
    layers: Vec<Vec<T>>,
    positions: Vec<Vec<(usize, usize)>>,
    width: usize,
    height: usize,
}

impl<T: Copy> SpiralData<T> {
    /// Number of rows.
    pub closed spec fn rows(&self) -> int {
        self.height as int
    }

    /// Number of columns.
    pub closed spec fn cols(&self) -> int {
        self.width as int
    }

    /// The values on ring `k`, clockwise from the top-left corner.
    pub closed spec fn layer(&self, k: int) -> Seq<T> {
        self.layers@[k]@
    }

    /// The rings are those of a `rows` by `cols` matrix, each with one value
    /// per place.
    pub closed spec fn wf(&self) -> bool {
        &&& self.layers@.len() == ring_count(self.rows(), self.cols())
        &&& self.positions@.len() == ring_count(self.rows(), self.cols())
        &&& forall|k: int|
            0 <= k < self.layers@.len() ==> (#[trigger] self.layers@[k])@.len() == ring_len(
                self.rows(),
                self.cols(),
                k,
            )
        &&& forall|k: int|
            0 <= k < self.positions@.len() ==> (#[trigger] self.positions@[k])@.len() == ring_len(
                self.rows(),
                self.cols(),
                k,
            )
        &&& forall|k: int, i: int|
            0 <= k < self.positions@.len() && 0 <= i < ring_len(self.rows(), self.cols(), k) ==> (
            #[trigger] self.positions@[k]@[i]).0 == ring_at(self.rows(), self.cols(), k, i).0
                && self.positions@[k]@[i].1 == ring_at(self.rows(), self.cols(), k, i).1
    }

    /// The value at row `r`, column `c`.
    pub open spec fn cell(&self, r: int, c: int) -> T {
        self.layer(ring_of(self.rows(), self.cols(), r, c))[place_of(
            self.rows(),
            self.cols(),
            r,
            c,
        )]
    }

    /// Takes a matrix apart into its rings. Only the first `matrix[0].len()`
    /// columns of each row are read; a matrix with no row or no column has
    /// no ring.
    pub fn from_matrix(matrix: Vec<Vec<T>>) -> (res: Self)
        requires
            forall|r: int| 0 <= r < matrix@.len() ==> (#[trigger] matrix@[r])@.len() >= matrix@[0].len(),
        ensures
            res.wf(),
            matrix@.len() == 0 || matrix@[0]@.len() == 0 ==> res.rows() == 0 && res.cols() == 0,
            matrix@.len() > 0 && matrix@[0]@.len() > 0 ==> res.rows() == matrix@.len() && res.cols()
                == matrix@[0]@.len(),
            forall|r: int, c: int|
                0 <= r < res.rows() && 0 <= c < res.cols() ==> res.cell(r, c) == matrix@[r]@[c],
    {
        if matrix.len() == 0 || matrix[0].len() == 0 {
            return SpiralData { layers: Vec::new(), positions: Vec::new(), width: 0, height: 0 };
        }
        let height = matrix.len();
        let width = matrix[0].len();
        let ghost h = height as int;
        let ghost w = width as int;
        let mut layers: Vec<Vec<T>> = Vec::new();
        let mut positions: Vec<Vec<(usize, usize)>> = Vec::new();
        let small = if height <= width {
            height
        } else {
            width
        };
        let count = small / 2 + small % 2;
        let mut k: usize = 0;
        while k < count
            invariant
                k <= count,
                count == ring_count(h, w),
                h == height,
                w == width,
                h == matrix@.len(),
                w == matrix@[0]@.len(),
                forall|r: int| 0 <= r < matrix@.len() ==> (#[trigger] matrix@[r])@.len() >= w,
                layers@.len() == k,
                positions@.len() == k,
                forall|a: int| 0 <= a < k ==> (#[trigger] layers@[a])@.len() == ring_len(h, w, a),
                forall|a: int|
                    0 <= a < k ==> (#[trigger] positions@[a])@.len() == ring_len(h, w, a),
                forall|a: int, i: int|
                    0 <= a < k && 0 <= i < ring_len(h, w, a) ==> (#[trigger] positions@[a]@[i]).0
                        == ring_at(h, w, a, i).0 && positions@[a]@[i].1 == ring_at(h, w, a, i).1,
                forall|a: int, i: int|
                    0 <= a < k && 0 <= i < ring_len(h, w, a) ==> #[trigger] layers@[a]@[i]
                        == matrix@[ring_at(h, w, a, i).0]@[ring_at(h, w, a, i).1],
            decreases count - k,
        {
            let top = k;
            let left = k;
            let bottom = height - 1 - k;
            let right = width - 1 - k;
            let mut layer: Vec<T> = Vec::new();
            let mut layer_positions: Vec<(usize, usize)> = Vec::new();
            // Top row: left to right
            let mut col = left;
            while col <= right
                invariant
                    left <= col <= right + 1,
                    top == k,
                    left == k,
                    bottom == h - 1 - k,
                    right == w - 1 - k,
                    0 <= k < ring_count(h, w),
                    h == matrix@.len(),
                    forall|r: int| 0 <= r < matrix@.len() ==> (#[trigger] matrix@[r])@.len() >= w,
                    layer@.len() == col - left,
                    layer_positions@.len() == col - left,
                    forall|i: int|
                        0 <= i < layer@.len() ==> (#[trigger] layer_positions@[i]).0 == ring_at(
                            h,
                            w,
                            k as int,
                            i,
                        ).0 && layer_positions@[i].1 == ring_at(h, w, k as int, i).1,
                    forall|i: int|
                        0 <= i < layer@.len() ==> #[trigger] layer@[i] == matrix@[ring_at(
                            h,
                            w,
                            k as int,
                            i,
                        ).0]@[ring_at(h, w, k as int, i).1],
                decreases right + 1 - col,
            {
                layer.push(matrix[top][col]);
                layer_positions.push((top, col));
                col = col + 1;
            }
            // Right column: top to bottom (excluding top corner)
            let ghost n1 = right - left + 1;
            let mut row = top + 1;
            while row <= bottom
                invariant
                    top + 1 <= row <= bottom + 1,
                    h == height,
                    top == k,
                    left == k,
                    bottom == h - 1 - k,
                    right == w - 1 - k,
                    n1 == right - left + 1,
                    0 <= k < ring_count(h, w),
                    h == matrix@.len(),
                    forall|r: int| 0 <= r < matrix@.len() ==> (#[trigger] matrix@[r])@.len() >= w,
                    layer@.len() == n1 + (row - top - 1),
                    layer_positions@.len() == layer@.len(),
                    forall|i: int|
                        0 <= i < layer@.len() ==> (#[trigger] layer_positions@[i]).0 == ring_at(
                            h,
                            w,
                            k as int,
                            i,
                        ).0 && layer_positions@[i].1 == ring_at(h, w, k as int, i).1,
                    forall|i: int|
                        0 <= i < layer@.len() ==> #[trigger] layer@[i] == matrix@[ring_at(
                            h,
                            w,
                            k as int,
                            i,
                        ).0]@[ring_at(h, w, k as int, i).1],
                decreases bottom + 1 - row,
            {
                layer.push(matrix[row][right]);
                layer_positions.push((row, right));
                row = row + 1;
            }
            // Bottom row: right to left (excluding right corner)
            let ghost n2 = bottom - top;
            if bottom > top {
                let mut col = right;
                while col > left
                    invariant
                        left <= col <= right,
                        top == k,
                        left == k,
                        bottom == h - 1 - k,
                        right == w - 1 - k,
                        bottom > top,
                        n1 == right - left + 1,
                        n2 == bottom - top,
                        0 <= k < ring_count(h, w),
                        h == matrix@.len(),
                        forall|r: int|
                            0 <= r < matrix@.len() ==> (#[trigger] matrix@[r])@.len() >= w,
                        layer@.len() == n1 + n2 + (right - col),
                        layer_positions@.len() == layer@.len(),
                        forall|i: int|
                            0 <= i < layer@.len() ==> (#[trigger] layer_positions@[i]).0 == ring_at(
                                h,
                                w,
                                k as int,
                                i,
                            ).0 && layer_positions@[i].1 == ring_at(h, w, k as int, i).1,
                        forall|i: int|
                            0 <= i < layer@.len() ==> #[trigger] layer@[i] == matrix@[ring_at(
                                h,
                                w,
                                k as int,
                                i,
                            ).0]@[ring_at(h, w, k as int, i).1],
                    decreases col,
                {
                    col = col - 1;
                    layer.push(matrix[bottom][col]);
                    layer_positions.push((bottom, col));
                }
            }
            // Left column: bottom to top (excluding both corners)
            let ghost n3 = if bottom > top {
                right - left
            } else {
                0
            };
            if right > left {
                let mut row = bottom;
                while row > top + 1
                    invariant
                        top + 1 <= row <= bottom || (row == bottom && bottom == top),
                        top == k,
                        left == k,
                        bottom == h - 1 - k,
                        right == w - 1 - k,
                        right > left,
                        n1 == right - left + 1,
                        n2 == bottom - top,
                        n3 == if bottom > top {
                            right - left
                        } else {
                            0
                        },
                        0 <= k < ring_count(h, w),
                        h == matrix@.len(),
                        forall|r: int|
                            0 <= r < matrix@.len() ==> (#[trigger] matrix@[r])@.len() >= w,
                        layer@.len() == n1 + n2 + n3 + (bottom - row),
                        layer_positions@.len() == layer@.len(),
                        forall|i: int|
                            0 <= i < layer@.len() ==> (#[trigger] layer_positions@[i]).0 == ring_at(
                                h,
                                w,
                                k as int,
                                i,
                            ).0 && layer_positions@[i].1 == ring_at(h, w, k as int, i).1,
                        forall|i: int|
                            0 <= i < layer@.len() ==> #[trigger] layer@[i] == matrix@[ring_at(
                                h,
                                w,
                                k as int,
                                i,
                            ).0]@[ring_at(h, w, k as int, i).1],
                    decreases row,
                {
                    row = row - 1;
                    layer.push(matrix[row][left]);
                    layer_positions.push((row, left));
                }
            }
            assert(layer@.len() == ring_len(h, w, k as int));
            layers.push(layer);
            positions.push(layer_positions);
            k = k + 1;
        }
        let res = SpiralData { layers, positions, width, height };
        proof {
            assert forall|r: int, c: int|
                0 <= r < res.rows() && 0 <= c < res.cols() implies res.cell(r, c)
                == matrix@[r]@[c] by {
                lemma_cell_on_ring(h, w, r, c);
                let a = ring_of(h, w, r, c);
                let i = place_of(h, w, r, c);
                assert(res.layers@[a]@[i] == matrix@[ring_at(h, w, a, i).0]@[ring_at(
                    h,
                    w,
                    a,
                    i,
                ).1]);
            }
        }
        res
    }

    /// Turns every ring `r` places anticlockwise: the value at each place
    /// becomes the one that was `r` places further along the ring.
    pub fn slide(&mut self, r: usize)
        requires
            old(self).wf(),
        ensures
            final(self).wf(),
            final(self).rows() == old(self).rows(),
            final(self).cols() == old(self).cols(),
            forall|k: int, i: int|
                0 <= k < ring_count(old(self).rows(), old(self).cols()) && 0 <= i < ring_len(
                    old(self).rows(),
                    old(self).cols(),
                    k,
                ) ==> #[trigger] final(self).layer(k)[i] == old(self).layer(k)[(i + r) % ring_len(
                    old(self).rows(),
                    old(self).cols(),
                    k,
                )],
    {
        let ghost h = self.rows();
        let ghost w = self.cols();
        let mut index: usize = 0;
        while index < self.layers.len()
            invariant
                index <= self.layers@.len(),
                self.wf(),
                self.rows() == h,
                self.cols() == w,
                h == old(self).rows(),
                w == old(self).cols(),
                self.layers@.len() == old(self).layers@.len(),
                forall|k: int| index <= k < self.layers@.len() ==> self.layers@[k] == old(self).layers@[k],
                forall|k: int, i: int|
                    0 <= k < index && 0 <= i < ring_len(h, w, k) ==> #[trigger] self.layers@[k]@[i]
                        == old(self).layers@[k]@[(i + r) % ring_len(h, w, k)],
            decreases self.layers@.len() - index,
        {
            let len = self.layers[index].len();
            assert(len == ring_len(h, w, index as int));
            assert(len > 0);
            let turned = rotated(&self.layers[index], r % len);
            let ghost before = self.layers@[index as int]@;
            self.layers[index] = turned;
            proof {
                assert forall|i: int| 0 <= i < len implies self.layers@[index as int]@[i]
                    == before[(i + r) % (len as int)] by {
                    lemma_turn(i, r as int, len as int);
                }
            }
            index = index + 1;
        }
    }

    /// Puts the rings back together as rows of values.
    pub fn to_matrix(&self) -> (res: Vec<Vec<T>>) where T: Default
        requires
            self.wf(),
        ensures
            res@.len() == self.rows(),
            forall|r: int| 0 <= r < self.rows() ==> (#[trigger] res@[r])@.len() == self.cols(),
            forall|r: int, c: int|
                0 <= r < self.rows() && 0 <= c < self.cols() ==> res@[r]@[c] == self.cell(r, c),
    {
        let ghost h = self.rows();
        let ghost w = self.cols();
        let mut matrix: Vec<Vec<T>> = Vec::new();
        let mut row: usize = 0;
        while row < self.height
            invariant
                row <= self.height,
                matrix@.len() == row,
                forall|r: int| 0 <= r < row ==> (#[trigger] matrix@[r])@.len() == self.width,
            decreases self.height - row,
        {
            let mut line: Vec<T> = Vec::new();
            let mut col: usize = 0;
            while col < self.width
                invariant
                    col <= self.width,
                    line@.len() == col,
                decreases self.width - col,
            {
                line.push(T::default());
                col = col + 1;
            }
            matrix.push(line);
            row = row + 1;
        }
        let mut k: usize = 0;
        while k < self.layers.len()
            invariant
                k <= self.layers@.len(),
                self.wf(),
                h == self.rows(),
                w == self.cols(),
                matrix@.len() == h,
                forall|r: int| 0 <= r < h ==> (#[trigger] matrix@[r])@.len() == w,
                forall|a: int, j: int|
                    0 <= a < k && 0 <= j < ring_len(h, w, a) ==> matrix@[ring_at(
                        h,
                        w,
                        a,
                        j,
                    ).0]@[ring_at(h, w, a, j).1] == #[trigger] self.layers@[a]@[j],
            decreases self.layers@.len() - k,
        {
            let layer = &self.layers[k];
            let layer_positions = &self.positions[k];
            let mut i: usize = 0;
            while i < layer.len()
                invariant
                    i <= layer@.len(),
                    k < self.layers@.len(),
                    self.wf(),
                    h == self.rows(),
                    w == self.cols(),
                    layer == self.layers@[k as int],
                    layer_positions == self.positions@[k as int],
                    matrix@.len() == h,
                    forall|r: int| 0 <= r < h ==> (#[trigger] matrix@[r])@.len() == w,
                    forall|a: int, j: int|
                        0 <= a < k && 0 <= j < ring_len(h, w, a) ==> matrix@[ring_at(
                            h,
                            w,
                            a,
                            j,
                        ).0]@[ring_at(h, w, a, j).1] == #[trigger] self.layers@[a]@[j],
                    forall|j: int|
                        0 <= j < i ==> matrix@[ring_at(h, w, k as int, j).0]@[ring_at(
                            h,
                            w,
                            k as int,
                            j,
                        ).1] == #[trigger] layer@[j],
                decreases layer@.len() - i,
            {
                let (row, col) = layer_positions[i];
                let ghost before = matrix@;
                proof {
                    lemma_ring_at_inside(h, w, k as int, i as int);
                    assert(self.positions@[k as int]@[i as int].0 == ring_at(
                        h,
                        w,
                        k as int,
                        i as int,
                    ).0);
                }
                matrix[row][col] = layer[i];
                proof {
                    assert forall|a: int, j: int|
                        0 <= a < k && 0 <= j < ring_len(h, w, a) implies matrix@[ring_at(
                        h,
                        w,
                        a,
                        j,
                    ).0]@[ring_at(h, w, a, j).1] == #[trigger] self.layers@[a]@[j] by {
                        lemma_ring_at_inside(h, w, a, j);
                        assert(before[ring_at(h, w, a, j).0]@[ring_at(h, w, a, j).1]
                            == self.layers@[a]@[j]);
                    }
                    assert forall|j: int| 0 <= j < i + 1 implies matrix@[ring_at(
                        h,
                        w,
                        k as int,
                        j,
                    ).0]@[ring_at(h, w, k as int, j).1] == #[trigger] layer@[j] by {
                        lemma_ring_at_inside(h, w, k as int, j);
                        if j < i {
                            assert(before[ring_at(h, w, k as int, j).0]@[ring_at(
                                h,
                                w,
                                k as int,
                                j,
                            ).1] == layer@[j]);
                        }
                    }
                }
                i = i + 1;
            }
            k = k + 1;
        }
        proof {
            assert forall|r: int, c: int| 0 <= r < h && 0 <= c < w implies matrix@[r]@[c]
                == self.cell(r, c) by {
                lemma_cell_on_ring(h, w, r, c);
                let a = ring_of(h, w, r, c);
                let j = place_of(h, w, r, c);
                assert(matrix@[ring_at(h, w, a, j).0]@[ring_at(h, w, a, j).1]
                    == self.layers@[a]@[j]);
            }
        }
        matrix
    }

    /// The same matrix as `to_matrix` gives.
    pub fn to_matrix_unsafe(&self) -> (res: Vec<Vec<T>>) where T: Default
        requires
            self.wf(),
        ensures
            res@.len() == self.rows(),
            forall|r: int| 0 <= r < self.rows() ==> (#[trigger] res@[r])@.len() == self.cols(),
            forall|r: int, c: int|
                0 <= r < self.rows() && 0 <= c < self.cols() ==> res@[r]@[c] == self.cell(r, c),
    {
        self.to_matrix()
    }

    /// The row and column recorded for place `i` of ring `k`.
    pub closed spec fn position(&self, k: int, i: int) -> (usize, usize) {
        self.positions@[k]@[i]
    }

    /// The cell recorded for each place is the cell of that place on its
    /// ring.
    pub proof fn lemma_positions(&self)
        requires
            self.wf(),
        ensures
            forall|k: int, i: int|
                0 <= k < ring_count(self.rows(), self.cols()) && 0 <= i < ring_len(
                    self.rows(),
                    self.cols(),
                    k,
                ) ==> (#[trigger] self.position(k, i)).0 == ring_at(self.rows(), self.cols(), k, i).0
                    && self.position(k, i).1 == ring_at(self.rows(), self.cols(), k, i).1,
    {
    }

    /// There is one layer for each ring, with one value for each place.
    pub proof fn lemma_layers(&self)
        requires
            self.wf(),
        ensures
            forall|k: int|
                0 <= k < ring_count(self.rows(), self.cols()) ==> (#[trigger] self.layer(k)).len()
                    == ring_len(self.rows(), self.cols(), k),
    {
    }

    /// The rings alone, outermost first.
    pub fn into_layers(self) -> (layers: Vec<Vec<T>>)
        requires
            self.wf(),
        ensures
            layers@.len() == ring_count(self.rows(), self.cols()),
            forall|k: int| 0 <= k < layers@.len() ==> (#[trigger] layers@[k])@ == self.layer(k),
    {
        self.layers
    }
}

/// Turning by `r` is turning by `r` modulo the length of the ring.
proof fn lemma_turn(i: int, r: int, len: int)
    requires
        0 <= i < len,
        0 <= r,
    ensures
        (i + r) % len == if i + r % len < len {
            i + r % len
        } else {
            i + r % len - len
        },
{
    let m = r % len;
    let q = r / len;
    assert(r == q * len + m && 0 <= m < len) by (nonlinear_arith)
        requires
            m == r % len,
            q == r / len,
            len > 0,
    ;
    if i + m < len {
        assert((i + r) % len == i + m) by (nonlinear_arith)
            requires
                r == q * len + m,
                0 <= i + m < len,
        ;
    } else {
        assert((i + r) % len == i + m - len) by (nonlinear_arith)
            requires
                r == q * len + m,
                0 <= i + m - len < len,
        ;
    }
}

/// A copy of `v` turned so that it starts at place `mid`.
fn rotated<T: Copy>(v: &Vec<T>, mid: usize) -> (res: Vec<T>)
    requires
        mid < v@.len(),
    ensures
        res@.len() == v@.len(),
        forall|i: int|
            0 <= i < v@.len() ==> #[trigger] res@[i] == v@[if i + mid < v@.len() {
                i + mid
            } else {
                i + mid - v@.len()
            }],
{
    let len = v.len();
    let mut res: Vec<T> = Vec::new();
    let mut i: usize = 0;
    while i < len
        invariant
            i <= len,
            len == v@.len(),
            mid < len,
            res@.len() == i,
            forall|j: int|
                0 <= j < i ==> #[trigger] res@[j] == v@[if j + mid < len {
                    j + mid
                } else {
                    j + mid - len
                }],
        decreases len - i,
    {
        let from = if i < len - mid {
            i + mid
        } else {
            i - (len - mid)
        };
        res.push(v[from]);
        i = i + 1;
    }
    res
}

} // verus!
