//! The packed upper triangle of a symmetric matrix of pairwise values, as
//! used for the distances between passing cases.
use vstd::prelude::*;

verus! {

/// The number of stored entries for `size` items: one per unordered pair.
pub open spec fn pair_count(size: int) -> int {
    size * (size - 1) / 2
}

/// Where the rows of the pairs `(k, _)` for `k < i` end: the sum of
/// `size - 1 - k` over `k < i`.
pub open spec fn row_start(size: int, i: int) -> int
    decreases i,
{
    if i <= 0 {
        0
    } else {
        row_start(size, i - 1) + (size - 1 - (i - 1))
    }
}

/// The position of the pair `i < j` in the packed storage.
pub open spec fn packed_index(size: int, i: int, j: int) -> int {
    i * (2 * size - i - 1) / 2 + (j - i - 1)
}

proof fn lemma_row_start_closed(size: int, i: int)
    requires
        0 <= i,
    ensures
        row_start(size, i) == i * (2 * size - i - 1) / 2,
        (i * (2 * size - i - 1)) % 2 == 0,
    decreases i,
{
    if i > 0 {
        lemma_row_start_closed(size, i - 1);
        assert(i * (2 * size - i - 1) == (i - 1) * (2 * size - (i - 1) - 1) + 2 * (size - 1 - (i
            - 1))) by (nonlinear_arith);
    } else {
        assert(i * (2 * size - i - 1) == 0) by (nonlinear_arith)
            requires
                i == 0,
        ;
    }
}

proof fn lemma_row_start_mono(size: int, a: int, b: int)
    requires
        0 <= a <= b <= size,
    ensures
        row_start(size, a) + (b - a) * 0 <= row_start(size, b),
        a < b ==> row_start(size, a) + (size - 1 - a) <= row_start(size, b),
    decreases b - a,
{
    if a < b {
        lemma_row_start_mono(size, a, b - 1);
    }
}

/// Every pair `i < j` of `size` items has its own position, below the
/// number of pairs.
pub proof fn lemma_packed_index(size: int, i: int, j: int, k: int, l: int)
    requires
        0 <= i < j < size,
        0 <= k < l < size,
    ensures
        0 <= packed_index(size, i, j) < pair_count(size),
        packed_index(size, i, j) == packed_index(size, k, l) ==> i == k && j == l,
{
    lemma_row_start_closed(size, i);
    lemma_row_start_closed(size, k);
    lemma_row_start_closed(size, size);
    lemma_row_start_mono(size, 0, i);
    lemma_row_start_mono(size, i, size);
    lemma_row_start_mono(size, 0, k);
    if i < k {
        lemma_row_start_mono(size, i, k);
    } else if k < i {
        lemma_row_start_mono(size, k, i);
    }
    assert(size * (2 * size - size - 1) == size * (size - 1)) by (nonlinear_arith);
}

/// Why a packed matrix was refused.
#[derive(Clone, Copy, Debug, PartialEq, Eq, Structural)]
pub enum MatrixError {
    /// `size * (size - 1)` does not fit in `usize`.
    SizeOverflow { size: usize },
    /// The number of values is not the number of pairs.
    InvalidLength { expected: usize, got: usize },
}

/// The values of all pairs of `size` items, row after row of the upper
/// triangle.
#[derive(Clone, Debug)]
pub struct PackedDistanceMatrix<T> {
    size: usize,
    values: Vec<T>,
}

impl<T: Copy> PackedDistanceMatrix<T> {
    pub closed spec fn size_spec(self) -> int {
        self.size as int
    }

    pub closed spec fn values_spec(self) -> Seq<T> {
        self.values@
    }

    pub open spec fn wf(self) -> bool {
        &&& self.size_spec() * (self.size_spec() - 1) <= usize::MAX
        &&& self.values_spec().len() == pair_count(self.size_spec())
    }

    /// The matrix of `size` items over `values`, which must hold one value
    /// per pair.
    pub fn new(size: usize, values: Vec<T>) -> (r: Result<Self, MatrixError>)
        ensures
            size * (size - 1) > usize::MAX ==> r == Err::<Self, MatrixError>(
                MatrixError::SizeOverflow { size },
            ),
            size * (size - 1) <= usize::MAX && values@.len() != pair_count(size as int) ==> r
                == Err::<Self, MatrixError>(
                MatrixError::InvalidLength {
                    expected: pair_count(size as int) as usize,
                    got: values@.len() as usize,
                },
            ),
            size * (size - 1) <= usize::MAX && values@.len() == pair_count(size as int) ==> (r matches Ok(
                m,
            ) && m.wf() && m.size_spec() == size && m.values_spec() == values@),
    {
        let below = if size >= 1 {
            size - 1
        } else {
            0
        };
        assert(size * below == size * (size - 1)) by (nonlinear_arith)
            requires
                below == (if size >= 1 {
                    size - 1
                } else {
                    0
                }),
        ;
        let product = match size.checked_mul(below) {
            Some(p) => p,
            None => return Err(MatrixError::SizeOverflow { size }),
        };
        let expected = product / 2;
        if values.len() != expected {
            return Err(MatrixError::InvalidLength { expected, got: values.len() });
        }
        Ok(PackedDistanceMatrix { size, values })
    }

    pub fn size(&self) -> (n: usize)
        ensures
            n == self.size_spec(),
    {
        self.size
    }

    /// The value of the pair `(i, j)` in either order; `None` on the
    /// diagonal, which holds no stored value.
    pub fn get(&self, i: usize, j: usize) -> (r: Option<T>)
        requires
            self.wf(),
            i < self.size_spec(),
            j < self.size_spec(),
        ensures
            i == j ==> r is None,
            i < j ==> r == Some(self.values_spec()[packed_index(self.size_spec(), i as int, j as int)]),
            j < i ==> r == Some(self.values_spec()[packed_index(self.size_spec(), j as int, i as int)]),
    {
        if i == j {
            return None;
        }
        let (a, b) = if i > j {
            (j, i)
        } else {
            (i, j)
        };
        let n = self.size;
        proof {
            lemma_packed_index(n as int, a as int, b as int, a as int, b as int);
            lemma_row_start_closed(n as int, a as int);
            assert(a * (2 * n - a - 1) <= n * (n - 1)) by (nonlinear_arith)
                requires
                    a < n,
            ;
            if n >= 3 {
                assert(2 * n <= n * (n - 1)) by (nonlinear_arith)
                    requires
                        n >= 3,
                ;
            }
            assert(2 * n <= usize::MAX);
        }
        let index = a * (2 * n - a - 1) / 2 + (b - a - 1);
        Some(self.values[index])
    }
}

} // verus!
