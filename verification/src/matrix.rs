//! Filling a symmetric pairwise matrix from its upper triangle.

use vstd::prelude::*;

verus! {

/// The matrix is `n`×`n`.
pub open spec fn is_square<T>(m: Seq<Vec<T>>, n: nat) -> bool {
    &&& m.len() == n
    &&& forall|i: int| 0 <= i < n ==> (#[trigger] m[i]).len() == n
}

/// The matrix equals its transpose.
pub open spec fn is_symmetric<T>(m: Seq<Vec<T>>) -> bool {
    forall|i: int, j: int|
        0 <= i < m.len() && 0 <= j < m.len() ==> #[trigger] m[i]@[j] == #[trigger] m[j]@[i]
}

/// An `n`×`n` symmetric matrix whose entry `(i, j)` with `i <= j` is what
/// `entry(i, j)` returned; `entry` is asked once for each such pair, row by
/// row, and each answer is copied into both `(i, j)` and `(j, i)`.
pub fn symmetric_matrix<T: Copy, F: Fn(usize, usize) -> T>(n: usize, entry: F) -> (m: Vec<Vec<T>>)
    requires
        forall|i: usize, j: usize| i <= j < n ==> call_requires(entry, (i, j)),
    ensures
        is_square(m@, n as nat),
        is_symmetric(m@),
        forall|i: usize, j: usize| i <= j < n ==> call_ensures(entry, (i, j), #[trigger] m@[i as int]@[j as int]),
{
    let mut m: Vec<Vec<T>> = Vec::new();
    let mut i: usize = 0;
    while i < n
        invariant
            i <= n,
            forall|i: usize, j: usize| i <= j < n ==> call_requires(entry, (i, j)),
            m.len() == i,
            forall|r: int| 0 <= r < i ==> (#[trigger] m@[r]).len() == n,
            forall|r: int, c: int| 0 <= r < i && 0 <= c < i ==> #[trigger] m@[r]@[c] == #[trigger] m@[c]@[r],
            forall|r: usize, c: usize| r < i && r <= c < n ==> call_ensures(entry, (r, c), #[trigger] m@[r as int]@[c as int]),
        decreases n - i,
    {
        let mut row: Vec<T> = Vec::new();
        let mut j: usize = 0;
        while j < n
            invariant
                i < n,
                j <= n,
                m.len() == i,
                forall|i: usize, j: usize| i <= j < n ==> call_requires(entry, (i, j)),
                forall|r: int| 0 <= r < i ==> (#[trigger] m@[r]).len() == n,
                row.len() == j,
                forall|c: int| 0 <= c < j && c < i ==> #[trigger] row@[c] == m@[c]@[i as int],
                forall|c: usize| i <= c < j ==> call_ensures(entry, (i, c), #[trigger] row@[c as int]),
            decreases n - j,
        {
            if j < i {
                let v: T = m[j][i];
                row.push(v);
            } else {
                let v: T = entry(i, j);
                row.push(v);
            }
            j = j + 1;
        }
        m.push(row);
        i = i + 1;
    }
    m
}

} // verus!
