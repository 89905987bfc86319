//! Shape rules of transition matrices.

use vstd::prelude::*;

verus! {

/// Whether every row of `rows` has as many entries as there are rows: the
/// condition for a transition matrix W[i][j] between `rows.len()` states.
pub fn is_square<T>(rows: &Vec<Vec<T>>) -> (r: bool)
    ensures
        r == (forall|i: int| 0 <= i < rows.len() ==> #[trigger] rows[i].len() == rows.len()),
{
    let n = rows.len();
    let mut i: usize = 0;
    while i < n
        invariant
            n == rows.len(),
            i <= n,
            forall|k: int| 0 <= k < i ==> #[trigger] rows[k].len() == n,
        decreases n - i,
    {
        if rows[i].len() != n {
            return false;
        }
        i += 1;
    }
    true
}

} // verus!
