//! A fixed-size integer matrix utility, independent of the JSON
//! subsystem.

use vstd::prelude::*;

verus! {

/// The transpose of a 3-by-3 integer matrix: rows become columns.
pub fn transpose(matrix: [[i32; 3]; 3]) -> (r: [[i32; 3]; 3])
    ensures
        forall|i: int, j: int| 0 <= i < 3 && 0 <= j < 3 ==> r[j][i] == matrix[i][j],
{
    [
        [matrix[0][0], matrix[1][0], matrix[2][0]],
        [matrix[0][1], matrix[1][1], matrix[2][1]],
        [matrix[0][2], matrix[1][2], matrix[2][2]],
    ]
}

} // verus!
