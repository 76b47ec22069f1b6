//! Small helpers for clients composing images around the quantiser.

use vstd::prelude::*;

verus! {

/// Indices of the minimum and the maximum value in one pass.  Both
/// returned indices point at the first occurrence of their extreme value.
pub fn minmax_ids(values: &Vec<usize>) -> (out: (usize, usize))
    requires
        values@.len() > 0,
    ensures
        out.0 < values@.len(),
        out.1 < values@.len(),
        forall|j: int| 0 <= j < values@.len() ==> values@[out.0 as int] <= #[trigger] values@[j],
        forall|j: int| 0 <= j < values@.len() ==> #[trigger] values@[j] <= values@[out.1 as int],
        forall|j: int| 0 <= j < out.0 ==> #[trigger] values@[j] > values@[out.0 as int],
        forall|j: int| 0 <= j < out.1 ==> #[trigger] values@[j] < values@[out.1 as int],
{
    let mut max = values[0];
    let mut min = max;
    let mut min_idx: usize = 0;
    let mut max_idx: usize = 0;
    let mut pos: usize = 1;
    while pos < values.len()
        invariant
            1 <= pos <= values@.len(),
            min_idx < pos,
            max_idx < pos,
            min == values@[min_idx as int],
            max == values@[max_idx as int],
            forall|j: int| 0 <= j < pos ==> min <= #[trigger] values@[j],
            forall|j: int| 0 <= j < pos ==> #[trigger] values@[j] <= max,
            forall|j: int| 0 <= j < min_idx ==> #[trigger] values@[j] > min,
            forall|j: int| 0 <= j < max_idx ==> #[trigger] values@[j] < max,
        decreases values@.len() - pos,
    {
        let x = values[pos];
        if x > max {
            max_idx = pos;
            max = x;
        } else if x < min {
            min_idx = pos;
            min = x;
        }
        pos = pos + 1;
    }
    (min_idx, max_idx)
}

} // verus!
