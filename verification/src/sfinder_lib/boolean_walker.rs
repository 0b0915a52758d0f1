use vstd::prelude::*;

verus! {

/// Every list of `size` flags, one per number below `2^size`: flag `i` of the list of `v` is
/// set where bit `i` of `v` is clear.
pub fn walk(size: u8) -> (r: Vec<Vec<bool>>)
    requires
        size <= 30,
    ensures
        r.len() == 1u32 << size,
        forall|v: int| 0 <= v < r.len() ==> (#[trigger] r@[v])@.len() == size,
        forall|v: int, i: int| 0 <= v < r.len() && 0 <= i < size ==> (#[trigger] r@[v]@[i]) == ((v as u32) & (1u32 << (
        i as u32)) == 0),
{
    let end: u32 = 1u32 << size;
    let mut r: Vec<Vec<bool>> = Vec::new();
    let mut val: u32 = 0;
    while val < end
        invariant
            size <= 30,
            end == 1u32 << size,
            r.len() == val,
            val <= end,
            forall|v: int| 0 <= v < r.len() ==> (#[trigger] r@[v])@.len() == size,
            forall|v: int, i: int| 0 <= v < r.len() && 0 <= i < size ==> (#[trigger] r@[v]@[i]) == ((v as u32) & (1u32 << (
            i as u32)) == 0),
        decreases end - val,
    {
        let mut row: Vec<bool> = Vec::new();
        let mut i: u8 = 0;
        while i < size
            invariant
                i <= size,
                size <= 30,
                row.len() == i,
                forall|j: int| 0 <= j < i ==> (#[trigger] row@[j]) == ((val & (1u32 << (j as u32))) == 0),
            decreases size - i,
        {
            row.push(val & (1u32 << i) == 0);
            i = i + 1;
        }
        r.push(row);
        val = val + 1;
    }
    r
}

} // verus!
