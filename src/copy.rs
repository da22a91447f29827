use vstd::prelude::*;
use crate::shape::rows_of;

verus! {

/// An entry-for-entry copy of `a`.
pub fn copy_of<T: Copy>(a: &Vec<Vec<T>>) -> (r: Vec<Vec<T>>)
    ensures
        rows_of(r@) == rows_of(a@),
{
    let mut out: Vec<Vec<T>> = Vec::with_capacity(a.len());
    let mut i: usize = 0;
    while i < a.len()
        invariant
            i <= a.len(),
            out.len() == i,
            forall|r: int| 0 <= r < i ==> (#[trigger] out[r])@ == a[r]@,
        decreases a.len() - i,
    {
        let mut row: Vec<T> = Vec::with_capacity(a[i].len());
        let mut k: usize = 0;
        while k < a[i].len()
            invariant
                i < a.len(),
                k <= a[i as int].len(),
                row.len() == k,
                forall|c: int| 0 <= c < k ==> #[trigger] row[c] == a[i as int][c],
            decreases a[i as int].len() - k,
        {
            row.push(a[i][k]);
            k += 1;
        }
        assert(row@ =~= a[i as int]@);
        out.push(row);
        i += 1;
    }
    assert(rows_of(out@) =~= rows_of(a@));
    out
}

/// Applies the in-place transform `f` to a copy of `a` and returns the copy;
/// `a` itself is left as it was.
pub fn dup<T: Copy, F: FnOnce(&mut Vec<Vec<T>>)>(f: F, a: &Vec<Vec<T>>) -> (r: Vec<Vec<T>>)
    requires
        forall|m: &mut Vec<Vec<T>>| rows_of(m@) == rows_of(a@) ==> f.requires((m,)),
    ensures
        exists|m: &mut Vec<Vec<T>>|
            rows_of(m@) == rows_of(a@) && #[trigger] f.ensures((m,), ()) && *final(m) == r,
{
    let mut temp = copy_of(a);
    f(&mut temp);
    temp
}

} // verus!
