use vstd::prelude::*;

verus! {

/// A matrix whose rows all have length `cols`.
pub open spec fn is_rect<T>(m: Seq<Seq<T>>, cols: nat) -> bool {
    forall|r: int| 0 <= r < m.len() ==> (#[trigger] m[r]).len() == cols
}

/// The view of a matrix held as a vector of row vectors.
pub open spec fn rows_of<T>(m: Seq<Vec<T>>) -> Seq<Seq<T>> {
    Seq::new(m.len(), |r: int| m[r]@)
}

/// The `dim` by `dim` matrix with `one` on the diagonal and `zero` elsewhere.
pub open spec fn identity_spec<T>(dim: nat, zero: T, one: T) -> Seq<Seq<T>> {
    Seq::new(dim, |r: int| Seq::new(dim, |c: int| if r == c { one } else { zero }))
}

/// Builds the `dim` by `dim` identity matrix over the given zero and one.
pub fn identity<T: Copy>(dim: usize, zero: T, one: T) -> (r: Vec<Vec<T>>)
    ensures
        rows_of(r@) == identity_spec(dim as nat, zero, one),
{
    let mut result: Vec<Vec<T>> = Vec::with_capacity(dim);
    let mut i: usize = 0;
    while i < dim
        invariant
            i <= dim,
            result.len() == i,
            forall|r: int| 0 <= r < i ==> (#[trigger] result[r])@ == identity_spec(dim as nat, zero, one)[r],
        decreases dim - i,
    {
        let mut row: Vec<T> = Vec::with_capacity(dim);
        let mut j: usize = 0;
        while j < dim
            invariant
                i < dim,
                j <= dim,
                row.len() == j,
                forall|c: int| 0 <= c < j ==> #[trigger] row[c] == (if i == c { one } else { zero }),
            decreases dim - j,
        {
            if i == j {
                row.push(one);
            } else {
                row.push(zero);
            }
            j += 1;
        }
        assert(row@ =~= identity_spec(dim as nat, zero, one)[i as int]);
        result.push(row);
        i += 1;
    }
    assert(rows_of(result@) =~= identity_spec(dim as nat, zero, one));
    result
}

/// The length of the longest row, or 0 when there is no row.
pub open spec fn widest<T>(m: Seq<Seq<T>>) -> nat
    decreases m.len(),
{
    if m.len() == 0 {
        0
    } else {
        let w = widest(m.drop_last());
        if m.last().len() > w { m.last().len() } else { w }
    }
}

/// The rows of `m`, each right-padded with `fill` up to `width`.
pub open spec fn padded<T>(m: Seq<Seq<T>>, width: nat, fill: T) -> Seq<Seq<T>> {
    Seq::new(m.len(), |r: int| Seq::new(width, |c: int| if c < m[r].len() { m[r][c] } else { fill }))
}

proof fn lemma_widest_bounds<T>(m: Seq<Seq<T>>)
    ensures
        forall|r: int| 0 <= r < m.len() ==> (#[trigger] m[r]).len() <= widest(m),
        m.len() > 0 ==> exists|r: int| 0 <= r < m.len() && (#[trigger] m[r]).len() == widest(m),
    decreases m.len(),
{
    if m.len() > 0 {
        let init = m.drop_last();
        lemma_widest_bounds(init);
        assert forall|r: int| 0 <= r < m.len() implies (#[trigger] m[r]).len() <= widest(m) by {
            if r < m.len() - 1 {
                assert(m[r] == init[r]);
            }
        }
        if m.last().len() <= widest(init) && init.len() > 0 {
            let r0 = choose|r: int| 0 <= r < init.len() && (#[trigger] init[r]).len() == widest(init);
            assert(m[r0] == init[r0]);
        } else {
            assert(m[m.len() - 1] == m.last());
        }
    }
}

/// Builds a rectangular matrix from rows of possibly different lengths: every
/// row is right-padded with `fill` up to the length of the longest row. Row
/// order and the order within each row are kept.
pub fn matrix_from_rows<T: Copy>(rows: &Vec<Vec<T>>, fill: T) -> (r: Vec<Vec<T>>)
    ensures
        rows_of(r@) == padded(rows_of(rows@), widest(rows_of(rows@)), fill),
{
    let ghost src = rows_of(rows@);
    let mut width: usize = 0;
    let mut i: usize = 0;
    while i < rows.len()
        invariant
            i <= rows.len(),
            src == rows_of(rows@),
            width == widest(src.take(i as int)),
        decreases rows.len() - i,
    {
        assert(src.take(i + 1).drop_last() =~= src.take(i as int));
        if rows[i].len() > width {
            width = rows[i].len();
        }
        i += 1;
    }
    assert(src.take(rows.len() as int) =~= src);
    proof {
        lemma_widest_bounds(src);
    }
    let mut result: Vec<Vec<T>> = Vec::with_capacity(rows.len());
    let mut i: usize = 0;
    while i < rows.len()
        invariant
            i <= rows.len(),
            src == rows_of(rows@),
            width == widest(src),
            forall|r: int| 0 <= r < src.len() ==> (#[trigger] src[r]).len() <= width,
            result.len() == i,
            forall|r: int| 0 <= r < i ==> (#[trigger] result[r])@ == padded(src, width as nat, fill)[r],
        decreases rows.len() - i,
    {
        let ghost row_src = src[i as int];
        assert(row_src == rows[i as int]@);
        let mut row: Vec<T> = Vec::with_capacity(width);
        let mut j: usize = 0;
        while j < width
            invariant
                i < rows.len(),
                row_src == rows[i as int]@,
                row_src.len() <= width,
                j <= width,
                row.len() == j,
                forall|c: int| 0 <= c < j ==> #[trigger] row[c] == (if c < row_src.len() { row_src[c] } else { fill }),
            decreases width - j,
        {
            if j < rows[i].len() {
                row.push(rows[i][j]);
            } else {
                row.push(fill);
            }
            j += 1;
        }
        assert(row@ =~= padded(src, width as nat, fill)[i as int]);
        result.push(row);
        i += 1;
    }
    assert(rows_of(result@) =~= padded(src, width as nat, fill));
    result
}

} // verus!
