use vstd::prelude::*;
use crate::scalar::{app1, app2, is_fn1, is_fn2, lemma_app1, lemma_app2};
use crate::shape::{is_rect, rows_of};

verus! {

/// `zero + m[0][c]^2 + ... + m[n-1][c]^2`, summed from the top row down.
pub open spec fn column_square_sum<T, A, M>(m: Seq<Seq<T>>, c: int, n: nat, zero: T, plus: A, times: M) -> T where
    A: Fn(T, T) -> T,
    M: Fn(T, T) -> T,
    decreases n,
{
    if n == 0 {
        zero
    } else {
        let x = m[n - 1][c];
        app2(plus, column_square_sum(m, c, (n - 1) as nat, zero, plus, times), app2(times, x, x))
    }
}

/// The Euclidean length of column `c`.
pub open spec fn column_length<T, A, M, R>(m: Seq<Seq<T>>, c: int, zero: T, plus: A, times: M, sqrt: R) -> T where
    A: Fn(T, T) -> T,
    M: Fn(T, T) -> T,
    R: Fn(T) -> T,
{
    app1(sqrt, column_square_sum(m, c, m.len(), zero, plus, times))
}

/// `m` with every entry divided by the length of its column.
pub open spec fn normalized<T, A, M, D, R>(m: Seq<Seq<T>>, zero: T, plus: A, times: M, divide: D, sqrt: R) -> Seq<Seq<T>> where
    A: Fn(T, T) -> T,
    M: Fn(T, T) -> T,
    D: Fn(T, T) -> T,
    R: Fn(T) -> T,
{
    Seq::new(
        m.len(),
        |r: int| Seq::new(m[r].len(), |c: int| app2(divide, m[r][c], column_length(m, c, zero, plus, times, sqrt))),
    )
}

/// The length of column `c` of `a`.
fn column_norm<T: Copy, A, M, R>(a: &Vec<Vec<T>>, c: usize, zero: T, plus: &A, times: &M, sqrt: &R) -> (r: T) where
    A: Fn(T, T) -> T,
    M: Fn(T, T) -> T,
    R: Fn(T) -> T,
    requires
        is_fn2(*plus),
        is_fn2(*times),
        is_fn1(*sqrt),
        forall|j: int| 0 <= j < a.len() ==> c < (#[trigger] a[j]).len(),
    ensures
        r == column_length(rows_of(a@), c as int, zero, *plus, *times, *sqrt),
{
    let ghost m = rows_of(a@);
    let mut sum = zero;
    let mut j: usize = 0;
    while j < a.len()
        invariant
            is_fn2(*plus),
            is_fn2(*times),
            m == rows_of(a@),
            forall|r: int| 0 <= r < a.len() ==> c < (#[trigger] a[r]).len(),
            j <= a.len(),
            sum == column_square_sum(m, c as int, j as nat, zero, *plus, *times),
        decreases a.len() - j,
    {
        assert(m[j as int] == a[j as int]@);
        let x = a[j][c];
        let sq = times(x, x);
        proof {
            lemma_app2(*times, x, x, sq);
        }
        let next = plus(sum, sq);
        proof {
            lemma_app2(*plus, sum, sq, next);
        }
        sum = next;
        j += 1;
    }
    let r = sqrt(sum);
    proof {
        lemma_app1(*sqrt, sum, r);
    }
    r
}

/// `row` divided entrywise by `by`.
fn divided_by<T: Copy, D>(row: &Vec<T>, by: &Vec<T>, divide: &D) -> (r: Vec<T>) where
    D: Fn(T, T) -> T,
    requires
        is_fn2(*divide),
        row.len() == by.len(),
    ensures
        r@ == Seq::new(row@.len(), |k: int| app2(*divide, row@[k], by@[k])),
{
    let mut out: Vec<T> = Vec::with_capacity(row.len());
    let mut k: usize = 0;
    while k < row.len()
        invariant
            is_fn2(*divide),
            row.len() == by.len(),
            k <= row.len(),
            out.len() == k,
            forall|c: int| 0 <= c < k ==> #[trigger] out[c] == app2(*divide, row[c], by[c]),
        decreases row.len() - k,
    {
        let x = divide(row[k], by[k]);
        proof {
            lemma_app2(*divide, row[k as int], by[k as int], x);
        }
        out.push(x);
        k += 1;
    }
    assert(out@ =~= Seq::new(row@.len(), |k: int| app2(*divide, row@[k], by@[k])));
    out
}

/// Scales every column of `a` in place to unit Euclidean length: each entry
/// is divided by `sqrt(zero + x0*x0 + x1*x1 + ...)`, the squares of its column
/// summed from the top row down. A column of zeros is divided by the square
/// root of zero, whatever `divide` makes of that. All rows must have the
/// length of the first. The scalar operations must be deterministic and
/// accept every argument.
pub fn normalize<T: Copy, A, M, D, R>(a: &mut Vec<Vec<T>>, zero: T, plus: A, times: M, divide: D, sqrt: R) where
    A: Fn(T, T) -> T,
    M: Fn(T, T) -> T,
    D: Fn(T, T) -> T,
    R: Fn(T) -> T,
    requires
        old(a).len() > 0 ==> is_rect(rows_of(old(a)@), old(a)[0]@.len()),
        is_fn2(plus),
        is_fn2(times),
        is_fn2(divide),
        is_fn1(sqrt),
    ensures
        rows_of(final(a)@) == normalized(rows_of(old(a)@), zero, plus, times, divide, sqrt),
{
    let ghost m = rows_of(a@);
    let rows = a.len();
    if rows == 0 {
        assert(rows_of(a@) =~= normalized(m, zero, plus, times, divide, sqrt));
        return;
    }
    let cols = a[0].len();
    let mut lengths: Vec<T> = Vec::with_capacity(cols);
    let mut c: usize = 0;
    while c < cols
        invariant
            is_fn2(plus),
            is_fn2(times),
            is_fn1(sqrt),
            m == rows_of(a@),
            a.len() == rows,
            is_rect(m, cols as nat),
            c <= cols,
            lengths.len() == c,
            forall|k: int| 0 <= k < c ==> #[trigger] lengths[k] == column_length(m, k, zero, plus, times, sqrt),
        decreases cols - c,
    {
        assert forall|j: int| 0 <= j < a.len() implies c < (#[trigger] a[j]).len() by {
            assert(m[j] == a[j]@);
        }
        let len = column_norm(a, c, zero, &plus, &times, &sqrt);
        lengths.push(len);
        c += 1;
    }
    let mut r: usize = 0;
    while r < rows
        invariant
            is_fn2(divide),
            m.len() == rows,
            a.len() == rows,
            is_rect(m, cols as nat),
            lengths.len() == cols,
            forall|k: int| 0 <= k < cols ==> #[trigger] lengths[k] == column_length(m, k, zero, plus, times, sqrt),
            r <= rows,
            forall|j: int| 0 <= j < r ==> (#[trigger] a[j])@ == normalized(m, zero, plus, times, divide, sqrt)[j],
            forall|j: int| r <= j < rows ==> (#[trigger] a[j])@ == m[j],
        decreases rows - r,
    {
        assert(a[r as int]@ == m[r as int]);
        let row = divided_by(&a[r], &lengths, &divide);
        a.set(r, row);
        assert(a[r as int]@ =~= normalized(m, zero, plus, times, divide, sqrt)[r as int]);
        r += 1;
    }
    assert(rows_of(a@) =~= normalized(m, zero, plus, times, divide, sqrt));
}

} // verus!
