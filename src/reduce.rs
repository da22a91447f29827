use vstd::prelude::*;
use crate::scalar::{app1, app2, is_fn1, is_fn2, lemma_app1, lemma_app2};
use crate::copy::dup;
use crate::shape::{is_rect, rows_of};

verus! {

/// Number of diagonal positions visited: the smaller of the row count and the
/// length of the first row.
pub open spec fn pivot_count<T>(m: Seq<Seq<T>>) -> nat {
    if m.len() == 0 {
        0
    } else if m.len() <= m[0].len() {
        m.len()
    } else {
        m[0].len()
    }
}

/// Row `row` with column `i` eliminated against pivot row `piv`: each entry
/// `x` becomes `x - p * (row[i] / piv[i])`, `p` the entry of `piv` in that column.
pub open spec fn eliminated<T, S, M, D>(row: Seq<T>, piv: Seq<T>, i: int, minus: S, times: M, divide: D) -> Seq<T> where
    S: Fn(T, T) -> T,
    M: Fn(T, T) -> T,
    D: Fn(T, T) -> T,
{
    let q = app2(divide, row[i], piv[i]);
    Seq::new(row.len(), |k: int| app2(minus, row[k], app2(times, piv[k], q)))
}

/// One step of the elimination pass at diagonal position `i`: nothing when the
/// pivot is zero, else column `i` is eliminated from every other row.
pub open spec fn pivot_step<T, Z, S, M, D>(m: Seq<Seq<T>>, i: int, is_zero: Z, minus: S, times: M, divide: D) -> Seq<Seq<T>> where
    Z: Fn(T) -> bool,
    S: Fn(T, T) -> T,
    M: Fn(T, T) -> T,
    D: Fn(T, T) -> T,
{
    if app1(is_zero, m[i][i]) {
        m
    } else {
        Seq::new(m.len(), |j: int| if j == i { m[j] } else { eliminated(m[j], m[i], i, minus, times, divide) })
    }
}

/// The elimination pass over the first `n` diagonal positions.
pub open spec fn elimination<T, Z, S, M, D>(m: Seq<Seq<T>>, n: nat, is_zero: Z, minus: S, times: M, divide: D) -> Seq<Seq<T>> where
    Z: Fn(T) -> bool,
    S: Fn(T, T) -> T,
    M: Fn(T, T) -> T,
    D: Fn(T, T) -> T,
    decreases n,
{
    if n == 0 {
        m
    } else {
        pivot_step(elimination(m, (n - 1) as nat, is_zero, minus, times, divide), n - 1, is_zero, minus, times, divide)
    }
}

/// One step of the scaling pass at diagonal position `i`: a row whose pivot
/// is not zero is divided by that pivot.
pub open spec fn scale_step<T, Z, D>(m: Seq<Seq<T>>, i: int, is_zero: Z, divide: D) -> Seq<Seq<T>> where
    Z: Fn(T) -> bool,
    D: Fn(T, T) -> T,
{
    if app1(is_zero, m[i][i]) {
        m
    } else {
        m.update(i, Seq::new(m[i].len(), |k: int| app2(divide, m[i][k], m[i][i])))
    }
}

/// The scaling pass over the first `n` diagonal positions.
pub open spec fn scaling<T, Z, D>(m: Seq<Seq<T>>, n: nat, is_zero: Z, divide: D) -> Seq<Seq<T>> where
    Z: Fn(T) -> bool,
    D: Fn(T, T) -> T,
    decreases n,
{
    if n == 0 {
        m
    } else {
        scale_step(scaling(m, (n - 1) as nat, is_zero, divide), n - 1, is_zero, divide)
    }
}

/// Gauss-Jordan reduction without pivoting: the elimination pass, then the
/// scaling pass, both over the leading diagonal positions.
pub open spec fn reduced<T, Z, S, M, D>(m: Seq<Seq<T>>, is_zero: Z, minus: S, times: M, divide: D) -> Seq<Seq<T>> where
    Z: Fn(T) -> bool,
    S: Fn(T, T) -> T,
    M: Fn(T, T) -> T,
    D: Fn(T, T) -> T,
{
    let n = pivot_count(m);
    scaling(elimination(m, n, is_zero, minus, times, divide), n, is_zero, divide)
}

proof fn lemma_elimination_shape<T, Z, S, M, D>(m: Seq<Seq<T>>, n: nat, cols: nat, is_zero: Z, minus: S, times: M, divide: D) where
    Z: Fn(T) -> bool,
    S: Fn(T, T) -> T,
    M: Fn(T, T) -> T,
    D: Fn(T, T) -> T,
    requires
        is_rect(m, cols),
        n <= m.len(),
        n <= cols,
    ensures
        elimination(m, n, is_zero, minus, times, divide).len() == m.len(),
        is_rect(elimination(m, n, is_zero, minus, times, divide), cols),
    decreases n,
{
    if n > 0 {
        lemma_elimination_shape(m, (n - 1) as nat, cols, is_zero, minus, times, divide);
    }
}

proof fn lemma_scaling_shape<T, Z, D>(m: Seq<Seq<T>>, n: nat, cols: nat, is_zero: Z, divide: D) where
    Z: Fn(T) -> bool,
    D: Fn(T, T) -> T,
    requires
        is_rect(m, cols),
        n <= m.len(),
        n <= cols,
    ensures
        scaling(m, n, is_zero, divide).len() == m.len(),
        is_rect(scaling(m, n, is_zero, divide), cols),
    decreases n,
{
    if n > 0 {
        lemma_scaling_shape(m, (n - 1) as nat, cols, is_zero, divide);
    }
}

/// The row that eliminates column `i` of `row` against `piv`.
fn eliminate_row<T: Copy, S, M, D>(row: &Vec<T>, piv: &Vec<T>, i: usize, minus: &S, times: &M, divide: &D) -> (r: Vec<T>) where
    S: Fn(T, T) -> T,
    M: Fn(T, T) -> T,
    D: Fn(T, T) -> T,
    requires
        is_fn2(*minus),
        is_fn2(*times),
        is_fn2(*divide),
        row.len() == piv.len(),
        i < row.len(),
    ensures
        r@ == eliminated(row@, piv@, i as int, *minus, *times, *divide),
{
    let q = divide(row[i], piv[i]);
    proof {
        lemma_app2(*divide, row[i as int], piv[i as int], q);
    }
    let mut out: Vec<T> = Vec::with_capacity(row.len());
    let mut k: usize = 0;
    while k < row.len()
        invariant
            is_fn2(*minus),
            is_fn2(*times),
            row.len() == piv.len(),
            k <= row.len(),
            out.len() == k,
            forall|c: int| 0 <= c < k ==> #[trigger] out[c] == app2(*minus, row[c], app2(*times, piv[c], q)),
        decreases row.len() - k,
    {
        let p = times(piv[k], q);
        proof {
            lemma_app2(*times, piv[k as int], q, p);
        }
        let x = minus(row[k], p);
        proof {
            lemma_app2(*minus, row[k as int], p, x);
        }
        out.push(x);
        k += 1;
    }
    assert(out@ =~= eliminated(row@, piv@, i as int, *minus, *times, *divide));
    out
}

/// Row `row` divided entrywise by `v`.
fn divided_row<T: Copy, D>(row: &Vec<T>, v: T, divide: &D) -> (r: Vec<T>) where
    D: Fn(T, T) -> T,
    requires
        is_fn2(*divide),
    ensures
        r@ == Seq::new(row@.len(), |k: int| app2(*divide, row@[k], v)),
{
    let mut out: Vec<T> = Vec::with_capacity(row.len());
    let mut k: usize = 0;
    while k < row.len()
        invariant
            is_fn2(*divide),
            k <= row.len(),
            out.len() == k,
            forall|c: int| 0 <= c < k ==> #[trigger] out[c] == app2(*divide, row[c], v),
        decreases row.len() - k,
    {
        let x = divide(row[k], v);
        proof {
            lemma_app2(*divide, row[k as int], v, x);
        }
        out.push(x);
        k += 1;
    }
    assert(out@ =~= Seq::new(row@.len(), |k: int| app2(*divide, row@[k], v)));
    out
}

/// Reduces `a` in place to reduced row-echelon form by Gauss-Jordan
/// elimination without pivoting.
///
/// For each diagonal position `i` below the smaller of the row count and the
/// first row's length, in ascending order: when `is_zero(a[i][i])` the
/// position is skipped (no row is swapped in); otherwise every other row `j`,
/// in ascending order, has each entry `x` in column `k` replaced by
/// `minus(x, times(a[i][k], divide(a[j][i], a[i][i])))`. A second pass over the same
/// positions divides each row whose pivot is not zero by that pivot.
///
/// All rows must have the same length. The scalar operations must be
/// deterministic and accept every argument.
pub fn rref<T: Copy, Z, S, M, D>(a: &mut Vec<Vec<T>>, is_zero: Z, minus: S, times: M, divide: D) where
    Z: Fn(T) -> bool,
    S: Fn(T, T) -> T,
    M: Fn(T, T) -> T,
    D: Fn(T, T) -> T,
    requires
        old(a).len() > 0 ==> is_rect(rows_of(old(a)@), old(a)[0]@.len()),
        is_fn1(is_zero),
        is_fn2(minus),
        is_fn2(times),
        is_fn2(divide),
    ensures
        rows_of(final(a)@) == reduced(rows_of(old(a)@), is_zero, minus, times, divide),
{
    let ghost m0 = rows_of(a@);
    let rows = a.len();
    if rows == 0 {
        assert(rows_of(a@) =~= m0);
        return;
    }
    let cols = a[0].len();
    let n: usize = if rows <= cols { rows } else { cols };
    assert(n == pivot_count(m0));
    let mut i: usize = 0;
    while i < n
        invariant
            is_fn1(is_zero),
            is_fn2(minus),
            is_fn2(times),
            is_fn2(divide),
            n <= rows,
            n <= cols,
            i <= n,
            is_rect(m0, cols as nat),
            m0.len() == rows,
            a.len() == rows,
            rows_of(a@) == elimination(m0, i as nat, is_zero, minus, times, divide),
        decreases n - i,
    {
        proof {
            lemma_elimination_shape(m0, i as nat, cols as nat, is_zero, minus, times, divide);
        }
        let ghost m = rows_of(a@);
        assert(m[i as int] == a[i as int]@);
        let divisor = a[i][i];
        let z = is_zero(divisor);
        proof {
            lemma_app1(is_zero, divisor, z);
        }
        if !z {
            let ghost target = pivot_step(m, i as int, is_zero, minus, times, divide);
            let mut j: usize = 0;
            while j < rows
                invariant
                    is_fn2(minus),
                    is_fn2(times),
                    is_fn2(divide),
                    i < n,
                    n <= rows,
                    n <= cols,
                    j <= rows,
                    a.len() == rows,
                    m.len() == rows,
                    is_rect(m, cols as nat),
                    !app1(is_zero, m[i as int][i as int]),
                    target == pivot_step(m, i as int, is_zero, minus, times, divide),
                    a[i as int]@ == m[i as int],
                    forall|r: int| 0 <= r < j ==> (#[trigger] a[r])@ == target[r],
                    forall|r: int| j <= r < rows ==> (#[trigger] a[r])@ == m[r],
                decreases rows - j,
            {
                if j != i {
                    assert(a[j as int]@ == m[j as int]);
                    let row = eliminate_row(&a[j], &a[i], i, &minus, &times, &divide);
                    a.set(j, row);
                }
                j += 1;
            }
            assert(rows_of(a@) =~= target);
        } else {
            assert(rows_of(a@) =~= m);
        }
        i += 1;
    }
    let ghost m1 = rows_of(a@);
    proof {
        lemma_elimination_shape(m0, n as nat, cols as nat, is_zero, minus, times, divide);
    }
    let mut i: usize = 0;
    while i < n
        invariant
            is_fn1(is_zero),
            is_fn2(divide),
            n <= rows,
            n <= cols,
            i <= n,
            is_rect(m1, cols as nat),
            m1.len() == rows,
            m1 == elimination(m0, n as nat, is_zero, minus, times, divide),
            a.len() == rows,
            rows_of(a@) == scaling(m1, i as nat, is_zero, divide),
        decreases n - i,
    {
        proof {
            lemma_scaling_shape(m1, i as nat, cols as nat, is_zero, divide);
        }
        let ghost m = rows_of(a@);
        assert(m[i as int] == a[i as int]@);
        let divisor = a[i][i];
        let z = is_zero(divisor);
        proof {
            lemma_app1(is_zero, divisor, z);
        }
        if !z {
            let row = divided_row(&a[i], divisor, &divide);
            a.set(i, row);
            assert(rows_of(a@) =~= scale_step(m, i as int, is_zero, divide));
        } else {
            assert(rows_of(a@) =~= m);
        }
        i += 1;
    }
}

/// The reduced row-echelon form of `a`, computed by `dup` on a copy, with `a`
/// left as it was: copying then reducing gives exactly what `rref` makes of
/// `a` in place.
pub fn reduced_copy<T: Copy, Z, S, M, D>(a: &Vec<Vec<T>>, is_zero: Z, minus: S, times: M, divide: D) -> (r: Vec<Vec<T>>) where
    Z: Fn(T) -> bool,
    S: Fn(T, T) -> T,
    M: Fn(T, T) -> T,
    D: Fn(T, T) -> T,
    requires
        a.len() > 0 ==> is_rect(rows_of(a@), a[0]@.len()),
        is_fn1(is_zero),
        is_fn2(minus),
        is_fn2(times),
        is_fn2(divide),
    ensures
        rows_of(r@) == reduced(rows_of(a@), is_zero, minus, times, divide),
{
    let ghost m0 = rows_of(a@);
    let reduce = |m: &mut Vec<Vec<T>>|
        requires
            old(m).len() > 0 ==> is_rect(rows_of(old(m)@), old(m)[0]@.len()),
            is_fn1(is_zero),
            is_fn2(minus),
            is_fn2(times),
            is_fn2(divide),
        ensures
            rows_of(final(m)@) == reduced(rows_of(old(m)@), is_zero, minus, times, divide),
        {
            rref(m, is_zero, minus, times, divide)
        };
    assert forall|m: &mut Vec<Vec<T>>| rows_of(m@) == m0 implies reduce.requires((m,)) by {
        assert(rows_of(m@).len() == m.len() && m0.len() == a.len());
        if m.len() > 0 {
            assert(rows_of(m@)[0] == m[0]@);
            assert(rows_of(a@)[0] == a[0]@);
        }
    }
    dup(reduce, a)
}

} // verus!
