use vstd::prelude::*;
use crate::reduce::{elimination, pivot_count, pivot_step, reduced, scale_step, scaling};
use crate::scalar::{app1, app2};
use crate::shape::{identity_spec, is_rect};

verus! {

/// The identities of exact field arithmetic that Gauss-Jordan reduction
/// relies on: subtracting a multiple of zero changes nothing, eliminating
/// against a nonzero pivot leaves zero, a nonzero value divided by itself is
/// one and zero divided by a nonzero value is zero.
pub open spec fn exact_arith<T, Z, S, M, D>(zero: T, one: T, is_zero: Z, minus: S, times: M, divide: D) -> bool where
    Z: Fn(T) -> bool,
    S: Fn(T, T) -> T,
    M: Fn(T, T) -> T,
    D: Fn(T, T) -> T,
{
    &&& forall|x: T, q: T| #[trigger] app2(minus, x, app2(times, zero, q)) == x
    &&& forall|x: T, v: T|
        !app1(is_zero, v) ==> #[trigger] app2(minus, x, app2(times, v, app2(divide, x, v))) == zero
    &&& forall|v: T| !app1(is_zero, v) ==> #[trigger] app2(divide, v, v) == one
    &&& forall|v: T| !app1(is_zero, v) ==> #[trigger] app2(divide, zero, v) == zero
}

/// Every pivot met by the elimination pass of `m` is nonzero.
pub open spec fn no_zero_pivot<T, Z, S, M, D>(m: Seq<Seq<T>>, is_zero: Z, minus: S, times: M, divide: D) -> bool where
    Z: Fn(T) -> bool,
    S: Fn(T, T) -> T,
    M: Fn(T, T) -> T,
    D: Fn(T, T) -> T,
{
    forall|i: nat| i < pivot_count(m) ==> !app1(is_zero, #[trigger] elimination(m, i, is_zero, minus, times, divide)[i as int][i as int])
}

/// Columns below `i` of the `n` by `n` matrix `e` hold a nonzero diagonal
/// entry and zero everywhere else.
spec fn cleared<T, Z>(e: Seq<Seq<T>>, n: nat, i: nat, zero: T, is_zero: Z) -> bool where Z: Fn(T) -> bool {
    &&& e.len() == n
    &&& is_rect(e, n)
    &&& forall|c: int| 0 <= c < i ==> !app1(is_zero, #[trigger] e[c][c])
    &&& forall|j: int, c: int| 0 <= j < n && 0 <= c < i && j != c ==> #[trigger] e[j][c] == zero
}

proof fn lemma_step_clears<T, Z, S, M, D>(e: Seq<Seq<T>>, n: nat, i: nat, zero: T, one: T, is_zero: Z, minus: S, times: M, divide: D) where
    Z: Fn(T) -> bool,
    S: Fn(T, T) -> T,
    M: Fn(T, T) -> T,
    D: Fn(T, T) -> T,
    requires
        exact_arith(zero, one, is_zero, minus, times, divide),
        i < n,
        cleared(e, n, i, zero, is_zero),
        !app1(is_zero, e[i as int][i as int]),
    ensures
        cleared(pivot_step(e, i as int, is_zero, minus, times, divide), n, i + 1, zero, is_zero),
{
    let f = pivot_step(e, i as int, is_zero, minus, times, divide);
    let v = e[i as int][i as int];
    assert forall|j: int, c: int| 0 <= j < n && 0 <= c < i + 1 && j != i implies #[trigger] f[j][c]
        == app2(minus, e[j][c], app2(times, e[i as int][c], app2(divide, e[j][i as int], v))) by {
        assert(e[j].len() == n);
    }
    assert forall|c: int| 0 <= c < i + 1 implies !app1(is_zero, #[trigger] f[c][c]) by {
        if c != i {
            assert(e[i as int][c] == zero);
            assert(f[c][c] == app2(minus, e[c][c], app2(times, zero, app2(divide, e[c][i as int], v))));
        }
    }
    assert forall|j: int, c: int| 0 <= j < n && 0 <= c < i + 1 && j != c implies #[trigger] f[j][c] == zero by {
        if c == i {
            assert(f[j][c] == app2(minus, e[j][c], app2(times, v, app2(divide, e[j][c], v))));
        } else if j == i {
            assert(f[j][c] == e[j][c]);
        } else {
            assert(e[i as int][c] == zero);
            assert(f[j][c] == app2(minus, e[j][c], app2(times, zero, app2(divide, e[j][i as int], v))));
        }
    }
}

proof fn lemma_elimination_clears<T, Z, S, M, D>(m: Seq<Seq<T>>, i: nat, zero: T, one: T, is_zero: Z, minus: S, times: M, divide: D) where
    Z: Fn(T) -> bool,
    S: Fn(T, T) -> T,
    M: Fn(T, T) -> T,
    D: Fn(T, T) -> T,
    requires
        exact_arith(zero, one, is_zero, minus, times, divide),
        is_rect(m, m.len()),
        i <= m.len(),
        no_zero_pivot(m, is_zero, minus, times, divide),
    ensures
        cleared(elimination(m, i, is_zero, minus, times, divide), m.len(), i, zero, is_zero),
    decreases i,
{
    if i > 0 {
        let k = (i - 1) as nat;
        lemma_elimination_clears(m, k, zero, one, is_zero, minus, times, divide);
        if m.len() > 0 {
            assert(m[0].len() == m.len());
        }
        assert(!app1(is_zero, elimination(m, k, is_zero, minus, times, divide)[k as int][k as int]));
        lemma_step_clears(elimination(m, k, is_zero, minus, times, divide), m.len(), k, zero, one, is_zero, minus, times, divide);
    }
}

proof fn lemma_scaling_identity<T, Z, D>(e: Seq<Seq<T>>, n: nat, i: nat, zero: T, one: T, is_zero: Z, divide: D) where
    Z: Fn(T) -> bool,
    D: Fn(T, T) -> T,
    requires
        forall|v: T| !app1(is_zero, v) ==> #[trigger] app2(divide, v, v) == one,
        forall|v: T| !app1(is_zero, v) ==> #[trigger] app2(divide, zero, v) == zero,
        cleared(e, n, n, zero, is_zero),
        i <= n,
    ensures
        scaling(e, i, is_zero, divide).len() == n,
        forall|r: int| 0 <= r < i ==> #[trigger] scaling(e, i, is_zero, divide)[r] == identity_spec(n, zero, one)[r],
        forall|r: int| i <= r < n ==> #[trigger] scaling(e, i, is_zero, divide)[r] == e[r],
    decreases i,
{
    if i > 0 {
        let k = (i - 1) as nat;
        lemma_scaling_identity(e, n, k, zero, one, is_zero, divide);
        let s = scaling(e, k, is_zero, divide);
        assert(s[k as int] == e[k as int]);
        let v = e[k as int][k as int];
        assert(!app1(is_zero, v));
        let t = scale_step(s, k as int, is_zero, divide);
        assert(t[k as int] =~= identity_spec(n, zero, one)[k as int]);
    }
}

/// A square matrix whose elimination pass meets no zero pivot reduces to the
/// identity, for arithmetic with the identities of `exact_arith`.
pub proof fn lemma_full_rank_reduces_to_identity<T, Z, S, M, D>(
    m: Seq<Seq<T>>,
    zero: T,
    one: T,
    is_zero: Z,
    minus: S,
    times: M,
    divide: D,
) where
    Z: Fn(T) -> bool,
    S: Fn(T, T) -> T,
    M: Fn(T, T) -> T,
    D: Fn(T, T) -> T,
    requires
        is_rect(m, m.len()),
        no_zero_pivot(m, is_zero, minus, times, divide),
        exact_arith(zero, one, is_zero, minus, times, divide),
    ensures
        reduced(m, is_zero, minus, times, divide) == identity_spec(m.len(), zero, one),
{
    let n = m.len();
    if n > 0 {
        assert(m[0].len() == n);
    }
    assert(pivot_count(m) == n);
    lemma_elimination_clears(m, n, zero, one, is_zero, minus, times, divide);
    let e = elimination(m, n, is_zero, minus, times, divide);
    lemma_scaling_identity(e, n, n, zero, one, is_zero, divide);
    assert(scaling(e, n, is_zero, divide) =~= identity_spec(n, zero, one));
}

proof fn lemma_identity_unchanged<T, Z, S, M, D>(n: nat, i: nat, zero: T, one: T, is_zero: Z, minus: S, times: M, divide: D) where
    Z: Fn(T) -> bool,
    S: Fn(T, T) -> T,
    M: Fn(T, T) -> T,
    D: Fn(T, T) -> T,
    requires
        exact_arith(zero, one, is_zero, minus, times, divide),
        !app1(is_zero, one),
        i <= n,
    ensures
        elimination(identity_spec(n, zero, one), i, is_zero, minus, times, divide) == identity_spec(n, zero, one),
    decreases i,
{
    if i > 0 {
        let k = (i - 1) as int;
        lemma_identity_unchanged(n, (i - 1) as nat, zero, one, is_zero, minus, times, divide);
        let id = identity_spec(n, zero, one);
        let f = pivot_step(id, k, is_zero, minus, times, divide);
        assert forall|j: int| 0 <= j < n implies #[trigger] f[j] == id[j] by {
            if j != k {
                assert forall|c: int| 0 <= c < n implies #[trigger] f[j][c] == id[j][c] by {
                    if c == k {
                        assert(f[j][c] == app2(minus, zero, app2(times, one, app2(divide, zero, one))));
                    } else {
                        assert(f[j][c] == app2(minus, id[j][c], app2(times, zero, app2(divide, zero, one))));
                    }
                }
                assert(f[j] =~= id[j]);
            }
        }
        assert(f =~= id);
    }
}

/// Reducing twice gives what reducing once gives, for a square matrix whose
/// elimination pass meets no zero pivot and arithmetic with the identities of
/// `exact_arith` in which one is not zero.
pub proof fn lemma_full_rank_reduce_idempotent<T, Z, S, M, D>(
    m: Seq<Seq<T>>,
    zero: T,
    one: T,
    is_zero: Z,
    minus: S,
    times: M,
    divide: D,
) where
    Z: Fn(T) -> bool,
    S: Fn(T, T) -> T,
    M: Fn(T, T) -> T,
    D: Fn(T, T) -> T,
    requires
        is_rect(m, m.len()),
        no_zero_pivot(m, is_zero, minus, times, divide),
        exact_arith(zero, one, is_zero, minus, times, divide),
        !app1(is_zero, one),
    ensures
        reduced(reduced(m, is_zero, minus, times, divide), is_zero, minus, times, divide)
            == reduced(m, is_zero, minus, times, divide),
{
    let n = m.len();
    let id = identity_spec(n, zero, one);
    lemma_full_rank_reduces_to_identity(m, zero, one, is_zero, minus, times, divide);
    assert forall|i: nat| i < pivot_count(id) implies !app1(is_zero, #[trigger] elimination(id, i, is_zero, minus, times, divide)[i as int][i as int]) by {
        lemma_identity_unchanged(n, i, zero, one, is_zero, minus, times, divide);
    }
    lemma_full_rank_reduces_to_identity(id, zero, one, is_zero, minus, times, divide);
}

} // verus!
