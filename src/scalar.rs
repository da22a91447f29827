use vstd::prelude::*;

verus! {

/// `f` accepts every argument and gives one result for each.
pub open spec fn is_fn1<A, R, F: Fn(A) -> R>(f: F) -> bool {
    &&& forall|x: A| #[trigger] f.requires((x,))
    &&& forall|x: A, r: R, s: R| #[trigger] f.ensures((x,), r) && #[trigger] f.ensures((x,), s) ==> r == s
}

/// `f` accepts every pair of arguments and gives one result for each.
pub open spec fn is_fn2<A, B, R, F: Fn(A, B) -> R>(f: F) -> bool {
    &&& forall|x: A, y: B| #[trigger] f.requires((x, y))
    &&& forall|x: A, y: B, r: R, s: R|
        #[trigger] f.ensures((x, y), r) && #[trigger] f.ensures((x, y), s) ==> r == s
}

/// What `f` returns on `x`.
pub open spec fn app1<A, R, F: Fn(A) -> R>(f: F, x: A) -> R {
    choose|r: R| f.ensures((x,), r)
}

/// What `f` returns on `x` and `y`.
pub open spec fn app2<A, B, R, F: Fn(A, B) -> R>(f: F, x: A, y: B) -> R {
    choose|r: R| f.ensures((x, y), r)
}

/// A result that `f` handed back is the one the contracts speak of.
pub proof fn lemma_app1<A, R, F: Fn(A) -> R>(f: F, x: A, r: R)
    requires
        is_fn1(f),
        f.ensures((x,), r),
    ensures
        app1(f, x) == r,
{
    assert(f.ensures((x,), app1(f, x)));
}

/// A result that `f` handed back is the one the contracts speak of.
pub proof fn lemma_app2<A, B, R, F: Fn(A, B) -> R>(f: F, x: A, y: B, r: R)
    requires
        is_fn2(f),
        f.ensures((x, y), r),
    ensures
        app2(f, x, y) == r,
{
    assert(f.ensures((x, y), app2(f, x, y)));
}

} // verus!
