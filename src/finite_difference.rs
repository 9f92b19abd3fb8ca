//! Forward-difference approximation of a Jacobian, for residual functions
//! that come without an analytic one. The scalar arithmetic is the caller's:
//! `perturb` adds the step to a parameter, `slope` turns a perturbed and a
//! baseline residual into a difference quotient.
use vstd::prelude::*;

verus! {

/// `col` is column `i` of the forward-difference Jacobian: parameter `i`
/// alone is perturbed, the residual function succeeds there with as many
/// residuals as at the baseline, and each entry is the slope between the
/// perturbed and the baseline residual.
pub open spec fn is_difference_column<T, R, P, Q>(
    params: Seq<T>,
    residuals: R,
    perturb: P,
    slope: Q,
    base: Seq<T>,
    i: int,
    col: Seq<T>,
) -> bool where R: Fn(&Vec<T>) -> Option<Vec<T>>, P: Fn(T) -> T, Q: Fn(T, T) -> T {
    exists|h: T, pv: Vec<T>, pr: Vec<T>|
        {
            &&& perturb.ensures((params[i],), h)
            &&& pv@ == params.update(i, h)
            &&& residuals.ensures((&pv,), Some(pr))
            &&& pr@.len() == base.len()
            &&& col.len() == base.len()
            &&& forall|j: int| 0 <= j < base.len() ==> slope.ensures((pr@[j], base[j]), #[trigger] col[j])
        }
}

/// The residual function fails, or changes its length, once parameter `i`
/// alone is perturbed.
pub open spec fn perturbed_call_fails<T, R, P>(
    params: Seq<T>,
    residuals: R,
    perturb: P,
    base: Seq<T>,
    i: int,
) -> bool where R: Fn(&Vec<T>) -> Option<Vec<T>>, P: Fn(T) -> T {
    exists|h: T, pv: Vec<T>, out: Option<Vec<T>>|
        {
            &&& perturb.ensures((params[i],), h)
            &&& pv@ == params.update(i, h)
            &&& residuals.ensures((&pv,), out)
            &&& (out matches Some(pr) ==> pr@.len() != base.len())
        }
}

/// The forward-difference Jacobian at `params`, as one column per parameter,
/// each holding one entry per residual. `None` when the residual function
/// fails at the baseline or at a perturbed vector, or returns a residual
/// vector of another length there.
pub fn forward_difference_jacobian<T, R, P, Q>(
    params: &Vec<T>,
    residuals: &R,
    perturb: &P,
    slope: &Q,
) -> (r: Option<Vec<Vec<T>>>) where
    T: Copy,
    R: Fn(&Vec<T>) -> Option<Vec<T>>,
    P: Fn(T) -> T,
    Q: Fn(T, T) -> T,

    requires
        forall|p: &Vec<T>| residuals.requires((p,)),
        forall|t: T| perturb.requires((t,)),
        forall|a: T, b: T| slope.requires((a, b)),
    ensures
        r matches Some(cols) ==> exists|base: Vec<T>|
            {
                &&& residuals.ensures((params,), Some(base))
                &&& cols@.len() == params@.len()
                &&& forall|i: int|
                    0 <= i < params@.len() ==> is_difference_column(
                        params@,
                        *residuals,
                        *perturb,
                        *slope,
                        base@,
                        i,
                        #[trigger] cols@[i]@,
                    )
            },
        r is None ==> residuals.ensures((params,), None::<Vec<T>>) || exists|base: Vec<T>, i: int|
            {
                &&& residuals.ensures((params,), Some(base))
                &&& 0 <= i < params@.len()
                &&& perturbed_call_fails(params@, *residuals, *perturb, base@, i)
            },
{
    let base = match residuals(params) {
        Some(b) => b,
        None => return None,
    };
    let mut cols: Vec<Vec<T>> = Vec::new();
    for i in 0..params.len()
        invariant
            forall|p: &Vec<T>| residuals.requires((p,)),
            forall|t: T| perturb.requires((t,)),
            forall|a: T, b: T| slope.requires((a, b)),
            residuals.ensures((params,), Some(base)),
            cols@.len() == i,
            forall|k: int|
                0 <= k < i ==> is_difference_column(
                    params@,
                    *residuals,
                    *perturb,
                    *slope,
                    base@,
                    k,
                    #[trigger] cols@[k]@,
                ),
    {
        let h = perturb(params[i]);
        let mut pv: Vec<T> = Vec::new();
        for k in 0..params.len()
            invariant
                pv@ =~= params@.update(i as int, h).subrange(0, k as int),
                i < params@.len(),
        {
            if k == i {
                pv.push(h);
            } else {
                pv.push(params[k]);
            }
        }
        assert(pv@ =~= params@.update(i as int, h));
        let out = residuals(&pv);
        let pr = match out {
            Some(pr) => pr,
            None => {
                assert(perturbed_call_fails(params@, *residuals, *perturb, base@, i as int));
                return None;
            },
        };
        if pr.len() != base.len() {
            assert(perturbed_call_fails(params@, *residuals, *perturb, base@, i as int));
            return None;
        }
        let mut col: Vec<T> = Vec::new();
        for j in 0..base.len()
            invariant
                forall|a: T, b: T| slope.requires((a, b)),
                pr@.len() == base@.len(),
                col@.len() == j,
                forall|m: int| 0 <= m < j ==> slope.ensures((pr@[m], base@[m]), #[trigger] col@[m]),
        {
            let e = slope(pr[j], base[j]);
            col.push(e);
        }
        assert(is_difference_column(params@, *residuals, *perturb, *slope, base@, i as int, col@));
        cols.push(col);
    }
    Some(cols)
}

} // verus!
