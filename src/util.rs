//! Small helpers shared by the models.
use vstd::prelude::*;

verus! {

/// Builds a vector of `n` values, each produced by one call of `cons`.
pub fn cons_vec<T, F: Fn() -> T>(n: usize, cons: F) -> (r: Vec<T>)
    requires
        cons.requires(()),
    ensures
        r@.len() == n,
        forall|i: int| 0 <= i < n ==> cons.ensures((), #[trigger] r@[i]),
{
    let mut v: Vec<T> = Vec::new();
    let mut i: usize = 0;
    while i < n
        invariant
            i <= n,
            v@.len() == i,
            cons.requires(()),
            forall|j: int| 0 <= j < i ==> cons.ensures((), #[trigger] v@[j]),
        decreases n - i,
    {
        let x = cons();
        v.push(x);
        i = i + 1;
    }
    v
}

} // verus!
