//! Overwriting of secrets.
use vstd::prelude::*;
use zeroize::Zeroize;

use crate::field::TowerField;
use crate::mle::fold;
use crate::rounds::views;
use crate::sumcheck::fold_tables;

verus! {

/// Overwrites a word by `zeroize::Zeroize::zeroize`, which leaves a `u128` at its
/// default value. That the write reaches memory is not stated.
#[verifier::external_body]
pub(crate) fn zeroize_word(word: &mut u128)
    ensures
        *final(word) == 0,
{
    word.zeroize();
}

/// Overwrites the elements of a list.
pub fn wipe_elements<F: TowerField>(v: &mut Vec<F>)
    ensures
        final(v).len() == old(v).len(),
        forall|i: int| 0 <= i < final(v).len() ==> #[trigger] final(v)[i] == F::zero(),
{
    let n: usize = v.len();
    let mut i: usize = 0;
    while i < n
        invariant
            i <= n == v.len() == old(v).len(),
            forall|k: int| 0 <= k < i ==> #[trigger] v[k] == F::zero(),
        decreases n - i,
    {
        v[i].wipe();
        i += 1;
    }
}

/// Overwrites a state.
pub fn wipe_state<F: TowerField>(state: &mut [F; 4])
    ensures
        forall|j: int| 0 <= j < 4 ==> #[trigger] final(state)@[j] == F::zero(),
{
    state[0].wipe();
    state[1].wipe();
    state[2].wipe();
    state[3].wipe();
}

/// Overwrites the states of a list.
pub fn wipe_states<F: TowerField>(v: &mut Vec<[F; 4]>)
    ensures
        final(v).len() == old(v).len(),
        forall|i: int, j: int|
            0 <= i < final(v).len() && 0 <= j < 4 ==> #[trigger] final(v)[i]@[j] == F::zero(),
{
    let n: usize = v.len();
    let mut i: usize = 0;
    while i < n
        invariant
            i <= n == v.len() == old(v).len(),
            forall|k: int, j: int|
                0 <= k < i && 0 <= j < 4 ==> #[trigger] v[k]@[j] == F::zero(),
        decreases n - i,
    {
        wipe_state(&mut v[i]);
        i += 1;
    }
}

/// Overwrites the columns of a list.
pub fn wipe_columns<F: TowerField>(v: &mut Vec<Vec<F>>)
    ensures
        final(v).len() == old(v).len(),
        forall|c: int|
            0 <= c < final(v).len() ==> (#[trigger] final(v)[c]).len() == old(v)[c].len(),
        forall|c: int, i: int|
            0 <= c < final(v).len() && 0 <= i < final(v)[c].len()
                ==> #[trigger] final(v)[c]@[i] == F::zero(),
{
    let n: usize = v.len();
    let mut c: usize = 0;
    while c < n
        invariant
            c <= n == v.len() == old(v).len(),
            forall|k: int| 0 <= k < n ==> (#[trigger] v[k]).len() == old(v)[k].len(),
            forall|k: int, i: int|
                0 <= k < c && 0 <= i < v[k].len() ==> #[trigger] v[k]@[i] == F::zero(),
        decreases n - c,
    {
        wipe_elements(&mut v[c]);
        c += 1;
    }
}

/// Sets the highest variable of a table to `r`, in place, and overwrites the half
/// that falls away before it is cut off.
pub fn fold_wiping<F: TowerField>(t: &mut Vec<F>, r: F)
    ensures
        final(t)@ == fold(old(t)@, r),
{
    let n: usize = t.len();
    let half: usize = n / 2;
    let mut j: usize = 0;
    while j < half
        invariant
            j <= half,
            half == old(t).len() / 2,
            t.len() == old(t).len(),
            forall|k: int| 0 <= k < j ==> #[trigger] t[k] == fold(old(t)@, r)[k],
            forall|k: int| j <= k < t.len() ==> #[trigger] t[k] == old(t)[k],
        decreases half - j,
    {
        let a = t[j];
        let b = t[j + half];
        t.set(j, a.plus(r.times(a.plus(b))));
        j += 1;
    }
    let mut k: usize = half;
    while k < n
        invariant
            half <= k <= n == t.len() == old(t).len(),
            half == old(t).len() / 2,
            forall|i: int| 0 <= i < half ==> #[trigger] t[i] == fold(old(t)@, r)[i],
            forall|i: int| half <= i < k ==> #[trigger] t[i] == F::zero(),
        decreases n - k,
    {
        t[k].wipe();
        k += 1;
    }
    t.truncate(half);
    proof {
        assert(t@ =~= fold(old(t)@, r));
    }
}

/// Folds every table by [`fold_wiping`].
pub fn fold_all_wiping<F: TowerField>(tables: &mut Vec<Vec<F>>, r: F)
    ensures
        views(final(tables)@) == fold_tables(views(old(tables)@), r),
        final(tables).len() == old(tables).len(),
{
    let n: usize = tables.len();
    let mut c: usize = 0;
    while c < n
        invariant
            c <= n == tables.len() == old(tables).len(),
            forall|k: int| 0 <= k < c ==> #[trigger] tables[k]@ == fold(old(tables)[k]@, r),
            forall|k: int| c <= k < n ==> #[trigger] tables[k] == old(tables)[k],
        decreases n - c,
    {
        fold_wiping(&mut tables[c], r);
        c += 1;
    }
    proof {
        assert(views(tables@) =~= fold_tables(views(old(tables)@), r));
    }
}

} // verus!
