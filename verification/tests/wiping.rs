//! Overwriting of secrets.
use noid_gkr::field::TowerField;
use noid_gkr::tower::Tower128;
use noid_gkr::mle::fold_highest_var;
use noid_gkr::wiping::{fold_all_wiping, fold_wiping, wipe_columns, wipe_elements, wipe_state, wipe_states};

type F = Tower128;

fn el(bits: u128) -> F {
    F::from_u128(bits)
}

#[test]
fn an_element_is_overwritten() {
    let mut x = el(0xDEAD_BEEF << 70);
    x.wipe();
    assert_eq!(x, el(0));
}

#[test]
fn lists_are_overwritten_and_keep_their_length() {
    let mut v: Vec<F> = (1..20).map(el).collect();
    wipe_elements(&mut v);
    assert_eq!(v, vec![el(0); 19]);

    let mut state = [el(5), el(0), el(1 << 100), el(6)];
    wipe_state(&mut state);
    assert_eq!(state, [el(0); 4]);

    let mut states = vec![[el(1), el(2), el(3), el(4)]; 3];
    wipe_states(&mut states);
    assert_eq!(states, vec![[el(0); 4]; 3]);

    let mut columns = vec![vec![el(7); 4], vec![], vec![el(9)]];
    wipe_columns(&mut columns);
    assert_eq!(columns, vec![vec![el(0); 4], vec![], vec![el(0)]]);
}

#[test]
fn folding_with_wiping_folds() {
    let table: Vec<F> = (0..16).map(|i| el(i * i + 3)).collect();
    let mut want = table.clone();
    fold_highest_var(&mut want, el(0x55));
    let mut got = table.clone();
    fold_wiping(&mut got, el(0x55));
    assert_eq!(got, want);
    let mut both = vec![table.clone(), table];
    fold_all_wiping(&mut both, el(0x55));
    assert_eq!(both, vec![want.clone(), want]);
}
