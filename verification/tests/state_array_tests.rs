use mcts_search::state_array::{make_mutation, ArrayMutation, ArrayOp, StateArray};
use mcts_search::types::State;

#[test]
fn add_one_increments_coordinate() {
    let s = StateArray([5, 0, 0, 0, 0, 0]);
    let m = make_mutation(0, ArrayOp::AddOne);
    let r = s.apply(m);
    assert_eq!(r, StateArray([6, 0, 0, 0, 0, 0]));
}

#[test]
fn sub_one_decrements_coordinate() {
    let s = StateArray([0, -3, 0, 0, 0, 0]);
    let r = s.apply(make_mutation(1, ArrayOp::SubOne));
    assert_eq!(r, StateArray([0, -4, 0, 0, 0, 0]));
}

#[test]
fn multiply_operators_scale() {
    let s = StateArray([7, 7, 7, 7, 7, 7]);
    assert_eq!(s.apply(make_mutation(2, ArrayOp::MultiplyTwo)).0[2], 14);
    assert_eq!(s.apply(make_mutation(3, ArrayOp::MultiplyThree)).0[3], 21);
    assert_eq!(s.apply(make_mutation(4, ArrayOp::MultiplyFive)).0[4], 35);
    assert_eq!(s.apply(make_mutation(5, ArrayOp::MultiplySeven)).0[5], 49);
    assert_eq!(s.apply(make_mutation(0, ArrayOp::MultiplyEleven)).0[0], 77);
}

#[test]
fn divide_truncates_toward_zero() {
    let s = StateArray([-7, 7, -9, 9, -1, 1]);
    assert_eq!(s.apply(make_mutation(0, ArrayOp::DivideTwo)).0[0], -3);
    assert_eq!(s.apply(make_mutation(1, ArrayOp::DivideTwo)).0[1], 3);
    assert_eq!(s.apply(make_mutation(2, ArrayOp::DivideThree)).0[2], -3);
    assert_eq!(s.apply(make_mutation(3, ArrayOp::DivideFive)).0[3], 1);
    assert_eq!(s.apply(make_mutation(4, ArrayOp::DivideSeven)).0[4], 0);
    assert_eq!(s.apply(make_mutation(5, ArrayOp::DivideEleven)).0[5], 0);
}

#[test]
fn mutations_clamp_at_the_domain_bounds() {
    let high = StateArray([50000, 0, 0, 0, 0, 0]);
    assert_eq!(high.apply(make_mutation(0, ArrayOp::AddOne)).0[0], 50000);
    assert_eq!(high.apply(make_mutation(0, ArrayOp::MultiplyEleven)).0[0], 50000);

    let low = StateArray([-50000, 0, 0, 0, 0, 0]);
    assert_eq!(low.apply(make_mutation(0, ArrayOp::SubOne)).0[0], -50000);
    assert_eq!(low.apply(make_mutation(0, ArrayOp::MultiplyTwo)).0[0], -50000);

    let near = StateArray([49999, 0, 0, 0, 0, 0]);
    assert_eq!(near.apply(make_mutation(0, ArrayOp::MultiplyTwo)).0[0], 50000);
}

#[test]
fn out_of_range_index_acts_as_identity() {
    let s = StateArray([1, 2, 3, 4, 5, 6]);
    let r = s.apply(ArrayMutation { index: 6, op: ArrayOp::AddOne });
    assert_eq!(r, s);
}

#[test]
fn state_equality_is_by_coordinates() {
    let a = StateArray([1, 2, 3, 4, 5, 6]);
    let b = StateArray([1, 2, 3, 4, 5, 6]);
    let c = StateArray([1, 2, 3, 4, 5, 7]);
    assert!(a.eq_state(&b));
    assert!(!a.eq_state(&c));
    assert_eq!(a, b);
    assert_ne!(a, c);
}

#[test]
fn mutation_set_enumerates_all_operators_per_coordinate() {
    let ms = StateArray::get_possible_mutations();
    assert_eq!(ms.len(), 72);
    assert_eq!(ms[0], ArrayMutation { index: 0, op: ArrayOp::AddOne });
    assert_eq!(ms[1], ArrayMutation { index: 0, op: ArrayOp::SubOne });
    assert_eq!(ms[11], ArrayMutation { index: 0, op: ArrayOp::DivideEleven });
    assert_eq!(ms[12], ArrayMutation { index: 1, op: ArrayOp::AddOne });
    assert_eq!(ms[71], ArrayMutation { index: 5, op: ArrayOp::DivideEleven });
}

#[test]
fn random_state_lies_in_the_domain() {
    for _ in 0..20 {
        let s = StateArray::random_state();
        for k in 0..6 {
            assert!(s.0[k] >= -50000 && s.0[k] < 50000);
        }
    }
}
