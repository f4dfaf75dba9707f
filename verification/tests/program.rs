use lichen::program::{HighGlobal, TypeOperator, TypeValue};

#[test]
fn fresh_type_ids_count_up() {
    let mut g = HighGlobal::default();
    assert_eq!(g.next_type_id(), 0);
    assert_eq!(g.next_type_id(), 1);
    assert_eq!(g.type_id_counter, 2);
}

#[test]
fn only_a_type_id_carries_an_id() {
    assert_eq!(TypeValue::TypeId(7).as_type_id(), Some(7));
    assert_eq!(TypeValue::TypeInt.as_type_id(), None);
    assert_eq!(TypeValue::TypeStruct.as_type_id(), None);
}

#[test]
fn binary_operators_wrap_and_compare() {
    assert_eq!(TypeOperator::Add.apply_binary(2, 3), Some(5));
    assert_eq!(TypeOperator::Add.apply_binary(usize::MAX, 2), Some(1));
    assert_eq!(TypeOperator::Sub.apply_binary(2, 3), Some(usize::MAX));
    assert_eq!(TypeOperator::Sub.apply_binary(5, 3), Some(2));
    assert_eq!(TypeOperator::Leq.apply_binary(3, 3), Some(1));
    assert_eq!(TypeOperator::Leq.apply_binary(4, 3), Some(0));
    assert_eq!(TypeOperator::Eq.apply_binary(4, 4), Some(1));
    assert_eq!(TypeOperator::Eq.apply_binary(4, 5), Some(0));
    assert_eq!(TypeOperator::Fresh.apply_binary(1, 1), None);
}
