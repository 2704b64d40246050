use order_keys::int_position::IntPosition;
use order_keys::position::{test_add, test_delete, test_from_keys, test_insert, test_shift};

#[test]
fn int_position_from_keys() {
    test_from_keys::<IntPosition>();
}

#[test]
fn int_position_add() {
    test_add::<IntPosition>();
}

#[test]
fn int_position_insert() {
    test_insert::<IntPosition>();
}

#[test]
fn int_position_shift() {
    test_shift::<IntPosition>();
}

#[test]
fn int_position_delete() {
    test_delete::<IntPosition>();
}
