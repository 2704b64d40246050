use order_keys::position::{test_add, test_delete, test_from_keys, test_insert, test_shift};
use order_keys::string_position::{Point, StringPosition};

#[test]
fn string_position_from_keys() {
    test_from_keys::<StringPosition>();
}

#[test]
fn string_position_add() {
    test_add::<StringPosition>();
}

#[test]
fn string_position_insert() {
    test_insert::<StringPosition>();
}

#[test]
fn string_position_shift() {
    test_shift::<StringPosition>();
}

#[test]
fn string_position_delete() {
    test_delete::<StringPosition>();
}

fn mid_point(a: &str, b: &str) -> String {
    let pa = match a {
        "[" => Point::Start,
        _ => Point::Mid(a),
    };
    let pb = match b {
        "]" => Point::End,
        _ => Point::Mid(b),
    };

    let p = StringPosition::new();
    p.mid_point(pa, pb).unwrap()
}

#[test]
fn function_name() {
    assert_eq!("5", mid_point("[", "]"));
    assert_eq!("8", mid_point("5", "]"));
    assert_eq!("9", mid_point("8", "]"));
    assert_eq!("95", mid_point("9", "]"));
    assert_eq!("98", mid_point("95", "]"));
    assert_eq!("99", mid_point("98", "]"));
    assert_eq!("995", mid_point("99", "]"));
    assert_eq!("15", mid_point("1", "2"));
    assert_eq!("001001", mid_point("001", "001002"));
    assert_eq!("0010005", mid_point("001", "001001"));
    assert_eq!("3", mid_point("[", "5"));
    assert_eq!("2", mid_point("[", "3"));
    assert_eq!("1", mid_point("[", "2"));
    assert_eq!("05", mid_point("[", "1"));
    assert_eq!("08", mid_point("05", "1"));
}
