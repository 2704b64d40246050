use order_keys::digits::{index_of, max_index, str_at, string_at};
use order_keys::int_position::IntPosition;
use order_keys::position::{PosError, Position};
use order_keys::string_position::{Point, StringPosition};

fn mid(a: &str, b: &str) -> Result<String, PosError> {
    let pa = match a {
        "[" => Point::Start,
        _ => Point::Mid(a),
    };
    let pb = match b {
        "]" => Point::End,
        _ => Point::Mid(b),
    };
    StringPosition::new().mid_point(pa, pb)
}

#[test]
fn mid_point_rejects_invalid_ranges() {
    let space = StringPosition::new();
    assert_eq!(Err(PosError::InvalidRange), mid("5", "5"));
    assert_eq!(Err(PosError::InvalidRange), mid("5", "3"));
    assert_eq!(Err(PosError::InvalidRange), mid("21", "2"));
    assert_eq!(
        Err(PosError::InvalidRange),
        space.mid_point(Point::End, Point::Start)
    );
    assert_eq!(
        Err(PosError::InvalidRange),
        space.mid_point(Point::End, Point::Mid("5"))
    );
    assert_eq!(
        Err(PosError::InvalidRange),
        space.mid_point(Point::Mid("5"), Point::Start)
    );
    assert_eq!(
        Err(PosError::InvalidRange),
        space.mid_point(Point::End, Point::End)
    );
    assert_eq!(
        Err(PosError::InvalidRange),
        space.mid_point(Point::Start, Point::Start)
    );
}

#[test]
fn mid_point_accepts_prefix_pairs() {
    // The left key is a proper prefix of the right key.
    assert_eq!("21", mid("2", "22").unwrap());
    assert_eq!("205", mid("2", "21").unwrap());
    assert_eq!("15", mid("1", "2").unwrap());
}

#[test]
fn mid_point_results_are_strictly_between() {
    let pairs = [
        ("[", "]"),
        ("[", "1"),
        ("[", "0001"),
        ("001", "001002"),
        ("1", "105"),
        ("499", "5"),
        ("9", "]"),
        ("99999", "]"),
    ];
    for (a, b) in pairs {
        let m = mid(a, b).unwrap();
        if a != "[" {
            assert!(a < m.as_str(), "{} < {} failed", a, m);
        }
        if b != "]" {
            assert!(m.as_str() < b, "{} < {} failed", m, b);
        }
        assert!(!m.ends_with('0'), "{} ends in zero", m);
        assert!(!m.is_empty());
    }
}

#[test]
fn repeated_append_grows_keys_upward() {
    // Append against the fixed End sentinel: each key must sort above the
    // previous one and never end in a zero digit.
    let mut last = mid("[", "]").unwrap();
    for _ in 0..20 {
        let next = mid(last.as_str(), "]").unwrap();
        assert!(last < next);
        assert!(!next.ends_with('0'));
        last = next;
    }
}

#[test]
fn repeated_inner_insert_stays_between() {
    // Repeatedly insert between a fixed lower key and the previous result:
    // the string backend never runs out of room.
    let hi = "2";
    let mut cur = mid("1", hi).unwrap();
    for _ in 0..20 {
        let next = mid("1", cur.as_str()).unwrap();
        assert!("1" < next.as_str());
        assert!(next < cur);
        assert!(!next.ends_with('0'));
        cur = next;
    }
}

#[test]
fn digit_alphabet_lookup() {
    assert_eq!(Some(0), index_of("0"));
    assert_eq!(Some(5), index_of("5"));
    assert_eq!(Some(9), index_of("942"));
    assert_eq!(None, index_of("x1"));
    assert_eq!(10, max_index());
    assert_eq!(Some("7"), str_at(7));
    assert_eq!(None, str_at(10));
    assert_eq!(Some(String::from("3")), string_at(3));
    assert_eq!(None, string_at(11));
}

#[test]
fn point_classification() {
    let p = Point::from_str("");
    assert!(matches!(p, Point::Start));
    let q = Point::from_str("42");
    assert!(matches!(q, Point::Mid("42")));
    assert_eq!(Some(""), Point::Start.as_str());
    assert_eq!(Some("42"), q.as_str());
    assert_eq!(None::<&str>, Point::End.as_str());
}

#[test]
fn string_position_out_of_bounds() {
    let mut pos = StringPosition::from_keys(vec!["a", "b"]);
    assert_eq!(Err(PosError::OutOfBounds), pos.insert("x", 3));
    assert_eq!(Err(PosError::OutOfBounds), pos.delete(2));
    assert_eq!(Err(PosError::OutOfBounds), pos.shift(0, 2));
    assert_eq!(Err(PosError::OutOfBounds), pos.shift(2, 0));
    assert_eq!(vec!["a", "b"], pos.keys());
}

#[test]
fn int_position_out_of_bounds() {
    let mut pos = IntPosition::from_keys(vec!["a", "b"]);
    assert_eq!(Err(PosError::OutOfBounds), pos.insert("x", 3));
    assert_eq!(Err(PosError::OutOfBounds), pos.delete(2));
    assert_eq!(Err(PosError::OutOfBounds), pos.shift(0, 2));
    assert_eq!(vec!["a", "b"], pos.keys());
}

#[test]
fn empty_space_operations() {
    let mut pos = StringPosition::from_keys(vec![]);
    assert!(pos.keys().is_empty());
    assert!(pos.order().is_empty());
    assert_eq!(Err(PosError::OutOfBounds), pos.delete(0));
    pos.add("solo");
    assert_eq!(vec!["solo"], pos.keys());
    assert_eq!(Ok(()), pos.insert("first", 0));
    assert_eq!(vec!["first", "solo"], pos.keys());
}

#[test]
fn string_insert_at_both_boundaries() {
    let mut pos = StringPosition::from_keys(vec!["m"]);
    assert_eq!(Ok(()), pos.insert("front", 0));
    assert_eq!(Ok(()), pos.insert("back", 2));
    assert_eq!(vec!["front", "m", "back"], pos.keys());
    assert_eq!(pos.keys(), pos.order());
}

#[test]
fn slot_order_equals_key_order_after_edits() {
    let mut s = StringPosition::from_keys(vec!["a", "b", "c", "d"]);
    let mut n = IntPosition::from_keys(vec!["a", "b", "c", "d"]);
    assert_eq!(Ok(()), s.insert("e", 2));
    assert_eq!(Ok(()), n.insert("e", 2));
    s.add("f");
    n.add("f");
    assert_eq!(Ok(String::from("b")), s.delete(1));
    assert_eq!(Ok(String::from("b")), n.delete(1));
    assert_eq!(Ok(()), s.insert("g", 0));
    assert_eq!(Ok(()), n.insert("g", 0));
    let expected = vec!["g", "a", "e", "c", "d", "f"];
    assert_eq!(expected, s.keys());
    assert_eq!(expected, s.order());
    assert_eq!(expected, n.keys());
    assert_eq!(expected, n.order());
}

#[test]
fn shift_swaps_labels_pairwise() {
    // The shift operation is a pairwise label swap, not a relocation.
    let mut pos = IntPosition::from_keys(vec!["a", "b", "c", "d", "e"]);
    assert_eq!(Ok(()), pos.shift(0, 4));
    assert_eq!(vec!["e", "b", "c", "d", "a"], pos.keys());
    assert_eq!(Ok(()), pos.shift(1, 1));
    assert_eq!(vec!["e", "b", "c", "d", "a"], pos.keys());
    assert_eq!(pos.keys(), pos.order());
}
