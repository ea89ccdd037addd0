use board_plugin::Coordinates;

#[test]
fn add_is_componentwise() {
    let a = Coordinates { x: 3, y: 4 };
    let b = Coordinates { x: 10, y: 20 };
    assert_eq!(a.add(b), Coordinates { x: 13, y: 24 });
}

#[test]
fn add_saturates_at_max() {
    let a = Coordinates { x: u16::MAX, y: 5 };
    let b = Coordinates { x: 1, y: u16::MAX };
    assert_eq!(a.add(b), Coordinates { x: u16::MAX, y: u16::MAX });
}

#[test]
fn sub_is_componentwise() {
    let a = Coordinates { x: 9, y: 7 };
    let b = Coordinates { x: 4, y: 2 };
    assert_eq!(a.sub(b), Coordinates { x: 5, y: 5 });
}

#[test]
fn sub_saturates_at_zero() {
    let a = Coordinates { x: 0, y: 0 };
    let b = Coordinates { x: 1, y: 0 };
    assert_eq!(a.sub(b), Coordinates { x: 0, y: 0 });
}

#[test]
fn add_signed_clamps_low_and_high() {
    let origin = Coordinates { x: 0, y: 0 };
    assert_eq!(origin.add_signed(-1, -1), Coordinates { x: 0, y: 0 });
    let corner = Coordinates { x: u16::MAX, y: 3 };
    assert_eq!(corner.add_signed(1, -3), Coordinates { x: u16::MAX, y: 0 });
    let mid = Coordinates { x: 5, y: 5 };
    assert_eq!(mid.add_signed(-2, 3), Coordinates { x: 3, y: 8 });
}

#[test]
fn from_tuple() {
    let c = Coordinates::from((3, 4));
    assert_eq!(c, Coordinates { x: 3, y: 4 });
}

#[test]
fn ordering_is_lexicographic() {
    let a = Coordinates { x: 1, y: 2 };
    let b = Coordinates { x: 1, y: 3 };
    let c = Coordinates { x: 2, y: 0 };
    assert!(a < b);
    assert!(b < c);
}
