use isoline::util::{point_to_index, positions_equal, Fraction, Image, Point};

#[test]
fn test_point_to_index() {
    let pt = Point { x: 0, y: 2 };
    assert_eq!(point_to_index(&pt, 1), 2);
    assert_eq!(point_to_index(&pt, 3), 6);
}

#[test]
fn get_val_inside_and_outside() {
    let data = [1, 2, 3, 4, 5, 6];
    let img = Image::new(&data, 3, 2);
    assert_eq!(img.get_val(&Point { x: 0, y: 0 }), Some(1));
    assert_eq!(img.get_val(&Point { x: 2, y: 1 }), Some(6));
    assert_eq!(img.get_val(&Point { x: 1, y: 1 }), Some(5));
    assert_eq!(img.get_val(&Point { x: 3, y: 0 }), None);
    assert_eq!(img.get_val(&Point { x: 0, y: 2 }), None);
}

#[test]
fn try_new_rejects_wrong_sample_count() {
    let data = [1, 2, 3, 4, 5];
    assert!(Image::try_new(&data, 3, 2).is_none());
    assert!(Image::try_new(&data, 5, 1).is_some());
    assert!(Image::try_new(&[], 0, 7).is_some());
}

#[test]
fn fractions_compare_by_value() {
    let half = Fraction { num: 1, den: 2 };
    let two_quarters = Fraction { num: 2, den: 4 };
    let third = Fraction { num: 1, den: 3 };
    assert!(half.equals(&two_quarters));
    assert!(!half.equals(&third));
    let a = Point { x: half, y: Fraction { num: 3, den: 1 } };
    let b = Point { x: two_quarters, y: Fraction { num: 6, den: 2 } };
    let c = Point { x: third, y: Fraction { num: 3, den: 1 } };
    assert!(positions_equal(&a, &b));
    assert!(!positions_equal(&a, &c));
}

#[test]
fn coordinates_walk_x_then_y() {
    let p = Point { x: 3u32, y: 8u32 };
    let mut it = p.coordinates();
    assert_eq!(it.next(), Some(3));
    assert_eq!(it.next(), Some(8));
    assert_eq!(it.next(), None);
    assert_eq!(it.next(), None);
}
