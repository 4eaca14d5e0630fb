use moonlander_gp::num::{partial_max, partial_min, torus};

#[test]
fn test_torus() {
    assert_eq!(1, torus(33, 32));
    assert_eq!(1, torus(-31, 32));
}

#[test]
fn torus_edges() {
    assert_eq!(0, torus(0, 32));
    assert_eq!(31, torus(-1, 32));
    assert_eq!(0, torus(-32, 32));
    assert_eq!(0, torus(64, 32));
    assert_eq!(1, torus(i32::MIN, 3));
    assert_eq!(1, torus(i32::MAX, 3));
}

#[test]
fn partial_max_and_min() {
    assert_eq!(Some(4.0), partial_max(&vec![2.0f32, 4.0, f32::NAN]));
    assert_eq!(Some(2.0), partial_min(&vec![2.0f32, 4.0, f32::NAN]));
    assert_eq!(Some(9), partial_max(&vec![3, 9, 1, 9]));
    assert_eq!(Some(1), partial_min(&vec![3, 9, 1, 9]));
    assert_eq!(None, partial_max::<i32>(&vec![]));
    assert_eq!(None, partial_min::<i32>(&vec![]));
}
