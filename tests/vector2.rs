use path_tracer::vector2::Vector2;

#[test]
fn vector2_new_and_array() {
    let v = Vector2::new(3i64, -4);
    assert_eq!(v.x, 3);
    assert_eq!(v.y, -4);
    assert_eq!(v.to_array(), [3, -4]);
}

#[test]
fn vector2_arithmetic() {
    let a = Vector2::new(6i64, -4);
    let b = Vector2::new(2i64, 2);
    assert_eq!((a + b).to_array(), [8, -2]);
    assert_eq!((a - b).to_array(), [4, -6]);
    assert_eq!((a * b).to_array(), [12, -8]);
    assert_eq!((a / b).to_array(), [3, -2]);
    assert_eq!((a * 3).to_array(), [18, -12]);
    assert_eq!((a / 2).to_array(), [3, -2]);
    assert_eq!((-a).to_array(), [-6, 4]);
}

#[test]
fn vector2_dot() {
    let a = Vector2::new(1.5f64, 2.0);
    let b = Vector2::new(2.0f64, -1.0);
    assert_eq!(a.dot(b), 1.0);
    assert_eq!(Vector2::new(3i32, 4).dot(Vector2::new(3, 4)), 25);
}
