use path_tracer::img::Img;
use std::cell::RefCell;

#[test]
fn new_fills_every_pixel() {
    let img = Img::new(7u32, 3, 2);
    assert_eq!(img.width(), 3);
    assert_eq!(img.height(), 2);
    for y in 0..2 {
        for x in 0..3 {
            assert_eq!(img.get(x, y), 7);
        }
    }
}

#[test]
fn set_changes_one_pixel() {
    let mut img = Img::new(0i32, 4, 3);
    img.set(2, 1, 9);
    assert_eq!(img.get(2, 1), 9);
    assert_eq!(img.get(1, 2), 0);
    assert_eq!(img.get(2, 0), 0);
    assert_eq!(img.get(3, 1), 0);
}

#[test]
fn empty_image() {
    let img = Img::new(1u8, 0, 0);
    assert_eq!(img.width(), 0);
    let seen = RefCell::new(0usize);
    img.each_pixel(|_, _, _| *seen.borrow_mut() += 1);
    assert_eq!(*seen.borrow(), 0);
}

#[test]
fn each_pixel_visits_column_by_column() {
    let img = Img::new(0u8, 3, 2);
    let seen = RefCell::new(Vec::new());
    img.each_pixel(|x, y, i| seen.borrow_mut().push((x, y, i)));
    assert_eq!(
        *seen.borrow(),
        vec![(0, 0, 0), (0, 1, 1), (1, 0, 3), (1, 1, 4), (2, 0, 6), (2, 1, 7)]
    );
}
