use mini_canvas::error::CanvasError;
use mini_canvas::surface::{blank_mask, create_pixmap};

#[test]
fn zero_sized_canvas_is_invalid() {
    assert!(matches!(create_pixmap(0, 10), Err(CanvasError::InvalidSize)));
    assert!(matches!(create_pixmap(10, 0), Err(CanvasError::InvalidSize)));
}

#[test]
fn too_wide_canvas_is_invalid() {
    assert!(matches!(create_pixmap(u32::MAX / 4 + 1, 1), Err(CanvasError::InvalidSize)));
}

#[test]
fn valid_canvas_is_transparent() {
    let p = create_pixmap(32, 24).unwrap();
    assert_eq!(p.data().len(), 32 * 24 * 4);
    assert!(p.data().iter().all(|&b| b == 0));
    assert_eq!((p.width(), p.height()), (32, 24));
    let m = blank_mask(32, 24).unwrap();
    assert_eq!((m.width(), m.height()), (32, 24));
    assert!(m.data().iter().all(|&b| b == 0));
    assert_eq!(m.data().len(), 32 * 24);
    assert!(blank_mask(0, 24).is_none());
}
