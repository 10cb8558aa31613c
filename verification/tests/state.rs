use mini_canvas::state::{DrawStack, PathCursor, SegmentStart};

#[test]
fn restore_returns_saved_states_in_reverse() {
    let mut stack: DrawStack<(f32, u8)> = DrawStack::new();
    assert_eq!(stack.restore(), None);
    stack.save((1.0, 1));
    stack.save((2.5, 2));
    assert_eq!(stack.depth(), 2);
    assert_eq!(stack.restore(), Some((2.5, 2)));
    assert_eq!(stack.restore(), Some((1.0, 1)));
    assert_eq!(stack.restore(), None);
}

#[test]
fn path_commands_need_an_open_path() {
    let mut c = PathCursor::new();
    assert!(!c.move_to());
    assert!(c.line_to().is_none());
    assert!(c.arc_start().is_none());
    assert!(!c.close());
    assert!(!c.finish());
}

#[test]
fn line_without_current_point_starts_subpath() {
    let mut c = PathCursor::new();
    c.begin();
    assert!(matches!(c.line_to(), Some(SegmentStart::MoveTo)));
    assert!(matches!(c.line_to(), Some(SegmentStart::LineTo)));
}

#[test]
fn arc_connects_from_current_point_cursor() {
    let mut c = PathCursor::new();
    c.begin();
    assert!(matches!(c.arc_start(), Some(SegmentStart::MoveTo)));
    c.begin();
    assert!(c.move_to());
    assert!(matches!(c.arc_start(), Some(SegmentStart::LineTo)));
    assert!(c.finish());
    assert!(!c.has_current_point);
    assert!(c.arc_start().is_none());
}

#[test]
fn curve_without_current_point_moves_to_control() {
    let mut c = PathCursor::new();
    c.begin();
    assert!(matches!(c.curve_to(), Some(SegmentStart::MoveTo)));
    assert!(c.close());
    assert!(c.has_current_point);
}

#[test]
fn restore_after_balanced_pairs_returns_outer_state() {
    let mut stack: DrawStack<u8> = DrawStack::new();
    stack.save(1);
    stack.save(2);
    stack.save(3);
    assert_eq!(stack.restore(), Some(3));
    stack.save(4);
    assert_eq!(stack.restore(), Some(4));
    assert_eq!(stack.restore(), Some(2));
    assert_eq!(stack.restore(), Some(1));
    assert_eq!(stack.depth(), 0);
}
