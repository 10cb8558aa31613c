use mini_canvas::error::CanvasError;
use mini_canvas::fonts::{glyph_key, FontBook};

#[test]
fn glyph_key_layout() {
    let size_bits = 24.0f32.to_bits();
    let key = glyph_key(1, 'A', size_bits);
    assert_eq!(key, (1u128 << 53) | (0x41u128 << 32) | size_bits as u128);
    assert_ne!(glyph_key(0, 'A', size_bits), glyph_key(1, 'A', size_bits));
    assert_ne!(glyph_key(0, 'A', size_bits), glyph_key(0, 'A', 12.0f32.to_bits()));
    assert_ne!(glyph_key(0, 'A', size_bits), glyph_key(0, '\u{10ffff}', size_bits));
}

#[test]
fn glyph_key_keeps_large_font_indices_apart() {
    let bits = 16.0f32.to_bits();
    assert_ne!(glyph_key(256, 'A', bits), glyph_key(0, 'A', bits));
    assert_ne!(glyph_key(usize::MAX, 'A', bits), glyph_key(usize::MAX - 1, 'A', bits));
    assert_ne!(glyph_key(1, '\u{10ffff}', u32::MAX), glyph_key(2, '\0', 0));
}

#[test]
fn rejected_font_leaves_book_unchanged() {
    let mut book = FontBook::new();
    assert!(matches!(book.load(b"definitely not a font"), Err(CanvasError::InvalidFont(_))));
    assert_eq!(book.selected_index(), None);
    assert!(book.font(0).is_none());
}

#[test]
fn selecting_unloaded_font_is_an_error() {
    let mut book = FontBook::new();
    assert!(matches!(book.select(0), Err(CanvasError::FontIndexOutOfRange)));
    assert_eq!(book.selected_index(), None);
}
