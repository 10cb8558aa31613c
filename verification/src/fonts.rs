//! Loaded fonts, the selected font, and glyph cache keys.

use vstd::prelude::*;
use crate::error::CanvasError;

verus! {

#[verifier::external_type_specification]
#[verifier::external_body]
pub struct ExFont(fontdue::Font);

/// Whether `fontdue` accepts `bytes` as a font with default settings.
pub uninterp spec fn font_accepted(bytes: Seq<u8>) -> bool;

/// Parses a TrueType/OpenType font.
///
/// Calls `fontdue::Font::from_bytes` with `FontSettings::default()`. The
/// contract claims only that acceptance depends on the bytes alone (named
/// `font_accepted`); what the font contains is not stated.
#[verifier::external_body]
fn parse_font(bytes: &[u8]) -> (r: Result<fontdue::Font, &'static str>)
    ensures
        r is Ok <==> font_accepted(bytes@),
{
    fontdue::Font::from_bytes(bytes, fontdue::FontSettings::default())
}

/// The fonts loaded into a canvas and the one text is drawn with.
pub struct FontBook {
    fonts: Vec<fontdue::Font>,
    selected: Option<usize>,
}

impl FontBook {
    /// The loaded fonts, in load order.
    pub closed spec fn loaded(&self) -> Seq<fontdue::Font> {
        self.fonts@
    }

    /// How many fonts are loaded.
    pub open spec fn count(&self) -> nat {
        self.loaded().len()
    }

    /// The index of the font text is drawn with, if any.
    pub closed spec fn selection(&self) -> Option<usize> {
        self.selected
    }

    #[verifier::type_invariant]
    closed spec fn selection_loaded(&self) -> bool {
        match self.selected {
            Some(i) => i < self.fonts@.len(),
            None => true,
        }
    }

    pub fn new() -> (book: Self)
        ensures
            book.loaded() == Seq::<fontdue::Font>::empty(),
            book.selection() is None,
    {
        FontBook { fonts: Vec::new(), selected: None }
    }

    /// Loads a font and selects it, returning its index (as the low 32 bits).
    /// Rejected bytes are an error and leave the book unchanged.
    pub fn load(&mut self, bytes: &[u8]) -> (res: Result<u32, CanvasError>)
        ensures
            res is Ok <==> font_accepted(bytes@),
            match res {
                Ok(index) => {
                    &&& final(self).count() == old(self).count() + 1
                    &&& final(self).loaded().drop_last() == old(self).loaded()
                    &&& final(self).selection() == Some(old(self).count() as usize)
                    &&& index == old(self).count() as u32
                },
                Err(e) => {
                    &&& e is InvalidFont
                    &&& final(self).loaded() == old(self).loaded()
                    &&& final(self).selection() == old(self).selection()
                },
            },
    {
        match parse_font(bytes) {
            Err(reason) => Err(CanvasError::InvalidFont(reason)),
            Ok(font) => {
                self.selected = None;
                let mut fonts: Vec<fontdue::Font> = Vec::new();
                std::mem::swap(&mut fonts, &mut self.fonts);
                fonts.push(font);
                let index = fonts.len() - 1;
                self.fonts = fonts;
                assert(self.fonts@.drop_last() =~= old(self).fonts@);
                self.selected = Some(index);
                Ok(#[verifier::truncate] (index as u32))
            },
        }
    }

    /// Selects font `index`; an index that was never loaded is an error and
    /// leaves the selection unchanged.
    pub fn select(&mut self, index: u32) -> (res: Result<(), CanvasError>)
        ensures
            final(self).loaded() == old(self).loaded(),
            res is Ok <==> (index as nat) < old(self).count(),
            res is Ok ==> final(self).selection() == Some(index as usize),
            res matches Err(e) ==> e is FontIndexOutOfRange && final(self).selection() == old(
                self,
            ).selection(),
    {
        let i = index as usize;
        if i >= self.fonts.len() {
            return Err(CanvasError::FontIndexOutOfRange);
        }
        self.selected = Some(i);
        Ok(())
    }

    /// The selected font's index.
    pub fn selected_index(&self) -> (res: Option<usize>)
        ensures
            res == self.selection(),
            res matches Some(i) ==> (i as nat) < self.count(),
    {
        proof {
            use_type_invariant(self);
        }
        self.selected
    }

    /// Font `index`, if loaded.
    pub fn font(&self, index: usize) -> (res: Option<&fontdue::Font>)
        ensures
            res is Some <==> (index as nat) < self.count(),
            res matches Some(f) ==> *f == self.loaded()[index as int],
    {
        if index < self.fonts.len() {
            Some(&self.fonts[index])
        } else {
            None
        }
    }
}

/// The cache key of a glyph or advance: the font index, the character and the
/// exact bits of the size, laid side by side (`2^53 * font + 2^32 * char +
/// size bits`; a character fits in 21 bits).
pub open spec fn spec_glyph_key(font_index: usize, character: char, size_bits: u32) -> u128 {
    (font_index as int * 0x20_0000_0000_0000 + (character as u32) as int * 0x1_0000_0000
        + size_bits as int) as u128
}

pub fn glyph_key(font_index: usize, character: char, size_bits: u32) -> (key: u128)
    ensures
        key == spec_glyph_key(font_index, character, size_bits),
{
    let c = character as u32;
    assert(c <= 0x10ffff);
    assert(font_index * 0x20_0000_0000_0000 <= 0xffff_ffff_ffff_ffff * 0x20_0000_0000_0000)
        by (nonlinear_arith)
        requires font_index <= 0xffff_ffff_ffff_ffff;
    (font_index as u128) * 0x20_0000_0000_0000 + (c as u128) * 0x1_0000_0000 + (size_bits as u128)
}

/// Glyph keys never collide: distinct (font, character, size) triples get
/// distinct keys, so the caches are scoped by font.
pub proof fn lemma_glyph_key_injective(
    f1: usize,
    c1: char,
    s1: u32,
    f2: usize,
    c2: char,
    s2: u32,
)
    requires
        spec_glyph_key(f1, c1, s1) == spec_glyph_key(f2, c2, s2),
    ensures
        f1 == f2,
        c1 == c2,
        s1 == s2,
{
    let b1 = (c1 as u32) as int;
    let b2 = (c2 as u32) as int;
    assert(b1 <= 0x10ffff && b2 <= 0x10ffff);
    let q1 = f1 as int * 0x20_0000 + b1;
    let q2 = f2 as int * 0x20_0000 + b2;
    assert(f1 as int * 0x20_0000_0000_0000 == (f1 as int * 0x20_0000) * 0x1_0000_0000) by (nonlinear_arith);
    assert(f2 as int * 0x20_0000_0000_0000 == (f2 as int * 0x20_0000) * 0x1_0000_0000) by (nonlinear_arith);
    assert(f1 as int * 0x20_0000_0000_0000 + b1 * 0x1_0000_0000 <= 0xffff_ffff_ffff_ffff * 0x20_0000_0000_0000 + 0x10ffff * 0x1_0000_0000) by (nonlinear_arith)
        requires f1 <= 0xffff_ffff_ffff_ffff, b1 <= 0x10ffff, b1 >= 0;
    assert(f2 as int * 0x20_0000_0000_0000 + b2 * 0x1_0000_0000 <= 0xffff_ffff_ffff_ffff * 0x20_0000_0000_0000 + 0x10ffff * 0x1_0000_0000) by (nonlinear_arith)
        requires f2 <= 0xffff_ffff_ffff_ffff, b2 <= 0x10ffff, b2 >= 0;
    let x = q1 * 0x1_0000_0000 + s1 as int;
    assert(x == q2 * 0x1_0000_0000 + s2 as int);
    vstd::arithmetic::div_mod::lemma_fundamental_div_mod_converse(x, 0x1_0000_0000, q1, s1 as int);
    vstd::arithmetic::div_mod::lemma_fundamental_div_mod_converse(x, 0x1_0000_0000, q2, s2 as int);
    vstd::arithmetic::div_mod::lemma_fundamental_div_mod_converse(q1, 0x20_0000, f1 as int, b1);
    vstd::arithmetic::div_mod::lemma_fundamental_div_mod_converse(q1, 0x20_0000, f2 as int, b2);
}

} // verus!
