//! The fonts of a page: the widths the file gives for their characters, and
//! the TrueType program that draws them.

use vstd::prelude::*;
use fontdue::Font as TtfFont;
use crate::name_map::{
    entries_get, entries_view, lemma_empty_view, lemma_find_key, lemma_insert_view,
    lemma_view_finite, NameMap,
};

verus! {

#[verifier::external_type_specification]
#[verifier::external_body]
pub struct ExTtfFont(TtfFont);

/// Whether `fontdue` reads the bytes as a font (with its default settings).
pub uninterp spec fn spec_font_parses(data: Seq<u8>) -> bool;

/// Reads a TrueType font with `fontdue::Font::from_bytes` and
/// `FontSettings::default()`.  Trusted: a font comes back exactly where
/// `spec_font_parses` holds of the bytes, `None` where `from_bytes` returns
/// an error.  Nothing is stated of the parsed font itself, which verified
/// code only carries.  That the call returns on every input, malformed
/// fonts included, rests on `fontdue` and the `ttf-parser` it calls: it is
/// not proved here.
#[verifier::external_body]
fn parse_font(data: &Vec<u8>) -> (r: Option<TtfFont>)
    ensures
        r is Some == spec_font_parses(data@),
{
    fontdue::Font::from_bytes(data.as_slice(), fontdue::FontSettings::default()).ok()
}

/// A parsed TrueType program together with the bytes it was parsed from.
/// Only `parse` makes one, so the program is always the one those bytes
/// give.
#[derive(Debug)]
pub struct TtfProgram {
    program: TtfFont,
    source: Vec<u8>,
}

impl View for TtfProgram {
    type V = Seq<u8>;

    /// The bytes the program was parsed from.
    closed spec fn view(&self) -> Seq<u8> {
        self.source@
    }
}

impl TtfProgram {
    /// Parses the bytes as a TrueType font; `None` where `fontdue` refuses
    /// them.
    pub fn parse(data: Vec<u8>) -> (r: Option<TtfProgram>)
        ensures
            match r {
                Some(p) => p@ == data@ && spec_font_parses(data@),
                None => !spec_font_parses(data@),
            },
    {
        match parse_font(&data) {
            Some(program) => Some(TtfProgram { program, source: data }),
            None => None,
        }
    }

    /// The parsed program.
    pub fn program(&self) -> &TtfFont {
        &self.program
    }

    /// The bytes the program was parsed from.
    pub fn source(&self) -> (r: &Vec<u8>)
        ensures
            r@ == self@,
    {
        &self.source
    }
}

/// A font of a page.
#[derive(Debug)]
pub struct Font {
    pub id: Vec<u8>,
    pub name: Vec<u8>,
    pub widths: Vec<u32>,
    pub first_char: u32,
    pub ttf: TtfProgram,
    pub encoding: Option<Vec<u8>>,
}

/// What a font is: its name, widths and encoding, and the bytes its
/// TrueType program was parsed from.
pub struct SpecFont {
    pub id: Seq<u8>,
    pub name: Seq<u8>,
    pub widths: Seq<u32>,
    pub first_char: u32,
    pub font_bytes: Seq<u8>,
    pub encoding: Option<Seq<u8>>,
}

pub open spec fn font_view(f: Font) -> SpecFont {
    SpecFont {
        id: f.id@,
        name: f.name@,
        widths: f.widths@,
        first_char: f.first_char,
        font_bytes: f.ttf@,
        encoding: match f.encoding {
            Some(e) => Some(e@),
            None => None,
        },
    }
}

impl View for Font {
    type V = SpecFont;

    open spec fn view(&self) -> SpecFont {
        font_view(*self)
    }
}

/// Whether the font gives a width for character `c`.
pub open spec fn has_width(f: SpecFont, c: u8) -> bool {
    f.first_char <= c && c - f.first_char < f.widths.len()
}

impl Font {
    /// The width the file gives for character `c`, if it gives one.
    pub fn try_get_width(&self, c: u8) -> (r: Option<u32>)
        ensures
            match r {
                Some(w) => has_width(self@, c) && w == self@.widths[c - self@.first_char],
                None => !has_width(self@, c),
            },
    {
        let bb = c as u32;
        if bb < self.first_char {
            return None;
        }
        let pos = bb - self.first_char;
        if pos as usize >= self.widths.len() {
            return None;
        }
        Some(self.widths[pos as usize])
    }

    /// The width the file gives for character `c`.
    pub fn get_width(&self, c: u8) -> (r: u32)
        requires
            has_width(self@, c),
        ensures
            r == self@.widths[c - self@.first_char],
    {
        match self.try_get_width(c) {
            Some(w) => w,
            None => vstd::pervasive::unreached(),
        }
    }
}

/// The fonts of a page, by name.
#[derive(Debug)]
pub struct FontLib {
    pub id_to_font: NameMap<Font>,
}

impl View for FontLib {
    type V = Map<Seq<u8>, SpecFont>;

    open spec fn view(&self) -> Map<Seq<u8>, SpecFont> {
        entries_view(self.id_to_font.entries@, |f: Font| f@)
    }
}

impl FontLib {
    /// A library with no fonts.
    pub fn new() -> (r: Self)
        ensures
            r@ == Map::<Seq<u8>, SpecFont>::empty(),
    {
        let r = FontLib { id_to_font: NameMap::new() };
        proof {
            lemma_empty_view(r.id_to_font.entries@, |f: Font| f@);
        }
        r
    }

    /// Put a font under a name, replacing the one that was there.
    pub fn insert(&mut self, id: Vec<u8>, font: Font)
        ensures
            final(self)@ == old(self)@.insert(id@, font@),
            final(self)@.dom().finite(),
            final(self)@.dom().len() == old(self)@.dom().len() + if old(self)@.contains_key(id@) {
                0nat
            } else {
                1nat
            },
    {
        proof {
            lemma_insert_view(self.id_to_font.entries@, id, font, |f: Font| f@);
            lemma_view_finite(self.id_to_font.entries@, |f: Font| f@);
        }
        self.id_to_font.insert(id, font);
    }

    /// The font of that name, if there is one.
    pub fn try_get_font(&self, font_id: &[u8]) -> (r: Option<&Font>)
        ensures
            match r {
                Some(f) => self@.contains_key(font_id@) && f@ == self@[font_id@],
                None => !self@.contains_key(font_id@),
            },
    {
        proof {
            lemma_find_key(self.id_to_font.entries@, font_id@);
        }
        entries_get(&self.id_to_font.entries, font_id)
    }

    /// The font of that name.
    pub fn get_font(&self, font_id: &[u8]) -> (r: &Font)
        requires
            self@.contains_key(font_id@),
        ensures
            r@ == self@[font_id@],
    {
        match self.try_get_font(font_id) {
            Some(f) => f,
            None => vstd::pervasive::unreached(),
        }
    }
}

} // verus!
