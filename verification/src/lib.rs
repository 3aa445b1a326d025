//! Font files and glyph atlases: reading the face names out of a TrueType
//! file, cutting rasterized glyphs out of their canvas, packing them into a
//! small rectangle, and laying out the characters of a text.

#![allow(unused_imports)]

pub mod arrange;
pub mod error;
pub mod font_file;
pub mod layout;
pub mod pack;
pub mod parse;
pub mod raster;
pub mod shape;
pub mod ttf;

pub use error::Error;
pub use pack::{PackResult, Rect};

use crate::arrange::{arranged, descending, lemma_arranged_totals, lemma_descending_indices};
use crate::font_file::{face_names_of, has_faces, FontFile};
use crate::layout::{
    by_longer_side, lemma_sorted_packable, longer_side, packable, total_height, total_width,
};
use crate::pack::{
    lemma_can_pack, lemma_lays_out, lemma_packing_sound, longer, pack_items, placed, Placements,
};
use crate::ttf::has_text;
use std::cmp::Ordering;
use std::collections::HashMap;
use std::ops::{BitAnd, BitAndAssign, BitOr, BitOrAssign, BitXor, BitXorAssign, Not};
use vstd::prelude::*;
use vstd::string::StringExecFns;

verus! {

/// The packing of a set of glyphs, by their characters.
pub type GlyphPack = PackResult<char>;

/// A font file: one or more faces.
pub struct Font {
    meta: FontFile,
}

impl View for Font {
    type V = Seq<Seq<char>>;

    /// The names of the faces, in the order of the file.
    closed spec fn view(&self) -> Seq<Seq<char>> {
        self.meta.face_names.deep_view()
    }
}

/// What `Font::face` says when the font has no face of the name asked for.
pub open spec fn no_face_message(name: Seq<char>) -> Seq<char> {
    "No face named '"@ + name + "' found in font!"@
}

impl Font {
    /// Reads a font file. The bytes must be a TrueType file that names at
    /// least one face; everything else is a `FormatError`.
    pub fn from_bytes(bytes: &[u8]) -> (r: Result<Font, Error>)
        ensures
            r is Ok <==> has_faces(bytes@),
            r matches Ok(font) ==> {
                &&& font@ == face_names_of(bytes@)
                &&& font@.len() > 0
                &&& font@.no_duplicates()
                &&& font.spec_extension() == "ttf"@
            },
            r matches Err(error) ==> error matches Error::FormatError(message) && message@
                == "Unrecognized format of byte sequence!"@,
    {
        match FontFile::from_bytes(bytes) {
            Ok(meta) => Ok(Font { meta }),
            Err(error) => Err(error),
        }
    }

    /// The names of the faces in the file.
    pub fn face_names(&self) -> (names: &[String])
        ensures
            names@.len() == self@.len(),
            forall|i: int| 0 <= i < names@.len() ==> (#[trigger] names@[i])@ == self@[i],
    {
        self.meta.face_names()
    }

    /// The extension that files of the font's format carry.
    pub fn extension(&self) -> (extension: &str)
        ensures
            extension@ == self.spec_extension(),
    {
        self.meta.extension()
    }

    /// The extension that files of the font's format carry.
    pub closed spec fn spec_extension(&self) -> Seq<char> {
        self.meta.extension@
    }

    /// The face of the given name. A name that no face of the font carries
    /// is a `UserError`.
    pub fn face(&self, name: &str) -> (r: Result<FontFace, Error>)
        ensures
            r is Ok <==> self@.contains(name@),
            r matches Ok(face) ==> face@ == name@,
            r matches Err(error) ==> error matches Error::UserError(message) && message@
                == no_face_message(name@),
    {
        let wanted = String::from_str(name);
        if !has_text(&self.meta.face_names, &wanted) {
            let message = String::from_str("No face named '").concat(name).concat(
                "' found in font!",
            );
            return Err(Error::UserError(message));
        }
        FontFace::create(name)
    }
}

/// One face of a font file.
pub struct FontFace {
    face_name: String,
}

impl View for FontFace {
    type V = Seq<char>;

    /// The name of the face.
    closed spec fn view(&self) -> Seq<char> {
        self.face_name@
    }
}

impl FontFace {
    /// The face of the given name.
    pub fn create(face_name: &str) -> (r: Result<FontFace, Error>)
        ensures
            r matches Ok(face) && face@ == face_name@,
    {
        Ok(FontFace { face_name: String::from_str(face_name) })
    }

    /// The name of the face.
    pub fn name(&self) -> (name: &str)
        ensures
            name@ == self@,
    {
        self.face_name.as_str()
    }
}

/// A glyph rasterized into a bitmap.
pub struct RasterizedGlyph {
    /// The character that was rasterized.
    pub character: char,
    /// What to add to the horizontal position when drawing.
    pub x_offset: i32,
    /// What to add to the vertical position when drawing.
    pub y_offset: i32,
    /// The width of the bitmap in pixels.
    pub width: usize,
    /// The height of the bitmap in pixels.
    pub height: usize,
    /// The bitmap: row by row, one byte of gray per pixel.
    pub data: Box<[u8]>,
}

/// Where a character of a shaped text goes.
pub struct GlyphPositioning {
    /// The character.
    pub character: char,
    /// The index of the character in the text, from 0.
    pub index: usize,
    /// The horizontal offset from the origin.
    pub x: i32,
    /// The vertical offset from the origin.
    pub y: i32,
    /// The horizontal position of the caret in front of the character.
    pub caret_x: i32,
    /// The vertical position of the caret in front of the character.
    pub caret_y: i32,
}

/// Options for shaping text, one bit each.
#[derive(Debug, Clone, Copy, PartialEq, Eq, Structural)]
pub struct ShapeOptions(pub u8);

impl ShapeOptions {
    /// Adjust the spacing between characters by the font's kerning pairs.
    pub fn use_kerning() -> (options: ShapeOptions)
        ensures
            options.0 == 0b00000001,
    {
        ShapeOptions(0b00000001)
    }

    /// Whether every option of `option` is among these.
    pub fn contains(&self, option: ShapeOptions) -> (found: bool)
        ensures
            found == (self.0 & option.0 == option.0),
    {
        (*self & option) == option
    }
}

impl Default for ShapeOptions {
    /// No option.
    fn default() -> (options: ShapeOptions)
        ensures
            options.0 == 0,
    {
        ShapeOptions(0)
    }
}

impl BitOr for ShapeOptions {
    type Output = ShapeOptions;

    /// The options of either.
    fn bitor(self, rhs: ShapeOptions) -> (out: ShapeOptions)
        ensures
            out.0 == self.0 | rhs.0,
    {
        ShapeOptions(self.0 | rhs.0)
    }
}

impl vstd::std_specs::ops::BitOrSpecImpl for ShapeOptions {
    open spec fn obeys_bitor_spec() -> bool {
        true
    }

    open spec fn bitor_req(self, rhs: ShapeOptions) -> bool {
        true
    }

    open spec fn bitor_spec(self, rhs: ShapeOptions) -> ShapeOptions {
        ShapeOptions(self.0 | rhs.0)
    }
}

impl BitOrAssign for ShapeOptions {
    fn bitor_assign(&mut self, rhs: ShapeOptions)
        ensures
            final(self).0 == old(self).0 | rhs.0,
    {
        self.0 = self.0 | rhs.0;
    }
}

impl BitAnd for ShapeOptions {
    type Output = ShapeOptions;

    /// The options of both.
    fn bitand(self, rhs: ShapeOptions) -> (out: ShapeOptions)
        ensures
            out.0 == self.0 & rhs.0,
    {
        ShapeOptions(self.0 & rhs.0)
    }
}

impl vstd::std_specs::ops::BitAndSpecImpl for ShapeOptions {
    open spec fn obeys_bitand_spec() -> bool {
        true
    }

    open spec fn bitand_req(self, rhs: ShapeOptions) -> bool {
        true
    }

    open spec fn bitand_spec(self, rhs: ShapeOptions) -> ShapeOptions {
        ShapeOptions(self.0 & rhs.0)
    }
}

impl BitAndAssign for ShapeOptions {
    fn bitand_assign(&mut self, rhs: ShapeOptions)
        ensures
            final(self).0 == old(self).0 & rhs.0,
    {
        self.0 = self.0 & rhs.0;
    }
}

impl BitXor for ShapeOptions {
    type Output = ShapeOptions;

    /// The options of one and not the other.
    fn bitxor(self, rhs: ShapeOptions) -> (out: ShapeOptions)
        ensures
            out.0 == self.0 ^ rhs.0,
    {
        ShapeOptions(self.0 ^ rhs.0)
    }
}

impl vstd::std_specs::ops::BitXorSpecImpl for ShapeOptions {
    open spec fn obeys_bitxor_spec() -> bool {
        true
    }

    open spec fn bitxor_req(self, rhs: ShapeOptions) -> bool {
        true
    }

    open spec fn bitxor_spec(self, rhs: ShapeOptions) -> ShapeOptions {
        ShapeOptions(self.0 ^ rhs.0)
    }
}

impl BitXorAssign for ShapeOptions {
    fn bitxor_assign(&mut self, rhs: ShapeOptions)
        ensures
            final(self).0 == old(self).0 ^ rhs.0,
    {
        self.0 = self.0 ^ rhs.0;
    }
}

impl Not for ShapeOptions {
    type Output = ShapeOptions;

    /// The options that are not among these.
    fn not(self) -> (out: ShapeOptions)
        ensures
            out.0 == !self.0,
    {
        ShapeOptions(!self.0)
    }
}

impl vstd::std_specs::ops::NotSpecImpl for ShapeOptions {
    open spec fn obeys_not_spec() -> bool {
        true
    }

    open spec fn not_req(self) -> bool {
        true
    }

    open spec fn not_spec(self) -> ShapeOptions {
        ShapeOptions(!self.0)
    }
}

/// The sizes of the glyphs' bitmaps.
pub open spec fn glyph_sizes(glyphs: Seq<&RasterizedGlyph>) -> Seq<(usize, usize)> {
    Seq::new(glyphs.len(), |i: int| (glyphs[i].width, glyphs[i].height))
}

/// The glyphs' characters.
pub open spec fn glyph_characters(glyphs: Seq<&RasterizedGlyph>) -> Seq<char> {
    Seq::new(glyphs.len(), |i: int| glyphs[i].character)
}

/// The order in which glyphs are packed: descending by the longer side of
/// their bitmaps, those with equal longer sides in their given order.
pub open spec fn glyph_order(glyphs: Seq<&RasterizedGlyph>) -> Seq<usize> {
    descending(glyph_sizes(glyphs), by_longer_side(), glyphs.len())
}

/// Packs the bitmaps of the glyphs into a small rectangle, the ones with the
/// longest sides first, and says where each lies, by its character. Every
/// bitmap lies on the canvas, and no two overlap.
pub fn pack_glyphs<'a>(glyphs: Vec<&'a RasterizedGlyph>) -> (pack: GlyphPack)
    requires
        total_width(glyph_sizes(glyphs@)) <= usize::MAX,
        total_height(glyph_sizes(glyphs@)) <= usize::MAX,
    ensures
        pack.is_packing(
            arranged(glyph_sizes(glyphs@), glyph_order(glyphs@)),
            arranged(glyph_characters(glyphs@), glyph_order(glyphs@)),
        ),
        pack.sound(),
        pack.width <= total_width(glyph_sizes(glyphs@)),
        pack.height <= total_height(glyph_sizes(glyphs@)),
        forall|i: int|
            0 <= i < glyphs@.len() ==> {
                &&& (#[trigger] glyphs@[i]).width <= pack.width
                &&& glyphs@[i].height <= pack.height
                &&& pack.items@.contains_key(glyphs@[i].character)
            },
        glyphs@.len() == 0 ==> pack.width == 0 && pack.height == 0 && pack.items@ == Map::<
            char,
            Rect,
        >::empty(),
{
    let ghost given = glyphs@;
    let size_f = |e: &&RasterizedGlyph| -> (size: (usize, usize))
        ensures
            size == (e.width, e.height),
        { (e.width, e.height) };
    let ordering_f = |a: &(usize, usize), b: &(usize, usize)| -> (order: Ordering)
        ensures
            (order == Ordering::Less) <==> longer_side(*a) < longer_side(*b),
        { longer(a).cmp(&longer(b)) };
    let key_f = |e: &&RasterizedGlyph| -> (key: char)
        ensures
            key == e.character,
        { e.character };
    proof {
        assert(given.len() == glyphs.len());
        lemma_sorted_packable(glyph_sizes(given));
        lemma_can_pack(
            given,
            size_f,
            ordering_f,
            Ordering::Less,
            glyph_sizes(given),
            by_longer_side(),
        );
    }
    let placements = pack_items(glyphs, size_f, ordering_f, key_f);
    proof {
        lemma_lays_out(
            given,
            size_f,
            ordering_f,
            Ordering::Less,
            key_f,
            placements,
            glyph_sizes(given),
            by_longer_side(),
            glyph_characters(given),
        );
    }
    let pack = file_glyphs(placements);
    proof {
        lemma_glyphs_packed(given, pack);
    }
    pack
}

/// `HashMap::insert` on a map by characters. What is believed of it, not
/// proved: afterwards the map takes `character` to `rect` and every other
/// character to what it took it to before.
#[verifier::external_body]
fn insert_glyph(items: &mut HashMap<char, Rect>, character: char, rect: Rect)
    ensures
        final(items)@ == old(items)@.insert(character, rect),
{
    items.insert(character, rect);
}

/// Files each rectangle under its character. Of two glyphs of one character
/// the one packed later stays.
fn file_glyphs(placements: Placements<char>) -> (pack: GlyphPack)
    requires
        placements.keys@.len() == placements.rects@.len(),
    ensures
        pack.width == placements.width,
        pack.height == placements.height,
        pack.items@ == placed(placements.keys@, placements.rects@),
{
    let Placements { width, height, keys, rects } = placements;
    let mut items: HashMap<char, Rect> = HashMap::new();
    let mut j: usize = 0;
    while j < keys.len()
        invariant
            j <= keys@.len(),
            keys@.len() == rects@.len(),
            items@ == placed(keys@.take(j as int), rects@.take(j as int)),
        decreases keys@.len() - j,
    {
        assert(keys@.take(j + 1).drop_last() == keys@.take(j as int));
        assert(rects@.take(j + 1).drop_last() == rects@.take(j as int));
        insert_glyph(&mut items, keys[j], rects[j]);
        j += 1;
    }
    assert(keys@.take(j as int) == keys@);
    assert(rects@.take(j as int) == rects@);
    PackResult { width, height, items }
}

/// What the packing of glyphs comes to: every bitmap lies on the canvas and
/// no two overlap; the canvas is no wider than all bitmaps side by side, no
/// higher than all on top of each other, and no narrower or lower than any
/// one bitmap; every character has its rectangle.
proof fn lemma_glyphs_packed(glyphs: Seq<&RasterizedGlyph>, pack: GlyphPack)
    requires
        glyphs.len() <= usize::MAX,
        packable(arranged(glyph_sizes(glyphs), glyph_order(glyphs))),
        pack.is_packing(
            arranged(glyph_sizes(glyphs), glyph_order(glyphs)),
            arranged(glyph_characters(glyphs), glyph_order(glyphs)),
        ),
    ensures
        pack.sound(),
        pack.width <= total_width(glyph_sizes(glyphs)),
        pack.height <= total_height(glyph_sizes(glyphs)),
        forall|i: int|
            0 <= i < glyphs.len() ==> {
                &&& (#[trigger] glyphs[i]).width <= pack.width
                &&& glyphs[i].height <= pack.height
                &&& pack.items@.contains_key(glyphs[i].character)
            },
        glyphs.len() == 0 ==> pack.width == 0 && pack.height == 0 && pack.items@ == Map::<
            char,
            Rect,
        >::empty(),
{
    let sizes = glyph_sizes(glyphs);
    let order = glyph_order(glyphs);
    let sorted = arranged(sizes, order);
    let keys = arranged(glyph_characters(glyphs), order);
    lemma_arranged_totals(sizes, by_longer_side(), sizes.len());
    lemma_descending_indices(sizes, by_longer_side(), sizes.len());
    lemma_packing_sound(pack, sorted, keys);
    assert(sizes.take(sizes.len() as int) == sizes);
    assert forall|i: int| 0 <= i < glyphs.len() implies {
        &&& (#[trigger] glyphs[i]).width <= pack.width
        &&& glyphs[i].height <= pack.height
        &&& pack.items@.contains_key(glyphs[i].character)
    } by {
        assert(order.contains(i as usize));
        let j = choose|j: int| 0 <= j < order.len() && order[j] == i as usize;
        assert(sorted[j] == sizes[i]);
        assert(keys[j] == glyphs[i].character);
    }
}

} // verus!
