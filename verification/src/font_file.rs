//! What a font file says of itself, whatever its format.

use crate::error::Error;
use crate::ttf::{
    is_font, lemma_texts_named_once, name_ids, name_texts, texts_named, TtfFile,
};
use vstd::prelude::*;
use vstd::string::StringExecFns;

verus! {

/// The name id of the full font name: the name of a face.
pub const FULL_FONT_NAME: u16 = 4;

/// The face names of the TrueType file `bytes`: the full font names of its
/// `name` table, each once, in the order of the records.
pub open spec fn face_names_of(bytes: Seq<u8>) -> Seq<Seq<char>> {
    texts_named(name_ids(bytes), name_texts(bytes), FULL_FONT_NAME)
}

/// Whether `bytes` are a TrueType file that names at least one face.
pub open spec fn has_faces(bytes: Seq<u8>) -> bool {
    is_font(bytes) && name_ids(bytes).contains(FULL_FONT_NAME)
}

/// The format of a font file and the faces it holds.
#[derive(Debug)]
pub struct FontFile {
    pub extension: String,
    pub face_names: Vec<String>,
}

impl FontFile {
    /// Reads the metadata of a font file. The bytes must be a TrueType file
    /// that names at least one face; everything else is a `FormatError`.
    pub fn from_bytes(bytes: &[u8]) -> (r: Result<FontFile, Error>)
        ensures
            r is Ok <==> has_faces(bytes@),
            r matches Ok(file) ==> {
                &&& file.extension@ == "ttf"@
                &&& file.face_names.deep_view() == face_names_of(bytes@)
                &&& file.face_names@.len() > 0
                &&& file.face_names.deep_view().no_duplicates()
            },
            r matches Err(error) ==> error matches Error::FormatError(message) && message@
                == "Unrecognized format of byte sequence!"@,
    {
        if let Ok(ttf) = TtfFile::parse(bytes) {
            if let Some(names) = ttf.name(FULL_FONT_NAME) {
                let mut face_names: Vec<String> = Vec::with_capacity(names.len());
                let mut i: usize = 0;
                while i < names.len()
                    invariant
                        i <= names@.len(),
                        face_names.deep_view() == names.deep_view().take(i as int),
                    decreases names@.len() - i,
                {
                    let ghost before = face_names.deep_view();
                    let name = names[i].clone();
                    face_names.push(name);
                    assert(face_names.deep_view() == before.push(name@));
                    assert(names.deep_view()[i as int] == name@);
                    assert(face_names.deep_view() == names.deep_view().take(i + 1));
                    i += 1;
                }
                assert(names.deep_view().take(i as int) == names.deep_view());
                proof {
                    lemma_texts_named_once(name_ids(bytes@), name_texts(bytes@), FULL_FONT_NAME);
                }
                return Ok(FontFile { extension: String::from_str("ttf"), face_names });
            }
        }
        Err(Error::FormatError(String::from_str("Unrecognized format of byte sequence!")))
    }

    /// The extension that files of this format carry.
    pub fn extension(&self) -> (extension: &str)
        ensures
            extension@ == self.extension@,
    {
        self.extension.as_str()
    }

    /// The names of the faces in the file.
    pub fn face_names(&self) -> (names: &[String])
        ensures
            names@ == self.face_names@,
    {
        self.face_names.as_slice()
    }
}

} // verus!
