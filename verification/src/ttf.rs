//! The tables of a TrueType file that name its faces.

use crate::parse::{Parse, ParseResult};
use std::collections::HashMap;
use vstd::prelude::*;
use vstd::slice::slice_subrange;
use vstd::utf8::{decode_utf8, valid_utf8};

verus! {

broadcast use {vstd::seq_lib::lemma_seq_skip_of_skip, vstd::std_specs::hash::group_hash_axioms};

/// The value that `magic_number` of the `head` table must have.
pub const HEAD_TABLE_MAGIC: u32 = 0x5F0F3CF5;

/// The table at the start of a font file: which kind of font it is and how
/// many tables its directory lists.
#[derive(Debug, Clone, Copy)]
pub struct OffsetSubtable {
    pub scaler_type: u32,
    pub num_tables: u16,
    pub search_range: u16,
    pub entry_selector: u16,
    pub range_shift: u16,
}

impl Parse for OffsetSubtable {
    open spec fn width() -> nat {
        12
    }

    open spec fn decode_le(bytes: Seq<u8>) -> OffsetSubtable {
        OffsetSubtable {
            scaler_type: u32::decode_le(bytes),
            num_tables: u16::decode_le(bytes.skip(4)),
            search_range: u16::decode_le(bytes.skip(6)),
            entry_selector: u16::decode_le(bytes.skip(8)),
            range_shift: u16::decode_le(bytes.skip(10)),
        }
    }

    open spec fn decode_be(bytes: Seq<u8>) -> OffsetSubtable {
        OffsetSubtable {
            scaler_type: u32::decode_be(bytes),
            num_tables: u16::decode_be(bytes.skip(4)),
            search_range: u16::decode_be(bytes.skip(6)),
            entry_selector: u16::decode_be(bytes.skip(8)),
            range_shift: u16::decode_be(bytes.skip(10)),
        }
    }

    fn parse_le(input: &mut &[u8]) -> (r: ParseResult<OffsetSubtable>) {
        let mut bytes = *input;
        let scaler_type = u32::parse_le(&mut bytes)?;
        let num_tables = u16::parse_le(&mut bytes)?;
        let search_range = u16::parse_le(&mut bytes)?;
        let entry_selector = u16::parse_le(&mut bytes)?;
        let range_shift = u16::parse_le(&mut bytes)?;
        *input = bytes;
        Ok(OffsetSubtable { scaler_type, num_tables, search_range, entry_selector, range_shift })
    }

    fn parse_be(input: &mut &[u8]) -> (r: ParseResult<OffsetSubtable>) {
        let mut bytes = *input;
        let scaler_type = u32::parse_be(&mut bytes)?;
        let num_tables = u16::parse_be(&mut bytes)?;
        let search_range = u16::parse_be(&mut bytes)?;
        let entry_selector = u16::parse_be(&mut bytes)?;
        let range_shift = u16::parse_be(&mut bytes)?;
        *input = bytes;
        Ok(OffsetSubtable { scaler_type, num_tables, search_range, entry_selector, range_shift })
    }
}

/// One line of the table directory: where the table with this tag lies in the
/// file. `offset` counts from the start of the file.
#[derive(Debug, Clone, Copy)]
pub struct TableDirectoryEntry {
    pub tag: [u8; 4],
    pub checksum: u32,
    pub offset: u32,
    pub length: u32,
}

impl Parse for TableDirectoryEntry {
    open spec fn width() -> nat {
        16
    }

    open spec fn decode_le(bytes: Seq<u8>) -> TableDirectoryEntry {
        TableDirectoryEntry {
            tag: <[u8; 4]>::decode_le(bytes),
            checksum: u32::decode_le(bytes.skip(4)),
            offset: u32::decode_le(bytes.skip(8)),
            length: u32::decode_le(bytes.skip(12)),
        }
    }

    open spec fn decode_be(bytes: Seq<u8>) -> TableDirectoryEntry {
        TableDirectoryEntry {
            tag: <[u8; 4]>::decode_be(bytes),
            checksum: u32::decode_be(bytes.skip(4)),
            offset: u32::decode_be(bytes.skip(8)),
            length: u32::decode_be(bytes.skip(12)),
        }
    }

    fn parse_le(input: &mut &[u8]) -> (r: ParseResult<TableDirectoryEntry>) {
        let mut bytes = *input;
        let tag = <[u8; 4]>::parse_le(&mut bytes)?;
        let checksum = u32::parse_le(&mut bytes)?;
        let offset = u32::parse_le(&mut bytes)?;
        let length = u32::parse_le(&mut bytes)?;
        *input = bytes;
        Ok(TableDirectoryEntry { tag, checksum, offset, length })
    }

    fn parse_be(input: &mut &[u8]) -> (r: ParseResult<TableDirectoryEntry>) {
        let mut bytes = *input;
        let tag = <[u8; 4]>::parse_be(&mut bytes)?;
        let checksum = u32::parse_be(&mut bytes)?;
        let offset = u32::parse_be(&mut bytes)?;
        let length = u32::parse_be(&mut bytes)?;
        *input = bytes;
        Ok(TableDirectoryEntry { tag, checksum, offset, length })
    }
}

/// The `head` table. `magic_number` tells a font file from other bytes.
#[derive(Debug, Clone, Copy)]
pub struct HeadTable {
    pub version: i32,
    pub font_revision: i32,
    pub checksum_adjustment: u32,
    pub magic_number: u32,
    pub flags: u16,
    pub units_per_em: u16,
    pub created: i64,
    pub modified: i64,
    pub x_min: i16,
    pub y_min: i16,
    pub x_max: i16,
    pub y_max: i16,
    pub mac_style: u16,
    pub lowest_rec_ppem: u16,
    pub font_direction_hint: i16,
    pub index_to_loc_format: i16,
    pub glyph_data_format: i16,
}

impl Parse for HeadTable {
    open spec fn width() -> nat {
        54
    }

    open spec fn decode_le(bytes: Seq<u8>) -> HeadTable {
        HeadTable {
            version: i32::decode_le(bytes),
            font_revision: i32::decode_le(bytes.skip(4)),
            checksum_adjustment: u32::decode_le(bytes.skip(8)),
            magic_number: u32::decode_le(bytes.skip(12)),
            flags: u16::decode_le(bytes.skip(16)),
            units_per_em: u16::decode_le(bytes.skip(18)),
            created: i64::decode_le(bytes.skip(20)),
            modified: i64::decode_le(bytes.skip(28)),
            x_min: i16::decode_le(bytes.skip(36)),
            y_min: i16::decode_le(bytes.skip(38)),
            x_max: i16::decode_le(bytes.skip(40)),
            y_max: i16::decode_le(bytes.skip(42)),
            mac_style: u16::decode_le(bytes.skip(44)),
            lowest_rec_ppem: u16::decode_le(bytes.skip(46)),
            font_direction_hint: i16::decode_le(bytes.skip(48)),
            index_to_loc_format: i16::decode_le(bytes.skip(50)),
            glyph_data_format: i16::decode_le(bytes.skip(52)),
        }
    }

    open spec fn decode_be(bytes: Seq<u8>) -> HeadTable {
        HeadTable {
            version: i32::decode_be(bytes),
            font_revision: i32::decode_be(bytes.skip(4)),
            checksum_adjustment: u32::decode_be(bytes.skip(8)),
            magic_number: u32::decode_be(bytes.skip(12)),
            flags: u16::decode_be(bytes.skip(16)),
            units_per_em: u16::decode_be(bytes.skip(18)),
            created: i64::decode_be(bytes.skip(20)),
            modified: i64::decode_be(bytes.skip(28)),
            x_min: i16::decode_be(bytes.skip(36)),
            y_min: i16::decode_be(bytes.skip(38)),
            x_max: i16::decode_be(bytes.skip(40)),
            y_max: i16::decode_be(bytes.skip(42)),
            mac_style: u16::decode_be(bytes.skip(44)),
            lowest_rec_ppem: u16::decode_be(bytes.skip(46)),
            font_direction_hint: i16::decode_be(bytes.skip(48)),
            index_to_loc_format: i16::decode_be(bytes.skip(50)),
            glyph_data_format: i16::decode_be(bytes.skip(52)),
        }
    }

    fn parse_le(input: &mut &[u8]) -> (r: ParseResult<HeadTable>) {
        let mut bytes = *input;
        let version = i32::parse_le(&mut bytes)?;
        let font_revision = i32::parse_le(&mut bytes)?;
        let checksum_adjustment = u32::parse_le(&mut bytes)?;
        let magic_number = u32::parse_le(&mut bytes)?;
        let flags = u16::parse_le(&mut bytes)?;
        let units_per_em = u16::parse_le(&mut bytes)?;
        let created = i64::parse_le(&mut bytes)?;
        let modified = i64::parse_le(&mut bytes)?;
        let x_min = i16::parse_le(&mut bytes)?;
        let y_min = i16::parse_le(&mut bytes)?;
        let x_max = i16::parse_le(&mut bytes)?;
        let y_max = i16::parse_le(&mut bytes)?;
        let mac_style = u16::parse_le(&mut bytes)?;
        let lowest_rec_ppem = u16::parse_le(&mut bytes)?;
        let font_direction_hint = i16::parse_le(&mut bytes)?;
        let index_to_loc_format = i16::parse_le(&mut bytes)?;
        let glyph_data_format = i16::parse_le(&mut bytes)?;
        *input = bytes;
        Ok(
            HeadTable {
                version,
                font_revision,
                checksum_adjustment,
                magic_number,
                flags,
                units_per_em,
                created,
                modified,
                x_min,
                y_min,
                x_max,
                y_max,
                mac_style,
                lowest_rec_ppem,
                font_direction_hint,
                index_to_loc_format,
                glyph_data_format,
            },
        )
    }

    fn parse_be(input: &mut &[u8]) -> (r: ParseResult<HeadTable>) {
        let mut bytes = *input;
        let version = i32::parse_be(&mut bytes)?;
        let font_revision = i32::parse_be(&mut bytes)?;
        let checksum_adjustment = u32::parse_be(&mut bytes)?;
        let magic_number = u32::parse_be(&mut bytes)?;
        let flags = u16::parse_be(&mut bytes)?;
        let units_per_em = u16::parse_be(&mut bytes)?;
        let created = i64::parse_be(&mut bytes)?;
        let modified = i64::parse_be(&mut bytes)?;
        let x_min = i16::parse_be(&mut bytes)?;
        let y_min = i16::parse_be(&mut bytes)?;
        let x_max = i16::parse_be(&mut bytes)?;
        let y_max = i16::parse_be(&mut bytes)?;
        let mac_style = u16::parse_be(&mut bytes)?;
        let lowest_rec_ppem = u16::parse_be(&mut bytes)?;
        let font_direction_hint = i16::parse_be(&mut bytes)?;
        let index_to_loc_format = i16::parse_be(&mut bytes)?;
        let glyph_data_format = i16::parse_be(&mut bytes)?;
        *input = bytes;
        Ok(
            HeadTable {
                version,
                font_revision,
                checksum_adjustment,
                magic_number,
                flags,
                units_per_em,
                created,
                modified,
                x_min,
                y_min,
                x_max,
                y_max,
                mac_style,
                lowest_rec_ppem,
                font_direction_hint,
                index_to_loc_format,
                glyph_data_format,
            },
        )
    }
}

/// One record of the `name` table: which name it is, how it is encoded, and
/// where its bytes lie in the table's string storage.
#[derive(Debug, Clone, Copy)]
pub struct NameRecord {
    pub platform_id: u16,
    pub platform_specific_id: u16,
    pub language_id: u16,
    pub name_id: u16,
    pub length: u16,
    pub offset: u16,
}

impl Parse for NameRecord {
    open spec fn width() -> nat {
        12
    }

    open spec fn decode_le(bytes: Seq<u8>) -> NameRecord {
        NameRecord {
            platform_id: u16::decode_le(bytes),
            platform_specific_id: u16::decode_le(bytes.skip(2)),
            language_id: u16::decode_le(bytes.skip(4)),
            name_id: u16::decode_le(bytes.skip(6)),
            length: u16::decode_le(bytes.skip(8)),
            offset: u16::decode_le(bytes.skip(10)),
        }
    }

    open spec fn decode_be(bytes: Seq<u8>) -> NameRecord {
        NameRecord {
            platform_id: u16::decode_be(bytes),
            platform_specific_id: u16::decode_be(bytes.skip(2)),
            language_id: u16::decode_be(bytes.skip(4)),
            name_id: u16::decode_be(bytes.skip(6)),
            length: u16::decode_be(bytes.skip(8)),
            offset: u16::decode_be(bytes.skip(10)),
        }
    }

    fn parse_le(input: &mut &[u8]) -> (r: ParseResult<NameRecord>) {
        let mut bytes = *input;
        let platform_id = u16::parse_le(&mut bytes)?;
        let platform_specific_id = u16::parse_le(&mut bytes)?;
        let language_id = u16::parse_le(&mut bytes)?;
        let name_id = u16::parse_le(&mut bytes)?;
        let length = u16::parse_le(&mut bytes)?;
        let offset = u16::parse_le(&mut bytes)?;
        *input = bytes;
        Ok(NameRecord { platform_id, platform_specific_id, language_id, name_id, length, offset })
    }

    fn parse_be(input: &mut &[u8]) -> (r: ParseResult<NameRecord>) {
        let mut bytes = *input;
        let platform_id = u16::parse_be(&mut bytes)?;
        let platform_specific_id = u16::parse_be(&mut bytes)?;
        let language_id = u16::parse_be(&mut bytes)?;
        let name_id = u16::parse_be(&mut bytes)?;
        let length = u16::parse_be(&mut bytes)?;
        let offset = u16::parse_be(&mut bytes)?;
        *input = bytes;
        Ok(NameRecord { platform_id, platform_specific_id, language_id, name_id, length, offset })
    }
}

/// The `name` table: a short header and the records it announces.
#[derive(Debug)]
pub struct NameTable {
    pub format: u16,
    pub count: u16,
    pub string_offset: u16,
    pub name_records: Vec<NameRecord>,
}

impl NameTable {
    /// The number of records that the header at the start of `bytes` announces.
    pub open spec fn record_count(bytes: Seq<u8>) -> nat {
        u16::decode_be(bytes.skip(2)) as nat
    }

    /// The number of bytes that the header and its records take.
    pub open spec fn encoded_len(bytes: Seq<u8>) -> nat {
        6 + 12 * Self::record_count(bytes)
    }

    /// The record with index `i` of the table that starts `bytes`.
    pub open spec fn record(bytes: Seq<u8>, i: int) -> NameRecord {
        NameRecord::decode_be(bytes.skip(6 + 12 * i))
    }

    /// The records of the table that starts `bytes`.
    pub open spec fn records(bytes: Seq<u8>) -> Seq<NameRecord> {
        Seq::new(Self::record_count(bytes), |i: int| Self::record(bytes, i))
    }

    /// Whether `bytes` hold the whole table, header and records.
    pub open spec fn fits(bytes: Seq<u8>) -> bool {
        6 <= bytes.len() && Self::encoded_len(bytes) <= bytes.len()
    }

    /// Whether this table is the one that starts `bytes`.
    pub open spec fn decoded_from(self, bytes: Seq<u8>) -> bool {
        &&& self.format == u16::decode_be(bytes)
        &&& self.count == u16::decode_be(bytes.skip(2))
        &&& self.string_offset == u16::decode_be(bytes.skip(4))
        &&& self.name_records@ == Self::records(bytes)
    }

    /// Reads the header and then as many records as it announces, all in
    /// big-endian order. Fails, with the cursor unmoved, exactly when the
    /// input ends before the last record does.
    pub fn parse_be(input: &mut &[u8]) -> (r: ParseResult<NameTable>)
        ensures
            r is Ok <==> Self::fits(old(input)@),
            r is Ok ==> r->Ok_0.decoded_from(old(input)@) && final(input)@ == old(input)@.skip(
                Self::encoded_len(old(input)@) as int,
            ),
            r is Err ==> *final(input) == *old(input),
    {
        let mut bytes = *input;
        let format = u16::parse_be(&mut bytes)?;
        let count = u16::parse_be(&mut bytes)?;
        let string_offset = u16::parse_be(&mut bytes)?;
        let mut name_records: Vec<NameRecord> = Vec::with_capacity(count as usize);
        let mut i: u16 = 0;
        while i < count
            invariant
                *input == *old(input),
                i <= count,
                count == Self::record_count(input@),
                6 + 12 * i <= input@.len(),
                bytes@ == input@.skip(6 + 12 * i),
                name_records@ == Seq::new(i as nat, |k: int| Self::record(input@, k)),
            decreases count - i,
        {
            let record = NameRecord::parse_be(&mut bytes)?;
            name_records.push(record);
            i += 1;
        }
        *input = bytes;
        Ok(NameTable { format, count, string_offset, name_records })
    }
}

/// The tag of the `head` table.
pub open spec fn head_tag() -> Seq<u8> {
    seq![0x68u8, 0x65u8, 0x61u8, 0x64u8]
}

/// The tag of the `name` table.
pub open spec fn name_tag() -> Seq<u8> {
    seq![0x6Eu8, 0x61u8, 0x6Du8, 0x65u8]
}

/// The entry that a directory holds for `tag`: the last one, where several
/// carry the tag.
pub open spec fn entry_for(entries: Seq<TableDirectoryEntry>, tag: Seq<u8>) -> Option<
    TableDirectoryEntry,
>
    decreases entries.len(),
{
    if entries.len() == 0 {
        None
    } else if entries.last().tag@ == tag {
        Some(entries.last())
    } else {
        entry_for(entries.drop_last(), tag)
    }
}

/// Looks `tag` up in a directory. Of several entries with the tag the last
/// one counts.
pub fn find_table<'a>(entries: &'a Vec<TableDirectoryEntry>, tag: &[u8; 4]) -> (found: Option<
    &'a TableDirectoryEntry,
>)
    ensures
        match found {
            Some(entry) => entry_for(entries@, tag@) == Some(*entry),
            None => entry_for(entries@, tag@) is None,
        },
{
    let mut i: usize = entries.len();
    assert(entries@.take(i as int) == entries@);
    while i > 0
        invariant
            i <= entries@.len(),
            entry_for(entries@, tag@) == entry_for(entries@.take(i as int), tag@),
        decreases i,
    {
        i -= 1;
        let entry = &entries[i];
        if entry.tag[0] == tag[0] && entry.tag[1] == tag[1] && entry.tag[2] == tag[2]
            && entry.tag[3] == tag[3] {
            assert(entry.tag@ =~= tag@);
            assert(entries@.take(i + 1).last() == *entry);
            return Some(entry);
        }
        assert(entry.tag@ != tag@);
        assert(entries@.take(i + 1).drop_last() == entries@.take(i as int));
    }
    None
}

/// The text that `String::from_utf8_lossy` makes of `bytes`.
pub uninterp spec fn utf8_lossy(bytes: Seq<u8>) -> Seq<char>;

/// The text that `String::from_utf16_lossy` makes of `units`.
pub uninterp spec fn utf16_lossy(units: Seq<u16>) -> Seq<char>;

/// Whether every byte is an ASCII character.
pub open spec fn all_ascii(bytes: Seq<u8>) -> bool {
    forall|i: int| 0 <= i < bytes.len() ==> (#[trigger] bytes[i]) < 0x80
}

/// Whether no unit is one half of a surrogate pair.
pub open spec fn no_surrogates(units: Seq<u16>) -> bool {
    forall|i: int| 0 <= i < units.len() ==> (#[trigger] units[i]) < 0xD800 || units[i] > 0xDFFF
}

/// The text of `bytes` read as UTF-8, what is malformed replaced: of
/// well-formed bytes the text that they encode.
pub open spec fn utf8_text(bytes: Seq<u8>) -> Seq<char> {
    if valid_utf8(bytes) {
        decode_utf8(bytes)
    } else {
        utf8_lossy(bytes)
    }
}

/// The text of `units` read as UTF-16, what is malformed replaced: of units
/// without surrogates the characters with these codes.
pub open spec fn utf16_text(units: Seq<u16>) -> Seq<char> {
    if no_surrogates(units) {
        Seq::new(units.len(), |i: int| units[i] as char)
    } else {
        utf16_lossy(units)
    }
}

/// `String::from_utf8_lossy`, with its result owned: the text of `data` read
/// as UTF-8, each malformed sequence replaced by U+FFFD. What is believed of
/// it, not proved: well-formed bytes give the text that they encode; of
/// other bytes the result depends on the bytes alone.
#[verifier::external_body]
fn text_from_utf8(data: &[u8]) -> (text: String)
    ensures
        valid_utf8(data@) ==> text@ == decode_utf8(data@),
        !valid_utf8(data@) ==> text@ == utf8_lossy(data@),
{
    String::from_utf8_lossy(data).into_owned()
}

/// `String::from_utf16_lossy`: the text of `units` read as UTF-16, each
/// unpaired surrogate replaced by U+FFFD. What is believed of it, not
/// proved: units without surrogates give one character each; of other units
/// the result depends on the units alone.
#[verifier::external_body]
fn text_from_utf16(units: &[u16]) -> (text: String)
    ensures
        no_surrogates(units@) ==> text@ == Seq::new(units@.len(), |i: int| units@[i] as char),
        !no_surrogates(units@) ==> text@ == utf16_lossy(units@),
{
    String::from_utf16_lossy(units)
}

/// The 16-bit units that `data` holds in big-endian order, two bytes each; a
/// last odd byte is left out.
pub open spec fn be_units(data: Seq<u8>) -> Seq<u16> {
    Seq::new(data.len() / 2, |i: int| (256 * data[2 * i] + data[2 * i + 1]) as u16)
}

/// Pairs the bytes of `data` into big-endian 16-bit units.
pub fn utf16_units(data: &[u8]) -> (units: Vec<u16>)
    ensures
        units@ == be_units(data@),
{
    let pairs = data.len() / 2;
    let mut units: Vec<u16> = Vec::with_capacity(pairs);
    let mut i: usize = 0;
    while i < pairs
        invariant
            data@.len() <= usize::MAX,
            pairs == data@.len() / 2,
            i <= pairs,
            units@ == Seq::new(i as nat, |k: int| (256 * data@[2 * k] + data@[2 * k + 1]) as u16),
        decreases pairs - i,
    {
        let unit = 256 * (data[2 * i] as u16) + data[2 * i + 1] as u16;
        units.push(unit);
        i += 1;
    }
    units
}

/// The text of a name whose bytes are `data`: platform 1 stores single-byte
/// text, every other platform big-endian UTF-16.
pub open spec fn name_text(platform_id: u16, data: Seq<u8>) -> Seq<char> {
    if platform_id == 1 {
        utf8_text(data)
    } else {
        utf16_text(be_units(data))
    }
}

/// ASCII text as the platforms other than 1 store it: for each character a
/// zero byte and then its code. Platform 1 stores the codes alone.
pub open spec fn double_bytes(text: Seq<u8>) -> Seq<u8> {
    Seq::new(2 * text.len(), |i: int| if i % 2 == 0 { 0u8 } else { text[i / 2] })
}

/// An ASCII name decodes to the same text whichever platform stored it.
pub proof fn lemma_ascii_name(text: Seq<u8>, platform_id: u16)
    requires
        all_ascii(text),
        platform_id != 1,
    ensures
        name_text(1, text) == Seq::new(text.len(), |i: int| text[i] as char),
        name_text(platform_id, double_bytes(text)) == name_text(1, text),
{
    let plain = Seq::new(text.len(), |i: int| text[i] as char);
    assert(vstd::utf8::is_ascii_chars(plain));
    vstd::utf8::is_ascii_chars_encode_utf8(plain);
    assert(vstd::utf8::encode_utf8(plain) =~= text);
    vstd::utf8::encode_utf8_valid_utf8(plain);
    vstd::utf8::encode_utf8_decode_utf8(plain);
    let wide = double_bytes(text);
    let units = be_units(wide);
    assert(units.len() == text.len());
    assert forall|i: int| 0 <= i < units.len() implies units[i] == text[i] as u16 by {
        assert(wide[2 * i] == 0);
        assert(wide[2 * i + 1] == text[i]);
    }
    assert(no_surrogates(units));
    assert(utf16_text(units) =~= Seq::new(text.len(), |i: int| text[i] as char));
}

/// Decodes the bytes of one name as its platform asks.
pub fn decode_name(platform_id: u16, data: &[u8]) -> (text: String)
    ensures
        text@ == name_text(platform_id, data@),
{
    if platform_id == 1 {
        text_from_utf8(data)
    } else {
        let units = utf16_units(data);
        text_from_utf16(units.as_slice())
    }
}

/// `texts` with `text` added at the end, unless it is there already.
pub open spec fn with_text(texts: Seq<Seq<char>>, text: Seq<char>) -> Seq<Seq<char>> {
    if texts.contains(text) {
        texts
    } else {
        texts.push(text)
    }
}

/// The texts filed under `id` when each of `texts` is filed under the id at
/// the same index of `ids`: each text once, in the order of first appearance.
pub open spec fn texts_named(ids: Seq<u16>, texts: Seq<Seq<char>>, id: u16) -> Seq<Seq<char>>
    decreases ids.len(),
{
    if ids.len() == 0 || texts.len() == 0 {
        Seq::empty()
    } else if ids.last() == id {
        with_text(texts_named(ids.drop_last(), texts.drop_last(), id), texts.last())
    } else {
        texts_named(ids.drop_last(), texts.drop_last(), id)
    }
}

/// No text is filed twice under one id, and under an id that a record
/// carries at least one text is filed.
pub proof fn lemma_texts_named_once(ids: Seq<u16>, texts: Seq<Seq<char>>, id: u16)
    requires
        ids.len() == texts.len(),
    ensures
        texts_named(ids, texts, id).no_duplicates(),
        ids.contains(id) ==> texts_named(ids, texts, id).len() > 0,
    decreases ids.len(),
{
    if ids.len() > 0 {
        lemma_texts_named_once(ids.drop_last(), texts.drop_last(), id);
        if ids.contains(id) && ids.last() != id {
            let at = choose|at: int| 0 <= at < ids.len() && ids[at] == id;
            assert(ids.drop_last()[at] == id);
        }
    }
}

/// Whether `names` files each of `texts` under the id at the same index of
/// `ids`, and holds nothing else.
pub open spec fn files(names: Map<u16, Vec<String>>, ids: Seq<u16>, texts: Seq<Seq<char>>) -> bool {
    forall|id: u16|
        {
            &&& #[trigger] names.contains_key(id) <==> ids.contains(id)
            &&& names.contains_key(id) ==> names[id].deep_view() == texts_named(ids, texts, id)
        }
}

/// Whether `text` is among `texts`.
pub fn has_text(texts: &Vec<String>, text: &String) -> (found: bool)
    ensures
        found == texts.deep_view().contains(text@),
{
    let mut i: usize = 0;
    while i < texts.len()
        invariant
            i <= texts@.len(),
            forall|k: int| 0 <= k < i ==> texts.deep_view()[k] != text@,
        decreases texts@.len() - i,
    {
        if texts[i] == *text {
            assert(texts.deep_view()[i as int] == text@);
            return true;
        }
        i += 1;
    }
    false
}

/// Files `text` under `id`: a new id gets a list of its own, and a text that
/// is already filed under `id` is not filed twice.
pub fn insert_name(names: &mut HashMap<u16, Vec<String>>, id: u16, text: String)
    ensures
        final(names)@.dom() == old(names)@.dom().insert(id),
        forall|other: u16|
            other != id && old(names)@.contains_key(other) ==> final(names)@[other] == old(
                names,
            )@[other],
        final(names)@[id].deep_view() == with_text(
            if old(names)@.contains_key(id) {
                old(names)@[id].deep_view()
            } else {
                Seq::empty()
            },
            text@,
        ),
{
    let mut filed = match names.remove(&id) {
        Some(filed) => filed,
        None => Vec::new(),
    };
    if !has_text(&filed, &text) {
        let ghost before = filed.deep_view();
        filed.push(text);
        assert(filed.deep_view() == before.push(text@));
    }
    names.insert(id, filed);
    assert(final(names)@.dom() =~= old(names)@.dom().insert(id));
}

/// The number of entries that the directory of the file `bytes` has.
pub open spec fn table_count(bytes: Seq<u8>) -> nat {
    OffsetSubtable::decode_be(bytes).num_tables as nat
}

/// The number of bytes that the offset subtable and the directory take.
pub open spec fn directory_end(bytes: Seq<u8>) -> nat {
    12 + 16 * table_count(bytes)
}

/// Whether `bytes` hold the offset subtable and the whole directory.
pub open spec fn has_directory(bytes: Seq<u8>) -> bool {
    12 <= bytes.len() && directory_end(bytes) <= bytes.len()
}

/// The table directory of the file `bytes`.
pub open spec fn directory(bytes: Seq<u8>) -> Seq<TableDirectoryEntry> {
    Seq::new(table_count(bytes), |i: int| TableDirectoryEntry::decode_be(bytes.skip(12 + 16 * i)))
}

/// The file `bytes` from the start of its table `tag` on. Table offsets count
/// from the start of the file.
pub open spec fn table_bytes(bytes: Seq<u8>, tag: Seq<u8>) -> Seq<u8> {
    bytes.skip(entry_for(directory(bytes), tag)->0.offset as int)
}

/// Whether the directory of the file `bytes` lists a table `tag` that starts
/// inside the file.
pub open spec fn has_table(bytes: Seq<u8>, tag: Seq<u8>) -> bool {
    match entry_for(directory(bytes), tag) {
        Some(entry) => entry.offset <= bytes.len(),
        None => false,
    }
}

/// The `head` table of the file `bytes`.
pub open spec fn head_table(bytes: Seq<u8>) -> HeadTable {
    HeadTable::decode_be(table_bytes(bytes, head_tag()))
}

/// The records of the `name` table of the file `bytes`.
pub open spec fn name_records(bytes: Seq<u8>) -> Seq<NameRecord> {
    NameTable::records(table_bytes(bytes, name_tag()))
}

/// The string storage of the `name` table: the file from the offset on that
/// the table's header gives, counted from the start of the table.
pub open spec fn string_storage(bytes: Seq<u8>) -> Seq<u8> {
    let table = table_bytes(bytes, name_tag());
    table.skip(u16::decode_be(table.skip(4)) as int)
}

/// The bytes of the name that `record` describes.
pub open spec fn record_data(bytes: Seq<u8>, record: NameRecord) -> Seq<u8> {
    string_storage(bytes).subrange(record.offset as int, record.offset + record.length)
}

/// The name ids of the records, in the order of the records.
pub open spec fn name_ids(bytes: Seq<u8>) -> Seq<u16> {
    Seq::new(name_records(bytes).len(), |i: int| name_records(bytes)[i].name_id)
}

/// The decoded names of the records, in the order of the records.
pub open spec fn name_texts(bytes: Seq<u8>) -> Seq<Seq<char>> {
    Seq::new(
        name_records(bytes).len(),
        |i: int| name_text(name_records(bytes)[i].platform_id, record_data(bytes, name_records(bytes)[i])),
    )
}

/// Whether `bytes` are a TrueType file as far as this library reads one: the
/// directory is whole, the `head` table is there with the right magic number,
/// the `name` table is there with all its records, and every record's bytes
/// lie inside the string storage.
pub open spec fn is_font(bytes: Seq<u8>) -> bool {
    &&& has_directory(bytes)
    &&& has_table(bytes, head_tag())
    &&& HeadTable::width() <= table_bytes(bytes, head_tag()).len()
    &&& head_table(bytes).magic_number == HEAD_TABLE_MAGIC
    &&& has_table(bytes, name_tag())
    &&& NameTable::fits(table_bytes(bytes, name_tag()))
    &&& u16::decode_be(table_bytes(bytes, name_tag()).skip(4)) <= table_bytes(bytes, name_tag()).len()
    &&& forall|i: int|
        0 <= i < name_records(bytes).len() ==> (#[trigger] name_records(bytes)[i]).offset
            + name_records(bytes)[i].length <= string_storage(bytes).len()
}

/// Bytes whose `head` table has another magic number are no font, whatever
/// else they hold.
pub proof fn lemma_magic_number_gate(bytes: Seq<u8>)
    requires
        head_table(bytes).magic_number != HEAD_TABLE_MAGIC,
    ensures
        !is_font(bytes),
{
}

/// What this library reads of a TrueType file.
#[derive(Debug)]
pub struct TtfFile {
    pub offset: OffsetSubtable,
    pub head: HeadTable,
    pub name: NameTable,
    /// The decoded names by name id: each text once under its id, in the
    /// order of the records.
    pub names: HashMap<u16, Vec<String>>,
}

impl TtfFile {
    /// Whether this is what the file `bytes` holds.
    pub open spec fn decoded_from(self, bytes: Seq<u8>) -> bool {
        &&& self.offset == OffsetSubtable::decode_be(bytes)
        &&& self.head == head_table(bytes)
        &&& self.name.decoded_from(table_bytes(bytes, name_tag()))
        &&& files(self.names@, name_ids(bytes), name_texts(bytes))
    }

    /// Reads a TrueType file. Succeeds exactly on the inputs that `is_font`
    /// describes.
    pub fn parse(input: &[u8]) -> (r: Result<TtfFile, ()>)
        ensures
            r is Ok <==> is_font(input@),
            r is Ok ==> r->Ok_0.decoded_from(input@),
    {
        let mut input = input;
        Self::parse_be(&mut input)
    }

    /// The names filed under `id`, if there are any.
    pub fn name(&self, id: u16) -> (found: Option<&Vec<String>>)
        ensures
            match found {
                Some(texts) => self.names@.contains_key(id) && *texts == self.names@[id],
                None => !self.names@.contains_key(id),
            },
    {
        self.names.get(&id)
    }

    /// Reads a TrueType file from the cursor and moves the cursor past the
    /// table directory. Fails, with the cursor unmoved, on every input that
    /// `is_font` does not describe.
    pub fn parse_be(input: &mut &[u8]) -> (r: ParseResult<TtfFile>)
        ensures
            r is Ok <==> is_font(old(input)@),
            r is Ok ==> r->Ok_0.decoded_from(old(input)@) && final(input)@ == old(input)@.skip(
                directory_end(old(input)@) as int,
            ),
            r is Err ==> *final(input) == *old(input),
    {
        let whole = *input;
        let mut bytes = whole;

        let offset = OffsetSubtable::parse_be(&mut bytes)?;
        let mut entries: Vec<TableDirectoryEntry> = Vec::new();
        let mut i: u16 = 0;
        while i < offset.num_tables
            invariant
                *input == *old(input),
                whole == *input,
                i <= offset.num_tables,
                offset.num_tables == table_count(whole@),
                12 + 16 * i <= whole@.len(),
                bytes@ == whole@.skip(12 + 16 * i),
                entries@ == Seq::new(
                    i as nat,
                    |k: int| TableDirectoryEntry::decode_be(whole@.skip(12 + 16 * k)),
                ),
            decreases offset.num_tables - i,
        {
            let entry = TableDirectoryEntry::parse_be(&mut bytes)?;
            entries.push(entry);
            i += 1;
        }
        assert(entries@ == directory(whole@));

        let head_entry = match find_table(&entries, &[0x68, 0x65, 0x61, 0x64]) {
            Some(entry) => entry,
            None => {
                return Err(());
            },
        };
        assert([0x68u8, 0x65u8, 0x61u8, 0x64u8]@ =~= head_tag());
        let head_offset = head_entry.offset as usize;
        if head_offset > whole.len() {
            return Err(());
        }
        let mut head_bytes = slice_subrange(whole, head_offset, whole.len());
        assert(head_bytes@ == table_bytes(whole@, head_tag()));
        let head = HeadTable::parse_be(&mut head_bytes)?;
        if head.magic_number != HEAD_TABLE_MAGIC {
            return Err(());
        }

        let name_entry = match find_table(&entries, &[0x6E, 0x61, 0x6D, 0x65]) {
            Some(entry) => entry,
            None => {
                return Err(());
            },
        };
        assert([0x6Eu8, 0x61u8, 0x6Du8, 0x65u8]@ =~= name_tag());
        let name_offset = name_entry.offset as usize;
        if name_offset > whole.len() {
            return Err(());
        }
        let table = slice_subrange(whole, name_offset, whole.len());
        assert(table@ == table_bytes(whole@, name_tag()));
        let mut name_bytes = table;
        let name = NameTable::parse_be(&mut name_bytes)?;

        let string_offset = name.string_offset as usize;
        if string_offset > table.len() {
            return Err(());
        }
        let strings = slice_subrange(table, string_offset, table.len());
        assert(strings@ == string_storage(whole@));
        let mut names: HashMap<u16, Vec<String>> = HashMap::new();
        let mut k: usize = 0;
        while k < name.name_records.len()
            invariant
                *input == *old(input),
                whole == *input,
                k <= name.name_records@.len(),
                name.name_records@ == name_records(whole@),
                strings@ == string_storage(whole@),
                forall|j: int|
                    0 <= j < k ==> (#[trigger] name_records(whole@)[j]).offset + name_records(
                        whole@,
                    )[j].length <= strings@.len(),
                files(names@, name_ids(whole@).take(k as int), name_texts(whole@).take(k as int)),
            decreases name.name_records@.len() - k,
        {
            let record = &name.name_records[k];
            let start = record.offset as usize;
            let len = record.length as usize;
            if start + len > strings.len() {
                return Err(());
            }
            let data = slice_subrange(strings, start, start + len);
            let text = decode_name(record.platform_id, data);
            let ghost before = names@;
            insert_name(&mut names, record.name_id, text);
            proof {
                lemma_files_next(
                    before,
                    names@,
                    name_ids(whole@).take(k as int),
                    name_texts(whole@).take(k as int),
                    record.name_id,
                    text@,
                );
                assert(name_ids(whole@).take(k + 1) == name_ids(whole@).take(k as int).push(
                    record.name_id,
                ));
                assert(name_texts(whole@).take(k + 1) == name_texts(whole@).take(k as int).push(
                    text@,
                ));
            }
            k += 1;
        }
        assert(name_ids(whole@).take(k as int) == name_ids(whole@));
        assert(name_texts(whole@).take(k as int) == name_texts(whole@));

        *input = bytes;
        Ok(TtfFile { offset, head, name, names })
    }
}

/// Filing one more text keeps a filing in step with its lists.
proof fn lemma_files_next(
    before: Map<u16, Vec<String>>,
    after: Map<u16, Vec<String>>,
    ids: Seq<u16>,
    texts: Seq<Seq<char>>,
    id: u16,
    text: Seq<char>,
)
    requires
        ids.len() == texts.len(),
        files(before, ids, texts),
        after.dom() == before.dom().insert(id),
        forall|other: u16| other != id && before.contains_key(other) ==> after[other] == before[other],
        after[id].deep_view() == with_text(
            if before.contains_key(id) {
                before[id].deep_view()
            } else {
                Seq::empty()
            },
            text,
        ),
    ensures
        files(after, ids.push(id), texts.push(text)),
{
    let ids2 = ids.push(id);
    let texts2 = texts.push(text);
    assert(ids2.drop_last() == ids);
    assert(texts2.drop_last() == texts);
    if !ids.contains(id) {
        lemma_texts_named_absent(ids, texts, id);
    }
    assert forall|any: u16|
        {
            &&& #[trigger] after.contains_key(any) <==> ids2.contains(any)
            &&& after.contains_key(any) ==> after[any].deep_view() == texts_named(ids2, texts2, any)
        } by {
        assert(before.contains_key(any) <==> ids.contains(any));
        if ids.contains(any) {
            let at = choose|at: int| 0 <= at < ids.len() && ids[at] == any;
            assert(ids2[at] == any);
        }
        assert(ids2[ids.len() as int] == id);
        if ids2.contains(any) && any != id {
            let at = choose|at: int| 0 <= at < ids2.len() && ids2[at] == any;
            assert(ids[at] == any);
        }
    }
}

/// Nothing is filed under an id that no record carries.
proof fn lemma_texts_named_absent(ids: Seq<u16>, texts: Seq<Seq<char>>, id: u16)
    requires
        !ids.contains(id),
    ensures
        texts_named(ids, texts, id) == Seq::<Seq<char>>::empty(),
    decreases ids.len(),
{
    if ids.len() > 0 && texts.len() > 0 {
        assert(ids.last() == ids[ids.len() - 1]);
        assert forall|k: int| 0 <= k < ids.drop_last().len() implies ids.drop_last()[k] != id by {
            assert(ids[k] == ids.drop_last()[k]);
        }
        lemma_texts_named_absent(ids.drop_last(), texts.drop_last(), id);
    }
}

} // verus!
