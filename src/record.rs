//! The fixed-size directory record that describes one entry.
use vstd::prelude::*;
use crate::cipher::le32;
use crate::error::ArkError;
use vstd::utf8::{decode_utf8, valid_utf8};

verus! {

/// Size in bytes of one directory record.
pub const RECORD_SIZE: usize = 296;

/// Size in bytes of each of the two null-padded text fields.
pub const TEXT_FIELD_SIZE: usize = 128;

/// The text that a byte string decodes to as UTF-8, if it is valid UTF-8.
pub open spec fn utf8_text(b: Seq<u8>) -> Option<Seq<char>> {
    if valid_utf8(b) {
        Some(decode_utf8(b))
    } else {
        None
    }
}

/// A byte string that starts with 0xFF is not text: no UTF-8 encoding uses
/// that byte.
pub proof fn lemma_ff_is_not_text(b: Seq<u8>)
    requires
        b.len() > 0,
        b[0] == 0xffu8,
    ensures
        utf8_text(b) is None,
{
    let x: u8 = 0xff;
    assert(!vstd::utf8::is_leading_byte_width_1(x) && !vstd::utf8::is_leading_byte_width_2(x)
        && !vstd::utf8::is_leading_byte_width_3(x) && !vstd::utf8::is_leading_byte_width_4(x));
    assert(!valid_utf8(b));
}

/// Relies on `String::from_utf8`: it accepts exactly the valid UTF-8 byte
/// strings and gives the characters they encode.
#[verifier::external_body]
fn text_from_utf8(b: Vec<u8>) -> (r: Option<String>)
    ensures
        match r {
            Some(s) => utf8_text(b@) == Some(s@),
            None => utf8_text(b@) is None,
        },
{
    String::from_utf8(b).ok()
}

/// One entry of the directory.
pub struct ArkEntry {
    pub filename: String,
    pub directory: String,
    pub offset: u32,
    pub content_size: u32,
    pub compressed_size: u32,
    pub encrypted_size: u32,
}

/// The little-endian 32-bit word at byte `i`.
pub open spec fn u32_at(b: Seq<u8>, i: int) -> u32 {
    le32(b[i], b[i + 1], b[i + 2], b[i + 3])
}

/// `k` is where the text of a null-padded field ends: no null before it, and a
/// null at it unless it is the field's end.
pub open spec fn is_text_end(f: Seq<u8>, k: int) -> bool {
    &&& 0 <= k <= f.len()
    &&& forall|j: int| 0 <= j < k ==> f[j] != 0
    &&& k < f.len() ==> f[k] == 0
}

/// The bytes of a null-padded field before its first null.
pub open spec fn text_bytes(f: Seq<u8>) -> Seq<u8> {
    f.take(choose|k: int| is_text_end(f, k))
}

/// The name field of a record.
pub open spec fn name_field(rec: Seq<u8>) -> Seq<u8> {
    text_bytes(rec.subrange(0, TEXT_FIELD_SIZE as int))
}

/// The directory field of a record.
pub open spec fn directory_field(rec: Seq<u8>) -> Seq<u8> {
    text_bytes(rec.subrange(TEXT_FIELD_SIZE as int, 2 * TEXT_FIELD_SIZE as int))
}

/// Both text fields of the record are valid UTF-8.
pub open spec fn record_decodes(rec: Seq<u8>) -> bool {
    utf8_text(name_field(rec)) is Some && utf8_text(directory_field(rec)) is Some
}

/// `e` holds what the record `rec` says.
pub open spec fn entry_matches(e: ArkEntry, rec: Seq<u8>) -> bool {
    &&& utf8_text(name_field(rec)) == Some(e.filename@)
    &&& utf8_text(directory_field(rec)) == Some(e.directory@)
    &&& e.offset == u32_at(rec, 256)
    &&& e.content_size == u32_at(rec, 260)
    &&& e.compressed_size == u32_at(rec, 264)
    &&& e.encrypted_size == u32_at(rec, 268)
}

pub proof fn lemma_text_end_unique(f: Seq<u8>, k: int)
    requires
        is_text_end(f, k),
    ensures
        (choose|m: int| is_text_end(f, m)) == k,
{
    let m = choose|m: int| is_text_end(f, m);
    assert(is_text_end(f, m));
    if m < k {
        assert(f[m] != 0);
    } else if m > k {
        assert(f[k] != 0);
    }
}

/// Reads the little-endian 32-bit word at byte `i`.
pub fn read_u32_le(b: &Vec<u8>, i: usize) -> (r: u32)
    requires
        i + 4 <= b@.len(),
    ensures
        r == u32_at(b@, i as int),
{
    let len = b.len();
    assert(i + 3 < len);
    (b[i] as u32) | ((b[i + 1] as u32) << 8) | ((b[i + 2] as u32) << 16) | ((b[i + 3] as u32)
        << 24)
}

/// Decodes the null-padded text field of `TEXT_FIELD_SIZE` bytes at `start`;
/// fewer bytes than that from `start` on is an error.
pub fn read_text_field(b: &Vec<u8>, start: usize) -> (r: Result<String, ArkError>)
    ensures
        start + TEXT_FIELD_SIZE > b@.len() ==> r == Err::<String, ArkError>(
            ArkError::TruncatedDirectory,
        ),
        start + TEXT_FIELD_SIZE <= b@.len() ==> ({
            let f = text_bytes(b@.subrange(start as int, start + TEXT_FIELD_SIZE));
            match r {
                Ok(s) => utf8_text(f) == Some(s@),
                Err(e) => e == ArkError::InvalidText && utf8_text(f) is None,
            }
        }),
{
    let len = b.len();
    if start > len || len - start < TEXT_FIELD_SIZE {
        return Err(ArkError::TruncatedDirectory);
    }
    let ghost field = b@.subrange(start as int, start + TEXT_FIELD_SIZE);
    let mut text: Vec<u8> = Vec::new();
    let mut k: usize = 0;
    while k < TEXT_FIELD_SIZE && b[start + k] != 0
        invariant
            start + TEXT_FIELD_SIZE <= b@.len(),
            len == b@.len(),
            field == b@.subrange(start as int, start + TEXT_FIELD_SIZE),
            k <= TEXT_FIELD_SIZE,
            text@ == field.take(k as int),
            forall|j: int| 0 <= j < k ==> field[j] != 0,
        decreases TEXT_FIELD_SIZE - k,
    {
        text.push(b[start + k]);
        k += 1;
        assert(text@ =~= field.take(k as int));
    }
    proof {
        assert(is_text_end(field, k as int));
        lemma_text_end_unique(field, k as int);
    }
    match text_from_utf8(text) {
        Some(s) => Ok(s),
        None => Err(ArkError::InvalidText),
    }
}

/// Decodes the record of `RECORD_SIZE` bytes at `start`; fewer bytes than
/// that from `start` on is an error. The timestamp, digest and flags words
/// that close the record are skipped.
pub fn read_entry(b: &Vec<u8>, start: usize) -> (r: Result<ArkEntry, ArkError>)
    ensures
        start + RECORD_SIZE > b@.len() ==> (r matches Err(e) && e == ArkError::TruncatedDirectory),
        start + RECORD_SIZE <= b@.len() ==> ({
            let rec = b@.subrange(start as int, start + RECORD_SIZE);
            match r {
                Ok(e) => entry_matches(e, rec),
                Err(e) => e == ArkError::InvalidText && !record_decodes(rec),
            }
        }),
{
    let len = b.len();
    if start > len || len - start < RECORD_SIZE {
        return Err(ArkError::TruncatedDirectory);
    }
    let ghost rec = b@.subrange(start as int, start + RECORD_SIZE);
    assert(b@.subrange(start as int, start + TEXT_FIELD_SIZE) =~= rec.subrange(
        0,
        TEXT_FIELD_SIZE as int,
    ));
    assert(b@.subrange(start + TEXT_FIELD_SIZE, start + TEXT_FIELD_SIZE + TEXT_FIELD_SIZE)
        =~= rec.subrange(TEXT_FIELD_SIZE as int, 2 * TEXT_FIELD_SIZE as int));
    let filename = match read_text_field(b, start) {
        Ok(s) => s,
        Err(e) => return Err(e),
    };
    let directory = match read_text_field(b, start + TEXT_FIELD_SIZE) {
        Ok(s) => s,
        Err(e) => return Err(e),
    };
    let offset = read_u32_le(b, start + 256);
    let content_size = read_u32_le(b, start + 260);
    let compressed_size = read_u32_le(b, start + 264);
    let encrypted_size = read_u32_le(b, start + 268);
    Ok(ArkEntry { filename, directory, offset, content_size, compressed_size, encrypted_size })
}

} // verus!
