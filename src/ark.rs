//! The container: header, directory load and per-entry payload extraction
//! over an in-memory copy of the container's bytes.
use vstd::prelude::*;
use crate::cipher::{decrypt, decrypt_bytes};
use crate::error::ArkError;
use crate::record::{
    ArkEntry, RECORD_SIZE, u32_at, utf8_text, name_field, directory_field, record_decodes,
    entry_matches, read_u32_le, read_entry,
};

verus! {

#[verifier::external_type_specification]
#[verifier::external_body]
pub struct ExIoError(std::io::Error);

/// The output of decompressing the first zstd frame of `b`, when the frame
/// is whole and accepted.
pub uninterp spec fn zstd_frame(b: Seq<u8>) -> Option<Seq<u8>>;

/// The whole output of zstd decompression of `b`, when it is accepted.
pub uninterp spec fn zstd_decoded(b: Seq<u8>) -> Option<Seq<u8>>;

/// Relies on `zstd::stream::Decoder::new` with `single_frame` and
/// `Read::read_to_end`: the whole first frame is decompressed, what follows it
/// is not read, a cut or corrupt frame is an error, and the output depends on
/// the input alone.
#[verifier::external_body]
fn decode_frame(b: &Vec<u8>) -> (r: Result<Vec<u8>, std::io::Error>)
    ensures
        match r {
            Ok(s) => zstd_frame(b@) == Some(s@),
            Err(_) => zstd_frame(b@) is None,
        },
{
    let mut decoder = zstd::stream::Decoder::new(std::io::Cursor::new(b.as_slice()))?.single_frame();
    let mut out = Vec::new();
    std::io::Read::read_to_end(&mut decoder, &mut out)?;
    Ok(out)
}

/// Relies on `zstd::decode_all`: the output depends on the input alone.
#[verifier::external_body]
fn decode_all(b: &Vec<u8>) -> (r: Result<Vec<u8>, std::io::Error>)
    ensures
        match r {
            Ok(s) => zstd_decoded(b@) == Some(s@),
            Err(_) => zstd_decoded(b@) is None,
        },
{
    zstd::decode_all(std::io::Cursor::new(b.as_slice()))
}

/// Size in bytes of the container header.
pub const HEADER_SIZE: usize = 12;

pub open spec fn entry_count(d: Seq<u8>) -> u32 {
    u32_at(d, 0)
}

pub open spec fn metadata_offset(d: Seq<u8>) -> u32 {
    u32_at(d, 4)
}

pub open spec fn version(d: Seq<u8>) -> u32 {
    u32_at(d, 8)
}

pub open spec fn supported_version(v: u32) -> bool {
    1 <= v <= 3
}

/// Everything from the metadata offset to the end of the source (nothing
/// when the offset lies past the end).
pub open spec fn metadata_block(d: Seq<u8>) -> Seq<u8> {
    if metadata_offset(d) <= d.len() {
        d.subrange(metadata_offset(d) as int, d.len() as int)
    } else {
        Seq::empty()
    }
}

/// The byte stream the records are read from: the decrypted metadata block
/// itself for version 1, and its whole decompressed frame otherwise.
pub open spec fn directory_stream(d: Seq<u8>) -> Option<Seq<u8>> {
    let plain = decrypt_bytes(metadata_block(d));
    if version(d) == 1 {
        Some(plain)
    } else {
        zstd_frame(plain)
    }
}

/// Record `i` of a directory stream.
pub open spec fn record_at(s: Seq<u8>, i: int) -> Seq<u8> {
    s.subrange(i * RECORD_SIZE, (i + 1) * RECORD_SIZE)
}

/// Why reading `count` records from the stream `s` fails, if it does.
pub open spec fn records_error(s: Seq<u8>, count: u32) -> Option<ArkError> {
    if s.len() < count * RECORD_SIZE {
        Some(ArkError::TruncatedDirectory)
    } else if exists|i: int| 0 <= i < count && !record_decodes(#[trigger] record_at(s, i)) {
        Some(ArkError::InvalidText)
    } else {
        None
    }
}

/// `v` holds one entry for each of the first `count` records of `s`, in order.
pub open spec fn is_record_list(s: Seq<u8>, count: u32, v: Seq<ArkEntry>) -> bool {
    &&& v.len() == count
    &&& forall|i: int| 0 <= i < v.len() ==> entry_matches(#[trigger] v[i], record_at(s, i))
}

/// Why loading the directory of the container `d` fails, if it does.
pub open spec fn load_error(d: Seq<u8>) -> Option<ArkError> {
    if d.len() < HEADER_SIZE {
        Some(ArkError::ShortRead)
    } else if !supported_version(version(d)) {
        Some(ArkError::UnsupportedVersion(version(d)))
    } else if metadata_block(d).len() % 4 != 0 {
        Some(ArkError::MisalignedBlock)
    } else {
        match directory_stream(d) {
            None => Some(ArkError::Decompress),
            Some(s) => records_error(s, entry_count(d)),
        }
    }
}

/// `v` is the directory of `d`: one entry per declared record, in record order.
pub open spec fn is_directory(d: Seq<u8>, v: Seq<ArkEntry>) -> bool {
    &&& directory_stream(d) is Some
    &&& is_record_list(directory_stream(d)->0, entry_count(d), v)
}

/// The number of bytes stored in the container for an entry.
pub open spec fn packed_size(e: ArkEntry) -> u32 {
    if e.encrypted_size != 0 {
        e.encrypted_size
    } else {
        e.compressed_size
    }
}

/// `s` cut to at most `n` bytes.
pub open spec fn cut(s: Seq<u8>, n: int) -> Seq<u8> {
    if n < s.len() {
        s.take(n)
    } else {
        s
    }
}

/// The packed bytes of `e` once decrypted (when the entry is encrypted).
pub open spec fn unsealed(packed: Seq<u8>, e: ArkEntry) -> Seq<u8> {
    if e.encrypted_size != 0 {
        decrypt_bytes(packed)
    } else {
        packed
    }
}

/// Exactly the first `n` bytes of `s`, or an error when `s` is shorter.
pub open spec fn exact(s: Seq<u8>, n: int) -> Result<Seq<u8>, ArkError> {
    if s.len() < n {
        Err(ArkError::ShortContent)
    } else {
        Ok(s.take(n))
    }
}

/// The content of `e` recovered from its packed bytes: decrypt if encrypted,
/// then, if compressed, cut to the compressed size and decompress; finally
/// take exactly the content size.
pub open spec fn unpacked(packed: Seq<u8>, e: ArkEntry) -> Result<Seq<u8>, ArkError> {
    if e.encrypted_size != 0 && packed.len() % 4 != 0 {
        Err(ArkError::MisalignedBlock)
    } else {
        let plain = unsealed(packed, e);
        if e.compressed_size != e.content_size {
            match zstd_decoded(cut(plain, e.compressed_size as int)) {
                Some(c) => exact(c, e.content_size as int),
                None => Err(ArkError::Decompress),
            }
        } else {
            exact(plain, e.content_size as int)
        }
    }
}

/// What extracting `e` from the container `d` gives.
pub open spec fn extracted(d: Seq<u8>, e: ArkEntry) -> Result<Seq<u8>, ArkError> {
    if e.offset + packed_size(e) > d.len() {
        Err(ArkError::ShortRead)
    } else {
        unpacked(d.subrange(e.offset as int, e.offset + packed_size(e)), e)
    }
}

/// A header whose version lies outside `1 ..= 3` fails the load with that
/// version named, whatever follows it.
pub proof fn lemma_unsupported_version_fails(d: Seq<u8>)
    requires
        d.len() >= HEADER_SIZE,
        !supported_version(version(d)),
    ensures
        load_error(d) == Some(ArkError::UnsupportedVersion(version(d))),
{
}

/// A directory whose decoded stream holds fewer bytes than the declared
/// records need fails the load; no shorter list is returned.
pub proof fn lemma_short_directory_fails(d: Seq<u8>, s: Seq<u8>)
    requires
        d.len() >= HEADER_SIZE,
        supported_version(version(d)),
        metadata_block(d).len() % 4 == 0,
        directory_stream(d) == Some(s),
        s.len() < entry_count(d) * RECORD_SIZE,
    ensures
        load_error(d) == Some(ArkError::TruncatedDirectory),
        forall|v: Seq<ArkEntry>| is_directory(d, v) ==> v.len() == entry_count(d),
{
}

/// A declared record whose name or directory field is not valid UTF-8 fails
/// the whole load with a text error.
pub proof fn lemma_invalid_text_fails(d: Seq<u8>, s: Seq<u8>, i: int)
    requires
        d.len() >= HEADER_SIZE,
        supported_version(version(d)),
        metadata_block(d).len() % 4 == 0,
        directory_stream(d) == Some(s),
        s.len() >= entry_count(d) * RECORD_SIZE,
        0 <= i < entry_count(d),
        utf8_text(name_field(record_at(s, i))) is None || utf8_text(
            directory_field(record_at(s, i)),
        ) is None,
    ensures
        load_error(d) == Some(ArkError::InvalidText),
{
    assert(!record_decodes(record_at(s, i)));
}

/// Extraction fails when the source holds fewer than the packed size of
/// bytes from the entry's offset on.
pub proof fn lemma_short_source_fails(d: Seq<u8>, e: ArkEntry)
    requires
        e.offset + packed_size(e) > d.len(),
    ensures
        extracted(d, e) == Err::<Seq<u8>, ArkError>(ArkError::ShortRead),
{
}

/// An entry that is neither encrypted nor compressed is extracted as the raw
/// bytes at its offset, `content_size` of them.
pub proof fn lemma_plain_entry_is_raw(d: Seq<u8>, e: ArkEntry)
    requires
        e.encrypted_size == 0,
        e.compressed_size == e.content_size,
        e.offset + e.content_size <= d.len(),
    ensures
        extracted(d, e) == Ok::<Seq<u8>, ArkError>(
            d.subrange(e.offset as int, e.offset + e.content_size),
        ),
{
    let packed = d.subrange(e.offset as int, e.offset + e.content_size);
    assert(packed.take(e.content_size as int) =~= packed);
}

/// An encrypted, compressed entry is extracted by decrypting its
/// `encrypted_size` bytes, cutting them to `compressed_size`, decompressing
/// that, and taking exactly `content_size` bytes of the result, in this order.
pub proof fn lemma_sealed_entry_pipeline(d: Seq<u8>, e: ArkEntry)
    requires
        e.encrypted_size > 0,
        e.encrypted_size % 4 == 0,
        e.compressed_size < e.content_size,
        e.offset + e.encrypted_size <= d.len(),
    ensures
        ({
            let packed = d.subrange(e.offset as int, e.offset + e.encrypted_size);
            let compressed = cut(decrypt_bytes(packed), e.compressed_size as int);
            extracted(d, e) == match zstd_decoded(compressed) {
                Some(c) => if c.len() < e.content_size {
                    Err::<Seq<u8>, ArkError>(ArkError::ShortContent)
                } else {
                    Ok::<Seq<u8>, ArkError>(c.take(e.content_size as int))
                },
                None => Err::<Seq<u8>, ArkError>(ArkError::Decompress),
            }
        }),
{
}

/// Copies `b[start .. end]`.
fn copy_range(b: &Vec<u8>, start: usize, end: usize) -> (r: Vec<u8>)
    requires
        start <= end <= b@.len(),
    ensures
        r@ == b@.subrange(start as int, end as int),
{
    let mut r: Vec<u8> = Vec::with_capacity(end - start);
    let mut i: usize = start;
    while i < end
        invariant
            start <= i <= end <= b@.len(),
            r@ == b@.subrange(start as int, i as int),
        decreases end - i,
    {
        r.push(b[i]);
        i += 1;
        assert(r@ =~= b@.subrange(start as int, i as int));
    }
    r
}

/// Cuts `v` to at most `n` bytes.
fn cut_to(v: &mut Vec<u8>, n: usize)
    ensures
        final(v)@ == cut(old(v)@, n as int),
{
    v.truncate(n);
    assert(final(v)@ =~= cut(old(v)@, n as int));
}

/// Recovers the content of `entry` from its packed bytes.
pub fn unpack(packed: Vec<u8>, entry: &ArkEntry) -> (r: Result<Vec<u8>, ArkError>)
    ensures
        match r {
            Ok(c) => unpacked(packed@, *entry) == Ok::<Seq<u8>, ArkError>(c@),
            Err(e) => unpacked(packed@, *entry) == Err::<Seq<u8>, ArkError>(e),
        },
{
    let mut buf = packed;
    if entry.encrypted_size != 0 {
        if buf.len() % 4 != 0 {
            return Err(ArkError::MisalignedBlock);
        }
        decrypt(&mut buf);
    }
    if entry.compressed_size != entry.content_size {
        cut_to(&mut buf, entry.compressed_size as usize);
        buf = match decode_all(&buf) {
            Ok(c) => c,
            Err(_) => return Err(ArkError::Decompress),
        };
    }
    if buf.len() < entry.content_size as usize {
        return Err(ArkError::ShortContent);
    }
    let ghost before = buf@;
    cut_to(&mut buf, entry.content_size as usize);
    assert(buf@ =~= before.take(entry.content_size as int));
    Ok(buf)
}

/// Decodes the first `count` records of a directory stream, in order.
pub fn read_entries(stream: &Vec<u8>, count: u32) -> (r: Result<Vec<ArkEntry>, ArkError>)
    ensures
        match r {
            Ok(v) => records_error(stream@, count) is None && is_record_list(stream@, count, v@),
            Err(e) => records_error(stream@, count) == Some(e),
        },
{
    let slen = stream.len();
    if (slen as u64) < count as u64 * RECORD_SIZE as u64 {
        return Err(ArkError::TruncatedDirectory);
    }
    let n = count as usize;
    let mut entries: Vec<ArkEntry> = Vec::new();
    let mut i: usize = 0;
    while i < n
        invariant
            n == count,
            n * RECORD_SIZE <= slen,
            slen == stream@.len(),
            i <= n,
            entries@.len() == i,
            forall|j: int|
                0 <= j < i ==> entry_matches(#[trigger] entries@[j], record_at(stream@, j)),
            forall|j: int| 0 <= j < i ==> record_decodes(#[trigger] record_at(stream@, j)),
        decreases n - i,
    {
        assert((i + 1) * RECORD_SIZE <= n * RECORD_SIZE) by (nonlinear_arith)
            requires
                i < n,
        ;
        let e = match read_entry(stream, i * RECORD_SIZE) {
            Ok(e) => e,
            Err(x) => {
                assert(!record_decodes(record_at(stream@, i as int)));
                return Err(x);
            },
        };
        entries.push(e);
        i += 1;
    }
    Ok(entries)
}

/// A container, bound to the bytes of its source.
pub struct ArkFile {
    file: Vec<u8>,
}

impl View for ArkFile {
    type V = Seq<u8>;

    closed spec fn view(&self) -> Seq<u8> {
        self.file@
    }
}

impl ArkFile {
    /// Binds a container to the bytes of its source.
    pub fn new(file: Vec<u8>) -> (r: ArkFile)
        ensures
            r@ == file@,
    {
        ArkFile { file }
    }

    /// Gives the source's bytes back.
    pub fn unwrap(self) -> (r: Vec<u8>)
        ensures
            r@ == self@,
    {
        self.file
    }

    /// Loads the directory: header, decryption of the metadata block,
    /// decompression for versions 2 and 3, and one entry per declared record.
    pub fn read_metadata(&self) -> (r: Result<Vec<ArkEntry>, ArkError>)
        ensures
            match r {
                Ok(v) => load_error(self@) is None && is_directory(self@, v@),
                Err(e) => load_error(self@) == Some(e),
            },
    {
        let d = &self.file;
        assert(self@ == d@);
        let len = d.len();
        if len < HEADER_SIZE {
            return Err(ArkError::ShortRead);
        }
        let count = read_u32_le(d, 0);
        let offset = read_u32_le(d, 4);
        let ver = read_u32_le(d, 8);
        if ver < 1 || ver > 3 {
            return Err(ArkError::UnsupportedVersion(ver));
        }
        let start: usize = if offset as usize <= len {
            offset as usize
        } else {
            len
        };
        let mut block = copy_range(d, start, len);
        assert(block@ =~= metadata_block(d@));
        if block.len() % 4 != 0 {
            return Err(ArkError::MisalignedBlock);
        }
        decrypt(&mut block);
        let stream = if ver == 1 {
            block
        } else {
            match decode_frame(&block) {
                Ok(s) => s,
                Err(_) => return Err(ArkError::Decompress),
            }
        };
        assert(directory_stream(d@) == Some(stream@));
        read_entries(&stream, count)
    }

    /// Extracts the content of one entry.
    pub fn read_file(&self, entry: &ArkEntry) -> (r: Result<Vec<u8>, ArkError>)
        ensures
            match r {
                Ok(c) => extracted(self@, *entry) == Ok::<Seq<u8>, ArkError>(c@),
                Err(e) => extracted(self@, *entry) == Err::<Seq<u8>, ArkError>(e),
            },
    {
        let d = &self.file;
        let packed_size = if entry.encrypted_size != 0 {
            entry.encrypted_size
        } else {
            entry.compressed_size
        };
        let start = entry.offset as u64;
        let end = start + packed_size as u64;
        if end > d.len() as u64 {
            return Err(ArkError::ShortRead);
        }
        let packed = copy_range(d, start as usize, end as usize);
        unpack(packed, entry)
    }
}

} // verus!
