use arkfile::ark::{read_entries, unpack, ArkFile};
use arkfile::cipher::{decrypt, decrypt_block, encrypt, encrypt_block};
use arkfile::error::ArkError;
use arkfile::record::{read_entry, read_text_field, read_u32_le, ArkEntry, RECORD_SIZE};

fn sample(len: usize, seed: u32) -> Vec<u8> {
    let mut x = seed.wrapping_mul(2654435761).wrapping_add(17);
    (0..len)
        .map(|_| {
            x ^= x << 13;
            x ^= x >> 17;
            x ^= x << 5;
            (x >> 7) as u8
        })
        .collect()
}

fn pad4(mut v: Vec<u8>) -> Vec<u8> {
    while v.len() % 4 != 0 {
        v.push(0);
    }
    v
}

fn record(name: &[u8], dir: &[u8], fields: [u32; 4]) -> Vec<u8> {
    let mut r = vec![0u8; RECORD_SIZE];
    r[..name.len()].copy_from_slice(name);
    r[128..128 + dir.len()].copy_from_slice(dir);
    for (k, f) in fields.iter().enumerate() {
        r[256 + 4 * k..260 + 4 * k].copy_from_slice(&f.to_le_bytes());
    }
    r[272..276].copy_from_slice(&0x5f5e_0f00u32.to_le_bytes());
    for k in 276..292 {
        r[k] = 0xaa;
    }
    r[292..296].copy_from_slice(&7u32.to_le_bytes());
    r
}

/// A container whose directory block holds `records`, declaring `count` of them.
fn container(version: u32, count: u32, payload: &[u8], records: &[Vec<u8>]) -> Vec<u8> {
    let mut meta: Vec<u8> = records.concat();
    if version >= 2 {
        meta = zstd::encode_all(&meta[..], 3).unwrap();
    }
    let mut meta = pad4(meta);
    encrypt(&mut meta);
    let mut out = Vec::new();
    out.extend_from_slice(&count.to_le_bytes());
    out.extend_from_slice(&((12 + payload.len()) as u32).to_le_bytes());
    out.extend_from_slice(&version.to_le_bytes());
    out.extend_from_slice(payload);
    out.extend_from_slice(&meta);
    out
}

fn three_records() -> Vec<Vec<u8>> {
    vec![
        record(b"pony.rk", b"models", [12, 10, 10, 0]),
        record(b"pony.csv", b"anims", [22, 5, 5, 0]),
        record(b"sky.dds", b"", [27, 3, 3, 0]),
    ]
}

fn entry(offset: u32, content: u32, compressed: u32, encrypted: u32) -> ArkEntry {
    ArkEntry {
        filename: String::from("f"),
        directory: String::from("d"),
        offset,
        content_size: content,
        compressed_size: compressed,
        encrypted_size: encrypted,
    }
}

#[test]
fn cipher_round_trip() {
    for (len, seed) in [(0usize, 1u32), (4, 2), (8, 3), (12, 4), (100, 5), (1024, 6)] {
        let plain = sample(len, seed);
        let mut buf = plain.clone();
        encrypt(&mut buf);
        assert_eq!(buf.len(), len);
        if len >= 8 {
            assert_ne!(buf, plain);
        }
        decrypt(&mut buf);
        assert_eq!(buf, plain);
    }
}

#[test]
fn cipher_single_word_unchanged() {
    let mut buf = vec![1u8, 2, 3, 4];
    encrypt(&mut buf);
    assert_eq!(buf, vec![1u8, 2, 3, 4]);
    let mut w = vec![0x1234_5678u32];
    decrypt_block(&mut w);
    assert_eq!(w, vec![0x1234_5678u32]);
}

#[test]
fn cipher_block_round_trip_and_little_endian() {
    let words = vec![0x0403_0201u32, 0x0807_0605, 0x0c0b_0a09];
    let mut w = words.clone();
    encrypt_block(&mut w);
    assert_ne!(w, words);
    let mut bytes: Vec<u8> = (1..=12).collect();
    encrypt(&mut bytes);
    let from_bytes: Vec<u32> = bytes
        .chunks(4)
        .map(|c| u32::from_le_bytes([c[0], c[1], c[2], c[3]]))
        .collect();
    assert_eq!(from_bytes, w);
    decrypt_block(&mut w);
    assert_eq!(w, words);
}

#[test]
fn reads_little_endian_words() {
    let b = vec![0x78u8, 0x56, 0x34, 0x12, 0xff];
    assert_eq!(read_u32_le(&b, 0), 0x1234_5678);
    assert_eq!(read_u32_le(&b, 1), 0xff12_3456);
}

#[test]
fn decodes_one_record() {
    let mut b = vec![9u8; 3];
    b.extend(record("é.rk".as_bytes(), b"dir/sub", [1, 2, 3, 4]));
    let e = read_entry(&b, 3).unwrap();
    assert_eq!(e.filename, "é.rk");
    assert_eq!(e.directory, "dir/sub");
    assert_eq!((e.offset, e.content_size, e.compressed_size, e.encrypted_size), (1, 2, 3, 4));
}

#[test]
fn full_width_name_without_null() {
    let name = vec![b'a'; 128];
    let b = record(&name, b"x", [0, 0, 0, 0]);
    let e = read_entry(&b, 0).unwrap();
    assert_eq!(e.filename.len(), 128);
    assert_eq!(e.directory, "x");
}

#[test]
fn loads_every_supported_version_in_order() {
    let payload = sample(20, 9);
    for version in 1..=3u32 {
        let c = container(version, 3, &payload, &three_records());
        let entries = ArkFile::new(c).read_metadata().unwrap();
        assert_eq!(entries.len(), 3);
        let names: Vec<&str> = entries.iter().map(|e| e.filename.as_str()).collect();
        assert_eq!(names, vec!["pony.rk", "pony.csv", "sky.dds"]);
        assert_eq!(entries[1].directory, "anims");
        assert_eq!(entries[2].directory, "");
        assert_eq!(entries[1].offset, 22);
        assert_eq!(entries[1].content_size, 5);
    }
}

#[test]
fn empty_directory_loads() {
    let c = container(1, 0, &[], &[]);
    assert_eq!(ArkFile::new(c).read_metadata().unwrap().len(), 0);
}

#[test]
fn unsupported_versions_fail() {
    for version in [0u32, 4, 77] {
        let c = container(1, 3, &[], &three_records());
        let mut c = c;
        c[8..12].copy_from_slice(&version.to_le_bytes());
        let r = ArkFile::new(c).read_metadata();
        assert_eq!(r.err(), Some(ArkError::UnsupportedVersion(version)));
    }
}

#[test]
fn short_header_fails() {
    let r = ArkFile::new(vec![1, 0, 0, 0, 12, 0]).read_metadata();
    assert_eq!(r.err(), Some(ArkError::ShortRead));
}

#[test]
fn declared_records_beyond_stream_fail() {
    for version in 1..=3u32 {
        let c = container(version, 5, &[], &three_records());
        let r = ArkFile::new(c).read_metadata();
        assert_eq!(r.err(), Some(ArkError::TruncatedDirectory));
    }
}

#[test]
fn fewer_declared_records_reads_only_those() {
    let c = container(1, 2, &[], &three_records());
    let entries = ArkFile::new(c).read_metadata().unwrap();
    assert_eq!(entries.len(), 2);
    assert_eq!(entries[1].filename, "pony.csv");
}

#[test]
fn invalid_utf8_name_fails() {
    let mut records = three_records();
    records[1] = record(&[b'a', 0xff, 0xfe], b"d", [0, 0, 0, 0]);
    for version in 1..=2u32 {
        let c = container(version, 3, &[], &records);
        let r = ArkFile::new(c).read_metadata();
        assert_eq!(r.err(), Some(ArkError::InvalidText));
    }
}

#[test]
fn invalid_utf8_directory_fails() {
    let records = vec![record(b"ok", &[0xc3, 0x28], [0, 0, 0, 0])];
    let c = container(1, 1, &[], &records);
    assert_eq!(ArkFile::new(c).read_metadata().err(), Some(ArkError::InvalidText));
}

#[test]
fn invalid_bytes_after_null_are_ignored() {
    let records = vec![record(&[b'o', b'k', 0, 0xff], b"d", [0, 0, 0, 0])];
    let c = container(1, 1, &[], &records);
    let entries = ArkFile::new(c).read_metadata().unwrap();
    assert_eq!(entries[0].filename, "ok");
}

#[test]
fn misaligned_metadata_fails() {
    let mut c = container(1, 1, &[], &three_records()[..1]);
    c.push(0);
    assert_eq!(ArkFile::new(c).read_metadata().err(), Some(ArkError::MisalignedBlock));
}

#[test]
fn undecodable_metadata_fails() {
    let mut meta = sample(64, 4);
    encrypt(&mut meta);
    let mut c = Vec::new();
    c.extend_from_slice(&1u32.to_le_bytes());
    c.extend_from_slice(&12u32.to_le_bytes());
    c.extend_from_slice(&2u32.to_le_bytes());
    c.extend_from_slice(&meta);
    assert_eq!(ArkFile::new(c).read_metadata().err(), Some(ArkError::Decompress));
}

#[test]
fn metadata_offset_past_end_reads_nothing() {
    let mut c = container(1, 0, &[], &[]);
    c[4..8].copy_from_slice(&1000u32.to_le_bytes());
    assert_eq!(ArkFile::new(c.clone()).read_metadata().unwrap().len(), 0);
    c[0..4].copy_from_slice(&1u32.to_le_bytes());
    assert_eq!(ArkFile::new(c).read_metadata().err(), Some(ArkError::TruncatedDirectory));
}

#[test]
fn plain_entry_is_raw_bytes() {
    let payload = sample(20, 9);
    let c = container(1, 3, &payload, &three_records());
    let ark = ArkFile::new(c);
    let entries = ark.read_metadata().unwrap();
    assert_eq!(ark.read_file(&entries[0]).unwrap(), payload[0..10].to_vec());
    assert_eq!(ark.read_file(&entries[1]).unwrap(), payload[10..15].to_vec());
    assert_eq!(ark.read_file(&entries[2]).unwrap(), payload[15..18].to_vec());
}

/// Content whose compressed form is not a multiple of four bytes long.
fn sealed_fixture() -> (Vec<u8>, Vec<u8>, Vec<u8>) {
    let mut n = 400;
    loop {
        let content: Vec<u8> = (0..n).map(|i| (i % 23) as u8 + b'a').collect();
        let compressed = zstd::encode_all(&content[..], 3).unwrap();
        if compressed.len() % 4 != 0 && compressed.len() < content.len() {
            let mut sealed = pad4(compressed.clone());
            encrypt(&mut sealed);
            return (content, compressed, sealed);
        }
        n += 1;
    }
}

#[test]
fn sealed_entry_is_decrypted_cut_and_decompressed() {
    let (content, compressed, sealed) = sealed_fixture();
    let records = vec![record(
        b"pony.rk",
        b"models",
        [12, content.len() as u32, compressed.len() as u32, sealed.len() as u32],
    )];
    for version in 1..=3u32 {
        let c = container(version, 1, &sealed, &records);
        let ark = ArkFile::new(c);
        let entries = ark.read_metadata().unwrap();
        assert_eq!(ark.read_file(&entries[0]).unwrap(), content);
    }
}

#[test]
fn sealed_entry_needs_cut_before_decompression() {
    let (content, compressed, sealed) = sealed_fixture();
    let mut plain = sealed.clone();
    decrypt(&mut plain);
    assert_eq!(&plain[..compressed.len()], &compressed[..]);
    match zstd::decode_all(&plain[..]) {
        Ok(v) => assert_ne!(v, content),
        Err(_) => {}
    }
    let e = entry(0, content.len() as u32, compressed.len() as u32, sealed.len() as u32);
    assert_eq!(unpack(sealed, &e).unwrap(), content);
}

#[test]
fn compressed_entry_without_encryption() {
    let content: Vec<u8> = b"abcabcabcabcabcabcabcabcabcabcabcabc".repeat(10);
    let compressed = zstd::encode_all(&content[..], 3).unwrap();
    let e = entry(0, content.len() as u32, compressed.len() as u32, 0);
    assert_eq!(unpack(compressed, &e).unwrap(), content);
}

#[test]
fn encrypted_entry_without_compression_is_cut_to_content() {
    let content = sample(10, 3);
    let mut sealed = pad4(content.clone());
    encrypt(&mut sealed);
    let e = entry(0, 10, 10, 12);
    assert_eq!(unpack(sealed, &e).unwrap(), content);
}

#[test]
fn decompression_output_is_cut_to_content_size() {
    let content = b"hello hello hello hello".to_vec();
    let compressed = zstd::encode_all(&content[..], 3).unwrap();
    let e = entry(0, 5, compressed.len() as u32, 0);
    assert_eq!(unpack(compressed, &e).unwrap(), b"hello".to_vec());
}

#[test]
fn undecodable_payload_fails() {
    let e = entry(0, 100, 8, 0);
    assert_eq!(unpack(vec![1, 2, 3, 4, 5, 6, 7, 8], &e).err(), Some(ArkError::Decompress));
}

#[test]
fn misaligned_encrypted_payload_fails() {
    let e = entry(0, 6, 6, 6);
    assert_eq!(unpack(vec![0; 6], &e).err(), Some(ArkError::MisalignedBlock));
}

#[test]
fn short_source_fails_extraction() {
    let ark = ArkFile::new(sample(30, 1));
    assert_eq!(ark.read_file(&entry(20, 10, 10, 0)).unwrap().len(), 10);
    assert_eq!(ark.read_file(&entry(21, 10, 10, 0)).err(), Some(ArkError::ShortRead));
    assert_eq!(ark.read_file(&entry(20, 4, 4, 12)).err(), Some(ArkError::ShortRead));
    assert_eq!(ark.read_file(&entry(u32::MAX, 4, 4, 0)).err(), Some(ArkError::ShortRead));
}

#[test]
fn new_and_unwrap_keep_the_bytes() {
    let bytes = sample(17, 2);
    assert_eq!(ArkFile::new(bytes.clone()).unwrap(), bytes);
}

#[test]
fn reads_records_from_a_stream() {
    let stream = three_records().concat();
    let all = read_entries(&stream, 3).unwrap();
    assert_eq!(all.len(), 3);
    assert_eq!(all[2].filename, "sky.dds");
    assert_eq!(all[2].offset, 27);
    assert_eq!(read_entries(&stream, 0).unwrap().len(), 0);
    assert_eq!(read_entries(&stream, 4).err(), Some(ArkError::TruncatedDirectory));
    assert_eq!(read_entries(&stream[..RECORD_SIZE * 3 - 1].to_vec(), 3).err(), Some(ArkError::TruncatedDirectory));
}

#[test]
fn one_record_version_one_loads_exactly() {
    let mut r = Vec::new();
    r.extend_from_slice(b"a.rk");
    r.extend_from_slice(&[0u8; 124]);
    r.extend_from_slice(b"d");
    r.extend_from_slice(&[0u8; 127]);
    for w in [7u32, 8, 8, 0] {
        r.extend_from_slice(&w.to_le_bytes());
    }
    r.extend_from_slice(&[0u8; 24]);
    assert_eq!(r.len(), RECORD_SIZE);
    let mut enc = r.clone();
    encrypt(&mut enc);
    let mut src = Vec::new();
    for w in [1u32, 12, 1] {
        src.extend_from_slice(&w.to_le_bytes());
    }
    src.extend_from_slice(&enc);
    let entries = ArkFile::new(src).read_metadata().unwrap();
    assert_eq!(entries.len(), 1);
    let e = &entries[0];
    assert_eq!(e.filename, "a.rk");
    assert_eq!(e.directory, "d");
    assert_eq!((e.offset, e.content_size, e.compressed_size, e.encrypted_size), (7, 8, 8, 0));
}

#[test]
fn short_decrypted_payload_fails() {
    let ark = ArkFile::new(vec![1, 2, 3, 4]);
    assert_eq!(ark.read_file(&entry(0, 8, 8, 4)).err(), Some(ArkError::ShortContent));
}

#[test]
fn short_decompressed_payload_fails() {
    let content = b"twelve bytes".to_vec();
    let compressed = zstd::encode_all(&content[..], 3).unwrap();
    let e = entry(0, 13, compressed.len() as u32, 0);
    assert_eq!(unpack(compressed.clone(), &e).err(), Some(ArkError::ShortContent));
    let e = entry(0, 12, compressed.len() as u32, 0);
    assert_eq!(unpack(compressed, &e).unwrap(), content);
}

fn frame_container(count: u32, frame: Vec<u8>) -> Vec<u8> {
    let mut meta = pad4(frame);
    encrypt(&mut meta);
    let mut c = Vec::new();
    for w in [count, 12, 2] {
        c.extend_from_slice(&w.to_le_bytes());
    }
    c.extend_from_slice(&meta);
    c
}

#[test]
fn cut_metadata_frame_fails_even_past_the_records() {
    let frame = zstd::encode_all(&three_records().concat()[..], 3).unwrap();
    let whole = frame_container(1, frame.clone());
    assert_eq!(ArkFile::new(whole).read_metadata().unwrap().len(), 1);
    let cut = frame_container(1, frame[..frame.len() - 4].to_vec());
    assert_eq!(ArkFile::new(cut).read_metadata().err(), Some(ArkError::Decompress));
}

#[test]
fn bytes_after_the_metadata_frame_are_ignored() {
    let mut frame = zstd::encode_all(&three_records().concat()[..], 3).unwrap();
    frame = pad4(frame);
    frame.extend_from_slice(&[0xde, 0xad, 0xbe, 0xef]);
    let entries = ArkFile::new(frame_container(3, frame)).read_metadata().unwrap();
    assert_eq!(entries.len(), 3);
}

#[test]
fn short_record_fails() {
    let b = record(b"x", b"y", [1, 2, 3, 4]);
    assert!(read_entry(&b, 0).is_ok());
    assert_eq!(read_entry(&b[..RECORD_SIZE - 1].to_vec(), 0).err(), Some(ArkError::TruncatedDirectory));
    assert_eq!(read_entry(&b, 1).err(), Some(ArkError::TruncatedDirectory));
    assert_eq!(read_entry(&b, usize::MAX).err(), Some(ArkError::TruncatedDirectory));
}

#[test]
fn short_text_field_fails() {
    let b = vec![b'a'; 130];
    assert_eq!(read_text_field(&b, 2).unwrap().len(), 128);
    assert_eq!(read_text_field(&b, 3).err(), Some(ArkError::TruncatedDirectory));
}

#[test]
fn lone_ff_name_fails() {
    let records = vec![record(&[0xff], b"d", [0, 0, 0, 0])];
    let c = container(1, 1, &[], &records);
    assert_eq!(ArkFile::new(c).read_metadata().err(), Some(ArkError::InvalidText));
}
