//! The framing of an archive.

use std::io::{Read, Write};

use flatbak::backup::container::{
    header_read_error, trailer_offset, HashingLimitReader, HashingWriter, Header, Trailer,
    CONTAINER_VERSION_MAX, HEADER_LEN, MAGIC, TRAILER_LEN, TRAILER_MAGIC,
};
use flatbak::error::ArchiveError;
use sha2::Digest;

#[test]
fn header_round_trips() {
    let header = Header::new(4096, 123_456_789);
    let decoded = Header::decode(&header.encode()).unwrap();
    assert_eq!(decoded, header);
    assert_eq!(decoded.payload_offset(), HEADER_LEN + 4096);
}

#[test]
fn header_rejects_bad_magic() {
    let mut bytes = Header::new(1, 1).encode();
    bytes[0] = b'X';
    assert!(matches!(
        Header::decode(&bytes),
        Err(ArchiveError::Corrupt(_))
    ));
}

#[test]
fn header_rejects_bit_flips() {
    let mut bytes = Header::new(4096, 99).encode();
    bytes[16] ^= 0x01;
    assert!(matches!(
        Header::decode(&bytes),
        Err(ArchiveError::Corrupt(_))
    ));
}

#[test]
fn header_rejects_future_framing() {
    let mut bytes = Header::new(1, 1).encode();
    bytes[8..10].copy_from_slice(&(CONTAINER_VERSION_MAX + 1).to_le_bytes());
    let crc = crc32fast::hash(&bytes[0..24]);
    bytes[24..28].copy_from_slice(&crc.to_le_bytes());
    assert!(matches!(
        Header::decode(&bytes),
        Err(ArchiveError::UnsupportedVersion { .. })
    ));
}

#[test]
fn trailer_round_trips() {
    let trailer = Trailer {
        payload_sha256: [7u8; 32],
    };
    assert_eq!(Trailer::decode(&trailer.encode()).unwrap(), trailer);
}

#[test]
fn trailer_rejects_missing_magic() {
    let bytes = [0u8; TRAILER_LEN as usize];
    assert!(matches!(
        Trailer::decode(&bytes),
        Err(ArchiveError::Truncated)
    ));
}

#[test]
fn hashing_writer_counts_and_hashes() {
    let mut writer = HashingWriter::new(Vec::new());
    writer.inner_mut().write_all(b"hello world").unwrap();
    writer.record(b"hello world");
    let (inner, written, digest) = writer.finish();
    assert_eq!(inner, b"hello world");
    assert_eq!(written, 11);

    let expected = sha2::Sha256::digest(b"hello world");
    assert_eq!(&digest[..], &expected[..]);
}

#[test]
fn limit_reader_stops_at_limit() {
    let data = b"0123456789".to_vec();
    let mut reader = HashingLimitReader::new(data.as_slice(), 4);
    let mut out = Vec::new();
    let mut buffer = [0u8; 3];
    loop {
        let cap = reader.allowance(buffer.len());
        let read = reader.inner_mut().read(&mut buffer[..cap]).unwrap();
        if read == 0 {
            break;
        }
        reader.absorb(&buffer[..read]);
        out.extend_from_slice(&buffer[..read]);
    }
    assert_eq!(out, b"0123");
    assert_eq!(reader.remaining(), 0);
    let expected = sha2::Sha256::digest(b"0123");
    assert_eq!(&reader.finish()[..], &expected[..]);
}

#[test]
fn header_layout_is_fixed() {
    let bytes = Header::new(0x0403_0201, 0x0807_0605_0403_0201).encode();
    assert_eq!(&bytes[0..8], b"FLATBAK\x1a");
    assert_eq!(&bytes[0..8], &MAGIC);
    assert_eq!(&bytes[8..12], &[1, 0, 0, 0]);
    assert_eq!(&bytes[12..16], &[1, 2, 3, 4]);
    assert_eq!(&bytes[16..24], &[1, 2, 3, 4, 5, 6, 7, 8]);
    assert_eq!(&bytes[24..28], &crc32fast::hash(&bytes[0..24]).to_le_bytes());
    assert_eq!(&bytes[28..32], &[0, 0, 0, 0]);
    assert_eq!(Header::new(10, 20).expected_file_len(), 32 + 10 + 20 + 40);
}

#[test]
fn header_errors_say_what_is_wrong() {
    let mut bytes = Header::new(1, 1).encode();
    bytes[0] = b'X';
    match Header::decode(&bytes) {
        Err(ArchiveError::Corrupt(reason)) => assert_eq!(reason, "bad file signature"),
        other => panic!("{other:?}"),
    }
    let mut bytes = Header::new(1, 1).encode();
    bytes[25] ^= 1;
    match Header::decode(&bytes) {
        Err(ArchiveError::Corrupt(reason)) => {
            assert_eq!(reason, "the file header failed its checksum")
        }
        other => panic!("{other:?}"),
    }
    let future = Header {
        container_version: 7,
        ..Header::new(1, 1)
    };
    match Header::decode(&future.encode()) {
        Err(ArchiveError::UnsupportedVersion { found, supported }) => {
            assert_eq!((found, supported), (7, 1))
        }
        other => panic!("{other:?}"),
    }
}

#[test]
fn trailer_layout_is_fixed() {
    let bytes = Trailer {
        payload_sha256: [9u8; 32],
    }
    .encode();
    assert_eq!(&bytes[0..32], &[9u8; 32]);
    assert_eq!(&bytes[32..40], b"FBKEND\r\n");
    assert_eq!(&bytes[32..40], &TRAILER_MAGIC);
}

#[test]
fn reading_errors_are_told_apart() {
    assert!(matches!(
        header_read_error(true, "x".to_owned()),
        ArchiveError::Truncated
    ));
    match header_read_error(false, "disk gone".to_owned()) {
        ArchiveError::Corrupt(reason) => assert_eq!(reason, "disk gone"),
        other => panic!("{other:?}"),
    }
    assert!(matches!(trailer_offset(71), Err(ArchiveError::Truncated)));
    assert_eq!(trailer_offset(72).unwrap(), 32);
    assert_eq!(trailer_offset(1000).unwrap(), 960);
}

#[test]
fn hashing_goes_on_over_several_pieces() {
    let mut writer = HashingWriter::new(());
    writer.record(b"");
    writer.record(b"hello ");
    writer.record(b"world");
    let (_, written, digest) = writer.finish();
    assert_eq!(written, 11);
    assert_eq!(&digest[..], &sha2::Sha256::digest(b"hello world")[..]);
}
