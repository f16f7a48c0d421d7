use casc_cdn_client::blte;
use casc_cdn_client::errors::CascError;
use md5::{Digest, Md5};

fn md5_128(b: &[u8]) -> u128 {
    let out: [u8; 16] = Md5::digest(b).into();
    u128::from_be_bytes(out)
}

/// Builds a container from (decoded_len, payload) chunks; the payload
/// already carries its tag byte.
fn build_container(chunks: &[(u32, Vec<u8>)]) -> (u128, Vec<u8>) {
    let count = chunks.len() as u32;
    let header_size = 24 * count + 12;
    let mut d = Vec::new();
    d.extend_from_slice(b"BLTE");
    d.extend_from_slice(&header_size.to_be_bytes());
    d.push(0x0f);
    d.extend_from_slice(&count.to_be_bytes()[1..4]);
    for (dec_len, payload) in chunks {
        d.extend_from_slice(&(payload.len() as u32).to_be_bytes());
        d.extend_from_slice(&dec_len.to_be_bytes());
        d.extend_from_slice(&md5_128(payload).to_be_bytes());
    }
    let checksum = md5_128(&d[0..header_size as usize]);
    for (_, payload) in chunks {
        d.extend_from_slice(payload);
    }
    (checksum, d)
}

#[test]
fn decodes_single_raw_chunk() {
    let mut payload = vec![b'N'];
    payload.extend_from_slice(b"hello");
    let (checksum, data) = build_container(&[(5, payload)]);
    assert_eq!(data[8], 0x0f);
    let out = blte::parse(checksum, &data).unwrap();
    assert_eq!(out, b"hello");
}

#[test]
fn decodes_two_chunks_and_length_is_sum() {
    let mut p1 = vec![b'N'];
    p1.extend_from_slice(b"abc");
    let mut p2 = vec![b'N'];
    p2.extend_from_slice(b"defgh");
    let (checksum, data) = build_container(&[(3, p1), (5, p2)]);
    let out = blte::parse(checksum, &data).unwrap();
    assert_eq!(out, b"abcdefgh");
    assert_eq!(out.len(), 3 + 5);
}

#[test]
fn deflate_round_trip() {
    let original = b"the quick brown fox jumps over the lazy dog, twice over";
    let compressed = miniz_oxide::deflate::compress_to_vec_zlib(original, 6);
    let mut payload = vec![b'Z'];
    payload.extend_from_slice(&compressed);
    let (checksum, data) = build_container(&[(original.len() as u32, payload)]);
    let out = blte::parse(checksum, &data).unwrap();
    assert_eq!(out, original);
}

#[test]
fn rejects_truncated_input() {
    assert_eq!(blte::parse(0, b"BLTE"), Err(CascError::Truncated));
}

#[test]
fn rejects_bad_magic() {
    let mut payload = vec![b'N'];
    payload.extend_from_slice(b"hello");
    let (checksum, mut data) = build_container(&[(5, payload)]);
    data[0] = b'X';
    assert_eq!(blte::parse(checksum, &data), Err(CascError::BadMagic));
}

#[test]
fn rejects_headerless_legacy_layout() {
    let mut data = Vec::new();
    data.extend_from_slice(b"BLTE");
    data.extend_from_slice(&0u32.to_be_bytes());
    data.extend_from_slice(&[0x0f, 0, 0, 1]);
    assert_eq!(blte::parse(0, &data), Err(CascError::UnsupportedLayout));
}

#[test]
fn rejects_wrong_header_checksum() {
    let mut payload = vec![b'N'];
    payload.extend_from_slice(b"hello");
    let (checksum, data) = build_container(&[(5, payload)]);
    assert_eq!(
        blte::parse(checksum ^ 1, &data),
        Err(CascError::HeaderChecksumMismatch)
    );
}

#[test]
fn rejects_bad_flag_byte() {
    let mut payload = vec![b'N'];
    payload.extend_from_slice(b"hello");
    let (_, mut data) = build_container(&[(5, payload)]);
    data[8] = 0x10;
    let checksum = md5_128(&data[0..36]);
    assert_eq!(blte::parse(checksum, &data), Err(CascError::BadFlags));
}

#[test]
fn rejects_header_size_mismatch() {
    let mut payload = vec![b'N'];
    payload.extend_from_slice(b"hello");
    let (_, mut data) = build_container(&[(5, payload)]);
    data[11] = 2;
    let checksum = md5_128(&data[0..36]);
    assert_eq!(blte::parse(checksum, &data), Err(CascError::HeaderSizeMismatch));
}

#[test]
fn rejects_unknown_chunk_encoding() {
    let mut payload = vec![b'Q'];
    payload.extend_from_slice(b"hello");
    let (checksum, data) = build_container(&[(5, payload)]);
    assert_eq!(blte::parse(checksum, &data), Err(CascError::UnknownEncoding));
}

#[test]
fn rejects_declared_length_mismatch() {
    let mut payload = vec![b'N'];
    payload.extend_from_slice(b"hello");
    let (checksum, data) = build_container(&[(4, payload)]);
    assert_eq!(blte::parse(checksum, &data), Err(CascError::SizeMismatch));
}

#[test]
fn rejects_trailing_data() {
    let mut payload = vec![b'N'];
    payload.extend_from_slice(b"hello");
    let (checksum, mut data) = build_container(&[(5, payload)]);
    data.push(0);
    assert_eq!(blte::parse(checksum, &data), Err(CascError::TrailingData));
}

#[test]
fn chunk_corruption_is_caught_when_verifying() {
    let mut payload = vec![b'N'];
    payload.extend_from_slice(b"hello");
    let (checksum, data) = build_container(&[(5, payload)]);
    for i in 36..data.len() {
        let mut corrupt = data.clone();
        corrupt[i] ^= 0x40;
        assert_eq!(
            blte::parse(checksum, &corrupt),
            Err(CascError::ChecksumMismatch),
            "flip at {i}"
        );
    }
}

#[test]
fn chunk_corruption_without_verification_is_deterministic() {
    let mut payload = vec![b'N'];
    payload.extend_from_slice(b"hello");
    let (checksum, data) = build_container(&[(5, payload)]);
    let mut tag_flip = data.clone();
    tag_flip[36] ^= 0x40;
    assert_eq!(
        blte::parse_with(checksum, &tag_flip, false),
        Err(CascError::UnknownEncoding)
    );
    for i in 37..data.len() {
        let mut corrupt = data.clone();
        corrupt[i] ^= 0x40;
        let first = blte::parse_with(checksum, &corrupt, false);
        let second = blte::parse_with(checksum, &corrupt, false);
        assert_eq!(first, second);
        assert_eq!(first, Ok(corrupt[36 + 1..].to_vec()));
    }
}
