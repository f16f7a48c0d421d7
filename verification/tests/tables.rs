use casc_cdn_client::archive_index;
use casc_cdn_client::encoding;
use casc_cdn_client::errors::CascError;
use casc_cdn_client::install;
use casc_cdn_client::keys::{ArchiveKey, ContentKey, EncodingKey};
use md5::{Digest, Md5};

fn md5_128(b: &[u8]) -> u128 {
    let out: [u8; 16] = Md5::digest(b).into();
    u128::from_be_bytes(out)
}

fn high64(x: u128) -> u64 {
    (x >> 64) as u64
}

/// Builds an encoding table with one content page holding the given
/// (content key, encoding keys, size) entries, and one encoding page per
/// `eentries` batch.
fn build_encoding(centries: &[(u128, Vec<u128>, u64)], eentries: &[(u128, u32, u64)]) -> Vec<u8> {
    let mut page = Vec::new();
    for (ckey, ekeys, size) in centries {
        page.push(ekeys.len() as u8);
        page.push((size >> 32) as u8);
        page.extend_from_slice(&(*size as u32).to_be_bytes());
        page.extend_from_slice(&ckey.to_be_bytes());
        for e in ekeys {
            page.extend_from_slice(&e.to_be_bytes());
        }
    }
    page.resize(1024, b'0');
    let ecount: u32 = if eentries.is_empty() { 0 } else { 1 };
    let mut epage = Vec::new();
    for (ekey, index, size) in eentries {
        epage.extend_from_slice(&ekey.to_be_bytes());
        epage.extend_from_slice(&index.to_be_bytes());
        epage.push((size >> 32) as u8);
        epage.extend_from_slice(&(*size as u32).to_be_bytes());
    }
    if !epage.is_empty() {
        epage.resize(1024, b'0');
    }

    let mut d = Vec::new();
    d.extend_from_slice(b"EN");
    d.push(1);
    d.push(16);
    d.push(16);
    d.extend_from_slice(&1u16.to_be_bytes());
    d.extend_from_slice(&1u16.to_be_bytes());
    d.extend_from_slice(&1u32.to_be_bytes());
    d.extend_from_slice(&ecount.to_be_bytes());
    d.push(0);
    d.extend_from_slice(&0u32.to_be_bytes());
    let first = centries.first().map(|e| e.0).unwrap_or(0);
    d.extend_from_slice(&first.to_be_bytes());
    d.extend_from_slice(&md5_128(&page).to_be_bytes());
    d.extend_from_slice(&page);
    if ecount == 1 {
        let efirst = eentries.first().map(|e| e.0).unwrap_or(0);
        d.extend_from_slice(&efirst.to_be_bytes());
        d.extend_from_slice(&md5_128(&epage).to_be_bytes());
        d.extend_from_slice(&epage);
    }
    d
}

#[test]
fn encoding_single_entry_lookup() {
    let ckey = 0x11111111_22222222_33333333_44444444u128;
    let ekey = 0xaaaaaaaa_bbbbbbbb_cccccccc_ddddddddu128;
    let data = build_encoding(&[(ckey, vec![ekey], 10)], &[]);
    let enc = encoding::parse(&data).unwrap();
    assert_eq!(enc.c2e(ContentKey(ckey)), Ok(EncodingKey(ekey)));
    assert_eq!(
        enc.c2e(ContentKey(ckey + 1)),
        Err(CascError::UnknownContentKey)
    );
    assert_eq!(enc.c2e(ContentKey(0)), Err(CascError::UnknownContentKey));
}

#[test]
fn encoding_sorted_lookup_finds_every_key() {
    let entries: Vec<(u128, Vec<u128>, u64)> =
        (0..10u128).map(|i| (i * 7 + 1, vec![i + 100], 64)).collect();
    let data = build_encoding(&entries, &[]);
    let enc = encoding::parse(&data).unwrap();
    for (ckey, ekeys, _) in &entries {
        assert_eq!(enc.c2e(ContentKey(*ckey)), Ok(EncodingKey(ekeys[0])));
    }
    assert_eq!(enc.c2e(ContentKey(2)), Err(CascError::UnknownContentKey));
}

#[test]
fn encoding_multi_key_entry_keeps_alternates() {
    let ckey = 5u128;
    let data = build_encoding(&[(ckey, vec![10, 11, 12], 9)], &[]);
    let enc = encoding::parse(&data).unwrap();
    assert_eq!(enc.c2e(ContentKey(ckey)), Ok(EncodingKey(10)));
    let alts = enc.alternate_keys(ContentKey(ckey));
    assert_eq!(alts, vec![EncodingKey(11), EncodingKey(12)]);
    assert_eq!(enc.alternate_keys(ContentKey(6)), vec![]);
}

#[test]
fn encoding_parses_encoding_pages() {
    let data = build_encoding(&[(1, vec![2], 3)], &[(50, 7, 800), (60, 8, 900)]);
    let enc = encoding::parse(&data).unwrap();
    assert_eq!(enc.e2i, vec![(50, 7, 800), (60, 8, 900)]);
}

#[test]
fn encoding_rejects_bad_magic_and_version() {
    let data = build_encoding(&[(1, vec![2], 3)], &[]);
    let mut bad = data.clone();
    bad[0] = b'X';
    assert_eq!(encoding::parse(&bad).unwrap_err(), CascError::FormatError);
    let mut bad = data.clone();
    bad[2] = 2;
    assert_eq!(encoding::parse(&bad).unwrap_err(), CascError::FormatError);
    assert_eq!(encoding::parse(&data[0..10]).unwrap_err(), CascError::Truncated);
}

#[test]
fn encoding_content_page_corruption_is_caught() {
    let data = build_encoding(&[(1, vec![2], 3)], &[]);
    let page_start = 22 + 32;
    for i in page_start..page_start + 1024 {
        let mut corrupt = data.clone();
        corrupt[i] ^= 0x40;
        assert_eq!(
            encoding::parse(&corrupt).unwrap_err(),
            CascError::ChecksumMismatch,
            "flip at {i}"
        );
    }
}

#[test]
fn encoding_corruption_without_verification_is_deterministic() {
    let data = build_encoding(&[(1, vec![2], 3)], &[]);
    let page_start = 22 + 32;
    for i in page_start..page_start + 1024 {
        let mut corrupt = data.clone();
        corrupt[i] ^= 0x40;
        let first = encoding::parse_with(&corrupt, false).map(|e| e.c2e.clone());
        let second = encoding::parse_with(&corrupt, false).map(|e| e.c2e.clone());
        assert_eq!(first, second);
    }
}

#[test]
fn encoding_espec_strings_are_kept_and_checked() {
    // No pages at all: just the header and a NUL-separated e-spec table.
    let mut d = Vec::new();
    d.extend_from_slice(b"EN");
    d.push(1);
    d.push(16);
    d.push(16);
    d.extend_from_slice(&1u16.to_be_bytes());
    d.extend_from_slice(&1u16.to_be_bytes());
    d.extend_from_slice(&0u32.to_be_bytes());
    d.extend_from_slice(&0u32.to_be_bytes());
    d.push(0);
    d.extend_from_slice(&4u32.to_be_bytes());
    d.extend_from_slice(b"a\0bc");
    let enc = encoding::parse(&d).unwrap();
    assert_eq!(enc.especs, vec!["a", "bc"]);
    assert_eq!(enc.espec, "");
    let mut bad = d.clone();
    bad[22] = 0xff;
    assert_eq!(encoding::parse(&bad).unwrap_err(), CascError::FormatError);
}

/// Builds an install manifest from tags and files.
fn build_install(tags: &[(&str, u16, Vec<u8>)], files: &[(&str, u128, u32)]) -> Vec<u8> {
    let mut d = Vec::new();
    d.extend_from_slice(b"IN");
    d.push(1);
    d.push(0);
    d.extend_from_slice(&(tags.len() as u16).to_be_bytes());
    d.extend_from_slice(&(files.len() as u32).to_be_bytes());
    for (name, ty, mask) in tags {
        d.extend_from_slice(name.as_bytes());
        d.push(0);
        d.extend_from_slice(&ty.to_be_bytes());
        d.extend_from_slice(mask);
    }
    for (name, key, size) in files {
        d.extend_from_slice(name.as_bytes());
        d.push(0);
        d.extend_from_slice(&key.to_be_bytes());
        d.extend_from_slice(&size.to_be_bytes());
    }
    d
}

#[test]
fn install_parses_tags_files_and_roots() {
    let data = build_install(
        &[("Windows", 2, vec![0b101]), ("US", 4, vec![0b011])],
        &[
            ("zz.txt", 10, 1),
            ("dir\\inner.bin", 11, 2),
            ("aa.txt", 12, 3),
        ],
    );
    let inst = install::parse(&data).unwrap();
    assert_eq!(inst.tags.len(), 2);
    assert_eq!(inst.tags[0].name, "Windows");
    assert_eq!(inst.tags[0].ty, 2);
    assert_eq!(inst.tags[1].name, "US");
    assert_eq!(inst.files.len(), 3);
    assert_eq!(inst.files[0].name, "zz.txt");
    assert_eq!(inst.files[1].key.0, 11);
    assert_eq!(inst.root_names, vec!["aa.txt", "zz.txt"]);
}

#[test]
fn install_filter_keeps_sorted_matching_files() {
    // Bit i of a mask byte covers file i: Windows covers files 0 and 2,
    // US covers files 0 and 1.
    let data = build_install(
        &[("Windows", 2, vec![0b101]), ("US", 4, vec![0b011])],
        &[("zz.txt", 10, 1), ("mid.txt", 11, 2), ("aa.txt", 12, 3)],
    );
    let inst = install::parse(&data).unwrap();
    let both = inst.filter(&vec!["Windows".to_string(), "US".to_string()]);
    assert_eq!(both.len(), 1);
    assert_eq!(both[0].name, "zz.txt");
    let windows = inst.filter(&vec!["Windows".to_string()]);
    let names: Vec<&str> = windows.iter().map(|e| e.name.as_str()).collect();
    assert_eq!(names, vec!["aa.txt", "zz.txt"]);
    let unknown = inst.filter(&vec!["Mac".to_string()]);
    assert_eq!(unknown.len(), 3);
    let unknown_names: Vec<&str> = unknown.iter().map(|e| e.name.as_str()).collect();
    assert_eq!(unknown_names, vec!["aa.txt", "mid.txt", "zz.txt"]);
}

#[test]
fn install_rejects_bad_header() {
    let data = build_install(&[], &[("a.txt", 1, 2)]);
    let mut bad = data.clone();
    bad[0] = b'X';
    assert_eq!(install::parse(&bad).unwrap_err(), CascError::FormatError);
    assert_eq!(install::parse(&data[0..4]).unwrap_err(), CascError::Truncated);
    // The header check mirrors the fixed 16-byte minimum, so an empty
    // manifest of bare header length is refused as truncated.
    assert_eq!(
        install::parse(&build_install(&[], &[])).unwrap_err(),
        CascError::Truncated
    );
}

#[test]
fn install_rejects_truncated_file_record() {
    let data = build_install(&[], &[("a.txt", 1, 2)]);
    assert_eq!(
        install::parse(&data[0..data.len() - 4]).unwrap_err(),
        CascError::Truncated
    );
}

/// Builds a one-block archive index over the given entries; the recorded
/// last key is the last entry's unless overridden.
fn build_index(entries: &[(u128, u32, u32)], last_override: Option<u128>, count_override: Option<u32>) -> Vec<u8> {
    let mut block = Vec::new();
    for (ekey, size, offset) in entries {
        block.extend_from_slice(&ekey.to_be_bytes());
        block.extend_from_slice(&size.to_be_bytes());
        block.extend_from_slice(&offset.to_be_bytes());
    }
    block.resize(4096, 0);
    let last = last_override.unwrap_or_else(|| entries.last().unwrap().0);
    let mut toc = Vec::new();
    toc.extend_from_slice(&last.to_be_bytes());
    toc.extend_from_slice(&high64(md5_128(&block)).to_be_bytes());
    let mut footer = Vec::new();
    footer.extend_from_slice(&high64(md5_128(&toc)).to_be_bytes());
    footer.extend_from_slice(&[1, 0, 0, 4, 4, 4, 16, 8]);
    let n = count_override.unwrap_or(entries.len() as u32);
    footer.extend_from_slice(&n.to_le_bytes());
    let mut window = footer[8..20].to_vec();
    window.resize(20, 0);
    footer.extend_from_slice(&high64(md5_128(&window)).to_be_bytes());
    let mut d = block;
    d.extend_from_slice(&toc);
    d.extend_from_slice(&footer);
    d
}

#[test]
fn index_parses_and_resolves_every_key() {
    let entries = [(100u128, 64u32, 0u32), (200, 32, 64), (300, 16, 96)];
    let data = build_index(&entries, None, None);
    let archive = ArchiveKey(0xabcd);
    let idx = archive_index::parse_index(archive, &data).unwrap();
    assert_eq!(idx.entries.len(), 3);
    for (ekey, size, offset) in entries {
        assert_eq!(
            idx.lookup(EncodingKey(ekey)),
            Some((archive, size, offset))
        );
    }
    assert_eq!(idx.lookup(EncodingKey(999)), None);
}

#[test]
fn index_rejects_duplicate_key() {
    let entries = [(100u128, 64u32, 0u32), (100, 32, 64), (300, 16, 96)];
    let data = build_index(&entries, None, None);
    assert_eq!(
        archive_index::parse_index(ArchiveKey(1), &data).unwrap_err(),
        CascError::DuplicateKey
    );
}

#[test]
fn index_rejects_missing_last_key() {
    // Fill the whole block with distinct keys so the scan runs out of
    // room without meeting the recorded last key.
    let entries: Vec<(u128, u32, u32)> = (0..170u128).map(|i| (i + 1, 1, 0)).collect();
    let data = build_index(&entries, Some(0xffff), None);
    assert_eq!(
        archive_index::parse_index(ArchiveKey(1), &data).unwrap_err(),
        CascError::LastKeyMismatch
    );
}

#[test]
fn index_rejects_wrong_element_count() {
    let entries = [(100u128, 64u32, 0u32), (200, 32, 64)];
    let data = build_index(&entries, None, Some(3));
    assert_eq!(
        archive_index::parse_index(ArchiveKey(1), &data).unwrap_err(),
        CascError::CountMismatch
    );
}

#[test]
fn index_rejects_corrupt_block_and_footer() {
    let entries = [(100u128, 64u32, 0u32), (200, 32, 64)];
    let data = build_index(&entries, None, None);
    let mut bad = data.clone();
    bad[0] ^= 1;
    assert_eq!(
        archive_index::parse_index(ArchiveKey(1), &bad).unwrap_err(),
        CascError::ChecksumMismatch
    );
    let mut bad = data.clone();
    let nf = data.len() - 28;
    bad[nf + 8] = 2;
    assert_eq!(
        archive_index::parse_index(ArchiveKey(1), &bad).unwrap_err(),
        CascError::FormatError
    );
    assert_eq!(
        archive_index::parse_index(ArchiveKey(1), &data[0..20]).unwrap_err(),
        CascError::Truncated
    );
    assert_eq!(
        archive_index::parse_index(ArchiveKey(1), &data[1..]).unwrap_err(),
        CascError::FormatError
    );
}
