use casc_cdn_client::client::{CascClient, FileKeys};
use casc_cdn_client::encoding;
use casc_cdn_client::errors::CascError;
use casc_cdn_client::install;
use casc_cdn_client::keys::{format_hex_key, ContentKey, EncodingKey, Key};
use casc_cdn_client::pipevars;
use md5::{Digest, Md5};

fn md5_128(b: &[u8]) -> u128 {
    let out: [u8; 16] = Md5::digest(b).into();
    u128::from_be_bytes(out)
}

#[test]
fn key_hex_round_trip() {
    let k = Key::from_str("000102030405060708090a0b0c0d0e0f").unwrap();
    assert_eq!(k.0, 0x000102030405060708090a0b0c0d0e0f);
    assert_eq!(k.as_hex_string(), "000102030405060708090a0b0c0d0e0f");
    let upper = Key::from_str("DEADBEEFDEADBEEFDEADBEEFDEADBEEF").unwrap();
    assert_eq!(upper.as_hex_string(), "deadbeefdeadbeefdeadbeefdeadbeef");
}

#[test]
fn key_from_str_rejects_bad_input() {
    assert_eq!(Key::from_str("zz"), Err(CascError::FormatError));
    assert_eq!(Key::from_str("0011"), Err(CascError::FormatError));
    assert_eq!(Key::from_str("001"), Err(CascError::FormatError));
    assert_eq!(
        Key::from_str("000102030405060708090a0b0c0d0e0f00"),
        Err(CascError::FormatError)
    );
}

#[test]
fn format_hex_key_shards_by_leading_pairs() {
    assert_eq!(
        format_hex_key("deadbeefdeadbeefdeadbeefdeadbeef"),
        "de/ad/deadbeefdeadbeefdeadbeefdeadbeef"
    );
}

#[test]
fn file_keys_from_str_splits_on_space() {
    let fk = FileKeys::from_str(
        "000102030405060708090a0b0c0d0e0f deadbeefdeadbeefdeadbeefdeadbeef",
    )
    .unwrap();
    assert_eq!(fk.ckey.0, 0x000102030405060708090a0b0c0d0e0f);
    assert_eq!(fk.ekey.0, 0xdeadbeefdeadbeefdeadbeefdeadbeef);
    let with_tail = FileKeys::from_str(
        "000102030405060708090a0b0c0d0e0f deadbeefdeadbeefdeadbeefdeadbeef extra",
    )
    .unwrap();
    assert_eq!(with_tail.ekey.0, 0xdeadbeefdeadbeefdeadbeefdeadbeef);
    assert_eq!(
        FileKeys::from_str("deadbeef"),
        Err(CascError::FormatError)
    );
}

#[test]
fn pipevars_parses_headings_rows_and_meta() {
    let text = b"Name!STRING:0|Path!STRING:0|Hosts!STRING:0\n\
        ## seqn = 12345\n\
        us|tpr/configs/data|first second\n\
        eu|tpr/other|third\n\
        short|line\n";
    let vars = pipevars::load_pipe_separated_vars(text);
    assert_eq!(
        vars.headings(),
        vec!["Name!STRING:0", "Path!STRING:0", "Hosts!STRING:0"]
    );
    let entries = vars.entries();
    assert_eq!(entries.len(), 2);
    assert_eq!(entries[0], vec!["us", "tpr/configs/data", "first second"]);
    assert_eq!(entries[1], vec!["eu", "tpr/other", "third"]);
    let meta = String::from_utf8(vars.meta.clone()).unwrap();
    assert_eq!(meta, "## seqn = 12345\nshort|line\n");
}

#[test]
fn pipevars_trims_fields_and_handles_crlf() {
    let text = b"A | B \r\n x |\ty\t\r\n";
    let vars = pipevars::load_pipe_separated_vars(text);
    assert_eq!(vars.headings(), vec!["A", "B"]);
    assert_eq!(vars.entries(), vec![vec!["x", "y"]]);
}

#[test]
fn pick_cdn_prefers_first_party_https() {
    let text = b"Name!STRING:0|Path!STRING:0|ConfigPath!STRING:0|Hosts!STRING:0\n\
        eu|p1|c1|https://eu.example.net\n\
        us|tpr/wow|cfg|http://plain.example.net https://other.example.net https://level3.cdn.blizzard.com?fallback=1\n";
    let vars = pipevars::load_pipe_separated_vars(text);
    let url = pipevars::pick_cdn(&vars).unwrap();
    assert_eq!(url, "https://level3.cdn.blizzard.comtpr/wow/");
}

#[test]
fn pick_cdn_falls_back_to_any_https_and_to_none() {
    let text = b"Name!STRING:0|Path!STRING:0|ConfigPath!STRING:0|Hosts!STRING:0\n\
        us|tpr/wow|cfg|http://a.example.net https://b.example.net\n";
    let vars = pipevars::load_pipe_separated_vars(text);
    assert_eq!(
        pipevars::pick_cdn(&vars).unwrap(),
        "https://b.example.nettpr/wow/"
    );
    let none = b"Name!STRING:0|Path!STRING:0|ConfigPath!STRING:0|Hosts!STRING:0\n\
        eu|tpr/wow|cfg|https://b.example.net\n";
    let vars = pipevars::load_pipe_separated_vars(none);
    assert!(pipevars::pick_cdn(&vars).is_none());
}

fn small_client() -> CascClient {
    let ckey = 0x11u128;
    let ekey = 0x22u128;
    let mut page = Vec::new();
    page.push(1u8);
    page.push(0u8);
    page.extend_from_slice(&5u32.to_be_bytes());
    page.extend_from_slice(&ckey.to_be_bytes());
    page.extend_from_slice(&ekey.to_be_bytes());
    page.resize(1024, b'0');
    let mut d = Vec::new();
    d.extend_from_slice(b"EN");
    d.push(1);
    d.push(16);
    d.push(16);
    d.extend_from_slice(&1u16.to_be_bytes());
    d.extend_from_slice(&1u16.to_be_bytes());
    d.extend_from_slice(&1u32.to_be_bytes());
    d.extend_from_slice(&0u32.to_be_bytes());
    d.push(0);
    d.extend_from_slice(&0u32.to_be_bytes());
    d.extend_from_slice(&ckey.to_be_bytes());
    d.extend_from_slice(&md5_128(&page).to_be_bytes());
    d.extend_from_slice(&page);
    let enc = encoding::parse(&d).unwrap();
    let mut manifest = Vec::new();
    manifest.extend_from_slice(b"IN");
    manifest.push(1);
    manifest.push(0);
    manifest.extend_from_slice(&0u16.to_be_bytes());
    manifest.extend_from_slice(&1u32.to_be_bytes());
    manifest.extend_from_slice(b"base.txt");
    manifest.push(0);
    manifest.extend_from_slice(&0x11u128.to_be_bytes());
    manifest.extend_from_slice(&5u32.to_be_bytes());
    let inst = install::parse(&manifest).unwrap();
    CascClient {
        cdn_prefix: "https://example.net/tpr/wow/".to_string(),
        encoding: enc,
        install: inst,
    }
}

#[test]
fn client_resolves_content_key() {
    let client = small_client();
    assert_eq!(client.get_by_ckey(Key(0x11)), Ok(Key(0x22)));
    assert_eq!(
        client.get_by_ckey(Key(0x99)),
        Err(CascError::UnknownContentKey)
    );
}

#[test]
fn client_cross_checks_redundant_keys() {
    let client = small_client();
    let good = FileKeys { ckey: Key(0x11), ekey: Key(0x22) };
    assert_eq!(client.get_by_keys(&good), Ok(Key(0x22)));
    let bad = FileKeys { ckey: Key(0x11), ekey: Key(0x33) };
    assert_eq!(
        client.get_by_keys(&bad),
        Err(CascError::EncodingKeyMismatch)
    );
    let unknown = FileKeys { ckey: Key(0x77), ekey: Key(0x44) };
    assert_eq!(client.get_by_keys(&unknown), Ok(Key(0x44)));
}

#[test]
fn client_decodes_fetched_blob() {
    let mut payload = vec![b'N'];
    payload.extend_from_slice(b"asset");
    let mut d = Vec::new();
    d.extend_from_slice(b"BLTE");
    d.extend_from_slice(&36u32.to_be_bytes());
    d.push(0x0f);
    d.extend_from_slice(&[0, 0, 1]);
    d.extend_from_slice(&(payload.len() as u32).to_be_bytes());
    d.extend_from_slice(&5u32.to_be_bytes());
    d.extend_from_slice(&md5_128(&payload).to_be_bytes());
    let ekey = Key(md5_128(&d[0..36]));
    d.extend_from_slice(&payload);
    let out = CascClient::decode_blob(ekey, &d, true).unwrap();
    assert_eq!(out, b"asset");
    assert_eq!(
        CascClient::decode_blob(Key(0), &d, true),
        Err(CascError::HeaderChecksumMismatch)
    );
}

#[test]
fn encoding_table_alternates_reach_lookup() {
    // A multi-key entry resolves to its first key; the alternates stay
    // reachable beside it.
    let ckey = 0x0101u128;
    let mut page = Vec::new();
    page.push(2u8);
    page.push(0u8);
    page.extend_from_slice(&7u32.to_be_bytes());
    page.extend_from_slice(&ckey.to_be_bytes());
    page.extend_from_slice(&0xaau128.to_be_bytes());
    page.extend_from_slice(&0xbbu128.to_be_bytes());
    page.resize(1024, b'0');
    let mut d = Vec::new();
    d.extend_from_slice(b"EN");
    d.push(1);
    d.push(16);
    d.push(16);
    d.extend_from_slice(&1u16.to_be_bytes());
    d.extend_from_slice(&1u16.to_be_bytes());
    d.extend_from_slice(&1u32.to_be_bytes());
    d.extend_from_slice(&0u32.to_be_bytes());
    d.push(0);
    d.extend_from_slice(&0u32.to_be_bytes());
    d.extend_from_slice(&ckey.to_be_bytes());
    d.extend_from_slice(&md5_128(&page).to_be_bytes());
    d.extend_from_slice(&page);
    let enc = encoding::parse(&d).unwrap();
    assert_eq!(enc.c2e(ContentKey(ckey)), Ok(EncodingKey(0xaa)));
    assert_eq!(enc.alternate_keys(ContentKey(ckey)), vec![EncodingKey(0xbb)]);
}
