use crate::errors::CascError;
use crate::reader::{be_val, lemma_be_val_bound, lemma_pow256_16, read_be, u128_be_bytes,
    u128_be_bytes_spec};
use vstd::prelude::*;
use vstd::string::StrSliceExecFns;
use vstd::string::StringExecFns;
use vstd::string::StringSliceAdditionalSpecFns;

verus! {

/// A 128-bit identifier, opaque except for order and equality.  One family
/// is an MD5-style digest of the bytes it names, another a locally assigned
/// archive handle; the resolution pipeline never looks inside either.
#[derive(Clone, Copy, Debug, PartialEq, Eq, Hash, Structural)]
pub struct Key(pub u128);

/// A key derived from an asset's decoded bytes.
#[derive(Clone, Copy, Debug, PartialEq, Eq, Hash, Structural)]
pub struct ContentKey(pub u128);

/// A key naming one specific encoded representation of an asset.
#[derive(Clone, Copy, Debug, PartialEq, Eq, Hash, Structural, Default)]
pub struct EncodingKey(pub u128);

/// A key naming a packed archive file on the store.
#[derive(Clone, Copy, Debug, PartialEq, Eq, Hash, Structural)]
pub struct ArchiveKey(pub u128);

pub open spec fn is_hex_digit(b: u8) -> bool {
    (0x30 <= b <= 0x39) || (0x41 <= b <= 0x46) || (0x61 <= b <= 0x66)
}

pub open spec fn hex_digit_val(b: u8) -> nat {
    if 0x30 <= b <= 0x39 {
        (b - 0x30) as nat
    } else if 0x41 <= b <= 0x46 {
        (b - 0x41 + 10) as nat
    } else if 0x61 <= b <= 0x66 {
        (b - 0x61 + 10) as nat
    } else {
        0
    }
}

/// A well-formed hex byte string: even length, digits of either case only.
pub open spec fn is_hex_bytes(s: Seq<u8>) -> bool {
    s.len() % 2 == 0 && forall|i: int| 0 <= i < s.len() ==> is_hex_digit(#[trigger] s[i])
}

/// The bytes a hex string denotes, high nibble first.
pub open spec fn hex_bytes_value(s: Seq<u8>) -> Seq<u8> {
    Seq::new(s.len() / 2, |i: int| (hex_digit_val(s[2 * i]) * 16 + hex_digit_val(s[2 * i + 1])) as u8)
}

/// The lowercase hex digit for a nibble value.
pub open spec fn nibble_char(v: u8) -> char {
    if v < 10 {
        ((0x30 + v) as u8) as char
    } else {
        ((0x57 + v) as u8) as char
    }
}

/// The lowercase hex encoding of a byte sequence, high nibble first.
pub open spec fn hex_chars_of(b: Seq<u8>) -> Seq<char> {
    Seq::new(
        b.len() * 2,
        |i: int|
            if i % 2 == 0 {
                nibble_char(b[i / 2] >> 4u8)
            } else {
                nibble_char(b[i / 2] & 0xfu8)
            },
    )
}

/// Relies on hex::encode: lowercase hex, two digits per byte, high nibble
/// first.
#[verifier::external_body]
fn hex_encode(b: &[u8]) -> (r: String)
    ensures
        r@ == hex_chars_of(b@),
{
    hex::encode(b)
}

/// Relies on hex::decode: accepts digits of either case, two per output
/// byte, and fails exactly on an odd length or a non-digit byte.
#[verifier::external_body]
fn hex_decode(s: &[u8]) -> (r: Option<Vec<u8>>)
    ensures
        match r {
            Some(v) => is_hex_bytes(s@) && v@ == hex_bytes_value(s@),
            None => !is_hex_bytes(s@),
        },
{
    hex::decode(s).ok()
}

/// The key value a 32-digit hex string denotes, if it is one.
pub open spec fn key_of_hex(s: Seq<u8>) -> Option<u128> {
    if is_hex_bytes(s) && s.len() == 32 {
        Some(be_val(hex_bytes_value(s)) as u128)
    } else {
        None
    }
}

/// The 32 lowercase hex digits of a key value.
pub open spec fn key_hex_chars(x: u128) -> Seq<char> {
    hex_chars_of(u128_be_bytes_spec(x))
}

/// Parses a key from 32 hex digit bytes.
pub fn key_from_hex_bytes(b: &[u8]) -> (r: Result<Key, CascError>)
    ensures
        match r {
            Ok(k) => key_of_hex(b@) == Some(k.0),
            Err(e) => key_of_hex(b@) is None && e == CascError::FormatError,
        },
{
    match hex_decode(b) {
        None => Err(CascError::FormatError),
        Some(v) => {
            if v.len() != 16 {
                return Err(CascError::FormatError);
            }
            let x = read_be(v.as_slice(), 0, 16);
            proof {
                assert(v@.subrange(0, 16) =~= v@);
                lemma_be_val_bound(v@);
                lemma_pow256_16();
            }
            Ok(Key(x))
        },
    }
}

impl Key {
    /// Parses a key from its 32-digit hex spelling.
    pub fn from_str(s: &str) -> (r: Result<Key, CascError>)
        ensures
            match r {
                Ok(k) => key_of_hex(s.spec_bytes()) == Some(k.0),
                Err(e) => key_of_hex(s.spec_bytes()) is None && e == CascError::FormatError,
            },
    {
        key_from_hex_bytes(s.as_bytes())
    }

    /// The lowercase hex spelling of this key.
    pub fn as_hex_string(&self) -> (r: String)
        ensures
            r@ == key_hex_chars(self.0),
            r@.len() == 32,
    {
        let bytes = u128_be_bytes(self.0);
        hex_encode(bytes.as_slice())
    }
}

/// Shards a hex key name as the content store lays its files out: the first
/// two digit pairs become directory names in front of the full name.
pub fn format_hex_key(hex: &str) -> (r: String)
    requires
        hex@.len() >= 4,
        vstd::string::is_ascii(hex),
    ensures
        r@ == hex@.subrange(0, 2) + seq!['/'] + hex@.subrange(2, 4) + seq!['/'] + hex@,
{
    let a = hex.substring_ascii(0, 2);
    let b = hex.substring_ascii(2, 4);
    let mut r = a.to_owned();
    r.append("/");
    r.append(b);
    r.append("/");
    r.append(hex);
    proof {
        reveal_strlit("/");
        assert("/"@ =~= seq!['/']);
        assert(r@ =~= hex@.subrange(0, 2) + seq!['/'] + hex@.subrange(2, 4) + seq!['/'] + hex@);
    }
    r
}

} // verus!
