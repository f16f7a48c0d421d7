use crate::blte;
use crate::encoding::{c2e_sorted, Encoding};
use crate::errors::CascError;
use crate::install::Install;
use crate::keys::{key_from_hex_bytes, key_of_hex, ContentKey, Key};
use crate::text::{find_byte, find_byte_range, lemma_find_byte_at, lemma_find_byte_none};
use vstd::prelude::*;
use vstd::string::StringSliceAdditionalSpecFns;

verus! {

/// The pair of keys a configuration document names for one table blob:
/// the content key of its decoded bytes and the encoding key of the blob
/// to fetch.
#[derive(Clone, Copy, Debug, PartialEq, Eq, Structural)]
pub struct FileKeys {
    pub ckey: Key,
    pub ekey: Key,
}

/// What `FileKeys::from_str` makes of a byte string: the hex key before
/// the first space, and the hex key between the first space and the next
/// one or the end.
pub open spec fn file_keys_of(sb: Seq<u8>) -> Result<(u128, u128), CascError> {
    let f = find_byte(sb, 0x20);
    if f < 0 {
        Err(CascError::FormatError)
    } else {
        let first = sb.take(f);
        let rest = sb.skip(f + 1);
        let f2 = find_byte(rest, 0x20);
        let second = if f2 < 0 {
            rest
        } else {
            rest.take(f2)
        };
        match key_of_hex(first) {
            None => Err(CascError::FormatError),
            Some(c) => match key_of_hex(second) {
                None => Err(CascError::FormatError),
                Some(e) => Ok((c, e)),
            },
        }
    }
}

impl FileKeys {
    /// Parses two space-separated 32-digit hex keys: content key first,
    /// encoding key second.
    pub fn from_str(s: &str) -> (r: Result<FileKeys, CascError>)
        ensures
            match r {
                Ok(fk) => file_keys_of(s.spec_bytes()) == Ok::<(u128, u128), CascError>(
                    (fk.ckey.0, fk.ekey.0),
                ),
                Err(e) => file_keys_of(s.spec_bytes()) == Err::<(u128, u128), CascError>(e),
            },
    {
        let bytes = s.as_bytes();
        let blen = bytes.len();
        let ghost sb = s.spec_bytes();
        let f = match find_byte_range(bytes, 0, 0x20) {
            None => {
                proof {
                    lemma_find_byte_none(sb, 0x20);
                }
                return Err(CascError::FormatError);
            },
            Some(p) => p,
        };
        proof {
            lemma_find_byte_at(sb, 0x20, f as int);
        }
        let rest_start = f + 1;
        let end2 = match find_byte_range(bytes, rest_start, 0x20) {
            None => {
                proof {
                    let rest = sb.skip(rest_start as int);
                    assert forall|j: int| 0 <= j < rest.len() implies rest[j] != 0x20 by {
                        assert(rest[j] == sb[rest_start + j]);
                    }
                    lemma_find_byte_none(rest, 0x20);
                }
                bytes.len()
            },
            Some(p2) => {
                proof {
                    let rest = sb.skip(rest_start as int);
                    assert forall|j: int| 0 <= j < p2 - rest_start implies rest[j] != 0x20 by {
                        assert(rest[j] == sb[rest_start + j]);
                    }
                    assert(rest[p2 - rest_start] == 0x20);
                    lemma_find_byte_at(rest, 0x20, p2 - rest_start);
                }
                p2
            },
        };
        proof {
            assert(sb.take(f as int) =~= sb.subrange(0, f as int));
            let rest = sb.skip(rest_start as int);
            let f2 = find_byte(rest, 0x20);
            let second = if f2 < 0 {
                rest
            } else {
                rest.take(f2)
            };
            assert(second =~= sb.subrange(rest_start as int, end2 as int));
        }
        let ckey = match key_from_hex_bytes(&bytes[0..f]) {
            Ok(k) => k,
            Err(e) => {
                return Err(e);
            },
        };
        let ekey = match key_from_hex_bytes(&bytes[rest_start..end2]) {
            Ok(k) => k,
            Err(e) => {
                return Err(e);
            },
        };
        Ok(FileKeys { ckey, ekey })
    }
}

/// A session over one content store: the parsed encoding table and
/// install manifest, and the base of the store the blobs come from.
///
/// The client decides which storage key a request resolves to; fetching
/// the blob named by that key is the transport collaborator's work, and
/// `decode_blob` turns what it fetched into the asset's decoded bytes.
pub struct CascClient {
    pub cdn_prefix: String,
    pub encoding: Encoding,
    pub install: Install,
}

impl CascClient {
    /// Resolves a content key to the encoding key whose blob must be
    /// fetched: the canonical mapping of the encoding table.
    pub fn get_by_ckey(&self, ckey: Key) -> (r: Result<Key, CascError>)
        ensures
            r is Err ==> r == Err::<Key, CascError>(CascError::UnknownContentKey),
            r matches Ok(e) ==> exists|i: int|
                0 <= i < self.encoding@.c2e.len() && (#[trigger] self.encoding@.c2e[i]).0
                    == ckey.0 && self.encoding@.c2e[i].1 == e.0,
            c2e_sorted(self.encoding@.c2e) ==> match r {
                Ok(e) => exists|i: int|
                    0 <= i < self.encoding@.c2e.len() && (#[trigger] self.encoding@.c2e[i]).0
                        == ckey.0 && self.encoding@.c2e[i].1 == e.0,
                Err(_) => forall|i: int|
                    0 <= i < self.encoding@.c2e.len() ==> (#[trigger] self.encoding@.c2e[i]).0
                        != ckey.0,
            },
    {
        match self.encoding.c2e(ContentKey(ckey.0)) {
            Ok(e) => Ok(Key(e.0)),
            Err(_) => Err(CascError::UnknownContentKey),
        }
    }

    /// Cross-checks a redundant (content key, encoding key) pair against
    /// the encoding table and returns the encoding key to fetch.
    ///
    /// When the table knows the content key, the caller's encoding key
    /// must agree with the table's canonical one; a content key the table
    /// does not know passes through unchecked, as the caller's key is
    /// then the only source.
    pub fn get_by_keys(&self, k: &FileKeys) -> (r: Result<Key, CascError>)
        ensures
            r matches Ok(e) ==> e == k.ekey,
            r matches Err(err) ==> err == CascError::EncodingKeyMismatch && exists|i: int|
                0 <= i < self.encoding@.c2e.len() && (#[trigger] self.encoding@.c2e[i]).0
                    == k.ckey.0 && self.encoding@.c2e[i].1 != k.ekey.0,
            c2e_sorted(self.encoding@.c2e) && r is Ok ==> forall|i: int|
                0 <= i < self.encoding@.c2e.len() && (#[trigger] self.encoding@.c2e[i]).0
                    == k.ckey.0 ==> self.encoding@.c2e[i].1 == k.ekey.0,
    {
        match self.encoding.c2e(ContentKey(k.ckey.0)) {
            Ok(e) => {
                if e.0 != k.ekey.0 {
                    Err(CascError::EncodingKeyMismatch)
                } else {
                    proof {
                        if c2e_sorted(self.encoding@.c2e) {
                            let m = self.encoding@.c2e;
                            let w = choose|w: int|
                                0 <= w < m.len() && (#[trigger] m[w]).0 == k.ckey.0 && m[w].1
                                    == e.0;
                            assert forall|i: int|
                                0 <= i < m.len() && (#[trigger] m[i]).0 == k.ckey.0 implies m[i].1
                                == k.ekey.0 by {
                                if i < w {
                                    assert(m[i].0 < m[w].0);
                                } else if i > w {
                                    assert(m[w].0 < m[i].0);
                                }
                            }
                        }
                    }
                    Ok(k.ekey)
                }
            },
            Err(_) => {
                proof {
                    if c2e_sorted(self.encoding@.c2e) {
                    }
                }
                Ok(k.ekey)
            },
        }
    }

    /// Decodes a fetched blob against the encoding key that names it: the
    /// key is the expected digest of the blob's container header.
    pub fn decode_blob(ekey: Key, data: &[u8], verify_chunks: bool) -> (r: Result<
        Vec<u8>,
        CascError,
    >)
        ensures
            match r {
                Ok(v) => blte::parse_spec(data@, ekey.0, verify_chunks) == Ok::<
                    Seq<u8>,
                    CascError,
                >(v@),
                Err(e) => blte::parse_spec(data@, ekey.0, verify_chunks) == Err::<
                    Seq<u8>,
                    CascError,
                >(e),
            },
    {
        blte::parse_with(ekey.0, data, verify_chunks)
    }
}

} // verus!
