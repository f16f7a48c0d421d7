use crate::digest::{md5_of, md5hash};
use crate::errors::CascError;
use crate::reader::{be_at, lemma_pow256_small, read_be};
use vstd::prelude::*;
use vstd::slice::slice_to_vec;

verus! {

/// The bytes a zlib stream inflates to, if it inflates at all.
///
/// The value is a pure function of the compressed bytes; its definition is
/// the deflate format itself, so it is left uninterpreted and every
/// contract speaks of it by this name.
pub uninterp spec fn inflate_of(s: Seq<u8>) -> Option<Seq<u8>>;

/// Relies on miniz_oxide::inflate::decompress_to_vec_zlib: the outcome
/// depends on the compressed bytes alone.
#[verifier::external_body]
fn inflate(compressed: &[u8]) -> (r: Option<Vec<u8>>)
    ensures
        match r {
            Some(v) => inflate_of(compressed@) == Some(v@),
            None => inflate_of(compressed@) is None,
        },
{
    miniz_oxide::inflate::decompress_to_vec_zlib(compressed).ok()
}

/// The container magic tag, the four bytes `BLTE`.
pub open spec fn magic_ok(d: Seq<u8>) -> bool {
    be_at(d, 0, 4) == 0x424c5445
}

/// The declared header length, bytes 4 to 8, big-endian.
pub open spec fn header_size(d: Seq<u8>) -> nat {
    be_at(d, 4, 4)
}

/// The flag byte; a fixed sentinel in every supported container.
pub open spec fn flag_byte(d: Seq<u8>) -> u8 {
    d[8]
}

/// The 24-bit big-endian chunk count at byte 9.
pub open spec fn chunk_count(d: Seq<u8>) -> nat {
    be_at(d, 9, 3)
}

/// The declared compressed length of chunk `i`.
pub open spec fn chunk_comp_len(d: Seq<u8>, i: int) -> nat {
    be_at(d, 12 + 24 * i, 4)
}

/// The declared decoded length of chunk `i`.
pub open spec fn chunk_dec_len(d: Seq<u8>, i: int) -> nat {
    be_at(d, 16 + 24 * i, 4)
}

/// The declared digest of chunk `i`'s compressed bytes.
pub open spec fn chunk_digest(d: Seq<u8>, i: int) -> nat {
    be_at(d, 20 + 24 * i, 16)
}

/// The sum of the declared decoded lengths of chunks before `i`.
pub open spec fn total_dec_len(d: Seq<u8>, i: int) -> nat
    decreases i,
{
    if i <= 0 {
        0
    } else {
        total_dec_len(d, i - 1) + chunk_dec_len(d, i - 1)
    }
}

/// The offset of chunk `i`'s payload, counted from the end of the header.
pub open spec fn comp_off(d: Seq<u8>, i: int) -> nat
    decreases i,
{
    if i <= 0 {
        0
    } else {
        comp_off(d, i - 1) + chunk_comp_len(d, i - 1)
    }
}

/// What one chunk payload decodes to: a leading tag byte selects a raw
/// copy (`N`) or a zlib stream (`Z`), and the result must have exactly the
/// declared decoded length.
pub open spec fn chunk_decode(chunk: Seq<u8>, dec_len: nat) -> Result<Seq<u8>, CascError> {
    if chunk.len() < 1 {
        Err(CascError::Truncated)
    } else {
        let body = chunk.subrange(1, chunk.len() as int);
        if chunk[0] == 0x4e {
            if body.len() == dec_len {
                Ok(body)
            } else {
                Err(CascError::SizeMismatch)
            }
        } else if chunk[0] == 0x5a {
            match inflate_of(body) {
                Some(v) => if v.len() == dec_len {
                    Ok(v)
                } else {
                    Err(CascError::SizeMismatch)
                },
                None => Err(CascError::SizeMismatch),
            }
        } else {
            Err(CascError::UnknownEncoding)
        }
    }
}

/// The concatenated decodings of the chunks from `i` on, or the first
/// failure among them; after the last chunk no byte may remain.
pub open spec fn chunks_result(d: Seq<u8>, verify: bool, i: int) -> Result<Seq<u8>, CascError>
    decreases chunk_count(d) - i,
{
    let cc = chunk_count(d) as int;
    if i < 0 || i >= cc {
        if header_size(d) + comp_off(d, cc) == d.len() {
            Ok(Seq::empty())
        } else {
            Err(CascError::TrailingData)
        }
    } else {
        let pos = header_size(d) + comp_off(d, i);
        let clen = chunk_comp_len(d, i);
        if d.len() < pos + clen {
            Err(CascError::Truncated)
        } else {
            let chunk = d.subrange(pos as int, (pos + clen) as int);
            if verify && md5_of(chunk) != chunk_digest(d, i) {
                Err(CascError::ChecksumMismatch)
            } else {
                match chunk_decode(chunk, chunk_dec_len(d, i)) {
                    Err(e) => Err(e),
                    Ok(c) => match chunks_result(d, verify, i + 1) {
                        Ok(rest) => Ok(c + rest),
                        Err(e) => Err(e),
                    },
                }
            }
        }
    }
}

/// The whole container decode, from the raw container bytes and the
/// expected header digest to the decoded bytes or the exact failure.
pub open spec fn parse_spec(d: Seq<u8>, checksum: u128, verify: bool) -> Result<
    Seq<u8>,
    CascError,
> {
    if d.len() < 12 {
        Err(CascError::Truncated)
    } else if !magic_ok(d) {
        Err(CascError::BadMagic)
    } else if header_size(d) == 0 {
        Err(CascError::UnsupportedLayout)
    } else if d.len() < header_size(d) {
        Err(CascError::Truncated)
    } else if md5_of(d.subrange(0, header_size(d) as int)) != checksum {
        Err(CascError::HeaderChecksumMismatch)
    } else if flag_byte(d) != 0xf {
        Err(CascError::BadFlags)
    } else if header_size(d) != chunk_count(d) * 24 + 12 {
        Err(CascError::HeaderSizeMismatch)
    } else if total_dec_len(d, chunk_count(d) as int) > usize::MAX {
        Err(CascError::SizeMismatch)
    } else {
        chunks_result(d, verify, 0)
    }
}

/// Decodes one chunk payload: tag byte `N` copies, tag byte `Z` inflates,
/// anything else is rejected; the result must have the declared length.
pub fn parse_blte_chunk(data: &[u8], decoded_len: usize) -> (r: Result<Vec<u8>, CascError>)
    ensures
        match r {
            Ok(v) => chunk_decode(data@, decoded_len as nat) == Ok::<Seq<u8>, CascError>(v@)
                && v@.len() == decoded_len,
            Err(e) => chunk_decode(data@, decoded_len as nat) == Err::<Seq<u8>, CascError>(e),
        },
{
    if data.len() < 1 {
        return Err(CascError::Truncated);
    }
    let body = &data[1..data.len()];
    if data[0] == 0x4e {
        if body.len() != decoded_len {
            return Err(CascError::SizeMismatch);
        }
        Ok(slice_to_vec(body))
    } else if data[0] == 0x5a {
        match inflate(body) {
            Some(v) => {
                if v.len() != decoded_len {
                    return Err(CascError::SizeMismatch);
                }
                Ok(v)
            },
            None => Err(CascError::SizeMismatch),
        }
    } else {
        Err(CascError::UnknownEncoding)
    }
}

/// Decodes a chunk container, verifying the header digest against
/// `checksum` and, when `verify_chunks` is set, each chunk's compressed
/// bytes against the chunk's declared digest.
pub fn parse_with(checksum: u128, data: &[u8], verify_chunks: bool) -> (r: Result<
    Vec<u8>,
    CascError,
>)
    ensures
        match r {
            Ok(v) => parse_spec(data@, checksum, verify_chunks) == Ok::<Seq<u8>, CascError>(v@)
                && v@.len() == total_dec_len(data@, chunk_count(data@) as int),
            Err(e) => parse_spec(data@, checksum, verify_chunks) == Err::<Seq<u8>, CascError>(e),
        },
{
    proof {
        lemma_pow256_small();
    }
    let dlen = data.len();
    if dlen < 12 {
        return Err(CascError::Truncated);
    }
    let magic = read_be(data, 0, 4);
    if magic != 0x424c5445 {
        return Err(CascError::BadMagic);
    }
    let hs = read_be(data, 4, 4) as usize;
    if hs == 0 {
        return Err(CascError::UnsupportedLayout);
    }
    if dlen < hs {
        return Err(CascError::Truncated);
    }
    let header_hash = md5hash(&data[0..hs]);
    if header_hash != checksum {
        return Err(CascError::HeaderChecksumMismatch);
    }
    if data[8] != 0x0f {
        return Err(CascError::BadFlags);
    }
    let cc = read_be(data, 9, 3) as usize;
    if hs != cc * 24 + 12 {
        return Err(CascError::HeaderSizeMismatch);
    }
    let mut total: u64 = 0;
    let mut i: usize = 0;
    while i < cc
        invariant
            dlen == data@.len(),
            12 <= hs <= dlen,
            cc < 0x1000000,
            hs == cc * 24 + 12,
            i <= cc,
            cc == chunk_count(data@),
            total == total_dec_len(data@, i as int),
            total <= i * 0xffffffffu64,
        decreases cc - i,
    {
        proof {
            lemma_pow256_small();
        }
        let dl = read_be(data, 16 + 24 * i, 4) as u64;
        total = total + dl;
        i = i + 1;
    }
    if total > usize::MAX as u64 {
        return Err(CascError::SizeMismatch);
    }
    let mut out: Vec<u8> = Vec::new();
    let mut pos: usize = hs;
    let mut j: usize = 0;
    while j < cc
        invariant
            dlen == data@.len(),
            12 <= hs <= dlen,
            cc < 0x1000000,
            hs == cc * 24 + 12,
            j <= cc,
            cc == chunk_count(data@),
            hs == header_size(data@),
            magic_ok(data@),
            flag_byte(data@) == 0xf,
            md5_of(data@.subrange(0, hs as int)) == checksum,
            total_dec_len(data@, cc as int) <= usize::MAX,
            pos <= dlen,
            pos == hs + comp_off(data@, j as int),
            match chunks_result(data@, verify_chunks, j as int) {
                Ok(rest) => chunks_result(data@, verify_chunks, 0) == Ok::<Seq<u8>, CascError>(
                    out@ + rest,
                ),
                Err(e) => chunks_result(data@, verify_chunks, 0) == Err::<Seq<u8>, CascError>(e),
            },
        decreases cc - j,
    {
        proof {
            lemma_pow256_small();
        }
        let clen = read_be(data, 12 + 24 * j, 4) as usize;
        if dlen - pos < clen {
            return Err(CascError::Truncated);
        }
        let chunk = &data[pos..pos + clen];
        if verify_chunks {
            let h = md5hash(chunk);
            let cd = read_be(data, 20 + 24 * j, 16);
            if h != cd {
                return Err(CascError::ChecksumMismatch);
            }
        }
        let dl = read_be(data, 16 + 24 * j, 4) as usize;
        match parse_blte_chunk(chunk, dl) {
            Err(e) => {
                return Err(e);
            },
            Ok(mut c) => {
                proof {
                    let d = data@;
                    let jj = j as int;
                    let rest_res = chunks_result(d, verify_chunks, jj + 1);
                    if rest_res is Ok {
                        assert(out@ + (c@ + rest_res->Ok_0) =~= (out@ + c@) + rest_res->Ok_0);
                    }
                }
                out.append(&mut c);
            },
        }
        pos = pos + clen;
        j = j + 1;
    }
    if pos != dlen {
        return Err(CascError::TrailingData);
    }
    proof {
        assert(chunks_result(data@, verify_chunks, cc as int) == Ok::<Seq<u8>, CascError>(
            Seq::empty(),
        ));
        assert(out@ + Seq::<u8>::empty() =~= out@);
        lemma_chunks_len(data@, verify_chunks, 0);
    }
    Ok(out)
}

/// Decodes a chunk container with chunk verification on, the default
/// policy for data that arrives over an untrusted transport.
pub fn parse(checksum: u128, data: &[u8]) -> (r: Result<Vec<u8>, CascError>)
    ensures
        match r {
            Ok(v) => parse_spec(data@, checksum, true) == Ok::<Seq<u8>, CascError>(v@)
                && v@.len() == total_dec_len(data@, chunk_count(data@) as int),
            Err(e) => parse_spec(data@, checksum, true) == Err::<Seq<u8>, CascError>(e),
        },
{
    parse_with(checksum, data, true)
}

proof fn lemma_chunks_len(d: Seq<u8>, verify: bool, i: int)
    requires
        0 <= i <= chunk_count(d),
    ensures
        chunks_result(d, verify, i) matches Ok(v) ==> v.len() == total_dec_len(
            d,
            chunk_count(d) as int,
        ) - total_dec_len(d, i),
    decreases chunk_count(d) - i,
{
    if i < chunk_count(d) {
        lemma_chunks_len(d, verify, i + 1);
        lemma_total_dec_len_step(d, i);
    }
}

proof fn lemma_total_dec_len_step(d: Seq<u8>, i: int)
    requires
        0 <= i,
    ensures
        total_dec_len(d, i + 1) == total_dec_len(d, i) + chunk_dec_len(d, i),
{
}

/// The decoded output of an accepted container is exactly as long as the
/// sum of the declared per-chunk decoded lengths.
pub proof fn lemma_decoded_len_is_sum(d: Seq<u8>, checksum: u128, verify: bool)
    ensures
        parse_spec(d, checksum, verify) matches Ok(v) ==> v.len() == total_dec_len(
            d,
            chunk_count(d) as int,
        ),
{
    if parse_spec(d, checksum, verify) is Ok {
        lemma_chunks_len(d, verify, 0);
    }
}

} // verus!
