use crate::digest::{md5_of, md5hash};
use crate::errors::CascError;
use crate::keys::{ArchiveKey, EncodingKey};
use crate::reader::{be_at, le_at, lemma_pow256_small, read_be, read_le};
use vstd::arithmetic::mul::lemma_mul_inequality;
use vstd::prelude::*;
use vstd::slice::slice_to_vec;

verus! {

/// The high 64 bits of a 128-bit digest: what the index format stores as
/// a truncated checksum.
pub open spec fn high64(x: u128) -> u128 {
    x / 0x10000000000000000
}

/// The byte length of the region before the footer.
pub open spec fn nf(d: Seq<u8>) -> int {
    d.len() - 28
}

/// One data block plus one table-of-contents entry.
pub open spec fn nblocks(d: Seq<u8>) -> int {
    nf(d) / 4120
}

/// Start of the table of contents: the 24 bytes per block before the
/// footer, split into a last-key array and a digest array.
pub open spec fn toc0(d: Seq<u8>) -> int {
    nf(d) - 24 * nblocks(d)
}

/// The table-of-contents region itself.
pub open spec fn toc_region(d: Seq<u8>) -> Seq<u8> {
    d.subrange(toc0(d), nf(d))
}

/// The last key the table of contents records for block `j`.
pub open spec fn last_key(d: Seq<u8>, j: int) -> u128 {
    be_at(d, toc0(d) + 16 * j, 16) as u128
}

/// The truncated digest the table of contents records for block `j`.
pub open spec fn block_digest(d: Seq<u8>, j: int) -> nat {
    be_at(d, toc0(d) + 16 * nblocks(d) + 8 * j, 8)
}

/// Data block `j`.
pub open spec fn block(d: Seq<u8>, j: int) -> Seq<u8> {
    d.subrange(4096 * j, 4096 * (j + 1))
}

/// The footer-declared element count.
pub open spec fn num_elements(d: Seq<u8>) -> nat {
    le_at(d, nf(d) + 16, 4)
}

/// The 12 footer bytes after the table-of-contents digest, zero-padded to
/// 20 bytes: the window the footer's own digest covers.
pub open spec fn footer_check_bytes(d: Seq<u8>) -> Seq<u8> {
    Seq::new(20, |i: int| if i < 12 { d[nf(d) + 8 + i] } else { 0 })
}

/// Whether some entry already carries this encoding key.
pub open spec fn contains_ekey(s: Seq<(u128, u32, u32)>, k: u128) -> bool {
    exists|i: int| 0 <= i < s.len() && (#[trigger] s[i]).0 == k
}

/// No two entries share an encoding key.
pub open spec fn distinct_keys(s: Seq<(u128, u32, u32)>) -> bool {
    forall|i: int, j: int|
        0 <= i < j < s.len() ==> (#[trigger] s[i]).0 != (#[trigger] s[j]).0
}

/// The scan of one block from `pos` on: read (key, size, offset) triples,
/// refuse a key seen before, and stop at the recorded last key; a block
/// exhausted without it is refused.
pub open spec fn block_scan(
    b: Seq<u8>,
    last: u128,
    pos: int,
    seen: Seq<(u128, u32, u32)>,
) -> Result<Seq<(u128, u32, u32)>, CascError>
    decreases b.len() - pos,
{
    if pos < 0 || b.len() - pos < 24 {
        Err(CascError::LastKeyMismatch)
    } else {
        let t = (be_at(b, pos, 16) as u128, be_at(b, pos + 16, 4) as u32, be_at(
            b,
            pos + 20,
            4,
        ) as u32);
        if contains_ekey(seen, t.0) {
            Err(CascError::DuplicateKey)
        } else {
            let seen2 = seen.push(t);
            if t.0 == last {
                Ok(seen2)
            } else {
                block_scan(b, last, pos + 24, seen2)
            }
        }
    }
}

/// The scan of the blocks from `j` on, each first checked against its
/// table-of-contents digest when verification is on.
pub open spec fn blocks_scan(
    d: Seq<u8>,
    verify: bool,
    j: int,
    seen: Seq<(u128, u32, u32)>,
) -> Result<Seq<(u128, u32, u32)>, CascError>
    decreases nblocks(d) - j,
{
    if j < 0 || j >= nblocks(d) {
        Ok(seen)
    } else {
        let b = block(d, j);
        if verify && high64(md5_of(b)) != block_digest(d, j) {
            Err(CascError::ChecksumMismatch)
        } else {
            match block_scan(b, last_key(d, j), 0, seen) {
                Err(e) => Err(e),
                Ok(s2) => blocks_scan(d, verify, j + 1, s2),
            }
        }
    }
}

/// The whole archive-index parse, from the raw index bytes to the entry
/// list in scan order or the exact failure.
pub open spec fn index_parse_spec(d: Seq<u8>, verify: bool) -> Result<
    Seq<(u128, u32, u32)>,
    CascError,
> {
    if d.len() < 28 {
        Err(CascError::Truncated)
    } else if nf(d) % 4120 != 0 {
        Err(CascError::FormatError)
    } else if high64(md5_of(toc_region(d))) != be_at(d, nf(d), 8) {
        Err(CascError::ChecksumMismatch)
    } else if d[nf(d) + 8] != 1 || d[nf(d) + 9] != 0 || d[nf(d) + 10] != 0 || d[nf(d) + 11] != 4
        || d[nf(d) + 12] != 4 || d[nf(d) + 13] != 4 || d[nf(d) + 14] != 16 || d[nf(d) + 15]
        != 8 {
        Err(CascError::FormatError)
    } else if high64(md5_of(footer_check_bytes(d))) != be_at(d, nf(d) + 20, 8) {
        Err(CascError::ChecksumMismatch)
    } else {
        match blocks_scan(d, verify, 0, Seq::empty()) {
            Err(e) => Err(e),
            Ok(entries) => if entries.len() != num_elements(d) {
                Err(CascError::CountMismatch)
            } else {
                Ok(entries)
            },
        }
    }
}

/// The index of one packed archive: every (encoding key, size, offset)
/// entry it declares, in scan order, all keys distinct.
#[derive(Debug)]
pub struct Index {
    pub archive: ArchiveKey,
    pub entries: Vec<(u128, u32, u32)>,
}

impl Index {
    /// The structural invariant: no encoding key appears twice.
    pub open spec fn wf(self) -> bool {
        distinct_keys(self.entries@)
    }

    /// Resolves an encoding key to its archive, size and offset.
    ///
    /// A present key resolves to its own entry: on a well-formed index
    /// the entry with that key is unique, and the result is exactly its
    /// location.
    pub fn lookup(&self, ekey: EncodingKey) -> (r: Option<(ArchiveKey, u32, u32)>)
        ensures
            r is Some ==> exists|i: int|
                0 <= i < self.entries@.len() && (#[trigger] self.entries@[i]).0 == ekey.0 && r
                    == Some((self.archive, self.entries@[i].1, self.entries@[i].2)),
            r is None ==> forall|i: int|
                0 <= i < self.entries@.len() ==> (#[trigger] self.entries@[i]).0 != ekey.0,
            self.wf() ==> forall|i: int|
                0 <= i < self.entries@.len() && (#[trigger] self.entries@[i]).0 == ekey.0 ==> r
                    == Some((self.archive, self.entries@[i].1, self.entries@[i].2)),
    {
        let mut i: usize = 0;
        while i < self.entries.len()
            invariant
                i <= self.entries@.len(),
                forall|j: int| 0 <= j < i ==> (#[trigger] self.entries@[j]).0 != ekey.0,
            decreases self.entries@.len() - i,
        {
            let e = self.entries[i];
            if e.0 == ekey.0 {
                return Some((self.archive, e.1, e.2));
            }
            i = i + 1;
        }
        None
    }
}

/// A key that two different entries carry would make resolution
/// ambiguous; on a well-formed index the witness is unique.
pub proof fn lemma_distinct_unique_witness(s: Seq<(u128, u32, u32)>, i: int, j: int)
    requires
        distinct_keys(s),
        0 <= i < s.len(),
        0 <= j < s.len(),
        s[i].0 == s[j].0,
    ensures
        i == j,
{
}

proof fn lemma_block_scan_distinct(b: Seq<u8>, last: u128, pos: int, seen: Seq<(u128, u32, u32)>)
    requires
        distinct_keys(seen),
    ensures
        block_scan(b, last, pos, seen) matches Ok(s2) ==> distinct_keys(s2),
    decreases b.len() - pos,
{
    if !(pos < 0 || b.len() - pos < 24) {
        let t = (be_at(b, pos, 16) as u128, be_at(b, pos + 16, 4) as u32, be_at(
            b,
            pos + 20,
            4,
        ) as u32);
        if !contains_ekey(seen, t.0) {
            let seen2 = seen.push(t);
            assert(distinct_keys(seen2)) by {
                assert forall|x: int, y: int|
                    0 <= x < y < seen2.len() implies (#[trigger] seen2[x]).0 != (
                #[trigger] seen2[y]).0 by {
                    if y == seen.len() as int {
                        assert(!contains_ekey(seen, t.0));
                        assert(seen2[x] == seen[x]);
                    }
                }
            }
            if t.0 != last {
                lemma_block_scan_distinct(b, last, pos + 24, seen2);
            }
        }
    }
}

proof fn lemma_blocks_scan_distinct(
    d: Seq<u8>,
    verify: bool,
    j: int,
    seen: Seq<(u128, u32, u32)>,
)
    requires
        distinct_keys(seen),
    ensures
        blocks_scan(d, verify, j, seen) matches Ok(s2) ==> distinct_keys(s2),
    decreases nblocks(d) - j,
{
    if !(j < 0 || j >= nblocks(d)) {
        let b = block(d, j);
        if !(verify && high64(md5_of(b)) != block_digest(d, j)) {
            lemma_block_scan_distinct(b, last_key(d, j), 0, seen);
            match block_scan(b, last_key(d, j), 0, seen) {
                Ok(s2) => {
                    lemma_blocks_scan_distinct(d, verify, j + 1, s2);
                },
                Err(_) => {},
            }
        }
    }
}

/// Whether some entry already carries this key.
fn contains_ekey_exec(entries: &Vec<(u128, u32, u32)>, k: u128) -> (r: bool)
    ensures
        r == contains_ekey(entries@, k),
{
    let mut i: usize = 0;
    while i < entries.len()
        invariant
            i <= entries@.len(),
            forall|j: int| 0 <= j < i ==> (#[trigger] entries@[j]).0 != k,
        decreases entries@.len() - i,
    {
        if entries[i].0 == k {
            return true;
        }
        i = i + 1;
    }
    false
}

/// Scans one 4096-byte block, appending its entries until the recorded
/// last key is reached.
fn scan_block(entries: &mut Vec<(u128, u32, u32)>, b: &[u8], last: u128) -> (r: Result<
    (),
    CascError,
>)
    requires
        b@.len() == 4096,
    ensures
        match r {
            Ok(()) => block_scan(b@, last, 0, old(entries)@) == Ok::<
                Seq<(u128, u32, u32)>,
                CascError,
            >(final(entries)@),
            Err(e) => block_scan(b@, last, 0, old(entries)@) == Err::<
                Seq<(u128, u32, u32)>,
                CascError,
            >(e),
        },
{
    let mut pos: usize = 0;
    while pos + 24 <= 4096
        invariant
            b@.len() == 4096,
            pos <= 4096,
            block_scan(b@, last, 0, old(entries)@) == block_scan(b@, last, pos as int, entries@),
        decreases 4096 - pos,
    {
        proof {
            lemma_pow256_small();
        }
        let ekey = read_be(b, pos, 16);
        let size = read_be(b, pos + 16, 4) as u32;
        let off = read_be(b, pos + 20, 4) as u32;
        if contains_ekey_exec(entries, ekey) {
            return Err(CascError::DuplicateKey);
        }
        entries.push((ekey, size, off));
        if ekey == last {
            return Ok(());
        }
        pos = pos + 24;
    }
    Err(CascError::LastKeyMismatch)
}

/// Parses one archive's index, verifying block digests when `verify` is
/// set; `name` is the archive the entries will resolve to.
pub fn parse_index_with(name: ArchiveKey, data: &[u8], verify: bool) -> (r: Result<
    Index,
    CascError,
>)
    ensures
        match r {
            Ok(idx) => index_parse_spec(data@, verify) == Ok::<Seq<(u128, u32, u32)>, CascError>(
                idx.entries@,
            ) && idx.archive == name && idx.wf(),
            Err(e) => index_parse_spec(data@, verify) == Err::<Seq<(u128, u32, u32)>, CascError>(
                e,
            ),
        },
{
    let ghost d = data@;
    let dlen = data.len();
    proof {
        lemma_pow256_small();
    }
    if dlen < 28 {
        return Err(CascError::Truncated);
    }
    let nfv = dlen - 28;
    let nb = nfv / 4120;
    if nfv % 4120 != 0 {
        return Err(CascError::FormatError);
    }
    proof {
        assert(nfv == 4120 * nb);
    }
    let toc_size = nb * 24;
    let toc0v = nfv - toc_size;
    let toc = &data[toc0v..nfv];
    proof {
        assert(toc@ =~= toc_region(d));
    }
    let th = md5hash(toc) / 0x10000000000000000;
    if th != read_be(data, nfv, 8) {
        return Err(CascError::ChecksumMismatch);
    }
    if data[nfv + 8] != 1 || data[nfv + 9] != 0 || data[nfv + 10] != 0 || data[nfv + 11] != 4
        || data[nfv + 12] != 4 || data[nfv + 13] != 4 || data[nfv + 14] != 16 || data[nfv + 15]
        != 8 {
        return Err(CascError::FormatError);
    }
    let n_elems = read_le(data, nfv + 16, 4);
    let footer_checksum = read_be(data, nfv + 20, 8);
    let mut fc = slice_to_vec(&data[nfv + 8..nfv + 20]);
    let mut z: usize = 0;
    while z < 8
        invariant
            z <= 8,
            fc@.len() == 12 + z,
            forall|i: int| 0 <= i < 12 ==> fc@[i] == d[nf(d) + 8 + i],
            forall|i: int| 12 <= i < fc@.len() ==> fc@[i] == 0,
        decreases 8 - z,
    {
        fc.push(0u8);
        z = z + 1;
    }
    proof {
        assert(fc@ =~= footer_check_bytes(d));
    }
    let fh = md5hash(fc.as_slice()) / 0x10000000000000000;
    if fh != footer_checksum {
        return Err(CascError::ChecksumMismatch);
    }
    let mut entries: Vec<(u128, u32, u32)> = Vec::new();
    let mut bstart: usize = 0;
    let mut j: usize = 0;
    while j < nb
        invariant
            d == data@,
            dlen == d.len(),
            28 <= dlen,
            nfv == dlen - 28,
            nfv == 4120 * nb,
            nfv % 4120 == 0,
            nb == nblocks(d),
            toc0v == toc0(d),
            toc0v == nfv - 24 * nb,
            high64(md5_of(toc_region(d))) == be_at(d, nf(d), 8),
            d[nf(d) + 8] == 1 && d[nf(d) + 9] == 0 && d[nf(d) + 10] == 0 && d[nf(d) + 11] == 4,
            d[nf(d) + 12] == 4 && d[nf(d) + 13] == 4 && d[nf(d) + 14] == 16 && d[nf(d) + 15]
                == 8,
            high64(md5_of(footer_check_bytes(d))) == be_at(d, nf(d) + 20, 8),
            n_elems == num_elements(d),
            j <= nb,
            bstart == 4096 * j,
            blocks_scan(d, verify, 0, Seq::empty()) == blocks_scan(d, verify, j as int, entries@),
        decreases nb - j,
    {
        proof {
            lemma_mul_inequality((j + 1) as int, nb as int, 4096);
            assert(4096 * (j as int + 1) == 4096 * (j as int) + 4096) by (nonlinear_arith);
            assert(4096 * (nb as int) <= 4120 * (nb as int));
            lemma_pow256_small();
        }
        let b = &data[bstart..bstart + 4096];
        proof {
            assert(b@ =~= block(d, j as int));
        }
        if verify {
            let bd = read_be(data, toc0v + 16 * nb + 8 * j, 8);
            let bh = md5hash(b) / 0x10000000000000000;
            if bh != bd {
                return Err(CascError::ChecksumMismatch);
            }
        }
        let lk = read_be(data, toc0v + 16 * j, 16);
        proof {
            assert(lk == last_key(d, j as int));
        }
        match scan_block(&mut entries, b, lk) {
            Err(e) => {
                return Err(e);
            },
            Ok(()) => {},
        }
        bstart = bstart + 4096;
        j = j + 1;
    }
    if entries.len() as u128 != n_elems {
        return Err(CascError::CountMismatch);
    }
    proof {
        assert(blocks_scan(d, verify, j as int, entries@) == Ok::<
            Seq<(u128, u32, u32)>,
            CascError,
        >(entries@));
        assert(distinct_keys(Seq::<(u128, u32, u32)>::empty()));
        lemma_blocks_scan_distinct(d, verify, 0, Seq::empty());
    }
    Ok(Index { archive: name, entries })
}

/// Parses one archive's index with block verification on, the default
/// policy for data that arrives over an untrusted transport.
pub fn parse_index(name: ArchiveKey, data: &[u8]) -> (r: Result<Index, CascError>)
    ensures
        match r {
            Ok(idx) => index_parse_spec(data@, true) == Ok::<Seq<(u128, u32, u32)>, CascError>(
                idx.entries@,
            ) && idx.archive == name && idx.wf(),
            Err(e) => index_parse_spec(data@, true) == Err::<Seq<(u128, u32, u32)>, CascError>(e),
        },
{
    parse_index_with(name, data, true)
}

} // verus!
