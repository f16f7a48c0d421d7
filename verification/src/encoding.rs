use crate::digest::{md5_of, md5hash};
use crate::errors::CascError;
use crate::keys::{ContentKey, EncodingKey};
use crate::reader::{be_at, lemma_pow256_small, read_be};
use crate::text::{split_nul, split_nul_exec, utf8_string};
use vstd::arithmetic::mul::lemma_mul_inequality;
use vstd::prelude::*;

verus! {

/// One content-page entry: a content key, the declared decoded file size,
/// and the encoding keys that can stand for it (the first is canonical).
pub ghost struct CEntrySpec {
    pub ckey: u128,
    pub size: u64,
    pub ekeys: Seq<u128>,
}

/// The mathematical content of a parsed encoding table.
pub ghost struct EncodingModel {
    pub especs: Seq<Seq<char>>,
    pub c2e: Seq<(u128, u128, u64)>,
    pub extra: Seq<(u128, Seq<u128>)>,
    pub e2i: Seq<(u128, u32, u64)>,
    pub espec: Seq<char>,
}

/// The content-key to encoding-key index.
///
/// `c2e` is the flat (content key, first encoding key, size) array in page
/// order; `extra` maps the rare multi-key entries to their alternate keys;
/// `e2i` is the encoding-key page content; `especs` and `espec` carry the
/// e-spec string table and trailer.
#[derive(Debug)]
pub struct Encoding {
    pub especs: Vec<String>,
    pub c2e: Vec<(u128, u128, u64)>,
    pub e2i: Vec<(u128, u32, u64)>,
    pub extra: Vec<(u128, Vec<u128>)>,
    pub espec: String,
}

impl View for Encoding {
    type V = EncodingModel;

    open spec fn view(&self) -> EncodingModel {
        EncodingModel {
            especs: self.especs@.map_values(|s: String| s@),
            c2e: self.c2e@,
            extra: self.extra@.map_values(|p: (u128, Vec<u128>)| (p.0, p.1@)),
            e2i: self.e2i@,
            espec: self.espec@,
        }
    }
}

pub open spec fn espec_size(d: Seq<u8>) -> nat {
    be_at(d, 18, 4)
}

pub open spec fn ccount(d: Seq<u8>) -> nat {
    be_at(d, 9, 4)
}

pub open spec fn ecount(d: Seq<u8>) -> nat {
    be_at(d, 13, 4)
}

pub open spec fn csz(d: Seq<u8>) -> nat {
    be_at(d, 5, 2) * 1024
}

pub open spec fn esz(d: Seq<u8>) -> nat {
    be_at(d, 7, 2) * 1024
}

pub open spec fn espec_block(d: Seq<u8>) -> Seq<u8> {
    d.subrange(22, 22 + espec_size(d) as int)
}

/// Start of the content-page directory.
pub open spec fn cdir0(d: Seq<u8>) -> nat {
    22 + espec_size(d)
}

/// Start of the content pages.
pub open spec fn cpages0(d: Seq<u8>) -> nat {
    cdir0(d) + 32 * ccount(d)
}

/// Start of the encoding-page directory.
pub open spec fn edir0(d: Seq<u8>) -> nat {
    cpages0(d) + ccount(d) * csz(d)
}

/// Start of the encoding pages.
pub open spec fn epages0(d: Seq<u8>) -> nat {
    edir0(d) + 32 * ecount(d)
}

/// Start of the trailing e-spec string.
pub open spec fn etrailer0(d: Seq<u8>) -> nat {
    epages0(d) + ecount(d) * esz(d)
}

/// The declared digest of content page `i`, from the page directory.
pub open spec fn cdir_digest(d: Seq<u8>, i: int) -> nat {
    be_at(d, cdir0(d) + 32 * i + 16, 16)
}

/// Content page `i` itself.
pub open spec fn cpage(d: Seq<u8>, i: int) -> Seq<u8> {
    d.subrange(cpages0(d) + i * csz(d), cpages0(d) + (i + 1) * csz(d))
}

/// The (first key, digest) pair of encoding-page directory entry `i`.
pub open spec fn edir_pair(d: Seq<u8>, i: int) -> (u128, u128) {
    (be_at(d, epages0(d) - 32 * ecount(d) + 32 * i, 16) as u128, be_at(
        d,
        epages0(d) - 32 * ecount(d) + 32 * i + 16,
        16,
    ) as u128)
}

pub open spec fn edir_seq(d: Seq<u8>) -> Seq<(u128, u128)> {
    Seq::new(ecount(d), |i: int| edir_pair(d, i))
}

/// The entries a content page holds from `pos` on: each is a key-count
/// byte, a 40-bit size, a content key and `key count` encoding keys; the
/// scan stops at the padding sentinel or when fewer than 22 bytes remain.
pub open spec fn centries_from(page: Seq<u8>, pos: int) -> Result<Seq<CEntrySpec>, CascError>
    decreases page.len() - pos,
{
    if pos < 0 || page.len() - pos < 22 || page[pos] == 0x30 {
        Ok(Seq::empty())
    } else {
        let kc = page[pos] as int;
        if page.len() - pos - 22 < 16 * kc {
            Err(CascError::Truncated)
        } else {
            let entry = CEntrySpec {
                ckey: be_at(page, pos + 6, 16) as u128,
                size: be_at(page, pos + 1, 5) as u64,
                ekeys: Seq::new(kc as nat, |k: int| be_at(page, pos + 22 + 16 * k, 16) as u128),
            };
            match centries_from(page, pos + 22 + 16 * kc) {
                Ok(rest) => Ok(seq![entry] + rest),
                Err(e) => Err(e),
            }
        }
    }
}

/// The content entries of pages `i` on, each page checked against its
/// directory digest when verification is on.
pub open spec fn cpages_model(d: Seq<u8>, verify: bool, i: int) -> Result<
    Seq<CEntrySpec>,
    CascError,
>
    decreases ccount(d) - i,
{
    if i < 0 || i >= ccount(d) {
        Ok(Seq::empty())
    } else {
        let page = cpage(d, i);
        if verify && md5_of(page) != cdir_digest(d, i) {
            Err(CascError::ChecksumMismatch)
        } else {
            match centries_from(page, 0) {
                Err(e) => Err(e),
                Ok(es) => match cpages_model(d, verify, i + 1) {
                    Ok(rest) => Ok(es + rest),
                    Err(e) => Err(e),
                },
            }
        }
    }
}

/// The flat (content key, first encoding key, size) projection of the
/// content entries, skipping entries that list no encoding key.
pub open spec fn c2e_of(entries: Seq<CEntrySpec>) -> Seq<(u128, u128, u64)>
    decreases entries.len(),
{
    if entries.len() == 0 {
        Seq::empty()
    } else {
        let head: Seq<(u128, u128, u64)> = if entries[0].ekeys.len() > 0 {
            seq![(entries[0].ckey, entries[0].ekeys[0], entries[0].size)]
        } else {
            Seq::empty()
        };
        head + c2e_of(entries.drop_first())
    }
}

/// The alternate-key side map: entries with more than one encoding key,
/// paired with the keys after the first.
pub open spec fn extra_of(entries: Seq<CEntrySpec>) -> Seq<(u128, Seq<u128>)>
    decreases entries.len(),
{
    if entries.len() == 0 {
        Seq::empty()
    } else {
        let head: Seq<(u128, Seq<u128>)> = if entries[0].ekeys.len() > 1 {
            seq![(entries[0].ckey, entries[0].ekeys.skip(1))]
        } else {
            Seq::empty()
        };
        head + extra_of(entries.drop_first())
    }
}

proof fn lemma_c2e_of_snoc(s: Seq<CEntrySpec>, e: CEntrySpec)
    ensures
        c2e_of(s.push(e)) == c2e_of(s) + (if e.ekeys.len() > 0 {
            seq![(e.ckey, e.ekeys[0], e.size)]
        } else {
            Seq::<(u128, u128, u64)>::empty()
        }),
    decreases s.len(),
{
    let tail: Seq<(u128, u128, u64)> = if e.ekeys.len() > 0 {
        seq![(e.ckey, e.ekeys[0], e.size)]
    } else {
        Seq::empty()
    };
    let sp = s.push(e);
    if s.len() == 0 {
        assert(sp[0] == e);
        assert(sp.drop_first() =~= Seq::<CEntrySpec>::empty());
        assert(c2e_of(sp.drop_first()) == Seq::<(u128, u128, u64)>::empty());
        assert(c2e_of(sp) == tail + c2e_of(sp.drop_first()));
        assert(tail + Seq::<(u128, u128, u64)>::empty() =~= tail);
        assert(c2e_of(s) == Seq::<(u128, u128, u64)>::empty());
        assert(Seq::<(u128, u128, u64)>::empty() + tail =~= tail);
    } else {
        lemma_c2e_of_snoc(s.drop_first(), e);
        assert(sp.drop_first() =~= s.drop_first().push(e));
        assert(sp[0] == s[0]);
        let head: Seq<(u128, u128, u64)> = if s[0].ekeys.len() > 0 {
            seq![(s[0].ckey, s[0].ekeys[0], s[0].size)]
        } else {
            Seq::empty()
        };
        assert(c2e_of(sp) == head + c2e_of(s.drop_first().push(e)));
        assert(c2e_of(s) == head + c2e_of(s.drop_first()));
        assert(head + (c2e_of(s.drop_first()) + tail) =~= (head + c2e_of(s.drop_first())) + tail);
    }
}

proof fn lemma_extra_of_snoc(s: Seq<CEntrySpec>, e: CEntrySpec)
    ensures
        extra_of(s.push(e)) == extra_of(s) + (if e.ekeys.len() > 1 {
            seq![(e.ckey, e.ekeys.skip(1))]
        } else {
            Seq::<(u128, Seq<u128>)>::empty()
        }),
    decreases s.len(),
{
    let tail: Seq<(u128, Seq<u128>)> = if e.ekeys.len() > 1 {
        seq![(e.ckey, e.ekeys.skip(1))]
    } else {
        Seq::empty()
    };
    let sp = s.push(e);
    if s.len() == 0 {
        assert(sp[0] == e);
        assert(sp.drop_first() =~= Seq::<CEntrySpec>::empty());
        assert(extra_of(sp.drop_first()) == Seq::<(u128, Seq<u128>)>::empty());
        assert(extra_of(sp) == tail + extra_of(sp.drop_first()));
        assert(tail + Seq::<(u128, Seq<u128>)>::empty() =~= tail);
        assert(extra_of(s) == Seq::<(u128, Seq<u128>)>::empty());
        assert(Seq::<(u128, Seq<u128>)>::empty() + tail =~= tail);
    } else {
        lemma_extra_of_snoc(s.drop_first(), e);
        assert(sp.drop_first() =~= s.drop_first().push(e));
        assert(sp[0] == s[0]);
        let head: Seq<(u128, Seq<u128>)> = if s[0].ekeys.len() > 1 {
            seq![(s[0].ckey, s[0].ekeys.skip(1))]
        } else {
            Seq::empty()
        };
        assert(extra_of(sp) == head + extra_of(s.drop_first().push(e)));
        assert(extra_of(s) == head + extra_of(s.drop_first()));
        assert(head + (extra_of(s.drop_first()) + tail) =~= (head + extra_of(s.drop_first())) + tail);
    }
}

/// The entries an encoding page holds from `pos` on: fixed 25-byte records
/// of (encoding key, 32-bit index, 40-bit size), until the sentinel or
/// fewer than 25 bytes remain.
pub open spec fn eentries_from(page: Seq<u8>, pos: int) -> Seq<(u128, u32, u64)>
    decreases page.len() - pos,
{
    if pos < 0 || page.len() - pos < 25 || page[pos] == 0x30 {
        Seq::empty()
    } else {
        seq![
            (be_at(page, pos, 16) as u128, be_at(page, pos + 16, 4) as u32, be_at(
                page,
                pos + 20,
                5,
            ) as u64),
        ] + eentries_from(page, pos + 25)
    }
}

/// The encoding-page entries of pages `i` on, taken from the byte region
/// `p` that starts at the first encoding page.
pub open spec fn e2i_model(
    pages: Seq<(u128, u128)>,
    psz: int,
    p: Seq<u8>,
    verify: bool,
    i: int,
) -> Result<Seq<(u128, u32, u64)>, CascError>
    decreases pages.len() - i,
{
    if i < 0 || i >= pages.len() {
        Ok(Seq::empty())
    } else {
        let page = p.subrange(i * psz, (i + 1) * psz);
        if verify && md5_of(page) != pages[i].1 {
            Err(CascError::ChecksumMismatch)
        } else {
            match e2i_model(pages, psz, p, verify, i + 1) {
                Ok(rest) => Ok(eentries_from(page, 0) + rest),
                Err(e) => Err(e),
            }
        }
    }
}

/// Whether every NUL-separated piece of the e-spec table is valid UTF-8.
pub open spec fn especs_ok(pieces: Seq<Seq<u8>>) -> bool {
    forall|i: int| 0 <= i < pieces.len() ==> vstd::utf8::valid_utf8(#[trigger] pieces[i])
}

/// The whole encoding-table parse, from the raw table bytes to its model
/// or the exact failure.
pub open spec fn encoding_parse_spec(d: Seq<u8>, verify: bool) -> Result<
    EncodingModel,
    CascError,
> {
    if d.len() < 22 {
        Err(CascError::Truncated)
    } else if be_at(d, 0, 2) != 0x454e {
        Err(CascError::FormatError)
    } else if d[2] != 1 {
        Err(CascError::FormatError)
    } else if d[3] != 16 {
        Err(CascError::FormatError)
    } else if d[4] != 16 {
        Err(CascError::FormatError)
    } else if d[17] != 0 {
        Err(CascError::FormatError)
    } else if d.len() - 22 < espec_size(d) {
        Err(CascError::Truncated)
    } else if !especs_ok(split_nul(espec_block(d))) {
        Err(CascError::FormatError)
    } else if d.len() - cdir0(d) < 32 * ccount(d) {
        Err(CascError::Truncated)
    } else if d.len() - cpages0(d) < ccount(d) * csz(d) {
        Err(CascError::Truncated)
    } else {
        match cpages_model(d, verify, 0) {
            Err(e) => Err(e),
            Ok(centries) => {
                if d.len() - edir0(d) < 32 * ecount(d) {
                    Err(CascError::Truncated)
                } else if d.len() - epages0(d) < ecount(d) * esz(d) {
                    Err(CascError::Truncated)
                } else {
                    match e2i_model(
                        edir_seq(d),
                        esz(d) as int,
                        d.skip(epages0(d) as int),
                        verify,
                        0,
                    ) {
                        Err(e) => Err(e),
                        Ok(e2i) => {
                            let trailer = d.skip(etrailer0(d) as int);
                            if !vstd::utf8::valid_utf8(trailer) {
                                Err(CascError::FormatError)
                            } else {
                                Ok(
                                    EncodingModel {
                                        especs: split_nul(espec_block(d)).map_values(
                                            |p: Seq<u8>| vstd::utf8::decode_utf8(p),
                                        ),
                                        c2e: c2e_of(centries),
                                        extra: extra_of(centries),
                                        e2i: e2i,
                                        espec: vstd::utf8::decode_utf8(trailer),
                                    },
                                )
                            }
                        },
                    }
                }
            },
        }
    }
}

/// Builds the encoding-key index from the encoding-page directory and the
/// byte region `p` that starts at the first encoding page; returns the
/// entries and how many bytes of `p` the pages cover.
pub fn build_e2i(epages: &[(u128, u128)], epagekb: usize, p: &[u8], verify: bool) -> (r: Result<
    (Vec<(u128, u32, u64)>, usize),
    CascError,
>)
    requires
        epagekb <= 0xffff,
        epages@.len() * (epagekb * 1024) <= p@.len(),
    ensures
        match r {
            Ok(v) => e2i_model(epages@, (epagekb * 1024) as int, p@, verify, 0) == Ok::<
                Seq<(u128, u32, u64)>,
                CascError,
            >(v.0@) && v.1 == epages@.len() * (epagekb * 1024),
            Err(e) => e2i_model(epages@, (epagekb * 1024) as int, p@, verify, 0) == Err::<
                Seq<(u128, u32, u64)>,
                CascError,
            >(e),
        },
{
    let psz = epagekb * 1024;
    let plen = p.len();
    let npages = epages.len();
    let ghost psi = psz as int;
    let mut e2i: Vec<(u128, u32, u64)> = Vec::new();
    let mut pstart: usize = 0;
    let mut i: usize = 0;
    while i < npages
        invariant
            psz == epagekb * 1024,
            epagekb <= 0xffff,
            psi == psz as int,
            npages == epages@.len(),
            plen == p@.len(),
            npages * psi <= plen,
            i <= npages,
            pstart == i * psi,
            match e2i_model(epages@, psi, p@, verify, i as int) {
                Ok(rest) => e2i_model(epages@, psi, p@, verify, 0) == Ok::<
                    Seq<(u128, u32, u64)>,
                    CascError,
                >(e2i@ + rest),
                Err(e) => e2i_model(epages@, psi, p@, verify, 0) == Err::<
                    Seq<(u128, u32, u64)>,
                    CascError,
                >(e),
            },
        decreases npages - i,
    {
        proof {
            lemma_mul_inequality((i + 1) as int, npages as int, psi);
            assert((i as int + 1) * psi == i as int * psi + psi) by (nonlinear_arith);
            lemma_pow256_small();
        }
        let page = &p[pstart..pstart + psz];
        let ghost pv = page@;
        proof {
            assert(pv =~= p@.subrange(i as int * psi, (i as int + 1) * psi));
        }
        if verify {
            let h = md5hash(page);
            let dg = epages[i].1;
            if h != dg {
                return Err(CascError::ChecksumMismatch);
            }
        }
        let ghost base = e2i@;
        let ghost mut done_p: Seq<(u128, u32, u64)> = Seq::empty();
        let mut pos: usize = 0;
        proof {
            assert(Seq::<(u128, u32, u64)>::empty() + eentries_from(pv, 0) =~= eentries_from(
                pv,
                0,
            ));
            assert(base + done_p =~= base);
        }
        while pos + 25 <= psz && page[pos] != 0x30
            invariant
                psz == epagekb * 1024,
                epagekb <= 0xffff,
                pos <= psz,
                pv == page@,
                page@.len() == psz,
                e2i@ == base + done_p,
                eentries_from(pv, 0) == done_p + eentries_from(pv, pos as int),
            decreases psz - pos,
        {
            proof {
                lemma_pow256_small();
            }
            let ekey = read_be(page, pos, 16);
            let index = read_be(page, pos + 16, 4) as u32;
            let size = read_be(page, pos + 20, 5) as u64;
            let ghost t = (
                be_at(pv, pos as int, 16) as u128,
                be_at(pv, pos + 16, 4) as u32,
                be_at(pv, pos + 20, 5) as u64,
            );
            proof {
                assert(eentries_from(pv, pos as int) == seq![t] + eentries_from(pv, pos + 25));
                assert(done_p + (seq![t] + eentries_from(pv, pos + 25)) =~= done_p.push(t)
                    + eentries_from(pv, pos + 25));
                assert((ekey, index, size) == t);
                assert(base + done_p.push(t) =~= (base + done_p).push(t));
                done_p = done_p.push(t);
            }
            e2i.push((ekey, index, size));
            pos = pos + 25;
        }
        proof {
            assert(eentries_from(pv, pos as int) =~= Seq::<(u128, u32, u64)>::empty());
            assert(done_p + Seq::<(u128, u32, u64)>::empty() =~= done_p);
            assert(eentries_from(pv, 0) == done_p);
            let rest_res = e2i_model(epages@, psi, p@, verify, i + 1);
            if rest_res is Ok {
                assert((base + done_p) + rest_res->Ok_0 =~= base + (done_p + rest_res->Ok_0));
            }
        }
        pstart = pstart + psz;
        i = i + 1;
    }
    Ok((e2i, pstart))
}


/// Strictly ascending content keys across the flat array: what globally
/// sorted source pages produce, and what binary search relies on.
pub open spec fn c2e_sorted(s: Seq<(u128, u128, u64)>) -> bool {
    forall|i: int, j: int| 0 <= i < j < s.len() ==> (#[trigger] s[i]).0 < (#[trigger] s[j]).0
}

/// The position of the first alternate-key record for `c`, or -1.
pub open spec fn find_extra(s: Seq<(u128, Seq<u128>)>, c: u128) -> int
    decreases s.len(),
{
    if s.len() == 0 {
        -1
    } else if s[0].0 == c {
        0
    } else {
        let r = find_extra(s.drop_first(), c);
        if r < 0 {
            -1
        } else {
            r + 1
        }
    }
}

impl Encoding {
    /// Looks the content key up in the flat array by binary search and
    /// returns its canonical (first-listed) encoding key.
    ///
    /// On an array with strictly ascending content keys -- which any
    /// well-formed table yields -- the answer is exact: the key's entry if
    /// present, `UnknownContentKey` if absent.  A table parsed from
    /// corrupt, unsorted input still returns without failure, and any
    /// success still names an entry of the array.
    pub fn c2e(&self, c: ContentKey) -> (r: Result<EncodingKey, CascError>)
        ensures
            r is Err ==> r == Err::<EncodingKey, CascError>(CascError::UnknownContentKey),
            r matches Ok(e) ==> exists|i: int|
                0 <= i < self@.c2e.len() && (#[trigger] self@.c2e[i]).0 == c.0 && self@.c2e[i].1
                    == e.0,
            c2e_sorted(self@.c2e) ==> match r {
                Ok(e) => exists|i: int|
                    0 <= i < self@.c2e.len() && (#[trigger] self@.c2e[i]).0 == c.0
                        && self@.c2e[i].1 == e.0,
                Err(err) => err == CascError::UnknownContentKey && forall|i: int|
                    0 <= i < self@.c2e.len() ==> (#[trigger] self@.c2e[i]).0 != c.0,
            },
    {
        let mut lo: usize = 0;
        let mut hi: usize = self.c2e.len();
        while lo < hi
            invariant
                lo <= hi <= self.c2e@.len(),
                c2e_sorted(self@.c2e) ==> forall|i: int|
                    0 <= i < lo ==> (#[trigger] self@.c2e[i]).0 < c.0,
                c2e_sorted(self@.c2e) ==> forall|i: int|
                    hi <= i < self@.c2e.len() ==> (#[trigger] self@.c2e[i]).0 > c.0,
            decreases hi - lo,
        {
            let mid = lo + (hi - lo) / 2;
            let entry = self.c2e[mid];
            if entry.0 < c.0 {
                proof {
                    if c2e_sorted(self@.c2e) {
                        assert forall|i: int| 0 <= i < mid + 1 implies (
                        #[trigger] self@.c2e[i]).0 < c.0 by {
                            if i < mid {
                                assert(self@.c2e[i].0 < self@.c2e[mid as int].0);
                            }
                        }
                    }
                }
                lo = mid + 1;
            } else if entry.0 > c.0 {
                proof {
                    if c2e_sorted(self@.c2e) {
                        assert forall|i: int|
                            mid <= i < self@.c2e.len() implies (#[trigger] self@.c2e[i]).0
                            > c.0 by {
                            if i > mid {
                                assert(self@.c2e[mid as int].0 < self@.c2e[i].0);
                            }
                        }
                    }
                }
                hi = mid;
            } else {
                return Ok(EncodingKey(entry.1));
            }
        }
        Err(CascError::UnknownContentKey)
    }

    /// The alternate encoding keys the table lists for `c` beyond the
    /// canonical one: the first matching side-map record, or nothing.
    pub fn alternate_keys(&self, c: ContentKey) -> (r: Vec<EncodingKey>)
        ensures
            find_extra(self@.extra, c.0) < 0 ==> r@.len() == 0,
            find_extra(self@.extra, c.0) >= 0 ==> r@.map_values(|e: EncodingKey| e.0)
                == self@.extra[find_extra(self@.extra, c.0)].1,
    {
        let ghost m = self@.extra;
        let mut i: usize = 0;
        while i < self.extra.len()
            invariant
                i <= self.extra@.len(),
                m == self@.extra,
                m.len() == self.extra@.len(),
                forall|j: int| 0 <= j < i ==> (#[trigger] m[j]).0 != c.0,
                find_extra(m, c.0) >= 0 ==> find_extra(m, c.0) >= i,
            decreases self.extra@.len() - i,
        {
            if self.extra[i].0 == c.0 {
                proof {
                    lemma_find_extra_at(m, c.0, i as int);
                }
                let alts = &self.extra[i].1;
                let mut out: Vec<EncodingKey> = Vec::new();
                let mut k: usize = 0;
                while k < alts.len()
                    invariant
                        k <= alts@.len(),
                        out@.len() == k,
                        forall|t: int| 0 <= t < k ==> (#[trigger] out@[t]).0 == alts@[t],
                    decreases alts@.len() - k,
                {
                    out.push(EncodingKey(alts[k]));
                    k = k + 1;
                }
                proof {
                    assert(out@.map_values(|e: EncodingKey| e.0) =~= m[find_extra(m, c.0)].1);
                }
                return out;
            }
            proof {
                lemma_find_extra_skip(m, c.0, i as int + 1);
            }
            i = i + 1;
        }
        proof {
            lemma_find_extra_none(m, c.0);
        }
        Vec::new()
    }
}

proof fn lemma_find_extra_none(s: Seq<(u128, Seq<u128>)>, c: u128)
    requires
        forall|j: int| 0 <= j < s.len() ==> (#[trigger] s[j]).0 != c,
    ensures
        find_extra(s, c) == -1,
    decreases s.len(),
{
    if s.len() > 0 {
        lemma_find_extra_none(s.drop_first(), c);
    }
}

proof fn lemma_find_extra_at(s: Seq<(u128, Seq<u128>)>, c: u128, i: int)
    requires
        0 <= i < s.len(),
        s[i].0 == c,
        forall|j: int| 0 <= j < i ==> (#[trigger] s[j]).0 != c,
    ensures
        find_extra(s, c) == i,
    decreases s.len(),
{
    if i > 0 {
        lemma_find_extra_at(s.drop_first(), c, i - 1);
    }
}

proof fn lemma_find_extra_skip(s: Seq<(u128, Seq<u128>)>, c: u128, i: int)
    requires
        0 <= i <= s.len(),
        forall|j: int| 0 <= j < i ==> (#[trigger] s[j]).0 != c,
    ensures
        find_extra(s, c) >= 0 ==> find_extra(s, c) >= i,
    decreases i,
{
    if i > 0 && s.len() > 0 {
        lemma_find_extra_skip(s.drop_first(), c, i - 1);
    }
}


/// Parses an encoding table, verifying page digests when `verify` is set.
pub fn parse_with(data: &[u8], verify: bool) -> (r: Result<Encoding, CascError>)
    ensures
        match r {
            Ok(t) => encoding_parse_spec(data@, verify) == Ok::<EncodingModel, CascError>(t@),
            Err(e) => encoding_parse_spec(data@, verify) == Err::<EncodingModel, CascError>(e),
        },
{
    let ghost d = data@;
    let dlen = data.len();
    proof {
        lemma_pow256_small();
    }
    if dlen < 22 {
        return Err(CascError::Truncated);
    }
    if read_be(data, 0, 2) != 0x454e {
        return Err(CascError::FormatError);
    }
    if data[2] != 1 {
        return Err(CascError::FormatError);
    }
    if data[3] != 16 {
        return Err(CascError::FormatError);
    }
    if data[4] != 16 {
        return Err(CascError::FormatError);
    }
    let cpagekb = read_be(data, 5, 2) as usize;
    let epagekb = read_be(data, 7, 2) as usize;
    let ccount64 = read_be(data, 9, 4) as u64;
    let ecount64 = read_be(data, 13, 4) as u64;
    if data[17] != 0 {
        return Err(CascError::FormatError);
    }
    let espec_size64 = read_be(data, 18, 4) as u64;
    if ((dlen - 22) as u64) < espec_size64 {
        return Err(CascError::Truncated);
    }
    let espec_size_us = espec_size64 as usize;
    let espec_end = 22 + espec_size_us;
    let pieces = split_nul_exec(&data[22..espec_end]);
    proof {
        assert(d.subrange(22, espec_end as int) =~= espec_block(d));
    }
    let mut especs: Vec<String> = Vec::new();
    let mut pi: usize = 0;
    while pi < pieces.len()
        invariant
            d == data@,
            dlen == d.len(),
            22 <= dlen,
            be_at(d, 0, 2) == 0x454e,
            d[2] == 1,
            d[3] == 16,
            d[4] == 16,
            d[17] == 0,
            espec_size(d) == espec_size64,
            dlen - 22 >= espec_size(d),
            pi <= pieces@.len(),
            especs@.len() == pi,
            pieces@.map_values(|v: Vec<u8>| v@) == split_nul(espec_block(d)),
            forall|k: int|
                0 <= k < pi ==> vstd::utf8::valid_utf8(#[trigger] pieces@[k]@) && especs@[k]@
                    == vstd::utf8::decode_utf8(pieces@[k]@),
        decreases pieces@.len() - pi,
    {
        proof {
            assert(split_nul(espec_block(d))[pi as int] == pieces@[pi as int]@);
        }
        let piece = &pieces[pi];
        match utf8_string(piece.as_slice()) {
            Some(s) => {
                especs.push(s);
            },
            None => {
                proof {
                    assert(!especs_ok(split_nul(espec_block(d))));
                }
                return Err(CascError::FormatError);
            },
        }
        pi = pi + 1;
    }
    proof {
        assert forall|k: int| 0 <= k < split_nul(espec_block(d)).len() implies vstd::utf8::valid_utf8(
            #[trigger] split_nul(espec_block(d))[k],
        ) by {
            assert(split_nul(espec_block(d))[k] == pieces@[k]@);
        }
        assert(especs_ok(split_nul(espec_block(d))));
    }
    let cdir0_us = espec_end;
    if ((dlen - cdir0_us) as u64) < 32 * ccount64 {
        return Err(CascError::Truncated);
    }
    let ccount_us = ccount64 as usize;
    let cpages0_us = cdir0_us + 32 * ccount_us;
    let csz_us = cpagekb * 1024;
    proof {
        assert(ccount64 as int * (csz_us as int) <= 0x100000000int * 0x4000000int)
            by (nonlinear_arith)
            requires
                0 <= ccount64 < 0x100000000,
                0 <= csz_us < 0x4000000,
        ;
    }
    if ((dlen - cpages0_us) as u64) < ccount64 * (csz_us as u64) {
        return Err(CascError::Truncated);
    }
    let mut c2e: Vec<(u128, u128, u64)> = Vec::new();
    let mut extra: Vec<(u128, Vec<u128>)> = Vec::new();
    let ghost mut done: Seq<CEntrySpec> = Seq::empty();
    let mut pstart: usize = cpages0_us;
    let mut i: usize = 0;
    proof {
        assert(c2e@ =~= c2e_of(done));
        assert(extra@.map_values(|p: (u128, Vec<u128>)| (p.0, p.1@)) =~= extra_of(done));
        if cpages_model(d, verify, 0) is Ok {
            assert(done + cpages_model(d, verify, 0)->Ok_0 =~= cpages_model(d, verify, 0)->Ok_0);
        }
        assert(0int * (csz_us as int) == 0) by (nonlinear_arith);
    }
    while i < ccount_us
        invariant
            d == data@,
            dlen == d.len(),
            22 <= dlen,
            be_at(d, 0, 2) == 0x454e,
            d[2] == 1,
            d[3] == 16,
            d[4] == 16,
            d[17] == 0,
            dlen - 22 >= espec_size(d),
            especs_ok(split_nul(espec_block(d))),
            espec_size(d) == espec_size64,
            cdir0(d) == cdir0_us,
            ccount(d) == ccount64,
            ccount_us == ccount64,
            cpages0(d) == cpages0_us,
            csz(d) == csz_us,
            csz_us < 0x4000000,
            dlen - cdir0_us >= 32 * ccount64,
            dlen - cpages0_us >= ccount64 * (csz_us as u64),
            i <= ccount_us,
            pstart == cpages0_us + i * (csz_us as int),
            c2e@ == c2e_of(done),
            extra@.map_values(|p: (u128, Vec<u128>)| (p.0, p.1@)) == extra_of(done),
            match cpages_model(d, verify, i as int) {
                Ok(rest) => cpages_model(d, verify, 0) == Ok::<Seq<CEntrySpec>, CascError>(
                    done + rest,
                ),
                Err(e) => cpages_model(d, verify, 0) == Err::<Seq<CEntrySpec>, CascError>(e),
            },
        decreases ccount_us - i,
    {
        proof {
            lemma_mul_inequality((i + 1) as int, ccount_us as int, csz_us as int);
            assert((i as int + 1) * (csz_us as int) == i as int * (csz_us as int) + csz_us as int)
                by (nonlinear_arith);
            lemma_pow256_small();
        }
        let page = &data[pstart..pstart + csz_us];
        let ghost pv = page@;
        proof {
            assert(pv =~= cpage(d, i as int));
        }
        if verify {
            let dg = read_be(data, cdir0_us + 32 * i + 16, 16);
            let h = md5hash(page);
            if h != dg {
                return Err(CascError::ChecksumMismatch);
            }
        }
        let ghost mut done_page: Seq<CEntrySpec> = Seq::empty();
        let mut pos: usize = 0;
        proof {
            if centries_from(pv, 0) is Ok {
                assert(done_page + centries_from(pv, 0)->Ok_0 =~= centries_from(pv, 0)->Ok_0);
            }
        }
        while pos + 22 <= csz_us && page[pos] != 0x30
            invariant
                d == data@,
                dlen == d.len(),
                22 <= dlen,
                be_at(d, 0, 2) == 0x454e,
                d[2] == 1,
                d[3] == 16,
                d[4] == 16,
                d[17] == 0,
                dlen - 22 >= espec_size(d),
                especs_ok(split_nul(espec_block(d))),
                espec_size(d) == espec_size64,
                cdir0(d) == cdir0_us,
                ccount(d) == ccount64,
                ccount_us == ccount64,
                cpages0(d) == cpages0_us,
                csz(d) == csz_us,
                csz_us < 0x4000000,
                dlen - cdir0_us >= 32 * ccount64,
                dlen - cpages0_us >= ccount64 * (csz_us as u64),
                i < ccount_us,
                pv == page@,
                page@.len() == csz_us,
                pv == cpage(d, i as int),
                verify ==> md5_of(pv) == cdir_digest(d, i as int),
                pos <= csz_us,
                c2e@ == c2e_of(done + done_page),
                extra@.map_values(|p: (u128, Vec<u128>)| (p.0, p.1@)) == extra_of(
                    done + done_page,
                ),
                match centries_from(pv, pos as int) {
                    Ok(rest) => centries_from(pv, 0) == Ok::<Seq<CEntrySpec>, CascError>(
                        done_page + rest,
                    ),
                    Err(e) => centries_from(pv, 0) == Err::<Seq<CEntrySpec>, CascError>(e),
                },
                match cpages_model(d, verify, i as int) {
                    Ok(rest) => cpages_model(d, verify, 0) == Ok::<Seq<CEntrySpec>, CascError>(
                        done + rest,
                    ),
                    Err(e) => cpages_model(d, verify, 0) == Err::<Seq<CEntrySpec>, CascError>(e),
                },
            decreases csz_us - pos,
        {
            proof {
                lemma_pow256_small();
            }
            let kc = page[pos] as usize;
            if csz_us - pos - 22 < 16 * kc {
                proof {
                    assert(centries_from(pv, pos as int) == Err::<Seq<CEntrySpec>, CascError>(
                        CascError::Truncated,
                    ));
                }
                return Err(CascError::Truncated);
            }
            let size = read_be(page, pos + 1, 5) as u64;
            let ckey = read_be(page, pos + 6, 16);
            let ghost entry = CEntrySpec {
                ckey: be_at(pv, pos + 6, 16) as u128,
                size: be_at(pv, pos + 1, 5) as u64,
                ekeys: Seq::new(kc as nat, |k: int| be_at(pv, pos + 22 + 16 * k, 16) as u128),
            };
            proof {
                assert(ckey == entry.ckey);
                assert(size == entry.size);
                lemma_c2e_of_snoc(done + done_page, entry);
                lemma_extra_of_snoc(done + done_page, entry);
                assert((done + done_page).push(entry) =~= done + done_page.push(entry));
            }
            if kc > 0 {
                let ekey0 = read_be(page, pos + 22, 16);
                proof {
                    assert(entry.ekeys[0] == ekey0);
                    assert(c2e@.push((ckey, ekey0, size)) =~= c2e_of(done + done_page) + seq![
                        (entry.ckey, entry.ekeys[0], entry.size),
                    ]);
                }
                c2e.push((ckey, ekey0, size));
                if kc > 1 {
                    let mut alts: Vec<u128> = Vec::new();
                    let mut k: usize = 1;
                    while k < kc
                        invariant
                            1 <= k <= kc,
                            kc <= 255,
                            kc == entry.ekeys.len(),
                            pv == page@,
                            page@.len() == csz_us,
                            pos + 22 + 16 * kc <= csz_us,
                            alts@.len() == k - 1,
                            forall|m: int| 0 <= m < k - 1 ==> alts@[m] == entry.ekeys[m + 1],
                            entry.ekeys == Seq::new(
                                kc as nat,
                                |k2: int| be_at(pv, pos + 22 + 16 * k2, 16) as u128,
                            ),
                        decreases kc - k,
                    {
                        proof {
                            lemma_pow256_small();
                        }
                        let a = read_be(page, pos + 22 + 16 * k, 16);
                        proof {
                            assert(entry.ekeys[k as int] == a);
                        }
                        alts.push(a);
                        k = k + 1;
                    }
                    proof {
                        assert(alts@ =~= entry.ekeys.skip(1));
                        assert(extra@.push((ckey, alts)).map_values(
                            |p: (u128, Vec<u128>)| (p.0, p.1@),
                        ) =~= extra_of(done + done_page) + seq![(entry.ckey, entry.ekeys.skip(1))]);
                    }
                    extra.push((ckey, alts));
                } else {
                    proof {
                        assert(extra_of((done + done_page).push(entry)) =~= extra_of(
                            done + done_page,
                        ));
                    }
                }
            } else {
                proof {
                    assert(c2e_of((done + done_page).push(entry)) =~= c2e_of(done + done_page));
                    assert(extra_of((done + done_page).push(entry)) =~= extra_of(
                        done + done_page,
                    ));
                }
            }
            proof {
                let nextp = pos + 22 + 16 * kc;
                assert(centries_from(pv, pos as int) == (match centries_from(pv, nextp as int) {
                    Ok(rest) => Ok::<Seq<CEntrySpec>, CascError>(seq![entry] + rest),
                    Err(e) => Err::<Seq<CEntrySpec>, CascError>(e),
                }));
                if centries_from(pv, nextp as int) is Ok {
                    assert(done_page + (seq![entry] + centries_from(pv, nextp as int)->Ok_0)
                        =~= done_page.push(entry) + centries_from(pv, nextp as int)->Ok_0);
                }
                done_page = done_page.push(entry);
            }
            pos = pos + 22 + 16 * kc;
        }
        proof {
            assert(centries_from(pv, pos as int) == Ok::<Seq<CEntrySpec>, CascError>(
                Seq::empty(),
            ));
            assert(done_page + Seq::<CEntrySpec>::empty() =~= done_page);
            assert(centries_from(pv, 0) == Ok::<Seq<CEntrySpec>, CascError>(done_page));
            let rest_res = cpages_model(d, verify, i + 1);
            if rest_res is Ok {
                assert((done + done_page) + rest_res->Ok_0 =~= done + (done_page
                    + rest_res->Ok_0));
            }
            done = done + done_page;
        }
        pstart = pstart + csz_us;
        i = i + 1;
    }
    proof {
        assert(cpages_model(d, verify, i as int) == Ok::<Seq<CEntrySpec>, CascError>(
            Seq::empty(),
        ));
        assert(done + Seq::<CEntrySpec>::empty() =~= done);
        assert(cpages_model(d, verify, 0) == Ok::<Seq<CEntrySpec>, CascError>(done));
    }
    let edir0_us = cpages0_us + ccount_us * csz_us;
    proof {
        assert(edir0(d) == edir0_us);
    }
    if ((dlen - edir0_us) as u64) < 32 * ecount64 {
        return Err(CascError::Truncated);
    }
    let ecount_us = ecount64 as usize;
    let epages0_us = edir0_us + 32 * ecount_us;
    proof {
        assert(epages0(d) == epages0_us);
    }
    let mut epages_v: Vec<(u128, u128)> = Vec::new();
    let mut j: usize = 0;
    while j < ecount_us
        invariant
            d == data@,
            dlen == d.len(),
            ecount(d) == ecount64,
            ecount_us == ecount64,
            edir0(d) == edir0_us,
            epages0(d) == epages0_us,
            epages0_us == edir0_us + 32 * ecount_us,
            epages0_us <= dlen,
            j <= ecount_us,
            epages_v@.len() == j,
            forall|t: int| 0 <= t < j ==> epages_v@[t] == edir_pair(d, t),
        decreases ecount_us - j,
    {
        proof {
            lemma_pow256_small();
        }
        let k1 = read_be(data, edir0_us + 32 * j, 16);
        let k2 = read_be(data, edir0_us + 32 * j + 16, 16);
        epages_v.push((k1, k2));
        j = j + 1;
    }
    proof {
        assert(epages_v@ =~= edir_seq(d));
    }
    let esz_us = epagekb * 1024;
    proof {
        assert(esz(d) == esz_us);
        assert(ecount64 as int * (esz_us as int) <= 0x100000000int * 0x4000000int)
            by (nonlinear_arith)
            requires
                0 <= ecount64 < 0x100000000,
                0 <= esz_us < 0x4000000,
        ;
    }
    if ((dlen - epages0_us) as u64) < ecount64 * (esz_us as u64) {
        return Err(CascError::Truncated);
    }
    let tail = &data[epages0_us..dlen];
    proof {
        assert(tail@ =~= d.skip(epages0_us as int));
    }
    match build_e2i(epages_v.as_slice(), epagekb, tail, verify) {
        Err(e) => {
            return Err(e);
        },
        Ok(pair) => {
            let e2i_v = pair.0;
            let consumed = pair.1;
            proof {
                assert(etrailer0(d) == epages0_us + consumed);
            }
            let trailer_start = epages0_us + consumed;
            let trailer = &data[trailer_start..dlen];
            proof {
                assert(trailer@ =~= d.skip(etrailer0(d) as int));
            }
            match utf8_string(trailer) {
                None => Err(CascError::FormatError),
                Some(espec_str) => {
                    let enc = Encoding {
                        especs,
                        c2e,
                        e2i: e2i_v,
                        extra,
                        espec: espec_str,
                    };
                    proof {
                        assert(enc@.especs =~= split_nul(espec_block(d)).map_values(
                            |p: Seq<u8>| vstd::utf8::decode_utf8(p),
                        ));
                        assert(enc@.c2e == c2e_of(done));
                        assert(enc@.extra == extra_of(done));
                    }
                    Ok(enc)
                },
            }
        },
    }
}

/// Parses an encoding table with page verification on, the default policy
/// for data that arrives over an untrusted transport.
pub fn parse(data: &[u8]) -> (r: Result<Encoding, CascError>)
    ensures
        match r {
            Ok(t) => encoding_parse_spec(data@, true) == Ok::<EncodingModel, CascError>(t@),
            Err(e) => encoding_parse_spec(data@, true) == Err::<EncodingModel, CascError>(e),
        },
{
    parse_with(data, true)
}

} // verus!
