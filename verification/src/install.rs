use crate::errors::CascError;
use crate::keys::Key;
use crate::reader::{be_at, lemma_pow256_small, read_be};
use crate::text::{bytes_eq, find_nul, lemma_find_nul_at, lemma_find_nul_none, lex_le,
    lemma_lex_le_total, lemma_lex_le_trans, lex_le_exec, find_nul_range, lossy_of, lossy_string};
use vstd::multiset::Multiset;
use vstd::prelude::*;
use vstd::slice::slice_to_vec;
use vstd::seq_lib::to_multiset_build;
use vstd::seq_lib::to_multiset_insert;

verus! {

broadcast use {vstd::multiset::group_multiset_axioms, vstd::multiset::group_multiset_properties,
    vstd::seq_lib::group_to_multiset_ensures};

/// One tag of the install manifest: a name, a type, and one inclusion bit
/// per file.
#[derive(Debug)]
pub struct InstallTag {
    pub name_bytes: Vec<u8>,
    pub name: String,
    pub ty: u16,
    pub mask: Vec<u8>,
}

/// One file record: its path, its content key, its declared size.
#[derive(Debug)]
pub struct InstallEntry {
    pub name_bytes: Vec<u8>,
    pub name: String,
    pub key: Key,
    pub size: u32,
}

/// A file name paired with the content key of its decoded bytes.
#[derive(Debug)]
pub struct InstallFile {
    pub name: String,
    pub key: Key,
}

pub ghost struct TagModel {
    pub name_bytes: Seq<u8>,
    pub name: Seq<char>,
    pub ty: u16,
    pub mask: Seq<u8>,
}

pub ghost struct EntryModel {
    pub name_bytes: Seq<u8>,
    pub name: Seq<char>,
    pub key: u128,
    pub size: u32,
}

pub ghost struct InstallModel {
    pub tags: Seq<TagModel>,
    pub files: Seq<EntryModel>,
    pub root_bytes: Seq<Seq<u8>>,
    pub root_names: Seq<Seq<char>>,
}

impl View for InstallTag {
    type V = TagModel;

    open spec fn view(&self) -> TagModel {
        TagModel {
            name_bytes: self.name_bytes@,
            name: self.name@,
            ty: self.ty,
            mask: self.mask@,
        }
    }
}

impl View for InstallEntry {
    type V = EntryModel;

    open spec fn view(&self) -> EntryModel {
        EntryModel {
            name_bytes: self.name_bytes@,
            name: self.name@,
            key: self.key.0,
            size: self.size,
        }
    }
}

/// The parsed install manifest: the whole tag table, every file record in
/// file order, and the root names (paths without a separator), sorted.
#[derive(Debug)]
pub struct Install {
    pub tags: Vec<InstallTag>,
    pub files: Vec<InstallEntry>,
    pub root_bytes: Vec<Vec<u8>>,
    pub root_names: Vec<String>,
}

impl View for Install {
    type V = InstallModel;

    open spec fn view(&self) -> InstallModel {
        InstallModel {
            tags: self.tags@.map_values(|t: InstallTag| t@),
            files: self.files@.map_values(|e: InstallEntry| e@),
            root_bytes: self.root_bytes@.map_values(|v: Vec<u8>| v@),
            root_names: self.root_names@.map_values(|s: String| s@),
        }
    }
}

/// The tag records from `pos` on, `n` of them: a NUL-terminated name, a
/// 16-bit type, and `mask_len` mask bytes each.
pub open spec fn tags_from(d: Seq<u8>, pos: int, n: int, mask_len: int) -> Result<
    (Seq<TagModel>, int),
    CascError,
>
    decreases n,
{
    if n <= 0 {
        Ok((Seq::empty(), pos))
    } else if pos < 0 || pos > d.len() {
        Err(CascError::Truncated)
    } else {
        let f = find_nul(d.skip(pos));
        if f < 0 {
            Err(CascError::Truncated)
        } else {
            let pos2 = pos + f + 1;
            if d.len() - pos2 < 2 + mask_len {
                Err(CascError::Truncated)
            } else {
                let tag = TagModel {
                    name_bytes: d.subrange(pos, pos + f),
                    name: lossy_of(d.subrange(pos, pos + f)),
                    ty: be_at(d, pos2, 2) as u16,
                    mask: d.subrange(pos2 + 2, pos2 + 2 + mask_len),
                };
                match tags_from(d, pos2 + 2 + mask_len, n - 1, mask_len) {
                    Ok((rest, p)) => Ok((seq![tag] + rest, p)),
                    Err(e) => Err(e),
                }
            }
        }
    }
}

/// The file records from `pos` on, `n` of them: a NUL-terminated path, a
/// 128-bit content key and a 32-bit size each.
pub open spec fn files_from(d: Seq<u8>, pos: int, n: int) -> Result<(Seq<EntryModel>, int), CascError>
    decreases n,
{
    if n <= 0 {
        Ok((Seq::empty(), pos))
    } else if pos < 0 || pos > d.len() {
        Err(CascError::Truncated)
    } else {
        let f = find_nul(d.skip(pos));
        if f < 0 {
            Err(CascError::Truncated)
        } else {
            let pos2 = pos + f + 1;
            if d.len() - pos2 < 20 {
                Err(CascError::Truncated)
            } else {
                let entry = EntryModel {
                    name_bytes: d.subrange(pos, pos + f),
                    name: lossy_of(d.subrange(pos, pos + f)),
                    key: be_at(d, pos2, 16) as u128,
                    size: be_at(d, pos2 + 16, 4) as u32,
                };
                match files_from(d, pos2 + 20, n - 1) {
                    Ok((rest, p)) => Ok((seq![entry] + rest, p)),
                    Err(e) => Err(e),
                }
            }
        }
    }
}

/// The whole install-manifest parse: the tag table, then the file records.
pub open spec fn install_parse_spec(d: Seq<u8>) -> Result<
    (Seq<TagModel>, Seq<EntryModel>),
    CascError,
> {
    if d.len() < 16 {
        Err(CascError::Truncated)
    } else if be_at(d, 0, 2) != 0x494e {
        Err(CascError::FormatError)
    } else if d[2] != 1 {
        Err(CascError::FormatError)
    } else {
        let n_tags = be_at(d, 4, 2) as int;
        let n_files = be_at(d, 6, 4) as int;
        let mask_len = (n_files + 7) / 8;
        match tags_from(d, 10, n_tags, mask_len) {
            Err(e) => Err(e),
            Ok((tags, pos)) => match files_from(d, pos, n_files) {
                Err(e) => Err(e),
                Ok((files, _end)) => Ok((tags, files)),
            },
        }
    }
}

/// Whether a path holds the separator byte, a backslash.
pub open spec fn has_sep(s: Seq<u8>) -> bool {
    exists|k: int| 0 <= k < s.len() && s[k] == 0x5c
}

/// The root names among the files from `i` on: paths with no separator,
/// in file order.
pub open spec fn roots_of(files: Seq<EntryModel>, i: int) -> Seq<Seq<u8>>
    decreases files.len() - i,
{
    if i < 0 || i >= files.len() {
        Seq::empty()
    } else {
        (if !has_sep(files[i].name_bytes) {
            seq![files[i].name_bytes]
        } else {
            Seq::empty()
        }) + roots_of(files, i + 1)
    }
}

/// Byte strings in nondecreasing lexicographic order.
pub open spec fn sorted_lex_seqs(s: Seq<Seq<u8>>) -> bool {
    forall|i: int, j: int| 0 <= i < j < s.len() ==> lex_le(#[trigger] s[i], #[trigger] s[j])
}

/// File records in nondecreasing lexicographic path order.
pub open spec fn sorted_entries(s: Seq<EntryModel>) -> bool {
    forall|i: int, j: int|
        0 <= i < j < s.len() ==> lex_le((#[trigger] s[i]).name_bytes, (#[trigger] s[j]).name_bytes)
}

/// Whether some required name spells this tag's name.
pub open spec fn tag_required(tag: TagModel, req: Seq<Seq<char>>) -> bool {
    exists|r: int|
        0 <= r < req.len() && vstd::utf8::encode_utf8(#[trigger] req[r]) == tag.name_bytes
}

/// Bit `i` of a tag's inclusion mask: bit `i % 8` of byte `i / 8`.
pub open spec fn mask_bit(mask: Seq<u8>, i: int) -> bool {
    (mask[i / 8] >> ((i % 8) as u8)) & 1 == 1
}

/// Whether file `i` carries every tag of the required set that the table
/// knows.
pub open spec fn satisfies(m: InstallModel, i: int, req: Seq<Seq<char>>) -> bool {
    forall|t: int|
        0 <= t < m.tags.len() && tag_required(#[trigger] m.tags[t], req) ==> mask_bit(
            m.tags[t].mask,
            i,
        )
}

/// The files from `i` on that satisfy the required tag set, in file order.
pub open spec fn selected_of(m: InstallModel, req: Seq<Seq<char>>, i: int) -> Seq<EntryModel>
    decreases m.files.len() - i,
{
    if i < 0 || i >= m.files.len() {
        Seq::empty()
    } else {
        (if satisfies(m, i, req) {
            seq![m.files[i]]
        } else {
            Seq::empty()
        }) + selected_of(m, req, i + 1)
    }
}

impl Install {
    /// The structural invariant: every tag's mask has one bit per file.
    pub open spec fn wf(self) -> bool {
        forall|t: int|
            0 <= t < self@.tags.len() ==> (#[trigger] self@.tags[t]).mask.len() == (
            self@.files.len() + 7) / 8
    }
}

/// Inserts a byte string into a sorted vector, keeping it sorted.
fn insert_sorted_bytes(out: &mut Vec<Vec<u8>>, x: Vec<u8>)
    requires
        sorted_lex_seqs(old(out)@.map_values(|v: Vec<u8>| v@)),
    ensures
        sorted_lex_seqs(final(out)@.map_values(|v: Vec<u8>| v@)),
        final(out)@.map_values(|v: Vec<u8>| v@).to_multiset() == old(out)@.map_values(
            |v: Vec<u8>| v@,
        ).to_multiset().insert(x@),
{
    let ghost om = out@.map_values(|v: Vec<u8>| v@);
    let mut k: usize = 0;
    while k < out.len() && lex_le_exec(out[k].as_slice(), x.as_slice())
        invariant
            k <= out@.len(),
            out@ == old(out)@,
            om == out@.map_values(|v: Vec<u8>| v@),
            sorted_lex_seqs(om),
            forall|t: int| 0 <= t < k ==> lex_le(#[trigger] om[t], x@),
        decreases out@.len() - k,
    {
        k = k + 1;
    }
    proof {
        if k < om.len() {
            lemma_lex_le_total(om[k as int], x@);
        }
        assert forall|t: int| k <= t < om.len() implies lex_le(x@, #[trigger] om[t]) by {
            lemma_lex_le_total(om[k as int], x@);
            if t > k {
                lemma_lex_le_trans(x@, om[k as int], om[t]);
            }
        }
    }
    out.insert(k, x);
    proof {
        let nm = out@.map_values(|v: Vec<u8>| v@);
        assert(nm =~= om.insert(k as int, x@));
        broadcast use to_multiset_insert;

        assert forall|i: int, j: int| 0 <= i < j < nm.len() implies lex_le(
            #[trigger] nm[i],
            #[trigger] nm[j],
        ) by {
            if j < k {
            } else if i < k && j == k {
            } else if i < k && j > k {
                lemma_lex_le_trans(nm[i], x@, om[j - 1]);
            } else if i == k {
            } else {
            }
        }
    }
}

/// Inserts a file record into a vector sorted by path, keeping it sorted.
fn insert_sorted_entry(out: &mut Vec<InstallEntry>, x: InstallEntry)
    requires
        sorted_entries(old(out)@.map_values(|e: InstallEntry| e@)),
    ensures
        sorted_entries(final(out)@.map_values(|e: InstallEntry| e@)),
        final(out)@.map_values(|e: InstallEntry| e@).to_multiset() == old(out)@.map_values(
            |e: InstallEntry| e@,
        ).to_multiset().insert(x@),
{
    let ghost om = out@.map_values(|e: InstallEntry| e@);
    let mut k: usize = 0;
    while k < out.len() && lex_le_exec(out[k].name_bytes.as_slice(), x.name_bytes.as_slice())
        invariant
            k <= out@.len(),
            out@ == old(out)@,
            om == out@.map_values(|e: InstallEntry| e@),
            sorted_entries(om),
            forall|t: int| 0 <= t < k ==> lex_le((#[trigger] om[t]).name_bytes, x@.name_bytes),
        decreases out@.len() - k,
    {
        k = k + 1;
    }
    proof {
        assert forall|t: int| k <= t < om.len() implies lex_le(
            x@.name_bytes,
            (#[trigger] om[t]).name_bytes,
        ) by {
            lemma_lex_le_total(om[k as int].name_bytes, x@.name_bytes);
            if t > k {
                lemma_lex_le_trans(x@.name_bytes, om[k as int].name_bytes, om[t].name_bytes);
            }
        }
    }
    out.insert(k, x);
    proof {
        let nm = out@.map_values(|e: InstallEntry| e@);
        assert(nm =~= om.insert(k as int, x@));
        broadcast use to_multiset_insert;

        assert forall|i: int, j: int| 0 <= i < j < nm.len() implies lex_le(
            (#[trigger] nm[i]).name_bytes,
            (#[trigger] nm[j]).name_bytes,
        ) by {
            if i < k && j > k {
                lemma_lex_le_trans(nm[i].name_bytes, x@.name_bytes, om[j - 1].name_bytes);
            }
        }
    }
}

/// Whether a required name list names this tag.
fn tag_is_required(tag: &InstallTag, required: &Vec<String>) -> (r: bool)
    ensures
        r == tag_required(tag@, required@.map_values(|s: String| s@)),
{
    let ghost req = required@.map_values(|s: String| s@);
    let mut t: usize = 0;
    while t < required.len()
        invariant
            t <= required@.len(),
            req == required@.map_values(|s: String| s@),
            forall|j: int|
                0 <= j < t ==> vstd::utf8::encode_utf8(#[trigger] req[j]) != tag@.name_bytes,
        decreases required@.len() - t,
    {
        if bytes_eq(tag.name_bytes.as_slice(), required[t].as_str().as_bytes()) {
            proof {
                assert(vstd::utf8::encode_utf8(req[t as int]) == tag@.name_bytes);
            }
            return true;
        }
        t = t + 1;
    }
    false
}

impl Install {
    /// Whether file `i` carries every required tag the table knows.
    fn entry_satisfies(&self, i: usize, required: &Vec<String>) -> (r: bool)
        requires
            self.wf(),
            i < self@.files.len(),
        ensures
            r == satisfies(self@, i as int, required@.map_values(|s: String| s@)),
    {
        let ghost req = required@.map_values(|s: String| s@);
        let flen = self.files.len();
        let mut t: usize = 0;
        while t < self.tags.len()
            invariant
                t <= self@.tags.len(),
                self.wf(),
                i < self@.files.len(),
                flen == self@.files.len(),
                req == required@.map_values(|s: String| s@),
                forall|j: int|
                    0 <= j < t && tag_required(#[trigger] self@.tags[j], req) ==> mask_bit(
                        self@.tags[j].mask,
                        i as int,
                    ),
            decreases self@.tags.len() - t,
        {
            if tag_is_required(&self.tags[t], required) {
                let m = &self.tags[t].mask;
                proof {
                    assert(self@.tags[t as int].mask.len() == (flen + 7) / 8);
                    assert(i as int / 8 < (flen as int + 7) / 8) by (nonlinear_arith)
                        requires
                            0 <= i < flen,
                    ;
                }
                let b = m[i / 8];
                if (b >> ((i % 8) as u8)) & 1 != 1 {
                    proof {
                        assert(!mask_bit(self@.tags[t as int].mask, i as int));
                    }
                    return false;
                }
            }
            t = t + 1;
        }
        true
    }

    /// Filters the manifest by a caller-supplied set of required tag
    /// names and returns the retained file records sorted by path.
    ///
    /// A file is retained when, for every tag of the table whose name is
    /// in the required set, the file's inclusion bit is set.  A required
    /// name the table does not know constrains nothing.
    pub fn filter(&self, required: &Vec<String>) -> (r: Vec<InstallEntry>)
        requires
            self.wf(),
        ensures
            sorted_entries(r@.map_values(|e: InstallEntry| e@)),
            r@.map_values(|e: InstallEntry| e@).to_multiset() == selected_of(
                self@,
                required@.map_values(|s: String| s@),
                0,
            ).to_multiset(),
    {
        let ghost req = required@.map_values(|s: String| s@);
        let mut out: Vec<InstallEntry> = Vec::new();
        let mut i: usize = 0;
        proof {
            assert(out@.map_values(|e: InstallEntry| e@).to_multiset() =~= Seq::<
                EntryModel,
            >::empty().to_multiset());
        }
        while i < self.files.len()
            invariant
                i <= self@.files.len(),
                self.wf(),
                req == required@.map_values(|s: String| s@),
                sorted_entries(out@.map_values(|e: InstallEntry| e@)),
                out@.map_values(|e: InstallEntry| e@).to_multiset() == selected_of(
                    self@,
                    req,
                    0,
                ).to_multiset().difference_with(selected_of(self@, req, i as int).to_multiset()),
            decreases self@.files.len() - i,
        {
            proof {
                lemma_selected_of_step(self@, req, i as int);
            }
            if self.entry_satisfies(i, required) {
                let e = &self.files[i];
                let copy = InstallEntry {
                    name_bytes: e.name_bytes.clone(),
                    name: e.name.clone(),
                    key: e.key,
                    size: e.size,
                };
                proof {
                    assert(copy@ == self@.files[i as int]);
                }
                insert_sorted_entry(&mut out, copy);
                proof {
                    lemma_selected_multiset_shift(self@, req, i as int, out@.map_values(
                        |e2: InstallEntry| e2@,
                    ).to_multiset());
                }
            }
            i = i + 1;
        }
        proof {
            assert(selected_of(self@, req, i as int) =~= Seq::<EntryModel>::empty());
            assert(selected_of(self@, req, i as int).to_multiset() =~= Multiset::<
                EntryModel,
            >::empty());
            lemma_selected_diff_empty(self@, req, out@.map_values(|e: InstallEntry| e@).to_multiset());
        }
        out
    }
}

/// Whether a record is one of the manifest's files at an index whose
/// inclusion bits satisfy the required tag set.
pub open spec fn entry_from_satisfying(m: InstallModel, req: Seq<Seq<char>>, e: EntryModel) -> bool {
    exists|j: int| 0 <= j < m.files.len() && e == #[trigger] m.files[j] && satisfies(m, j, req)
}

/// Every file the filter retains is one of the manifest's files, at an
/// index whose inclusion bits satisfy the required tag set.
pub proof fn lemma_selected_satisfy(m: InstallModel, req: Seq<Seq<char>>, i: int)
    requires
        0 <= i <= m.files.len(),
    ensures
        forall|k: int|
            0 <= k < selected_of(m, req, i).len() ==> entry_from_satisfying(
                m,
                req,
                #[trigger] selected_of(m, req, i)[k],
            ),
    decreases m.files.len() - i,
{
    if i < m.files.len() {
        lemma_selected_satisfy(m, req, i + 1);
        lemma_selected_of_step(m, req, i);
        let s = selected_of(m, req, i);
        let rest = selected_of(m, req, i + 1);
        assert forall|k: int| 0 <= k < s.len() implies entry_from_satisfying(
            m,
            req,
            #[trigger] s[k],
        ) by {
            if satisfies(m, i, req) {
                if k == 0 {
                    assert(s[0] == m.files[i] && satisfies(m, i, req));
                } else {
                    assert(s[k] == rest[k - 1]);
                }
            } else {
                assert(s[k] == rest[k]);
            }
        }
    } else {
        assert(selected_of(m, req, i) =~= Seq::<EntryModel>::empty());
    }
}

proof fn lemma_selected_of_step(m: InstallModel, req: Seq<Seq<char>>, i: int)
    requires
        0 <= i < m.files.len(),
    ensures
        satisfies(m, i, req) ==> selected_of(m, req, i) == seq![m.files[i]] + selected_of(
            m,
            req,
            i + 1,
        ),
        !satisfies(m, i, req) ==> selected_of(m, req, i) == selected_of(m, req, i + 1),
{
    if !satisfies(m, i, req) {
        assert(selected_of(m, req, i) =~= Seq::<EntryModel>::empty() + selected_of(m, req, i + 1));
        assert(Seq::<EntryModel>::empty() + selected_of(m, req, i + 1) =~= selected_of(
            m,
            req,
            i + 1,
        ));
    }
}

proof fn lemma_selected_multiset_shift(
    m: InstallModel,
    req: Seq<Seq<char>>,
    i: int,
    after: Multiset<EntryModel>,
)
    requires
        0 <= i < m.files.len(),
        satisfies(m, i, req),
        after == selected_of(m, req, 0).to_multiset().difference_with(
            selected_of(m, req, i).to_multiset(),
        ).insert(m.files[i]),
    ensures
        after == selected_of(m, req, 0).to_multiset().difference_with(
            selected_of(m, req, i + 1).to_multiset(),
        ),
{
    lemma_selected_of_step(m, req, i);
    lemma_selected_prefix_le(m, req, i);
    let s0 = selected_of(m, req, 0).to_multiset();
    let si = selected_of(m, req, i).to_multiset();
    let si1 = selected_of(m, req, i + 1).to_multiset();
    assert(selected_of(m, req, i) =~= seq![m.files[i]] + selected_of(m, req, i + 1));
    vstd::seq_lib::lemma_multiset_commutative(seq![m.files[i]], selected_of(m, req, i + 1));
    assert(seq![m.files[i]].to_multiset() =~= Multiset::<EntryModel>::empty().insert(m.files[i]))
        by {
        broadcast use to_multiset_build;

        assert(seq![m.files[i]] =~= Seq::<EntryModel>::empty().push(m.files[i]));
        assert(Seq::<EntryModel>::empty().to_multiset() =~= Multiset::<EntryModel>::empty());
    }
    assert(si =~= si1.insert(m.files[i]));
    assert(after =~= s0.difference_with(si1));
}

/// Everything still to be selected from `i` on is contained, with
/// multiplicity, in everything selected from the start.
proof fn lemma_selected_prefix_le(m: InstallModel, req: Seq<Seq<char>>, i: int)
    requires
        0 <= i <= m.files.len(),
    ensures
        selected_of(m, req, i).to_multiset().subset_of(selected_of(m, req, 0).to_multiset()),
    decreases i,
{
    if i == 0 {
    } else {
        lemma_selected_prefix_le(m, req, i - 1);
        if i - 1 < m.files.len() {
            lemma_selected_of_step(m, req, i - 1);
            if satisfies(m, i - 1, req) {
                vstd::seq_lib::lemma_multiset_commutative(
                    seq![m.files[i - 1]],
                    selected_of(m, req, i),
                );
            }
        } else {
            assert(selected_of(m, req, i) =~= Seq::<EntryModel>::empty());
            assert(selected_of(m, req, i - 1) =~= Seq::<EntryModel>::empty());
        }
    }
}

proof fn lemma_selected_diff_empty(m: InstallModel, req: Seq<Seq<char>>, acc: Multiset<EntryModel>)
    requires
        acc == selected_of(m, req, 0).to_multiset().difference_with(
            Multiset::<EntryModel>::empty(),
        ),
    ensures
        acc == selected_of(m, req, 0).to_multiset(),
{
    assert(acc =~= selected_of(m, req, 0).to_multiset());
}


proof fn lemma_nul_here(d: Seq<u8>, pos: int, p: int)
    requires
        0 <= pos <= p < d.len(),
        d[p] == 0,
        forall|j: int| pos <= j < p ==> d[j] != 0,
    ensures
        find_nul(d.skip(pos)) == p - pos,
{
    let t = d.skip(pos);
    assert forall|j: int| 0 <= j < p - pos implies t[j] != 0 by {
        assert(t[j] == d[pos + j]);
    }
    assert(t[p - pos] == 0);
    lemma_find_nul_at(t, p - pos);
}

proof fn lemma_nul_none(d: Seq<u8>, pos: int)
    requires
        0 <= pos <= d.len(),
        forall|j: int| pos <= j < d.len() ==> d[j] != 0,
    ensures
        find_nul(d.skip(pos)) == -1,
{
    let t = d.skip(pos);
    assert forall|j: int| 0 <= j < t.len() implies t[j] != 0 by {
        assert(t[j] == d[pos + j]);
    }
    lemma_find_nul_none(t);
}

proof fn lemma_tags_from_shape(d: Seq<u8>, pos: int, n: int, mask_len: int)
    requires
        mask_len >= 0,
    ensures
        tags_from(d, pos, n, mask_len) matches Ok(pair) ==> pair.0.len() == (if n >= 0 {
            n
        } else {
            0
        }) && forall|t: int| 0 <= t < pair.0.len() ==> (#[trigger] pair.0[t]).mask.len()
            == mask_len,
    decreases n,
{
    if n > 0 && tags_from(d, pos, n, mask_len) is Ok {
        let f = find_nul(d.skip(pos));
        let pos2 = pos + f + 1;
        lemma_tags_from_shape(d, pos2 + 2 + mask_len, n - 1, mask_len);
        let pair = tags_from(d, pos, n, mask_len)->Ok_0;
        let rest = tags_from(d, pos2 + 2 + mask_len, n - 1, mask_len)->Ok_0;
        assert forall|t: int| 0 <= t < pair.0.len() implies (#[trigger] pair.0[t]).mask.len()
            == mask_len by {
            if t == 0 {
                assert(pair.0[0].mask == d.subrange(pos2 + 2, pos2 + 2 + mask_len));
            } else {
                assert(pair.0[t] == rest.0[t - 1]);
            }
        }
    }
}

proof fn lemma_files_from_len(d: Seq<u8>, pos: int, n: int)
    ensures
        files_from(d, pos, n) matches Ok(pair) ==> pair.0.len() == (if n >= 0 {
            n
        } else {
            0
        }),
    decreases n,
{
    if n > 0 && files_from(d, pos, n) is Ok {
        let f = find_nul(d.skip(pos));
        lemma_files_from_len(d, pos + f + 1 + 20, n - 1);
    }
}

proof fn lemma_roots_of_step(files: Seq<EntryModel>, i: int)
    requires
        0 <= i < files.len(),
    ensures
        !has_sep(files[i].name_bytes) ==> roots_of(files, i) == seq![files[i].name_bytes]
            + roots_of(files, i + 1),
        has_sep(files[i].name_bytes) ==> roots_of(files, i) == roots_of(files, i + 1),
{
    if has_sep(files[i].name_bytes) {
        assert(roots_of(files, i) =~= Seq::<Seq<u8>>::empty() + roots_of(files, i + 1));
        assert(Seq::<Seq<u8>>::empty() + roots_of(files, i + 1) =~= roots_of(files, i + 1));
    }
}

proof fn lemma_roots_prefix_le(files: Seq<EntryModel>, i: int)
    requires
        0 <= i <= files.len(),
    ensures
        roots_of(files, i).to_multiset().subset_of(roots_of(files, 0).to_multiset()),
    decreases i,
{
    if i > 0 {
        lemma_roots_prefix_le(files, i - 1);
        if i - 1 < files.len() {
            lemma_roots_of_step(files, i - 1);
            if !has_sep(files[i - 1].name_bytes) {
                vstd::seq_lib::lemma_multiset_commutative(
                    seq![files[i - 1].name_bytes],
                    roots_of(files, i),
                );
            }
        } else {
            assert(roots_of(files, i) =~= Seq::<Seq<u8>>::empty());
            assert(roots_of(files, i - 1) =~= Seq::<Seq<u8>>::empty());
        }
    }
}

proof fn lemma_roots_multiset_shift(files: Seq<EntryModel>, i: int, after: Multiset<Seq<u8>>)
    requires
        0 <= i < files.len(),
        !has_sep(files[i].name_bytes),
        after == roots_of(files, 0).to_multiset().difference_with(
            roots_of(files, i).to_multiset(),
        ).insert(files[i].name_bytes),
    ensures
        after == roots_of(files, 0).to_multiset().difference_with(
            roots_of(files, i + 1).to_multiset(),
        ),
{
    lemma_roots_of_step(files, i);
    lemma_roots_prefix_le(files, i);
    let si = roots_of(files, i).to_multiset();
    let si1 = roots_of(files, i + 1).to_multiset();
    assert(roots_of(files, i) =~= seq![files[i].name_bytes] + roots_of(files, i + 1));
    vstd::seq_lib::lemma_multiset_commutative(seq![files[i].name_bytes], roots_of(files, i + 1));
    assert(seq![files[i].name_bytes].to_multiset() =~= Multiset::<Seq<u8>>::empty().insert(
        files[i].name_bytes,
    )) by {
        assert(seq![files[i].name_bytes] =~= Seq::<Seq<u8>>::empty().push(files[i].name_bytes));
        assert(Seq::<Seq<u8>>::empty().to_multiset() =~= Multiset::<Seq<u8>>::empty());
    }
    assert(si =~= si1.insert(files[i].name_bytes));
    assert(after =~= roots_of(files, 0).to_multiset().difference_with(si1));
}

/// Whether a path holds the separator byte.
fn has_sep_exec(b: &[u8]) -> (r: bool)
    ensures
        r == has_sep(b@),
{
    let mut k: usize = 0;
    while k < b.len()
        invariant
            k <= b@.len(),
            forall|j: int| 0 <= j < k ==> b@[j] != 0x5c,
        decreases b@.len() - k,
    {
        if b[k] == 0x5c {
            return true;
        }
        k = k + 1;
    }
    false
}

/// Parses an install manifest: the tag table, then every file record; the
/// root names (paths without a separator) come out sorted by byte order.
pub fn parse(data: &[u8]) -> (r: Result<Install, CascError>)
    ensures
        match r {
            Ok(inst) => install_parse_spec(data@) == Ok::<(Seq<TagModel>, Seq<EntryModel>), CascError>(
                (inst@.tags, inst@.files),
            ) && inst.wf() && sorted_lex_seqs(inst@.root_bytes)
                && inst@.root_bytes.to_multiset() == roots_of(inst@.files, 0).to_multiset()
                && inst@.root_names.len() == inst@.root_bytes.len() && forall|k: int|
                0 <= k < inst@.root_names.len() ==> inst@.root_names[k] == lossy_of(
                    #[trigger] inst@.root_bytes[k],
                ),
            Err(e) => install_parse_spec(data@) == Err::<(Seq<TagModel>, Seq<EntryModel>), CascError>(
                e,
            ),
        },
{
    let ghost d = data@;
    let dlen = data.len();
    proof {
        lemma_pow256_small();
    }
    if dlen < 16 {
        return Err(CascError::Truncated);
    }
    if read_be(data, 0, 2) != 0x494e {
        return Err(CascError::FormatError);
    }
    if data[2] != 1 {
        return Err(CascError::FormatError);
    }
    let n_tags = read_be(data, 4, 2) as usize;
    let n_files64 = read_be(data, 6, 4) as u64;
    let mask_len = ((n_files64 + 7) / 8) as usize;
    let ghost mli = mask_len as int;
    let ghost nfi = n_files64 as int;
    let mut tags: Vec<InstallTag> = Vec::new();
    let mut pos: usize = 10;
    let mut t: usize = 0;
    proof {
        if tags_from(d, 10, n_tags as int, mli) is Ok {
            let pair = tags_from(d, 10, n_tags as int, mli)->Ok_0;
            assert(tags@.map_values(|x: InstallTag| x@) + pair.0 =~= pair.0);
        }
    }
    while t < n_tags
        invariant
            d == data@,
            dlen == d.len(),
            16 <= dlen,
            be_at(d, 0, 2) == 0x494e,
            d[2] == 1,
            n_tags == be_at(d, 4, 2),
            n_files64 == be_at(d, 6, 4),
            mli == mask_len as int,
            nfi == n_files64 as int,
            mli == (nfi + 7) / 8,
            mask_len <= 0x20000000,
            t <= n_tags,
            pos <= dlen,
            tags@.len() == t,
            match tags_from(d, pos as int, n_tags - t, mli) {
                Ok(pair) => tags_from(d, 10, n_tags as int, mli) == Ok::<
                    (Seq<TagModel>, int),
                    CascError,
                >((tags@.map_values(|x: InstallTag| x@) + pair.0, pair.1)),
                Err(e) => tags_from(d, 10, n_tags as int, mli) == Err::<
                    (Seq<TagModel>, int),
                    CascError,
                >(e),
            },
        decreases n_tags - t,
    {
        proof {
            lemma_pow256_small();
        }
        match find_nul_range(data, pos) {
            None => {
                proof {
                    lemma_nul_none(d, pos as int);
                }
                return Err(CascError::Truncated);
            },
            Some(p) => {
                proof {
                    lemma_nul_here(d, pos as int, p as int);
                }
                let pos2 = p + 1;
                if dlen - pos2 < 2 + mask_len {
                    return Err(CascError::Truncated);
                }
                let name_b = slice_to_vec(&data[pos..p]);
                let name_s = lossy_string(&data[pos..p]);
                let ty = read_be(data, pos2, 2) as u16;
                let mask = slice_to_vec(&data[pos2 + 2..pos2 + 2 + mask_len]);
                let tag = InstallTag { name_bytes: name_b, name: name_s, ty, mask };
                proof {
                    let tm = TagModel {
                        name_bytes: d.subrange(pos as int, pos + (p - pos)),
                        name: lossy_of(d.subrange(pos as int, pos + (p - pos))),
                        ty: be_at(d, pos2 as int, 2) as u16,
                        mask: d.subrange(pos2 + 2, pos2 + 2 + mli),
                    };
                    assert(tag@ == tm);
                    let rest_res = tags_from(d, pos2 + 2 + mli, n_tags - t - 1, mli);
                    if rest_res is Ok {
                        assert(tags@.map_values(|x: InstallTag| x@) + (seq![tm]
                            + rest_res->Ok_0.0) =~= tags@.push(tag).map_values(
                            |x: InstallTag| x@,
                        ) + rest_res->Ok_0.0);
                    }
                }
                tags.push(tag);
                pos = pos2 + 2 + mask_len;
                t = t + 1;
            },
        }
    }
    proof {
        assert(tags_from(d, pos as int, 0, mli) == Ok::<(Seq<TagModel>, int), CascError>((
            Seq::empty(),
            pos as int,
        )));
        assert(tags@.map_values(|x: InstallTag| x@) + Seq::<TagModel>::empty() =~= tags@.map_values(
            |x: InstallTag| x@,
        ));
    }
    let mut files: Vec<InstallEntry> = Vec::new();
    let mut j64: u64 = 0;
    proof {
        if files_from(d, pos as int, nfi) is Ok {
            let pair = files_from(d, pos as int, nfi)->Ok_0;
            assert(files@.map_values(|x: InstallEntry| x@) + pair.0 =~= pair.0);
        }
    }
    let ghost tpos: int = pos as int;
    while j64 < n_files64
        invariant
            d == data@,
            dlen == d.len(),
            16 <= dlen,
            be_at(d, 0, 2) == 0x494e,
            d[2] == 1,
            n_tags == be_at(d, 4, 2),
            n_files64 == be_at(d, 6, 4),
            mli == (nfi + 7) / 8,
            nfi == n_files64 as int,
            tags_from(d, 10, n_tags as int, mli) is Ok,
            tags@.map_values(|x: InstallTag| x@) == tags_from(d, 10, n_tags as int, mli)->Ok_0.0,
            tpos == tags_from(d, 10, n_tags as int, mli)->Ok_0.1,
            j64 <= n_files64,
            pos <= dlen,
            files@.len() == j64,
            match files_from(d, pos as int, nfi - j64) {
                Ok(pair) => files_from(d, tpos, nfi) == Ok::<(Seq<EntryModel>, int), CascError>((
                    files@.map_values(|x: InstallEntry| x@) + pair.0,
                    pair.1,
                )),
                Err(e) => files_from(d, tpos, nfi) == Err::<(Seq<EntryModel>, int), CascError>(e),
            },
        decreases n_files64 - j64,
    {
        proof {
            lemma_pow256_small();
        }
        match find_nul_range(data, pos) {
            None => {
                proof {
                    lemma_nul_none(d, pos as int);
                }
                return Err(CascError::Truncated);
            },
            Some(p) => {
                proof {
                    lemma_nul_here(d, pos as int, p as int);
                }
                let pos2 = p + 1;
                if dlen - pos2 < 20 {
                    return Err(CascError::Truncated);
                }
                let name_b = slice_to_vec(&data[pos..p]);
                let name_s = lossy_string(&data[pos..p]);
                let key = read_be(data, pos2, 16);
                let size = read_be(data, pos2 + 16, 4) as u32;
                let entry = InstallEntry { name_bytes: name_b, name: name_s, key: Key(key), size };
                proof {
                    let em = EntryModel {
                        name_bytes: d.subrange(pos as int, pos + (p - pos)),
                        name: lossy_of(d.subrange(pos as int, pos + (p - pos))),
                        key: be_at(d, pos2 as int, 16) as u128,
                        size: be_at(d, pos2 + 16, 4) as u32,
                    };
                    assert(entry@ == em);
                    let rest_res = files_from(d, pos2 + 20, nfi - j64 - 1);
                    if rest_res is Ok {
                        assert(files@.map_values(|x: InstallEntry| x@) + (seq![em]
                            + rest_res->Ok_0.0) =~= files@.push(entry).map_values(
                            |x: InstallEntry| x@,
                        ) + rest_res->Ok_0.0);
                    }
                }
                files.push(entry);
                pos = pos2 + 20;
                j64 = j64 + 1;
            },
        }
    }
    proof {
        assert(files_from(d, pos as int, nfi - j64) == Ok::<(Seq<EntryModel>, int), CascError>((
            Seq::empty(),
            pos as int,
        )));
        assert(files@.map_values(|x: InstallEntry| x@) + Seq::<EntryModel>::empty()
            =~= files@.map_values(|x: InstallEntry| x@));
    }
    let ghost filesm = files@.map_values(|x: InstallEntry| x@);
    let mut root_bytes: Vec<Vec<u8>> = Vec::new();
    let mut i: usize = 0;
    proof {
        assert(root_bytes@.map_values(|v: Vec<u8>| v@).to_multiset() =~= Seq::<
            Seq<u8>,
        >::empty().to_multiset());
    }
    while i < files.len()
        invariant
            filesm == files@.map_values(|x: InstallEntry| x@),
            i <= files@.len(),
            sorted_lex_seqs(root_bytes@.map_values(|v: Vec<u8>| v@)),
            root_bytes@.map_values(|v: Vec<u8>| v@).to_multiset() == roots_of(
                filesm,
                0,
            ).to_multiset().difference_with(roots_of(filesm, i as int).to_multiset()),
        decreases files@.len() - i,
    {
        proof {
            lemma_roots_of_step(filesm, i as int);
        }
        if !has_sep_exec(files[i].name_bytes.as_slice()) {
            let copy = files[i].name_bytes.clone();
            insert_sorted_bytes(&mut root_bytes, copy);
            proof {
                lemma_roots_multiset_shift(filesm, i as int, root_bytes@.map_values(
                    |v: Vec<u8>| v@,
                ).to_multiset());
            }
        }
        i = i + 1;
    }
    proof {
        assert(roots_of(filesm, i as int) =~= Seq::<Seq<u8>>::empty());
        assert(roots_of(filesm, i as int).to_multiset() =~= Multiset::<Seq<u8>>::empty());
        assert(root_bytes@.map_values(|v: Vec<u8>| v@).to_multiset() =~= roots_of(
            filesm,
            0,
        ).to_multiset());
    }
    let mut root_names: Vec<String> = Vec::new();
    let mut k: usize = 0;
    while k < root_bytes.len()
        invariant
            k <= root_bytes@.len(),
            root_names@.len() == k,
            forall|q: int|
                0 <= q < k ==> (#[trigger] root_names@[q])@ == lossy_of(root_bytes@[q]@),
        decreases root_bytes@.len() - k,
    {
        let s = lossy_string(root_bytes[k].as_slice());
        root_names.push(s);
        k = k + 1;
    }
    let inst = Install { tags, files, root_bytes, root_names };
    proof {
        lemma_tags_from_shape(d, 10, n_tags as int, mli);
        lemma_files_from_len(d, tpos, nfi);
        assert(inst@.tags =~= tags_from(d, 10, n_tags as int, mli)->Ok_0.0);
        assert(inst@.files =~= files_from(d, tpos, nfi)->Ok_0.0);
        assert(install_parse_spec(d) == Ok::<(Seq<TagModel>, Seq<EntryModel>), CascError>((
            inst@.tags,
            inst@.files,
        )));
    }
    Ok(inst)
}

} // verus!
