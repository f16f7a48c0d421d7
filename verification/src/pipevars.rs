use crate::text::{find_byte, lemma_find_byte_at, lemma_find_byte_none, lossy_of, lossy_string,
    split_byte, split_byte_exec, bytes_eq};
use vstd::prelude::*;
use vstd::slice::slice_to_vec;

verus! {

/// Whitespace the field trimming removes: space, tab, carriage return.
pub open spec fn is_ws(b: u8) -> bool {
    b == 0x20 || b == 0x09 || b == 0x0d
}

pub open spec fn trim_start(s: Seq<u8>) -> Seq<u8>
    decreases s.len(),
{
    if s.len() > 0 && is_ws(s[0]) {
        trim_start(s.drop_first())
    } else {
        s
    }
}

pub open spec fn trim_end(s: Seq<u8>) -> Seq<u8>
    decreases s.len(),
{
    if s.len() > 0 && is_ws(s.last()) {
        trim_end(s.drop_last())
    } else {
        s
    }
}

/// A field with surrounding whitespace removed.
pub open spec fn trim(s: Seq<u8>) -> Seq<u8> {
    trim_end(trim_start(s))
}

/// A line with a trailing carriage return removed.
pub open spec fn strip_cr(s: Seq<u8>) -> Seq<u8> {
    if s.len() > 0 && s.last() == 0x0d {
        s.drop_last()
    } else {
        s
    }
}

/// The lines of a text: pieces between newline bytes, each without its
/// trailing carriage return; a final newline ends the last line rather
/// than opening an empty one.
pub open spec fn lines_of(s: Seq<u8>) -> Seq<Seq<u8>>
    decreases s.len(),
{
    if s.len() == 0 {
        Seq::empty()
    } else {
        let i = find_byte(s, 0x0a);
        if i < 0 || i + 1 > s.len() {
            seq![strip_cr(s)]
        } else {
            seq![strip_cr(s.take(i))] + lines_of(s.skip(i + 1))
        }
    }
}

/// The trimmed fields of one line, split on the pipe byte.
pub open spec fn fields_of(line: Seq<u8>) -> Seq<Seq<u8>> {
    split_byte(line, 0x7c).map_values(|f: Seq<u8>| trim(f))
}

/// Whether a line opens with two hash marks, the comment prefix.
pub open spec fn is_comment(line: Seq<u8>) -> bool {
    line.len() >= 2 && line[0] == 0x23 && line[1] == 0x23
}

/// The data rows among the lines from `i` on: each line whose field
/// count matches the heading count, and is no comment, as its fields.
pub open spec fn rows_entries(ls: Seq<Seq<u8>>, hcount: int, i: int) -> Seq<Seq<Seq<u8>>>
    decreases ls.len() - i,
{
    if i < 0 || i >= ls.len() {
        Seq::empty()
    } else {
        let parts = fields_of(ls[i]);
        if parts.len() != hcount || is_comment(ls[i]) {
            rows_entries(ls, hcount, i + 1)
        } else {
            seq![parts] + rows_entries(ls, hcount, i + 1)
        }
    }
}

/// The leftover metadata text of the lines from `i` on: every line that
/// is a comment or whose field count differs, newline restored.
pub open spec fn rows_meta(ls: Seq<Seq<u8>>, hcount: int, i: int) -> Seq<u8>
    decreases ls.len() - i,
{
    if i < 0 || i >= ls.len() {
        Seq::empty()
    } else {
        let parts = fields_of(ls[i]);
        if parts.len() != hcount || is_comment(ls[i]) {
            ls[i] + seq![0x0au8] + rows_meta(ls, hcount, i + 1)
        } else {
            rows_meta(ls, hcount, i + 1)
        }
    }
}

/// The mathematical content of a parsed pipe-separated table.
pub ghost struct PipeVarsModel {
    pub headings: Seq<Seq<u8>>,
    pub entries: Seq<Seq<Seq<u8>>>,
    pub meta: Seq<u8>,
}

/// What `load_pipe_separated_vars` makes of a text: the first line's
/// trimmed fields as headings, then one row per matching line.
pub open spec fn pipevars_of(s: Seq<u8>) -> PipeVarsModel {
    let ls = lines_of(s);
    if ls.len() == 0 {
        PipeVarsModel { headings: Seq::empty(), entries: Seq::empty(), meta: Seq::empty() }
    } else {
        let hs = fields_of(ls[0]);
        PipeVarsModel {
            headings: hs,
            entries: rows_entries(ls, hs.len() as int, 1),
            meta: rows_meta(ls, hs.len() as int, 1),
        }
    }
}

/// A parsed pipe-separated variables table: a heading line, data rows
/// with one field per heading, and the metadata lines that fit neither.
#[derive(Debug)]
pub struct PipeSeparatedVars {
    pub heading_fields: Vec<Vec<u8>>,
    pub entry_fields: Vec<Vec<Vec<u8>>>,
    pub meta: Vec<u8>,
}

impl View for PipeSeparatedVars {
    type V = PipeVarsModel;

    open spec fn view(&self) -> PipeVarsModel {
        PipeVarsModel {
            headings: self.heading_fields@.map_values(|v: Vec<u8>| v@),
            entries: self.entry_fields@.map_values(
                |row: Vec<Vec<u8>>| row@.map_values(|v: Vec<u8>| v@),
            ),
            meta: self.meta@,
        }
    }
}

impl PipeSeparatedVars {
    /// The heading names, as text.
    pub fn headings(&self) -> (r: Vec<String>)
        ensures
            r@.len() == self@.headings.len(),
            forall|i: int|
                0 <= i < r@.len() ==> (#[trigger] r@[i])@ == lossy_of(self@.headings[i]),
    {
        let mut out: Vec<String> = Vec::new();
        let mut i: usize = 0;
        while i < self.heading_fields.len()
            invariant
                i <= self.heading_fields@.len(),
                out@.len() == i,
                forall|j: int|
                    0 <= j < i ==> (#[trigger] out@[j])@ == lossy_of(self@.headings[j]),
            decreases self.heading_fields@.len() - i,
        {
            out.push(lossy_string(self.heading_fields[i].as_slice()));
            i = i + 1;
        }
        out
    }

    /// The data rows, as text fields.
    pub fn entries(&self) -> (r: Vec<Vec<String>>)
        ensures
            r@.len() == self@.entries.len(),
            forall|i: int| 0 <= i < r@.len() ==> (#[trigger] r@[i])@.len() == self@.entries[i].len(),
            forall|i: int, j: int|
                0 <= i < r@.len() && 0 <= j < self@.entries[i].len() ==> ((#[trigger] r@[i])@[j])@
                    == lossy_of(#[trigger] self@.entries[i][j]),
    {
        let mut out: Vec<Vec<String>> = Vec::new();
        let mut i: usize = 0;
        while i < self.entry_fields.len()
            invariant
                i <= self.entry_fields@.len(),
                out@.len() == i,
                forall|a: int|
                    0 <= a < i ==> (#[trigger] out@[a])@.len() == self@.entries[a].len(),
                forall|a: int, b: int|
                    0 <= a < i && 0 <= b < self@.entries[a].len() ==> ((#[trigger] out@[a])@[b])@
                        == lossy_of(#[trigger] self@.entries[a][b]),
            decreases self.entry_fields@.len() - i,
        {
            let row = &self.entry_fields[i];
            let mut out_row: Vec<String> = Vec::new();
            let mut j: usize = 0;
            while j < row.len()
                invariant
                    j <= row@.len(),
                    out_row@.len() == j,
                    row@.map_values(|v: Vec<u8>| v@) == self@.entries[i as int],
                    i < self.entry_fields@.len(),
                    forall|b: int|
                        0 <= b < j ==> (#[trigger] out_row@[b])@ == lossy_of(
                            self@.entries[i as int][b],
                        ),
                decreases row@.len() - j,
            {
                out_row.push(lossy_string(row[j].as_slice()));
                j = j + 1;
            }
            out.push(out_row);
            i = i + 1;
        }
        out
    }
}

proof fn lemma_trim_start_at(s: Seq<u8>, a: int)
    requires
        0 <= a <= s.len(),
        forall|j: int| 0 <= j < a ==> is_ws(s[j]),
        a < s.len() ==> !is_ws(s[a]),
    ensures
        trim_start(s) == s.skip(a),
    decreases a,
{
    if a == 0 {
        assert(s.skip(0) =~= s);
    } else {
        lemma_trim_start_at(s.drop_first(), a - 1);
        assert(s.drop_first().skip(a - 1) =~= s.skip(a));
    }
}

proof fn lemma_trim_end_at(s: Seq<u8>, z: int)
    requires
        0 <= z <= s.len(),
        forall|j: int| z <= j < s.len() ==> is_ws(s[j]),
        z > 0 ==> !is_ws(s[z - 1]),
    ensures
        trim_end(s) == s.take(z),
    decreases s.len() - z,
{
    if z == s.len() {
        assert(s.take(z) =~= s);
    } else {
        lemma_trim_end_at(s.drop_last(), z);
        assert(s.drop_last().take(z) =~= s.take(z));
    }
}

/// Trims surrounding whitespace from a field.
fn trim_exec(b: &[u8]) -> (r: Vec<u8>)
    ensures
        r@ == trim(b@),
{
    let blen = b.len();
    let mut a: usize = 0;
    while a < blen && (b[a] == 0x20 || b[a] == 0x09 || b[a] == 0x0d)
        invariant
            a <= blen,
            blen == b@.len(),
            forall|j: int| 0 <= j < a ==> is_ws(b@[j]),
        decreases blen - a,
    {
        a = a + 1;
    }
    proof {
        lemma_trim_start_at(b@, a as int);
    }
    let mut z: usize = blen;
    while z > a && (b[z - 1] == 0x20 || b[z - 1] == 0x09 || b[z - 1] == 0x0d)
        invariant
            a <= z <= blen,
            blen == b@.len(),
            forall|j: int| 0 <= j < a ==> is_ws(b@[j]),
            forall|j: int| z <= j < blen ==> is_ws(b@[j]),
        decreases z,
    {
        z = z - 1;
    }
    let r = slice_to_vec(&b[a..z]);
    proof {
        let t1 = b@.skip(a as int);
        assert forall|j: int| z - a <= j < t1.len() implies is_ws(t1[j]) by {
            assert(t1[j] == b@[a + j]);
        }
        if z > a {
            assert(t1[z - a - 1] == b@[z - 1]);
        }
        lemma_trim_end_at(t1, z - a);
        assert(t1.take(z - a) =~= b@.subrange(a as int, z as int));
    }
    r
}

/// The trimmed fields of one line.
fn fields_exec(line: &[u8]) -> (r: Vec<Vec<u8>>)
    ensures
        r@.map_values(|v: Vec<u8>| v@) == fields_of(line@),
{
    let raw = split_byte_exec(line, 0x7c);
    let mut out: Vec<Vec<u8>> = Vec::new();
    let mut i: usize = 0;
    while i < raw.len()
        invariant
            i <= raw@.len(),
            out@.len() == i,
            raw@.map_values(|v: Vec<u8>| v@) == split_byte(line@, 0x7c),
            forall|j: int|
                0 <= j < i ==> (#[trigger] out@[j])@ == trim(split_byte(line@, 0x7c)[j]),
        decreases raw@.len() - i,
    {
        proof {
            assert(raw@[i as int]@ == split_byte(line@, 0x7c)[i as int]);
        }
        out.push(trim_exec(raw[i].as_slice()));
        i = i + 1;
    }
    proof {
        assert(out@.map_values(|v: Vec<u8>| v@) =~= fields_of(line@));
    }
    out
}

/// Splits a text into its lines, stripping each trailing carriage
/// return.
fn lines_exec(data: &[u8]) -> (r: Vec<Vec<u8>>)
    ensures
        r@.map_values(|v: Vec<u8>| v@) == lines_of(data@),
{
    let mut pieces: Vec<Vec<u8>> = Vec::new();
    let mut start: usize = 0;
    let mut p: usize = 0;
    proof {
        assert(data@.skip(0) =~= data@);
        assert(pieces@.map_values(|v: Vec<u8>| v@) + lines_of(data@) =~= lines_of(data@));
    }
    while p < data.len()
        invariant
            start <= p <= data@.len(),
            forall|j: int| start <= j < p ==> data@[j] != 0x0a,
            lines_of(data@) == pieces@.map_values(|v: Vec<u8>| v@) + lines_of(
                data@.skip(start as int),
            ),
        decreases data@.len() - p,
    {
        if data[p] == 0x0a {
            let end = if p > start && data[p - 1] == 0x0d {
                p - 1
            } else {
                p
            };
            let piece = slice_to_vec(&data[start..end]);
            proof {
                let tail = data@.skip(start as int);
                assert forall|j: int| 0 <= j < p - start implies tail[j] != 0x0a by {
                    assert(tail[j] == data@[start + j]);
                }
                assert(tail[p - start] == 0x0a);
                lemma_find_byte_at(tail, 0x0a, p - start);
                assert(tail.take(p - start) =~= data@.subrange(start as int, p as int));
                assert(strip_cr(tail.take(p - start)) =~= data@.subrange(
                    start as int,
                    end as int,
                ));
                assert(tail.skip(p - start + 1) =~= data@.skip(p + 1));
                assert(pieces@.map_values(|v: Vec<u8>| v@) + (seq![strip_cr(tail.take(p - start))]
                    + lines_of(data@.skip(p + 1))) =~= pieces@.push(piece).map_values(
                    |v: Vec<u8>| v@,
                ) + lines_of(data@.skip(p + 1)));
            }
            pieces.push(piece);
            start = p + 1;
        }
        p = p + 1;
    }
    if start < data.len() {
        let end = if data.len() > start && data[data.len() - 1] == 0x0d {
            data.len() - 1
        } else {
            data.len()
        };
        let piece = slice_to_vec(&data[start..end]);
        proof {
            let tail = data@.skip(start as int);
            assert forall|j: int| 0 <= j < tail.len() implies tail[j] != 0x0a by {
                assert(tail[j] == data@[start + j]);
            }
            lemma_find_byte_none(tail, 0x0a);
            assert(tail.len() > 0);
            assert(strip_cr(tail) =~= data@.subrange(start as int, end as int));
            assert(pieces@.map_values(|v: Vec<u8>| v@) + seq![strip_cr(tail)] =~= pieces@.push(
                piece,
            ).map_values(|v: Vec<u8>| v@));
        }
        pieces.push(piece);
    } else {
        proof {
            assert(data@.skip(start as int).len() == 0);
            assert(lines_of(data@.skip(start as int)) =~= Seq::<Seq<u8>>::empty());
            assert(pieces@.map_values(|v: Vec<u8>| v@) + Seq::<Seq<u8>>::empty() =~= pieces@.map_values(
                |v: Vec<u8>| v@,
            ));
        }
    }
    pieces
}

/// Parses a pipe-separated variables text: the first line names the
/// columns, every later line with a matching field count becomes a row,
/// and the rest is kept aside as metadata.
pub fn load_pipe_separated_vars(backing: &[u8]) -> (r: PipeSeparatedVars)
    ensures
        r@ == pipevars_of(backing@),
{
    let ghost d = backing@;
    let lines = lines_exec(backing);
    if lines.len() == 0 {
        let r = PipeSeparatedVars {
            heading_fields: Vec::new(),
            entry_fields: Vec::new(),
            meta: Vec::new(),
        };
        proof {
            assert(r@.headings =~= pipevars_of(d).headings);
            assert(r@.entries =~= pipevars_of(d).entries);
            assert(r@.meta =~= pipevars_of(d).meta);
        }
        return r;
    }
    let ghost ls = lines@.map_values(|v: Vec<u8>| v@);
    let heading_fields = fields_exec(lines[0].as_slice());
    let ghost hc = heading_fields@.map_values(|v: Vec<u8>| v@).len() as int;
    let hcount = heading_fields.len();
    let mut entry_fields: Vec<Vec<Vec<u8>>> = Vec::new();
    let mut meta: Vec<u8> = Vec::new();
    let mut i: usize = 1;
    proof {
        assert(entry_fields@.map_values(|row: Vec<Vec<u8>>| row@.map_values(|v: Vec<u8>| v@))
            + rows_entries(ls, hc, 1) =~= rows_entries(ls, hc, 1));
        assert(meta@ + rows_meta(ls, hc, 1) =~= rows_meta(ls, hc, 1));
    }
    while i < lines.len()
        invariant
            1 <= i <= lines@.len(),
            ls == lines@.map_values(|v: Vec<u8>| v@),
            hc == heading_fields@.map_values(|v: Vec<u8>| v@).len() as int,
            hcount == heading_fields@.len(),
            hc == hcount as int,
            rows_entries(ls, hc, 1) == entry_fields@.map_values(
                |row: Vec<Vec<u8>>| row@.map_values(|v: Vec<u8>| v@),
            ) + rows_entries(ls, hc, i as int),
            rows_meta(ls, hc, 1) == meta@ + rows_meta(ls, hc, i as int),
        decreases lines@.len() - i,
    {
        let line = &lines[i];
        let parts = fields_exec(line.as_slice());
        let comment = line.len() >= 2 && line[0] == 0x23 && line[1] == 0x23;
        proof {
            assert(line@ == ls[i as int]);
            assert(comment == is_comment(ls[i as int]));
            assert(parts@.map_values(|v: Vec<u8>| v@) == fields_of(ls[i as int]));
        }
        let ghost meta0 = meta@;
        let ghost ef0 = entry_fields@.map_values(
            |row: Vec<Vec<u8>>| row@.map_values(|v: Vec<u8>| v@),
        );
        if parts.len() != hcount || comment {
            proof {
                assert(rows_entries(ls, hc, i as int) == rows_entries(ls, hc, i + 1));
                assert(rows_meta(ls, hc, i as int) == ls[i as int] + seq![0x0au8] + rows_meta(
                    ls,
                    hc,
                    i + 1,
                ));
            }
            let mut line_copy = slice_to_vec(line.as_slice());
            meta.append(&mut line_copy);
            meta.push(0x0a);
            proof {
                assert(meta@ =~= meta0 + (ls[i as int] + seq![0x0au8]));
                assert(meta0 + (ls[i as int] + seq![0x0au8] + rows_meta(ls, hc, i + 1)) =~= (
                meta0 + (ls[i as int] + seq![0x0au8])) + rows_meta(ls, hc, i + 1));
            }
        } else {
            proof {
                assert(rows_entries(ls, hc, i as int) == seq![fields_of(ls[i as int])]
                    + rows_entries(ls, hc, i + 1));
                assert(rows_meta(ls, hc, i as int) == rows_meta(ls, hc, i + 1));
                assert(entry_fields@.push(parts).map_values(
                    |row: Vec<Vec<u8>>| row@.map_values(|v: Vec<u8>| v@),
                ) =~= ef0.push(fields_of(ls[i as int])));
                assert(ef0 + (seq![fields_of(ls[i as int])] + rows_entries(ls, hc, i + 1))
                    =~= ef0.push(fields_of(ls[i as int])) + rows_entries(ls, hc, i + 1));
            }
            entry_fields.push(parts);
        }
        i = i + 1;
    }
    proof {
        assert(rows_entries(ls, hc, i as int) =~= Seq::<Seq<Seq<u8>>>::empty());
        assert(rows_meta(ls, hc, i as int) =~= Seq::<u8>::empty());
        assert(entry_fields@.map_values(|row: Vec<Vec<u8>>| row@.map_values(|v: Vec<u8>| v@))
            + Seq::<Seq<Seq<u8>>>::empty() =~= entry_fields@.map_values(
            |row: Vec<Vec<u8>>| row@.map_values(|v: Vec<u8>| v@),
        ));
        assert(meta@ + Seq::<u8>::empty() =~= meta@);
        assert(ls[0] == lines@[0]@);
    }
    let r = PipeSeparatedVars { heading_fields, entry_fields, meta };
    proof {
        assert(r@.headings == pipevars_of(d).headings);
        assert(r@.entries == pipevars_of(d).entries);
        assert(r@.meta == pipevars_of(d).meta);
    }
    r
}


/// Whether `n` occurs as a contiguous substring of `h`.
pub open spec fn contains_sub(h: Seq<u8>, n: Seq<u8>) -> bool {
    exists|i: int| 0 <= i && i + n.len() <= h.len() && #[trigger] h.subrange(i, i + n.len()) == n
}

/// Whether `n` occurs as a contiguous substring of `h`.
pub fn contains_sub_exec(h: &[u8], n: &[u8]) -> (r: bool)
    ensures
        r == contains_sub(h@, n@),
{
    let hlen = h.len();
    let nlen = n.len();
    if nlen > hlen {
        return false;
    }
    if nlen == 0 {
        proof {
            assert(contains_sub(h@, n@)) by {
                assert(h@.subrange(0, 0 + n@.len() as int) =~= n@);
            }
        }
        return true;
    }
    let mut i: usize = 0;
    while i <= hlen - nlen
        invariant
            hlen == h@.len(),
            nlen == n@.len(),
            1 <= nlen <= hlen,
            i <= hlen - nlen + 1,
            forall|j: int| 0 <= j < i ==> #[trigger] h@.subrange(j, j + n@.len()) != n@,
        decreases hlen - i,
    {
        if bytes_eq(&h[i..i + nlen], n) {
            return true;
        }
        i = i + 1;
    }
    false
}

/// The bytes of the scheme prefix a usable server name must carry.
pub open spec fn https_lit() -> Seq<u8> {
    seq![0x68u8, 0x74, 0x74, 0x70, 0x73, 0x3a, 0x2f, 0x2f]
}

/// The bytes of the first-party host name preferred among the servers.
pub open spec fn blizzard_lit() -> Seq<u8> {
    seq![0x63u8, 0x64, 0x6e, 0x2e, 0x62, 0x6c, 0x69, 0x7a, 0x7a, 0x61, 0x72, 0x64, 0x2e, 0x63,
        0x6f, 0x6d]
}

/// The bytes of the region name the pick is fixed to.
pub open spec fn us_lit() -> Seq<u8> {
    seq![0x75u8, 0x73]
}

/// Whether a server name is usable: secure, and first-party when asked.
pub open spec fn piece_matches(p: Seq<u8>, first_party: bool) -> bool {
    contains_sub(p, https_lit()) && (first_party ==> contains_sub(p, blizzard_lit()))
}

/// The first usable server name from `i` on, or -1.
pub open spec fn find_piece(pieces: Seq<Seq<u8>>, first_party: bool, i: int) -> int
    decreases pieces.len() - i,
{
    if i < 0 || i >= pieces.len() {
        -1
    } else if piece_matches(pieces[i], first_party) {
        i
    } else {
        find_piece(pieces, first_party, i + 1)
    }
}

/// The server name picked from one space-separated server field: the
/// first first-party secure one, else the first secure one, cut at a
/// query marker.
pub open spec fn chosen_url(server_field: Seq<u8>) -> Option<Seq<u8>> {
    let pieces = split_byte(server_field, 0x20);
    let ib = find_piece(pieces, true, 0);
    let ih = find_piece(pieces, false, 0);
    let idx = if ib >= 0 {
        ib
    } else {
        ih
    };
    if idx < 0 {
        None
    } else {
        let u = pieces[idx];
        let q = find_byte(u, 0x3f);
        Some(
            if q < 0 {
                u
            } else {
                u.take(q)
            },
        )
    }
}

/// The first row of the fixed region with enough fields, or -1.
pub open spec fn pick_row(entries: Seq<Seq<Seq<u8>>>, i: int) -> int
    decreases entries.len() - i,
{
    if i < 0 || i >= entries.len() {
        -1
    } else if entries[i].len() >= 4 && entries[i][0] == us_lit() {
        i
    } else {
        pick_row(entries, i + 1)
    }
}

/// What `pick_cdn` returns, over the table's rows: the picked server of
/// the region's first row, with the row's path field and a slash behind.
pub open spec fn pick_cdn_spec(entries: Seq<Seq<Seq<u8>>>) -> Option<Seq<u8>> {
    let r = pick_row(entries, 0);
    if r < 0 {
        None
    } else {
        let row = entries[r];
        match chosen_url(row[3]) {
            None => None,
            Some(u) => Some(u + row[1] + seq![0x2fu8]),
        }
    }
}

proof fn lemma_find_piece_from(pieces: Seq<Seq<u8>>, first_party: bool, k: int, i: int)
    requires
        0 <= k <= i < pieces.len(),
        piece_matches(pieces[i], first_party),
        forall|j: int| k <= j < i ==> !piece_matches(#[trigger] pieces[j], first_party),
    ensures
        find_piece(pieces, first_party, k) == i,
    decreases i - k,
{
    if k < i {
        lemma_find_piece_from(pieces, first_party, k + 1, i);
    }
}

proof fn lemma_find_piece_none(pieces: Seq<Seq<u8>>, first_party: bool, k: int)
    requires
        0 <= k <= pieces.len(),
        forall|j: int| k <= j < pieces.len() ==> !piece_matches(#[trigger] pieces[j], first_party),
    ensures
        find_piece(pieces, first_party, k) == -1,
    decreases pieces.len() - k,
{
    if k < pieces.len() {
        lemma_find_piece_none(pieces, first_party, k + 1);
    }
}

proof fn lemma_pick_row_from(entries: Seq<Seq<Seq<u8>>>, k: int, i: int)
    requires
        0 <= k <= i < entries.len(),
        entries[i].len() >= 4 && entries[i][0] == us_lit(),
        forall|j: int|
            k <= j < i ==> !((#[trigger] entries[j]).len() >= 4 && entries[j][0] == us_lit()),
    ensures
        pick_row(entries, k) == i,
    decreases i - k,
{
    if k < i {
        lemma_pick_row_from(entries, k + 1, i);
    }
}

proof fn lemma_pick_row_none(entries: Seq<Seq<Seq<u8>>>, k: int)
    requires
        0 <= k <= entries.len(),
        forall|j: int|
            k <= j < entries.len() ==> !((#[trigger] entries[j]).len() >= 4 && entries[j][0]
                == us_lit()),
    ensures
        pick_row(entries, k) == -1,
    decreases entries.len() - k,
{
    if k < entries.len() {
        lemma_pick_row_none(entries, k + 1);
    }
}

/// Finds the first usable server name among the pieces.
fn find_piece_exec(pieces: &Vec<Vec<u8>>, needle2: bool) -> (r: Option<usize>)
    ensures
        match r {
            Some(i) => i < pieces@.len() && find_piece(
                pieces@.map_values(|v: Vec<u8>| v@),
                needle2,
                0,
            ) == i as int,
            None => find_piece(pieces@.map_values(|v: Vec<u8>| v@), needle2, 0) == -1,
        },
{
    let ghost pm = pieces@.map_values(|v: Vec<u8>| v@);
    let https: Vec<u8> = vec![0x68u8, 0x74, 0x74, 0x70, 0x73, 0x3a, 0x2f, 0x2f];
    let blizzard: Vec<u8> = vec![0x63u8, 0x64, 0x6e, 0x2e, 0x62, 0x6c, 0x69, 0x7a, 0x7a, 0x61,
        0x72, 0x64, 0x2e, 0x63, 0x6f, 0x6d];
    proof {
        assert(https@ =~= https_lit());
        assert(blizzard@ =~= blizzard_lit());
    }
    let mut i: usize = 0;
    while i < pieces.len()
        invariant
            pm == pieces@.map_values(|v: Vec<u8>| v@),
            https@ == https_lit(),
            blizzard@ == blizzard_lit(),
            i <= pieces@.len(),
            forall|j: int| 0 <= j < i ==> !piece_matches(#[trigger] pm[j], needle2),
        decreases pieces@.len() - i,
    {
        let p = &pieces[i];
        let mut ok = contains_sub_exec(p.as_slice(), https.as_slice());
        if ok && needle2 {
            ok = contains_sub_exec(p.as_slice(), blizzard.as_slice());
        }
        if ok {
            proof {
                lemma_find_piece_from(pm, needle2, 0, i as int);
            }
            return Some(i);
        }
        i = i + 1;
    }
    proof {
        lemma_find_piece_none(pm, needle2, 0);
    }
    None
}

/// Picks the base location of the content store from the server table:
/// the fixed region's first row, its first usable server name (the
/// first-party one preferred), the row's path appended, a slash behind.
pub fn pick_cdn(cdns: &PipeSeparatedVars) -> (r: Option<String>)
    ensures
        match r {
            Some(s) => pick_cdn_spec(cdns@.entries) matches Some(b) && s@ == lossy_of(b),
            None => pick_cdn_spec(cdns@.entries) is None,
        },
{
    let ghost em = cdns@.entries;
    let mut i: usize = 0;
    while i < cdns.entry_fields.len()
        invariant
            em == cdns@.entries,
            i <= cdns.entry_fields@.len(),
            forall|j: int|
                0 <= j < i ==> !((#[trigger] em[j]).len() >= 4 && em[j][0] == us_lit()),
        decreases cdns.entry_fields@.len() - i,
    {
        let row = &cdns.entry_fields[i];
        let ghost rm = row@.map_values(|v: Vec<u8>| v@);
        proof {
            assert(rm == em[i as int]);
        }
        let is_us = row.len() >= 4 && row[0].len() == 2 && row[0][0] == 0x75 && row[0][1] == 0x73;
        proof {
            if row.len() >= 4 && row[0].len() == 2 && row[0][0] == 0x75 && row[0][1] == 0x73 {
                assert(rm[0] =~= us_lit());
            } else if row.len() >= 4 && rm[0] == us_lit() {
                assert(row[0]@.len() == 2);
                assert(row[0]@[0] == 0x75 && row[0]@[1] == 0x73);
            }
        }
        if is_us {
            proof {
                lemma_pick_row_from(em, 0, i as int);
            }
            let pieces = split_byte_exec(row[3].as_slice(), 0x20);
            let idx = match find_piece_exec(&pieces, true) {
                Some(b) => Some(b),
                None => find_piece_exec(&pieces, false),
            };
            match idx {
                None => {
                    return None;
                },
                Some(u_at) => {
                    let u = &pieces[u_at];
                    let end = match crate::text::find_byte_range(u.as_slice(), 0, 0x3f) {
                        None => {
                            proof {
                                lemma_find_byte_none(u@, 0x3f);
                            }
                            u.len()
                        },
                        Some(q) => {
                            proof {
                                lemma_find_byte_at(u@, 0x3f, q as int);
                            }
                            q
                        },
                    };
                    let mut url = slice_to_vec(&u.as_slice()[0..end]);
                    let ghost u2 = url@;
                    url.extend_from_slice(row[1].as_slice());
                    url.push(0x2f);
                    proof {
                        let pm = pieces@.map_values(|v: Vec<u8>| v@);
                        let q = find_byte(pm[u_at as int], 0x3f);
                        assert(u2 =~= (if q < 0 {
                            pm[u_at as int]
                        } else {
                            pm[u_at as int].take(q)
                        }));
                        assert(url@ =~= u2 + rm[1] + seq![0x2fu8]);
                    }
                    return Some(lossy_string(url.as_slice()));
                },
            }
        }
        i = i + 1;
    }
    proof {
        lemma_pick_row_none(em, 0);
    }
    None
}

} // verus!
