use vstd::prelude::*;
use vstd::slice::slice_to_vec;

verus! {

/// What String::from_utf8_lossy turns a byte sequence into.
///
/// The replacement rules for ill-formed sequences are part of the Unicode
/// standard, so the value is left uninterpreted; it depends on the bytes
/// alone, and on valid UTF-8 it agrees with the exact decoding.
pub uninterp spec fn lossy_of(b: Seq<u8>) -> Seq<char>;

/// Relies on String::from_utf8 of std: it succeeds exactly on valid UTF-8
/// and decodes it, as vstd's UTF-8 model states.
#[verifier::external_body]
pub fn utf8_string(b: &[u8]) -> (r: Option<String>)
    ensures
        match r {
            Some(s) => vstd::utf8::valid_utf8(b@) && s@ == vstd::utf8::decode_utf8(b@),
            None => !vstd::utf8::valid_utf8(b@),
        },
{
    String::from_utf8(b.to_vec()).ok()
}

/// Relies on String::from_utf8_lossy of std: the result depends on the
/// bytes alone, and valid UTF-8 converts without replacement.
#[verifier::external_body]
pub fn lossy_string(b: &[u8]) -> (r: String)
    ensures
        r@ == lossy_of(b@),
        vstd::utf8::valid_utf8(b@) ==> r@ == vstd::utf8::decode_utf8(b@),
{
    String::from_utf8_lossy(b).into_owned()
}

/// The index of the first NUL byte, or -1 if there is none.
pub open spec fn find_nul(s: Seq<u8>) -> int
    decreases s.len(),
{
    if s.len() == 0 {
        -1
    } else if s[0] == 0 {
        0
    } else {
        let r = find_nul(s.drop_first());
        if r < 0 {
            -1
        } else {
            r + 1
        }
    }
}

pub proof fn lemma_find_nul_none(s: Seq<u8>)
    requires
        forall|j: int| 0 <= j < s.len() ==> s[j] != 0,
    ensures
        find_nul(s) == -1,
    decreases s.len(),
{
    if s.len() > 0 {
        lemma_find_nul_none(s.drop_first());
    }
}

pub proof fn lemma_find_nul_at(s: Seq<u8>, i: int)
    requires
        0 <= i < s.len(),
        s[i] == 0,
        forall|j: int| 0 <= j < i ==> s[j] != 0,
    ensures
        find_nul(s) == i,
    decreases s.len(),
{
    if i > 0 {
        lemma_find_nul_at(s.drop_first(), i - 1);
    }
}

/// The index of the first occurrence of `x`, or -1 if there is none.
pub open spec fn find_byte(s: Seq<u8>, x: u8) -> int
    decreases s.len(),
{
    if s.len() == 0 {
        -1
    } else if s[0] == x {
        0
    } else {
        let r = find_byte(s.drop_first(), x);
        if r < 0 {
            -1
        } else {
            r + 1
        }
    }
}

pub proof fn lemma_find_byte_none(s: Seq<u8>, x: u8)
    requires
        forall|j: int| 0 <= j < s.len() ==> s[j] != x,
    ensures
        find_byte(s, x) == -1,
    decreases s.len(),
{
    if s.len() > 0 {
        lemma_find_byte_none(s.drop_first(), x);
    }
}

pub proof fn lemma_find_byte_at(s: Seq<u8>, x: u8, i: int)
    requires
        0 <= i < s.len(),
        s[i] == x,
        forall|j: int| 0 <= j < i ==> s[j] != x,
    ensures
        find_byte(s, x) == i,
    decreases s.len(),
{
    if i > 0 {
        lemma_find_byte_at(s.drop_first(), x, i - 1);
    }
}

/// Finds the first occurrence of `x` at or after `start`.
pub fn find_byte_range(data: &[u8], start: usize, x: u8) -> (r: Option<usize>)
    requires
        start <= data@.len(),
    ensures
        match r {
            Some(p) => start <= p < data@.len() && data@[p as int] == x && forall|j: int|
                start <= j < p ==> data@[j] != x,
            None => forall|j: int| start <= j < data@.len() ==> data@[j] != x,
        },
{
    let mut p = start;
    while p < data.len()
        invariant
            start <= p <= data@.len(),
            forall|j: int| start <= j < p ==> data@[j] != x,
        decreases data@.len() - p,
    {
        if data[p] == x {
            return Some(p);
        }
        p = p + 1;
    }
    None
}

/// The pieces between NUL separators: `n` separators give `n + 1` pieces.
pub open spec fn split_nul(s: Seq<u8>) -> Seq<Seq<u8>>
    decreases s.len(),
{
    let i = find_nul(s);
    if i < 0 || i + 1 > s.len() {
        seq![s]
    } else {
        seq![s.take(i)] + split_nul(s.skip(i + 1))
    }
}

/// Finds the first NUL byte at or after `start`.
pub fn find_nul_range(data: &[u8], start: usize) -> (r: Option<usize>)
    requires
        start <= data@.len(),
    ensures
        match r {
            Some(p) => start <= p < data@.len() && data@[p as int] == 0 && forall|j: int|
                start <= j < p ==> data@[j] != 0,
            None => forall|j: int| start <= j < data@.len() ==> data@[j] != 0,
        },
{
    let mut p = start;
    while p < data.len()
        invariant
            start <= p <= data@.len(),
            forall|j: int| start <= j < p ==> data@[j] != 0,
        decreases data@.len() - p,
    {
        if data[p] == 0 {
            return Some(p);
        }
        p = p + 1;
    }
    None
}

/// Splits a byte string on NUL separators, keeping empty pieces.
pub fn split_nul_exec(block: &[u8]) -> (r: Vec<Vec<u8>>)
    ensures
        r@.map_values(|v: Vec<u8>| v@) == split_nul(block@),
{
    let mut pieces: Vec<Vec<u8>> = Vec::new();
    let mut start: usize = 0;
    let mut p: usize = 0;
    proof {
        assert(block@.skip(0) =~= block@);
        assert(pieces@.map_values(|v: Vec<u8>| v@) + split_nul(block@) =~= split_nul(block@));
    }
    while p < block.len()
        invariant
            start <= p <= block@.len(),
            forall|j: int| start <= j < p ==> block@[j] != 0,
            split_nul(block@) == pieces@.map_values(|v: Vec<u8>| v@) + split_nul(
                block@.skip(start as int),
            ),
        decreases block@.len() - p,
    {
        if block[p] == 0 {
            let piece = slice_to_vec(&block[start..p]);
            proof {
                let tail = block@.skip(start as int);
                assert forall|j: int| 0 <= j < p - start implies tail[j] != 0 by {
                    assert(tail[j] == block@[start + j]);
                }
                assert(tail[p - start] == 0);
                lemma_find_nul_at(tail, p - start);
                assert(tail.take(p - start) =~= block@.subrange(start as int, p as int));
                assert(tail.skip(p - start + 1) =~= block@.skip(p + 1));
                assert(pieces@.map_values(|v: Vec<u8>| v@) + (seq![tail.take(p - start)]
                    + split_nul(block@.skip(p + 1))) =~= pieces@.push(piece).map_values(
                    |v: Vec<u8>| v@,
                ) + split_nul(block@.skip(p + 1)));
            }
            pieces.push(piece);
            start = p + 1;
        }
        p = p + 1;
    }
    let last = slice_to_vec(&block[start..block.len()]);
    proof {
        let tail = block@.skip(start as int);
        assert forall|j: int| 0 <= j < tail.len() implies tail[j] != 0 by {
            assert(tail[j] == block@[start + j]);
        }
        lemma_find_nul_none(tail);
        assert(tail =~= block@.subrange(start as int, block@.len() as int));
        assert(pieces@.map_values(|v: Vec<u8>| v@) + seq![tail] =~= pieces@.push(
            last,
        ).map_values(|v: Vec<u8>| v@));
    }
    let mut pieces = pieces;
    pieces.push(last);
    pieces
}

/// The pieces between occurrences of `x`: `n` separators give `n + 1`
/// pieces.
pub open spec fn split_byte(s: Seq<u8>, x: u8) -> Seq<Seq<u8>>
    decreases s.len(),
{
    let i = find_byte(s, x);
    if i < 0 || i + 1 > s.len() {
        seq![s]
    } else {
        seq![s.take(i)] + split_byte(s.skip(i + 1), x)
    }
}

/// Splits a byte string on a separator byte, keeping empty pieces.
pub fn split_byte_exec(block: &[u8], x: u8) -> (r: Vec<Vec<u8>>)
    ensures
        r@.map_values(|v: Vec<u8>| v@) == split_byte(block@, x),
{
    let mut pieces: Vec<Vec<u8>> = Vec::new();
    let mut start: usize = 0;
    let mut p: usize = 0;
    proof {
        assert(block@.skip(0) =~= block@);
        assert(pieces@.map_values(|v: Vec<u8>| v@) + split_byte(block@, x) =~= split_byte(
            block@,
            x,
        ));
    }
    while p < block.len()
        invariant
            start <= p <= block@.len(),
            forall|j: int| start <= j < p ==> block@[j] != x,
            split_byte(block@, x) == pieces@.map_values(|v: Vec<u8>| v@) + split_byte(
                block@.skip(start as int),
                x,
            ),
        decreases block@.len() - p,
    {
        if block[p] == x {
            let piece = slice_to_vec(&block[start..p]);
            proof {
                let tail = block@.skip(start as int);
                assert forall|j: int| 0 <= j < p - start implies tail[j] != x by {
                    assert(tail[j] == block@[start + j]);
                }
                assert(tail[p - start] == x);
                lemma_find_byte_at(tail, x, p - start);
                assert(tail.take(p - start) =~= block@.subrange(start as int, p as int));
                assert(tail.skip(p - start + 1) =~= block@.skip(p + 1));
                assert(pieces@.map_values(|v: Vec<u8>| v@) + (seq![tail.take(p - start)]
                    + split_byte(block@.skip(p + 1), x)) =~= pieces@.push(piece).map_values(
                    |v: Vec<u8>| v@,
                ) + split_byte(block@.skip(p + 1), x));
            }
            pieces.push(piece);
            start = p + 1;
        }
        p = p + 1;
    }
    let last = slice_to_vec(&block[start..block.len()]);
    proof {
        let tail = block@.skip(start as int);
        assert forall|j: int| 0 <= j < tail.len() implies tail[j] != x by {
            assert(tail[j] == block@[start + j]);
        }
        lemma_find_byte_none(tail, x);
        assert(tail =~= block@.subrange(start as int, block@.len() as int));
        assert(pieces@.map_values(|v: Vec<u8>| v@) + seq![tail] =~= pieces@.push(last).map_values(
            |v: Vec<u8>| v@,
        ));
    }
    let mut pieces = pieces;
    pieces.push(last);
    pieces
}

/// Whether two byte strings hold the same bytes.
pub fn bytes_eq(a: &[u8], b: &[u8]) -> (r: bool)
    ensures
        r == (a@ == b@),
{
    if a.len() != b.len() {
        proof {
            assert(a@.len() != b@.len());
        }
        return false;
    }
    let mut i: usize = 0;
    while i < a.len()
        invariant
            i <= a@.len(),
            a@.len() == b@.len(),
            forall|j: int| 0 <= j < i ==> a@[j] == b@[j],
        decreases a@.len() - i,
    {
        if a[i] != b[i] {
            return false;
        }
        i = i + 1;
    }
    proof {
        assert(a@ =~= b@);
    }
    true
}

/// Byte-wise lexicographic order; the prefix orders before its extension.
pub open spec fn lex_le(a: Seq<u8>, b: Seq<u8>) -> bool
    decreases a.len(),
{
    if a.len() == 0 {
        true
    } else if b.len() == 0 {
        false
    } else if a[0] < b[0] {
        true
    } else if a[0] > b[0] {
        false
    } else {
        lex_le(a.drop_first(), b.drop_first())
    }
}

pub proof fn lemma_lex_le_total(a: Seq<u8>, b: Seq<u8>)
    ensures
        lex_le(a, b) || lex_le(b, a),
    decreases a.len(),
{
    if a.len() > 0 && b.len() > 0 && a[0] == b[0] {
        lemma_lex_le_total(a.drop_first(), b.drop_first());
    }
}

pub proof fn lemma_lex_le_trans(a: Seq<u8>, b: Seq<u8>, c: Seq<u8>)
    requires
        lex_le(a, b),
        lex_le(b, c),
    ensures
        lex_le(a, c),
    decreases a.len(),
{
    if a.len() > 0 && b.len() > 0 && c.len() > 0 && a[0] == b[0] && b[0] == c[0] {
        lemma_lex_le_trans(a.drop_first(), b.drop_first(), c.drop_first());
    }
}

/// Compares two byte strings in lexicographic order.
pub fn lex_le_exec(a: &[u8], b: &[u8]) -> (r: bool)
    ensures
        r == lex_le(a@, b@),
{
    let mut i: usize = 0;
    proof {
        assert(a@.skip(0) =~= a@);
        assert(b@.skip(0) =~= b@);
    }
    while i < a.len() && i < b.len()
        invariant
            i <= a@.len(),
            i <= b@.len(),
            lex_le(a@, b@) == lex_le(a@.skip(i as int), b@.skip(i as int)),
        decreases a@.len() - i,
    {
        proof {
            assert(a@.skip(i as int).drop_first() =~= a@.skip(i + 1));
            assert(b@.skip(i as int).drop_first() =~= b@.skip(i + 1));
        }
        if a[i] < b[i] {
            return true;
        }
        if a[i] > b[i] {
            return false;
        }
        i = i + 1;
    }
    proof {
        if i == a@.len() {
            assert(a@.skip(i as int).len() == 0);
        } else {
            assert(b@.skip(i as int).len() == 0);
            assert(a@.skip(i as int).len() > 0);
        }
    }
    a.len() <= b.len()
}

} // verus!
