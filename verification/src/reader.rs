use vstd::arithmetic::div_mod::lemma_div_denominator;
use vstd::prelude::*;

verus! {

/// 256 to the power `n`: the number of values an `n`-byte field can take.
pub open spec fn pow256(n: nat) -> nat
    decreases n,
{
    if n == 0 {
        1
    } else {
        256 * pow256((n - 1) as nat)
    }
}

/// The unsigned value of a byte sequence read most significant byte first.
pub open spec fn be_val(s: Seq<u8>) -> nat
    decreases s.len(),
{
    if s.len() == 0 {
        0
    } else {
        (be_val(s.drop_last()) * 256 + s.last()) as nat
    }
}

/// The unsigned value of a byte sequence read least significant byte first.
pub open spec fn le_val(s: Seq<u8>) -> nat
    decreases s.len(),
{
    if s.len() == 0 {
        0
    } else {
        (s.first() + 256 * le_val(s.drop_first())) as nat
    }
}

/// Big-endian value of the `n` bytes of `s` starting at `pos`.
pub open spec fn be_at(s: Seq<u8>, pos: int, n: int) -> nat {
    be_val(s.subrange(pos, pos + n))
}

/// Little-endian value of the `n` bytes of `s` starting at `pos`.
pub open spec fn le_at(s: Seq<u8>, pos: int, n: int) -> nat {
    le_val(s.subrange(pos, pos + n))
}

pub proof fn lemma_be_val_bound(s: Seq<u8>)
    ensures
        be_val(s) < pow256(s.len()),
    decreases s.len(),
{
    if s.len() > 0 {
        lemma_be_val_bound(s.drop_last());
    }
}

pub proof fn lemma_pow256_16()
    ensures
        pow256(16) == 0x100000000000000000000000000000000int,
{
    reveal_with_fuel(pow256, 17);
}

pub proof fn lemma_pow256_15()
    ensures
        pow256(15) == 0x1000000000000000000000000000000int,
{
    reveal_with_fuel(pow256, 16);
}

pub proof fn lemma_pow256_small()
    ensures
        pow256(0) == 1,
        pow256(1) == 0x100,
        pow256(2) == 0x10000int,
        pow256(3) == 0x1000000int,
        pow256(4) == 0x100000000int,
        pow256(5) == 0x10000000000int,
        pow256(8) == 0x10000000000000000int,
{
    reveal_with_fuel(pow256, 9);
}

pub proof fn lemma_pow256_le(a: nat, b: nat)
    requires
        a <= b,
    ensures
        pow256(a) <= pow256(b),
    decreases b,
{
    if a < b && b > 0 {
        lemma_pow256_le(a, (b - 1) as nat);
    }
}

/// Reads the `n`-byte big-endian field of `data` at `pos`.
pub fn read_be(data: &[u8], pos: usize, n: usize) -> (r: u128)
    requires
        n <= 16,
        pos + n <= data@.len(),
    ensures
        r == be_at(data@, pos as int, n as int),
        r < pow256(n as nat),
{
    let dlen = data.len();
    let mut acc: u128 = 0;
    let mut i: usize = 0;
    proof {
        assert(data@.subrange(pos as int, pos as int) =~= Seq::<u8>::empty());
    }
    while i < n
        invariant
            n <= 16,
            pos + n <= data@.len(),
            i <= n,
            acc == be_val(data@.subrange(pos as int, pos + i)),
            acc < pow256(i as nat),
            dlen == data@.len(),
        decreases n - i,
    {
        proof {
            assert(data@.subrange(pos as int, pos + i + 1).drop_last() =~= data@.subrange(
                pos as int,
                pos + i,
            ));
            lemma_pow256_le((i + 1) as nat, 16);
            lemma_pow256_16();
        }
        acc = acc * 256 + (data[pos + i] as u128);
        i = i + 1;
    }
    proof {
        lemma_pow256_le(n as nat, 16);
        lemma_pow256_16();
    }
    acc
}

/// Reads the `n`-byte little-endian field of `data` at `pos`.
pub fn read_le(data: &[u8], pos: usize, n: usize) -> (r: u128)
    requires
        n <= 16,
        pos + n <= data@.len(),
    ensures
        r == le_at(data@, pos as int, n as int),
        r < pow256(n as nat),
{
    let dlen = data.len();
    let mut acc: u128 = 0;
    let mut i: usize = n;
    proof {
        assert(data@.subrange(pos + n, pos + n) =~= Seq::<u8>::empty());
    }
    while i > 0
        invariant
            n <= 16,
            pos + n <= data@.len(),
            i <= n,
            acc == le_val(data@.subrange(pos + i, pos + n)),
            acc < pow256((n - i) as nat),
            dlen == data@.len(),
        decreases i,
    {
        proof {
            assert(data@.subrange(pos + i - 1, pos + n).drop_first() =~= data@.subrange(
                pos + i,
                pos + n,
            ));
            lemma_pow256_le((n - i + 1) as nat, 16);
            lemma_pow256_16();
        }
        acc = (data[pos + i - 1] as u128) + acc * 256;
        i = i - 1;
    }
    acc
}

/// The big-endian byte expansion of a 128-bit value: byte `i` holds the
/// bits weighted `pow256(15 - i)`.
pub open spec fn u128_be_bytes_spec(x: u128) -> Seq<u8> {
    Seq::new(16, |i: int| ((x as nat / pow256((15 - i) as nat)) % 256) as u8)
}

/// Expands a 128-bit value into its 16 big-endian bytes.
pub fn u128_be_bytes(x: u128) -> (r: Vec<u8>)
    ensures
        r@ == u128_be_bytes_spec(x),
        r@.len() == 16,
        be_val(r@) == x,
{
    let mut v: Vec<u8> = Vec::new();
    let mut div: u128 = 0x1000000000000000000000000000000;
    proof {
        lemma_pow256_15();
        lemma_pow256_16();
        assert(x as nat / pow256(16) == 0);
    }
    let mut i: usize = 0;
    while i < 16
        invariant
            i <= 16,
            i < 16 ==> div == pow256((15 - i) as nat),
            v@.len() == i,
            v@ =~= u128_be_bytes_spec(x).take(i as int),
            be_val(v@) == x as nat / pow256((16 - i) as nat),
        decreases 16 - i,
    {
        proof {
            lemma_pow256_le(0, (15 - i) as nat);
        }
        let b: u8 = ((x / div) % 256) as u8;
        proof {
            let p15 = pow256((15 - i) as nat);
            let p16 = pow256((16 - i) as nat);
            assert(p16 == 256 * p15);
            lemma_div_denominator(x as int, p15 as int, 256);
            assert((x as nat / p15) / 256 == x as nat / p16);
            assert(v@.push(b).drop_last() =~= v@);
            assert(be_val(v@.push(b)) == (x as nat / p16) * 256 + ((x as nat / p15) % 256));
            assert((x as nat / p15) / 256 * 256 + ((x as nat / p15) % 256) == x as nat / p15);
            assert(v@.push(b) =~= u128_be_bytes_spec(x).take(i + 1));
        }
        v.push(b);
        if i < 15 {
            div = div / 256;
            proof {
                let p = pow256((15 - i) as nat);
                assert(p == 256 * pow256((14 - i) as nat));
            }
        }
        i = i + 1;
    }
    proof {
        assert(pow256(0) == 1);
        assert(be_val(v@) == x as nat / 1nat);
        assert(x as nat / 1nat == x as nat) by (nonlinear_arith);
        assert(v@ =~= u128_be_bytes_spec(x));
    }
    v
}

} // verus!
