//! Big-endian encoding of the integers stored in asset packs.
use vstd::prelude::*;

verus! {

/// 256 to the power of `n`.
pub open spec fn pow256(n: nat) -> nat
    decreases n,
{
    if n == 0 { 1 } else { 256 * pow256((n - 1) as nat) }
}

/// The number that the big-endian bytes `s` stand for.
pub open spec fn be_value(s: Seq<u8>) -> nat
    decreases s.len(),
{
    if s.len() == 0 {
        0
    } else {
        be_value(s.drop_last()) * 256 + s.last() as nat
    }
}

/// The `n` big-endian bytes of `x` (the low `n` bytes when `x` does not fit).
pub open spec fn be_bytes(x: nat, n: nat) -> Seq<u8>
    decreases n,
{
    if n == 0 {
        seq![]
    } else {
        be_bytes(x / 256, (n - 1) as nat).push((x % 256) as u8)
    }
}

/// `n` bytes hold exactly the numbers below `256^n`.
pub proof fn lemma_be_value_bound(s: Seq<u8>)
    ensures
        be_value(s) < pow256(s.len()),
    decreases s.len(),
{
    if s.len() > 0 {
        lemma_be_value_bound(s.drop_last());
    }
}

/// Encoding a number that fits into `n` bytes and decoding the bytes gives it back.
pub proof fn lemma_be_roundtrip(x: nat, n: nat)
    requires
        x < pow256(n),
    ensures
        be_bytes(x, n).len() == n,
        be_value(be_bytes(x, n)) == x,
    decreases n,
{
    if n > 0 {
        assert(x / 256 < pow256((n - 1) as nat));
        lemma_be_roundtrip(x / 256, (n - 1) as nat);
        let b = be_bytes(x, n);
        assert(b.drop_last() =~= be_bytes(x / 256, (n - 1) as nat));
    }
}

/// Decoding `n` bytes and encoding the number gives the bytes back.
pub proof fn lemma_be_bytes_of_value(s: Seq<u8>)
    ensures
        be_bytes(be_value(s), s.len()) == s,
    decreases s.len(),
{
    if s.len() > 0 {
        lemma_be_bytes_of_value(s.drop_last());
        let v = be_value(s);
        assert(v / 256 == be_value(s.drop_last()));
        assert(v % 256 == s.last());
        assert(be_bytes(v, s.len()) =~= s.drop_last().push(s.last()));
        assert(s.drop_last().push(s.last()) =~= s);
    }
}

/// 256^2 and 256^8, the ranges of `u16` and `u64`.
pub proof fn lemma_pow256_values()
    ensures
        pow256(2) == 0x1_0000,
        pow256(8) == 0x1_0000_0000_0000_0000,
{
    reveal_with_fuel(pow256, 9);
}

/// The big-endian bytes of a `u16`, as `u16::to_be_bytes` gives them.
pub fn u16_to_be_bytes(x: u16) -> (r: [u8; 2])
    ensures
        r@ == be_bytes(x as nat, 2),
{
    let r: [u8; 2] = [(x / 256) as u8, (x % 256) as u8];
    assert(r@ =~= be_bytes(x as nat, 2)) by {
        reveal_with_fuel(be_bytes, 3);
    }
    r
}

/// The `u16` that two big-endian bytes stand for, as `u16::from_be_bytes` gives it.
pub fn u16_from_be_bytes(b: &[u8]) -> (r: u16)
    requires
        b@.len() == 2,
    ensures
        r as nat == be_value(b@),
{
    proof {
        reveal_with_fuel(be_value, 3);
        assert(b@.drop_last().drop_last() =~= Seq::<u8>::empty());
        assert(b@.drop_last() =~= seq![b@[0]]);
    }
    (b[0] as u16) * 256 + (b[1] as u16)
}

/// The big-endian bytes of a `u64`, as `u64::to_be_bytes` gives them.
pub fn u64_to_be_bytes(x: u64) -> (r: Vec<u8>)
    ensures
        r@ == be_bytes(x as nat, 8),
{
    let mut r: Vec<u8> = Vec::new();
    let mut i: usize = 0;
    proof {
        lemma_pow256_monotone(0, 8);
    }
    assert(r@ =~= be_bytes(x as nat / pow256(8), 0));
    while i < 8
        invariant
            i <= 8,
            r@ == be_bytes(x as nat / pow256((8 - i) as nat), i as nat),
            pow256((8 - i) as nat) >= 1,
        decreases 8 - i,
    {
        let shift_div = pow256_u64((7 - i) as u32);
        proof {
            lemma_pow256_monotone(0, (7 - i) as nat);
        }
        let byte: u8 = ((x / shift_div) % 256) as u8;
        proof {
            lemma_div_div(x as nat, pow256((7 - i) as nat));
        }
        r.push(byte);
        i = i + 1;
        proof {
            let k = (8 - i) as nat;
            lemma_pow256_monotone(0, k);
            assert(x as nat / pow256(k) / 256 == x as nat / pow256((k + 1) as nat)) by {
                lemma_div_div(x as nat, pow256(k));
            }
            assert(r@ =~= be_bytes(x as nat / pow256(k), (i - 1) as nat + 1)) by {
                reveal_with_fuel(be_bytes, 2);
            }
        }
    }
    assert(pow256(0) == 1);
    assert(x as nat / pow256(0) == x as nat);
    r
}

/// `256^n` as a `u64`, for `n` below 8.
fn pow256_u64(n: u32) -> (r: u64)
    requires
        n < 8,
    ensures
        r as nat == pow256(n as nat),
    decreases n,
{
    if n == 0 {
        1
    } else {
        let p = pow256_u64(n - 1);
        proof {
            lemma_pow256_monotone((n - 1) as nat, 7);
            lemma_pow256_values();
            reveal_with_fuel(pow256, 9);
        }
        p * 256
    }
}

/// `256^m <= 256^n` for `m <= n`.
pub proof fn lemma_pow256_monotone(m: nat, n: nat)
    requires
        m <= n,
    ensures
        pow256(m) <= pow256(n),
        pow256(m) >= 1,
    decreases n,
{
    if n > m {
        lemma_pow256_monotone(m, (n - 1) as nat);
    } else if n > 0 {
        lemma_pow256_monotone(0, (n - 1) as nat);
    }
}

/// Dividing by `d` and then by 256 is dividing by `256 * d`.
proof fn lemma_div_div(x: nat, d: nat)
    requires
        d >= 1,
    ensures
        x / d / 256 == x / (d * 256),
{
    vstd::arithmetic::div_mod::lemma_div_denominator(x as int, d as int, 256);
}

/// The `u64` that eight big-endian bytes stand for, as `u64::from_be_bytes` gives it.
pub fn u64_from_be_bytes(b: &[u8]) -> (r: u64)
    requires
        b@.len() == 8,
    ensures
        r as nat == be_value(b@),
{
    let mut acc: u64 = 0;
    let mut i: usize = 0;
    while i < 8
        invariant
            i <= 8,
            b@.len() == 8,
            acc as nat == be_value(b@.subrange(0, i as int)),
        decreases 8 - i,
    {
        proof {
            lemma_be_value_bound(b@.subrange(0, i as int));
            lemma_pow256_monotone(i as nat, 7);
            lemma_pow256_values();
            assert(pow256(7) * 256 == pow256(8)) by {
                reveal_with_fuel(pow256, 9);
            }
            assert(b@.subrange(0, i + 1).drop_last() =~= b@.subrange(0, i as int));
        }
        acc = acc * 256 + (b[i] as u64);
        i = i + 1;
    }
    assert(b@.subrange(0, 8) =~= b@);
    acc
}

} // verus!
