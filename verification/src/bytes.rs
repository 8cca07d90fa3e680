//! Big-endian (network byte order) integer fields: reading them from a byte
//! slice, and the sequence-level facts the decoder's contracts rest on.

use vstd::prelude::*;

verus! {

/// The value of a byte sequence read as a big-endian unsigned integer.
pub open spec fn be_value(s: Seq<u8>) -> nat
    decreases s.len(),
{
    if s.len() == 0 {
        0
    } else {
        be_value(s.drop_last()) * 256 + (s.last() as nat)
    }
}

/// `256^n`: the number of distinct values an `n`-byte field can carry.
pub open spec fn pow256(n: nat) -> nat
    decreases n,
{
    if n == 0 {
        1
    } else {
        256 * pow256((n - 1) as nat)
    }
}

pub proof fn lemma_pow256_pos(n: nat)
    ensures
        pow256(n) >= 1,
    decreases n,
{
    if n > 0 {
        lemma_pow256_pos((n - 1) as nat);
    }
}

pub proof fn lemma_pow256_increases(a: nat, b: nat)
    requires
        a <= b,
    ensures
        pow256(a) <= pow256(b),
    decreases b,
{
    if a < b {
        lemma_pow256_increases(a, (b - 1) as nat);
        lemma_pow256_pos((b - 1) as nat);
    }
}

/// An `n`-byte field holds a value below `256^n`.
pub proof fn lemma_be_value_bound(s: Seq<u8>)
    ensures
        be_value(s) < pow256(s.len()),
    decreases s.len(),
{
    if s.len() > 0 {
        lemma_be_value_bound(s.drop_last());
    }
}

/// The `count`-byte big-endian representation of `v`.
pub open spec fn be_bytes(v: nat, count: nat) -> Seq<u8>
    decreases count,
{
    if count == 0 {
        Seq::empty()
    } else {
        be_bytes(v / 256, (count - 1) as nat).push((v % 256) as u8)
    }
}

pub proof fn lemma_be_bytes_len(v: nat, count: nat)
    ensures
        be_bytes(v, count).len() == count,
    decreases count,
{
    if count > 0 {
        lemma_be_bytes_len(v / 256, (count - 1) as nat);
    }
}

/// Writing a value that fits in `count` bytes and reading it back is the
/// identity.
pub proof fn lemma_be_value_of_be_bytes(v: nat, count: nat)
    requires
        v < pow256(count),
    ensures
        be_value(be_bytes(v, count)) == v,
    decreases count,
{
    if count > 0 {
        lemma_pow256_pos((count - 1) as nat);
        assert(v / 256 < pow256((count - 1) as nat)) by (nonlinear_arith)
            requires
                v < 256 * pow256((count - 1) as nat),
                pow256((count - 1) as nat) >= 1,
        ;
        lemma_be_value_of_be_bytes(v / 256, (count - 1) as nat);
        let rest = be_bytes(v / 256, (count - 1) as nat);
        assert(rest.push((v % 256) as u8).drop_last() =~= rest);
        assert(v % 256 < 256) by (nonlinear_arith);
        assert(v == 256 * (v / 256) + v % 256) by {
            vstd::arithmetic::div_mod::lemma_fundamental_div_mod(v as int, 256);
        }
    }
}

/// Read `count` bytes starting at `start` as one big-endian unsigned integer.
pub fn read_be(bytes: &[u8], start: usize, count: usize) -> (r: u64)
    requires
        count <= 8,
        start + count <= bytes@.len(),
    ensures
        r == be_value(bytes@.subrange(start as int, start + count)),
{
    let total = bytes.len();
    let mut acc: u64 = 0;
    let mut i: usize = 0;
    while i < count
        invariant
            i <= count <= 8,
            start + count <= total == bytes@.len(),
            acc == be_value(bytes@.subrange(start as int, start + i)),
            acc < pow256(i as nat),
        decreases count - i,
    {
        proof {
            lemma_pow256_increases(i as nat, 7);
            assert(pow256(7) == 0x100_0000_0000_0000) by {
                reveal_with_fuel(pow256, 8);
            }
            let prefix = bytes@.subrange(start as int, start + i);
            let extended = bytes@.subrange(start as int, start + i + 1);
            assert(extended.drop_last() =~= prefix);
            assert(extended.last() == bytes@[start + i]);
        }
        let b = bytes[start + i];
        acc = acc * 256 + (b as u64);
        i = i + 1;
    }
    acc
}

} // verus!
