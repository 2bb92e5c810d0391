//! Little-endian integer encoding, as used by both the ELF and the ABO formats.
use vstd::prelude::*;
use vstd::arithmetic::div_mod::lemma_mod_breakdown;

verus! {

/// `256` raised to the power `n`.
pub open spec fn pow256(n: nat) -> nat
    decreases n,
{
    if n == 0 {
        1
    } else {
        256 * pow256((n - 1) as nat)
    }
}

/// The unsigned value of a little-endian byte sequence.
pub open spec fn le_value(s: Seq<u8>) -> nat
    decreases s.len(),
{
    if s.len() == 0 {
        0
    } else {
        s[0] as nat + 256 * le_value(s.drop_first())
    }
}

/// The `n` lowest bytes of `v`, least significant first.
pub open spec fn le_bytes(v: nat, n: nat) -> Seq<u8>
    decreases n,
{
    if n == 0 {
        Seq::empty()
    } else {
        seq![(v % 256) as u8] + le_bytes(v / 256, (n - 1) as nat)
    }
}

/// The little-endian value of the `n` bytes of `data` that start at `off`.
pub open spec fn le_at(data: Seq<u8>, off: int, n: int) -> nat {
    le_value(data.subrange(off, off + n))
}

pub proof fn lemma_pow256_values()
    ensures
        pow256(1) == 0x100,
        pow256(2) == 0x1_0000,
        pow256(4) == 0x1_0000_0000,
        pow256(8) == 0x1_0000_0000_0000_0000,
{
    reveal_with_fuel(pow256, 9);
}

pub proof fn lemma_pow256_positive(n: nat)
    ensures
        pow256(n) > 0,
    decreases n,
{
    if n > 0 {
        lemma_pow256_positive((n - 1) as nat);
    }
}

/// Reading one byte more of a little-endian number.
pub proof fn lemma_le_at_step(data: Seq<u8>, off: int, n: int)
    requires
        0 <= off,
        0 < n,
        off + n <= data.len(),
    ensures
        le_at(data, off, n) == data[off] as nat + 256 * le_at(data, off + 1, n - 1),
{
    assert(data.subrange(off, off + n).drop_first() =~= data.subrange(off + 1, off + n));
}

/// Writing `n` little-endian bytes and reading them back gives the value modulo `256^n`.
pub proof fn lemma_le_roundtrip(v: nat, n: nat)
    ensures
        le_bytes(v, n).len() == n,
        le_value(le_bytes(v, n)) == v % pow256(n),
    decreases n,
{
    if n == 0 {
    } else {
        lemma_le_roundtrip(v / 256, (n - 1) as nat);
        lemma_pow256_positive((n - 1) as nat);
        let s = le_bytes(v, n);
        assert(s.drop_first() =~= le_bytes(v / 256, (n - 1) as nat));
        lemma_mod_breakdown(v as int, 256, pow256((n - 1) as nat) as int);
    }
}

/// A value below `256^n` survives a write of `n` little-endian bytes and a read.
pub proof fn lemma_le_roundtrip_exact(v: nat, n: nat)
    requires
        v < pow256(n),
    ensures
        le_bytes(v, n).len() == n,
        le_value(le_bytes(v, n)) == v,
{
    lemma_le_roundtrip(v, n);
    vstd::arithmetic::div_mod::lemma_small_mod(v, pow256(n));
}

/// Reads the little-endian `u16` at `off`.
pub fn read_u16_le(data: &[u8], off: usize) -> (r: u16)
    requires
        off + 2 <= data@.len(),
    ensures
        r == le_at(data@, off as int, 2),
{
    proof {
        lemma_le_at_step(data@, off as int, 2);
        lemma_le_at_step(data@, off + 1, 1);
        assert(data@.subrange(off + 2, off + 2) =~= Seq::<u8>::empty());
    }
    (data[off] as u16) + (data[off + 1] as u16) * 256
}

/// Reads the little-endian `u32` at `off`.
pub fn read_u32_le(data: &[u8], off: usize) -> (r: u32)
    requires
        off + 4 <= data@.len(),
    ensures
        r == le_at(data@, off as int, 4),
{
    proof {
        lemma_le_at_step(data@, off as int, 4);
        lemma_le_at_step(data@, off + 1, 3);
        lemma_le_at_step(data@, off + 2, 2);
        lemma_le_at_step(data@, off + 3, 1);
        assert(data@.subrange(off + 4, off + 4) =~= Seq::<u8>::empty());
    }
    let len = data.len();
    assert(off + 4 <= len);
    let mut r: u32 = data[off + 3] as u32;
    r = r * 256 + data[off + 2] as u32;
    r = r * 256 + data[off + 1] as u32;
    r = r * 256 + data[off] as u32;
    r
}

/// Reads the little-endian `u64` at `off`.
pub fn read_u64_le(data: &[u8], off: usize) -> (r: u64)
    requires
        off + 8 <= data@.len(),
    ensures
        r == le_at(data@, off as int, 8),
{
    proof {
        lemma_le_at_step(data@, off as int, 8);
        lemma_le_at_step(data@, off + 1, 7);
        lemma_le_at_step(data@, off + 2, 6);
        lemma_le_at_step(data@, off + 3, 5);
        lemma_le_at_step(data@, off + 4, 4);
        lemma_le_at_step(data@, off + 5, 3);
        lemma_le_at_step(data@, off + 6, 2);
        lemma_le_at_step(data@, off + 7, 1);
        assert(data@.subrange(off + 8, off + 8) =~= Seq::<u8>::empty());
    }
    let len = data.len();
    assert(off + 8 <= len);
    let mut r: u64 = data[off + 7] as u64;
    r = r * 256 + data[off + 6] as u64;
    r = r * 256 + data[off + 5] as u64;
    r = r * 256 + data[off + 4] as u64;
    r = r * 256 + data[off + 3] as u64;
    r = r * 256 + data[off + 2] as u64;
    r = r * 256 + data[off + 1] as u64;
    r = r * 256 + data[off] as u64;
    r
}

/// Appends the `n` lowest bytes of `v` to `out`, least significant first.
pub fn push_le(out: &mut Vec<u8>, v: u64, n: usize)
    ensures
        final(out)@ == old(out)@ + le_bytes(v as nat, n as nat),
{
    let mut cur: u64 = v;
    let mut i: usize = 0;
    while i < n
        invariant
            i <= n,
            out@ + le_bytes(cur as nat, (n - i) as nat) == old(out)@ + le_bytes(v as nat, n as nat),
        decreases n - i,
    {
        let ghost before = out@;
        let ghost k = (n - i) as nat;
        out.push((cur % 256) as u8);
        proof {
            assert(le_bytes(cur as nat, k) == seq![(cur % 256) as u8] + le_bytes(
                (cur / 256) as nat,
                (k - 1) as nat,
            ));
            assert(out@ + le_bytes((cur / 256) as nat, (k - 1) as nat) =~= before + le_bytes(
                cur as nat,
                k,
            ));
        }
        cur = cur / 256;
        i = i + 1;
    }
    assert(out@ + le_bytes(cur as nat, 0) =~= out@);
}

} // verus!

verus! {

/// Appends the bytes of `src` to `out`.
pub fn append_bytes(out: &mut Vec<u8>, src: &[u8])
    ensures
        final(out)@ == old(out)@ + src@,
{
    let n = src.len();
    assert(src@.take(0) =~= Seq::<u8>::empty());
    assert(out@ =~= old(out)@ + src@.take(0));
    for i in 0..n
        invariant
            n == src@.len(),
            out@ == old(out)@ + src@.take(i as int),
    {
        out.push(src[i]);
        assert(out@ =~= old(out)@ + src@.take(i + 1));
    }
    assert(src@.take(n as int) =~= src@);
}

} // verus!
