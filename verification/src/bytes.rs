//! Little-endian encoding of integers into byte sequences, and back.

use vstd::prelude::*;

verus! {

/// The `n` low-order bytes of `v`, least significant first.
pub open spec fn le_bytes(v: u64, n: nat) -> Seq<u8>
    decreases n,
{
    if n == 0 {
        Seq::empty()
    } else {
        seq![(v % 256) as u8] + le_bytes(v / 256, (n - 1) as nat)
    }
}

/// The number that `bytes` spells, least significant byte first.
pub open spec fn le_value(bytes: Seq<u8>) -> nat
    decreases bytes.len(),
{
    if bytes.len() == 0 {
        0
    } else {
        bytes[0] as nat + 256 * le_value(bytes.drop_first())
    }
}

/// `bytes` with the positions from `offset` on overwritten by `enc`.
pub open spec fn with_field(bytes: Seq<u8>, offset: int, enc: Seq<u8>) -> Seq<u8> {
    Seq::new(
        bytes.len(),
        |i: int|
            if offset <= i < offset + enc.len() {
                enc[i - offset]
            } else {
                bytes[i]
            },
    )
}

/// An encoding of `n` bytes is `n` bytes long.
pub proof fn lemma_le_bytes_len(v: u64, n: nat)
    ensures
        le_bytes(v, n).len() == n,
    decreases n,
{
    if n > 0 {
        lemma_le_bytes_len(v / 256, (n - 1) as nat);
    }
}

/// A value below `256^len` is bounded by the bytes that spell it.
pub proof fn lemma_le_value_bound(bytes: Seq<u8>)
    requires
        bytes.len() <= 8,
    ensures
        le_value(bytes) < pow256(bytes.len()),
    decreases bytes.len(),
{
    if bytes.len() > 0 {
        lemma_le_value_bound(bytes.drop_first());
    }
}

/// 256 to the power `n`.
pub open spec fn pow256(n: nat) -> nat
    decreases n,
{
    if n == 0 {
        1
    } else {
        256 * pow256((n - 1) as nat)
    }
}

/// Overwrites `n` bytes of `storage` at `offset` with the little-endian
/// encoding of `v`.
pub fn store_le(storage: &mut Vec<u8>, offset: usize, v: u64, n: usize)
    requires
        offset + n <= old(storage).len(),
    ensures
        final(storage)@ == with_field(old(storage)@, offset as int, le_bytes(v, n as nat)),
{
    let mut rest: u64 = v;
    let mut k: usize = 0;
    proof {
        lemma_le_bytes_len(v, n as nat);
    }
    while k < n
        invariant
            k <= n,
            offset + n <= storage.len(),
            storage.len() == old(storage).len(),
            le_bytes(v, n as nat).len() == n,
            le_bytes(v, n as nat) =~= le_bytes(v, n as nat).subrange(0, k as int) + le_bytes(
                rest,
                (n - k) as nat,
            ),
            forall|i: int|
                0 <= i < storage.len() ==> storage@[i] == if offset <= i < offset + k {
                    le_bytes(v, n as nat)[i - offset]
                } else {
                    old(storage)@[i]
                },
        decreases n - k,
    {
        let b: u8 = (rest % 256) as u8;
        proof {
            let full = le_bytes(v, n as nat);
            let tail = le_bytes(rest, (n - k) as nat);
            lemma_le_bytes_len(rest / 256, (n - k - 1) as nat);
            assert(tail[0] == b);
            assert(full[k as int] == tail[0]);
            assert(full =~= full.subrange(0, k + 1) + le_bytes(rest / 256, (n - k - 1) as nat)) by {
                assert forall|i: int| 0 <= i < n implies full[i] == (full.subrange(0, k + 1)
                    + le_bytes(rest / 256, (n - k - 1) as nat))[i] by {
                    if i > k {
                        assert(full[i] == tail[i - k]);
                        assert(tail[i - k] == le_bytes(rest / 256, (n - k - 1) as nat)[i - k - 1]);
                    }
                }
            }
        }
        storage.set(offset + k, b);
        rest = rest / 256;
        k = k + 1;
    }
    assert(storage@ =~= with_field(old(storage)@, offset as int, le_bytes(v, n as nat)));
}

/// Reads the number that the `n` bytes of `bytes` at `offset` spell.
pub fn load_le(bytes: &[u8], offset: usize, n: usize) -> (v: u64)
    requires
        offset + n <= bytes.len(),
        n <= 8,
    ensures
        v == le_value(bytes@.subrange(offset as int, offset + n)),
{
    let mut v: u64 = 0;
    let mut k: usize = n;
    assert(bytes@.subrange(offset + n, offset + n).len() == 0);
    while k > 0
        invariant
            k <= n <= 8,
            offset + n <= bytes.len(),
            v == le_value(bytes@.subrange(offset + k, offset + n)),
        decreases k,
    {
        k = k - 1;
        proof {
            let cur = bytes@.subrange(offset + k, offset + n);
            let prev = bytes@.subrange(offset + k + 1, offset + n);
            assert(cur.drop_first() =~= prev);
            assert(cur[0] == bytes@[offset + k]);
            lemma_le_value_bound(prev);
            lemma_pow256_values();
            assert(pow256(prev.len()) <= pow256(7)) by {
                lemma_pow256_monotone(prev.len(), 7);
            }
        }
        v = v * 256 + bytes[offset + k] as u64;
    }
    v
}

/// The powers of 256 that fit in eight bytes.
pub proof fn lemma_pow256_values()
    ensures
        pow256(0) == 1,
        pow256(1) == 0x100,
        pow256(2) == 0x1_0000,
        pow256(4) == 0x1_0000_0000,
        pow256(7) == 0x100_0000_0000_0000,
        pow256(8) == 0x1_0000_0000_0000_0000,
{
    reveal_with_fuel(pow256, 10);
}

/// `pow256` does not decrease as the exponent grows.
pub proof fn lemma_pow256_monotone(a: nat, b: nat)
    requires
        a <= b,
    ensures
        pow256(a) <= pow256(b),
    decreases b,
{
    if a < b {
        lemma_pow256_monotone(a, (b - 1) as nat);
    }
}

} // verus!
