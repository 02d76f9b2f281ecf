//! Little-endian integers in byte sequences.
use vstd::prelude::*;

verus! {

/// Little-endian value of `bytes[at..at + n]`.
pub open spec fn le_at(bytes: Seq<u8>, at: int, n: nat) -> int
    decreases n,
{
    if n == 0 {
        0
    } else {
        bytes[at] as int + 256 * le_at(bytes, at + 1, (n - 1) as nat)
    }
}

/// Reads the little-endian value of `bytes[at..at + n]`.
pub fn read_le(bytes: &[u8], at: usize, n: usize) -> (r: u64)
    requires
        n <= 8,
        at + n <= bytes@.len(),
    ensures
        r == le_at(bytes@, at as int, n as nat),
    decreases n,
{
    proof {
        assert(bytes.len() == bytes@.len());
    }
    if n == 0 {
        0
    } else {
        let rest = read_le(bytes, at + 1, n - 1);
        proof {
            lemma_le_at_bound(bytes@, at as int + 1, (n - 1) as nat);
            assert(rest < 0x100_0000_0000_0000) by {
                assert(pow256_nat((n - 1) as nat) <= pow256_nat(7)) by {
                    lemma_pow256_mono((n - 1) as nat, 7);
                }
                reveal_with_fuel(pow256_nat, 8);
                assert(pow256_nat(7) == 0x100_0000_0000_0000);
            }
        }
        bytes[at] as u64 + 256 * rest
    }
}

pub open spec fn pow256_nat(n: nat) -> nat
    decreases n,
{
    if n == 0 {
        1
    } else {
        256 * pow256_nat((n - 1) as nat)
    }
}

pub proof fn lemma_le_at_bound(bytes: Seq<u8>, at: int, n: nat)
    ensures
        0 <= le_at(bytes, at, n) < pow256_nat(n),
    decreases n,
{
    if n > 0 {
        lemma_le_at_bound(bytes, at + 1, (n - 1) as nat);
    }
}

pub proof fn lemma_pow256_mono(a: nat, b: nat)
    requires
        a <= b,
    ensures
        pow256_nat(a) <= pow256_nat(b),
    decreases b,
{
    if a < b {
        lemma_pow256_mono(a, (b - 1) as nat);
    }
}

/// The little-endian `u16` at `at`.
pub fn read_u16(bytes: &[u8], at: usize) -> (r: u16)
    requires
        at + 2 <= bytes@.len(),
    ensures
        r == le_at(bytes@, at as int, 2),
{
    proof {
        lemma_le_at_bound(bytes@, at as int, 2);
        reveal_with_fuel(pow256_nat, 3);
    }
    read_le(bytes, at, 2) as u16
}

/// The little-endian `u32` at `at`.
pub fn read_u32(bytes: &[u8], at: usize) -> (r: u32)
    requires
        at + 4 <= bytes@.len(),
    ensures
        r == le_at(bytes@, at as int, 4),
{
    proof {
        lemma_le_at_bound(bytes@, at as int, 4);
        reveal_with_fuel(pow256_nat, 5);
    }
    read_le(bytes, at, 4) as u32
}

/// The little-endian `u64` at `at`.
pub fn read_u64(bytes: &[u8], at: usize) -> (r: u64)
    requires
        at + 8 <= bytes@.len(),
    ensures
        r == le_at(bytes@, at as int, 8),
{
    read_le(bytes, at, 8)
}

} // verus!
