//! Hash functions for integer keys: 64-bit FNV-1a and the identity hash.
use vstd::prelude::*;

verus! {

pub const FNV_OFFSET_BASIS: u64 = 0xcbf29ce484222325;
pub const FNV_PRIME: u64 = 0x100000001b3;

/// One FNV-1a round: xor in the byte, then multiply by the prime (mod 2^64).
pub open spec fn fnv_step(state: u64, byte: u8) -> u64 {
    (state ^ (byte as u64)).wrapping_mul(FNV_PRIME)
}

/// FNV-1a state after absorbing `bytes` in order, starting from `state`.
pub open spec fn fnv_absorb(state: u64, bytes: Seq<u8>) -> u64
    decreases bytes.len(),
{
    if bytes.len() == 0 {
        state
    } else {
        fnv_step(fnv_absorb(state, bytes.drop_last()), bytes.last())
    }
}

/// Byte `k` (0 = least significant) of `x`.
pub open spec fn le_byte(x: u64, k: int) -> u8 {
    ((x >> ((8 * k) as u64)) & 0xff) as u8
}

/// The eight little-endian bytes of `x`, as `u64::to_le_bytes` gives them.
pub open spec fn le_bytes(x: u64) -> Seq<u8> {
    Seq::new(8, |k: int| le_byte(x, k))
}

/// 64-bit FNV-1a non-cryptographic hasher.
#[derive(Debug, Clone, Copy)]
pub struct FnvHasher(u64);

impl FnvHasher {
    pub closed spec fn view(&self) -> u64 {
        self.0
    }

    pub fn new() -> (r: Self)
        ensures
            r@ == FNV_OFFSET_BASIS,
    {
        FnvHasher(FNV_OFFSET_BASIS)
    }

    pub fn finish(&self) -> (r: u64)
        ensures
            r == self@,
    {
        self.0
    }

    /// Absorbs `bytes` into the state.
    pub fn write(&mut self, bytes: &[u8])
        ensures
            final(self)@ == fnv_absorb(old(self)@, bytes@),
    {
        let ghost start = self.0;
        let mut i: usize = 0;
        while i < bytes.len()
            invariant
                i <= bytes@.len(),
                self.0 == fnv_absorb(start, bytes@.subrange(0, i as int)),
            decreases bytes@.len() - i,
        {
            proof {
                assert(bytes@.subrange(0, i as int + 1).drop_last() =~= bytes@.subrange(0, i as int));
            }
            self.0 = (self.0 ^ (bytes[i] as u64)).wrapping_mul(FNV_PRIME);
            i = i + 1;
        }
        proof {
            assert(bytes@.subrange(0, i as int) =~= bytes@);
        }
    }

    /// Absorbs the little-endian bytes of `value`, as hashing a `u64` does.
    pub fn write_u64(&mut self, value: u64)
        ensures
            final(self)@ == fnv_absorb(old(self)@, le_bytes(value)),
    {
        let ghost start = self.0;
        let mut k: u64 = 0;
        while k < 8
            invariant
                k <= 8,
                self.0 == fnv_absorb(start, le_bytes(value).subrange(0, k as int)),
            decreases 8 - k,
        {
            proof {
                assert(le_bytes(value).subrange(0, k as int + 1).drop_last() =~= le_bytes(
                    value,
                ).subrange(0, k as int));
            }
            let byte = ((value >> (8 * k)) & 0xff) as u8;
            self.0 = (self.0 ^ (byte as u64)).wrapping_mul(FNV_PRIME);
            k = k + 1;
        }
        proof {
            assert(le_bytes(value).subrange(0, 8) =~= le_bytes(value));
        }
    }
}

/// A source of hash values for integer keys.
pub trait KeyHashBuilder {
    spec fn spec_hash_u64(&self, key: u64) -> u64;

    /// The hash a freshly built hasher gives after absorbing `key`.
    fn hash_u64(&self, key: u64) -> (h: u64)
        ensures
            h == self.spec_hash_u64(key),
    ;
}

/// Builds `FnvHasher`s.
#[derive(Debug, Clone, Copy)]
pub struct BuildFnvHasher;

impl BuildFnvHasher {
    pub fn new() -> (r: Self) {
        BuildFnvHasher
    }

    pub fn build_hasher(&self) -> (r: FnvHasher)
        ensures
            r@ == FNV_OFFSET_BASIS,
    {
        FnvHasher::new()
    }
}

impl KeyHashBuilder for BuildFnvHasher {
    open spec fn spec_hash_u64(&self, key: u64) -> u64 {
        fnv_absorb(FNV_OFFSET_BASIS, le_bytes(key))
    }

    fn hash_u64(&self, key: u64) -> (h: u64) {
        let mut hasher = self.build_hasher();
        hasher.write_u64(key);
        hasher.finish()
    }
}

/// A pass-through hasher for integer keys (PIDs, IRQs, descriptors).
#[derive(Debug, Clone, Copy)]
pub struct IdentityHasher(u64);

/// The first `n` bytes packed little-endian into a `u64` (byte `k` lands in
/// bits `8k..8k+8`).
pub open spec fn le_pack(bytes: Seq<u8>, n: int) -> u64
    decreases n,
{
    if n <= 0 {
        0
    } else {
        le_pack(bytes, n - 1) | ((bytes[n - 1] as u64) << ((8 * (n - 1)) as u64))
    }
}

impl IdentityHasher {
    pub closed spec fn view(&self) -> u64 {
        self.0
    }

    pub fn new() -> (r: Self)
        ensures
            r@ == 0,
    {
        IdentityHasher(0)
    }

    pub fn finish(&self) -> (r: u64)
        ensures
            r == self@,
    {
        self.0
    }

    /// Replaces the state by the first (at most eight) bytes read little-endian.
    pub fn write(&mut self, bytes: &[u8])
        ensures
            final(self)@ == le_pack(bytes@, if bytes@.len() < 8 { bytes@.len() as int } else { 8 }),
    {
        let n: usize = if bytes.len() < 8 { bytes.len() } else { 8 };
        let mut val: u64 = 0;
        let mut i: usize = 0;
        while i < n
            invariant
                n <= 8,
                n <= bytes@.len(),
                i <= n,
                val == le_pack(bytes@, i as int),
            decreases n - i,
        {
            val = val | ((bytes[i] as u64) << ((i * 8) as u64));
            i = i + 1;
        }
        self.0 = val;
    }

    pub fn write_u8(&mut self, i: u8)
        ensures
            final(self)@ == i as u64,
    {
        self.0 = i as u64;
    }

    pub fn write_u16(&mut self, i: u16)
        ensures
            final(self)@ == i as u64,
    {
        self.0 = i as u64;
    }

    pub fn write_u32(&mut self, i: u32)
        ensures
            final(self)@ == i as u64,
    {
        self.0 = i as u64;
    }

    pub fn write_u64(&mut self, i: u64)
        ensures
            final(self)@ == i,
    {
        self.0 = i;
    }

    pub fn write_usize(&mut self, i: usize)
        ensures
            final(self)@ == i as u64,
    {
        self.0 = i as u64;
    }
}

/// Builds `IdentityHasher`s.
#[derive(Debug, Clone, Copy)]
pub struct BuildIdentityHasher;

impl BuildIdentityHasher {
    pub fn new() -> (r: Self) {
        BuildIdentityHasher
    }

    pub fn build_hasher(&self) -> (r: IdentityHasher)
        ensures
            r@ == 0,
    {
        IdentityHasher::new()
    }
}

impl KeyHashBuilder for BuildIdentityHasher {
    open spec fn spec_hash_u64(&self, key: u64) -> u64 {
        key
    }

    fn hash_u64(&self, key: u64) -> (h: u64) {
        let mut hasher = self.build_hasher();
        hasher.write_u64(key);
        hasher.finish()
    }
}

} // verus!
