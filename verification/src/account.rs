//! Account identities and the derivation of stash identities.
//!
//! An identity is an opaque byte string, as the hosting ledger would use.
//! A stash identity is derived from a fixed plane identifier, the magic
//! identity and the creation height; the derivation is injective in the
//! `(magic, height)` pair, so no two creations collide.

use vstd::prelude::*;

verus! {

/// An account identity: an opaque byte string.
pub type AccountId = Vec<u8>;

/// The fixed plane identifier, as a sequence: the eight bytes that prefix
/// every derived stash identity.
pub open spec fn plane_seq() -> Seq<u8> {
    seq![0x70u8, 0x6cu8, 0x61u8, 0x6eu8, 0x65u8, 0x2fu8, 0x6du8, 0x61u8]
}

/// Byte `i` of the little-endian encoding of `h`, still as a `u64`.
pub open spec fn height_byte(h: u64, i: int) -> u64 {
    (h >> (8 * i)) & 0xff
}

/// The little-endian encoding of a creation height.
pub open spec fn height_seq(h: u64) -> Seq<u8> {
    Seq::new(8, |i: int| height_byte(h, i) as u8)
}

/// The derived stash identity: plane identifier, then the magic identity,
/// then the creation height.
pub open spec fn derive_seq(magic: Seq<u8>, height: u64) -> Seq<u8> {
    plane_seq() + magic + height_seq(height)
}

/// Whether a byte string has the shape of a derived stash identity:
/// long enough and carrying the plane identifier as its prefix.
pub open spec fn is_derived(s: Seq<u8>) -> bool {
    s.len() >= 16 && s.subrange(0, 8) == plane_seq()
}

/// Byte-wise equality of two identities.
pub fn account_eq(a: &AccountId, b: &AccountId) -> (r: bool)
    ensures
        r <==> a@ == b@,
{
    if a.len() != b.len() {
        proof {
            assert(a@.len() != b@.len());
        }
        return false;
    }
    let n = a.len();
    let mut i: usize = 0;
    while i < n
        invariant
            n == a@.len(),
            n == b@.len(),
            i <= n,
            forall|j: int| 0 <= j < i ==> a@[j] == b@[j],
        decreases n - i,
    {
        if a[i] != b[i] {
            return false;
        }
        i = i + 1;
    }
    proof {
        assert(a@ =~= b@);
    }
    true
}

/// An owned copy of an identity.
pub fn clone_account(a: &AccountId) -> (r: AccountId)
    ensures
        r@ == a@,
{
    let mut r: Vec<u8> = Vec::new();
    let n = a.len();
    let mut i: usize = 0;
    while i < n
        invariant
            n == a@.len(),
            i <= n,
            r@ == a@.subrange(0, i as int),
        decreases n - i,
    {
        r.push(a[i]);
        proof {
            assert(r@ =~= a@.subrange(0, i + 1));
        }
        i = i + 1;
    }
    proof {
        assert(a@.subrange(0, n as int) =~= a@);
    }
    r
}

/// Builds the derived stash identity for `magic` at `height`.
pub fn derive_stash(magic: &AccountId, height: u64) -> (r: AccountId)
    ensures
        r@ == derive_seq(magic@, height),
{
    let mut r: Vec<u8> = Vec::new();
    r.push(0x70u8);
    r.push(0x6cu8);
    r.push(0x61u8);
    r.push(0x6eu8);
    r.push(0x65u8);
    r.push(0x2fu8);
    r.push(0x6du8);
    r.push(0x61u8);
    proof {
        assert(r@ =~= plane_seq());
    }
    let n = magic.len();
    let mut i: usize = 0;
    while i < n
        invariant
            n == magic@.len(),
            i <= n,
            r@ == plane_seq() + magic@.subrange(0, i as int),
        decreases n - i,
    {
        r.push(magic[i]);
        proof {
            assert(r@ =~= plane_seq() + magic@.subrange(0, i + 1));
        }
        i = i + 1;
    }
    proof {
        assert(magic@.subrange(0, n as int) =~= magic@);
    }
    let mut k: usize = 0;
    while k < 8
        invariant
            k <= 8,
            r@ == plane_seq() + magic@ + height_seq(height).subrange(0, k as int),
        decreases 8 - k,
    {
        let shift: u64 = 8 * (k as u64);
        let byte: u8 = ((height >> shift) & 0xff) as u8;
        proof {
            assert(byte == height_byte(height, k as int) as u8);
        }
        r.push(byte);
        proof {
            assert(r@ =~= plane_seq() + magic@ + height_seq(height).subrange(0, k + 1));
        }
        k = k + 1;
    }
    proof {
        assert(height_seq(height).subrange(0, 8) =~= height_seq(height));
        assert(r@ =~= derive_seq(magic@, height));
    }
    r
}

/// A derived stash identity always has the derived shape.
pub proof fn lemma_derived_shape(magic: Seq<u8>, height: u64)
    ensures
        is_derived(derive_seq(magic, height)),
{
    assert(derive_seq(magic, height).subrange(0, 8) =~= plane_seq());
}

/// Two equal little-endian encodings come from the same height.
proof fn lemma_height_bytes_injective(h1: u64, h2: u64)
    requires
        height_seq(h1) == height_seq(h2),
    ensures
        h1 == h2,
{
    assert forall|i: int| 0 <= i < 8 implies height_byte(h1, i) as u8 == height_byte(h2, i)
        as u8 by {
        assert(height_seq(h1)[i] == height_byte(h1, i) as u8);
        assert(height_seq(h2)[i] == height_byte(h2, i) as u8);
        assert(height_seq(h1)[i] == height_seq(h2)[i]);
    }
    assert(height_byte(h1, 0) as u8 == height_byte(h2, 0) as u8);
    assert(height_byte(h1, 1) as u8 == height_byte(h2, 1) as u8);
    assert(height_byte(h1, 2) as u8 == height_byte(h2, 2) as u8);
    assert(height_byte(h1, 3) as u8 == height_byte(h2, 3) as u8);
    assert(height_byte(h1, 4) as u8 == height_byte(h2, 4) as u8);
    assert(height_byte(h1, 5) as u8 == height_byte(h2, 5) as u8);
    assert(height_byte(h1, 6) as u8 == height_byte(h2, 6) as u8);
    assert(height_byte(h1, 7) as u8 == height_byte(h2, 7) as u8);
    assert(h1 == h2) by (bit_vector)
        requires
            ((h1 >> 0) & 0xff) as u8 == ((h2 >> 0) & 0xff) as u8,
            ((h1 >> 8) & 0xff) as u8 == ((h2 >> 8) & 0xff) as u8,
            ((h1 >> 16) & 0xff) as u8 == ((h2 >> 16) & 0xff) as u8,
            ((h1 >> 24) & 0xff) as u8 == ((h2 >> 24) & 0xff) as u8,
            ((h1 >> 32) & 0xff) as u8 == ((h2 >> 32) & 0xff) as u8,
            ((h1 >> 40) & 0xff) as u8 == ((h2 >> 40) & 0xff) as u8,
            ((h1 >> 48) & 0xff) as u8 == ((h2 >> 48) & 0xff) as u8,
            ((h1 >> 56) & 0xff) as u8 == ((h2 >> 56) & 0xff) as u8,
    ;
}

/// The derivation is injective: equal stash identities come from the same
/// magic identity and the same creation height.
pub proof fn lemma_derive_injective(m1: Seq<u8>, h1: u64, m2: Seq<u8>, h2: u64)
    requires
        derive_seq(m1, h1) == derive_seq(m2, h2),
    ensures
        m1 == m2,
        h1 == h2,
{
    let d1 = derive_seq(m1, h1);
    let d2 = derive_seq(m2, h2);
    assert(d1.len() == 16 + m1.len());
    assert(d2.len() == 16 + m2.len());
    assert(m1.len() == m2.len());
    assert forall|i: int| 0 <= i < m1.len() implies m1[i] == m2[i] by {
        assert(d1[8 + i] == m1[i]);
        assert(d2[8 + i] == m2[i]);
    }
    assert(m1 =~= m2);
    let n = m1.len() as int;
    assert forall|i: int| 0 <= i < 8 implies height_seq(h1)[i] == height_seq(h2)[i] by {
        assert(d1[8 + n + i] == height_seq(h1)[i]);
        assert(d2[8 + n + i] == height_seq(h2)[i]);
    }
    assert(height_seq(h1) =~= height_seq(h2));
    lemma_height_bytes_injective(h1, h2);
}

} // verus!
