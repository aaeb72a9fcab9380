//! One-shot SHA-256, truncation of a digest to a fingerprint, and the packing
//! of a fingerprint into an integer key.
use crypto::digest::Digest;
use crypto::sha2::Sha256;
use vstd::prelude::*;

verus! {

/// Width in bytes of a full digest.
pub const DIGEST_LEN: usize = 32;

/// The SHA-256 digest of a byte string.
pub uninterp spec fn sha256_of(data: Seq<u8>) -> Seq<u8>;

/// Relies on rust-crypto's `Sha256` (`new`, `input`, `result`): a fresh hasher
/// fed `data` once writes the 32-byte SHA-256 digest of `data`.
#[verifier::external_body]
pub(crate) fn oneshot_hash(data: &[u8]) -> (r: [u8; 32])
    ensures
        r@ == sha256_of(data@),
{
    let mut hasher = Sha256::new();
    hasher.input(data);
    let mut full_hash = [0u8; 32];
    hasher.result(&mut full_hash);
    full_hash
}

/// Number of bytes that hold a fingerprint of `bits` bits.
pub open spec fn fingerprint_len(bits: nat) -> nat {
    (bits + 7) / 8
}

/// Number of bits of the first fingerprint byte that are kept.
pub open spec fn top_bits(bits: nat) -> nat {
    if bits % 8 == 0 {
        8
    } else {
        bits % 8
    }
}

/// Mask applied to the first fingerprint byte.
pub open spec fn top_mask(bits: nat) -> u8 {
    (0xffu8 >> ((8 - top_bits(bits)) as u8))
}

/// The fingerprint of `d`: its last `fingerprint_len(bits)` bytes, the first
/// of them masked down to the bits that are kept.
pub open spec fn truncated(d: Seq<u8>, bits: nat) -> Seq<u8> {
    let n = fingerprint_len(bits);
    let start = d.len() - n;
    Seq::new(n, |k: int| if k == 0 { d[start] & top_mask(bits) } else { d[start + k] })
}

/// Truncates `hash` to a fingerprint of `bits` bits, taken from its tail.
pub fn truncate_hash(hash: &[u8], bits: usize) -> (r: Vec<u8>)
    requires
        bits <= 8 * hash@.len(),
    ensures
        r@ == truncated(hash@, bits as nat),
{
    let n: usize = bits / 8 + if bits % 8 == 0 { 0 } else { 1 };
    assert(n == fingerprint_len(bits as nat));
    let hlen: usize = hash.len();
    let start: usize = hlen - n;
    let keep: u8 = if bits % 8 == 0 { 8 } else { (bits % 8) as u8 };
    let mask: u8 = 0xffu8 >> (8 - keep);
    let mut result: Vec<u8> = Vec::with_capacity(n);
    let mut k: usize = 0;
    while k < n
        invariant
            k <= n,
            n == fingerprint_len(bits as nat),
            n <= hash@.len() == hlen,
            start == hash@.len() - n,
            keep as nat == top_bits(bits as nat),
            mask == top_mask(bits as nat),
            result@.len() == k,
            forall|j: int| 0 <= j < k ==> result@[j] == truncated(hash@, bits as nat)[j],
        decreases n - k,
    {
        if k == 0 {
            result.push(hash[start] & mask);
        } else {
            result.push(hash[start + k]);
        }
        k = k + 1;
    }
    assert(result@ =~= truncated(hash@, bits as nat));
    result
}

/// A fingerprint of `bits` bits has `ceil(bits / 8)` bytes, the bits of its
/// first byte above those kept are zero, and an eight-bit fingerprint is the
/// last byte of the digest.
pub proof fn lemma_truncation(d: Seq<u8>, bits: nat)
    requires
        bits <= 8 * d.len(),
    ensures
        truncated(d, bits).len() == fingerprint_len(bits),
        bits % 8 != 0 ==> truncated(d, bits)[0] >> ((bits % 8) as u8) == 0,
        bits % 8 != 0 ==> truncated(d, bits)[0] == d[d.len() - fingerprint_len(bits)] & top_mask(bits),
        d.len() > 0 ==> truncated(d, 8) == seq![d.last()],
{
    if bits % 8 != 0 {
        let x = d[d.len() - fingerprint_len(bits)];
        let r = (bits % 8) as u8;
        assert(top_mask(bits) == 0xffu8 >> (8 - r) as u8);
        assert((x & (0xffu8 >> (8 - r) as u8)) >> r == 0) by (bit_vector)
            requires
                1 <= r < 8,
        ;
    }
    if d.len() > 0 {
        let y = d.last();
        assert(y & 0xffu8 == y) by (bit_vector);
        assert(top_mask(8) == 0xffu8 >> 0u8);
        assert(0xffu8 >> 0u8 == 0xffu8) by (bit_vector);
        assert(truncated(d, 8) =~= seq![d.last()]);
    }
}

/// Unsigned value of `s` read as a big-endian number.
pub open spec fn be_value(s: Seq<u8>) -> nat
    decreases s.len(),
{
    if s.len() == 0 {
        0
    } else {
        be_value(s.drop_last()) * 256 + s.last() as nat
    }
}

/// `256` to the power `n`.
pub open spec fn pow256(n: nat) -> nat
    decreases n,
{
    if n == 0 {
        1
    } else {
        256 * pow256((n - 1) as nat)
    }
}

/// A big-endian value of `n` bytes is below `256^n`.
pub proof fn lemma_be_value_bound(s: Seq<u8>)
    ensures
        be_value(s) < pow256(s.len()),
    decreases s.len(),
{
    if s.len() > 0 {
        lemma_be_value_bound(s.drop_last());
        let a = be_value(s.drop_last());
        let p = pow256(s.drop_last().len());
        let x = s.last() as nat;
        assert(a * 256 + x < 256 * p) by (nonlinear_arith)
            requires
                a < p,
                x < 256,
        ;
    }
}

/// Two byte strings of one length with one big-endian value are equal.
pub proof fn lemma_be_value_injective(s: Seq<u8>, t: Seq<u8>)
    requires
        s.len() == t.len(),
        be_value(s) == be_value(t),
    ensures
        s == t,
    decreases s.len(),
{
    if s.len() > 0 {
        let a = be_value(s.drop_last());
        let b = be_value(t.drop_last());
        let x = s.last() as nat;
        let y = t.last() as nat;
        assert(a == b && x == y) by (nonlinear_arith)
            requires
                a * 256 + x == b * 256 + y,
                x < 256,
                y < 256,
        ;
        lemma_be_value_injective(s.drop_last(), t.drop_last());
        assert(s =~= s.drop_last().push(s.last()));
        assert(t =~= t.drop_last().push(t.last()));
    }
}

/// Packs a fingerprint of at most eight bytes into an integer key, reading it
/// as a big-endian number.
pub fn fingerprint_key(fp: &[u8]) -> (r: u64)
    requires
        fp@.len() <= 8,
    ensures
        r as nat == be_value(fp@),
{
    let mut acc: u64 = 0;
    let mut i: usize = 0;
    while i < fp.len()
        invariant
            i <= fp@.len() <= 8,
            acc as nat == be_value(fp@.subrange(0, i as int)),
        decreases fp@.len() - i,
    {
        let ghost prefix = fp@.subrange(0, i as int);
        let ghost next = fp@.subrange(0, i as int + 1);
        proof {
            lemma_be_value_bound(prefix);
            lemma_pow256_monotone(i as nat, 7);
            assert(next.drop_last() =~= prefix);
            reveal_with_fuel(pow256, 8);
            assert(pow256(7) == 0x100000000000000);
        }
        acc = acc * 256 + fp[i] as u64;
        i = i + 1;
    }
    assert(fp@.subrange(0, i as int) =~= fp@);
    acc
}

proof fn lemma_pow256_monotone(m: nat, n: nat)
    requires
        m <= n,
    ensures
        pow256(m) <= pow256(n),
    decreases n,
{
    if m < n {
        lemma_pow256_monotone(m, (n - 1) as nat);
    }
}

} // verus!
