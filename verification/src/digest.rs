//! SHA-256 digests and the numbers taken from them.

use sha2::Digest;
use vstd::prelude::*;

verus! {

/// The SHA-256 digest of a byte string.
pub uninterp spec fn sha256_of(bytes: Seq<u8>) -> Seq<u8>;

/// Calls `sha2::Sha256::digest`. The digest is a function of the bytes alone, and is 32 bytes
/// long; which bytes it has, the contract does not say.
#[verifier::external_body]
pub(crate) fn sha256(bytes: &Vec<u8>) -> (r: Vec<u8>)
    ensures
        r@ == sha256_of(bytes@),
        r@.len() == 32,
{
    sha2::Sha256::digest(bytes).to_vec()
}

/// A number as eight bytes, the most significant first.
pub open spec fn be_bytes(n: u64) -> Seq<u8> {
    seq![
        (n / 0x100_0000_0000_0000) as u8,
        (n / 0x1_0000_0000_0000 % 0x100) as u8,
        (n / 0x100_0000_0000 % 0x100) as u8,
        (n / 0x1_0000_0000 % 0x100) as u8,
        (n / 0x100_0000 % 0x100) as u8,
        (n / 0x1_0000 % 0x100) as u8,
        (n / 0x100 % 0x100) as u8,
        (n % 0x100) as u8,
    ]
}

/// The number that eight bytes stand for, the most significant first.
pub open spec fn be_number(bytes: Seq<u8>) -> nat {
    bytes[0] as nat * 0x100_0000_0000_0000 + bytes[1] as nat * 0x1_0000_0000_0000 + bytes[2] as nat
        * 0x100_0000_0000 + bytes[3] as nat * 0x1_0000_0000 + bytes[4] as nat * 0x100_0000
        + bytes[5] as nat * 0x1_0000 + bytes[6] as nat * 0x100 + bytes[7] as nat
}

/// The eight bytes of a number give the number back.
pub proof fn law_be_bytes_round_trip(n: u64)
    ensures
        be_number(be_bytes(n)) == n,
        be_bytes(n).len() == 8,
{
    let a = n / 0x100;
    let b = n / 0x1_0000;
    let c = n / 0x100_0000;
    let d = n / 0x1_0000_0000;
    let e = n / 0x100_0000_0000;
    let f = n / 0x1_0000_0000_0000;
    let g = n / 0x100_0000_0000_0000;
    assert(b == a / 0x100 && c == b / 0x100 && d == c / 0x100 && e == d / 0x100 && f == e / 0x100
        && g == f / 0x100 && g < 0x100) by (bit_vector)
        requires
            a == n / 0x100,
            b == n / 0x1_0000,
            c == n / 0x100_0000,
            d == n / 0x1_0000_0000,
            e == n / 0x100_0000_0000,
            f == n / 0x1_0000_0000_0000,
            g == n / 0x100_0000_0000_0000,
    ;
}

/// Appends a number as eight bytes, the most significant first.
pub fn push_be_bytes(bytes: &mut Vec<u8>, n: u64)
    ensures
        final(bytes)@ == old(bytes)@ + be_bytes(n),
{
    let ghost before = bytes@;
    bytes.push((n / 0x100_0000_0000_0000) as u8);
    bytes.push((n / 0x1_0000_0000_0000 % 0x100) as u8);
    bytes.push((n / 0x100_0000_0000 % 0x100) as u8);
    bytes.push((n / 0x1_0000_0000 % 0x100) as u8);
    bytes.push((n / 0x100_0000 % 0x100) as u8);
    bytes.push((n / 0x1_0000 % 0x100) as u8);
    bytes.push((n / 0x100 % 0x100) as u8);
    bytes.push((n % 0x100) as u8);
    assert(bytes@ =~= before + be_bytes(n));
}

/// Appends a byte string.
pub fn push_bytes(bytes: &mut Vec<u8>, more: &[u8])
    ensures
        final(bytes)@ == old(bytes)@ + more@,
{
    let ghost before = bytes@;
    let mut i: usize = 0;
    while i < more.len()
        invariant
            i <= more@.len(),
            bytes@ == before + more@.take(i as int),
        decreases more@.len() - i,
    {
        bytes.push(more[i]);
        i = i + 1;
        assert(bytes@ =~= before + more@.take(i as int));
    }
    assert(more@.take(i as int) =~= more@);
}

/// What is digested for an epoch: the domain and the material, each behind its length.
pub open spec fn epoch_frame(domain: Seq<u8>, material: Seq<u8>) -> Seq<u8> {
    be_bytes(domain.len() as u64) + domain + be_bytes(material.len() as u64) + material
}

/// The epoch of some material in a domain: the first eight bytes of the digest, as a number.
pub open spec fn epoch_of(domain: Seq<u8>, material: Seq<u8>) -> u64 {
    be_number(sha256_of(epoch_frame(domain, material))) as u64
}

/// The epoch of some material in a domain.
pub fn overlay_epoch_digest(domain: &[u8], material: &[u8]) -> (r: u64)
    ensures
        r == epoch_of(domain@, material@),
{
    let mut frame: Vec<u8> = Vec::new();
    push_be_bytes(&mut frame, domain.len() as u64);
    push_bytes(&mut frame, domain);
    push_be_bytes(&mut frame, material.len() as u64);
    push_bytes(&mut frame, material);
    assert(frame@ =~= epoch_frame(domain@, material@));
    let d = sha256(&frame);
    let n: u64 = d[0] as u64 * 0x100_0000_0000_0000 + d[1] as u64 * 0x1_0000_0000_0000 + d[2] as u64
        * 0x100_0000_0000 + d[3] as u64 * 0x1_0000_0000 + d[4] as u64 * 0x100_0000 + d[5] as u64
        * 0x1_0000 + d[6] as u64 * 0x100 + d[7] as u64;
    n
}

/// Two numbers with the same eight bytes are the same.
proof fn lemma_be_bytes_injective(m: u64, n: u64)
    requires
        be_bytes(m) == be_bytes(n),
    ensures
        m == n,
{
    law_be_bytes_round_trip(m);
    law_be_bytes_round_trip(n);
}

proof fn lemma_frame_parts(a: Seq<u8>, b: Seq<u8>, c: Seq<u8>, d: Seq<u8>)
    requires
        a.len() == 8,
        c.len() == 8,
    ensures
        (a + b + c + d).take(8) == a,
        (a + b + c + d).subrange(8, 8 + b.len() as int) == b,
        (a + b + c + d).skip(16 + b.len() as int) == d,
{
    assert((a + b + c + d).take(8) =~= a);
    assert((a + b + c + d).subrange(8, 8 + b.len() as int) =~= b);
    assert((a + b + c + d).skip(16 + b.len() as int) =~= d);
}

/// Two pairs of a domain and material are framed alike only if they are the same.
pub proof fn law_epoch_frame_is_injective(
    domain: Seq<u8>,
    material: Seq<u8>,
    other_domain: Seq<u8>,
    other_material: Seq<u8>,
)
    requires
        domain.len() <= u64::MAX,
        other_domain.len() <= u64::MAX,
        epoch_frame(domain, material) == epoch_frame(other_domain, other_material),
    ensures
        domain == other_domain,
        material == other_material,
{
    lemma_frame_parts(
        be_bytes(domain.len() as u64),
        domain,
        be_bytes(material.len() as u64),
        material,
    );
    lemma_frame_parts(
        be_bytes(other_domain.len() as u64),
        other_domain,
        be_bytes(other_material.len() as u64),
        other_material,
    );
    lemma_be_bytes_injective(domain.len() as u64, other_domain.len() as u64);
}

} // verus!
