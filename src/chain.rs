//! End parameters: 8-word Blake2s digests, and the chain encoding that binds
//! the digests of all layers together.

use vstd::prelude::*;
use blake2::Digest;

verus! {

/// What Blake2s-256 returns for a byte string.
pub uninterp spec fn blake2s_of(data: Seq<u8>) -> Seq<u8>;

/// Relies on blake2::Blake2s256::digest: the 32-byte Blake2s digest of the data.
#[verifier::external_body]
fn blake2s_256(data: &[u8]) -> (r: Vec<u8>)
    ensures
        r@ == blake2s_of(data@),
        r@.len() == 32,
{
    blake2::Blake2s256::digest(data).to_vec()
}

/// Byte `k` (0..4) of `w` in little-endian order.
pub open spec fn le_byte(w: u32, k: int) -> u8 {
    if k == 0 {
        (w % 0x100) as u8
    } else if k == 1 {
        ((w / 0x100) % 0x100) as u8
    } else if k == 2 {
        ((w / 0x10000) % 0x100) as u8
    } else {
        ((w / 0x1000000) % 0x100) as u8
    }
}

/// The little-endian bytes of a word sequence.
pub open spec fn words_to_le_bytes(ws: Seq<u32>) -> Seq<u8> {
    Seq::new(4 * ws.len(), |i: int| le_byte(ws[i / 4], i % 4))
}

/// The word made of four little-endian bytes starting at `4 * i`.
pub open spec fn le_word_at(bs: Seq<u8>, i: int) -> u32 {
    (bs[4 * i] as int + 0x100 * bs[4 * i + 1] as int + 0x10000 * bs[4 * i + 2] as int
        + 0x1000000 * bs[4 * i + 3] as int) as u32
}

/// The words read in little-endian order from a byte string of length `4 * n`.
pub open spec fn le_bytes_to_words(bs: Seq<u8>) -> Seq<u32> {
    Seq::new(bs.len() / 4, |i: int| le_word_at(bs, i))
}

/// The 8-word hash of two digests laid one after the other.
pub open spec fn hash_pair(a: Seq<u32>, b: Seq<u32>) -> Seq<u32> {
    le_bytes_to_words(blake2s_of(words_to_le_bytes(a + b)))
}

/// Chain encoding: the first entry, then `d' = H(d || next)` for each later entry.
pub open spec fn chain_of(entries: Seq<Seq<u32>>) -> Seq<u32>
    decreases entries.len(),
{
    if entries.len() <= 1 {
        if entries.len() == 1 { entries[0] } else { Seq::empty() }
    } else {
        hash_pair(chain_of(entries.drop_last()), entries.last())
    }
}

/// The views of a list of digests.
pub open spec fn digests_view(ds: Seq<[u32; 8]>) -> Seq<Seq<u32>> {
    ds.map_values(|d: [u32; 8]| d@)
}

fn push_le_bytes(out: &mut Vec<u8>, w: u32)
    ensures
        final(out)@ == old(out)@ + seq![le_byte(w, 0), le_byte(w, 1), le_byte(w, 2), le_byte(w, 3)],
{
    out.push((w % 0x100) as u8);
    out.push(((w / 0x100) % 0x100) as u8);
    out.push(((w / 0x10000) % 0x100) as u8);
    out.push(((w / 0x1000000) % 0x100) as u8);
}

/// `H(a || b)` on two digests.
fn hash_two(a: &[u32; 8], b: &[u32; 8]) -> (r: [u32; 8])
    ensures
        r@ == hash_pair(a@, b@),
{
    let mut bytes: Vec<u8> = Vec::new();
    let ghost ab = a@ + b@;
    let mut i: usize = 0;
    while i < 16
        invariant
            0 <= i <= 16,
            ab == a@ + b@,
            ab.len() == 16,
            bytes@ == words_to_le_bytes(ab.take(i as int)),
        decreases 16 - i,
    {
        let w = if i < 8 { a[i] } else { b[i - 8] };
        assert(w == ab[i as int]);
        push_le_bytes(&mut bytes, w);
        assert(bytes@ =~= words_to_le_bytes(ab.take(i as int + 1)));
        i += 1;
    }
    assert(ab.take(16) =~= ab);
    let digest = blake2s_256(bytes.as_slice());
    let mut r: [u32; 8] = [0u32; 8];
    let mut k: usize = 0;
    while k < 8
        invariant
            0 <= k <= 8,
            digest@.len() == 32,
            forall|j: int| 0 <= j < k ==> r@[j] == le_word_at(digest@, j),
        decreases 8 - k,
    {
        let w: u32 = digest[4 * k] as u32 + 0x100 * (digest[4 * k + 1] as u32) + 0x10000 * (
        digest[4 * k + 2] as u32) + 0x1000000 * (digest[4 * k + 3] as u32);
        r[k] = w;
        k += 1;
    }
    assert(r@ =~= le_bytes_to_words(digest@));
    r
}

/// Chain encoding of a non-empty list of digests.
pub fn compute_chain_encoding(data: &Vec<[u32; 8]>) -> (r: [u32; 8])
    requires
        data@.len() >= 1,
    ensures
        r@ == chain_of(digests_view(data@)),
{
    let mut acc: [u32; 8] = data[0];
    let mut i: usize = 1;
    assert(digests_view(data@).take(1) =~= seq![data@[0]@]);
    while i < data.len()
        invariant
            1 <= i <= data@.len(),
            acc@ == chain_of(digests_view(data@).take(i as int)),
        decreases data@.len() - i,
    {
        let next = data[i];
        acc = hash_two(&acc, &next);
        assert(digests_view(data@).take(i as int + 1).drop_last() =~= digests_view(data@).take(
            i as int,
        ));
        i += 1;
    }
    assert(digests_view(data@).take(i as int) =~= digests_view(data@));
    acc
}

} // verus!
