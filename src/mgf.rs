use sha2::{Digest, Sha256};
use vstd::prelude::*;

use crate::error::RsaError;
use crate::natural::i2osp_spec;

verus! {

/// Octet length of a SHA-256 digest.
pub const H_LEN: usize = 32;

/// The longest mask that MGF1 may produce: `2^32 * H_LEN` octets.
pub const MAX_MASK_LEN: u128 = 137438953472;

/// The SHA-256 digest of `data`.
pub uninterp spec fn sha256_of(data: Seq<u8>) -> [u8; 32];

/// The SHA-256 digest of `data`, as an octet sequence.
pub open spec fn hash_spec(data: Seq<u8>) -> Seq<u8> {
    sha256_of(data)@
}

/// The number of `H_LEN`-octet blocks that cover `len` octets.
pub open spec fn block_count(len: nat) -> nat {
    ((len + 31) / 32) as nat
}

/// `Hash(seed ‖ I2OSP(0, 4)) ‖ … ‖ Hash(seed ‖ I2OSP(count - 1, 4))`.
pub open spec fn mgf_blocks(seed: Seq<u8>, count: nat) -> Seq<u8>
    decreases count,
{
    if count == 0 {
        Seq::empty()
    } else {
        mgf_blocks(seed, (count - 1) as nat) + hash_spec(seed + i2osp_spec((count - 1) as nat, 4))
    }
}

/// MGF1 over SHA-256: the first `mask_len` octets of the hash chain.
pub open spec fn mgf_spec(seed: Seq<u8>, mask_len: nat) -> Seq<u8> {
    mgf_blocks(seed, block_count(mask_len)).take(mask_len as int)
}

pub proof fn lemma_mgf_blocks_len(seed: Seq<u8>, count: nat)
    ensures
        mgf_blocks(seed, count).len() == count * 32,
    decreases count,
{
    if count > 0 {
        lemma_mgf_blocks_len(seed, (count - 1) as nat);
    }
}

/// MGF1 yields exactly the number of octets asked for.
pub proof fn lemma_mgf_len(seed: Seq<u8>, mask_len: nat)
    ensures
        mgf_spec(seed, mask_len).len() == mask_len,
{
    lemma_mgf_blocks_len(seed, block_count(mask_len));
    assert(block_count(mask_len) * 32 >= mask_len) by (nonlinear_arith)
        requires
            block_count(mask_len) == ((mask_len + 31) / 32) as nat,
    ;
}

/// Relies on `sha2::Sha256::digest`: the SHA-256 digest of the input.
#[verifier::external_body]
pub(crate) fn sha256(data: &[u8]) -> (r: [u8; 32])
    ensures
        r == sha256_of(data@),
{
    Sha256::digest(data).into()
}

/// Appends the octets of `src` to `dst`.
pub(crate) fn append_octets(dst: &mut Vec<u8>, src: &[u8])
    ensures
        final(dst)@ == old(dst)@ + src@,
{
    let mut i: usize = 0;
    while i < src.len()
        invariant
            i <= src.len(),
            dst@ == old(dst)@ + src@.subrange(0, i as int),
        decreases src.len() - i,
    {
        dst.push(src[i]);
        i = i + 1;
        assert(dst@ =~= old(dst)@ + src@.subrange(0, i as int));
    }
    assert(src@.subrange(0, src.len() as int) =~= src@);
}

/// I2OSP(counter, 4): the counter as four big-endian octets.
fn counter_octets(counter: u32) -> (r: Vec<u8>)
    ensures
        r@ == i2osp_spec(counter as nat, 4),
{
    let c1 = counter / 256;
    let c2 = c1 / 256;
    let c3 = c2 / 256;
    let mut r: Vec<u8> = Vec::new();
    r.push((c3 % 256) as u8);
    r.push((c2 % 256) as u8);
    r.push((c1 % 256) as u8);
    r.push((counter % 256) as u8);
    proof {
        reveal_with_fuel(i2osp_spec, 5);
        assert(r@ =~= i2osp_spec(counter as nat, 4));
    }
    r
}

/// MGF1 with SHA-256: a mask of `mask_len` octets derived from `mgf_seed`, or
/// `MaskTooLong` where `mask_len > 2^32 * H_LEN`.
pub fn mgf(mgf_seed: &[u8], mask_len: usize) -> (r: Result<Vec<u8>, RsaError>)
    ensures
        match r {
            Ok(t) => mask_len <= MAX_MASK_LEN && t@ == mgf_spec(mgf_seed@, mask_len as nat),
            Err(e) => mask_len > MAX_MASK_LEN && e == RsaError::MaskTooLong,
        },
{
    if mask_len as u128 > MAX_MASK_LEN {
        return Err(RsaError::MaskTooLong);
    }
    let blocks: usize = if mask_len % H_LEN == 0 {
        mask_len / H_LEN
    } else {
        mask_len / H_LEN + 1
    };
    assert(blocks == block_count(mask_len as nat));
    let mut t: Vec<u8> = Vec::new();
    let mut counter: usize = 0;
    while counter < blocks
        invariant
            counter <= blocks,
            blocks <= 4294967296,
            t@ == mgf_blocks(mgf_seed@, counter as nat),
        decreases blocks - counter,
    {
        let c = counter_octets(counter as u32);
        let mut input: Vec<u8> = Vec::new();
        append_octets(&mut input, mgf_seed);
        append_octets(&mut input, c.as_slice());
        let h = sha256(input.as_slice());
        append_octets(&mut t, h.as_slice());
        counter = counter + 1;
    }
    proof {
        lemma_mgf_blocks_len(mgf_seed@, blocks as nat);
    }
    t.truncate(mask_len);
    Ok(t)
}

} // verus!
