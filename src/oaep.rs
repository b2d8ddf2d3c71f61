use vstd::prelude::*;

use crate::error::RsaError;
use crate::mgf::{append_octets, hash_spec, lemma_mgf_len, mgf, mgf_spec, sha256, H_LEN, MAX_MASK_LEN};
use crate::natural::zeros;

verus! {

/// Octet-wise exclusive or of `a` with the first `a.len()` octets of `b`.
pub open spec fn xor_spec(a: Seq<u8>, b: Seq<u8>) -> Seq<u8> {
    Seq::new(a.len(), |i: int| a[i] ^ b[i])
}

/// Whether a message of `m_len` octets fits an encoded block of `k` octets:
/// `m_len <= k - 2 * H_LEN - 2`.
pub open spec fn fits(k: nat, m_len: nat) -> bool {
    m_len + 2 * 32 + 2 <= k
}

/// Whether MGF1 can produce the data-block mask for a block of `k` octets.
pub open spec fn mask_in_range(k: nat) -> bool {
    k <= MAX_MASK_LEN + 33
}

/// `DB = lHash ‖ PS ‖ 0x01 ‖ M`, where `PS` is `k - mLen - 2 * H_LEN - 2` zeros.
pub open spec fn data_block(k: nat, m: Seq<u8>, l: Seq<u8>) -> Seq<u8> {
    hash_spec(l) + zeros((k - m.len() - 2 * 32 - 2) as nat) + seq![1u8] + m
}

/// EME-OAEP encoding of `m` under label `l` into `k` octets with `seed`:
/// `0x00 ‖ maskedSeed ‖ maskedDB`.
pub open spec fn encode_spec(k: nat, m: Seq<u8>, l: Seq<u8>, seed: Seq<u8>) -> Seq<u8> {
    let db = data_block(k, m, l);
    let masked_db = xor_spec(db, mgf_spec(seed, (k - 33) as nat));
    let masked_seed = xor_spec(seed, mgf_spec(masked_db, 32));
    seq![0u8] + masked_seed + masked_db
}

/// The index of the first non-zero octet of `s` at or after `i`, or `s.len()`.
pub open spec fn first_nonzero(s: Seq<u8>, i: int) -> int
    decreases s.len() - i,
{
    if i >= s.len() {
        s.len() as int
    } else if s[i] != 0 {
        i
    } else {
        first_nonzero(s, i + 1)
    }
}

/// The data block recovered from an encoded message of `k` octets.
pub open spec fn unmasked_db(k: nat, em: Seq<u8>) -> Seq<u8> {
    let masked_seed = em.subrange(1, 33);
    let masked_db = em.subrange(33, k as int);
    let seed = xor_spec(masked_seed, mgf_spec(masked_db, 32));
    xor_spec(masked_db, mgf_spec(seed, (k - 33) as nat))
}

/// EME-OAEP decoding of `em` under label `l` for blocks of `k` octets: the
/// message, or `None` for any malformed input.
pub open spec fn decode_spec(k: nat, em: Seq<u8>, l: Seq<u8>) -> Option<Seq<u8>> {
    if em.len() != k || k < 2 * 32 + 2 || !mask_in_range(k) {
        None
    } else {
        let db = unmasked_db(k, em);
        let j = first_nonzero(db, 32);
        if em[0] != 0 || db.subrange(0, 32) != hash_spec(l) || j >= db.len() || db[j] != 1 {
            None
        } else {
            Some(db.subrange(j + 1, db.len() as int))
        }
    }
}

/// Masking twice with the same mask gives the input back.
pub proof fn lemma_xor_twice(a: Seq<u8>, b: Seq<u8>)
    requires
        a.len() <= b.len(),
    ensures
        xor_spec(xor_spec(a, b), b) == a,
{
    assert forall|i: int| 0 <= i < a.len() implies #[trigger] xor_spec(xor_spec(a, b), b)[i]
        == a[i] by {
        let x = a[i];
        let y = b[i];
        assert((x ^ y) ^ y == x) by (bit_vector);
    }
    assert(xor_spec(xor_spec(a, b), b) =~= a);
}

pub proof fn lemma_first_nonzero(s: Seq<u8>, i: int, j: int)
    requires
        0 <= i <= j < s.len(),
        s[j] != 0,
        forall|t: int| i <= t < j ==> s[t] == 0,
    ensures
        first_nonzero(s, i) == j,
    decreases j - i,
{
    if i < j {
        lemma_first_nonzero(s, i + 1, j);
    }
}

/// Decoding recovers the data block of a well-formed encoding.
pub proof fn lemma_unmask(k: nat, m: Seq<u8>, l: Seq<u8>, seed: Seq<u8>)
    requires
        fits(k, m.len()),
        seed.len() == 32,
    ensures
        unmasked_db(k, encode_spec(k, m, l, seed)) == data_block(k, m, l),
        encode_spec(k, m, l, seed).len() == k,
        encode_spec(k, m, l, seed)[0] == 0,
{
    let db = data_block(k, m, l);
    assert(hash_spec(l).len() == 32);
    assert(db.len() == k - 33);
    lemma_mgf_len(seed, (k - 33) as nat);
    let masked_db = xor_spec(db, mgf_spec(seed, (k - 33) as nat));
    lemma_mgf_len(masked_db, 32);
    let masked_seed = xor_spec(seed, mgf_spec(masked_db, 32));
    let em = encode_spec(k, m, l, seed);
    assert(em.subrange(1, 33) =~= masked_seed);
    assert(em.subrange(33, k as int) =~= masked_db);
    lemma_xor_twice(seed, mgf_spec(masked_db, 32));
    lemma_xor_twice(db, mgf_spec(seed, (k - 33) as nat));
}

/// Decoding an encoding under the same label yields the message.
pub proof fn lemma_decode_encode(k: nat, m: Seq<u8>, l: Seq<u8>, seed: Seq<u8>)
    requires
        fits(k, m.len()),
        mask_in_range(k),
        seed.len() == 32,
    ensures
        decode_spec(k, encode_spec(k, m, l, seed), l) == Some(m),
{
    lemma_unmask(k, m, l, seed);
    let db = data_block(k, m, l);
    let j = k - m.len() - 34;
    assert(db.subrange(0, 32) =~= hash_spec(l));
    assert(db[j] == 1);
    lemma_first_nonzero(db, 32, j);
    assert(db.subrange(j + 1, db.len() as int) =~= m);
}

/// An encoding made under one label fails to decode under a label of another digest.
pub proof fn lemma_decode_other_label(
    k: nat,
    m: Seq<u8>,
    l1: Seq<u8>,
    l2: Seq<u8>,
    seed: Seq<u8>,
)
    requires
        fits(k, m.len()),
        seed.len() == 32,
        hash_spec(l1) != hash_spec(l2),
    ensures
        decode_spec(k, encode_spec(k, m, l1, seed), l2) is None,
{
    lemma_unmask(k, m, l1, seed);
    let db = data_block(k, m, l1);
    assert(db.subrange(0, 32) =~= hash_spec(l1));
}

/// Under one message and label, distinct seeds give distinct encodings.
pub proof fn lemma_encode_distinct_seeds(
    k: nat,
    m: Seq<u8>,
    l: Seq<u8>,
    seed1: Seq<u8>,
    seed2: Seq<u8>,
)
    requires
        fits(k, m.len()),
        seed1.len() == 32,
        seed2.len() == 32,
        seed1 != seed2,
    ensures
        encode_spec(k, m, l, seed1) != encode_spec(k, m, l, seed2),
{
    let db = data_block(k, m, l);
    assert(hash_spec(l).len() == 32);
    lemma_mgf_len(seed1, (k - 33) as nat);
    lemma_mgf_len(seed2, (k - 33) as nat);
    let mdb1 = xor_spec(db, mgf_spec(seed1, (k - 33) as nat));
    let mdb2 = xor_spec(db, mgf_spec(seed2, (k - 33) as nat));
    lemma_mgf_len(mdb1, 32);
    lemma_mgf_len(mdb2, 32);
    let ms1 = xor_spec(seed1, mgf_spec(mdb1, 32));
    let ms2 = xor_spec(seed2, mgf_spec(mdb2, 32));
    let em1 = encode_spec(k, m, l, seed1);
    let em2 = encode_spec(k, m, l, seed2);
    assert(em1.subrange(1, 33) =~= ms1);
    assert(em2.subrange(1, 33) =~= ms2);
    assert(em1.subrange(33, k as int) =~= mdb1);
    assert(em2.subrange(33, k as int) =~= mdb2);
    if mdb1 == mdb2 {
        lemma_xor_twice(seed1, mgf_spec(mdb1, 32));
        lemma_xor_twice(seed2, mgf_spec(mdb2, 32));
        assert(ms1 != ms2);
    }
}

/// `a` masked octet-wise with the first `a.len()` octets of `b`.
fn xor_octets(a: &[u8], b: &[u8]) -> (r: Vec<u8>)
    requires
        a.len() <= b.len(),
    ensures
        r@ == xor_spec(a@, b@),
{
    let mut r: Vec<u8> = Vec::new();
    let mut i: usize = 0;
    while i < a.len()
        invariant
            i <= a.len(),
            a.len() <= b.len(),
            r@ == xor_spec(a@.subrange(0, i as int), b@),
        decreases a.len() - i,
    {
        r.push(a[i] ^ b[i]);
        i = i + 1;
        assert(r@ =~= xor_spec(a@.subrange(0, i as int), b@));
    }
    assert(a@.subrange(0, a.len() as int) =~= a@);
    r
}

/// The octets `s[lo..hi]`.
fn copy_range(s: &[u8], lo: usize, hi: usize) -> (r: Vec<u8>)
    requires
        lo <= hi <= s.len(),
    ensures
        r@ == s@.subrange(lo as int, hi as int),
{
    let mut r: Vec<u8> = Vec::new();
    let mut i: usize = lo;
    while i < hi
        invariant
            lo <= i <= hi,
            hi <= s.len(),
            r@ == s@.subrange(lo as int, i as int),
        decreases hi - i,
    {
        r.push(s[i]);
        i = i + 1;
        assert(r@ =~= s@.subrange(lo as int, i as int));
    }
    r
}

/// EME-OAEP encoding of `m` under label `l` into a block of `k` octets, with
/// the `H_LEN`-octet `seed` as the source of randomness.
///
/// Fails with `MessageTooLong` where `m.len() > k - 2 * H_LEN - 2`, and with
/// `MaskTooLong` where the data block exceeds what MGF1 can mask.
pub fn eme_oaep_encode(k: usize, m: &[u8], l: &[u8], seed: &[u8]) -> (r: Result<Vec<u8>, RsaError>)
    requires
        seed.len() == H_LEN,
    ensures
        match r {
            Ok(em) => fits(k as nat, m.len() as nat) && mask_in_range(k as nat) && em@
                == encode_spec(k as nat, m@, l@, seed@),
            Err(e) => if !fits(k as nat, m.len() as nat) {
                e == RsaError::MessageTooLong
            } else {
                !mask_in_range(k as nat) && e == RsaError::MaskTooLong
            },
        },
{
    if m.len() > k || k - m.len() < 2 * H_LEN + 2 {
        return Err(RsaError::MessageTooLong);
    }
    let ps_len = k - m.len() - 2 * H_LEN - 2;
    let l_hash = sha256(l);
    let mut db: Vec<u8> = Vec::new();
    append_octets(&mut db, l_hash.as_slice());
    let mut i: usize = 0;
    while i < ps_len
        invariant
            i <= ps_len,
            db@ == hash_spec(l@) + zeros(i as nat),
        decreases ps_len - i,
    {
        db.push(0);
        i = i + 1;
        assert(db@ =~= hash_spec(l@) + zeros(i as nat));
    }
    db.push(1);
    append_octets(&mut db, m);
    assert(db@ =~= data_block(k as nat, m@, l@));
    let db_mask = match mgf(seed, k - H_LEN - 1) {
        Ok(t) => t,
        Err(e) => {
            return Err(e);
        },
    };
    proof {
        lemma_mgf_len(seed@, (k - 33) as nat);
    }
    let masked_db = xor_octets(db.as_slice(), db_mask.as_slice());
    let seed_mask = match mgf(masked_db.as_slice(), H_LEN) {
        Ok(t) => t,
        Err(e) => {
            return Err(e);
        },
    };
    proof {
        lemma_mgf_len(masked_db@, 32);
    }
    let masked_seed = xor_octets(seed, seed_mask.as_slice());
    let mut em: Vec<u8> = Vec::new();
    em.push(0);
    append_octets(&mut em, masked_seed.as_slice());
    append_octets(&mut em, masked_db.as_slice());
    assert(em@ =~= encode_spec(k as nat, m@, l@, seed@));
    Ok(em)
}

/// EME-OAEP decoding of the `k`-octet block `em` under label `l`.
///
/// Every malformation gives the one error `DecodingError`. The digest is
/// compared in full and the whole data block is scanned for the separator
/// before the single decision, so no check ends early.
pub fn eme_oaep_decode(k: usize, em: &[u8], l: &[u8]) -> (r: Result<Vec<u8>, RsaError>)
    ensures
        match r {
            Ok(m) => decode_spec(k as nat, em@, l@) == Some(m@),
            Err(e) => decode_spec(k as nat, em@, l@) is None && e == RsaError::DecodingError,
        },
{
    if em.len() != k || k < 2 * H_LEN + 2 {
        return Err(RsaError::DecodingError);
    }
    let masked_seed = copy_range(em, 1, H_LEN + 1);
    let masked_db = copy_range(em, H_LEN + 1, k);
    let seed_mask = match mgf(masked_db.as_slice(), H_LEN) {
        Ok(t) => t,
        Err(_) => {
            return Err(RsaError::DecodingError);
        },
    };
    proof {
        lemma_mgf_len(masked_db@, 32);
    }
    let seed = xor_octets(masked_seed.as_slice(), seed_mask.as_slice());
    let db_mask = match mgf(seed.as_slice(), k - H_LEN - 1) {
        Ok(t) => t,
        Err(_) => {
            return Err(RsaError::DecodingError);
        },
    };
    proof {
        lemma_mgf_len(seed@, (k - 33) as nat);
    }
    let db = xor_octets(masked_db.as_slice(), db_mask.as_slice());
    assert(db@ == unmasked_db(k as nat, em@));
    let l_hash = sha256(l);
    let mut diff: u8 = 0;
    let mut i: usize = 0;
    while i < H_LEN
        invariant
            i <= H_LEN,
            db@.len() == k - 33,
            k >= 66,
            l_hash@ == hash_spec(l@),
            (diff == 0) == (forall|t: int| 0 <= t < i ==> db@[t] == hash_spec(l@)[t]),
        decreases H_LEN - i,
    {
        let x = db[i];
        let y = l_hash[i];
        let d = diff;
        assert((d | (x ^ y)) == 0 <==> (d == 0 && x == y)) by (bit_vector);
        diff = diff | (x ^ y);
        i = i + 1;
    }
    proof {
        if diff == 0 {
            assert(db@.subrange(0, 32) =~= hash_spec(l@));
        } else {
            let t = choose|t: int| 0 <= t < 32 && db@[t] != hash_spec(l@)[t];
            assert(db@.subrange(0, 32)[t] != hash_spec(l@)[t]);
        }
    }
    let mut sep: usize = db.len();
    let mut looking = true;
    let mut idx: usize = H_LEN;
    while idx < db.len()
        invariant
            H_LEN <= idx <= db@.len(),
            looking ==> sep == db@.len() && forall|t: int| H_LEN <= t < idx ==> db@[t] == 0,
            !looking ==> H_LEN <= sep < idx && db@[sep as int] != 0 && forall|t: int|
                H_LEN <= t < sep ==> db@[t] == 0,
        decreases db.len() - idx,
    {
        let nonzero = db[idx] != 0;
        if looking && nonzero {
            sep = idx;
        }
        looking = looking && !nonzero;
        idx = idx + 1;
    }
    proof {
        if looking {
            lemma_first_nonzero_none(db@, 32);
        } else {
            lemma_first_nonzero(db@, 32, sep as int);
        }
    }
    let sep_octet = if sep < db.len() {
        db[sep]
    } else {
        0
    };
    let lead = em[0];
    let bad = lead | diff | (sep_octet ^ 1);
    assert(bad == 0 <==> (lead == 0 && diff == 0 && sep_octet == 1)) by (bit_vector)
        requires
            bad == lead | diff | (sep_octet ^ 1),
    ;
    if bad != 0 {
        return Err(RsaError::DecodingError);
    }
    Ok(copy_range(db.as_slice(), sep + 1, db.len()))
}

proof fn lemma_first_nonzero_none(s: Seq<u8>, i: int)
    requires
        0 <= i <= s.len(),
        forall|t: int| i <= t < s.len() ==> s[t] == 0,
    ensures
        first_nonzero(s, i) == s.len(),
    decreases s.len() - i,
{
    if i < s.len() {
        lemma_first_nonzero_none(s, i + 1);
    }
}

} // verus!
