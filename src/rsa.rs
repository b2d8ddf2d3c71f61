use rand_core::RngCore;
use vstd::arithmetic::power::*;
use vstd::prelude::*;

use crate::error::RsaError;
use crate::mgf::{hash_spec, H_LEN};
use crate::natural::{
    byte_length, i2osp, i2osp_spec, lemma_fits_iff_byte_length, lemma_i2osp_len,
    lemma_i2osp_of_os2ip, lemma_os2ip_bound, lemma_os2ip_leading_zeros, lemma_os2ip_of_i2osp,
    os2ip, os2ip_spec, zeros, Natural,
};
use crate::oaep::{
    decode_spec, eme_oaep_decode, eme_oaep_encode, encode_spec, fits, lemma_decode_encode,
    lemma_decode_other_label, lemma_encode_distinct_seeds, lemma_unmask, mask_in_range,
};

verus! {

/// An RSA public key: modulus `n` and public exponent `e`.
#[derive(Debug)]
pub struct PublicKey {
    pub n: Natural,
    pub e: Natural,
}

/// An RSA private key: modulus `n` and private exponent `d`.
#[derive(Debug)]
pub struct PrivateKey {
    pub n: Natural,
    pub d: Natural,
}

/// `x^y mod n`.
pub open spec fn mod_pow_spec(x: nat, y: nat, n: nat) -> nat {
    (pow(x as int, y) % (n as int)) as nat
}

/// The two keys share a modulus and their exponents undo each other on
/// every integer below it.
pub open spec fn key_pair_matches(pubkey: PublicKey, privkey: PrivateKey) -> bool {
    let n = pubkey.n.value();
    &&& privkey.n.value() == n
    &&& forall|x: nat|
        x < n ==> #[trigger] mod_pow_spec(mod_pow_spec(x, pubkey.e.value(), n), privkey.d.value(), n)
            == x
}

/// RSAES-OAEP ciphertext of `m` under label `l`, made with `seed`.
pub open spec fn encrypt_spec(pubkey: PublicKey, m: Seq<u8>, l: Seq<u8>, seed: Seq<u8>) -> Seq<u8> {
    let n = pubkey.n.value();
    let k = byte_length(n);
    let em = encode_spec(k, m, l, seed);
    i2osp_spec(mod_pow_spec(os2ip_spec(em), pubkey.e.value(), n), k)
}

/// RSAES-OAEP plaintext of the ciphertext `c` under label `l`, or `None`
/// where decryption fails.
pub open spec fn decrypt_spec(privkey: PrivateKey, c: Seq<u8>, l: Seq<u8>) -> Option<Seq<u8>> {
    let n = privkey.n.value();
    let k = byte_length(n);
    if c.len() != k || os2ip_spec(c) >= n {
        None
    } else {
        decode_spec(k, i2osp_spec(mod_pow_spec(os2ip_spec(c), privkey.d.value(), n), k), l)
    }
}

/// A key pair over the modulus `3233 = 61 * 53`, with `e = 17` and `d = 413`.
pub fn new_key_pair() -> (r: (PublicKey, PrivateKey))
    ensures
        r.0.n.value() == 3233,
        r.0.e.value() == 17,
        r.1.n.value() == 3233,
        r.1.d.value() == 413,
{
    let mut modulus: Vec<u8> = Vec::new();
    modulus.push(0x0c);
    modulus.push(0xa1);
    let mut public_exponent: Vec<u8> = Vec::new();
    public_exponent.push(17);
    let mut private_exponent: Vec<u8> = Vec::new();
    private_exponent.push(0x01);
    private_exponent.push(0x9d);
    proof {
        reveal_with_fuel(os2ip_spec, 3);
    }
    (
        PublicKey { n: os2ip(modulus.as_slice()), e: os2ip(public_exponent.as_slice()) },
        PrivateKey { n: os2ip(modulus.as_slice()), d: os2ip(private_exponent.as_slice()) },
    )
}

/// `x^y mod n`, or `MessageRepresentativeOutOfRange` where `x >= n`.
fn checked_mod_pow(x: &Natural, y: &Natural, n: &Natural) -> (r: Result<Natural, RsaError>)
    ensures
        match r {
            Ok(z) => x.value() < n.value() && z.value() == mod_pow_spec(x.value(), y.value(), n.value()),
            Err(e) => x.value() >= n.value() && e == RsaError::MessageRepresentativeOutOfRange,
        },
{
    if !x.is_less_than(n) {
        return Err(RsaError::MessageRepresentativeOutOfRange);
    }
    Ok(x.mod_pow(y, n))
}

/// RSAEP: `m^e mod n`, or `MessageRepresentativeOutOfRange` where `m >= n`.
pub fn rsaep(pubkey: &PublicKey, m: &Natural) -> (r: Result<Natural, RsaError>)
    ensures
        match r {
            Ok(c) => m.value() < pubkey.n.value() && c.value() == mod_pow_spec(
                m.value(),
                pubkey.e.value(),
                pubkey.n.value(),
            ),
            Err(e) => m.value() >= pubkey.n.value() && e == RsaError::MessageRepresentativeOutOfRange,
        },
{
    checked_mod_pow(m, &pubkey.e, &pubkey.n)
}

/// RSADP: `c^d mod n`, or `MessageRepresentativeOutOfRange` where `c >= n`.
pub fn rsadp(privkey: &PrivateKey, c: &Natural) -> (r: Result<Natural, RsaError>)
    ensures
        match r {
            Ok(m) => c.value() < privkey.n.value() && m.value() == mod_pow_spec(
                c.value(),
                privkey.d.value(),
                privkey.n.value(),
            ),
            Err(e) => c.value() >= privkey.n.value() && e == RsaError::MessageRepresentativeOutOfRange,
        },
{
    checked_mod_pow(c, &privkey.d, &privkey.n)
}

/// RSASP1: the signature `m^d mod n`, or `MessageRepresentativeOutOfRange`
/// where `m >= n`.
pub fn rsasp1(k: &PrivateKey, m: &Natural) -> (r: Result<Natural, RsaError>)
    ensures
        match r {
            Ok(s) => m.value() < k.n.value() && s.value() == mod_pow_spec(
                m.value(),
                k.d.value(),
                k.n.value(),
            ),
            Err(e) => m.value() >= k.n.value() && e == RsaError::MessageRepresentativeOutOfRange,
        },
{
    checked_mod_pow(m, &k.d, &k.n)
}

/// RSAVP1: `s^e mod n`, or `MessageRepresentativeOutOfRange` where `s >= n`.
pub fn rsavp1(x: &PublicKey, s: &Natural) -> (r: Result<Natural, RsaError>)
    ensures
        match r {
            Ok(m) => s.value() < x.n.value() && m.value() == mod_pow_spec(
                s.value(),
                x.e.value(),
                x.n.value(),
            ),
            Err(e) => s.value() >= x.n.value() && e == RsaError::MessageRepresentativeOutOfRange,
        },
{
    checked_mod_pow(s, &x.e, &x.n)
}

/// Facts on the sizes of a modulus of `k` octets.
proof fn lemma_modulus_bounds(n: nat)
    requires
        byte_length(n) > 0,
    ensures
        pow(256, (byte_length(n) - 1) as nat) <= n,
        n < pow(256, byte_length(n)),
{
    let k = byte_length(n);
    lemma_fits_iff_byte_length(n, (k - 1) as nat);
    lemma_fits_iff_byte_length(n, k);
}

/// An encoded block of `k` octets, which starts with a zero octet, denotes
/// an integer below a modulus of `k` octets.
proof fn lemma_encoded_below_modulus(n: nat, em: Seq<u8>)
    requires
        byte_length(n) > 0,
        em.len() == byte_length(n),
        em[0] == 0,
    ensures
        os2ip_spec(em) < n,
{
    let rest = em.subrange(1, em.len() as int);
    assert(em =~= zeros(1) + rest);
    lemma_os2ip_leading_zeros(1, rest);
    lemma_os2ip_bound(rest);
    lemma_modulus_bounds(n);
}

/// RSAES-OAEP encryption of `m` under label `l` with the given `H_LEN`-octet
/// seed: `I2OSP(RSAEP(OS2IP(EME-OAEP-Encode(m, l, seed))), k)`.
///
/// Fails with `MessageTooLong` exactly where `m.len() > k - 2 * H_LEN - 2`,
/// and with `MaskTooLong` where the block is beyond what MGF1 can mask.
pub fn rsaes_oaep_encrypt_with_seed(pubkey: &PublicKey, m: &[u8], l: &[u8], seed: &[u8]) -> (r:
    Result<Vec<u8>, RsaError>)
    requires
        seed.len() == H_LEN,
    ensures
        ({
            let k = byte_length(pubkey.n.value());
            match r {
                Ok(c) => fits(k, m.len() as nat) && mask_in_range(k) && c@ == encrypt_spec(
                    *pubkey,
                    m@,
                    l@,
                    seed@,
                ),
                Err(e) => if !fits(k, m.len() as nat) {
                    e == RsaError::MessageTooLong
                } else {
                    !mask_in_range(k) && e == RsaError::MaskTooLong
                },
            }
        }),
{
    let k = pubkey.n.octet_len();
    let em = match eme_oaep_encode(k, m, l, seed) {
        Ok(em) => em,
        Err(e) => {
            return Err(e);
        },
    };
    proof {
        lemma_unmask(k as nat, m@, l@, seed@);
        lemma_encoded_below_modulus(pubkey.n.value(), em@);
    }
    let x = os2ip(em.as_slice());
    let c = match rsaep(pubkey, &x) {
        Ok(c) => c,
        Err(e) => {
            return Err(e);
        },
    };
    proof {
        lemma_modulus_bounds(pubkey.n.value());
    }
    i2osp(&c, k)
}

/// Relies on `RngCore::try_fill_bytes` of `rand::rngs::OsRng`: `len` octets
/// from the operating system's secure random source, or `None` where that
/// source reports a failure (it does not panic).
#[verifier::external_body]
fn random_bytes(len: usize) -> (r: Option<Vec<u8>>)
    ensures
        r is Some ==> r->Some_0@.len() == len,
{
    let mut bytes = vec![0u8; len];
    match rand::rngs::OsRng.try_fill_bytes(&mut bytes) {
        Ok(()) => Some(bytes),
        Err(_) => None,
    }
}

/// RSAES-OAEP encryption of `m` under label `l` with a fresh random seed.
///
/// Fails with `MessageTooLong` exactly where `m.len() > k - 2 * H_LEN - 2`;
/// otherwise with `RandomnessUnavailable` where no seed could be drawn, or
/// with `MaskTooLong` where the block is beyond what MGF1 can mask.
pub fn rsaes_oaep_encrypt(pubkey: &PublicKey, m: Vec<u8>, l: &Vec<u8>) -> (r: Result<
    Vec<u8>,
    RsaError,
>)
    ensures
        ({
            let k = byte_length(pubkey.n.value());
            match r {
                Ok(c) => fits(k, m.len() as nat) && mask_in_range(k) && exists|seed: Seq<u8>|
                    seed.len() == H_LEN && c@ == #[trigger] encrypt_spec(*pubkey, m@, l@, seed),
                Err(e) => if !fits(k, m.len() as nat) {
                    e == RsaError::MessageTooLong
                } else {
                    e == RsaError::RandomnessUnavailable || (!mask_in_range(k) && e
                        == RsaError::MaskTooLong)
                },
            }
        }),
{
    let k = pubkey.n.octet_len();
    if m.len() > k || k - m.len() < 2 * H_LEN + 2 {
        return Err(RsaError::MessageTooLong);
    }
    let seed = match random_bytes(H_LEN) {
        Some(s) => s,
        None => {
            return Err(RsaError::RandomnessUnavailable);
        },
    };
    rsaes_oaep_encrypt_with_seed(pubkey, m.as_slice(), l.as_slice(), seed.as_slice())
}

/// RSAES-OAEP decryption of the ciphertext `c` under label `l`:
/// `EME-OAEP-Decode(I2OSP(RSADP(OS2IP(c)), k), l)`.
///
/// Every failure, a ciphertext of the wrong length or out of range included,
/// is the one error `DecodingError`.
pub fn rsaes_oaep_decrypt(privkey: &PrivateKey, c: &[u8], l: &[u8]) -> (r: Result<
    Vec<u8>,
    RsaError,
>)
    ensures
        match r {
            Ok(m) => decrypt_spec(*privkey, c@, l@) == Some(m@),
            Err(e) => decrypt_spec(*privkey, c@, l@) is None && e == RsaError::DecodingError,
        },
{
    let k = privkey.n.octet_len();
    if c.len() != k {
        return Err(RsaError::DecodingError);
    }
    let x = os2ip(c);
    let y = match rsadp(privkey, &x) {
        Ok(y) => y,
        Err(_) => {
            return Err(RsaError::DecodingError);
        },
    };
    proof {
        lemma_modulus_bounds(privkey.n.value());
    }
    let em = match i2osp(&y, k) {
        Ok(em) => em,
        Err(_) => {
            return Err(RsaError::DecodingError);
        },
    };
    eme_oaep_decode(k, em.as_slice(), l)
}

/// Round trip: under matching keys, decrypting the encryption of any message
/// that fits, under the same label, gives the message back.
pub proof fn lemma_round_trip(
    pubkey: PublicKey,
    privkey: PrivateKey,
    m: Seq<u8>,
    l: Seq<u8>,
    seed: Seq<u8>,
)
    requires
        key_pair_matches(pubkey, privkey),
        fits(byte_length(pubkey.n.value()), m.len()),
        mask_in_range(byte_length(pubkey.n.value())),
        seed.len() == H_LEN,
    ensures
        decrypt_spec(privkey, encrypt_spec(pubkey, m, l, seed), l) == Some(m),
{
    lemma_ciphertext_recovers_block(pubkey, privkey, m, l, seed);
    lemma_decode_encode(byte_length(pubkey.n.value()), m, l, seed);
}

/// Label binding: a ciphertext made under one label does not decrypt under a
/// label of another digest.
pub proof fn lemma_label_binding(
    pubkey: PublicKey,
    privkey: PrivateKey,
    m: Seq<u8>,
    l1: Seq<u8>,
    l2: Seq<u8>,
    seed: Seq<u8>,
)
    requires
        key_pair_matches(pubkey, privkey),
        fits(byte_length(pubkey.n.value()), m.len()),
        seed.len() == H_LEN,
        hash_spec(l1) != hash_spec(l2),
    ensures
        decrypt_spec(privkey, encrypt_spec(pubkey, m, l1, seed), l2) is None,
{
    lemma_ciphertext_recovers_block(pubkey, privkey, m, l1, seed);
    lemma_decode_other_label(byte_length(pubkey.n.value()), m, l1, l2, seed);
}

/// Under matching keys, distinct seeds give distinct ciphertexts of one
/// message under one label.
pub proof fn lemma_distinct_seeds(
    pubkey: PublicKey,
    privkey: PrivateKey,
    m: Seq<u8>,
    l: Seq<u8>,
    seed1: Seq<u8>,
    seed2: Seq<u8>,
)
    requires
        key_pair_matches(pubkey, privkey),
        fits(byte_length(pubkey.n.value()), m.len()),
        seed1.len() == H_LEN,
        seed2.len() == H_LEN,
        seed1 != seed2,
    ensures
        encrypt_spec(pubkey, m, l, seed1) != encrypt_spec(pubkey, m, l, seed2),
{
    let n = pubkey.n.value();
    let k = byte_length(n);
    let em1 = encode_spec(k, m, l, seed1);
    let em2 = encode_spec(k, m, l, seed2);
    lemma_encode_distinct_seeds(k, m, l, seed1, seed2);
    lemma_unmask(k, m, l, seed1);
    lemma_unmask(k, m, l, seed2);
    lemma_encoded_below_modulus(n, em1);
    lemma_encoded_below_modulus(n, em2);
    lemma_modulus_bounds(n);
    lemma_i2osp_of_os2ip(em1);
    lemma_i2osp_of_os2ip(em2);
    let x1 = os2ip_spec(em1);
    let x2 = os2ip_spec(em2);
    assert(x1 != x2);
    let y1 = mod_pow_spec(x1, pubkey.e.value(), n);
    let y2 = mod_pow_spec(x2, pubkey.e.value(), n);
    assert(y1 < n && y2 < n);
    lemma_os2ip_of_i2osp(y1, k);
    lemma_os2ip_of_i2osp(y2, k);
    assert(mod_pow_spec(y1, privkey.d.value(), n) == x1);
    assert(mod_pow_spec(y2, privkey.d.value(), n) == x2);
}

/// The largest message, `k - 2 * H_LEN - 2` octets with an empty padding
/// string, fits, encrypts to `k` octets and decrypts back.
pub proof fn lemma_largest_message(
    pubkey: PublicKey,
    privkey: PrivateKey,
    m: Seq<u8>,
    l: Seq<u8>,
    seed: Seq<u8>,
)
    requires
        key_pair_matches(pubkey, privkey),
        byte_length(pubkey.n.value()) >= 2 * H_LEN + 2,
        m.len() == byte_length(pubkey.n.value()) - 2 * H_LEN - 2,
        mask_in_range(byte_length(pubkey.n.value())),
        seed.len() == H_LEN,
    ensures
        fits(byte_length(pubkey.n.value()), m.len()),
        encrypt_spec(pubkey, m, l, seed).len() == byte_length(pubkey.n.value()),
        decrypt_spec(privkey, encrypt_spec(pubkey, m, l, seed), l) == Some(m),
{
    lemma_ciphertext_recovers_block(pubkey, privkey, m, l, seed);
    lemma_round_trip(pubkey, privkey, m, l, seed);
}

/// The private-key side of decryption recovers the encoded block.
proof fn lemma_ciphertext_recovers_block(
    pubkey: PublicKey,
    privkey: PrivateKey,
    m: Seq<u8>,
    l: Seq<u8>,
    seed: Seq<u8>,
)
    requires
        key_pair_matches(pubkey, privkey),
        fits(byte_length(pubkey.n.value()), m.len()),
        seed.len() == H_LEN,
    ensures
        ({
            let n = pubkey.n.value();
            let k = byte_length(n);
            let c = encrypt_spec(pubkey, m, l, seed);
            &&& c.len() == k
            &&& os2ip_spec(c) < n
            &&& i2osp_spec(mod_pow_spec(os2ip_spec(c), privkey.d.value(), n), k) == encode_spec(
                k,
                m,
                l,
                seed,
            )
        }),
{
    let n = pubkey.n.value();
    let k = byte_length(n);
    let em = encode_spec(k, m, l, seed);
    lemma_unmask(k, m, l, seed);
    lemma_encoded_below_modulus(n, em);
    lemma_modulus_bounds(n);
    let x = os2ip_spec(em);
    let y = mod_pow_spec(x, pubkey.e.value(), n);
    assert(y < n);
    lemma_i2osp_len(y, k);
    lemma_os2ip_of_i2osp(y, k);
    assert(mod_pow_spec(y, privkey.d.value(), n) == x);
    lemma_i2osp_of_os2ip(em);
}

} // verus!
