use oaep_rsa::error::RsaError;
use oaep_rsa::natural::{i2osp, os2ip};
use oaep_rsa::rsa::{new_key_pair, rsadp, rsaep, rsaes_oaep_encrypt, rsasp1, rsavp1};

#[test]
fn test_encrypt_decrypt() {
    let want = os2ip(&[42]);
    let (pubkey, privkey) = new_key_pair();
    let ciphertext = rsaep(&pubkey, &want).unwrap();
    let got = rsadp(&privkey, &ciphertext).unwrap();
    assert_eq!(want, got);
}

#[test]
fn test_verification() {
    let want = os2ip(&[84]);
    let (pubkey, privkey) = new_key_pair();
    let signature = rsasp1(&privkey, &want).unwrap();
    let got = rsavp1(&pubkey, &signature).unwrap();
    assert_eq!(want, got);
}

#[test]
fn test_rsaes_oaep_encrypt() {
    // A two-octet modulus cannot hold any OAEP block.
    let (pubkey, _) = new_key_pair();
    let r = rsaes_oaep_encrypt(&pubkey, vec![], &vec![]);
    assert_eq!(r, Err(RsaError::MessageTooLong));
}

#[test]
fn rsaep_gives_known_ciphertext() {
    // 42^17 mod 3233 = 2557 = 0x09fd
    let (pubkey, _) = new_key_pair();
    let c = rsaep(&pubkey, &os2ip(&[42])).unwrap();
    assert_eq!(c, os2ip(&[0x09, 0xfd]));
    assert_eq!(i2osp(&c, 2).unwrap(), vec![0x09, 0xfd]);
}

#[test]
fn primitives_reject_representative_at_modulus() {
    let (pubkey, privkey) = new_key_pair();
    let at_modulus = os2ip(&[0x0c, 0xa1]);
    assert_eq!(rsaep(&pubkey, &at_modulus), Err(RsaError::MessageRepresentativeOutOfRange));
    assert_eq!(rsadp(&privkey, &at_modulus), Err(RsaError::MessageRepresentativeOutOfRange));
    assert_eq!(rsasp1(&privkey, &at_modulus), Err(RsaError::MessageRepresentativeOutOfRange));
    assert_eq!(rsavp1(&pubkey, &at_modulus), Err(RsaError::MessageRepresentativeOutOfRange));
    let below = os2ip(&[0x0c, 0xa0]);
    assert!(rsaep(&pubkey, &below).is_ok());
}

#[test]
fn primitives_on_zero_and_one() {
    let (pubkey, privkey) = new_key_pair();
    assert_eq!(rsaep(&pubkey, &os2ip(&[])).unwrap(), os2ip(&[0]));
    assert_eq!(rsadp(&privkey, &os2ip(&[1])).unwrap(), os2ip(&[1]));
}

#[test]
fn os2ip_ignores_leading_zeros() {
    assert_eq!(os2ip(&[0, 0, 1, 2]), os2ip(&[1, 2]));
    assert_eq!(os2ip(&[0, 0]), os2ip(&[]));
    assert_ne!(os2ip(&[1, 0]), os2ip(&[1]));
}

#[test]
fn i2osp_pads_on_the_left() {
    let x = os2ip(&[0x01, 0x02]);
    assert_eq!(i2osp(&x, 4).unwrap(), vec![0, 0, 1, 2]);
    assert_eq!(i2osp(&x, 2).unwrap(), vec![1, 2]);
    assert_eq!(i2osp(&os2ip(&[]), 3).unwrap(), vec![0, 0, 0]);
    assert_eq!(i2osp(&os2ip(&[]), 0).unwrap(), Vec::<u8>::new());
}

#[test]
fn i2osp_rejects_integer_too_large() {
    // 256 does not fit in one octet; 255 does.
    assert_eq!(i2osp(&os2ip(&[1, 0]), 1), Err(RsaError::IntegerTooLarge));
    assert_eq!(i2osp(&os2ip(&[0xff]), 1).unwrap(), vec![0xff]);
    assert_eq!(i2osp(&os2ip(&[1]), 0), Err(RsaError::IntegerTooLarge));
}

#[test]
fn octet_len_is_byte_length() {
    assert_eq!(os2ip(&[0, 0x0c, 0xa1]).octet_len(), 2);
    assert_eq!(os2ip(&[0]).octet_len(), 0);
    assert_eq!(os2ip(&[0x80, 0, 0]).octet_len(), 3);
}

#[test]
fn comparison_and_mod_pow() {
    let a = os2ip(&[1, 0]);
    let b = os2ip(&[0xff]);
    assert!(b.is_less_than(&a));
    assert!(!a.is_less_than(&b));
    assert!(!a.is_less_than(&a));
    // 3^5 mod 7 = 243 mod 7 = 5
    let r = os2ip(&[3]).mod_pow(&os2ip(&[5]), &os2ip(&[7]));
    assert_eq!(r, os2ip(&[5]));
}
