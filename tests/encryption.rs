use oaep_rsa::error::RsaError;
use oaep_rsa::mgf::H_LEN;
use oaep_rsa::natural::os2ip;
use oaep_rsa::rsa::{
    rsaes_oaep_decrypt, rsaes_oaep_encrypt, rsaes_oaep_encrypt_with_seed, PrivateKey, PublicKey,
};

const N: &str = "f2be6bc48b74691e99e7c79c03a2a6d936ca8de9ca1c3d90333f6da7e6e76955ade0923b7c9e85e974042d58c64a6d033c806d1dba9eab809625a5738635d5a442392758b9f2afa9203d906f714bc04ae116d5539a589c3ed5b79576aa7d6c508ef210f9af323d8c7002f47600990acc4380e6d704f72af0a07a99838c6d3c47";
const D: &str = "5579b1eefa801a47d93fe16cd166e3c396e48a462991fa279db41703c96df10c6776ad675f015efc0e8b2e00958a3d8aa7323db9fb2dc60c3852b748cf98834a6d28a69a796477204ff2908f07b58f51684fe2b7d4797d1166a806ebade0fb555cbb557c231b0ba942efac51ab365a01ff0b7c29edf83135cabb5d20c107a089";
const C_HELLO: &str = "cef6d03cda7e9448bfb62e936f2ce68793e443a5d185ea58f8c150abcaf00adf645c10bdf9e00fad83bb7bc1eb1e1bb07fe8a0e254d04eb13e2ea176dc75b8d8d045b2d6e20975e428ae00747c8bc8bda8f0d006951c76f7a4e21e2fbe7be69cb22282fcee6d83674471bd95333af4e3ad404808b811e581151845e75349d77b";
const K: usize = 128;

fn hex(s: &str) -> Vec<u8> {
    (0..s.len()).step_by(2).map(|i| u8::from_str_radix(&s[i..i + 2], 16).unwrap()).collect()
}

fn keys() -> (PublicKey, PrivateKey) {
    let n = hex(N);
    (
        PublicKey { n: os2ip(&n), e: os2ip(&[1, 0, 1]) },
        PrivateKey { n: os2ip(&n), d: os2ip(&hex(D)) },
    )
}

fn fixed_seed() -> Vec<u8> {
    (1..=32).collect()
}

#[test]
fn encrypt_with_seed_matches_known_ciphertext() {
    let (pubkey, _) = keys();
    let c = rsaes_oaep_encrypt_with_seed(&pubkey, b"hello", b"label", &fixed_seed()).unwrap();
    assert_eq!(c, hex(C_HELLO));
}

#[test]
fn decrypt_known_ciphertext() {
    let (_, privkey) = keys();
    let m = rsaes_oaep_decrypt(&privkey, &hex(C_HELLO), b"label").unwrap();
    assert_eq!(m, b"hello".to_vec());
}

#[test]
fn round_trip_various_messages_and_labels() {
    let (pubkey, privkey) = keys();
    let messages: Vec<Vec<u8>> =
        vec![vec![], b"a".to_vec(), b"attack at dawn".to_vec(), vec![0u8; 20], vec![0xffu8; 62]];
    let labels: Vec<Vec<u8>> = vec![vec![], b"label".to_vec(), vec![0u8; 100]];
    for m in &messages {
        for l in &labels {
            let c = rsaes_oaep_encrypt(&pubkey, m.clone(), l).unwrap();
            assert_eq!(c.len(), K);
            assert_eq!(rsaes_oaep_decrypt(&privkey, &c, l).unwrap(), *m);
        }
    }
}

#[test]
fn encryptions_differ_yet_both_decrypt() {
    let (pubkey, privkey) = keys();
    let m = b"same message".to_vec();
    let l = b"same label".to_vec();
    let c1 = rsaes_oaep_encrypt(&pubkey, m.clone(), &l).unwrap();
    let c2 = rsaes_oaep_encrypt(&pubkey, m.clone(), &l).unwrap();
    assert_ne!(c1, c2);
    assert_eq!(rsaes_oaep_decrypt(&privkey, &c1, &l).unwrap(), m);
    assert_eq!(rsaes_oaep_decrypt(&privkey, &c2, &l).unwrap(), m);
}

#[test]
fn decrypt_under_other_label_fails() {
    let (pubkey, privkey) = keys();
    let c = rsaes_oaep_encrypt(&pubkey, b"secret".to_vec(), &b"L1".to_vec()).unwrap();
    assert_eq!(rsaes_oaep_decrypt(&privkey, &c, b"L2"), Err(RsaError::DecodingError));
    assert_eq!(rsaes_oaep_decrypt(&privkey, &c, b""), Err(RsaError::DecodingError));
}

#[test]
fn encrypt_length_boundary() {
    let (pubkey, privkey) = keys();
    let l = Vec::new();
    let fits = vec![5u8; K - 2 * H_LEN - 2];
    let c = rsaes_oaep_encrypt(&pubkey, fits.clone(), &l).unwrap();
    assert_eq!(rsaes_oaep_decrypt(&privkey, &c, &l).unwrap(), fits);
    let over = vec![5u8; K - 2 * H_LEN - 1];
    assert_eq!(rsaes_oaep_encrypt(&pubkey, over.clone(), &l), Err(RsaError::MessageTooLong));
    assert_eq!(
        rsaes_oaep_encrypt_with_seed(&pubkey, &over, &l, &fixed_seed()),
        Err(RsaError::MessageTooLong)
    );
}

#[test]
fn decrypt_rejects_bad_ciphertexts() {
    let (_, privkey) = keys();
    let c = hex(C_HELLO);
    assert_eq!(rsaes_oaep_decrypt(&privkey, &c[..K - 1], b"label"), Err(RsaError::DecodingError));
    // The modulus itself is out of range.
    assert_eq!(rsaes_oaep_decrypt(&privkey, &hex(N), b"label"), Err(RsaError::DecodingError));
    let mut flipped = c.clone();
    flipped[K - 1] ^= 1;
    assert_eq!(rsaes_oaep_decrypt(&privkey, &flipped, b"label"), Err(RsaError::DecodingError));
}
