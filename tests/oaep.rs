use oaep_rsa::error::RsaError;
use oaep_rsa::mgf::{mgf, H_LEN};
use oaep_rsa::oaep::{eme_oaep_decode, eme_oaep_encode};

fn hex(s: &str) -> Vec<u8> {
    (0..s.len()).step_by(2).map(|i| u8::from_str_radix(&s[i..i + 2], 16).unwrap()).collect()
}

fn fixed_seed() -> Vec<u8> {
    (1..=32).collect()
}

const EM_HELLO: &str = "00fbf9ddd32469354d1cdc5e605a3cb1e14c146fedc19cbd666237298cc45d7cd5bad63d51caeb9c868f3a04805c168f4c96b4c5a137fb14364afd6626265b050ac1f5124b1177700ea2c0db6d9b1c0cfa370aa91149fa1d94920a1040f0ccd54f7b8d672230dfe67bd5cac2d32f9f5c2d300879fe67df3afb30181fb8ffe729";

#[test]
fn mgf_exact_multiple_of_hash_length() {
    let t = mgf(b"abc", 32).unwrap();
    assert_eq!(t, hex("cf2db1ac9867debdf8ce91f99f141e5544bf26ca36b3fd4f8e4035eec42cab0d"));
    let t = mgf(b"abc", 64).unwrap();
    assert_eq!(
        t,
        hex("cf2db1ac9867debdf8ce91f99f141e5544bf26ca36b3fd4f8e4035eec42cab0d46c386ebccef82ba0bb0b095aaa5548b03cdff6951871c6fb505af68af688332")
    );
}

#[test]
fn mgf_one_over_a_multiple() {
    let t = mgf(b"abc", 33).unwrap();
    assert_eq!(t.len(), 33);
    assert_eq!(t, hex("cf2db1ac9867debdf8ce91f99f141e5544bf26ca36b3fd4f8e4035eec42cab0d46"));
}

#[test]
fn mgf_short_and_empty_masks() {
    assert_eq!(mgf(b"abc", 0).unwrap(), Vec::<u8>::new());
    assert_eq!(mgf(b"abc", 3).unwrap(), hex("cf2db1"));
}

#[test]
fn mgf_rejects_mask_too_long() {
    let too_long = (1usize << 32) * H_LEN + 1;
    assert_eq!(mgf(b"abc", too_long), Err(RsaError::MaskTooLong));
}

#[test]
fn encode_matches_known_block() {
    let em = eme_oaep_encode(128, b"hello", b"label", &fixed_seed()).unwrap();
    assert_eq!(em, hex(EM_HELLO));
    assert_eq!(em.len(), 128);
    assert_eq!(em[0], 0);
}

#[test]
fn decode_recovers_known_block() {
    let m = eme_oaep_decode(128, &hex(EM_HELLO), b"label").unwrap();
    assert_eq!(m, b"hello".to_vec());
}

#[test]
fn encode_decode_at_capacity_and_empty() {
    let k = 128;
    let full: Vec<u8> = (0..(k - 2 * H_LEN - 2) as u8).collect();
    let em = eme_oaep_encode(k, &full, b"", &fixed_seed()).unwrap();
    assert_eq!(eme_oaep_decode(k, &em, b"").unwrap(), full);
    let em = eme_oaep_encode(k, b"", b"", &fixed_seed()).unwrap();
    assert_eq!(eme_oaep_decode(k, &em, b"").unwrap(), Vec::<u8>::new());
}

#[test]
fn encode_rejects_message_too_long() {
    let k = 128;
    let over = vec![7u8; k - 2 * H_LEN - 1];
    assert_eq!(eme_oaep_encode(k, &over, b"", &fixed_seed()), Err(RsaError::MessageTooLong));
    // A block too small for any message.
    assert_eq!(eme_oaep_encode(65, b"", b"", &fixed_seed()), Err(RsaError::MessageTooLong));
    assert!(eme_oaep_encode(66, b"", b"", &fixed_seed()).is_ok());
}

#[test]
fn decode_rejects_wrong_label() {
    assert_eq!(eme_oaep_decode(128, &hex(EM_HELLO), b"other"), Err(RsaError::DecodingError));
}

#[test]
fn decode_rejects_wrong_length() {
    let em = hex(EM_HELLO);
    assert_eq!(eme_oaep_decode(127, &em, b"label"), Err(RsaError::DecodingError));
    assert_eq!(eme_oaep_decode(128, &em[..127], b"label"), Err(RsaError::DecodingError));
    assert_eq!(eme_oaep_decode(65, &em[..65], b"label"), Err(RsaError::DecodingError));
}

#[test]
fn decode_detects_every_single_bit_flip() {
    let em = hex(EM_HELLO);
    for i in 0..em.len() {
        for bit in 0..8 {
            let mut tampered = em.clone();
            tampered[i] ^= 1 << bit;
            assert_eq!(
                eme_oaep_decode(128, &tampered, b"label"),
                Err(RsaError::DecodingError),
                "octet {} bit {}",
                i,
                bit
            );
        }
    }
}
