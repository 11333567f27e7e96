//! Byte codecs, identity round-trips, ledger record framing, digests.
use lsat_proxy::bytes::{hex_decode, hex_encode, parse_dec, u64_to_dec};
use lsat_proxy::db::Entry;
use lsat_proxy::hashes::sha256;
use lsat_proxy::lsat::{FromPreimage, Id, LsatError, MiliSats, PaymentHashDef, PaymentPreimage};

#[test]
fn sha256_matches_known_vector() {
    // SHA-256 of the empty string
    let d = sha256(&Vec::new());
    assert_eq!(
        hex_encode(&d),
        b"e3b0c44298fc1c149afbf4c8996fb92427ae41e4649b934ca495991b7852b855".to_vec()
    );
}

#[test]
fn hex_round_trip_and_cases() {
    assert_eq!(hex_encode(&vec![0xde, 0xad, 0x01]), b"dead01".to_vec());
    assert_eq!(hex_decode(&b"DEAD01".to_vec()), Some(vec![0xde, 0xad, 0x01]));
    assert_eq!(hex_decode(&b"dead0".to_vec()), None); // odd length
    assert_eq!(hex_decode(&b"zz".to_vec()), None); // not hex
    assert_eq!(hex_decode(&Vec::new()), Some(Vec::new()));
}

#[test]
fn decimal_round_trip() {
    assert_eq!(u64_to_dec(0), b"0".to_vec());
    assert_eq!(u64_to_dec(18446744073709551615), b"18446744073709551615".to_vec());
    assert_eq!(parse_dec(&b"120".to_vec()), Some(120));
    assert_eq!(parse_dec(&b"".to_vec()), None);
    assert_eq!(parse_dec(&b"12a".to_vec()), None);
    assert_eq!(parse_dec(&b"18446744073709551616".to_vec()), None); // overflow
}

#[test]
fn id_round_trip() {
    let hash = sha256(&b"preimage-material".to_vec());
    let id = Id::new(PaymentHashDef(hash.clone()));
    let encoded = id.encode();
    assert_eq!(encoded.len(), 72);
    let back = Id::decode(&encoded).expect("decode");
    assert_eq!(back.version, id.version);
    assert_eq!(back.payment_hash, id.payment_hash);
    assert_eq!(back.token_id, id.token_id);
    assert_eq!(back.payment_hash, hash);
}

#[test]
fn id_decode_rejects_bad_input() {
    assert!(Id::decode(&vec![0u8; 71]).is_err());
    assert!(Id::decode(&vec![0u8; 73]).is_err());
    let mut wrong_version = vec![0u8; 72];
    wrong_version[0] = 1;
    assert!(Id::decode(&wrong_version).is_err());
    assert!(Id::decode(&vec![0u8; 72]).is_ok());
}

#[test]
fn identity_digest_is_stable() {
    let hash = sha256(&b"x".to_vec());
    let id = Id::new(PaymentHashDef(hash));
    let d1 = id.to_sha256();
    let d2 = id.to_sha256();
    assert_eq!(d1, d2);
    assert_eq!(d1.len(), 32);
    assert_eq!(d1, sha256(&id.encode()));
}

#[test]
fn entry_record_round_trip() {
    let e = Entry {
        id: b"lsat/proxy/secrets/00ff".to_vec(),
        secret: vec![9u8; 32],
        quota: MiliSats(12345),
    };
    let bytes = e.encode();
    let back = Entry::decode(&bytes).expect("decode");
    assert_eq!(back.id, e.id);
    assert_eq!(back.secret, e.secret);
    assert_eq!(back.quota, MiliSats(12345));
    assert!(Entry::decode(&bytes[..bytes.len() - 1].to_vec()).is_none());
}

#[test]
fn preimage_from_hex_text() {
    let hexed = b"07".repeat(32);
    let p = PaymentPreimage::from_preimage(&hexed).expect("preimage");
    assert_eq!(p.0, vec![0x07u8; 32]);
    // shorter than 32 bytes is rejected
    let short = b"aa".repeat(31);
    assert_eq!(
        PaymentPreimage::from_preimage(&short).unwrap_err(),
        LsatError::HeaderMalformed
    );
    // longer input keeps the first 32 bytes, as the engine always did
    let long = b"ab".repeat(40);
    let p = PaymentPreimage::from_preimage(&long).expect("long preimage");
    assert_eq!(p.0, vec![0xabu8; 32]);
}
