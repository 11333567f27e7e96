//! End-to-end credential lifecycle: mint, verify, charge, reject.
use lsat_proxy::api::{settle_and_charge, verify_and_charge, verify_credential};
use lsat_proxy::config::Backend;
use lsat_proxy::db::{open_temporary, Entry};
use lsat_proxy::hashes::sha256;
use lsat_proxy::lnd::InvoiceState;
use lsat_proxy::lsat::{parse_lsat, Lsat, LsatError, MiliSats, PaymentHashDef, PaymentPreimage};

fn backend(path: &str, price: u32, multiple: Option<u32>) -> Backend {
    Backend {
        name: "test".to_string(),
        path: path.to_string(),
        upstream: "https://upstream.example/api".to_string(),
        headers: vec!["X-Api-Key: test-key".to_string()],
        body: "{}".to_string(),
        pass_fields: vec![],
        capabilties: "".to_string(),
        constraints: vec![],
        price_msat: price,
        budget_multiple: multiple,
        price_passthrough: false,
        response_fields: "data".to_string(),
    }
}

fn mint(
    db: &mut sled::Db,
    backend: &Backend,
    preimage: &[u8],
    now: u64,
) -> (String, lsat_proxy::lsat::Id) {
    let payment_hash = sha256(&preimage.to_vec());
    let body_sha = sha256(&b"{}".to_vec());
    let challenge = Lsat::generate_challange(
        db,
        backend,
        &body_sha,
        &PaymentHashDef(payment_hash),
        "lnbc10n1fakerequest",
        now,
    )
    .expect("mint");
    (challenge.header_value, challenge.id)
}

fn parse_minted(header_value: &str, preimage: &[u8]) -> (Lsat, PaymentPreimage) {
    // header value: LSAT macaroon="<token>" invoice="<bolt11>"
    let start = header_value.find('"').unwrap() + 1;
    let end = header_value[start..].find('"').unwrap() + start;
    let token = &header_value[start..end];
    let auth = format!("LSAT {}:{}", token, hex::encode(preimage));
    parse_lsat(Some(&auth.into_bytes()), None, None).expect("parse")
}

#[test]
fn challenge_stores_full_budget() {
    let mut db = open_temporary().unwrap();
    let b = backend("/echo", 1000, Some(3));
    let preimage = [7u8; 32];
    let (header, id) = mint(&mut db, &b, &preimage, 0);
    assert!(header.starts_with("LSAT macaroon=\""));
    assert!(header.contains("invoice=\"lnbc10n1fakerequest\""));
    let entry = Entry::get(&db, &id).expect("entry");
    assert_eq!(entry.quota, MiliSats(3000));
}

#[test]
fn budget_multiple_defaults_to_one() {
    let mut db = open_temporary().unwrap();
    let b = backend("/echo", 700, None);
    let preimage = [9u8; 32];
    let (_, id) = mint(&mut db, &b, &preimage, 0);
    let entry = Entry::get(&db, &id).expect("entry");
    assert_eq!(entry.quota, MiliSats(700));
}

#[test]
fn amortized_verifications_exhaust_quota() {
    let mut db = open_temporary().unwrap();
    let b = backend("/echo", 1000, Some(3));
    let preimage = [7u8; 32];
    let (header, _) = mint(&mut db, &b, &preimage, 0);
    let (lsat, pre) = parse_minted(&header, &preimage);

    // three successful verifications: 3000 -> 2000 -> 1000 -> 0 (deleted)
    let mut remaining = Vec::new();
    for _ in 0..3 {
        let entry = verify_credential(&db, &lsat, &pre, &b, 10).expect("verify");
        let rem = settle_and_charge(&mut db, &entry, InvoiceState::Settled, b.get_price())
            .expect("charge");
        remaining.push(rem.0);
    }
    assert_eq!(remaining, vec![2000, 1000, 0]);

    // the record is gone: a fourth attempt fails the ledger lookup
    let again = verify_credential(&db, &lsat, &pre, &b, 10);
    assert_eq!(again.unwrap_err(), LsatError::Expired);
}

#[test]
fn wrong_preimage_rejected_without_charge() {
    let mut db = open_temporary().unwrap();
    let b = backend("/echo", 1000, Some(2));
    let preimage = [7u8; 32];
    let (header, id) = mint(&mut db, &b, &preimage, 0);

    let zeros = [0u8; 32];
    let (lsat, _) = parse_minted(&header, &preimage);
    let bad = PaymentPreimage(zeros.to_vec());
    let r = verify_credential(&db, &lsat, &bad, &b, 10);
    assert_eq!(r.unwrap_err(), LsatError::PreimageMismatch);
    // quota unchanged
    let entry = Entry::get(&db, &id).expect("entry");
    assert_eq!(entry.quota, MiliSats(2000));
}

#[test]
fn expired_deadline_rejected_even_if_settled() {
    let mut db = open_temporary().unwrap();
    let b = backend("/echo", 1000, Some(1));
    let preimage = [3u8; 32];
    let (header, _) = mint(&mut db, &b, &preimage, 0);
    let (lsat, pre) = parse_minted(&header, &preimage);

    // minted at t=0, deadline time<120: accepted before, rejected at and after
    assert!(verify_credential(&db, &lsat, &pre, &b, 119).is_ok());
    assert_eq!(
        verify_credential(&db, &lsat, &pre, &b, 120).unwrap_err(),
        LsatError::CaveatUnsatisfied
    );
    assert_eq!(
        verify_credential(&db, &lsat, &pre, &b, 121).unwrap_err(),
        LsatError::CaveatUnsatisfied
    );
}

#[test]
fn unsettled_invoice_rejected() {
    let mut db = open_temporary().unwrap();
    let b = backend("/echo", 1000, Some(1));
    let preimage = [5u8; 32];
    let (header, _) = mint(&mut db, &b, &preimage, 0);
    let (lsat, pre) = parse_minted(&header, &preimage);
    let entry = verify_credential(&db, &lsat, &pre, &b, 10).expect("verify");
    let r = settle_and_charge(&mut db, &entry, InvoiceState::Open, b.get_price());
    assert_eq!(r.unwrap_err(), LsatError::NotSettled);
    // charge beyond quota is rejected, never underflowing
    let entry = verify_credential(&db, &lsat, &pre, &b, 10).expect("verify");
    let r = settle_and_charge(&mut db, &entry, InvoiceState::Settled, MiliSats(2000));
    assert_eq!(r.unwrap_err(), LsatError::QuotaExceeded);
}

#[test]
fn single_call_charge_span() {
    // the whole verify-and-decrement span as one library call
    let mut db = open_temporary().unwrap();
    let b = backend("/echo", 500, Some(2));
    let preimage = [11u8; 32];
    let (header, id) = mint(&mut db, &b, &preimage, 0);
    let (lsat, pre) = parse_minted(&header, &preimage);

    let r = verify_and_charge(&mut db, &lsat, &pre, &b, 10, InvoiceState::Open);
    assert_eq!(r.unwrap_err(), LsatError::NotSettled);
    assert_eq!(Entry::get(&db, &id).unwrap().quota, MiliSats(1000));

    let r = verify_and_charge(&mut db, &lsat, &pre, &b, 10, InvoiceState::Settled);
    assert_eq!(r.unwrap(), MiliSats(500));
    let r = verify_and_charge(&mut db, &lsat, &pre, &b, 10, InvoiceState::Settled);
    assert_eq!(r.unwrap(), MiliSats(0));
    let r = verify_and_charge(&mut db, &lsat, &pre, &b, 10, InvoiceState::Settled);
    assert_eq!(r.unwrap_err(), LsatError::Expired);
}

#[test]
fn wrong_path_rejected() {
    let mut db = open_temporary().unwrap();
    let b = backend("/echo", 1000, Some(1));
    let preimage = [5u8; 32];
    let (header, _) = mint(&mut db, &b, &preimage, 0);
    let (lsat, pre) = parse_minted(&header, &preimage);
    let other = backend("/other", 1000, Some(1));
    let r = verify_credential(&db, &lsat, &pre, &other, 10);
    assert_eq!(r.unwrap_err(), LsatError::CaveatUnsatisfied);
}

#[test]
fn foreign_macaroon_rejected() {
    let mut db = open_temporary().unwrap();
    let b = backend("/echo", 1000, Some(1));
    let preimage = [5u8; 32];
    let (header, _) = mint(&mut db, &b, &preimage, 0);
    let (lsat, pre) = parse_minted(&header, &preimage);

    // re-sign the same identity under a different key: the chain check fails
    macaroon::initialize().unwrap();
    let key = macaroon::MacaroonKey::from([42u8; 32]);
    let mut forged = macaroon::Macaroon::create(
        Some("https://lsat-playground.bucko.vercel.app".to_string()),
        &key,
        macaroon::ByteString(lsat.mac.identifier.clone()),
    )
    .unwrap();
    for c in &lsat.mac.caveats {
        forged.add_first_party_caveat(macaroon::ByteString(c.clone()));
    }
    let token = forged.serialize(macaroon::Format::V1).unwrap();
    let auth = format!("LSAT {}:{}", token, hex::encode(preimage));
    let (forged_lsat, forged_pre) = parse_lsat(Some(&auth.into_bytes()), None, None).unwrap();
    let r = verify_credential(&db, &forged_lsat, &forged_pre, &b, 10);
    assert_eq!(r.unwrap_err(), LsatError::SignatureMismatch);
    // while the genuine one still passes
    assert!(verify_credential(&db, &lsat, &pre, &b, 10).is_ok());
}

#[test]
fn macaroon_header_shapes_carry_preimage_caveat() {
    macaroon::initialize().unwrap();
    let mut db = open_temporary().unwrap();
    let b = backend("/echo", 1000, Some(1));
    let preimage = [8u8; 32];
    let (header, _) = mint(&mut db, &b, &preimage, 0);
    let start = header.find('"').unwrap() + 1;
    let end = header[start..].find('"').unwrap() + start;
    let token = &header[start..end];

    // embed the preimage as a first-party constraint, as gRPC clients do
    let mut mac = macaroon::Macaroon::deserialize(token).unwrap();
    mac.add_first_party_caveat(macaroon::ByteString(
        format!("preimage={}", hex::encode(preimage)).into_bytes(),
    ));
    let token2 = mac.serialize(macaroon::Format::V1).unwrap().into_bytes();

    let (l1, p1) = parse_lsat(None, Some(&token2), None).expect("meta header");
    assert_eq!(p1.0, preimage.to_vec());
    let (_, p2) = parse_lsat(None, None, Some(&token2)).expect("macaroon header");
    assert_eq!(p2.0, preimage.to_vec());
    assert_eq!(l1.id.payment_hash, sha256(&preimage.to_vec()));
}

#[test]
fn missing_and_malformed_headers() {
    assert_eq!(
        parse_lsat(None, None, None).unwrap_err(),
        LsatError::HeaderMissing
    );
    let bad = b"Bearer something".to_vec();
    assert_eq!(
        parse_lsat(Some(&bad), None, None).unwrap_err(),
        LsatError::HeaderMalformed
    );
    // 63 hex digits only: the shape does not match
    let short = format!("LSAT abc:{}", "a".repeat(63)).into_bytes();
    assert_eq!(
        parse_lsat(Some(&short), None, None).unwrap_err(),
        LsatError::HeaderMalformed
    );
}
