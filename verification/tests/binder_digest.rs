//! The canonical request-body digest.
use lsat_proxy::binder::body_to_sha256;
use lsat_proxy::bytes::hex_encode;

fn pairs(items: &[(&str, &str)]) -> Vec<(String, String)> {
    items
        .iter()
        .map(|(k, v)| (k.to_string(), v.to_string()))
        .collect()
}

#[test]
fn digest_invariant_under_permutation() {
    let d1 = body_to_sha256(&pairs(&[("a", "1"), ("b", "2")]));
    let d2 = body_to_sha256(&pairs(&[("b", "2"), ("a", "1")]));
    assert_eq!(d1, d2);
    assert_eq!(d1.len(), 32);
}

#[test]
fn digest_depends_on_content() {
    let d1 = body_to_sha256(&pairs(&[("a", "1"), ("b", "2")]));
    let d2 = body_to_sha256(&pairs(&[("a", "1"), ("b", "3")]));
    assert_ne!(d1, d2);
    // swapping a key/value association changes the canonical form
    let d3 = body_to_sha256(&pairs(&[("a", "1b"), ("b", "2")]));
    let d4 = body_to_sha256(&pairs(&[("a", "1"), ("b2", "")]));
    assert_ne!(d3, d4);
}

#[test]
fn digest_is_sha256_of_sorted_concatenation() {
    // keys in ascending order, keys and values concatenated: "a1b2"
    let d = body_to_sha256(&pairs(&[("b", "2"), ("a", "1")]));
    let direct = lsat_proxy::hashes::sha256(&b"a1b2".to_vec());
    assert_eq!(d, direct);
}

#[test]
fn empty_body_digest() {
    let d = body_to_sha256(&Vec::new());
    assert_eq!(
        hex_encode(&d),
        b"e3b0c44298fc1c149afbf4c8996fb92427ae41e4649b934ca495991b7852b855".to_vec()
    );
}
