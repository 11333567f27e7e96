//! The challenge/verify state machine, rejection mapping, the invoice cache,
//! and the invoice-side helpers.
use lsat_proxy::api::{
    flow_step, handle_invoice_status, handle_rejection, invoice_status_reply, FlowAction,
    FlowEvent, FlowState,
};
use lsat_proxy::lnd::{cache_ttl, generate_invoice, Invoice, InvoiceCache, InvoiceState};
use lsat_proxy::lsat::{HeaderName, LsatError, MiliSats};

#[test]
fn flow_follows_the_table() {
    assert_eq!(
        flow_step(FlowState::Start, FlowEvent::AuthHeaderMissing),
        (FlowState::Challenged, FlowAction::MintChallenge)
    );
    assert_eq!(
        flow_step(FlowState::Start, FlowEvent::AuthHeaderPresent),
        (FlowState::Parsing, FlowAction::ParseHeader)
    );
    assert_eq!(
        flow_step(FlowState::Parsing, FlowEvent::ParseFailed),
        (FlowState::Rejected, FlowAction::RespondRejected)
    );
    assert_eq!(
        flow_step(FlowState::Parsing, FlowEvent::ParseSucceeded),
        (FlowState::Verifying, FlowAction::RunVerify)
    );
    assert_eq!(
        flow_step(FlowState::Verifying, FlowEvent::VerifyFailed),
        (FlowState::Rejected, FlowAction::RespondRejected)
    );
    assert_eq!(
        flow_step(FlowState::Verifying, FlowEvent::VerifySucceeded),
        (FlowState::Charged, FlowAction::ChargeQuota)
    );
    // the charged state moves on unconditionally, forwarding upstream
    assert_eq!(
        flow_step(FlowState::Charged, FlowEvent::UpstreamFailed),
        (FlowState::Forwarding, FlowAction::ForwardUpstream)
    );
    assert_eq!(
        flow_step(FlowState::Charged, FlowEvent::UpstreamSucceeded),
        (FlowState::Forwarding, FlowAction::ForwardUpstream)
    );
    assert_eq!(
        flow_step(FlowState::Forwarding, FlowEvent::UpstreamFailed),
        (FlowState::Rejected, FlowAction::RespondUpstreamError)
    );
    assert_eq!(
        flow_step(FlowState::Forwarding, FlowEvent::UpstreamSucceeded),
        (FlowState::Done, FlowAction::RespondData)
    );
    // terminal states hold
    assert_eq!(
        flow_step(FlowState::Done, FlowEvent::ParseFailed),
        (FlowState::Done, FlowAction::Hold)
    );
    assert_eq!(
        flow_step(FlowState::Rejected, FlowEvent::VerifySucceeded),
        (FlowState::Rejected, FlowAction::Hold)
    );
    assert_eq!(
        flow_step(FlowState::Challenged, FlowEvent::AuthHeaderPresent),
        (FlowState::Challenged, FlowAction::Hold)
    );
}

#[test]
fn rejections_map_to_status_and_message() {
    let (code, msg) = handle_rejection(&LsatError::Expired);
    assert_eq!(code, 400);
    assert_eq!(msg, "No db entry for LSAT, possibly expired");
    let (code, msg) = handle_rejection(&LsatError::NotSettled);
    assert_eq!(code, 400);
    assert_eq!(msg, "Invoice is not settled");
    let (code, msg) = handle_rejection(&LsatError::PreimageMismatch);
    assert_eq!(code, 400);
    assert_eq!(msg, "Preimage does not match payment hash");
    let (code, msg) = handle_rejection(&LsatError::StoreFailure);
    assert_eq!(code, 500);
    assert_eq!(msg, "UNHANDLED_REJECTION");
    let (code, _) = handle_rejection(&LsatError::Internal);
    assert_eq!(code, 500);
    let (code, _) = handle_rejection(&LsatError::SignatureMismatch);
    assert_eq!(code, 400);
}

fn invoice(hash: &[u8], state: InvoiceState) -> Invoice {
    Invoice {
        memo: "LSAT payment".to_string(),
        r_hash: hash.to_vec(),
        r_preimage: vec![1, 2, 3],
        payment_request: "lnbc1fake".to_string(),
        value_msat: 1000,
        expiry: 600,
        state,
    }
}

#[test]
fn cache_get_put_and_ttl() {
    let mut cache = InvoiceCache::new(8);
    let key = vec![1u8; 32];
    assert!(cache.get(&key, 0).is_none());
    cache.put(&key, invoice(&key, InvoiceState::Open), 100, cache_ttl());
    let hit = cache.get(&key, 101).expect("hit");
    assert_eq!(hit.state, InvoiceState::Open);
    // replaced unconditionally by a stream update
    cache.put(&key, invoice(&key, InvoiceState::Settled), 150, cache_ttl());
    assert_eq!(cache.get(&key, 151).unwrap().state, InvoiceState::Settled);
    // expired at and after the deadline
    assert!(cache.get(&key, 150 + 600).is_none());
    assert!(cache.get(&key, 149 + 600).is_some());
}

#[test]
fn cache_capacity_evicts_oldest() {
    let mut cache = InvoiceCache::new(2);
    let k1 = vec![1u8];
    let k2 = vec![2u8];
    let k3 = vec![3u8];
    cache.put(&k1, invoice(&k1, InvoiceState::Open), 0, 600);
    cache.put(&k2, invoice(&k2, InvoiceState::Open), 1, 600);
    cache.put(&k3, invoice(&k3, InvoiceState::Open), 2, 600);
    assert!(cache.get(&k1, 3).is_none());
    assert!(cache.get(&k2, 3).is_some());
    assert!(cache.get(&k3, 3).is_some());
}

#[test]
fn invoice_state_codes() {
    assert_eq!(InvoiceState::Open.code(), 0);
    assert_eq!(InvoiceState::Settled.code(), 1);
    assert_eq!(InvoiceState::Cancelled.code(), 2);
    assert_eq!(InvoiceState::Accepted.code(), 3);
    assert_eq!(InvoiceState::from_code(1), Some(InvoiceState::Settled));
    assert_eq!(InvoiceState::from_code(7), None);
}

#[test]
fn generated_invoice_parameters() {
    let inv = generate_invoice(MiliSats(3000));
    assert_eq!(inv.memo, "LSAT payment");
    assert_eq!(inv.value_msat, 3000);
    assert_eq!(inv.expiry, 600);
    assert_eq!(inv.state, InvoiceState::Open);
}

#[test]
fn invoice_status_inputs_and_reply() {
    // no "invoice" key in the body
    let body = vec![("other".to_string(), "x".to_string())];
    assert!(handle_invoice_status(&body).is_err());
    // an invoice that does not parse
    let body = vec![("invoice".to_string(), "not-a-bolt11".to_string())];
    assert!(handle_invoice_status(&body).is_err());

    let inv = invoice(&[9u8; 32], InvoiceState::Settled);
    let (preimage, code) = invoice_status_reply(&inv);
    assert_eq!(preimage, vec![1, 2, 3]);
    assert_eq!(code, 1);
}

#[test]
fn header_names_spelled_for_the_wire() {
    assert_eq!(HeaderName::Authorization.as_str(), "Authorization");
    assert_eq!(HeaderName::MacaroonMeta.as_str(), "Grpc-Metadata-Macaroon");
    assert_eq!(HeaderName::Macaroon.as_str(), "Macaroon");
}
