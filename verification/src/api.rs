//! Request handling: the challenge/verify flow as a state machine, the
//! verification pipeline over the ledger, the invoice-status endpoint's
//! computations, the rejection-to-response mapping, and the paragraph
//! splitting applied to upstream data.
use vstd::prelude::*;
use vstd::string::*;

use crate::bytes::{bytes_eq, str_eq};
use crate::db::{charge, db_contents, db_key_spec, Entry};
use crate::hashes::sha256_of;
use crate::lnd::{bolt11_parses, bolt11_payment_hash, parse_invoice_payment_hash, Invoice,
    InvoiceState};
use crate::lsat::{verify_ok_spec, Lsat, LsatError, MiliSats, PaymentPreimage};

verus! {

// ---------------------------------------------------------------------------
// Verification pipeline
// ---------------------------------------------------------------------------
/// Everything `verify_credential` checks before the invoice state is
/// consulted: the ledger holds the identity, the stored secret is the
/// identity digest, the macaroon chain and caveats hold, and the presented
/// preimage hashes to the bound payment hash. Kept opaque: callers pass the
/// whole condition through rather than its parts.
#[verifier::opaque]
pub open spec fn credential_checks(
    db: Map<Seq<u8>, Seq<u8>>,
    lsat: &Lsat,
    preimage: &PaymentPreimage,
    path: Seq<char>,
    now: u64,
) -> bool {
    let key = db_key_spec(sha256_of(lsat.id.encode_spec()));
    &&& db.contains_key(key)
    &&& crate::db::entry_decodes(db[key])
    &&& crate::db::entry_dec_secret(db[key]).len() == 32
    &&& verify_ok_spec(lsat, crate::db::entry_dec_secret(db[key]), vstd::utf8::encode_utf8(path), now)
    &&& sha256_of(preimage.0@) == lsat.id.payment_hash@
}

/// Steps one to five of the verify sequence: decode is already done (the
/// `Lsat` is parsed), so: ledger lookup, key check, constraint verification,
/// and the payment-hash check. The invoice-state check and the quota
/// decrement follow separately.
///
/// The payment check gates success: this returns `Ok` only when the
/// presented preimage hashes to the credential's payment hash, and when
/// every check passes the only other possible outcome is a store fault.
pub fn verify_credential(
    db: &sled::Db,
    lsat: &Lsat,
    preimage: &PaymentPreimage,
    backend: &crate::config::Backend,
    now: u64,
) -> (r: Result<Entry, LsatError>)
    requires
        lsat.id.wf(),
    ensures
        r matches Ok(e) ==> {
            let key = db_key_spec(sha256_of(lsat.id.encode_spec()));
            &&& credential_checks(db_contents(*db), lsat, preimage, backend.path@, now)
            &&& e.wf()
            &&& e.enc() == db_contents(*db)[key]
            &&& e.spec_secret() == sha256_of(lsat.id.encode_spec())
        },
        r is Ok ==> sha256_of(preimage.0@) == lsat.id.payment_hash@,
        credential_checks(db_contents(*db), lsat, preimage, backend.path@, now) ==> (r is Ok || r
            == Err::<Entry, LsatError>(LsatError::StoreFailure)),
        r == Err::<Entry, LsatError>(LsatError::PreimageMismatch) ==> sha256_of(preimage.0@)
            != lsat.id.payment_hash@,
        r matches Err(e) ==> e == LsatError::Expired || e == LsatError::StoreFailure || e
            == LsatError::SignatureMismatch || e == LsatError::CaveatUnsatisfied || e
            == LsatError::PreimageMismatch,
{
    proof {
        reveal(credential_checks);
    }
    let entry = match Entry::get(db, &lsat.id) {
        Ok(e) => e,
        Err(e) => {
            return Err(e);
        },
    };
    let secret = entry.secret();
    let path_bytes = backend.path.as_str().as_bytes_vec();
    match lsat.verify(&secret, &path_bytes, now) {
        Ok(()) => (),
        Err(e) => {
            return Err(e);
        },
    }
    let ph = preimage.to_sha256();
    if !bytes_eq(&ph, &lsat.id.payment_hash) {
        return Err(LsatError::PreimageMismatch);
    }
    let id_len = entry.id.len();
    proof {
        assert(entry.spec_id().len() == id_len);
        crate::db::lemma_entry_roundtrip(entry.spec_id(), entry.spec_secret(), entry.quota.0);
    }
    Ok(entry)
}

/// Step six and seven of the verify sequence: require a settled invoice,
/// then charge the price against the record — atomically deleting it when
/// the quota reaches exactly zero. No quota changes on rejection.
pub fn settle_and_charge(
    db: &mut sled::Db,
    entry: &Entry,
    state: InvoiceState,
    price: MiliSats,
) -> (r: Result<MiliSats, LsatError>)
    requires
        entry.wf(),
    ensures
        state != InvoiceState::Settled ==> r == Err::<MiliSats, LsatError>(LsatError::NotSettled)
            && db_contents(*final(db)) == db_contents(*old(db)),
        r matches Ok(rem) ==> state == InvoiceState::Settled && entry.quota.0 >= price.0 && rem.0
            == entry.quota.0 - price.0,
        r is Ok && entry.quota.0 > price.0 ==> db_contents(*final(db)) == db_contents(
            *old(db),
        ).insert(
            entry.spec_id(),
            crate::db::entry_enc(
                entry.spec_id(),
                entry.spec_secret(),
                (entry.quota.0 - price.0) as u32,
            ),
        ),
        r is Ok && entry.quota.0 == price.0 ==> db_contents(*final(db)) == db_contents(
            *old(db),
        ).remove(entry.spec_id()),
        r == Err::<MiliSats, LsatError>(LsatError::QuotaExceeded) <==> (state
            == InvoiceState::Settled && entry.quota.0 < price.0),
        r == Err::<MiliSats, LsatError>(LsatError::QuotaExceeded) ==> db_contents(*final(db))
            == db_contents(*old(db)),
        r == Err::<MiliSats, LsatError>(LsatError::NotSettled) <==> state != InvoiceState::Settled,
        r matches Err(e) ==> e == LsatError::NotSettled || e == LsatError::QuotaExceeded || e
            == LsatError::StoreFailure,
{
    match state {
        InvoiceState::Settled => charge(db, entry, price),
        _ => Err(LsatError::NotSettled),
    }
}

/// The whole verify-and-decrement span as one call over the ledger: re-read
/// the record, run every check, require a settled invoice, and charge — all
/// under one borrow of the store, so a caller holding its store lock around
/// this call gets the linearizable per-key read-modify-write the ledger
/// demands. Returns the remaining quota.
#[verifier::rlimit(100)]
#[verifier::spinoff_prover]
pub fn verify_and_charge(
    db: &mut sled::Db,
    lsat: &Lsat,
    preimage: &PaymentPreimage,
    backend: &crate::config::Backend,
    now: u64,
    state: InvoiceState,
) -> (r: Result<MiliSats, LsatError>)
    requires
        lsat.id.wf(),
    ensures
        r is Ok ==> credential_checks(db_contents(*old(db)), lsat, preimage, backend.path@, now),
        r is Ok ==> sha256_of(preimage.0@) == lsat.id.payment_hash@,
        r == Err::<MiliSats, LsatError>(LsatError::NotSettled) ==> state != InvoiceState::Settled,
        r == Err::<MiliSats, LsatError>(LsatError::QuotaExceeded) ==> state
            == InvoiceState::Settled,
        ({
            let key = db_key_spec(sha256_of(lsat.id.encode_spec()));
            credential_checks(db_contents(*old(db)), lsat, preimage, backend.path@, now) && state
                == InvoiceState::Settled && crate::db::entry_dec_quota(db_contents(*old(db))[key])
                >= backend.price_msat
        }) ==> (r is Ok || r == Err::<MiliSats, LsatError>(LsatError::StoreFailure)),
        r matches Err(e) && e != LsatError::StoreFailure ==> db_contents(*final(db))
            == db_contents(*old(db)),
        r matches Ok(rem) ==> {
            let key = db_key_spec(sha256_of(lsat.id.encode_spec()));
            let stored = db_contents(*old(db))[key];
            &&& state == InvoiceState::Settled
            &&& crate::db::entry_dec_quota(stored) >= backend.price_msat
            &&& rem.0 == crate::db::entry_dec_quota(stored) - backend.price_msat
            &&& (rem.0 > 0 ==> db_contents(*final(db)) == db_contents(*old(db)).insert(
                crate::db::entry_dec_id(stored),
                crate::db::entry_enc(
                    crate::db::entry_dec_id(stored),
                    crate::db::entry_dec_secret(stored),
                    rem.0,
                ),
            ))
            &&& (rem.0 == 0 ==> db_contents(*final(db)) == db_contents(*old(db)).remove(
                crate::db::entry_dec_id(stored),
            ))
        },
{
    let entry = match verify_credential(&*db, lsat, preimage, backend, now) {
        Ok(e) => e,
        Err(e) => {
            return Err(e);
        },
    };
    let id_len = entry.id.len();
    proof {
        assert(entry.spec_id().len() == id_len);
        crate::db::lemma_entry_matches_stored(
            db_contents(*db)[db_key_spec(sha256_of(lsat.id.encode_spec()))],
            &entry,
        );
    }
    settle_and_charge(db, &entry, state, backend.get_price())
}

// ---------------------------------------------------------------------------
// The challenge/verify flow
// ---------------------------------------------------------------------------
/// The states a request passes through.
#[derive(Clone, Copy, Debug, PartialEq, Eq, Structural)]
pub enum FlowState {
    Start,
    Challenged,
    Parsing,
    Rejected,
    Verifying,
    Charged,
    Forwarding,
    Done,
}

/// What the handler observed at each step.
#[derive(Clone, Copy, Debug, PartialEq, Eq, Structural)]
pub enum FlowEvent {
    AuthHeaderMissing,
    AuthHeaderPresent,
    ParseFailed,
    ParseSucceeded,
    VerifyFailed,
    VerifySucceeded,
    UpstreamFailed,
    UpstreamSucceeded,
}

/// What the handler must do next.
#[derive(Clone, Copy, Debug, PartialEq, Eq, Structural)]
pub enum FlowAction {
    /// Mint a challenge and answer 402.
    MintChallenge,
    /// Parse the credential header.
    ParseHeader,
    /// Run the verify sequence.
    RunVerify,
    /// Decrement the quota and update (or delete) the ledger record.
    ChargeQuota,
    /// Build and execute the upstream request.
    ForwardUpstream,
    /// Answer 400.
    RespondRejected,
    /// Answer with the upstream failure (502-equivalent).
    RespondUpstreamError,
    /// Answer 200 with the extracted data and the remaining quota.
    RespondData,
    /// Nothing: the event does not apply in this state.
    Hold,
}

/// The transition table of the flow.
pub open spec fn spec_flow_step(s: FlowState, e: FlowEvent) -> (FlowState, FlowAction) {
    match (s, e) {
        (FlowState::Start, FlowEvent::AuthHeaderMissing) => (
            FlowState::Challenged,
            FlowAction::MintChallenge,
        ),
        (FlowState::Start, FlowEvent::AuthHeaderPresent) => (
            FlowState::Parsing,
            FlowAction::ParseHeader,
        ),
        (FlowState::Parsing, FlowEvent::ParseFailed) => (
            FlowState::Rejected,
            FlowAction::RespondRejected,
        ),
        (FlowState::Parsing, FlowEvent::ParseSucceeded) => (
            FlowState::Verifying,
            FlowAction::RunVerify,
        ),
        (FlowState::Verifying, FlowEvent::VerifyFailed) => (
            FlowState::Rejected,
            FlowAction::RespondRejected,
        ),
        (FlowState::Verifying, FlowEvent::VerifySucceeded) => (
            FlowState::Charged,
            FlowAction::ChargeQuota,
        ),
        (FlowState::Charged, _) => (FlowState::Forwarding, FlowAction::ForwardUpstream),
        (FlowState::Forwarding, FlowEvent::UpstreamFailed) => (
            FlowState::Rejected,
            FlowAction::RespondUpstreamError,
        ),
        (FlowState::Forwarding, FlowEvent::UpstreamSucceeded) => (
            FlowState::Done,
            FlowAction::RespondData,
        ),
        _ => (s, FlowAction::Hold),
    }
}

/// A state the flow never leaves.
pub open spec fn is_terminal(s: FlowState) -> bool {
    s == FlowState::Challenged || s == FlowState::Rejected || s == FlowState::Done
}

/// Step the flow: the transition table of the challenge/verify state
/// machine. The move out of the charged state is unconditional: whatever
/// event arrives there, the request is forwarded next. Terminal states never
/// move.
pub fn flow_step(s: FlowState, e: FlowEvent) -> (r: (FlowState, FlowAction))
    ensures
        r == spec_flow_step(s, e),
        is_terminal(s) ==> r.0 == s && r.1 == FlowAction::Hold,
{
    match (s, e) {
        (FlowState::Start, FlowEvent::AuthHeaderMissing) => (
            FlowState::Challenged,
            FlowAction::MintChallenge,
        ),
        (FlowState::Start, FlowEvent::AuthHeaderPresent) => (
            FlowState::Parsing,
            FlowAction::ParseHeader,
        ),
        (FlowState::Parsing, FlowEvent::ParseFailed) => (
            FlowState::Rejected,
            FlowAction::RespondRejected,
        ),
        (FlowState::Parsing, FlowEvent::ParseSucceeded) => (
            FlowState::Verifying,
            FlowAction::RunVerify,
        ),
        (FlowState::Verifying, FlowEvent::VerifyFailed) => (
            FlowState::Rejected,
            FlowAction::RespondRejected,
        ),
        (FlowState::Verifying, FlowEvent::VerifySucceeded) => (
            FlowState::Charged,
            FlowAction::ChargeQuota,
        ),
        (FlowState::Charged, _) => (FlowState::Forwarding, FlowAction::ForwardUpstream),
        (FlowState::Forwarding, FlowEvent::UpstreamFailed) => (
            FlowState::Rejected,
            FlowAction::RespondUpstreamError,
        ),
        (FlowState::Forwarding, FlowEvent::UpstreamSucceeded) => (
            FlowState::Done,
            FlowAction::RespondData,
        ),
        (s, _) => (s, FlowAction::Hold),
    }
}

// ---------------------------------------------------------------------------
// Rejections
// ---------------------------------------------------------------------------
/// Whether a failure is the client's (answered 400) or the server's
/// (answered 500).
pub open spec fn is_client_error(e: LsatError) -> bool {
    !(e == LsatError::StoreFailure || e == LsatError::Internal)
}

/// Receives a rejection and maps it to the HTTP status code and the short
/// message of the response: 400 with a specific message for client errors,
/// 500 with a generic one otherwise. No secret material appears in any
/// message.
pub fn handle_rejection(err: &LsatError) -> (r: (u16, String))
    ensures
        r.0 == 400 <==> is_client_error(*err),
        r.0 == 400 || r.0 == 500,
        *err == LsatError::Expired ==> r.1@ == "No db entry for LSAT, possibly expired"@,
        *err == LsatError::NotSettled ==> r.1@ == "Invoice is not settled"@,
        *err == LsatError::PreimageMismatch ==> r.1@ == "Preimage does not match payment hash"@,
        !is_client_error(*err) ==> r.1@ == "UNHANDLED_REJECTION"@,
{
    match err {
        LsatError::HeaderMissing => (400, String::from_str("No LSAT header found")),
        LsatError::HeaderMalformed => (400, String::from_str("Invalid auth header format")),
        LsatError::MacaroonInvalid => (400, String::from_str("LSAT incorrect")),
        LsatError::IdInvalid => (400, String::from_str("LSAT incorrect")),
        LsatError::Expired => (
            400,
            String::from_str("No db entry for LSAT, possibly expired"),
        ),
        LsatError::SignatureMismatch => (400, String::from_str("LSAT incorrect")),
        LsatError::CaveatUnsatisfied => (400, String::from_str("LSAT incorrect")),
        LsatError::PreimageMismatch => (
            400,
            String::from_str("Preimage does not match payment hash"),
        ),
        LsatError::NotSettled => (400, String::from_str("Invoice is not settled")),
        LsatError::QuotaExceeded => (400, String::from_str("LSAT budget exhausted")),
        LsatError::StoreFailure => (500, String::from_str("UNHANDLED_REJECTION")),
        LsatError::Internal => (500, String::from_str("UNHANDLED_REJECTION")),
    }
}

// ---------------------------------------------------------------------------
// Invoice status
// ---------------------------------------------------------------------------
/// First value under a key in a list of string pairs.
pub open spec fn find_value(ps: Seq<(String, String)>, key: Seq<char>, i: int) -> Option<Seq<char>>
    decreases ps.len() - i,
{
    if i < 0 || i >= ps.len() {
        None
    } else if ps[i].0@ == key {
        Some(ps[i].1@)
    } else {
        find_value(ps, key, i + 1)
    }
}

/// Look a key up in a list of string pairs.
pub fn find_value_exec<'a>(ps: &'a Vec<(String, String)>, key: &str) -> (r: Option<&'a String>)
    ensures
        r matches Some(v) ==> find_value(ps@, key@, 0) == Some(v@),
        r is None ==> find_value(ps@, key@, 0) is None,
{
    find_value_rec(ps, key, 0)
}

fn find_value_rec<'a>(ps: &'a Vec<(String, String)>, key: &str, i: usize) -> (r: Option<&'a String>)
    requires
        i <= ps@.len(),
    ensures
        r matches Some(v) ==> find_value(ps@, key@, i as int) == Some(v@),
        r is None ==> find_value(ps@, key@, i as int) is None,
    decreases ps@.len() - i,
{
    if i == ps.len() {
        None
    } else {
        let p = &ps[i];
        if str_eq(p.0.as_str(), key) {
            Some(&p.1)
        } else {
            find_value_rec(ps, key, i + 1)
        }
    }
}

/// The lookup key the invoice-status endpoint needs: the payment hash of the
/// BOLT-11 invoice named in the request body. Fails when the body names no
/// invoice or the invoice does not parse.
pub fn handle_invoice_status(indata: &Vec<(String, String)>) -> (r: Result<Vec<u8>, LsatError>)
    ensures
        r is Ok <==> (find_value(indata@, "invoice"@, 0) matches Some(inv) && bolt11_parses(inv)),
        r matches Ok(h) ==> (find_value(indata@, "invoice"@, 0) matches Some(inv) && h@
            == bolt11_payment_hash(inv) && h@.len() == 32),
{
    let invoice = match find_value_rec(indata, "invoice", 0) {
        Some(v) => v,
        None => {
            return Err(LsatError::HeaderMalformed);
        },
    };
    match parse_invoice_payment_hash(invoice.as_str()) {
        Some(h) => Ok(h),
        None => Err(LsatError::HeaderMalformed),
    }
}

/// The response body parts of the invoice-status endpoint: the preimage
/// bytes (to be hex-encoded at the edge) and the state code.
pub fn invoice_status_reply(inv: &Invoice) -> (r: (Vec<u8>, i32))
    ensures
        r.0@ == inv.r_preimage@,
        r.1 == inv.state.spec_code(),
{
    let preimage = crate::bytes::sub_bytes(&inv.r_preimage, 0, inv.r_preimage.len());
    proof {
        assert(preimage@ =~= inv.r_preimage@);
    }
    (preimage, inv.state.code())
}

} // verus!
