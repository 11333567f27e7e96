//! The credential engine: credential identities and their binary encoding,
//! macaroon minting and verification, caveats, and header parsing.
use vstd::prelude::*;
use vstd::string::*;

use crate::bytes::{
    all_dec_digits, bytes_eq, dec_ascii, dec_val, has_prefix, hex_decode, hex_encode, hex_ascii,
    hex_val_seq, parse_dec, starts_with, sub_bytes, u64_from_le, u64_le, u64_le_bytes, u64_le_read, u64_to_dec,
    valid_hex_ascii,
};
use crate::hashes::{sha256, sha256_of};

verus! {

/// Everything that can go wrong while minting or verifying a credential.
#[derive(Clone, Copy, Debug, PartialEq, Eq, Structural)]
pub enum LsatError {
    /// No credential header was presented.
    HeaderMissing,
    /// A credential header was presented but could not be parsed.
    HeaderMalformed,
    /// The macaroon could not be decoded or is structurally invalid.
    MacaroonInvalid,
    /// The identity inside the macaroon could not be decoded.
    IdInvalid,
    /// No ledger entry exists for the credential identity.
    Expired,
    /// The credential was not signed with the expected secret.
    SignatureMismatch,
    /// A first-party constraint does not hold for this request.
    CaveatUnsatisfied,
    /// The presented preimage does not hash to the bound payment hash.
    PreimageMismatch,
    /// The invoice bound to the credential is not settled.
    NotSettled,
    /// The remaining quota does not cover the price of the call.
    QuotaExceeded,
    /// The persistent ledger failed.
    StoreFailure,
    /// Minting infrastructure (node, macaroon construction) failed.
    Internal,
}

/// Simple wrapper for milisats units so it's easy to convert
/// to and from sats.
#[derive(Clone, Debug, PartialEq, Eq, Structural)]
pub struct MiliSats(pub u32);

/// The various shapes of the LSAT header construction.
pub enum HeaderName {
    /// Used by REST clients.
    Authorization,
    /// Used by certain REST and gRPC clients.
    MacaroonMeta,
    /// Used by LNLabs gRPC clients.
    Macaroon,
}

impl HeaderName {
    /// The wire name of the header.
    pub fn as_str(&self) -> (r: &'static str)
        ensures
            r@ == match self {
                HeaderName::Authorization => "Authorization"@,
                HeaderName::MacaroonMeta => "Grpc-Metadata-Macaroon"@,
                HeaderName::Macaroon => "Macaroon"@,
            },
    {
        match self {
            HeaderName::Authorization => "Authorization",
            HeaderName::MacaroonMeta => "Grpc-Metadata-Macaroon",
            HeaderName::Macaroon => "Macaroon",
        }
    }
}

/// A Lightning payment hash: 32 bytes.
#[derive(Debug)]
pub struct PaymentHashDef(pub Vec<u8>);

impl PaymentHashDef {
    pub open spec fn wf(&self) -> bool {
        self.0@.len() == 32
    }
}

/// A Lightning payment preimage: 32 bytes whose SHA-256 is the payment hash.
#[derive(Debug)]
pub struct PaymentPreimage(pub Vec<u8>);

impl PaymentPreimage {
    pub open spec fn wf(&self) -> bool {
        self.0@.len() == 32
    }

    /// Digest of the preimage: the payment hash it proves.
    pub fn to_sha256(&self) -> (r: Vec<u8>)
        ensures
            r@ == sha256_of(self.0@),
            r@.len() == 32,
    {
        sha256(&self.0)
    }
}

/// Conversion from a hex text representation of a preimage.
pub trait FromPreimage where Self: core::marker::Sized {
    fn from_preimage(preimage: &Vec<u8>) -> (r: Result<Self, LsatError>);
}

impl FromPreimage for PaymentPreimage {
    /// Converts hex text (as bytes) to an actual preimage: the first 32
    /// decoded bytes; fails on bad hex or fewer than 32 bytes.
    fn from_preimage(preimage: &Vec<u8>) -> (r: Result<Self, LsatError>)
        ensures
            r is Ok <==> (valid_hex_ascii(preimage@) && hex_val_seq(preimage@).len() >= 32),
            r matches Ok(p) ==> p.0@ == hex_val_seq(preimage@).take(32) && p.wf(),
    {
        match hex_decode(preimage) {
            Some(raw) => {
                if raw.len() >= 32 {
                    let first = sub_bytes(&raw, 0, 32);
                    assert(raw@.subrange(0, 32) =~= hex_val_seq(preimage@).take(32));
                    Ok(PaymentPreimage(first))
                } else {
                    Err(LsatError::HeaderMalformed)
                }
            },
            None => Err(LsatError::HeaderMalformed),
        }
    }
}

// ---------------------------------------------------------------------------
// Credential identity
// ---------------------------------------------------------------------------
/// LSAT header identifier: version, payment hash, and a random token.
#[derive(Debug)]
pub struct Id {
    pub version: u64,
    pub payment_hash: Vec<u8>,
    pub token_id: Vec<u8>,
}

impl Id {
    /// Valid identity: current version, 32-byte hash and token.
    pub open spec fn wf(&self) -> bool {
        self.version == 0 && self.payment_hash@.len() == 32 && self.token_id@.len() == 32
    }

    /// The fixed binary encoding: version as eight little-endian bytes, then
    /// the payment hash, then the token.
    pub open spec fn encode_spec(&self) -> Seq<u8> {
        u64_le(self.version) + self.payment_hash@ + self.token_id@
    }

    /// An encoding decodes iff it is 72 bytes long and carries version zero.
    pub open spec fn decodes(bytes: Seq<u8>) -> bool {
        bytes.len() == 72 && u64_from_le(bytes.subrange(0, 8)) == 0
    }

    /// The payment-hash field of an encoding.
    pub open spec fn decoded_hash(bytes: Seq<u8>) -> Seq<u8> {
        bytes.subrange(8, 40)
    }

    /// The token field of an encoding.
    pub open spec fn decoded_token(bytes: Seq<u8>) -> Seq<u8> {
        bytes.subrange(40, 72)
    }

    /// Mint a fresh identity for a payment hash, with a random token.
    pub fn new(payment_hash: PaymentHashDef) -> (r: Id)
        requires
            payment_hash.wf(),
        ensures
            r.wf(),
            r.payment_hash@ == payment_hash.0@,
    {
        let token_id = random_token_id();
        Id { version: 0, payment_hash: payment_hash.0, token_id }
    }

    /// Serialize to the fixed binary encoding.
    pub fn encode(&self) -> (r: Vec<u8>)
        requires
            self.wf(),
        ensures
            r@ == self.encode_spec(),
            r@.len() == 72,
    {
        let mut out = u64_le_bytes(self.version);
        crate::bytes::append_bytes(&mut out, &self.payment_hash);
        crate::bytes::append_bytes(&mut out, &self.token_id);
        out
    }

    /// Reverse the binary encoding; rejects any length other than 72 bytes
    /// and any version other than zero.
    pub fn decode(bytes: &Vec<u8>) -> (r: Result<Id, LsatError>)
        ensures
            r is Ok <==> Id::decodes(bytes@),
            r matches Ok(id) ==> id.wf() && id.payment_hash@ == Id::decoded_hash(bytes@)
                && id.token_id@ == Id::decoded_token(bytes@),
    {
        if bytes.len() != 72 {
            return Err(LsatError::IdInvalid);
        }
        let version = u64_le_read(bytes, 0);
        if version != 0 {
            return Err(LsatError::IdInvalid);
        }
        let payment_hash = sub_bytes(bytes, 8, 40);
        let token_id = sub_bytes(bytes, 40, 72);
        Ok(Id { version, payment_hash, token_id })
    }

    /// Digest of the identity: SHA-256 of its binary encoding. This digest
    /// is both the ledger key seed and the macaroon signing secret.
    pub fn to_sha256(&self) -> (r: Vec<u8>)
        requires
            self.wf(),
        ensures
            r@ == sha256_of(self.encode_spec()),
            r@.len() == 32,
    {
        let encoded = self.encode();
        sha256(&encoded)
    }
}

/// Round-trip: decoding an encoded valid identity gives back every field.
pub proof fn lemma_id_roundtrip(id: Id)
    requires
        id.wf(),
    ensures
        Id::decodes(id.encode_spec()),
        Id::decoded_hash(id.encode_spec()) == id.payment_hash@,
        Id::decoded_token(id.encode_spec()) == id.token_id@,
    decreases 0int,
{
    let e = id.encode_spec();
    crate::bytes::lemma_u64_le_roundtrip(id.version);
    assert(e.subrange(0, 8) =~= u64_le(id.version));
    assert(e.subrange(8, 40) =~= id.payment_hash@);
    assert(e.subrange(40, 72) =~= id.token_id@);
}

/// Relies on `rand::Rng::gen` on `rand::thread_rng`: 32 bytes from the
/// thread-local CSPRNG. Nothing is assumed of the values beyond the length.
#[verifier::external_body]
fn random_token_id() -> (r: Vec<u8>)
    ensures
        r@.len() == 32,
{
    let bytes: [u8; 32] = rand::Rng::gen(&mut rand::thread_rng());
    bytes.to_vec()
}

/// An identity whose encoding decodes back to the given bytes.
pub proof fn lemma_id_reencode(b: Seq<u8>, id: Id)
    requires
        Id::decodes(b),
        id.version == 0,
        id.payment_hash@ == Id::decoded_hash(b),
        id.token_id@ == Id::decoded_token(b),
    ensures
        id.encode_spec() == b,
{
    crate::bytes::lemma_u64_le_inverse(b.subrange(0, 8));
    assert(u64_le(0u64) == b.subrange(0, 8));
    assert(id.encode_spec() =~= b);
}

// ---------------------------------------------------------------------------
// The macaroon, behind trusted items
// ---------------------------------------------------------------------------
#[verifier::external_type_specification]
#[verifier::external_body]
pub struct ExMacaroon(macaroon::Macaroon);

/// The identifier bytes a macaroon carries.
pub uninterp spec fn mac_ident(m: macaroon::Macaroon) -> Seq<u8>;

/// The location string a macaroon carries.
pub uninterp spec fn mac_location(m: macaroon::Macaroon) -> Seq<char>;

/// The first-party caveat predicates of a macaroon, in order. Macaroons made
/// by this library carry only first-party caveats.
pub uninterp spec fn mac_caveats(m: macaroon::Macaroon) -> Seq<Seq<u8>>;

/// The HMAC chain signature of a macaroon.
pub uninterp spec fn mac_sig(m: macaroon::Macaroon) -> Seq<u8>;

/// Whether a macaroon carries first-party caveats only. A third-party caveat
/// holds parts beyond the predicates, so the token of a macaroon is a
/// function of the named parts only when this holds; macaroons this library
/// builds always satisfy it.
pub uninterp spec fn mac_first_party_only(m: macaroon::Macaroon) -> bool;

/// What `macaroon::Macaroon::create` signs: the HMAC of the identifier under
/// the root key.
pub uninterp spec fn chain_start(key: Seq<u8>, ident: Seq<u8>) -> Seq<u8>;

/// One signature chain step: the HMAC of a caveat predicate under the
/// running signature.
pub uninterp spec fn chain_link(sig: Seq<u8>, predicate: Seq<u8>) -> Seq<u8>;

/// The V1 token text for a macaroon with the given parts.
pub uninterp spec fn mac_token(
    location: Seq<char>,
    ident: Seq<u8>,
    caveats: Seq<Seq<u8>>,
    sig: Seq<u8>,
) -> Seq<char>;

/// Indexing a deep view of a list of byte vectors.
proof fn lemma_deep_view_index(ps: &Vec<Vec<u8>>, i: int)
    requires
        0 <= i < ps@.len(),
    ensures
        ps.deep_view()[i] == ps@[i]@,
{
    assert(ps.deep_view()[i] =~= ps@[i]@);
}

/// The signature a macaroon with these caveats carries: the chain of HMAC
/// steps over the start signature.
pub open spec fn chain_sig(key: Seq<u8>, ident: Seq<u8>, caveats: Seq<Seq<u8>>) -> Seq<u8>
    decreases caveats.len(),
{
    if caveats.len() == 0 {
        chain_start(key, ident)
    } else {
        chain_link(chain_sig(key, ident, caveats.drop_last()), caveats.last())
    }
}

/// Relies on `macaroon::Macaroon::create`: signs the identifier with the
/// key; fails exactly on an empty identifier.
#[verifier::external_body]
fn mac_create(location: &str, key: &Vec<u8>, ident: &Vec<u8>) -> (r: Result<
    macaroon::Macaroon,
    LsatError,
>)
    requires
        key@.len() == 32,
    ensures
        r is Ok <==> ident@.len() > 0,
        r matches Ok(m) ==> mac_ident(m) == ident@ && mac_location(m) == location@ && mac_caveats(m)
            == Seq::<Seq<u8>>::empty() && mac_sig(m) == chain_start(key@, ident@)
            && mac_first_party_only(m),
{
    let _ = macaroon::initialize();
    let mut kb = [0u8; 32];
    kb.copy_from_slice(key.as_slice());
    let k = macaroon::MacaroonKey::from(kb);
    let ident = macaroon::ByteString(ident.clone());
    match macaroon::Macaroon::create(Some(location.to_string()), &k, ident) {
        Ok(m) => Ok(m),
        Err(_) => Err(LsatError::Internal),
    }
}

/// Relies on `macaroon::Macaroon::add_first_party_caveat`: appends the
/// predicate and extends the signature chain by one HMAC step.
#[verifier::external_body]
fn mac_add_caveat(m: &mut macaroon::Macaroon, predicate: &Vec<u8>)
    ensures
        mac_ident(*final(m)) == mac_ident(*old(m)),
        mac_location(*final(m)) == mac_location(*old(m)),
        mac_caveats(*final(m)) == mac_caveats(*old(m)).push(predicate@),
        mac_sig(*final(m)) == chain_link(mac_sig(*old(m)), predicate@),
        mac_first_party_only(*final(m)) == mac_first_party_only(*old(m)),
{
    m.add_first_party_caveat(macaroon::ByteString(predicate.clone()))
}

/// Relies on `macaroon::Macaroon::signature`: the 32-byte chain signature.
#[verifier::external_body]
fn mac_signature(m: &macaroon::Macaroon) -> (r: Vec<u8>)
    ensures
        r@ == mac_sig(*m),
        r@.len() == 32,
{
    let sig = m.signature();
    let bytes: &[u8] = sig.as_ref();
    bytes.to_vec()
}

/// Relies on `macaroon::Macaroon::identifier`.
#[verifier::external_body]
fn mac_identifier(m: &macaroon::Macaroon) -> (r: Vec<u8>)
    ensures
        r@ == mac_ident(*m),
{
    m.identifier().0
}

/// Relies on `macaroon::Macaroon::caveats` and `FirstParty::predicate`: the
/// first-party predicates in order. Third-party caveats (which this library
/// never mints) are dropped; their chain steps then fail the signature check.
#[verifier::external_body]
fn mac_predicates(m: &macaroon::Macaroon) -> (r: Vec<Vec<u8>>)
    ensures
        r.deep_view() == mac_caveats(*m),
{
    m.caveats().into_iter().filter_map(
        |c| match c {
            macaroon::Caveat::FirstParty(fp) => Some(fp.predicate().0),
            _ => None,
        },
    ).collect()
}

/// Relies on `macaroon::Macaroon::serialize` with the V1 format: it never
/// fails, and for a macaroon of first-party caveats only its URL-safe base64
/// token is determined by the named parts (a third-party caveat would write
/// further packets the names do not carry).
#[verifier::external_body]
fn mac_serialize(m: &macaroon::Macaroon) -> (r: Result<String, LsatError>)
    ensures
        r is Ok,
        r matches Ok(t) ==> mac_first_party_only(*m) ==> t@ == mac_token(
            mac_location(*m),
            mac_ident(*m),
            mac_caveats(*m),
            mac_sig(*m),
        ),
{
    match m.serialize(macaroon::Format::V1) {
        Ok(s) => Ok(s),
        Err(_) => Err(LsatError::Internal),
    }
}

/// Whether token bytes deserialize as a macaroon; deserialization is a
/// function of the bytes alone.
pub uninterp spec fn mac_deser_ok(token: Seq<u8>) -> bool;

/// The identifier of the macaroon a token deserializes to.
pub uninterp spec fn mac_deser_ident(token: Seq<u8>) -> Seq<u8>;

/// The first-party predicates of the macaroon a token deserializes to.
pub uninterp spec fn mac_deser_caveats(token: Seq<u8>) -> Seq<Seq<u8>>;

/// The signature of the macaroon a token deserializes to.
pub uninterp spec fn mac_deser_sig(token: Seq<u8>) -> Seq<u8>;

/// The longest credential token the engine accepts. The packet parser in the
/// macaroon crate recurses once per packet, so unbounded tokens could
/// exhaust the stack; real tokens are a few kilobytes.
pub const MAX_TOKEN_BYTES: usize = 65536;

/// Relies on `macaroon::Macaroon::deserialize`: decodes a V1/V2/V2JSON
/// token, a function of the bytes alone; the decoded macaroon's parts carry
/// the names above. What those parts hold is not otherwise axiomatized. The
/// length bound keeps the crate's per-packet recursion shallow.
#[verifier::external_body]
pub fn mac_deserialize(token: &Vec<u8>) -> (r: Result<macaroon::Macaroon, LsatError>)
    requires
        token@.len() <= MAX_TOKEN_BYTES,
    ensures
        r is Ok <==> mac_deser_ok(token@),
        r matches Ok(m) ==> mac_ident(m) == mac_deser_ident(token@) && mac_caveats(m)
            == mac_deser_caveats(token@) && mac_sig(m) == mac_deser_sig(token@),
{
    let _ = macaroon::initialize();
    match macaroon::Macaroon::deserialize(token.as_slice()) {
        Ok(m) => Ok(m),
        Err(_) => Err(LsatError::MacaroonInvalid),
    }
}

/// Recompute the signature chain for the given parts under `key` by building
/// a fresh macaroon; fails exactly on an empty identifier.
fn compute_chain(location: &str, key: &Vec<u8>, ident: &Vec<u8>, caveats: &Vec<Vec<u8>>) -> (r:
    Result<Vec<u8>, LsatError>)
    requires
        key@.len() == 32,
    ensures
        r is Ok <==> ident@.len() > 0,
        r matches Ok(sig) ==> sig@ == chain_sig(key@, ident@, caveats.deep_view()),
{
    let mut m = match mac_create(location, key, ident) {
        Ok(m) => m,
        Err(e) => {
            return Err(e);
        },
    };
    let ghost all = caveats.deep_view();
    let mut i: usize = 0;
    while i < caveats.len()
        invariant
            0 <= i <= caveats@.len(),
            all == caveats.deep_view(),
            mac_sig(m) == chain_sig(key@, ident@, all.take(i as int)),
        decreases caveats@.len() - i,
    {
        let cav = &caveats[i];
        mac_add_caveat(&mut m, cav);
        proof {
            lemma_deep_view_index(caveats, i as int);
            assert(all.take(i as int + 1).drop_last() =~= all.take(i as int));
            assert(all.take(i as int + 1).last() == caveats@[i as int]@);
        }
        i = i + 1;
    }
    proof {
        assert(all.take(i as int) =~= all);
    }
    Ok(mac_signature(&m))
}

// ---------------------------------------------------------------------------
// Caveats
// ---------------------------------------------------------------------------
/// The bytes of `"time<"`.
pub open spec fn time_prefix() -> Seq<u8> {
    seq![116u8, 105u8, 109u8, 101u8, 60u8]
}

/// The bytes of `"path="`.
pub open spec fn path_prefix() -> Seq<u8> {
    seq![112u8, 97u8, 116u8, 104u8, 61u8]
}

/// The bytes of `"payload="`.
pub open spec fn payload_prefix() -> Seq<u8> {
    seq![112u8, 97u8, 121u8, 108u8, 111u8, 97u8, 100u8, 61u8]
}

fn time_prefix_bytes() -> (r: Vec<u8>)
    ensures
        r@ == time_prefix(),
{
    let mut v: Vec<u8> = Vec::new();
    v.push(116);
    v.push(105);
    v.push(109);
    v.push(101);
    v.push(60);
    assert(v@ =~= time_prefix());
    v
}

fn path_prefix_bytes() -> (r: Vec<u8>)
    ensures
        r@ == path_prefix(),
{
    let mut v: Vec<u8> = Vec::new();
    v.push(112);
    v.push(97);
    v.push(116);
    v.push(104);
    v.push(61);
    assert(v@ =~= path_prefix());
    v
}

fn payload_prefix_bytes() -> (r: Vec<u8>)
    ensures
        r@ == payload_prefix(),
{
    let mut v: Vec<u8> = Vec::new();
    v.push(112);
    v.push(97);
    v.push(121);
    v.push(108);
    v.push(111);
    v.push(97);
    v.push(100);
    v.push(61);
    assert(v@ =~= payload_prefix());
    v
}

/// A `time<T` predicate holds iff its value is a well-formed numeral and the
/// clock reads strictly less than it.
pub open spec fn time_caveat_ok(p: Seq<u8>, now: u64) -> bool {
    let v = p.skip(5);
    v.len() > 0 && all_dec_digits(v) && dec_val(v) <= u64::MAX && (now as nat) < dec_val(v)
}

/// Whether one first-party predicate is satisfied for a request against
/// `path` at time `now`. `payload=` predicates are kept as an audit record
/// and not re-bound to the current body, so that a credential can amortize
/// its quota over several calls.
pub open spec fn caveat_ok(p: Seq<u8>, now: u64, path: Seq<u8>) -> bool {
    if starts_with(p, time_prefix()) {
        time_caveat_ok(p, now)
    } else if starts_with(p, payload_prefix()) {
        true
    } else {
        p == path_prefix() + path
    }
}

/// Every predicate of the credential is satisfied.
pub open spec fn caveats_ok(ps: Seq<Seq<u8>>, now: u64, path: Seq<u8>) -> bool {
    forall|i: int| 0 <= i < ps.len() ==> caveat_ok(#[trigger] ps[i], now, path)
}

fn check_caveat(p: &Vec<u8>, now: u64, path: &Vec<u8>) -> (r: bool)
    ensures
        r == caveat_ok(p@, now, path@),
{
    let tp = time_prefix_bytes();
    if has_prefix(p, &tp) {
        let v = sub_bytes(p, 5, p.len());
        assert(v@ =~= p@.skip(5));
        match parse_dec(&v) {
            Some(t) => now < t,
            None => false,
        }
    } else {
        let pp = payload_prefix_bytes();
        if has_prefix(p, &pp) {
            true
        } else {
            let mut expected = path_prefix_bytes();
            crate::bytes::append_bytes(&mut expected, path);
            bytes_eq(p, &expected)
        }
    }
}

fn check_caveats(ps: &Vec<Vec<u8>>, now: u64, path: &Vec<u8>) -> (r: bool)
    ensures
        r == caveats_ok(ps.deep_view(), now, path@),
{
    let mut i: usize = 0;
    while i < ps.len()
        invariant
            0 <= i <= ps@.len(),
            forall|k: int| 0 <= k < i ==> caveat_ok(#[trigger] ps.deep_view()[k], now, path@),
        decreases ps@.len() - i,
    {
        let p = &ps[i];
        proof {
            lemma_deep_view_index(ps, i as int);
        }
        if !check_caveat(p, now, path) {
            assert(!caveat_ok(ps.deep_view()[i as int], now, path@));
            return false;
        }
        i = i + 1;
    }
    assert(ps.deep_view().len() == ps@.len());
    true
}

/// A credential with `time<T` is accepted strictly before T and rejected at
/// or after T.
pub proof fn lemma_time_gate(t: u64, now: u64, path: Seq<u8>)
    ensures
        caveat_ok(time_caveat_spec(t), now, path) <==> now < t,
{
    crate::bytes::lemma_dec_ascii_props(t as nat);
    let p = time_caveat_spec(t);
    assert(p.take(5) =~= time_prefix());
    assert(p.skip(5) =~= dec_ascii(t as nat));
}

// ---------------------------------------------------------------------------
// The credential and its lifecycle
// ---------------------------------------------------------------------------
/// What a mint hands back: the challenge header value and the identity that
/// was drawn for it.
#[derive(Debug)]
pub struct Challenge {
    pub header_value: String,
    pub id: Id,
}

/// The plain parts read out of a presented macaroon.
#[derive(Debug)]
pub struct ParsedMac {
    pub identifier: Vec<u8>,
    pub caveats: Vec<Vec<u8>>,
    pub signature: Vec<u8>,
}

/// LSAT structure: the decoded identity and the parsed macaroon parts.
#[derive(Debug)]
pub struct Lsat {
    pub id: Id,
    pub mac: ParsedMac,
}

/// The issuer put in minted macaroons.
pub open spec fn issuer_location() -> Seq<char> {
    "https://lsat-playground.bucko.vercel.app"@
}

fn issuer() -> (r: &'static str)
    ensures
        r@ == issuer_location(),
{
    "https://lsat-playground.bucko.vercel.app"
}

/// The `time<T` predicate bytes.
pub open spec fn time_caveat_spec(t: u64) -> Seq<u8> {
    time_prefix() + dec_ascii(t as nat)
}

/// The `path=...` predicate bytes.
pub open spec fn path_caveat_spec(path: Seq<char>) -> Seq<u8> {
    path_prefix() + vstd::utf8::encode_utf8(path)
}

/// The `payload=...` predicate bytes: the body digest in lowercase hex.
pub open spec fn payload_caveat_spec(digest: Seq<u8>) -> Seq<u8> {
    payload_prefix() + hex_ascii(digest)
}

/// The constraints a mint attaches, in order: a 120-second payment deadline,
/// the backend path, and the request-body digest.
pub open spec fn mint_caveats(now: u64, path: Seq<char>, body_sha: Seq<u8>) -> Seq<Seq<u8>>
    recommends
        now + 120 <= u64::MAX,
{
    seq![
        time_caveat_spec((now + 120) as u64),
        path_caveat_spec(path),
        payload_caveat_spec(body_sha),
    ]
}

/// The challenge header value.
pub open spec fn challenge_header_spec(token: Seq<char>, invoice: Seq<char>) -> Seq<char> {
    "LSAT macaroon=\""@ + token + "\" invoice=\""@ + invoice + "\""@
}

/// The one write a mint makes: a fresh ledger record for a well-formed
/// identity carrying the given payment hash, keyed by the namespaced hex of
/// the identity digest, with the digest as secret and the full charge as
/// quota.
pub open spec fn minted_record(
    id: Id,
    backend: crate::config::Backend,
    payment_hash: Seq<u8>,
    db0: Map<Seq<u8>, Seq<u8>>,
    db1: Map<Seq<u8>, Seq<u8>>,
) -> bool {
    let digest = sha256_of(id.encode_spec());
    let key = crate::db::db_key_spec(digest);
    &&& id.wf()
    &&& id.payment_hash@ == payment_hash
    &&& db1 == db0.insert(
        key,
        crate::db::entry_enc(key, digest, (backend.price_msat * backend.spec_multiple()) as u32),
    )
}

/// What a successful mint did, for the identity it drew: it stored a fresh
/// ledger record whose secret is the identity digest and whose quota is the
/// full charge, and answered with a challenge header carrying the signed
/// macaroon token and the invoice.
pub open spec fn minted_for(
    id: Id,
    backend: crate::config::Backend,
    body_sha: Seq<u8>,
    payment_hash: Seq<u8>,
    payment_request: Seq<char>,
    now: u64,
    header: Seq<char>,
    db0: Map<Seq<u8>, Seq<u8>>,
    db1: Map<Seq<u8>, Seq<u8>>,
) -> bool {
    let digest = sha256_of(id.encode_spec());
    let key = crate::db::db_key_spec(digest);
    let ident = hex_ascii(id.encode_spec());
    let caveats = mint_caveats(now, backend.path@, body_sha);
    &&& id.wf()
    &&& id.payment_hash@ == payment_hash
    &&& db1 == db0.insert(
        key,
        crate::db::entry_enc(key, digest, (backend.price_msat * backend.spec_multiple()) as u32),
    )
    &&& header == challenge_header_spec(
        mac_token(issuer_location(), ident, caveats, chain_sig(digest, ident, caveats)),
        payment_request,
    )
}

impl Lsat {
    /// Valid credential: a valid identity whose binary encoding is exactly
    /// what the macaroon identifier spells in hex.
    pub open spec fn wf(&self) -> bool {
        &&& self.id.wf()
        &&& valid_hex_ascii(self.mac.identifier@)
        &&& hex_val_seq(self.mac.identifier@) == self.id.encode_spec()
    }

    /// Initialize the LSAT from a presented macaroon: decode the identity out of
    /// the hex identifier and keep the plain macaroon parts.
    pub fn init(m: &macaroon::Macaroon) -> (r: Result<Lsat, LsatError>)
        ensures
            r is Ok <==> valid_hex_ascii(mac_ident(*m)) && Id::decodes(hex_val_seq(mac_ident(*m))),
            r matches Ok(l) ==> l.wf() && l.mac.identifier@ == mac_ident(*m)
                && l.mac.caveats.deep_view() == mac_caveats(*m) && l.mac.signature@ == mac_sig(*m),
    {
        let identifier = mac_identifier(m);
        let id_bytes = match hex_decode(&identifier) {
            Some(b) => b,
            None => {
                return Err(LsatError::MacaroonInvalid);
            },
        };
        let id = match Id::decode(&id_bytes) {
            Ok(id) => id,
            Err(e) => {
                return Err(e);
            },
        };
        let caveats = mac_predicates(m);
        let signature = mac_signature(m);
        proof {
            lemma_id_reencode(id_bytes@, id);
        }
        Ok(Lsat { id, mac: ParsedMac { identifier, caveats, signature } })
    }

    /// Extract the value of the first predicate `name=value` from the parsed
    /// caveats.
    pub fn get_predicate(&self, name: &Vec<u8>) -> (r: Option<Vec<u8>>)
        ensures
            r matches Some(v) ==> find_predicate(self.mac.caveats.deep_view(), name@ + seq![61u8], 0)
                == Some(v@),
            r is None ==> find_predicate(self.mac.caveats.deep_view(), name@ + seq![61u8], 0)
                is None,
    {
        let mut prefix = sub_bytes(name, 0, name.len());
        assert(prefix@ =~= name@);
        prefix.push(61);
        assert(prefix@ =~= name@ + seq![61u8]);
        find_predicate_rec(&self.mac.caveats, &prefix, 0)
    }

    /// Verify the credential: the stored secret must be the identity digest,
    /// the signature chain must validate under it, and every caveat must be
    /// satisfied for this path at this time.
    pub fn verify(&self, secret: &Vec<u8>, path: &Vec<u8>, now: u64) -> (r: Result<(), LsatError>)
        requires
            self.id.wf(),
        ensures
            r is Ok <==> verify_ok_spec(self, secret@, path@, now),
            r is Err && secret@ == sha256_of(self.id.encode_spec()) && signature_valid(
                self,
                secret@,
            ) ==> r == Err::<(), LsatError>(LsatError::CaveatUnsatisfied),
            r is Err && !(secret@ == sha256_of(self.id.encode_spec()) && signature_valid(
                self,
                secret@,
            )) ==> r == Err::<(), LsatError>(LsatError::SignatureMismatch),
    {
        let key = self.id.to_sha256();
        if !bytes_eq(secret, &key) {
            return Err(LsatError::SignatureMismatch);
        }
        let chain = match compute_chain(issuer(), &key, &self.mac.identifier, &self.mac.caveats) {
            Ok(c) => c,
            Err(_) => {
                return Err(LsatError::SignatureMismatch);
            },
        };
        if !bytes_eq(&chain, &self.mac.signature) {
            return Err(LsatError::SignatureMismatch);
        }
        if !check_caveats(&self.mac.caveats, now, path) {
            return Err(LsatError::CaveatUnsatisfied);
        }
        Ok(())
    }

    /// Mint a challenge: draw a fresh identity for the invoice's payment
    /// hash, store its quota record, and build the `WWW-Authenticate` value
    /// carrying the signed macaroon and the invoice.
    pub fn generate_challange(
        db: &mut sled::Db,
        backend: &crate::config::Backend,
        body_sha: &Vec<u8>,
        payment_hash: &PaymentHashDef,
        payment_request: &str,
        now: u64,
    ) -> (r: Result<Challenge, LsatError>)
        requires
            payment_hash.wf(),
            backend.price_msat * backend.spec_multiple() <= u32::MAX,
            now + 120 <= u64::MAX,
        ensures
            r matches Ok(c) ==> minted_for(
                c.id,
                *backend,
                body_sha@,
                payment_hash.0@,
                payment_request@,
                now,
                c.header_value@,
                db_contents(*old(db)),
                db_contents(*final(db)),
            ),
            r is Err ==> db_contents(*final(db)) == db_contents(*old(db)) || exists|id: Id|
                #[trigger] minted_record(
                    id,
                    *backend,
                    payment_hash.0@,
                    db_contents(*old(db)),
                    db_contents(*final(db)),
                ),
    {
        let hash_copy = PaymentHashDef(sub_bytes(&payment_hash.0, 0, payment_hash.0.len()));
        assert(hash_copy.0@ =~= payment_hash.0@);
        let id = Id::new(hash_copy);
        let digest = id.to_sha256();
        let total = backend.amount_total();
        match crate::db::Entry::insert(db, &id, &digest, total) {
            Ok(()) => (),
            Err(e) => {
                proof {
                    if db_contents(*db) != db_contents(*old(db)) {
                        assert(minted_record(
                            id,
                            *backend,
                            payment_hash.0@,
                            db_contents(*old(db)),
                            db_contents(*db),
                        ));
                    }
                }
                return Err(e);
            },
        }
        let id_bytes = id.encode();
        let ident = hex_encode(&id_bytes);
        proof {
            crate::bytes::lemma_hex_ascii_props(id_bytes@);
        }
        let mut m = match mac_create(issuer(), &digest, &ident) {
            Ok(m) => m,
            Err(e) => {
                return Err(e);
            },
        };
        let mut c1 = time_prefix_bytes();
        let deadline = u64_to_dec(now + 120);
        crate::bytes::append_bytes(&mut c1, &deadline);
        let mut c2 = path_prefix_bytes();
        let path_bytes = backend.path.as_str().as_bytes_vec();
        crate::bytes::append_bytes(&mut c2, &path_bytes);
        let mut c3 = payload_prefix_bytes();
        let payload_hex = hex_encode(body_sha);
        crate::bytes::append_bytes(&mut c3, &payload_hex);
        mac_add_caveat(&mut m, &c1);
        mac_add_caveat(&mut m, &c2);
        mac_add_caveat(&mut m, &c3);
        let ghost caveats = mint_caveats(now, backend.path@, body_sha@);
        proof {
            assert(c1@ == time_caveat_spec((now + 120) as u64));
            assert(c2@ == path_caveat_spec(backend.path@));
            assert(c3@ == payload_caveat_spec(body_sha@));
            assert(mac_caveats(m) =~= caveats);
            let e: Seq<Seq<u8>> = Seq::empty();
            assert(chain_sig(digest@, ident@, e) == chain_start(digest@, ident@));
            let s1 = seq![c1@];
            assert(s1.drop_last() =~= e && s1.last() == c1@);
            assert(chain_sig(digest@, ident@, s1) == chain_link(chain_start(digest@, ident@), c1@));
            let s2 = seq![c1@, c2@];
            assert(s2.drop_last() =~= s1 && s2.last() == c2@);
            assert(chain_sig(digest@, ident@, s2) == chain_link(
                chain_sig(digest@, ident@, s1),
                c2@,
            ));
            let s3 = seq![c1@, c2@, c3@];
            assert(s3.drop_last() =~= s2 && s3.last() == c3@);
            assert(chain_sig(digest@, ident@, s3) == chain_link(
                chain_sig(digest@, ident@, s2),
                c3@,
            ));
            assert(caveats =~= s3);
            assert(mac_sig(m) == chain_sig(digest@, ident@, caveats));
        }
        let token = match mac_serialize(&m) {
            Ok(t) => t,
            Err(e) => {
                return Err(e);
            },
        };
        let mut header = String::from_str("LSAT macaroon=\"");
        header.append(token.as_str());
        header.append("\" invoice=\"");
        header.append(payment_request);
        header.append("\"");
        proof {
            assert(header@ == challenge_header_spec(token@, payment_request@));
        }
        Ok(Challenge { header_value: header, id })
    }
}

use crate::db::db_contents;

/// The signature chain of the presented macaroon validates under `key`.
pub open spec fn signature_valid(l: &Lsat, key: Seq<u8>) -> bool {
    l.mac.identifier@.len() > 0 && l.mac.signature@ == chain_sig(
        key,
        l.mac.identifier@,
        l.mac.caveats.deep_view(),
    )
}

/// All the checks [`Lsat::verify`] makes: the stored secret is the identity
/// digest, the chain validates under it, and the caveats hold.
pub open spec fn verify_ok_spec(l: &Lsat, secret: Seq<u8>, path: Seq<u8>, now: u64) -> bool {
    &&& secret == sha256_of(l.id.encode_spec())
    &&& signature_valid(l, secret)
    &&& caveats_ok(l.mac.caveats.deep_view(), now, path)
}

/// First caveat starting with `prefix`, minus the prefix, from index `i` on.
pub open spec fn find_predicate(ps: Seq<Seq<u8>>, prefix: Seq<u8>, i: int) -> Option<Seq<u8>>
    decreases ps.len() - i,
{
    if i < 0 || i >= ps.len() {
        None
    } else if starts_with(ps[i], prefix) {
        Some(ps[i].skip(prefix.len() as int))
    } else {
        find_predicate(ps, prefix, i + 1)
    }
}

fn find_predicate_rec(ps: &Vec<Vec<u8>>, prefix: &Vec<u8>, i: usize) -> (r: Option<Vec<u8>>)
    requires
        i <= ps@.len(),
    ensures
        r matches Some(v) ==> find_predicate(ps.deep_view(), prefix@, i as int) == Some(v@),
        r is None ==> find_predicate(ps.deep_view(), prefix@, i as int) is None,
    decreases ps@.len() - i,
{
    if i == ps.len() {
        None
    } else {
        let p = &ps[i];
        assert(ps.deep_view()[i as int] == p@);
        if has_prefix(p, prefix) {
            let v = sub_bytes(p, prefix.len(), p.len());
            assert(v@ =~= p@.skip(prefix@.len() as int));
            Some(v)
        } else {
            find_predicate_rec(ps, prefix, i + 1)
        }
    }
}

// ---------------------------------------------------------------------------
// Header parsing
// ---------------------------------------------------------------------------
/// A lowercase hex digit byte.
pub open spec fn is_hex_lower(b: u8) -> bool {
    (48 <= b && b <= 57) || (97 <= b && b <= 102)
}

/// 64 lowercase hex digit bytes follow position `j`.
pub open spec fn hex64_after(s: Seq<u8>, j: int) -> bool {
    forall|k: int| j + 1 <= k < j + 65 ==> is_hex_lower(#[trigger] s[k])
}

/// The bytes of `"LSAT "`.
pub open spec fn lsat_prefix() -> Seq<u8> {
    seq![76u8, 83u8, 65u8, 84u8, 32u8]
}

/// The authorization header matches at `(i, j)`: `"LSAT "` at `i`, then the
/// macaroon text, then a colon at `j` followed by 64 lowercase hex digits.
pub open spec fn match_at(s: Seq<u8>, i: int, j: int) -> bool {
    &&& 0 <= i
    &&& i + 5 <= j
    &&& j + 65 <= s.len()
    &&& s.subrange(i, i + 5) == lsat_prefix()
    &&& s[j] == 58
    &&& hex64_after(s, j)
}

/// The first position at or after `j` where a colon is followed by 64
/// lowercase hex digits.
pub open spec fn find_colon(s: Seq<u8>, j: int) -> Option<int>
    decreases s.len() - j,
{
    if j < 0 || j + 65 > s.len() {
        None
    } else if s[j] == 58 && hex64_after(s, j) {
        Some(j)
    } else {
        find_colon(s, j + 1)
    }
}

/// The leftmost match with the laziest macaroon group: the first `"LSAT "`
/// occurrence from which a colon-and-preimage suffix can be found, with the
/// earliest such colon.
pub open spec fn find_auth(s: Seq<u8>, i: int) -> Option<(int, int)>
    decreases s.len() - i,
{
    if i < 0 || i + 5 > s.len() {
        None
    } else if s.subrange(i, i + 5) == lsat_prefix() {
        match find_colon(s, i + 5) {
            Some(j) => Some((i, j)),
            None => find_auth(s, i + 1),
        }
    } else {
        find_auth(s, i + 1)
    }
}

/// What the authorization header parse finds.
pub open spec fn auth_match(s: Seq<u8>) -> Option<(int, int)> {
    find_auth(s, 0)
}

fn hex64_check(s: &Vec<u8>, j: usize) -> (r: bool)
    requires
        j + 65 <= s@.len(),
    ensures
        r == hex64_after(s@, j as int),
{
    let n = s.len();
    assert(j + 65 <= n);
    let end: usize = j + 65;
    let mut k: usize = j + 1;
    while k < end
        invariant
            j + 1 <= k <= end,
            end == j + 65,
            j + 65 <= s@.len(),
            forall|t: int| j + 1 <= t < k ==> is_hex_lower(#[trigger] s@[t]),
        decreases end - k,
    {
        let b = s[k];
        if !((48 <= b && b <= 57) || (97 <= b && b <= 102)) {
            assert(!is_hex_lower(s@[k as int]));
            return false;
        }
        k = k + 1;
    }
    true
}

fn find_colon_rec(s: &Vec<u8>, j: usize) -> (r: Option<usize>)
    ensures
        r matches Some(v) ==> find_colon(s@, j as int) == Some(v as int),
        r is None ==> find_colon(s@, j as int) is None,
    decreases s@.len() - j,
{
    let n = s.len();
    if j >= n || n - j < 65 {
        return None;
    }
    if s[j] == 58 && hex64_check(s, j) {
        Some(j)
    } else {
        find_colon_rec(s, j + 1)
    }
}

fn lsat_prefix_at(s: &Vec<u8>, i: usize) -> (r: bool)
    requires
        i + 5 <= s@.len(),
    ensures
        r == (s@.subrange(i as int, i as int + 5) == lsat_prefix()),
{
    let n = s.len();
    let r = s[i] == 76 && s[i + 1] == 83 && s[i + 2] == 65 && s[i + 3] == 84 && s[i + 4] == 32;
    proof {
        let sub = s@.subrange(i as int, i as int + 5);
        assert(sub.len() == 5 && sub[0] == s@[i as int] && sub[1] == s@[i as int + 1] && sub[2]
            == s@[i as int + 2] && sub[3] == s@[i as int + 3] && sub[4] == s@[i as int + 4]);
        if r {
            assert(sub =~= lsat_prefix());
        } else {
            assert(sub != lsat_prefix());
        }
    }
    r
}

fn find_auth_rec(s: &Vec<u8>, i: usize) -> (r: Option<(usize, usize)>)
    ensures
        r matches Some(v) ==> find_auth(s@, i as int) == Some((v.0 as int, v.1 as int)),
        r is None ==> find_auth(s@, i as int) is None,
    decreases s@.len() - i,
{
    let n = s.len();
    if i >= n || n - i < 5 {
        return None;
    }
    if lsat_prefix_at(s, i) {
        match find_colon_rec(s, i + 5) {
            Some(j) => Some((i, j)),
            None => find_auth_rec(s, i + 1),
        }
    } else {
        find_auth_rec(s, i + 1)
    }
}

/// A found match is a match, within bounds.
pub proof fn lemma_find_colon_props(s: Seq<u8>, j: int)
    ensures
        find_colon(s, j) matches Some(c) ==> j <= c && c + 65 <= s.len() && s[c] == 58
            && hex64_after(s, c),
    decreases s.len() - j,
{
    if !(j < 0 || j + 65 > s.len()) {
        lemma_find_colon_props(s, j + 1);
    }
}

pub proof fn lemma_find_auth_props(s: Seq<u8>, i: int)
    ensures
        find_auth(s, i) matches Some(m) ==> i <= m.0 && match_at(s, m.0, m.1),
    decreases s.len() - i,
{
    if !(i < 0 || i + 5 > s.len()) {
        lemma_find_colon_props(s, i + 5);
        lemma_find_auth_props(s, i + 1);
    }
}

fn preimage_name_bytes() -> (r: Vec<u8>)
    ensures
        r@ == preimage_name(),
{
    let mut v: Vec<u8> = Vec::new();
    v.push(112);
    v.push(114);
    v.push(101);
    v.push(105);
    v.push(109);
    v.push(97);
    v.push(103);
    v.push(101);
    assert(v@ =~= preimage_name());
    v
}

/// The bytes of `"preimage"`.
pub open spec fn preimage_name() -> Seq<u8> {
    seq![112u8, 114u8, 101u8, 105u8, 109u8, 97u8, 103u8, 101u8]
}

/// The token is within the accepted length bound.
pub open spec fn token_within_limit(token: Seq<u8>) -> bool {
    token.len() <= MAX_TOKEN_BYTES
}

/// A token is within bounds, deserializes, and its hex identifier decodes to
/// a valid identity.
pub open spec fn token_lsat_ok(token: Seq<u8>) -> bool {
    &&& token_within_limit(token)
    &&& mac_deser_ok(token)
    &&& valid_hex_ascii(mac_deser_ident(token))
    &&& Id::decodes(hex_val_seq(mac_deser_ident(token)))
}

/// The value of the first `preimage=` constraint of a token's macaroon.
pub open spec fn token_preimage(token: Seq<u8>) -> Option<Seq<u8>> {
    find_predicate(mac_deser_caveats(token), preimage_name() + seq![61u8], 0)
}

/// A bare macaroon header is accepted: the token parses to a valid
/// credential and carries a `preimage=` constraint whose value is hex for at
/// least 32 bytes.
pub open spec fn token_shape_ok(token: Seq<u8>) -> bool {
    &&& token_lsat_ok(token)
    &&& (token_preimage(token) matches Some(v) && valid_hex_ascii(v) && hex_val_seq(v).len()
        >= 32)
}

/// The parsed credential parts equal the token's decoded parts.
pub open spec fn lsat_from_token(l: Lsat, token: Seq<u8>) -> bool {
    &&& l.mac.identifier@ == mac_deser_ident(token)
    &&& l.mac.caveats.deep_view() == mac_deser_caveats(token)
    &&& l.mac.signature@ == mac_deser_sig(token)
}

/// Parse a credential from the three accepted header shapes, probed in
/// order: `Authorization: LSAT <macaroon>:<preimage-hex-64>`, then
/// `Grpc-Metadata-Macaroon` and `Macaroon` carrying only the macaroon, with
/// the preimage taken from a `preimage=<hex>` constraint inside it.
pub fn parse_lsat(
    authorization: Option<&Vec<u8>>,
    macaroon_meta: Option<&Vec<u8>>,
    macaroon_header: Option<&Vec<u8>>,
) -> (r: Result<(Lsat, PaymentPreimage), LsatError>)
    ensures
        authorization is None && macaroon_meta is None && macaroon_header is None ==> r
            == Err::<(Lsat, PaymentPreimage), LsatError>(LsatError::HeaderMissing),
        r matches Ok(p) ==> p.0.wf() && p.1.wf(),
        authorization matches Some(h) ==> match auth_match(h@) {
            Some(m) => {
                let tok = h@.subrange(m.0 + 5, m.1);
                &&& (r is Ok <==> token_lsat_ok(tok))
                &&& (r matches Ok(p) ==> p.1.0@ == hex_val_seq(
                    h@.subrange(m.1 + 1, m.1 + 65),
                ).take(32) && lsat_from_token(p.0, tok))
            },
            None => r is Err,
        },
        authorization is None ==> match macaroon_meta {
            Some(t) => {
                &&& (r is Ok <==> token_shape_ok(t@))
                &&& (r matches Ok(p) ==> p.1.0@ == hex_val_seq(token_preimage(t@).unwrap()).take(
                    32,
                ) && lsat_from_token(p.0, t@))
            },
            None => match macaroon_header {
                Some(t) => {
                    &&& (r is Ok <==> token_shape_ok(t@))
                    &&& (r matches Ok(p) ==> p.1.0@ == hex_val_seq(
                        token_preimage(t@).unwrap(),
                    ).take(32) && lsat_from_token(p.0, t@))
                },
                None => true,
            },
        },
{
    if let Some(h) = authorization {
        let (i, j) = match find_auth_rec(h, 0) {
            Some(m) => m,
            None => {
                return Err(LsatError::HeaderMalformed);
            },
        };
        let n = h.len();
        proof {
            lemma_find_auth_props(h@, 0);
            assert(j + 65 <= n);
        }
        let mac_b64 = sub_bytes(h, i + 5, j);
        if mac_b64.len() > MAX_TOKEN_BYTES {
            return Err(LsatError::HeaderMalformed);
        }
        let m = match mac_deserialize(&mac_b64) {
            Ok(m) => m,
            Err(e) => {
                return Err(e);
            },
        };
        let lsat = match Lsat::init(&m) {
            Ok(l) => l,
            Err(e) => {
                return Err(e);
            },
        };
        let hex_part = sub_bytes(h, j + 1, j + 65);
        proof {
            assert forall|t: int| 0 <= t < hex_part@.len() implies crate::bytes::is_hex_digit_byte(
                #[trigger] hex_part@[t],
            ) by {
                assert(hex_part@[t] == h@[j + 1 + t]);
                assert(is_hex_lower(h@[j + 1 + t]));
            }
            assert(valid_hex_ascii(hex_part@));
            crate::bytes::lemma_hex_val_seq_len(hex_part@);
        }
        match PaymentPreimage::from_preimage(&hex_part) {
            Ok(p) => {
                proof {
                    assert(hex_val_seq(hex_part@).len() == 32);
                    assert(hex_val_seq(hex_part@).take(32) =~= hex_val_seq(hex_part@));
                }
                Ok((lsat, p))
            },
            Err(e) => Err(e),
        }
    } else {
        let token = if let Some(t) = macaroon_meta {
            t
        } else if let Some(t) = macaroon_header {
            t
        } else {
            return Err(LsatError::HeaderMissing);
        };
        if token.len() > MAX_TOKEN_BYTES {
            return Err(LsatError::HeaderMalformed);
        }
        let m = match mac_deserialize(token) {
            Ok(m) => m,
            Err(e) => {
                return Err(e);
            },
        };
        let lsat = match Lsat::init(&m) {
            Ok(l) => l,
            Err(e) => {
                return Err(e);
            },
        };
        let name = preimage_name_bytes();
        let pre_hex = match lsat.get_predicate(&name) {
            Some(v) => v,
            None => {
                return Err(LsatError::HeaderMalformed);
            },
        };
        match PaymentPreimage::from_preimage(&pre_hex) {
            Ok(p) => Ok((lsat, p)),
            Err(e) => Err(e),
        }
    }
}

} // verus!
