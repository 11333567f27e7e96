//! The quota ledger: a persistent key-value store (through the `sled` crate)
//! mapping a namespaced credential-identity digest to a record of
//! `{id, secret, quota}` with a fixed, verified binary framing.
use vstd::prelude::*;
use vstd::string::*;

use crate::bytes::{append_bytes, hex_ascii, hex_encode, sub_bytes, u32_from_le, u32_le,
    u32_le_bytes, u32_le_read, u64_from_le, u64_le, u64_le_bytes, u64_le_read};
use crate::hashes::sha256_of;
use crate::lsat::{Id, LsatError, MiliSats};

verus! {

// ---------------------------------------------------------------------------
// The sled store behind trusted wrappers
// ---------------------------------------------------------------------------
#[verifier::external_type_specification]
#[verifier::external_body]
pub struct ExDb(sled::Db);

/// What the store holds: a map from key bytes to value bytes.
pub uninterp spec fn db_contents(db: sled::Db) -> Map<Seq<u8>, Seq<u8>>;

/// Relies on `sled::open`: opens or creates the database at `path`. Nothing
/// is assumed about the contents found on disk.
#[verifier::external_body]
pub fn open(path: &str) -> (r: Result<sled::Db, LsatError>) {
    match sled::open(path) {
        Ok(db) => Ok(db),
        Err(_) => Err(LsatError::StoreFailure),
    }
}

/// Relies on `sled::Config::temporary`: a store under a fresh private
/// directory, removed when dropped. Nothing is assumed of its contents.
#[verifier::external_body]
pub fn open_temporary() -> (r: Result<sled::Db, LsatError>) {
    match sled::Config::new().temporary(true).open() {
        Ok(db) => Ok(db),
        Err(_) => Err(LsatError::StoreFailure),
    }
}

/// Relies on `sled::Tree::get`: a successful lookup returns the value under
/// the key exactly when the key is present; a fault is reported as a store
/// failure.
#[verifier::external_body]
pub fn db_get(db: &sled::Db, key: &Vec<u8>) -> (r: Result<Option<Vec<u8>>, LsatError>)
    ensures
        r matches Ok(Some(v)) ==> db_contents(*db).contains_key(key@) && v@ == db_contents(
            *db,
        )[key@],
        r matches Ok(o) && o is None ==> !db_contents(*db).contains_key(key@),
        r matches Err(e) ==> e == LsatError::StoreFailure,
{
    match db.get(key.as_slice()) {
        Ok(Some(v)) => Ok(Some(v.to_vec())),
        Ok(None) => Ok(None),
        Err(_) => Err(LsatError::StoreFailure),
    }
}

/// Relies on `sled::Tree::insert`: on success the store maps the key to the
/// value and is otherwise unchanged. The tree update is a single atomic
/// step, so even a failed write leaves the store either unchanged or with
/// the key mapped to the value.
#[verifier::external_body]
pub fn db_insert(db: &mut sled::Db, key: &Vec<u8>, value: &Vec<u8>) -> (r: Result<(), LsatError>)
    ensures
        r is Ok ==> db_contents(*final(db)) == db_contents(*old(db)).insert(key@, value@),
        r matches Err(e) ==> e == LsatError::StoreFailure && (db_contents(*final(db))
            == db_contents(*old(db)) || db_contents(*final(db)) == db_contents(*old(db)).insert(
            key@,
            value@,
        )),
{
    match db.insert(key.as_slice(), value.as_slice()) {
        Ok(_) => Ok(()),
        Err(_) => Err(LsatError::StoreFailure),
    }
}

/// Relies on `sled::Tree::remove`: on success the key is absent and the store
/// is otherwise unchanged.
#[verifier::external_body]
pub fn db_remove(db: &mut sled::Db, key: &Vec<u8>) -> (r: Result<(), LsatError>)
    ensures
        r is Ok ==> db_contents(*final(db)) == db_contents(*old(db)).remove(key@),
        r matches Err(e) ==> e == LsatError::StoreFailure,
{
    match db.remove(key.as_slice()) {
        Ok(_) => Ok(()),
        Err(_) => Err(LsatError::StoreFailure),
    }
}

/// Default file name of the ledger.
pub fn default_name() -> (r: &'static str)
    ensures
        r@ == "lsat-proxy.db"@,
{
    "lsat-proxy.db"
}

// ---------------------------------------------------------------------------
// Ledger keys
// ---------------------------------------------------------------------------
/// The ledger key for an identity digest: a fixed namespace followed by the
/// digest in lowercase hex.
pub open spec fn db_key_spec(digest: Seq<u8>) -> Seq<u8> {
    ("lsat/proxy/secrets/").spec_bytes() + hex_ascii(digest)
}

/// Build the ledger key for an identity digest.
pub fn db_key(digest: &Vec<u8>) -> (r: Vec<u8>)
    ensures
        r@ == db_key_spec(digest@),
{
    let mut key = "lsat/proxy/secrets/".as_bytes_vec();
    let hex = hex_encode(digest);
    append_bytes(&mut key, &hex);
    key
}

// ---------------------------------------------------------------------------
// Ledger entries
// ---------------------------------------------------------------------------
/// One ledger record: the key it lives under, the credential secret, and the
/// remaining quota.
#[derive(Debug)]
pub struct Entry {
    pub id: Vec<u8>,
    pub secret: Vec<u8>,
    pub quota: MiliSats,
}

/// The binary framing of a record: id length (eight little-endian bytes),
/// id bytes, 32 secret bytes, quota (four little-endian bytes).
pub open spec fn entry_enc(id: Seq<u8>, secret: Seq<u8>, quota: u32) -> Seq<u8> {
    u64_le(id.len() as u64) + id + secret + u32_le(quota)
}

/// A byte string frames a record iff its length field matches its length.
pub open spec fn entry_decodes(bytes: Seq<u8>) -> bool {
    bytes.len() >= 44 && u64_from_le(bytes.subrange(0, 8)) == bytes.len() - 44
}

pub open spec fn entry_dec_id(bytes: Seq<u8>) -> Seq<u8> {
    bytes.subrange(8, bytes.len() - 36)
}

pub open spec fn entry_dec_secret(bytes: Seq<u8>) -> Seq<u8> {
    bytes.subrange(bytes.len() - 36, bytes.len() - 4)
}

pub open spec fn entry_dec_quota(bytes: Seq<u8>) -> u32 {
    u32_from_le(bytes.subrange(bytes.len() - 4, bytes.len() as int))
}

impl Entry {
    /// Valid record: a 32-byte secret.
    pub open spec fn wf(&self) -> bool {
        self.spec_secret().len() == 32
    }

    /// The ledger key this record lives under.
    pub open spec fn spec_id(&self) -> Seq<u8> {
        self.id@
    }

    /// The stored signing secret.
    pub open spec fn spec_secret(&self) -> Seq<u8> {
        self.secret@
    }

    /// The framed bytes of this record.
    pub open spec fn enc(&self) -> Seq<u8> {
        entry_enc(self.spec_id(), self.spec_secret(), self.quota.0)
    }

    /// The signing secret stored for the credential.
    pub fn secret(&self) -> (r: Vec<u8>)
        ensures
            r@ == self.spec_secret(),
    {
        let r = sub_bytes(&self.secret, 0, self.secret.len());
        assert(r@ =~= self.secret@);
        r
    }

    /// Frame this record as bytes.
    pub fn encode(&self) -> (r: Vec<u8>)
        ensures
            r@ == self.enc(),
    {
        let mut out = u64_le_bytes(self.id.len() as u64);
        append_bytes(&mut out, &self.id);
        append_bytes(&mut out, &self.secret);
        let quota = u32_le_bytes(self.quota.0);
        append_bytes(&mut out, &quota);
        out
    }

    /// Read a record back from its framed bytes.
    pub fn decode(bytes: &Vec<u8>) -> (r: Option<Entry>)
        ensures
            r is Some <==> (entry_decodes(bytes@) && entry_dec_secret(bytes@).len() == 32),
            r matches Some(e) ==> e.spec_id() == entry_dec_id(bytes@) && e.spec_secret()
                == entry_dec_secret(bytes@) && e.quota.0 == entry_dec_quota(bytes@) && e.wf(),
    {
        let n = bytes.len();
        if n < 44 {
            return None;
        }
        let id_len = u64_le_read(bytes, 0);
        if id_len != (n - 44) as u64 {
            return None;
        }
        let id = sub_bytes(bytes, 8, n - 36);
        let secret = sub_bytes(bytes, n - 36, n - 4);
        let quota = u32_le_read(bytes, n - 4);
        proof {
            assert(bytes@.subrange(n - 4, n - 4 + 4) =~= bytes@.subrange(
                bytes@.len() - 4,
                bytes@.len() as int,
            ));
        }
        Some(Entry { id, secret, quota: MiliSats(quota) })
    }

    /// Fetch the record for an identity; `Expired` when the key is absent or
    /// the stored bytes do not frame a record.
    pub fn get(db: &sled::Db, id: &Id) -> (r: Result<Entry, LsatError>)
        requires
            id.wf(),
        ensures
            r matches Ok(e) ==> {
                let key = db_key_spec(sha256_of(id.encode_spec()));
                &&& db_contents(*db).contains_key(key)
                &&& e.enc() == db_contents(*db)[key]
                &&& e.spec_secret() == entry_dec_secret(db_contents(*db)[key])
                &&& e.wf()
            },
            !db_contents(*db).contains_key(db_key_spec(sha256_of(id.encode_spec()))) ==> r is Err,
            ({
                let key = db_key_spec(sha256_of(id.encode_spec()));
                db_contents(*db).contains_key(key) && entry_decodes(db_contents(*db)[key])
                    && entry_dec_secret(db_contents(*db)[key]).len() == 32
            }) ==> (r is Ok || r == Err::<Entry, LsatError>(LsatError::StoreFailure)),
            r matches Err(e) ==> e == LsatError::Expired || e == LsatError::StoreFailure,
    {
        let digest = id.to_sha256();
        let key = db_key(&digest);
        match db_get(db, &key) {
            Ok(Some(value)) => match Entry::decode(&value) {
                Some(entry) => {
                    proof {
                        lemma_entry_reencode(value@);
                    }
                    Ok(entry)
                },
                None => Err(LsatError::Expired),
            },
            Ok(None) => Err(LsatError::Expired),
            Err(e) => Err(e),
        }
    }

    /// Write a fresh record for an identity with the given secret and quota.
    pub fn insert(db: &mut sled::Db, id: &Id, secret: &Vec<u8>, quota: MiliSats) -> (r: Result<
        (),
        LsatError,
    >)
        requires
            id.wf(),
            secret@.len() == 32,
        ensures
            r is Ok ==> {
                let key = db_key_spec(sha256_of(id.encode_spec()));
                db_contents(*final(db)) == db_contents(*old(db)).insert(
                    key,
                    entry_enc(key, secret@, quota.0),
                )
            },
            r matches Err(e) ==> {
                let key = db_key_spec(sha256_of(id.encode_spec()));
                e == LsatError::StoreFailure && (db_contents(*final(db)) == db_contents(*old(db))
                    || db_contents(*final(db)) == db_contents(*old(db)).insert(
                    key,
                    entry_enc(key, secret@, quota.0),
                ))
            },
    {
        let digest = id.to_sha256();
        let key = db_key(&digest);
        let secret_copy = sub_bytes(secret, 0, secret.len());
        assert(secret_copy@ =~= secret@);
        let id_copy = sub_bytes(&key, 0, key.len());
        assert(id_copy@ =~= key@);
        let entry = Entry { id: id_copy, secret: secret_copy, quota };
        let value = entry.encode();
        db_insert(db, &key, &value)
    }

    /// Write this record back under its own key.
    pub fn update(&self, db: &mut sled::Db) -> (r: Result<(), LsatError>)
        ensures
            r is Ok ==> db_contents(*final(db)) == db_contents(*old(db)).insert(
                self.spec_id(),
                self.enc(),
            ),
    {
        let key = sub_bytes(&self.id, 0, self.id.len());
        assert(key@ =~= self.id@);
        let value = self.encode();
        db_insert(db, &key, &value)
    }

    /// Delete this record.
    pub fn remove(&self, db: &mut sled::Db) -> (r: Result<(), LsatError>)
        ensures
            r is Ok ==> db_contents(*final(db)) == db_contents(*old(db)).remove(self.spec_id()),
    {
        let key = sub_bytes(&self.id, 0, self.id.len());
        assert(key@ =~= self.id@);
        db_remove(db, &key)
    }
}

/// A byte string that frames a record is the framing of its decoded fields.
pub proof fn lemma_entry_reencode(b: Seq<u8>)
    requires
        entry_decodes(b),
        entry_dec_secret(b).len() == 32,
    ensures
        entry_enc(entry_dec_id(b), entry_dec_secret(b), entry_dec_quota(b)) == b,
{
    let id = entry_dec_id(b);
    crate::bytes::lemma_u64_le_inverse(b.subrange(0, 8));
    crate::bytes::lemma_u32_le_inverse(b.subrange(b.len() - 4, b.len() as int));
    assert(id.len() == b.len() - 44);
    assert(u64_le(id.len() as u64) == b.subrange(0, 8));
    assert(entry_enc(id, entry_dec_secret(b), entry_dec_quota(b)) =~= b);
}

/// A record equal to some stored bytes decodes them back to its own fields.
pub proof fn lemma_entry_matches_stored(stored: Seq<u8>, e: &Entry)
    requires
        e.enc() == stored,
        e.wf(),
        e.spec_id().len() <= u64::MAX,
    ensures
        entry_dec_quota(stored) == e.quota.0,
        entry_dec_id(stored) == e.spec_id(),
        entry_dec_secret(stored) == e.spec_secret(),
{
    lemma_entry_roundtrip(e.spec_id(), e.spec_secret(), e.quota.0);
}

/// A framed record decodes back to its fields.
pub proof fn lemma_entry_roundtrip(id: Seq<u8>, secret: Seq<u8>, quota: u32)
    requires
        id.len() <= u64::MAX,
    ensures
        entry_decodes(entry_enc(id, secret, quota)) <==> secret.len() == 32,
        secret.len() == 32 ==> entry_dec_id(entry_enc(id, secret, quota)) == id
            && entry_dec_secret(entry_enc(id, secret, quota)) == secret && entry_dec_quota(
            entry_enc(id, secret, quota),
        ) == quota,
{
    let e = entry_enc(id, secret, quota);
    crate::bytes::lemma_u64_le_roundtrip(id.len() as u64);
    crate::bytes::lemma_u32_le_roundtrip(quota);
    assert(e.subrange(0, 8) =~= u64_le(id.len() as u64));
    if secret.len() == 32 {
        assert(e.len() == 44 + id.len());
        assert(entry_dec_id(e) =~= id);
        assert(entry_dec_secret(e) =~= secret);
        assert(e.subrange(e.len() - 4, e.len() as int) =~= u32_le(quota));
    } else {
        assert(e.len() == 12 + id.len() + secret.len());
        if entry_decodes(e) {
            assert(u64_from_le(e.subrange(0, 8)) == id.len());
            assert(id.len() == e.len() - 44);
            assert(secret.len() == 32);
        }
    }
}

// ---------------------------------------------------------------------------
// The atomic quota decrement
// ---------------------------------------------------------------------------
/// One verified charge against a record: reject when the remaining quota does
/// not cover the price; delete the record when it reaches exactly zero; write
/// the decremented record back otherwise. Returns the remaining quota.
pub fn charge(db: &mut sled::Db, entry: &Entry, price: MiliSats) -> (r: Result<MiliSats, LsatError>)
    requires
        entry.wf(),
    ensures
        r matches Ok(rem) ==> entry.quota.0 >= price.0 && rem.0 == entry.quota.0 - price.0,
        r is Ok && entry.quota.0 > price.0 ==> db_contents(*final(db)) == db_contents(
            *old(db),
        ).insert(
            entry.spec_id(),
            entry_enc(entry.spec_id(), entry.spec_secret(), (entry.quota.0 - price.0) as u32),
        ),
        r is Ok && entry.quota.0 == price.0 ==> db_contents(*final(db)) == db_contents(
            *old(db),
        ).remove(entry.spec_id()),
        r == Err::<MiliSats, LsatError>(LsatError::QuotaExceeded) <==> entry.quota.0 < price.0,
        entry.quota.0 < price.0 ==> db_contents(*final(db)) == db_contents(*old(db)),
        r matches Err(e) ==> e == LsatError::QuotaExceeded || e == LsatError::StoreFailure,
{
    if entry.quota.0 < price.0 {
        return Err(LsatError::QuotaExceeded);
    }
    let remaining: u32 = entry.quota.0 - price.0;
    if remaining == 0 {
        match entry.remove(db) {
            Ok(()) => Ok(MiliSats(0)),
            Err(_) => Err(LsatError::StoreFailure),
        }
    } else {
        let updated = Entry {
            id: sub_bytes(&entry.id, 0, entry.id.len()),
            secret: sub_bytes(&entry.secret, 0, entry.secret.len()),
            quota: MiliSats(remaining),
        };
        proof {
            assert(updated.id@ =~= entry.id@);
            assert(updated.secret@ =~= entry.secret@);
        }
        match updated.update(db) {
            Ok(()) => Ok(MiliSats(remaining)),
            Err(_) => Err(LsatError::StoreFailure),
        }
    }
}

// ---------------------------------------------------------------------------
// The quota sequence law
// ---------------------------------------------------------------------------
/// One abstract charge: rejected when the quota does not cover the price.
pub open spec fn charge_step(q: nat, p: nat) -> Option<nat> {
    if q < p {
        None
    } else {
        Some((q - p) as nat)
    }
}

/// The quota after `k` consecutive successful charges of `p`, starting from
/// `q0`; `None` as soon as one charge is rejected.
pub open spec fn quota_after(q0: nat, p: nat, k: nat) -> Option<nat>
    decreases k,
{
    if k == 0 {
        Some(q0)
    } else {
        match quota_after(q0, p, (k - 1) as nat) {
            Some(q) => charge_step(q, p),
            None => None,
        }
    }
}

/// For `k` verifications of one credential at price `p` from initial quota
/// `q0`: while `k·p < q0` the stored quota is `q0 − k·p`; at `k·p == q0` it
/// reaches exactly zero (and the record is deleted, see [`charge`]); and a
/// charge beyond the budget is rejected, never underflowing.
pub proof fn lemma_quota_sequence(q0: nat, p: nat, k: nat)
    requires
        p > 0,
    ensures
        k * p < q0 ==> quota_after(q0, p, k) == Some((q0 - k * p) as nat),
        k * p == q0 ==> quota_after(q0, p, k) == Some(0nat),
        k * p > q0 ==> quota_after(q0, p, k) is None,
    decreases k,
{
    if k == 0 {
        assert(k * p == 0) by (nonlinear_arith)
            requires
                k == 0,
        ;
    } else {
        let k1 = (k - 1) as nat;
        lemma_quota_sequence(q0, p, k1);
        assert(k * p == k1 * p + p) by (nonlinear_arith)
            requires
                k >= 1 && k1 == k - 1,
        ;
    }
}

} // verus!
