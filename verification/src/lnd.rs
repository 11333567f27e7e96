//! Invoice-side data: the invoice model, its states, the bounded TTL cache
//! fed by lookups and by the node's subscription stream, and the invoice
//! parameters used when asking the node for a new invoice.
//!
//! The node RPC itself (connect, add, lookup, subscribe) is I/O and lives
//! outside the library; callers hand the resulting invoice values in.
use vstd::prelude::*;
use vstd::string::*;

use crate::bytes::sub_bytes;
use crate::lsat::MiliSats;

verus! {

/// The state of an invoice at the node.
#[derive(Clone, Copy, Debug, PartialEq, Eq, Structural)]
pub enum InvoiceState {
    Open,
    Settled,
    Cancelled,
    Accepted,
}

impl InvoiceState {
    /// The wire code of the state.
    pub open spec fn spec_code(&self) -> i32 {
        match self {
            InvoiceState::Open => 0,
            InvoiceState::Settled => 1,
            InvoiceState::Cancelled => 2,
            InvoiceState::Accepted => 3,
        }
    }

    pub fn code(&self) -> (r: i32)
        ensures
            r == self.spec_code(),
    {
        match self {
            InvoiceState::Open => 0,
            InvoiceState::Settled => 1,
            InvoiceState::Cancelled => 2,
            InvoiceState::Accepted => 3,
        }
    }

    /// The state for a wire code; `None` for an unknown code.
    pub fn from_code(code: i32) -> (r: Option<InvoiceState>)
        ensures
            r matches Some(s) ==> s.spec_code() == code,
            r is None <==> !(0 <= code <= 3),
    {
        if code == 0 {
            Some(InvoiceState::Open)
        } else if code == 1 {
            Some(InvoiceState::Settled)
        } else if code == 2 {
            Some(InvoiceState::Cancelled)
        } else if code == 3 {
            Some(InvoiceState::Accepted)
        } else {
            None
        }
    }
}

/// The parts of a node invoice the proxy reads or writes.
#[derive(Debug)]
pub struct Invoice {
    pub memo: String,
    pub r_hash: Vec<u8>,
    pub r_preimage: Vec<u8>,
    pub payment_request: String,
    pub value_msat: i64,
    pub expiry: i64,
    pub state: InvoiceState,
}

/// Two invoices with the same content.
pub open spec fn invoice_eq(a: Invoice, b: Invoice) -> bool {
    &&& a.memo@ == b.memo@
    &&& a.r_hash@ == b.r_hash@
    &&& a.r_preimage@ == b.r_preimage@
    &&& a.payment_request@ == b.payment_request@
    &&& a.value_msat == b.value_msat
    &&& a.expiry == b.expiry
    &&& a.state == b.state
}

fn clone_invoice(inv: &Invoice) -> (r: Invoice)
    ensures
        invoice_eq(r, *inv),
{
    let memo = String::from_str(inv.memo.as_str());
    let payment_request = String::from_str(inv.payment_request.as_str());
    let r_hash = sub_bytes(&inv.r_hash, 0, inv.r_hash.len());
    let r_preimage = sub_bytes(&inv.r_preimage, 0, inv.r_preimage.len());
    proof {
        assert(r_hash@ =~= inv.r_hash@);
        assert(r_preimage@ =~= inv.r_preimage@);
    }
    Invoice {
        memo,
        r_hash,
        r_preimage,
        payment_request,
        value_msat: inv.value_msat,
        expiry: inv.expiry,
        state: inv.state,
    }
}

/// Generate a basic structure for the invoice, with given value/price:
/// the fixed memo, the charge in milli-satoshis, and a ten-minute expiry.
pub fn generate_invoice(price: MiliSats) -> (r: Invoice)
    ensures
        r.memo@ == "LSAT payment"@,
        r.value_msat == price.0 as i64,
        r.expiry == 600,
        r.state == InvoiceState::Open,
        r.r_hash@.len() == 0,
        r.r_preimage@.len() == 0,
        r.payment_request@.len() == 0,
{
    Invoice {
        memo: String::from_str("LSAT payment"),
        r_hash: Vec::new(),
        r_preimage: Vec::new(),
        payment_request: String::new(),
        value_msat: price.0 as i64,
        expiry: 600,
        state: InvoiceState::Open,
    }
}

/// Relies on `lightning_invoice::Bolt11Invoice::from_str` and
/// `payment_hash`: for a parseable BOLT-11 payment request, the 32-byte
/// payment hash it carries, a function of the text alone.
pub uninterp spec fn bolt11_payment_hash(s: Seq<char>) -> Seq<u8>;

/// Whether a text parses as a BOLT-11 payment request; parsing is a function
/// of the text alone.
pub uninterp spec fn bolt11_parses(s: Seq<char>) -> bool;

/// Parse a BOLT-11 payment request and extract its payment hash.
#[verifier::external_body]
pub fn parse_invoice_payment_hash(s: &str) -> (r: Option<Vec<u8>>)
    ensures
        r is Some <==> bolt11_parses(s@),
        r matches Some(v) ==> v@ == bolt11_payment_hash(s@) && v@.len() == 32,
{
    match s.parse::<lightning_invoice::Bolt11Invoice>() {
        Ok(inv) => {
            let bytes: &[u8] = inv.payment_hash().as_ref();
            Some(bytes.to_vec())
        },
        Err(_) => None,
    }
}

// ---------------------------------------------------------------------------
// The invoice cache
// ---------------------------------------------------------------------------
/// The per-entry time-to-live: ten minutes.
pub fn cache_ttl() -> (r: u64)
    ensures
        r == 600,
{
    600
}

/// A bounded cache of invoice state keyed by payment hash, with per-entry
/// absolute expiry. It is an accelerator only: stream updates overwrite
/// entries unconditionally, and a miss falls back to a node lookup.
pub struct InvoiceCache {
    entries: Vec<(Vec<u8>, Invoice, u64)>,
    capacity: usize,
}

/// First entry under the key, if any.
pub open spec fn cache_lookup(s: Seq<(Vec<u8>, Invoice, u64)>, key: Seq<u8>) -> Option<
    (Invoice, u64),
>
    decreases s.len(),
{
    if s.len() == 0 {
        None
    } else if s[0].0@ == key {
        Some((s[0].1, s[0].2))
    } else {
        cache_lookup(s.drop_first(), key)
    }
}

/// The entries that survive dropping every entry under one key.
pub open spec fn filter_key(s: Seq<(Vec<u8>, Invoice, u64)>, key: Seq<u8>) -> Seq<
    (Vec<u8>, Invoice, u64),
>
    decreases s.len(),
{
    if s.len() == 0 {
        Seq::empty()
    } else if s[0].0@ == key {
        filter_key(s.drop_first(), key)
    } else {
        seq![s[0]] + filter_key(s.drop_first(), key)
    }
}

/// Dropping one key removes it and changes no other key's lookup.
proof fn lemma_filter_key_lookup(s: Seq<(Vec<u8>, Invoice, u64)>, key: Seq<u8>, k: Seq<u8>)
    ensures
        cache_lookup(filter_key(s, key), key) is None,
        k != key ==> cache_lookup(filter_key(s, key), k) == cache_lookup(s, k),
        filter_key(s, key).len() <= s.len(),
    decreases s.len(),
{
    if s.len() > 0 {
        lemma_filter_key_lookup(s.drop_first(), key, k);
        if s[0].0@ != key {
            let f = filter_key(s, key);
            assert(f[0] == s[0]);
            assert(f.drop_first() =~= filter_key(s.drop_first(), key));
        }
    }
}

impl InvoiceCache {
    /// What the cache holds.
    pub closed spec fn view_entries(&self) -> Seq<(Vec<u8>, Invoice, u64)> {
        self.entries@
    }

    pub open spec fn spec_get(&self, key: Seq<u8>) -> Option<(Invoice, u64)> {
        cache_lookup(self.view_entries(), key)
    }

    /// Bounded and non-degenerate.
    pub open spec fn wf(&self) -> bool {
        self.view_entries().len() <= self.spec_capacity() && self.spec_capacity() >= 1
    }

    pub closed spec fn spec_capacity(&self) -> usize {
        self.capacity
    }

    /// An empty cache with the given capacity.
    pub fn new(capacity: usize) -> (r: InvoiceCache)
        requires
            capacity >= 1,
        ensures
            r.wf(),
            r.spec_capacity() == capacity,
            forall|k: Seq<u8>| r.spec_get(k) is None,
    {
        let c = InvoiceCache { entries: Vec::new(), capacity };
        proof {
            assert(c.view_entries().len() == 0);
        }
        c
    }

    /// Non-blocking read: the cached invoice, if present and not expired at
    /// `now`.
    pub fn get(&self, key: &Vec<u8>, now: u64) -> (r: Option<Invoice>)
        ensures
            r matches Some(v) ==> (self.spec_get(key@) matches Some(e) && invoice_eq(v, e.0) && now
                < e.1),
            r is None ==> (self.spec_get(key@) is None || !(now < self.spec_get(
                key@,
            ).unwrap().1)),
    {
        let n = self.entries.len();
        let mut i: usize = 0;
        proof {
            assert(self.view_entries().skip(0) =~= self.view_entries());
        }
        while i < n
            invariant
                0 <= i <= n,
                n == self.view_entries().len(),
                cache_lookup(self.view_entries(), key@) == cache_lookup(
                    self.view_entries().skip(i as int),
                    key@,
                ),
            decreases n - i,
        {
            let e = &self.entries[i];
            proof {
                assert(self.view_entries().skip(i as int)[0] == self.view_entries()[i as int]);
            }
            if crate::bytes::bytes_eq(&e.0, key) {
                if now < e.2 {
                    return Some(clone_invoice(&e.1));
                } else {
                    return None;
                }
            }
            proof {
                assert(self.view_entries().skip(i as int).drop_first() =~= self.view_entries().skip(
                    i as int + 1,
                ));
            }
            i = i + 1;
        }
        proof {
            assert(self.view_entries().skip(i as int).len() == 0);
        }
        None
    }

    /// Insert or replace: afterwards the key maps to the invoice with expiry
    /// `now + ttl` (saturating). Every other key keeps its entry, except that
    /// a full cache evicts its oldest surviving entry.
    pub fn put(&mut self, key: &Vec<u8>, inv: Invoice, now: u64, ttl: u64)
        requires
            old(self).wf(),
        ensures
            final(self).wf(),
            final(self).spec_capacity() == old(self).spec_capacity(),
            final(self).spec_get(key@) matches Some(e) && invoice_eq(e.0, inv) && e.1 == (if now
                + ttl <= u64::MAX {
                (now + ttl) as u64
            } else {
                u64::MAX
            }),
            old(self).view_entries().len() < old(self).spec_capacity() ==> forall|k: Seq<u8>|
                k != key@ ==> #[trigger] final(self).spec_get(k) == old(self).spec_get(k),
            forall|k: Seq<u8>|
                k != key@ && {
                    let survivors = filter_key(old(self).view_entries(), key@);
                    survivors.len() == 0 || k != survivors[0].0@
                } ==> #[trigger] final(self).spec_get(k) == old(self).spec_get(k),
    {
        let expires = match now.checked_add(ttl) {
            Some(v) => v,
            None => u64::MAX,
        };
        let ghost orig = self.entries@;
        // drain the entries, keeping those under other keys
        let mut kept: Vec<(Vec<u8>, Invoice, u64)> = Vec::new();
        proof {
            assert(old(self).view_entries() == orig);
            assert(kept@ + filter_key(self.entries@, key@) =~= filter_key(orig, key@));
        }
        while self.entries.len() > 0
            invariant
                self.spec_capacity() == old(self).spec_capacity(),
                kept@ + filter_key(self.entries@, key@) == filter_key(orig, key@),
                kept@.len() + self.entries@.len() <= orig.len(),
            decreases self.entries@.len(),
        {
            let ghost pre_entries = self.entries@;
            let ghost pre_kept = kept@;
            let e = self.entries.remove(0);
            if !crate::bytes::bytes_eq(&e.0, key) {
                kept.push(e);
                proof {
                    assert(filter_key(pre_entries, key@) =~= seq![pre_entries[0]] + filter_key(
                        pre_entries.drop_first(),
                        key@,
                    ));
                    assert(kept@ + filter_key(self.entries@, key@) =~= pre_kept + filter_key(
                        pre_entries,
                        key@,
                    ));
                }
            } else {
                proof {
                    assert(filter_key(pre_entries, key@) =~= filter_key(
                        pre_entries.drop_first(),
                        key@,
                    ));
                }
            }
        }
        proof {
            assert(self.entries@.len() == 0);
            assert(filter_key(self.entries@, key@).len() == 0);
            assert(kept@ =~= filter_key(orig, key@));
            lemma_filter_key_lookup(orig, key@, key@);
            assert(kept@.len() <= orig.len());
        }
        let ghost survivors = filter_key(orig, key@);
        // a full cache evicts its oldest surviving entry
        let evicted = if kept.len() >= self.capacity {
            let ghost pre = kept@;
            let _evicted = kept.remove(0);
            proof {
                assert(kept@ =~= pre.drop_first());
                lemma_cache_lookup_drop_first(pre, key@);
            }
            true
        } else {
            false
        };
        let ghost pre_push = kept@;
        let kc = crate::bytes::sub_bytes(key, 0, key.len());
        proof {
            assert(kc@ =~= key@);
        }
        kept.push((kc, inv, expires));
        proof {
            assert(kept@.last().0@ == kc@);
            lemma_cache_lookup_push_hit(pre_push, kept@, key@);
            assert forall|k: Seq<u8>|
                k != key@ && (!evicted || (survivors.len() > 0 && k != survivors[0].0@)) implies
                #[trigger] cache_lookup(kept@, k) == cache_lookup(orig, k) by {
                lemma_cache_lookup_push_ne(pre_push, kept@, k);
                if evicted {
                    assert(pre_push =~= survivors.drop_first());
                    assert(survivors[0].0@ != k);
                    assert(cache_lookup(survivors, k) == cache_lookup(survivors.drop_first(), k));
                } else {
                    assert(pre_push =~= survivors);
                }
                lemma_filter_key_lookup(orig, key@, k);
            }
            if evicted {
                assert(survivors.len() >= old(self).spec_capacity());
                assert(kept@.len() <= old(self).spec_capacity());
            } else {
                assert(kept@.len() <= old(self).spec_capacity());
            }
        }
        self.entries = kept;
    }
}

/// Appending an entry under another key changes no lookup of this key.
proof fn lemma_cache_lookup_push_ne(pre: Seq<(Vec<u8>, Invoice, u64)>, post: Seq<
    (Vec<u8>, Invoice, u64),
>, k: Seq<u8>)
    requires
        pre.len() + 1 == post.len(),
        forall|i: int| 0 <= i < pre.len() ==> post[i] == pre[i],
        post.last().0@ != k,
    ensures
        cache_lookup(post, k) == cache_lookup(pre, k),
    decreases pre.len(),
{
    if pre.len() == 0 {
        assert(post[0].0@ != k);
        assert(post.drop_first().len() == 0);
    } else {
        assert(post[0] == pre[0]);
        if post[0].0@ != k {
            lemma_cache_lookup_push_ne(pre.drop_first(), post.drop_first(), k);
        }
    }
}

/// Pushing an entry under another key does not create a hit for this key.
proof fn lemma_cache_lookup_push_other(pre: Seq<(Vec<u8>, Invoice, u64)>, post: Seq<
    (Vec<u8>, Invoice, u64),
>, key: Seq<u8>)
    requires
        pre.len() + 1 == post.len(),
        forall|i: int| 0 <= i < pre.len() ==> post[i] == pre[i],
        post.last().0@ != key,
        cache_lookup(pre, key) is None,
    ensures
        cache_lookup(post, key) is None,
    decreases pre.len(),
{
    if pre.len() == 0 {
        assert(post[0].0@ != key);
        assert(post.drop_first().len() == 0);
    } else {
        assert(post[0] == pre[0]);
        if post[0].0@ != key {
            lemma_cache_lookup_push_other(pre.drop_first(), post.drop_first(), key);
        }
    }
}

/// Dropping the first entry cannot turn a miss into a hit.
proof fn lemma_cache_lookup_drop_first(pre: Seq<(Vec<u8>, Invoice, u64)>, key: Seq<u8>)
    requires
        pre.len() > 0,
        cache_lookup(pre, key) is None,
    ensures
        cache_lookup(pre.drop_first(), key) is None,
{
}

/// Pushing an entry under this key onto a missing cache makes it the hit.
proof fn lemma_cache_lookup_push_hit(pre: Seq<(Vec<u8>, Invoice, u64)>, post: Seq<
    (Vec<u8>, Invoice, u64),
>, key: Seq<u8>)
    requires
        pre.len() + 1 == post.len(),
        forall|i: int| 0 <= i < pre.len() ==> post[i] == pre[i],
        post.last().0@ == key,
        cache_lookup(pre, key) is None,
    ensures
        cache_lookup(post, key) == Some((post.last().1, post.last().2)),
    decreases pre.len(),
{
    if pre.len() == 0 {
        assert(post[0] == post.last());
    } else {
        assert(post[0] == pre[0]);
        assert(pre[0].0@ != key);
        lemma_cache_lookup_push_hit(pre.drop_first(), post.drop_first(), key);
    }
}

} // verus!
