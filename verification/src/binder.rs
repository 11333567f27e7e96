//! The request binder: the canonical digest of a request body.
//!
//! The body is a mapping of string keys to string values; its canonical form
//! is the concatenation of all keys and values, with no separator, in
//! ascending key order, and the digest is SHA-256 of those UTF-8 bytes. The
//! digest therefore depends only on which pairs are present, not on the
//! order they arrive in.
use vstd::prelude::*;
use vstd::relations::{sorted_by, total_ordering};
use vstd::seq_lib::lemma_sorted_unique;
use vstd::string::*;

use crate::hashes::{sha256, sha256_of};

verus! {

broadcast use {vstd::seq_lib::group_to_multiset_ensures, vstd::multiset::group_multiset_axioms};

/// Lexicographic order on byte strings.
pub open spec fn lex_leq(a: Seq<u8>, b: Seq<u8>) -> bool
    decreases a.len(),
{
    if a.len() == 0 {
        true
    } else if b.len() == 0 {
        false
    } else if a[0] < b[0] {
        true
    } else if a[0] > b[0] {
        false
    } else {
        lex_leq(a.drop_first(), b.drop_first())
    }
}

/// Order on pairs: by key, then by value.
pub open spec fn pair_leq(a: (Seq<u8>, Seq<u8>), b: (Seq<u8>, Seq<u8>)) -> bool {
    if a.0 != b.0 {
        lex_leq(a.0, b.0)
    } else {
        lex_leq(a.1, b.1)
    }
}

/// The pair order as a relation value.
pub open spec fn pair_order() -> spec_fn((Seq<u8>, Seq<u8>), (Seq<u8>, Seq<u8>)) -> bool {
    |a: (Seq<u8>, Seq<u8>), b: (Seq<u8>, Seq<u8>)| pair_leq(a, b)
}

proof fn lemma_lex_refl(a: Seq<u8>)
    ensures
        lex_leq(a, a),
    decreases a.len(),
{
    if a.len() > 0 {
        lemma_lex_refl(a.drop_first());
    }
}

proof fn lemma_lex_antisym(a: Seq<u8>, b: Seq<u8>)
    requires
        lex_leq(a, b),
        lex_leq(b, a),
    ensures
        a == b,
    decreases a.len(),
{
    if a.len() == 0 {
        assert(b.len() == 0);
        assert(a =~= b);
    } else {
        assert(b.len() > 0);
        assert(a[0] == b[0]);
        lemma_lex_antisym(a.drop_first(), b.drop_first());
        assert(a.drop_first() == b.drop_first());
        assert forall|i: int| 0 <= i < a.len() implies a[i] == b[i] by {
            if i > 0 {
                assert(a[i] == a.drop_first()[i - 1]);
                assert(b[i] == b.drop_first()[i - 1]);
            }
        }
        assert(a =~= b);
    }
}

proof fn lemma_lex_trans(a: Seq<u8>, b: Seq<u8>, c: Seq<u8>)
    requires
        lex_leq(a, b),
        lex_leq(b, c),
    ensures
        lex_leq(a, c),
    decreases a.len(),
{
    if a.len() > 0 && b.len() > 0 && c.len() > 0 {
        if a[0] == b[0] && b[0] == c[0] {
            lemma_lex_trans(a.drop_first(), b.drop_first(), c.drop_first());
        }
    }
}

proof fn lemma_lex_connected(a: Seq<u8>, b: Seq<u8>)
    ensures
        lex_leq(a, b) || lex_leq(b, a),
    decreases a.len(),
{
    if a.len() > 0 && b.len() > 0 && a[0] == b[0] {
        lemma_lex_connected(a.drop_first(), b.drop_first());
    }
}

pub proof fn lemma_pair_leq_total(a: (Seq<u8>, Seq<u8>), b: (Seq<u8>, Seq<u8>))
    ensures
        pair_leq(a, b) || pair_leq(b, a),
        pair_leq(a, b) && pair_leq(b, a) ==> a == b,
        pair_leq(a, a),
{
    lemma_lex_connected(a.0, b.0);
    lemma_lex_connected(a.1, b.1);
    lemma_lex_refl(a.0);
    lemma_lex_refl(a.1);
    if pair_leq(a, b) && pair_leq(b, a) {
        if a.0 != b.0 {
            lemma_lex_antisym(a.0, b.0);
        } else {
            lemma_lex_antisym(a.1, b.1);
        }
    }
}

pub proof fn lemma_pair_leq_trans(a: (Seq<u8>, Seq<u8>), b: (Seq<u8>, Seq<u8>), c: (Seq<u8>, Seq<u8>))
    requires
        pair_leq(a, b),
        pair_leq(b, c),
    ensures
        pair_leq(a, c),
{
    if a.0 == b.0 && b.0 == c.0 {
        lemma_lex_trans(a.1, b.1, c.1);
    } else if a.0 != b.0 && b.0 != c.0 {
        lemma_lex_trans(a.0, b.0, c.0);
        if a.0 == c.0 {
            lemma_lex_antisym(a.0, b.0);
        }
    }
}

/// The pair order is a total ordering.
pub proof fn lemma_pair_order_total()
    ensures
        total_ordering(pair_order()),
{
    let leq = pair_order();
    assert forall|a: (Seq<u8>, Seq<u8>)| #[trigger] leq(a, a) by {
        lemma_pair_leq_total(a, a);
    }
    assert forall|a: (Seq<u8>, Seq<u8>), b: (Seq<u8>, Seq<u8>)|
        #[trigger] leq(a, b) && #[trigger] leq(b, a) implies a == b by {
        lemma_pair_leq_total(a, b);
    }
    assert forall|a: (Seq<u8>, Seq<u8>), b: (Seq<u8>, Seq<u8>), c: (Seq<u8>, Seq<u8>)|
        #[trigger] leq(a, b) && #[trigger] leq(b, c) implies leq(a, c) by {
        lemma_pair_leq_trans(a, b, c);
    }
    assert forall|a: (Seq<u8>, Seq<u8>), b: (Seq<u8>, Seq<u8>)|
        #[trigger] leq(a, b) || #[trigger] leq(b, a) by {
        lemma_pair_leq_total(a, b);
    }
}

// ---------------------------------------------------------------------------
// The canonical form
// ---------------------------------------------------------------------------
/// Keys and values concatenated with no separator.
pub open spec fn concat_pairs(ps: Seq<(Seq<u8>, Seq<u8>)>) -> Seq<u8>
    decreases ps.len(),
{
    if ps.len() == 0 {
        Seq::empty()
    } else {
        ps[0].0 + ps[0].1 + concat_pairs(ps.drop_first())
    }
}

/// The canonical bytes of a body: its pairs in ascending order, concatenated.
pub open spec fn canonical_bytes(ps: Seq<(Seq<u8>, Seq<u8>)>) -> Seq<u8> {
    concat_pairs(ps.sort_by(pair_order()))
}

/// The canonical digest of a body.
pub open spec fn body_digest_spec(ps: Seq<(Seq<u8>, Seq<u8>)>) -> Seq<u8> {
    sha256_of(canonical_bytes(ps))
}

/// The UTF-8 byte pairs of a list of string pairs.
pub open spec fn byte_pairs(ps: Seq<(String, String)>) -> Seq<(Seq<u8>, Seq<u8>)> {
    ps.map_values(
        |p: (String, String)| (vstd::utf8::encode_utf8(p.0@), vstd::utf8::encode_utf8(p.1@)),
    )
}

/// The canonical body digest is invariant under permutation of the body map:
/// two bodies with the same multiset of pairs have the same digest.
pub proof fn lemma_digest_permutation(p1: Seq<(Seq<u8>, Seq<u8>)>, p2: Seq<(Seq<u8>, Seq<u8>)>)
    requires
        p1.to_multiset() == p2.to_multiset(),
    ensures
        body_digest_spec(p1) == body_digest_spec(p2),
{
    lemma_pair_order_total();
    p1.lemma_sort_by_ensures(pair_order());
    p2.lemma_sort_by_ensures(pair_order());
    lemma_sorted_unique(p1.sort_by(pair_order()), p2.sort_by(pair_order()), pair_order());
}

// ---------------------------------------------------------------------------
// Executable digesting
// ---------------------------------------------------------------------------
/// The byte-pair views of a vector of byte-vector pairs.
pub open spec fn bview(s: Seq<(Vec<u8>, Vec<u8>)>) -> Seq<(Seq<u8>, Seq<u8>)> {
    s.map_values(|p: (Vec<u8>, Vec<u8>)| (p.0@, p.1@))
}

/// Lexicographic comparison of two byte vectors.
fn lex_le(a: &Vec<u8>, b: &Vec<u8>) -> (r: bool)
    ensures
        r == lex_leq(a@, b@),
{
    let mut i: usize = 0;
    proof {
        assert(a@.skip(0) =~= a@);
        assert(b@.skip(0) =~= b@);
    }
    loop
        invariant
            0 <= i <= a@.len(),
            i <= b@.len(),
            lex_leq(a@, b@) == lex_leq(a@.skip(i as int), b@.skip(i as int)),
        decreases a@.len() - i,
    {
        if i == a.len() {
            assert(a@.skip(i as int).len() == 0);
            return true;
        }
        if i == b.len() {
            assert(b@.skip(i as int).len() == 0 && a@.skip(i as int).len() > 0);
            return false;
        }
        let x = a[i];
        let y = b[i];
        assert(a@.skip(i as int)[0] == a@[i as int] && b@.skip(i as int)[0] == b@[i as int]);
        if x < y {
            return true;
        }
        if x > y {
            return false;
        }
        proof {
            assert(a@.skip(i as int).drop_first() =~= a@.skip(i as int + 1));
            assert(b@.skip(i as int).drop_first() =~= b@.skip(i as int + 1));
        }
        i = i + 1;
    }
}

/// Comparison of two pairs: by key, then value.
fn pair_le(a: &(Vec<u8>, Vec<u8>), b: &(Vec<u8>, Vec<u8>)) -> (r: bool)
    ensures
        r == pair_leq((a.0@, a.1@), (b.0@, b.1@)),
{
    if crate::bytes::bytes_eq(&a.0, &b.0) {
        lex_le(&a.1, &b.1)
    } else {
        lex_le(&a.0, &b.0)
    }
}

/// Sort byte pairs ascending (selection sort): the result is the
/// specification-level sort of the input.
fn sort_pairs(pairs: Vec<(Vec<u8>, Vec<u8>)>) -> (r: Vec<(Vec<u8>, Vec<u8>)>)
    ensures
        bview(r@) == bview(pairs@).sort_by(pair_order()),
{
    let ghost orig = bview(pairs@);
    let mut work = pairs;
    let mut out: Vec<(Vec<u8>, Vec<u8>)> = Vec::new();
    proof {
        assert(bview(out@) =~= Seq::<(Seq<u8>, Seq<u8>)>::empty());
        assert(bview(out@).to_multiset().add(bview(work@).to_multiset()) =~= orig.to_multiset());
    }
    while work.len() > 0
        invariant
            sorted_by(bview(out@), pair_order()),
            bview(out@).to_multiset().add(bview(work@).to_multiset()) == orig.to_multiset(),
            forall|i: int, j: int|
                0 <= i < bview(out@).len() && 0 <= j < bview(work@).len() ==> pair_leq(
                    #[trigger] bview(out@)[i],
                    #[trigger] bview(work@)[j],
                ),
        decreases work@.len(),
    {
        // find the least remaining pair
        let mut m: usize = 0;
        let mut k: usize = 1;
        proof {
            lemma_pair_leq_total(bview(work@)[0], bview(work@)[0]);
        }
        while k < work.len()
            invariant
                0 <= m < work@.len(),
                1 <= k <= work@.len(),
                work@.len() > 0,
                forall|j: int| 0 <= j < k ==> pair_leq(bview(work@)[m as int], #[trigger] bview(
                    work@,
                )[j]),
            decreases work@.len() - k,
        {
            if pair_le(&work[k], &work[m]) {
                proof {
                    assert(pair_leq(bview(work@)[k as int], bview(work@)[m as int]));
                    assert forall|j: int| 0 <= j < k + 1 implies pair_leq(
                        bview(work@)[k as int],
                        #[trigger] bview(work@)[j],
                    ) by {
                        if j < k {
                            lemma_pair_leq_trans(
                                bview(work@)[k as int],
                                bview(work@)[m as int],
                                bview(work@)[j],
                            );
                        } else {
                            lemma_pair_leq_total(bview(work@)[k as int], bview(work@)[k as int]);
                        }
                    }
                }
                m = k;
            } else {
                proof {
                    lemma_pair_leq_total(bview(work@)[m as int], bview(work@)[k as int]);
                }
            }
            k = k + 1;
        }
        let ghost pre_work = bview(work@);
        let ghost pre_out = bview(out@);
        let least = work.remove(m);
        let ghost pv = (least.0@, least.1@);
        out.push(least);
        proof {
            assert(pv == pre_work[m as int]);
            assert(bview(work@) =~= pre_work.remove(m as int));
            assert(bview(out@) =~= pre_out.push(pv));
            // multiset bookkeeping
            assert(pre_work.remove(m as int).to_multiset() =~= pre_work.to_multiset().remove(pv));
            assert(pre_out.push(pv).to_multiset() =~= pre_out.to_multiset().insert(pv));
            assert(pre_work.to_multiset().count(pv) >= 1) by {
                assert(pre_work[m as int] == pv);
                assert(pre_work.contains(pv));
            }
            assert(bview(out@).to_multiset().add(bview(work@).to_multiset()) =~= orig.to_multiset());
            // out stays sorted and below everything left in work
            assert forall|i: int, j: int|
                0 <= i < bview(out@).len() && 0 <= j < bview(work@).len() implies pair_leq(
                #[trigger] bview(out@)[i],
                #[trigger] bview(work@)[j],
            ) by {
                let jj: int = if j < m as int {
                    j
                } else {
                    j + 1
                };
                assert(bview(work@)[j] == pre_work.remove(m as int)[j]);
                assert(pre_work.remove(m as int)[j] == pre_work[jj]);
                let wj = pre_work[jj];
                assert(pair_leq(pv, wj));
                if i < pre_out.len() {
                    assert(bview(out@)[i] == pre_out[i]);
                    assert(pair_leq(pre_out[i], pre_work[jj]));
                    lemma_pair_leq_trans(pre_out[i], pv, wj);
                } else {
                    assert(bview(out@)[i] == pv);
                }
            }
            assert forall|i: int, j: int|
                0 <= i < j < bview(out@).len() implies #[trigger] pair_order()(
                bview(out@)[i],
                bview(out@)[j],
            ) by {
                if j < pre_out.len() {
                    assert(bview(out@)[i] == pre_out[i] && bview(out@)[j] == pre_out[j]);
                    assert(pair_order()(pre_out[i], pre_out[j]));
                } else {
                    assert(bview(out@)[j] == pv);
                    assert(bview(out@)[i] == pre_out[i]);
                    assert(pair_leq(pre_out[i], pre_work[m as int]));
                }
            }
        }
    }
    proof {
        lemma_pair_order_total();
        orig.lemma_sort_by_ensures(pair_order());
        assert(bview(work@) =~= Seq::<(Seq<u8>, Seq<u8>)>::empty());
        assert(bview(out@).to_multiset() =~= orig.to_multiset());
        lemma_sorted_unique(bview(out@), orig.sort_by(pair_order()), pair_order());
    }
    out
}

/// The canonical digest of a request body, presented as key/value pairs.
/// Equal multisets of pairs give equal digests, in whatever order they come.
pub fn body_to_sha256(pairs: &Vec<(String, String)>) -> (r: Vec<u8>)
    ensures
        r@ == body_digest_spec(byte_pairs(pairs@)),
        r@.len() == 32,
{
    let mut raw: Vec<(Vec<u8>, Vec<u8>)> = Vec::new();
    let mut i: usize = 0;
    while i < pairs.len()
        invariant
            0 <= i <= pairs@.len(),
            bview(raw@) == byte_pairs(pairs@).take(i as int),
        decreases pairs@.len() - i,
    {
        let p = &pairs[i];
        let kb = p.0.as_str().as_bytes_vec();
        let vb = p.1.as_str().as_bytes_vec();
        proof {
            assert(kb@ == vstd::utf8::encode_utf8(pairs@[i as int].0@));
            assert(vb@ == vstd::utf8::encode_utf8(pairs@[i as int].1@));
            assert(byte_pairs(pairs@)[i as int] == (
                vstd::utf8::encode_utf8(pairs@[i as int].0@),
                vstd::utf8::encode_utf8(pairs@[i as int].1@),
            ));
        }
        let ghost pre_raw = raw@;
        raw.push((kb, vb));
        proof {
            assert(raw@ == pre_raw.push((kb, vb)));
            assert(byte_pairs(pairs@).len() == pairs@.len());
            assert(bview(pre_raw).len() == pre_raw.len());
            assert(pre_raw.len() == i);
            assert(bview(raw@).len() == i + 1);
            assert(bview(raw@)[i as int] == (kb@, vb@));
            assert forall|j: int| 0 <= j < i implies bview(raw@)[j] == #[trigger] byte_pairs(
                pairs@,
            ).take(i as int)[j] by {
                assert(bview(raw@)[j] == bview(pre_raw)[j]);
            }
            assert(bview(raw@) =~= byte_pairs(pairs@).take(i as int + 1));
        }
        i = i + 1;
    }
    proof {
        assert(byte_pairs(pairs@).take(i as int) =~= byte_pairs(pairs@));
    }
    let sorted = sort_pairs(raw);
    let mut canon: Vec<u8> = Vec::new();
    let ghost sview = bview(sorted@);
    let mut j: usize = 0;
    proof {
        assert(sview.take(0) =~= Seq::<(Seq<u8>, Seq<u8>)>::empty());
        assert(sview.skip(0) =~= sview);
        assert(canon@ =~= Seq::<u8>::empty());
        assert(canon@ + concat_pairs(sview.skip(0)) =~= concat_pairs(sview));
    }
    while j < sorted.len()
        invariant
            0 <= j <= sorted@.len(),
            sview == bview(sorted@),
            canon@ == concat_pairs(sview.take(j as int)),
            canon@ + concat_pairs(sview.skip(j as int)) == concat_pairs(sview),
        decreases sorted@.len() - j,
    {
        let p = &sorted[j];
        crate::bytes::append_bytes(&mut canon, &p.0);
        crate::bytes::append_bytes(&mut canon, &p.1);
        proof {
            lemma_concat_pairs_step(sview, j as int);
            assert(canon@ == concat_pairs(sview.take(j as int)) + sview[j as int].0
                + sview[j as int].1);
            assert(canon@ == concat_pairs(sview.take(j as int + 1)));
            assert(canon@ + concat_pairs(sview.skip(j as int + 1)) == concat_pairs(sview));
        }
        j = j + 1;
    }
    proof {
        assert(sview.take(j as int) =~= sview);
        assert(canon@ == concat_pairs(sview));
    }
    sha256(&canon)
}

/// Splitting a concatenation at one pair.
proof fn lemma_concat_pairs_step(s: Seq<(Seq<u8>, Seq<u8>)>, j: int)
    requires
        0 <= j < s.len(),
    ensures
        concat_pairs(s.take(j + 1)) == concat_pairs(s.take(j)) + s[j].0 + s[j].1,
        concat_pairs(s.take(j)) + concat_pairs(s.skip(j)) == concat_pairs(s),
        concat_pairs(s.skip(j)) == s[j].0 + s[j].1 + concat_pairs(s.skip(j + 1)),
    decreases s.len(), j + 1,
{
    assert(s.skip(j).len() > 0);
    assert(s.skip(j)[0] == s[j]);
    assert(s.skip(j).drop_first() =~= s.skip(j + 1));
    assert(concat_pairs(s.skip(j)) == s[j].0 + s[j].1 + concat_pairs(s.skip(j + 1)));
    if j == 0 {
        assert(s.take(0) =~= Seq::<(Seq<u8>, Seq<u8>)>::empty());
        assert(s.take(1).drop_first() =~= Seq::<(Seq<u8>, Seq<u8>)>::empty());
        assert(s.take(1)[0] == s[0]);
        assert(concat_pairs(s.take(1)) =~= s[0].0 + s[0].1);
        assert(s.skip(0) =~= s);
        assert(concat_pairs(s.take(0)) + concat_pairs(s.skip(0)) =~= concat_pairs(s));
    } else {
        let t = s.drop_first();
        lemma_concat_pairs_step(t, j - 1);
        assert(s.take(j + 1).drop_first() =~= t.take(j));
        assert(s.take(j).drop_first() =~= t.take(j - 1));
        assert(s.take(j + 1)[0] == s[0] && s.take(j)[0] == s[0]);
        assert(concat_pairs(s.take(j + 1)) == s[0].0 + s[0].1 + concat_pairs(t.take(j)));
        assert(concat_pairs(s.take(j)) == s[0].0 + s[0].1 + concat_pairs(t.take(j - 1)));
        assert(t.skip(j - 1) =~= s.skip(j));
        assert(t[j - 1] == s[j]);
        assert(concat_pairs(s.take(j + 1)) =~= concat_pairs(s.take(j)) + s[j].0 + s[j].1);
        assert(concat_pairs(s.take(j)) + concat_pairs(s.skip(j)) =~= s[0].0 + s[0].1
            + (concat_pairs(t.take(j - 1)) + concat_pairs(t.skip(j - 1))));
        assert(concat_pairs(s) == s[0].0 + s[0].1 + concat_pairs(t));
        assert(concat_pairs(t.take(j - 1)) + concat_pairs(t.skip(j - 1)) =~= concat_pairs(t));
        assert(concat_pairs(s.take(j)) + concat_pairs(s.skip(j)) =~= concat_pairs(s));
    }
}

} // verus!
