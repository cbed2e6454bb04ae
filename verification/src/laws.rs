//! General properties of the resolver and the labeler, stated over the
//! mathematical model and proved once and for all.

use vstd::prelude::*;

use crate::model::{
    all_ones, delta_set, label_char, lemma_label_code_from_full, remaining_count, rep, reps_seen,
    resolve_from, resolved_secret,
};

verus! {

broadcast use vstd::seq_lib::group_seq_properties;

/// With no queries at all, the resolved secret is the all-ones value of the
/// requested width.
pub proof fn lemma_empty_queries(l: u64)
    requires
        1 <= l <= 64,
    ensures
        resolved_secret(l, Seq::empty()) == all_ones(l),
{
    vstd::arithmetic::power2::lemma_pow2_strictly_increases(0, l as nat);
    vstd::arithmetic::power2::lemma2_to64();
}

/// Resolving the same width and query sequence twice yields the same secret
/// and the same labels: the outcome is a function of the inputs alone.
pub proof fn lemma_determinism(l1: u64, qs1: Seq<u64>, l2: u64, qs2: Seq<u64>)
    requires
        l1 == l2,
        qs1 == qs2,
    ensures
        resolved_secret(l1, qs1) == resolved_secret(l2, qs2),
        forall|i: int|
            0 <= i < qs1.len() ==> label_char(qs1, resolved_secret(l1, qs1), i) == label_char(
                qs2,
                resolved_secret(l2, qs2),
                i,
            ),
{
}

/// XOR facts about a query and its partner under a secret.
proof fn lemma_xor_partner(q: u64, s: u64)
    by (bit_vector)
    ensures
        (q ^ s) ^ s == q,
{
}

/// Two queries of the same equivalence class receive the same label.
pub proof fn lemma_same_class_same_label(qs: Seq<u64>, s: u64, i: int, j: int)
    requires
        0 <= i < qs.len(),
        0 <= j < qs.len(),
        rep(qs[i], s) == rep(qs[j], s),
    ensures
        label_char(qs, s, i) == label_char(qs, s, j),
{
    lemma_label_code_from_full(qs, s, i);
    lemma_label_code_from_full(qs, s, j);
}

/// Self-consistency: a query and its XOR partner under the resolved secret
/// always receive the same label when both appear in the sequence.
pub proof fn lemma_partner_same_label(qs: Seq<u64>, s: u64, i: int, j: int)
    requires
        0 <= i < qs.len(),
        0 <= j < qs.len(),
        qs[j] == qs[i] ^ s,
    ensures
        label_char(qs, s, i) == label_char(qs, s, j),
{
    lemma_xor_partner(qs[i], s);
    assert(rep(qs[j], s) == rep(qs[i], s));
    lemma_same_class_same_label(qs, s, i, j);
}

/// One step of duplicate invariance: inserting a value that the state or the
/// first `i` remaining queries already hold does not change the outcome of
/// the pass.
proof fn lemma_dup_skip(l: u64, rest: Seq<u64>, i: int, q: u64, uniq: Seq<u64>, forb: Set<u64>)
    requires
        0 <= i <= rest.len(),
        uniq.contains(q) || rest.take(i).contains(q),
    ensures
        resolve_from(l, rest.insert(i, q), uniq, forb) == resolve_from(l, rest, uniq, forb),
    decreases rest.len(),
{
    let ins = rest.insert(i, q);
    if i == 0 {
        assert(rest.take(0) =~= Seq::<u64>::empty());
        assert(uniq.contains(q));
        assert(ins[0] == q);
        assert(ins.drop_first() =~= rest);
    } else {
        let r0 = rest[0];
        assert(ins[0] == r0);
        assert(ins.drop_first() =~= rest.drop_first().insert(i - 1, q));
        // carry the membership hypothesis one position down
        if !uniq.contains(q) {
            let k = choose|k: int| 0 <= k < rest.take(i).len() && rest.take(i)[k] == q;
            if k > 0 {
                assert(rest.drop_first().take(i - 1)[k - 1] == q);
                assert(rest.drop_first().take(i - 1).contains(q));
            }
        }
        if uniq.contains(r0) {
            lemma_dup_skip(l, rest.drop_first(), i - 1, q, uniq, forb);
        } else {
            let valid = delta_set(r0, uniq).difference(forb);
            if remaining_count(l, forb) > 0 && remaining_count(l, forb) == valid.len() {
                // both passes stop here with the same forced secret
            } else {
                lemma_dup_skip(
                    l,
                    rest.drop_first(),
                    i - 1,
                    q,
                    uniq.push(r0),
                    forb.union(delta_set(r0, uniq)),
                );
            }
        }
    }
}

/// Duplicate invariance of the secret: inserting a duplicate of a query that
/// already occurs earlier in the sequence does not change the resolved
/// secret.
pub proof fn lemma_duplicate_secret(l: u64, qs: Seq<u64>, i: int, q: u64)
    requires
        0 <= i <= qs.len(),
        qs.take(i).contains(q),
    ensures
        resolved_secret(l, qs.insert(i, q)) == resolved_secret(l, qs),
{
    lemma_dup_skip(l, qs, i, q, Seq::empty(), Set::empty());
}

/// Duplicate invariance of the labels: in the extended sequence, the inserted
/// duplicate receives the very label of its earlier occurrence, and that
/// occurrence keeps the label it had before the insertion.
pub proof fn lemma_duplicate_label(qs: Seq<u64>, s: u64, i: int, j: int, q: u64)
    requires
        0 <= j < i <= qs.len(),
        qs[j] == q,
    ensures
        label_char(qs.insert(i, q), s, i) == label_char(qs.insert(i, q), s, j),
        label_char(qs.insert(i, q), s, j) == label_char(qs, s, j),
{
    let t = qs.insert(i, q);
    assert(t[i] == q);
    assert(t[j] == q);
    lemma_same_class_same_label(t, s, i, j);
    assert(t.take(j + 1) =~= qs.take(j + 1));
}

} // verus!
