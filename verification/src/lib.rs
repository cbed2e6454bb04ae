//! Recovery of the hidden XOR mask of a two-to-one oracle from a sequence of
//! query observations, together with the labelling of the queries by the
//! equivalence classes that the recovered mask induces.
//!
//! The oracle maps two distinct inputs to the same output exactly when their
//! XOR equals the mask.  Given the bit-width `l` and the observed queries,
//! [`solve`] deduces the unique mask the observations force, or the largest
//! candidate they leave open, and labels every query with its class.

use vstd::prelude::*;

pub mod codec;
pub mod labeler;
pub mod laws;
pub mod model;
pub mod resolver;

use crate::codec::{bin_to_int, lemma_bin_val_bound};
use crate::labeler::label_queries;
use crate::model::{
    all_ones, bin_val, is_bin_seq, label_char, parsed_queries, reps_seen, resolved_secret,
    MAX_CLASSES,
};
use crate::resolver::resolve_secret;

verus! {

/// Resolve the secret mask from the raw binary observation lines and label
/// every query, in input order.
///
/// Each line must be a binary string of exactly `l` digits.  The result is
/// `None` exactly when the queries fall into more equivalence classes than
/// the label alphabet can name; otherwise it carries the resolved secret and
/// one label character per query.
pub fn solve(l: u64, queries_str: &Vec<String>) -> (r: Option<(u64, Vec<char>)>)
    requires
        1 <= l <= 64,
        forall|i: int|
            0 <= i < queries_str@.len() ==> is_bin_seq(#[trigger] queries_str@[i]@)
                && queries_str@[i]@.len() == l,
    ensures
        ({
            let vals = parsed_queries(queries_str@);
            let s = resolved_secret(l, vals);
            &&& (r is Some) <==> reps_seen(vals, s).len() <= MAX_CLASSES
            &&& (r matches Some(p) ==> p.0 == s && p.0 <= all_ones(l) && p.1@.len() == vals.len()
                && (forall|i: int| 0 <= i < vals.len() ==> p.1@[i] == label_char(vals, s, i)))
        }),
{
    let ghost to_val = |t: String| bin_val(t@) as u64;
    let mut vals: Vec<u64> = Vec::new();
    let mut i: usize = 0;
    proof {
        assert(vals@ =~= queries_str@.take(0).map_values(to_val));
    }
    while i < queries_str.len()
        invariant
            1 <= l <= 64,
            0 <= i <= queries_str@.len(),
            forall|k: int|
                0 <= k < queries_str@.len() ==> is_bin_seq(#[trigger] queries_str@[k]@)
                    && queries_str@[k]@.len() == l,
            to_val == (|t: String| bin_val(t@) as u64),
            vals@ == queries_str@.take(i as int).map_values(to_val),
            forall|k: int| 0 <= k < vals@.len() ==> #[trigger] vals@[k] <= all_ones(l),
        decreases queries_str@.len() - i,
    {
        let v = bin_to_int(queries_str[i].as_str());
        proof {
            lemma_bin_val_bound(queries_str@[i as int]@);
            vstd::arithmetic::power2::lemma2_to64();
            if (l as nat) < 64 {
                vstd::arithmetic::power2::lemma_pow2_strictly_increases(l as nat, 64);
            }
            assert(v == to_val(queries_str@[i as int]));
            assert(v <= all_ones(l));
        }
        vals.push(v);
        i += 1;
        proof {
            assert(queries_str@.take(i as int).map_values(to_val) =~= queries_str@.take(
                i as int - 1,
            ).map_values(to_val).push(v));
        }
    }
    proof {
        assert(queries_str@.take(i as int) =~= queries_str@);
        assert(vals@ == parsed_queries(queries_str@));
    }
    let s = resolve_secret(l, &vals);
    match label_queries(s, &vals) {
        Some(labels) => Some((s, labels)),
        None => None,
    }
}

} // verus!
