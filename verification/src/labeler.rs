//! Executable class labelling: once the secret is fixed, each query is
//! labelled by the encounter rank of its equivalence class, 'A' for the first
//! class seen, 'B' for the next, and so on.

use vstd::prelude::*;

use crate::model::{
    label_char, label_code, lemma_index_of_unique, lemma_reps_seen_no_dup, lemma_reps_seen_prefix,
    rep, reps_seen, MAX_CLASSES,
};

verus! {

broadcast use vstd::seq_lib::group_seq_properties;

/// First index of `x` in `v`, if any.
fn find_index(v: &Vec<u64>, x: u64) -> (r: Option<usize>)
    ensures
        match r {
            Some(idx) => idx < v@.len() && v@[idx as int] == x && (forall|k: int|
                0 <= k < idx ==> v@[k] != x),
            None => !v@.contains(x),
        },
{
    let mut i: usize = 0;
    while i < v.len()
        invariant
            0 <= i <= v@.len(),
            forall|k: int| 0 <= k < i ==> v@[k] != x,
        decreases v@.len() - i,
    {
        if v[i] == x {
            return Some(i);
        }
        i += 1;
    }
    None
}

/// Label every query of `queries` under the secret `s`, in input order.
///
/// The result is `None` exactly when the queries fall into more classes than
/// the label alphabet can name; otherwise each position receives the label
/// character that `label_char` prescribes.
pub fn label_queries(s: u64, queries: &Vec<u64>) -> (r: Option<Vec<char>>)
    ensures
        (r is Some) <==> reps_seen(queries@, s).len() <= MAX_CLASSES,
        r matches Some(labels) ==> labels@.len() == queries@.len() && (forall|i: int|
            0 <= i < queries@.len() ==> labels@[i] == label_char(queries@, s, i)),
{
    let mut reps: Vec<u64> = Vec::new();
    let mut out: Vec<char> = Vec::new();
    let mut i: usize = 0;
    proof {
        assert(queries@.take(0) =~= Seq::<u64>::empty());
    }
    while i < queries.len()
        invariant
            0 <= i <= queries@.len(),
            reps@ == reps_seen(queries@.take(i as int), s),
            reps@.len() <= MAX_CLASSES,
            out@.len() == i,
            forall|k: int| 0 <= k < i ==> out@[k] == label_char(queries@, s, k),
        decreases queries@.len() - i,
    {
        let q = queries[i];
        let partner = q ^ s;
        let rv = if q <= partner {
            q
        } else {
            partner
        };
        let ghost prefix = queries@.take(i as int);
        let ghost prefix1 = queries@.take(i as int + 1);
        proof {
            assert(rv == rep(queries@[i as int], s));
            assert(prefix1.drop_last() =~= prefix);
            assert(prefix1.last() == queries@[i as int]);
            lemma_reps_seen_no_dup(prefix, s);
        }
        match find_index(&reps, rv) {
            Some(idx) => {
                // this class has a label already: reuse it
                proof {
                    assert(reps@.contains(rv));
                    assert(reps_seen(prefix1, s) == reps@);
                    lemma_index_of_unique(reps@, rv, idx as int);
                    assert(label_code(queries@, s, i as int) == ('A' as int) + idx);
                }
                let code: u8 = ('A' as u8) + (idx as u8);
                out.push(code as char);
            },
            None => {
                if reps.len() == MAX_CLASSES {
                    // a fresh class would overrun the label alphabet
                    proof {
                        assert(reps_seen(prefix1, s) == reps@.push(rv));
                        lemma_reps_seen_prefix(queries@, s, i as int + 1);
                    }
                    return None;
                }
                // first query of a fresh class: assign the next label
                proof {
                    assert(reps_seen(prefix1, s) == reps@.push(rv));
                    lemma_reps_seen_no_dup(prefix1, s);
                    lemma_index_of_unique(reps@.push(rv), rv, reps@.len() as int);
                    assert(label_code(queries@, s, i as int) == ('A' as int) + reps@.len());
                }
                let code: u8 = ('A' as u8) + (reps.len() as u8);
                out.push(code as char);
                reps.push(rv);
            },
        }
        i += 1;
        proof {
            assert(reps@ == reps_seen(queries@.take(i as int), s));
        }
    }
    proof {
        assert(queries@.take(i as int) =~= queries@);
    }
    Some(out)
}

} // verus!
