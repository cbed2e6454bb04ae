use simon_oracle::codec::{bin_to_int, int_to_bin};
use simon_oracle::labeler::label_queries;
use simon_oracle::resolver::{resolve_secret, width_mask};
use simon_oracle::solve;

fn as_string(chars: &[char]) -> String {
    chars.iter().collect()
}

#[test]
fn empty_queries_yield_all_ones() {
    let no_queries: Vec<String> = Vec::new();
    let (s, labels) = solve(3, &no_queries).unwrap();
    assert_eq!(s, 7);
    assert!(labels.is_empty());

    let (s1, _) = solve(1, &no_queries).unwrap();
    assert_eq!(s1, 1);

    let (s64, _) = solve(64, &no_queries).unwrap();
    assert_eq!(s64, u64::MAX);
}

#[test]
fn empty_queries_resolver_direct() {
    let vals: Vec<u64> = Vec::new();
    assert_eq!(resolve_secret(5, &vals), 31);
    assert_eq!(resolve_secret(64, &vals), u64::MAX);
}

#[test]
fn forcing_fires_on_three_queries() {
    let queries = vec!["00".to_string(), "01".to_string(), "10".to_string()];
    let (s, labels) = solve(2, &queries).unwrap();
    assert_eq!(s, 2);
    assert_eq!(labels, vec!['A', 'B', 'A']);
}

#[test]
fn maximal_fallback_single_query() {
    let queries = vec!["000".to_string()];
    let (s, labels) = solve(3, &queries).unwrap();
    assert_eq!(s, 7);
    assert_eq!(labels, vec!['A']);
}

#[test]
fn label_alphabet_follows_encounter_order() {
    let queries = vec![
        "00".to_string(),
        "11".to_string(),
        "01".to_string(),
        "10".to_string(),
    ];
    let (s, labels) = solve(2, &queries).unwrap();
    assert_eq!(s, 1);
    assert_eq!(labels, vec!['A', 'B', 'A', 'B']);
}

#[test]
fn partners_share_a_label() {
    // with the resolved secret 1, positions 0 and 2 hold partners, as do 1 and 3
    let queries = vec![
        "00".to_string(),
        "11".to_string(),
        "01".to_string(),
        "10".to_string(),
    ];
    let (s, labels) = solve(2, &queries).unwrap();
    let vals = [0u64, 3, 1, 2];
    assert_eq!(vals[2], vals[0] ^ s);
    assert_eq!(labels[0], labels[2]);
    assert_eq!(vals[3], vals[1] ^ s);
    assert_eq!(labels[1], labels[3]);
}

#[test]
fn determinism_across_runs() {
    let queries = vec!["000".to_string(), "011".to_string(), "101".to_string()];
    let first = solve(3, &queries).unwrap();
    let second = solve(3, &queries).unwrap();
    assert_eq!(first.0, second.0);
    assert_eq!(first.1, second.1);
}

#[test]
fn duplicate_changes_nothing() {
    let base = vec!["00".to_string(), "01".to_string(), "10".to_string()];
    let with_dup = vec![
        "00".to_string(),
        "00".to_string(),
        "01".to_string(),
        "10".to_string(),
    ];
    let (s_base, labels_base) = solve(2, &base).unwrap();
    let (s_dup, labels_dup) = solve(2, &with_dup).unwrap();
    assert_eq!(s_base, s_dup);
    // the duplicate at position 1 reuses the label of its first occurrence
    assert_eq!(labels_dup[1], labels_dup[0]);
    // the earlier positions keep their labels
    assert_eq!(labels_dup[0], labels_base[0]);
    assert_eq!(labels_dup[2], labels_base[1]);
    assert_eq!(labels_dup[3], labels_base[2]);
}

#[test]
fn duplicate_query_is_skipped_by_the_resolver() {
    let queries = vec!["01".to_string(), "01".to_string()];
    let (s, labels) = solve(2, &queries).unwrap();
    assert_eq!(s, 3);
    assert_eq!(labels, vec!['A', 'A']);
}

#[test]
fn exhausting_pairs_leaves_all_ones() {
    let queries = vec![
        "000".to_string(),
        "001".to_string(),
        "010".to_string(),
        "011".to_string(),
    ];
    let (s, labels) = solve(3, &queries).unwrap();
    assert_eq!(s, 7);
    assert_eq!(labels, vec!['A', 'B', 'C', 'D']);
}

#[test]
fn bin_to_int_parses_binary() {
    assert_eq!(bin_to_int("0"), 0);
    assert_eq!(bin_to_int("1"), 1);
    assert_eq!(bin_to_int("101"), 5);
    assert_eq!(bin_to_int("00101"), 5);
    let all_ones_64: String = std::iter::repeat('1').take(64).collect();
    assert_eq!(bin_to_int(&all_ones_64), u64::MAX);
}

#[test]
fn int_to_bin_pads_to_width() {
    assert_eq!(as_string(&int_to_bin(5, 5)), "00101");
    assert_eq!(as_string(&int_to_bin(1, 0)), "0");
    assert_eq!(as_string(&int_to_bin(2, 2)), "10");
    assert_eq!(as_string(&int_to_bin(64, u64::MAX)).len(), 64);
}

#[test]
fn width_round_trip() {
    for l in 1u64..=32 {
        let mask = width_mask(l);
        for v in [0u64, 1, mask, mask / 2, mask / 3] {
            let v = v & mask;
            let rendered = as_string(&int_to_bin(l, v));
            assert_eq!(rendered.len() as u64, l);
            assert_eq!(bin_to_int(&rendered), v);
        }
    }
}

#[test]
fn width_mask_values() {
    assert_eq!(width_mask(1), 1);
    assert_eq!(width_mask(2), 3);
    assert_eq!(width_mask(8), 255);
    assert_eq!(width_mask(64), u64::MAX);
}

#[test]
fn labeler_runs_out_of_alphabet() {
    // with secret 0 every distinct query is its own class
    let many: Vec<u64> = (0..191).collect();
    assert!(label_queries(0, &many).is_none());
    let just_enough: Vec<u64> = (0..190).collect();
    let labels = label_queries(0, &just_enough).unwrap();
    assert_eq!(labels.len(), 190);
    assert_eq!(labels[0], 'A');
    assert_eq!(labels[189], (65u8 + 189) as char);
}

#[test]
fn labeler_reuses_class_labels() {
    let vals = vec![4u64, 6, 5, 7, 4];
    let labels = label_queries(2, &vals).unwrap();
    // partners under secret 2: {4, 6} and {5, 7}
    assert_eq!(labels, vec!['A', 'A', 'B', 'B', 'A']);
}

#[test]
fn resolver_forced_secret_direct() {
    let vals = vec![0u64, 1, 2];
    assert_eq!(resolve_secret(2, &vals), 2);
}
