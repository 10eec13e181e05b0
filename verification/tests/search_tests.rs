use terax_index::search::{count_spaces, fuzzy_rank};

#[test]
fn fuzzy_rank_lists_only_matches() {
    let keys = ["greet", "run", "grid"];
    let r = fuzzy_rank("greet", &keys, 10);
    assert_eq!(r, vec![0]);
    assert!(fuzzy_rank("zzz", &keys, 10).is_empty());
}

#[test]
fn fuzzy_rank_respects_cap_and_orders_best_first() {
    let keys = ["handlers", "handle", "handler", "other"];
    let all = fuzzy_rank("handle", &keys, 10);
    assert_eq!(all.len(), 3);
    assert!(!all.contains(&3));
    let two = fuzzy_rank("handle", &keys, 2);
    assert_eq!(two, all[..2].to_vec());
    assert!(fuzzy_rank("handle", &keys, 0).is_empty());
}

#[test]
fn fuzzy_rank_breaks_ties_by_position() {
    let keys = ["same", "same", "same"];
    assert_eq!(fuzzy_rank("same", &keys, 10), vec![0, 1, 2]);
}

#[test]
fn fuzzy_rank_puts_closer_matches_first_and_is_repeatable() {
    let keys = ["g_r_e_e_t_h_e_r_e", "greet", "greeting"];
    let r = fuzzy_rank("greet", &keys, 10);
    assert_eq!(r[0], 1);
    assert_eq!(r.len(), 3);
    assert_eq!(fuzzy_rank("greet", &keys, 10), r);
}

#[test]
fn count_spaces_counts_only_spaces() {
    assert_eq!(count_spaces("a b  c"), 3);
    assert_eq!(count_spaces("a\tb\u{3000}c"), 0);
    assert_eq!(count_spaces(""), 0);
}
