use cryptogram::{
    apply_key, cipher_words_of, compare_to_partial, compute_matches, compute_partial,
    compute_partial_key, compute_pattern, find_candidates, find_keys, order_by_ambiguity,
    prepare_dictionary, search_in_order, solve, PartialKey, SolveError,
};

fn strings(words: &[&str]) -> Vec<String> {
    words.iter().map(|w| w.to_string()).collect()
}

fn key_of(pairs: &[(char, char)]) -> PartialKey {
    let mut key = PartialKey::new();
    for &(a, b) in pairs {
        key = compute_partial_key(&a.to_string(), &b.to_string(), &key).unwrap();
    }
    key
}

#[test]
fn pattern_of_test_is_abca() {
    assert_eq!(compute_pattern("TEST"), "ABCA");
}

#[test]
fn pattern_of_empty_word_is_empty() {
    assert_eq!(compute_pattern(""), "");
}

#[test]
fn pattern_ignores_case_and_keeps_other_characters() {
    assert_eq!(compute_pattern("test"), "ABCA");
    assert_eq!(compute_pattern("Hello-World"), "ABCCD-EDFCG");
}

#[test]
fn pattern_has_the_word_length() {
    for w in ["A", "ABC", "MISSISSIPPI", "A-B", ""] {
        assert_eq!(compute_pattern(w).chars().count(), w.chars().count());
    }
}

#[test]
fn pattern_is_invariant_under_relabelling() {
    assert_eq!(compute_pattern("TEST"), compute_pattern("XQZX"));
    assert_eq!(compute_pattern("MISSISSIPPI"), compute_pattern("ABCCBCCBDDB"));
    assert_ne!(compute_pattern("THAT"), compute_pattern("THIS"));
}

#[test]
fn pattern_uses_all_symbols() {
    assert_eq!(
        compute_pattern("ZYXWVUTSRQPONMLKJIHGFEDCBA"),
        "ABCDEFGHIJKLMNOPQRSTUVWXYZ"
    );
}

#[test]
fn partial_renders_mapped_letters_and_placeholders() {
    let key = key_of(&[('D', 'T'), ('C', 'A')]);
    assert_eq!(compute_partial("DVMC", &key), "T..A");
    assert_eq!(compute_partial("XYZ", &PartialKey::new()), "...");
}

#[test]
fn compare_accepts_matching_word() {
    assert!(compare_to_partial("THAT", "T..T"));
    assert!(!compare_to_partial("THIS", "T..T"));
    assert!(compare_to_partial("ABC", "..."));
}

#[test]
fn unify_extends_key() {
    let key = compute_partial_key("GDS", "THE", &PartialKey::new()).unwrap();
    assert_eq!(key.get('G'), Some('T'));
    assert_eq!(key.get('D'), Some('H'));
    assert_eq!(key.get('S'), Some('E'));
    assert_eq!(key.get('X'), None);
    assert_eq!(key.preimage('H'), Some('D'));
}

#[test]
fn unify_rejects_shared_image() {
    let key = key_of(&[('A', 'X')]);
    assert!(compute_partial_key("B", "X", &key).is_none());
    assert!(compute_partial_key("AB", "XX", &PartialKey::new()).is_none());
}

#[test]
fn unify_rejects_second_image_for_a_letter() {
    let key = key_of(&[('A', 'X')]);
    assert!(compute_partial_key("A", "Y", &key).is_none());
    assert!(compute_partial_key("AA", "XY", &PartialKey::new()).is_none());
}

#[test]
fn unify_single_letter() {
    let key = compute_partial_key("Q", "A", &PartialKey::new()).unwrap();
    assert_eq!(key.get('Q'), Some('A'));
    let again = compute_partial_key("Q", "A", &key).unwrap();
    assert!(again.same_as(&key));
}

#[test]
fn candidates_keep_pattern_and_order() {
    let dict = strings(&["THE", "THAT", "THIS", "AND", "SEE", "the"]);
    assert_eq!(find_candidates("GDS", &dict), strings(&["THE", "AND", "THE"]));
    assert_eq!(find_candidates("XYZX", &dict), strings(&["THAT"]));
    assert!(find_candidates("QQQ", &dict).is_empty());
}

#[test]
fn candidate_finder_is_deterministic() {
    let dict = strings(&["THE", "THAT", "THIS", "A", "I"]);
    let unsolved = strings(&["GDS", "XYZX", "Q"]);
    let first = compute_matches(&unsolved, &dict);
    let second = compute_matches(&unsolved, &dict);
    assert_eq!(first, second);
    assert_eq!(first[0], strings(&["THE"]));
    assert_eq!(first[1], strings(&["THAT"]));
    assert_eq!(first[2], strings(&["A", "I"]));
}

#[test]
fn candidate_finder_on_its_output_is_unchanged() {
    let dict = strings(&["THE", "and", "THAT", "SEE"]);
    let once = find_candidates("GDS", &dict);
    assert_eq!(find_candidates("GDS", &once), once);
}

#[test]
fn single_letter_word_gets_single_letter_candidates() {
    let dict = strings(&["A", "I", "AN", "IT"]);
    assert_eq!(find_candidates("Q", &dict), strings(&["A", "I"]));
}

#[test]
fn dictionary_drops_adjacent_duplicates_only() {
    let lines = strings(&["the", "THE", "cat", "the"]);
    assert_eq!(prepare_dictionary(&lines), strings(&["THE", "CAT", "THE"]));
}

#[test]
fn cipher_words_are_distinct_and_stripped() {
    assert_eq!(cipher_words_of("ABC, DEF!"), strings(&["ABC", "DEF"]));
    assert_eq!(cipher_words_of("  ab  Ab\tc.d "), strings(&["AB", "CD"]));
    assert!(cipher_words_of(" ,.! ").is_empty());
}

#[test]
fn words_are_ordered_by_candidate_count() {
    let cands = vec![
        strings(&["A", "B", "C"]),
        strings(&["D"]),
        strings(&["E", "F"]),
        strings(&["G"]),
    ];
    assert_eq!(order_by_ambiguity(&cands), vec![1, 3, 2, 0]);
}

#[test]
fn apply_key_keeps_punctuation() {
    let key = key_of(&[('A', 'T'), ('B', 'H'), ('C', 'E')]);
    assert_eq!(apply_key("abc, cab!", &key), Ok("THE, ETH!".to_string()));
    assert_eq!(apply_key("abd", &key), Err('D'));
}

#[test]
fn solves_single_word() {
    let dict = strings(&["THE", "THAT", "THIS"]);
    assert_eq!(compute_pattern("GDS"), "ABC");
    assert_eq!(solve(&dict, "GDS"), Ok("THE".to_string()));
}

#[test]
fn word_without_candidates_means_no_solution() {
    let dict = strings(&["THE", "THAT", "THIS"]);
    assert_eq!(solve(&dict, "GDS QQQ"), Err(SolveError::NoSolution));
}

#[test]
fn ambiguous_word_gives_two_keys() {
    let dict = strings(&["THE", "AND"]);
    let words = strings(&["GDS"]);
    let cands = compute_matches(&words, &dict);
    let keys = find_keys(&words, &cands);
    assert!(keys.len() >= 2);
    assert_eq!(keys[0].get('G'), Some('T'));
    assert_eq!(keys[1].get('G'), Some('A'));
    assert_eq!(solve(&dict, "GDS"), Ok("THE".to_string()));
}

#[test]
fn punctuation_kept_in_place() {
    let dict = strings(&["THE", "AND"]);
    assert_eq!(cipher_words_of("ABC, DEF!"), strings(&["ABC", "DEF"]));
    let answer = solve(&dict, "ABC, DEF!").unwrap();
    assert!(answer == "THE, AND!" || answer == "AND, THE!");
    assert_eq!(&answer[3..5], ", ");
    assert_eq!(&answer[8..], "!");
}

#[test]
fn single_letter_words_are_solved() {
    let dict = strings(&["A", "I", "AM"]);
    assert_eq!(solve(&dict, "Q QX"), Ok("A AM".to_string()));
}

#[test]
fn solution_renders_each_word_as_a_candidate() {
    let dict = strings(&["THE", "CAT", "HAT", "TEA"]);
    let words = cipher_words_of("XYZ WQX");
    let cands = compute_matches(&words, &dict);
    let keys = find_keys(&words, &cands);
    assert!(!keys.is_empty());
    for key in &keys {
        for (w, cs) in words.iter().zip(cands.iter()) {
            let rendered = compute_partial(w, key);
            assert!(!rendered.contains('.'));
            assert!(cs.contains(&rendered));
        }
    }
}

#[test]
fn mirrored_words_give_two_keys() {
    let dict = strings(&["AB", "BA", "CD"]);
    let words = strings(&["XY", "YX"]);
    let cands = compute_matches(&words, &dict);
    let keys = find_keys(&words, &cands);
    assert_eq!(keys.len(), 2);
    for i in 0..keys.len() {
        for j in 0..keys.len() {
            if i != j {
                assert!(!keys[i].same_as(&keys[j]));
            }
        }
    }
}

#[test]
fn search_in_explicit_order_matches_find_keys() {
    let dict = strings(&["THE", "CAT", "HAT", "TEA"]);
    let words = cipher_words_of("XYZ WQX");
    let cands = compute_matches(&words, &dict);
    let order = order_by_ambiguity(&cands);
    let by_order = search_in_order(&words, &cands, &order);
    let found = find_keys(&words, &cands);
    assert_eq!(by_order.len(), found.len());
    for (a, b) in by_order.iter().zip(found.iter()) {
        assert!(a.same_as(b));
    }
}

#[test]
fn search_with_no_words_keeps_the_empty_key() {
    let keys = search_in_order(&Vec::new(), &Vec::new(), &Vec::new());
    assert_eq!(keys.len(), 1);
    assert!(keys[0].same_as(&PartialKey::new()));
}

#[test]
fn words_sharing_a_pattern_are_relabellings() {
    assert_eq!(compute_pattern("LOOP"), compute_pattern("deep"));
    assert_ne!(compute_pattern("LOOP"), compute_pattern("DEED"));
    assert_ne!(compute_pattern("A-B"), compute_pattern("ABC"));
}
