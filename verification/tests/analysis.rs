use vigenere_cipher::fragments::{
    is_first_occurrence, occurrence_positions, repeated_fragments, same_fragment,
};
use vigenere_cipher::kasiski::{
    analyze, analyze_table, build_repet_table, compute_gcd, divisors, filter_printable, kasiski,
    kasiski_ranked, narrow_candidates, KasiskiResult, Strategy,
};
use vigenere_cipher::ranking::{fragment_votes, gcd_of_gaps, rank_votes};
use vigenere_cipher::sorted_set::insert_sorted;
use vigenere_cipher::strings::{chars_of, string_of};
use vigenere_cipher::vigenere::vigenere_encrypt;

fn rows(list: &[(&str, usize)]) -> Vec<(String, usize)> {
    list.iter().map(|(f, d)| (f.to_string(), *d)).collect()
}

#[test]
fn gcd_with_zero_is_the_other_number() {
    assert_eq!(compute_gcd(0, 5), 5);
    assert_eq!(compute_gcd(5, 0), 5);
    assert_eq!(compute_gcd(0, 0), 0);
    assert_eq!(compute_gcd(12, 12), 12);
    assert_eq!(compute_gcd(18, 48), 6);
    assert_eq!(compute_gcd(usize::MAX, 1), 1);
}

#[test]
fn divisors_are_ascending_and_complete() {
    assert_eq!(divisors(0), Vec::<usize>::new());
    assert_eq!(divisors(1), Vec::<usize>::new());
    assert_eq!(divisors(2), vec![2]);
    assert_eq!(divisors(12), vec![2, 3, 4, 6, 12]);
    assert_eq!(divisors(15), vec![3, 5, 15]);
    assert_eq!(divisors(49), vec![7, 49]);
    assert_eq!(divisors(97), vec![97]);
    assert_eq!(divisors(48), vec![2, 3, 4, 6, 8, 12, 16, 24, 48]);
}

#[test]
fn divisors_of_a_large_number_do_not_overflow() {
    let found = divisors(4294967297);
    assert_eq!(found, vec![641, 6700417, 4294967297]);
}

#[test]
fn sorted_insert_keeps_order_and_adds_nothing_twice() {
    let mut v: Vec<usize> = Vec::new();
    insert_sorted(&mut v, 5);
    insert_sorted(&mut v, 2);
    insert_sorted(&mut v, 9);
    insert_sorted(&mut v, 5);
    insert_sorted(&mut v, 7);
    assert_eq!(v, vec![2, 5, 7, 9]);
}

#[test]
fn strings_and_characters_convert() {
    let text = chars_of("h\u{e9}llo");
    assert_eq!(text, vec!['h', '\u{e9}', 'l', 'l', 'o']);
    assert_eq!(string_of(&text, 1, 3), "\u{e9}ll");
    assert_eq!(string_of(&text, 5, 0), "");
    assert_eq!(filter_printable("a\nb\u{e9}c~ \t"), "abc~ ");
}

#[test]
fn occurrences_of_a_fragment_are_found() {
    let text = chars_of("abcabcabc");
    assert!(same_fragment(&text, 0, 3, 3));
    assert!(!same_fragment(&text, 0, 1, 3));
    assert!(is_first_occurrence(&text, 0, 3));
    assert!(is_first_occurrence(&text, 2, 3));
    assert!(!is_first_occurrence(&text, 3, 3));
    assert_eq!(occurrence_positions(&text, 3, 3), vec![0, 3, 6]);
    assert_eq!(occurrence_positions(&text, 1, 4), vec![1, 4]);
    assert_eq!(occurrence_positions(&text, 0, 9), vec![0]);
}

#[test]
fn table_lists_rows_by_length_first_occurrence_and_position() {
    assert_eq!(
        build_repet_table("abcabcabc"),
        rows(&[
            ("abc", 3),
            ("abc", 3),
            ("bca", 3),
            ("cab", 3),
            ("abca", 3),
            ("bcab", 3),
            ("cabc", 3),
        ])
    );
    assert_eq!(
        build_repet_table("abcdXabcdYYabcd"),
        rows(&[
            ("abc", 5),
            ("abc", 6),
            ("bcd", 5),
            ("bcd", 6),
            ("abcd", 5),
            ("abcd", 6),
        ])
    );
}

#[test]
fn table_counts_overlapping_occurrences() {
    assert_eq!(build_repet_table("aaaa"), rows(&[("aaa", 1)]));
    assert_eq!(build_repet_table("ababa"), rows(&[("aba", 2)]));
}

#[test]
fn table_of_a_text_without_repeats_is_empty() {
    assert!(build_repet_table("").is_empty());
    assert!(build_repet_table("ab").is_empty());
    assert!(build_repet_table("abc").is_empty());
    assert!(build_repet_table("abcdefghijklmnopqrstuvwxyz").is_empty());
}

#[test]
fn table_respects_the_threshold() {
    let text = chars_of("abcabcabc");
    assert_eq!(
        repeated_fragments(&text, 3),
        rows(&[("abc", 3), ("abc", 3)])
    );
    assert_eq!(repeated_fragments(&text, 0), build_repet_table("abcabcabc"));
    assert!(repeated_fragments(&text, 4).is_empty());
}

#[test]
fn table_of_the_sample_text_has_the_expected_rows() {
    let message = "Amet aute sunt duis exercitation esse sint exercitation ex velit mollit pariatur excepteur cillum voluptate. Proident duis irure cupidatat enim. Veniam cupidatat adipisicing magna et non irure anim consequat et commodo.";
    let table = build_repet_table(message);
    assert_eq!(table.len(), 196);
    assert_eq!(
        table[..5].to_vec(),
        rows(&[("et ", 178), ("et ", 28), ("t a", 157), ("e s", 28), ("nt ", 28)])
    );
    assert_eq!(kasiski(message), KasiskiResult::Candidates(vec![2]));
    assert_eq!(kasiski_ranked(message), KasiskiResult::Ranked(vec![2, 3, 23]));
}

#[test]
fn narrowing_replaces_candidates_by_common_divisors() {
    assert_eq!(narrow_candidates(&vec![2, 3, 4, 6, 12], 8), vec![2, 4]);
    assert_eq!(narrow_candidates(&vec![3, 5, 15], 15), vec![3, 5, 15]);
    assert_eq!(narrow_candidates(&vec![2, 4, 8], 12), vec![2, 4]);
}

#[test]
fn narrowing_keeps_candidates_when_nothing_would_be_left() {
    assert_eq!(narrow_candidates(&vec![3, 5], 4), vec![3, 5]);
    assert_eq!(narrow_candidates(&vec![7], 1), vec![7]);
    assert_eq!(narrow_candidates(&Vec::new(), 6), Vec::<usize>::new());
}

#[test]
fn table_analysis_starts_from_the_first_distance() {
    assert_eq!(
        analyze_table(&rows(&[("abc", 12), ("bcd", 8), ("cde", 6)])),
        KasiskiResult::Candidates(vec![2])
    );
    assert_eq!(
        analyze_table(&rows(&[("abc", 5), ("abc", 6), ("bcd", 10)])),
        KasiskiResult::Candidates(vec![5])
    );
    assert_eq!(
        analyze_table(&rows(&[("abc", 30)])),
        KasiskiResult::Candidates(vec![2, 3, 5, 6, 10, 15, 30])
    );
    assert_eq!(analyze_table(&Vec::new()), KasiskiResult::InsufficientSample);
}

#[test]
fn first_distance_of_one_leaves_no_candidate() {
    assert_eq!(
        analyze_table(&rows(&[("aaa", 1), ("bbb", 6)])),
        KasiskiResult::Candidates(Vec::new())
    );
    assert_eq!(kasiski("aaaa"), KasiskiResult::Candidates(Vec::new()));
}

#[test]
fn short_sample_is_insufficient() {
    assert_eq!(kasiski(""), KasiskiResult::InsufficientSample);
    assert_eq!(kasiski("abc"), KasiskiResult::InsufficientSample);
    assert_eq!(kasiski("abcde"), KasiskiResult::InsufficientSample);
    assert_eq!(kasiski_ranked("abcde"), KasiskiResult::InsufficientSample);
    assert_eq!(kasiski_ranked("abcabc"), KasiskiResult::InsufficientSample);
}

#[test]
fn fragment_repeated_every_fifteen_positions_gives_five_and_fifteen() {
    let text = "QWERTabcdefghijQWERTklmnopqrstQWERTuvwxyz0123QWERT456789ABCD";
    assert_eq!(
        build_repet_table(text)[..4].to_vec(),
        rows(&[("QWE", 15), ("QWE", 15), ("QWE", 15), ("WER", 15)])
    );
    assert_eq!(build_repet_table(text).len(), 18);
    assert_eq!(kasiski(text), KasiskiResult::Candidates(vec![3, 5, 15]));
    assert_eq!(kasiski_ranked(text), KasiskiResult::Ranked(vec![15]));
}

#[test]
fn characters_outside_the_alphabet_are_left_out_of_the_analysis() {
    assert_eq!(kasiski("abc\nabc"), KasiskiResult::Candidates(vec![3]));
    assert_eq!(kasiski("a\u{e9}bca\tbc"), KasiskiResult::Candidates(vec![3]));
}

#[test]
fn ciphertext_of_a_repetitive_message_points_to_the_key_length() {
    let encrypted = vigenere_encrypt(
        "the quick brown fox jumps over the lazy dog and the quick brown cat",
        "key",
    );
    assert_eq!(
        encrypted,
        "aO`lXpVJflIm\\^ilMjefebTk`fjcLml[cRfgNatlKjTf\\[KzaO`lXpVJflIm\\^ilJ\\a"
    );
    assert_eq!(
        kasiski(&encrypted),
        KasiskiResult::Candidates(vec![2, 3, 4, 6, 8, 12, 16, 24, 48])
    );
}

#[test]
fn analysis_takes_strategy_and_threshold() {
    assert_eq!(
        analyze("abcabcabc", Strategy::Narrowing, 2),
        KasiskiResult::Candidates(vec![3])
    );
    assert_eq!(
        analyze("abcabcabc", Strategy::Narrowing, 3),
        KasiskiResult::Candidates(vec![3])
    );
    assert_eq!(
        analyze("abcabcabc", Strategy::Narrowing, 4),
        KasiskiResult::InsufficientSample
    );
    assert_eq!(
        analyze("abcabcabc", Strategy::Ranking, 0),
        KasiskiResult::Ranked(vec![3])
    );
    assert_eq!(
        analyze("abcabcabc", Strategy::Ranking, 4),
        KasiskiResult::InsufficientSample
    );
}

#[test]
fn ranking_without_a_common_divisor_is_empty_but_not_insufficient() {
    assert_eq!(kasiski_ranked("aaaaa"), KasiskiResult::Ranked(Vec::new()));
}

#[test]
fn gcd_of_gaps_folds_all_distances() {
    assert_eq!(gcd_of_gaps(&vec![0, 6, 18, 27]), 3);
    assert_eq!(gcd_of_gaps(&vec![4, 10]), 6);
    assert_eq!(gcd_of_gaps(&vec![4]), 0);
    assert_eq!(gcd_of_gaps(&Vec::new()), 0);
}

#[test]
fn votes_come_from_fragments_with_three_occurrences() {
    assert_eq!(fragment_votes(&chars_of("abcabcabc"), 3), vec![3]);
    assert_eq!(fragment_votes(&chars_of("abcabc"), 3), Vec::<usize>::new());
    assert_eq!(fragment_votes(&chars_of("abcabcabc"), 4), Vec::<usize>::new());
}

#[test]
fn votes_are_ranked_by_support_then_by_size() {
    assert_eq!(rank_votes(&vec![4, 2, 4, 2, 3]), vec![2, 4, 3]);
    assert_eq!(rank_votes(&vec![5, 5, 5, 2]), vec![5, 2]);
    assert_eq!(rank_votes(&vec![9, 7, 8]), vec![7, 8, 9]);
    assert_eq!(rank_votes(&vec![2, 3, 3, 2, 3, 5, 5, 5, 5]), vec![5, 3, 2]);
    assert_eq!(rank_votes(&Vec::new()), Vec::<usize>::new());
}
