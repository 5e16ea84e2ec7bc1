use vigenere_cipher::vigenere::{
    char_to_vigenere_num, is_in_alphabet, resize_key_to_message, vigenere_crypt, vigenere_decrypt,
    vigenere_encrypt, vigenere_num_to_char, VigenereMode,
};

#[test]
fn known_vector_encrypts_and_comes_back() {
    let encrypted = vigenere_encrypt("Les crepes suzette", "cle");
    assert_eq!(encrypted, "1SZdQYJ^LXmZZhLYbL");
    assert_eq!(vigenere_decrypt(&encrypted, "cle"), "Les crepes suzette");
}

#[test]
fn long_sentence_has_the_expected_ciphertext() {
    let encrypted = vigenere_encrypt(
        "Les crepes suzette de Monsieur Dubreuil sont succulentes.",
        "cle",
    );
    assert_eq!(
        encrypted,
        "1SZdQYJ^LXmZZhLYbLdRLd;VSaPJcYd2\\G`LZWSdaVSbfXcJHcSJ\\[Jat"
    );
}

#[test]
fn upper_and_lower_case_and_signs_are_kept_apart() {
    let encrypted = vigenere_encrypt("Attack at dawn!", "LEMON");
    assert_eq!(encrypted, "n;C239F0EO2(F?P");
    assert_eq!(vigenere_decrypt(&encrypted, "LEMON"), "Attack at dawn!");
    assert_eq!(vigenere_encrypt("Hello, World!", "Key"), "tLg9V'L>j?S_M");
}

#[test]
fn round_trip_holds_for_every_pair_of_alphabet_characters() {
    for m in 0x20u8..=0x7E {
        for k in 0x20u8..=0x7E {
            let message = (m as char).to_string();
            let key = (k as char).to_string();
            let encrypted = vigenere_encrypt(&message, &key);
            assert_eq!(encrypted.chars().count(), 1);
            assert!(is_in_alphabet(&encrypted));
            assert_eq!(vigenere_decrypt(&encrypted, &key), message);
            let decrypted = vigenere_decrypt(&message, &key);
            assert_eq!(vigenere_encrypt(&decrypted, &key), message);
        }
    }
}

#[test]
fn character_outside_the_alphabet_passes_through() {
    assert_eq!(vigenere_encrypt("ab\ncd", "xy"), "[]\n]_");
    assert_eq!(vigenere_encrypt("abcd", "xy"), "[]]_");
    assert_eq!(vigenere_decrypt("[]\n]_", "xy"), "ab\ncd");
    assert_eq!(vigenere_encrypt("a\tb", "~"), "a\tb");
}

#[test]
fn characters_beyond_ascii_pass_through_and_use_no_key() {
    let encrypted = vigenere_encrypt("a\u{e9}b\u{1F600}c", "xyz");
    assert_eq!(encrypted, "[\u{e9}]\u{1F600}_");
    assert_eq!(vigenere_decrypt(&encrypted, "xyz"), "a\u{e9}b\u{1F600}c");
    assert_eq!(vigenere_encrypt("\u{e9}", "ab"), "\u{e9}");
}

#[test]
fn remainder_zero_gives_the_tilde() {
    assert_eq!(vigenere_encrypt("~~~", "~"), "~~~");
    assert_eq!(vigenere_encrypt("   ", " "), "!!!");
    assert_eq!(vigenere_encrypt("~", " "), " ");
    assert_eq!(vigenere_decrypt(" ", "~"), " ");
    assert_eq!(vigenere_encrypt("AZaz", "  "), "B[b{");
}

#[test]
fn empty_key_leaves_the_message_unchanged() {
    assert_eq!(vigenere_encrypt("Hello\nWorld", ""), "Hello\nWorld");
    assert_eq!(vigenere_decrypt("Hello\nWorld", ""), "Hello\nWorld");
    assert_eq!(vigenere_crypt("", "", VigenereMode::Encrypt), "");
    assert_eq!(resize_key_to_message("Hello", ""), "");
}

#[test]
fn empty_message_gives_empty_output() {
    assert_eq!(vigenere_encrypt("", "cle"), "");
    assert_eq!(vigenere_decrypt("", "cle"), "");
}

#[test]
fn key_cycles_to_the_length_of_the_message() {
    assert_eq!(resize_key_to_message("Hello world", "cle"), "clecleclecl");
    assert_eq!(resize_key_to_message("Hello world", "test"), "testtesttes");
    assert_eq!(resize_key_to_message("ab", "secret"), "se");
    assert_eq!(resize_key_to_message("", "secret"), "");
    assert_eq!(resize_key_to_message("abc", "k"), "kkk");
}

#[test]
fn key_is_resized_to_the_byte_length_of_the_message() {
    assert_eq!(resize_key_to_message("\u{e9}", "ab"), "ab");
    assert_eq!(resize_key_to_message("a\u{1F600}", "xyz"), "xyzxy");
}

#[test]
fn resized_key_encrypts_as_the_key_does() {
    let message = "Les crepes suzette de Monsieur Dubreuil";
    let resized = resize_key_to_message(message, "cle");
    assert_eq!(
        vigenere_encrypt(message, &resized),
        vigenere_encrypt(message, "cle")
    );
}

#[test]
fn characters_have_the_numbers_from_1_to_95() {
    assert_eq!(char_to_vigenere_num(' '), 1);
    assert_eq!(char_to_vigenere_num('~'), 95);
    assert_eq!(char_to_vigenere_num('A'), 34);
    assert_eq!(char_to_vigenere_num('Z'), 59);
    assert_eq!(char_to_vigenere_num('a'), 66);
    assert_eq!(char_to_vigenere_num('0'), 17);
}

#[test]
fn numbers_have_their_characters() {
    assert_eq!(vigenere_num_to_char(0), '~');
    assert_eq!(vigenere_num_to_char(95), '~');
    assert_eq!(vigenere_num_to_char(190), '~');
    assert_eq!(vigenere_num_to_char(1), ' ');
    assert_eq!(vigenere_num_to_char(96), ' ');
    assert_eq!(vigenere_num_to_char(34), 'A');
    assert_eq!(vigenere_num_to_char(59), 'Z');
    assert_eq!(vigenere_num_to_char(66), 'a');
    assert_eq!(vigenere_num_to_char(94), '}');
    assert_eq!(vigenere_num_to_char(255), '`');
}

#[test]
fn numbers_and_characters_are_inverse() {
    for code in 0x20u8..=0x7E {
        let c = code as char;
        assert_eq!(vigenere_num_to_char(char_to_vigenere_num(c)), c);
    }
    for n in 1u8..=95 {
        assert_eq!(char_to_vigenere_num(vigenere_num_to_char(n)), n);
    }
}

#[test]
fn alphabet_membership_is_decided() {
    assert!(is_in_alphabet(""));
    assert!(is_in_alphabet("cle ~"));
    assert!(!is_in_alphabet("cl\u{e9}"));
    assert!(!is_in_alphabet("a\nb"));
    assert!(!is_in_alphabet("\u{7f}"));
}
