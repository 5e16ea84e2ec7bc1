//! The Vigenère cipher over the 95 printable ASCII characters.

use crate::strings::chars_of;
use vstd::prelude::*;

verus! {

/// The number of characters in the alphabet.
pub const ALPHABET_SIZE: u8 = 95;

/// `c` belongs to the alphabet: the printable ASCII characters, from the
/// space to the tilde.
pub open spec fn in_alphabet(c: char) -> bool {
    ' ' <= c <= '~'
}

/// Every character of `s` belongs to the alphabet.
pub open spec fn all_in_alphabet(s: Seq<char>) -> bool {
    forall|i: int| 0 <= i < s.len() ==> in_alphabet(#[trigger] s[i])
}

/// The number of a character of the alphabet: 1 for the space, 95 for the
/// tilde.
pub open spec fn char_num(c: char) -> int {
    c as int - 0x20 + 1
}

/// The character of a number: the one whose number has the same remainder
/// by 95, the tilde for the remainder 0.
pub open spec fn num_char(n: int) -> char {
    if n % 95 == 0 {
        '~'
    } else {
        (n % 95 + 0x1F) as char
    }
}

/// The number of a character of the alphabet, from 1 to 95: its code, less
/// that of the space, plus 1. Upper and lower case letters have numbers of
/// their own.
pub fn char_to_vigenere_num(c: char) -> (n: u8)
    requires
        in_alphabet(c),
    ensures
        n == char_num(c),
        1 <= n <= 95,
{
    let code: u8 = c as u8;
    code - 0x20 + 1
}

/// The character of the alphabet that stands for `n`: the remainder of `n`
/// by 95 selects it, and the remainder 0 selects the tilde, the last of the
/// alphabet. The result is an upper case letter exactly when the remainder
/// lies in the range of the upper case letters.
pub fn vigenere_num_to_char(n: u8) -> (c: char)
    ensures
        c == num_char(n as int),
        in_alphabet(c),
        ('A' <= c <= 'Z') <==> (34 <= n % 95 <= 59),
{
    let mut code: u8 = n % ALPHABET_SIZE + 0x20 - 1;
    if code < 0x20 {
        code = code + ALPHABET_SIZE;
    }
    code as char
}

/// The direction in which the cipher is applied.
#[derive(Debug, Clone, Copy, PartialEq, Eq)]
pub enum VigenereMode {
    /// From plaintext to ciphertext.
    Encrypt,
    /// From ciphertext to plaintext.
    Decrypt,
}

/// The character that `cm` becomes under the key character `ck`. Encryption
/// adds the numbers of the two; decryption takes the number of the key
/// character away, after adding 95 so that nothing falls below zero.
pub open spec fn crypt_char(mode: VigenereMode, cm: char, ck: char) -> char {
    match mode {
        VigenereMode::Encrypt => num_char(char_num(cm) + char_num(ck)),
        VigenereMode::Decrypt => num_char(char_num(cm) + 95 - char_num(ck)),
    }
}

/// How many key characters the first `i` characters of `msg` have used up:
/// one for each character of the alphabet among them.
pub open spec fn consumed(msg: Seq<char>, i: int) -> nat
    decreases i,
{
    if i <= 0 {
        0
    } else if in_alphabet(msg[i - 1]) {
        consumed(msg, i - 1) + 1
    } else {
        consumed(msg, i - 1)
    }
}

/// The `k`-th character of the key repeated without end.
pub open spec fn key_char(key: Seq<char>, k: nat) -> char {
    key[k as int % key.len() as int]
}

/// The key repeated until it has `len` characters. Empty for an empty key.
pub open spec fn key_stream(key: Seq<char>, len: nat) -> Seq<char> {
    if key.len() == 0 {
        Seq::empty()
    } else {
        Seq::new(len, |i: int| key_char(key, i as nat))
    }
}

/// The message under the cipher. A character of the alphabet is replaced,
/// with the next character of the repeated key; any other character stays
/// and uses up no key character. Under an empty key the message stays as it
/// is.
pub open spec fn crypted(mode: VigenereMode, msg: Seq<char>, key: Seq<char>) -> Seq<char> {
    if key.len() == 0 {
        msg
    } else {
        Seq::new(
            msg.len(),
            |i: int|
                if in_alphabet(msg[i]) {
                    crypt_char(mode, msg[i], key_char(key, consumed(msg, i)))
                } else {
                    msg[i]
                },
        )
    }
}

/// The ciphertext of `msg` under `key`.
pub open spec fn encrypted(msg: Seq<char>, key: Seq<char>) -> Seq<char> {
    crypted(VigenereMode::Encrypt, msg, key)
}

/// The plaintext of `msg` under `key`.
pub open spec fn decrypted(msg: Seq<char>, key: Seq<char>) -> Seq<char> {
    crypted(VigenereMode::Decrypt, msg, key)
}

/// Whether every character of `s` belongs to the alphabet: what a key has
/// to satisfy.
pub fn is_in_alphabet(s: &str) -> (ok: bool)
    ensures
        ok == all_in_alphabet(s@),
{
    for c in it: s.chars()
        invariant
            it.seq() == s@,
            all_in_alphabet(s@.take(it.index() as int)),
    {
        if !(c >= ' ' && c <= '~') {
            assert(!in_alphabet(s@[it.index() as int]));
            return false;
        }
        assert forall|j: int| 0 <= j < it.index() + 1 implies in_alphabet(
            #[trigger] s@.take(it.index() + 1)[j],
        ) by {
            if j < it.index() {
                assert(s@.take(it.index() as int)[j] == s@[j]);
            }
        }
    }
    assert(s@.take(s@.len() as int) =~= s@);
    true
}

/// The key repeated, character after character, until it is as long as the
/// message: as many characters as the message has bytes, which for an ASCII
/// message is its number of characters. An empty key gives an empty string.
pub fn resize_key_to_message(message: &str, key: &str) -> (stream: String)
    ensures
        stream@ == key_stream(key@, message.len() as nat),
        key@.len() == 0 ==> stream@.len() == 0,
        key@.len() > 0 ==> stream@.len() == message.len(),
        key@.len() > 0 && message.is_ascii() && message@.len() <= usize::MAX ==> stream@.len()
            == message@.len(),
{
    proof {
        vstd::string::is_ascii_spec_bytes(message);
    }
    let key_chars = chars_of(key);
    let mut stream = String::new();
    if key_chars.len() == 0 {
        return stream;
    }
    let target: usize = message.len();
    let mut i: usize = 0;
    let mut k: usize = 0;
    while i < target
        invariant
            key_chars@ == key@,
            key@.len() > 0,
            i <= target,
            k < key_chars.len(),
            k == i as int % key@.len() as int,
            stream@ == key_stream(key@, i as nat),
        decreases target - i,
    {
        stream.push(key_chars[k]);
        assert(stream@ =~= key_stream(key@, (i + 1) as nat));
        k = if k + 1 == key_chars.len() {
            0
        } else {
            k + 1
        };
        assert(k == (i + 1) as int % key@.len() as int) by {
            lemma_next_cursor(i as int, key@.len() as int);
        }
        i += 1;
    }
    stream
}

/// The remainder of the successor, from the remainder.
proof fn lemma_next_cursor(i: int, m: int)
    requires
        0 <= i,
        0 < m,
    ensures
        (i + 1) % m == if i % m + 1 == m {
            0
        } else {
            i % m + 1
        },
{
    vstd::arithmetic::div_mod::lemma_fundamental_div_mod(i, m);
    if i % m + 1 == m {
        assert(i + 1 == (i / m + 1) * m + 0) by (nonlinear_arith)
            requires
                i == m * (i / m) + i % m,
                i % m + 1 == m,
        ;
        vstd::arithmetic::div_mod::lemma_fundamental_div_mod_converse(i + 1, m, i / m + 1, 0);
    } else {
        assert(i + 1 == (i / m) * m + (i % m + 1)) by (nonlinear_arith)
            requires
                i == m * (i / m) + i % m,
        ;
        vstd::arithmetic::div_mod::lemma_fundamental_div_mod_converse(
            i + 1,
            m,
            i / m,
            i % m + 1,
        );
    }
}

/// The message under the cipher, in the direction that `mode` gives.
///
/// Each character of the alphabet is replaced and takes the next character
/// of the key, which starts again at its end. Every other character is
/// written as it is and takes no key character. An empty key leaves the
/// message unchanged.
pub fn vigenere_crypt(message: &str, key: &str, mode: VigenereMode) -> (out: String)
    requires
        all_in_alphabet(key@),
    ensures
        out@ == crypted(mode, message@, key@),
        out@.len() == message@.len(),
{
    let key_chars = chars_of(key);
    let mut out = String::new();
    let mut k: usize = 0;
    assert(out@ =~= crypted(mode, message@, key@).take(0));
    for cm in it: message.chars()
        invariant
            it.seq() == message@,
            key_chars@ == key@,
            all_in_alphabet(key@),
            key@.len() > 0 ==> k == consumed(message@, it.index() as int) as int % key@.len() as int,
            out@ == crypted(mode, message@, key@).take(it.index() as int),
    {
        let ghost i = it.index() as int;
        let ghost used = consumed(message@, i);
        if key_chars.len() > 0 && cm >= ' ' && cm <= '~' {
            let ck: char = key_chars[k];
            let a: u8 = char_to_vigenere_num(cm);
            let b: u8 = char_to_vigenere_num(ck);
            let n: u8 = match mode {
                VigenereMode::Encrypt => a + b,
                VigenereMode::Decrypt => a + ALPHABET_SIZE - b,
            };
            out.push(vigenere_num_to_char(n));
            k = if k + 1 == key_chars.len() {
                0
            } else {
                k + 1
            };
            proof {
                lemma_next_cursor(used as int, key@.len() as int);
            }
        } else {
            out.push(cm);
        }
        assert(out@ =~= crypted(mode, message@, key@).take(i + 1));
    }
    assert(crypted(mode, message@, key@).take(message@.len() as int) =~= crypted(
        mode,
        message@,
        key@,
    ));
    out
}

/// The ciphertext of `message` under `key`.
///
/// A character of the alphabet with the number `m`, met when the key stands
/// at a character with the number `k`, becomes the character of `m + k`.
/// Characters outside the alphabet pass through and take no key character.
/// An empty key leaves the message unchanged.
pub fn vigenere_encrypt(message: &str, key: &str) -> (out: String)
    requires
        all_in_alphabet(key@),
    ensures
        out@ == encrypted(message@, key@),
        out@.len() == message@.len(),
{
    vigenere_crypt(message, key, VigenereMode::Encrypt)
}

/// The plaintext of `message` under `key`: the inverse of `vigenere_encrypt`.
///
/// A character of the alphabet with the number `m`, met when the key stands
/// at a character with the number `k`, becomes the character of
/// `m + 95 - k`. Characters outside the alphabet pass through and take no
/// key character. An empty key leaves the message unchanged.
pub fn vigenere_decrypt(message: &str, key: &str) -> (out: String)
    requires
        all_in_alphabet(key@),
    ensures
        out@ == decrypted(message@, key@),
        out@.len() == message@.len(),
{
    vigenere_crypt(message, key, VigenereMode::Decrypt)
}

} // verus!
