//! What holds of the cipher for every message and key.

use crate::vigenere::{
    all_in_alphabet, char_num, consumed, crypt_char, crypted, decrypted, encrypted, in_alphabet,
    key_char, key_stream, num_char, VigenereMode,
};
use vstd::prelude::*;

verus! {

/// A character of the alphabet becomes a character of the alphabet, and
/// applying the cipher in the other direction with the same key character
/// gives the first character back.
pub proof fn lemma_char_round_trip(cm: char, ck: char)
    requires
        in_alphabet(cm),
        in_alphabet(ck),
    ensures
        in_alphabet(crypt_char(VigenereMode::Encrypt, cm, ck)),
        in_alphabet(crypt_char(VigenereMode::Decrypt, cm, ck)),
        crypt_char(VigenereMode::Decrypt, crypt_char(VigenereMode::Encrypt, cm, ck), ck) == cm,
        crypt_char(VigenereMode::Encrypt, crypt_char(VigenereMode::Decrypt, cm, ck), ck) == cm,
{
    let a = char_num(cm);
    let b = char_num(ck);
    lemma_num_char(a + b);
    lemma_num_char(a + 95 - b);
    let e = residue(a + b);
    let d = residue(a + 95 - b);
    lemma_num_char(e + 95 - b);
    lemma_num_char(d + b);
    lemma_residue_inverse(a, b);
}

/// The remainder by 95 of a number below four times 95.
proof fn lemma_remainder_by_95(x: int)
    requires
        0 <= x < 380,
    ensures
        x % 95 == if x < 95 {
            x
        } else if x < 190 {
            x - 95
        } else if x < 285 {
            x - 190
        } else {
            x - 285
        },
{
    let k: int = if x < 95 {
        0
    } else if x < 190 {
        1
    } else if x < 285 {
        2
    } else {
        3
    };
    vstd::arithmetic::div_mod::lemma_fundamental_div_mod_converse(x, 95, k, x - 95 * k);
}

/// Adding a number and taking it away again, each time up to a multiple of
/// 95, leads back to where one started.
proof fn lemma_residue_inverse(a: int, b: int)
    requires
        1 <= a <= 95,
        1 <= b <= 95,
    ensures
        residue(residue(a + b) + 95 - b) == a,
        residue(residue(a + 95 - b) + b) == a,
{
    lemma_remainder_by_95(a + b);
    lemma_remainder_by_95(a + 95 - b);
    let e = residue(a + b);
    let d = residue(a + 95 - b);
    lemma_remainder_by_95(e + 95 - b);
    lemma_remainder_by_95(d + b);
}

/// The number from 1 to 95 that has the same remainder by 95 as `n`.
pub open spec fn residue(n: int) -> int {
    if n % 95 == 0 {
        95
    } else {
        n % 95
    }
}

/// The character of a number belongs to the alphabet, and its own number is
/// the residue of that number.
pub proof fn lemma_num_char(n: int)
    ensures
        in_alphabet(num_char(n)),
        char_num(num_char(n)) == residue(n),
        1 <= residue(n) <= 95,
{
    let r = n % 95;
    assert(0 <= r < 95) by {
        vstd::arithmetic::div_mod::lemma_mod_bound(n, 95);
    }
    if r != 0 {
        let code = r + 0x1F;
        assert(0x20 <= code <= 0x7E);
        assert((code as char) as int == code);
    }
}

/// The cipher changes neither the length of a message nor which of its
/// characters belong to the alphabet, so the key stands at the same
/// character at every position of the message and of the result.
pub proof fn lemma_crypt_keeps_alphabet(
    mode: VigenereMode,
    msg: Seq<char>,
    key: Seq<char>,
    i: int,
)
    requires
        all_in_alphabet(key),
        0 <= i <= msg.len(),
    ensures
        crypted(mode, msg, key).len() == msg.len(),
        forall|j: int|
            0 <= j < msg.len() ==> in_alphabet(#[trigger] crypted(mode, msg, key)[j])
                == in_alphabet(msg[j]),
        consumed(crypted(mode, msg, key), i) == consumed(msg, i),
    decreases i,
{
    let out = crypted(mode, msg, key);
    assert forall|j: int| 0 <= j < msg.len() implies in_alphabet(#[trigger] out[j]) == in_alphabet(
        msg[j],
    ) by {
        if key.len() > 0 && in_alphabet(msg[j]) {
            let ck = key_char(key, consumed(msg, j));
            assert(in_alphabet(ck));
            lemma_char_round_trip(msg[j], ck);
        }
    }
    if i > 0 {
        lemma_crypt_keeps_alphabet(mode, msg, key, i - 1);
    }
}

/// Decrypting what was encrypted with the same key gives the message back,
/// whatever the message holds; and so does encrypting what was decrypted.
pub proof fn lemma_round_trip(msg: Seq<char>, key: Seq<char>)
    requires
        all_in_alphabet(key),
    ensures
        decrypted(encrypted(msg, key), key) == msg,
        encrypted(decrypted(msg, key), key) == msg,
{
    if key.len() > 0 {
        let enc = encrypted(msg, key);
        let dec = decrypted(msg, key);
        assert forall|i: int| 0 <= i < msg.len() implies decrypted(enc, key)[i] == msg[i]
            && encrypted(dec, key)[i] == msg[i] by {
            lemma_crypt_keeps_alphabet(VigenereMode::Encrypt, msg, key, i);
            lemma_crypt_keeps_alphabet(VigenereMode::Decrypt, msg, key, i);
            if in_alphabet(msg[i]) {
                let ck = key_char(key, consumed(msg, i));
                assert(in_alphabet(ck));
                lemma_char_round_trip(msg[i], ck);
            }
        }
        lemma_crypt_keeps_alphabet(VigenereMode::Encrypt, msg, key, 0);
        lemma_crypt_keeps_alphabet(VigenereMode::Decrypt, msg, key, 0);
        assert(decrypted(enc, key) =~= msg);
        assert(encrypted(dec, key) =~= msg);
    }
}

/// A character outside the alphabet, put into a message, uses up no key
/// character: the count of used key characters is the same as without it.
proof fn lemma_consumed_with_insert(before: Seq<char>, c: char, after: Seq<char>, i: int)
    requires
        !in_alphabet(c),
        0 <= i <= before.len() + after.len(),
    ensures
        i <= before.len() ==> consumed(before + seq![c] + after, i) == consumed(before + after, i),
        i >= before.len() ==> consumed(before + seq![c] + after, i + 1) == consumed(
            before + after,
            i,
        ),
    decreases i,
{
    let with = before + seq![c] + after;
    let without = before + after;
    if i > 0 {
        lemma_consumed_with_insert(before, c, after, i - 1);
        if i <= before.len() {
            assert(with[i - 1] == without[i - 1]);
        } else {
            assert(with[i] == without[i - 1]);
        }
    }
    if i == before.len() {
        assert(with[i] == c);
    }
}

/// A character outside the alphabet passes through the cipher unchanged, at
/// its position, and the rest of the message comes out as if the character
/// were not there.
pub proof fn lemma_pass_through(
    mode: VigenereMode,
    before: Seq<char>,
    c: char,
    after: Seq<char>,
    key: Seq<char>,
)
    requires
        !in_alphabet(c),
    ensures
        crypted(mode, before + seq![c] + after, key) == crypted(mode, before + after, key).take(
            before.len() as int,
        ) + seq![c] + crypted(mode, before + after, key).skip(before.len() as int),
{
    let with = before + seq![c] + after;
    let without = before + after;
    let n = before.len() as int;
    let left = crypted(mode, with, key);
    let right = crypted(mode, without, key).take(n) + seq![c] + crypted(mode, without, key).skip(n);
    assert(left.len() == right.len());
    assert forall|i: int| 0 <= i < left.len() implies left[i] == right[i] by {
        if i < n {
            lemma_consumed_with_insert(before, c, after, i);
            assert(with[i] == without[i]);
        } else if i == n {
            assert(with[i] == c);
        } else {
            lemma_consumed_with_insert(before, c, after, i - 1);
            assert(with[i] == without[i - 1]);
        }
    }
    assert(left =~= right);
}

/// The key repeated to any length that covers the message does the work of
/// the key itself: no more key characters are used than the message has
/// characters.
pub proof fn lemma_resized_key(mode: VigenereMode, msg: Seq<char>, key: Seq<char>, len: nat)
    requires
        len >= msg.len(),
    ensures
        crypted(mode, msg, key_stream(key, len)) == crypted(mode, msg, key),
{
    let stream = key_stream(key, len);
    if key.len() > 0 && len > 0 {
        assert forall|i: int| 0 <= i < msg.len() implies crypted(mode, msg, stream)[i] == crypted(
            mode,
            msg,
            key,
        )[i] by {
            lemma_consumed_at_most(msg, i);
            let used = consumed(msg, i);
            vstd::arithmetic::div_mod::lemma_small_mod(used, len);
        }
        assert(crypted(mode, msg, stream) =~= crypted(mode, msg, key));
    } else {
        assert(crypted(mode, msg, stream) =~= crypted(mode, msg, key));
    }
}

/// The first `i` characters use up at most `i` key characters.
pub proof fn lemma_consumed_at_most(msg: Seq<char>, i: int)
    requires
        0 <= i,
    ensures
        consumed(msg, i) <= i,
    decreases i,
{
    if i > 0 {
        lemma_consumed_at_most(msg, i - 1);
    }
}

} // verus!
