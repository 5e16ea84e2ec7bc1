//! A Vigenère cipher over the 95 printable ASCII characters, together with a
//! Kasiski examination that estimates the length of the key from a ciphertext.
//!
//! Every executable function carries a contract over the mathematical models
//! defined next to it: a text is a `Seq<char>`, a set of candidate key lengths
//! is a `Set<nat>`, and a table of repeated fragments is a `Seq` of rows.

pub mod cipher_laws;
pub mod divisibility;
pub mod fragment_laws;
pub mod fragments;
pub mod kasiski;
pub mod kasiski_laws;
pub mod ranking;
pub mod sorted_set;
pub mod strings;
pub mod vigenere;
