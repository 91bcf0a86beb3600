//! The Vigenere cipher: each letter is shifted by the next shift drawn,
//! cyclically, from a keyword; other characters pass through and do not
//! advance the keyword.

use vstd::prelude::*;
use crate::cipher::traits::CipherPuzzle;
use crate::cipher::util::{is_letter, is_upper};
use crate::text::{push_char, str_chars};

verus! {

/// The offset of an ASCII letter within its alphabet: 0 for 'A' or 'a',
/// up to 25 for 'Z' or 'z'.
pub open spec fn letter_offset(c: char) -> u8 {
    if is_upper(c) {
        ((c as int - 65) as u8)
    } else {
        ((c as int - 97) as u8)
    }
}

/// The per-letter shifts distilled from a keyword: one entry per ASCII
/// letter of the keyword, in order; other characters are dropped.
pub open spec fn key_of(s: Seq<char>) -> Seq<u8>
    decreases s.len(),
{
    if s.len() == 0 {
        Seq::empty()
    } else {
        key_of(s.drop_last()) + (if is_letter(s.last()) {
            seq![letter_offset(s.last())]
        } else {
            Seq::<u8>::empty()
        })
    }
}

/// One transformed letter: shifted forward by `key` when encrypting, or
/// back by `key` when decrypting, keeping its case.
pub open spec fn vig_char(c: char, key: u8, decrypt: bool) -> char {
    let base: int = if is_upper(c) {
        65
    } else {
        97
    };
    let offset = c as int - base;
    let shift = if decrypt {
        (26 + offset - key) % 26
    } else {
        (offset + key) % 26
    };
    ((base + shift) as char)
}

/// The transformed tail of `text` from position `i`, with `k` letters
/// already consumed from the cyclic key: letters are shifted by the next
/// key entry, everything else passes through unchanged.
pub open spec fn vig_from(text: Seq<char>, key: Seq<u8>, decrypt: bool, i: int, k: int) -> Seq<
    char,
>
    decreases text.len() - i,
{
    if i < 0 || i >= text.len() {
        Seq::empty()
    } else if is_letter(text[i]) {
        seq![vig_char(text[i], key[k % key.len() as int], decrypt)] + vig_from(
            text,
            key,
            decrypt,
            i + 1,
            k + 1,
        )
    } else {
        seq![text[i]] + vig_from(text, key, decrypt, i + 1, k)
    }
}

/// The whole of `text` transformed under the cyclic key.
pub open spec fn vig_transformed(text: Seq<char>, key: Seq<u8>, decrypt: bool) -> Seq<char> {
    vig_from(text, key, decrypt, 0, 0)
}

/// The inputs a key can transform: any text when the key is nonempty,
/// and only letterless text under an empty key (an empty keyword leaves
/// no shift to draw).
pub open spec fn vig_req(text: Seq<char>, key: Seq<u8>) -> bool {
    key.len() > 0 || (forall|i: int| 0 <= i < text.len() ==> !is_letter(text[i]))
}

/// The core transformation under a cyclic key of letter shifts.
fn vigenere_transform(text: &str, keyword: &Vec<u8>, decrypt: bool) -> (r: String)
    requires
        vig_req(text@, keyword@),
        forall|i: int| 0 <= i < keyword@.len() ==> keyword@[i] < 26,
    ensures
        r@ == vig_transformed(text@, keyword@, decrypt),
{
    let ghost key = keyword@;
    let chars = str_chars(text);
    let mut out = String::new();
    let mut key_index: usize = 0;
    let mut i: usize = 0;
    while i < chars.len()
        invariant
            chars@ == text@,
            vig_req(text@, key),
            key == keyword@,
            forall|j: int| 0 <= j < key.len() ==> key[j] < 26,
            0 <= i <= text@.len(),
            key_index <= i,
            vig_transformed(text@, key, decrypt) == out@ + vig_from(
                text@,
                key,
                decrypt,
                i as int,
                key_index as int,
            ),
        decreases text@.len() - i,
    {
        let c = chars[i];
        let v = c as u32;
        proof {
            vstd::utf8::char_is_scalar(c);
            vstd::utf8::char_u32_cast(c, v);
            assert(c == text@[i as int]);
        }
        let is_upper_c = 65 <= v && v <= 90;
        let is_lower_c = 97 <= v && v <= 122;
        if is_upper_c || is_lower_c {
            proof {
                assert(is_letter(text@[i as int]));
            }
            let base: u32 = if is_upper_c {
                65
            } else {
                97
            };
            let offset = v - base;
            assert(keyword@.len() > 0);
            let key_entry = keyword[key_index % keyword.len()];
            let shift: u32 = if decrypt {
                (26 + offset - key_entry as u32) % 26
            } else {
                (offset + key_entry as u32) % 26
            };
            let ghost prev = out@;
            push_char(&mut out, ((base + shift) as u8) as char);
            proof {
                assert(out@.last() == vig_char(c, key[key_index as int % key.len() as int], decrypt));
                assert(out@ + vig_from(text@, key, decrypt, i + 1, key_index + 1 as int)
                    =~= prev + vig_from(text@, key, decrypt, i as int, key_index as int));
            }
            key_index = key_index + 1;
        } else {
            let ghost prev = out@;
            push_char(&mut out, c);
            proof {
                assert(out@ + vig_from(text@, key, decrypt, i + 1, key_index as int) =~= prev
                    + vig_from(text@, key, decrypt, i as int, key_index as int));
            }
        }
        i = i + 1;
    }
    proof {
        assert(out@ =~= out@ + vig_from(text@, key, decrypt, i as int, key_index as int));
    }
    out
}

/// Transforming a letter leaves a letter of the same case, and shifting
/// it back by the same key entry restores it; non-letters pass through.
pub proof fn lemma_vig_char_round_trip(c: char, key: u8)
    requires
        is_letter(c),
    ensures
        is_letter(vig_char(c, key, false)),
        is_upper(vig_char(c, key, false)) == is_upper(c),
        vig_char(vig_char(c, key, false), key, true) == c,
{
}

/// Transforming a sequence from its second position onward is the same
/// as transforming its tail.
pub proof fn lemma_vig_from_shift(s: Seq<char>, key: Seq<u8>, decrypt: bool, i: int, k: int)
    requires
        0 <= i,
        s.len() >= 1,
    ensures
        vig_from(s, key, decrypt, i + 1, k) == vig_from(s.drop_first(), key, decrypt, i, k),
    decreases s.len() - i,
{
    if i + 1 < s.len() {
        assert(s[i + 1] == s.drop_first()[i]);
        if is_letter(s[i + 1]) {
            lemma_vig_from_shift(s, key, decrypt, i + 1, k + 1);
        } else {
            lemma_vig_from_shift(s, key, decrypt, i + 1, k);
        }
    }
}

/// Decrypting an encrypted tail, with the key offsets aligned, restores
/// the tail.
proof fn lemma_vig_round_trip_from(text: Seq<char>, key: Seq<u8>, i: int, k: int)
    requires
        0 <= i <= text.len(),
        0 <= k,
        vig_req(text, key),
    ensures
        vig_from(vig_from(text, key, false, i, k), key, true, 0, k) =~= text.subrange(
            i,
            text.len() as int,
        ),
    decreases text.len() - i,
{
    let enc = vig_from(text, key, false, i, k);
    if i == text.len() {
    } else if is_letter(text[i]) {
        assert(key.len() > 0);
        let entry = key[k % key.len() as int];
        let x = vig_char(text[i], entry, false);
        lemma_vig_char_round_trip(text[i], entry);
        let enc_tail = vig_from(text, key, false, i + 1, k + 1);
        assert(enc == seq![x] + enc_tail);
        assert(enc[0] == x);
        assert(is_letter(enc[0]));
        assert(vig_from(enc, key, true, 0, k) == seq![vig_char(x, entry, true)] + vig_from(
            enc,
            key,
            true,
            1,
            k + 1,
        ));
        lemma_vig_from_shift(enc, key, true, 0, k + 1);
        assert(enc.drop_first() =~= enc_tail);
        lemma_vig_round_trip_from(text, key, i + 1, k + 1);
        assert(seq![text[i]] + text.subrange(i + 1, text.len() as int) =~= text.subrange(
            i,
            text.len() as int,
        ));
    } else {
        let enc_tail = vig_from(text, key, false, i + 1, k);
        assert(enc == seq![text[i]] + enc_tail);
        assert(enc[0] == text[i]);
        assert(vig_from(enc, key, true, 0, k) == seq![text[i]] + vig_from(enc, key, true, 1, k));
        lemma_vig_from_shift(enc, key, true, 0, k);
        assert(enc.drop_first() =~= enc_tail);
        lemma_vig_round_trip_from(text, key, i + 1, k);
        assert(seq![text[i]] + text.subrange(i + 1, text.len() as int) =~= text.subrange(
            i,
            text.len() as int,
        ));
    }
}

/// A Vigenere round trip is the identity: decrypting an encryption
/// returns the plaintext, on every text the cipher accepts.
pub proof fn lemma_vigenere_round_trip(v: Vigenere, text: Seq<char>)
    requires
        v.cipher_req(text),
    ensures
        v.dec_spec(v.enc_spec(text)) == text,
{
    lemma_vig_round_trip_from(text, v.key(), 0, 0);
    assert(text.subrange(0, text.len() as int) =~= text);
}

/// A Vigenere cipher over the letter shifts of its keyword.
pub struct Vigenere {
    keyword: Vec<u8>,
}

impl Vigenere {
    /// Every stored shift is a letter offset, below 26.
    #[verifier::type_invariant]
    spec fn inv(self) -> bool {
        forall|i: int| 0 <= i < self.keyword@.len() ==> self.keyword@[i] < 26
    }

    /// The cipher's shifts, one per letter of its keyword.
    pub closed spec fn key(self) -> Seq<u8> {
        self.keyword@
    }

    /// Creates a new Vigenere cipher from a keyword: each ASCII letter
    /// contributes its alphabet offset, every other character is ignored.
    pub fn new(keyword: &str) -> (v: Vigenere)
        ensures
            v.key() == key_of(keyword@),
    {
        let chars = str_chars(keyword);
        let mut shifts: Vec<u8> = Vec::new();
        let mut i: usize = 0;
        while i < chars.len()
            invariant
                chars@ == keyword@,
                0 <= i <= keyword@.len(),
                shifts@ == key_of(keyword@.subrange(0, i as int)),
                forall|j: int| 0 <= j < shifts@.len() ==> shifts@[j] < 26,
            decreases keyword@.len() - i,
        {
            let c = chars[i];
            let v = c as u32;
            proof {
                vstd::utf8::char_is_scalar(c);
                vstd::utf8::char_u32_cast(c, v);
                assert(c == keyword@[i as int]);
            }
            if 65 <= v && v <= 90 {
                shifts.push((v - 65) as u8);
            } else if 97 <= v && v <= 122 {
                shifts.push((v - 97) as u8);
            }
            proof {
                let sub1 = keyword@.subrange(0, i + 1 as int);
                assert(sub1.drop_last() =~= keyword@.subrange(0, i as int));
                assert(sub1.last() == keyword@[i as int]);
                assert(shifts@ =~= key_of(sub1));
            }
            i = i + 1;
        }
        proof {
            assert(keyword@.subrange(0, keyword@.len() as int) =~= keyword@);
        }
        Vigenere { keyword: shifts }
    }
}

impl CipherPuzzle for Vigenere {
    /// Any text under a nonempty keyword; only letterless text when the
    /// keyword contributed no letters.
    open spec fn cipher_req(&self, text: Seq<char>) -> bool {
        vig_req(text, self.key())
    }

    /// Encryption shifts each letter forward by the next cyclic key
    /// entry.
    open spec fn enc_spec(&self, plaintext: Seq<char>) -> Seq<char> {
        vig_transformed(plaintext, self.key(), false)
    }

    /// Decryption shifts each letter back by the next cyclic key entry.
    open spec fn dec_spec(&self, ciphertext: Seq<char>) -> Seq<char> {
        vig_transformed(ciphertext, self.key(), true)
    }

    fn encrypt(&self, plaintext: &str) -> (r: String) {
        proof {
            use_type_invariant(self);
        }
        vigenere_transform(plaintext, &self.keyword, false)
    }

    fn decrypt(&self, ciphertext: &str) -> (r: String) {
        proof {
            use_type_invariant(self);
        }
        vigenere_transform(ciphertext, &self.keyword, true)
    }
}

} // verus!
