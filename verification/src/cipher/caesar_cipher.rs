//! The Caesar cipher: each letter is shifted by a fixed number of places
//! in the alphabet.

use vstd::prelude::*;
use crate::cipher::traits::CipherPuzzle;
use crate::cipher::util::{shift_char, spec_shift_char};
use crate::text::{push_char, str_chars};

verus! {

/// A Caesar cipher with a fixed shift in `0..26`.
pub struct Caesar {
    shift: u8,
}

/// Every character of `text` shifted by `amount`.
pub open spec fn shifted(text: Seq<char>, amount: u8) -> Seq<char> {
    text.map_values(|c: char| spec_shift_char(c, amount))
}

/// Shifts every character of `text` by `amount`.
fn shift_text(text: &str, amount: u8) -> (r: String)
    ensures
        r@ == shifted(text@, amount),
{
    let chars = str_chars(text);
    let mut out = String::new();
    let mut i: usize = 0;
    while i < chars.len()
        invariant
            chars@ == text@,
            0 <= i <= text@.len(),
            out@.len() == i,
            forall|j: int| 0 <= j < i ==> out@[j] == spec_shift_char(text@[j], amount),
        decreases text@.len() - i,
    {
        push_char(&mut out, shift_char(chars[i], amount));
        i = i + 1;
    }
    proof {
        assert(out@ =~= shifted(text@, amount));
    }
    out
}

impl Caesar {
    /// The stored shift is always reduced below the alphabet's length.
    #[verifier::type_invariant]
    spec fn inv(self) -> bool {
        self.shift < 26
    }

    /// The cipher's shift.
    pub closed spec fn spec_shift(self) -> u8 {
        self.shift
    }

    /// Creates a new Caesar cipher with the given shift, reduced to the
    /// alphabet's length.
    pub fn new(shift: u8) -> (c: Caesar)
        ensures
            c.spec_shift() == shift % 26,
    {
        Caesar { shift: shift % 26 }
    }
}

/// Shifting a letter forward by `k` and then by the complementary amount
/// returns it unchanged, as does the double shift on any non-letter.
pub proof fn lemma_shift_char_round_trip(ch: char, k: u8)
    requires
        k < 26,
    ensures
        spec_shift_char(spec_shift_char(ch, k), (26 - k) as u8) == ch,
{
}

/// A Caesar round trip is the identity: decrypting an encryption returns
/// the plaintext. Every constructed cipher has its shift below 26.
pub proof fn lemma_caesar_round_trip(c: Caesar, text: Seq<char>)
    requires
        c.spec_shift() < 26,
    ensures
        c.dec_spec(c.enc_spec(text)) == text,
{
    let k = c.spec_shift();
    assert forall|i: int| 0 <= i < text.len() implies c.dec_spec(c.enc_spec(text))[i]
        == text[i] by {
        lemma_shift_char_round_trip(text[i], k);
    }
    assert(c.dec_spec(c.enc_spec(text)) =~= text);
}

impl CipherPuzzle for Caesar {
    /// A Caesar cipher accepts any text.
    open spec fn cipher_req(&self, text: Seq<char>) -> bool {
        true
    }

    /// Encryption shifts every letter forward by the cipher's shift.
    open spec fn enc_spec(&self, plaintext: Seq<char>) -> Seq<char> {
        shifted(plaintext, self.spec_shift())
    }

    /// Decryption shifts every letter forward by the complementary
    /// amount, undoing the encryption shift.
    open spec fn dec_spec(&self, ciphertext: Seq<char>) -> Seq<char> {
        shifted(ciphertext, (26 - self.spec_shift()) as u8)
    }

    fn encrypt(&self, plaintext: &str) -> (r: String) {
        shift_text(plaintext, self.shift)
    }

    fn decrypt(&self, ciphertext: &str) -> (r: String) {
        proof {
            use_type_invariant(self);
        }
        shift_text(ciphertext, 26 - self.shift)
    }
}

} // verus!
