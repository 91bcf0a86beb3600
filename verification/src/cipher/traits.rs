//! The common interface of the cipher puzzles.

use vstd::prelude::*;
use crate::cipher::util::is_upper;
use crate::text::str_chars;

verus! {

/// `c` with an ASCII upper-case letter folded to lower case.
pub open spec fn fold_char(c: char) -> char {
    if is_upper(c) {
        ((c as int + 32) as char)
    } else {
        c
    }
}

/// The two character sequences are equal up to ASCII case.
pub open spec fn eq_ignore_case(a: Seq<char>, b: Seq<char>) -> bool {
    a.len() == b.len() && forall|i: int| 0 <= i < a.len() ==> fold_char(a[i]) == fold_char(b[i])
}

/// Whether two strings are equal up to ASCII case.
pub fn eq_ignore_ascii_case_str(a: &str, b: &str) -> (r: bool)
    ensures
        r == eq_ignore_case(a@, b@),
{
    let av = str_chars(a);
    let bv = str_chars(b);
    if av.len() != bv.len() {
        return false;
    }
    let mut i: usize = 0;
    while i < av.len()
        invariant
            av@ == a@,
            bv@ == b@,
            a@.len() == b@.len(),
            0 <= i <= a@.len(),
            forall|j: int| 0 <= j < i ==> fold_char(a@[j]) == fold_char(b@[j]),
        decreases av@.len() - i,
    {
        let ca = av[i];
        let cb = bv[i];
        let fa = if 'A' <= ca && ca <= 'Z' {
            (((ca as u32) + 32) as u8) as char
        } else {
            ca
        };
        let fb = if 'A' <= cb && cb <= 'Z' {
            (((cb as u32) + 32) as u8) as char
        } else {
            cb
        };
        if fa != fb {
            return false;
        }
        i = i + 1;
    }
    true
}

/// A cipher puzzle: it encrypts and decrypts text, and can check a
/// guessed solution against a ciphertext up to ASCII case.
pub trait CipherPuzzle: Sized {
    /// The inputs the cipher accepts.
    spec fn cipher_req(&self, text: Seq<char>) -> bool;

    /// What encryption produces for a given plaintext.
    spec fn enc_spec(&self, plaintext: Seq<char>) -> Seq<char>;

    /// What decryption produces for a given ciphertext.
    spec fn dec_spec(&self, ciphertext: Seq<char>) -> Seq<char>;

    /// Encrypts the given plaintext.
    fn encrypt(&self, plaintext: &str) -> (r: String)
        requires
            self.cipher_req(plaintext@),
        ensures
            r@ == self.enc_spec(plaintext@),
    ;

    /// Decrypts the given ciphertext.
    fn decrypt(&self, ciphertext: &str) -> (r: String)
        requires
            self.cipher_req(ciphertext@),
        ensures
            r@ == self.dec_spec(ciphertext@),
    ;

    /// Checks whether a guess correctly decrypts the ciphertext, up to
    /// ASCII case.
    fn validate_solution(&self, ciphertext: &str, guess: &str) -> (r: bool)
        requires
            self.cipher_req(ciphertext@),
        ensures
            r == eq_ignore_case(self.dec_spec(ciphertext@), guess@),
    {
        let decrypted = self.decrypt(ciphertext);
        eq_ignore_ascii_case_str(decrypted.as_str(), guess)
    }
}

} // verus!
