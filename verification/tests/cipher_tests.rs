use puzzle_engine::cipher::{Caesar, CipherPuzzle, Vigenere};

#[test]
fn caesar_encrypts_correctly() {
    let c = Caesar::new(3);
    let plain = "Hello, World!";
    let expected = "Khoor, Zruog!";
    let encrypted = c.encrypt(plain);
    assert_eq!(encrypted, expected);
}

#[test]
fn caesar_upper_with_wrap_encrypts_correctly() {
    let c = Caesar::new(3);
    let plain = "ABCDEFGHIJKLMNOPQRSTUVWXYZ";
    let expected = "DEFGHIJKLMNOPQRSTUVWXYZABC";
    let encrypted = c.encrypt(plain);
    assert_eq!(encrypted, expected);
}

#[test]
fn caesar_lower_with_wrap_encrypts_correctly() {
    let c = Caesar::new(3);
    let plain = "abcdefghijklmnopqrstuvwxyz";
    let expected = "defghijklmnopqrstuvwxyzabc";
    let encrypted = c.encrypt(plain);
    assert_eq!(encrypted, expected);
}

#[test]
fn caesar_encrypt_decrypt() {
    let c = Caesar::new(3);
    let plain = "Hello, World!";
    let encrypted = c.encrypt(plain);
    let decrypted = c.decrypt(&encrypted);
    assert_eq!(decrypted, plain);
}

#[test]
fn vigenere_encrypt_upper_key_encrypts_correctly() {
    let v = Vigenere::new("AAAAAAAAAAAAAAAAAAAAAAAAAA");
    let plain = "ABCDEFGHIJKLMNOPQRSTUVWXYZ";
    let expected = "ABCDEFGHIJKLMNOPQRSTUVWXYZ";
    let encrypted = v.encrypt(plain);
    assert_eq!(expected, encrypted);
}

#[test]
fn vigenere_encrypt_key_longer_than_message_encrypts_correctly() {
    let v = Vigenere::new("aaaaaaaaaaaaaaaaaaaaaaaaaaaaaaaaaaaaaaaaaaaa");
    let plain = "ABCDEFGHIJKLMNOPQRSTUVWXYZ";
    let expected = "ABCDEFGHIJKLMNOPQRSTUVWXYZ";
    let encrypted = v.encrypt(plain);
    assert_eq!(expected, encrypted);
}

#[test]
fn vigenere_encrypt_key_shorter_than_message_encrypts_correctly() {
    let v = Vigenere::new("b");
    let plain = "ABCDEFGHIJKLMNOPQRSTUVWXYZ";
    let expected = "BCDEFGHIJKLMNOPQRSTUVWXYZA";
    let encrypted = v.encrypt(plain);
    assert_eq!(expected, encrypted);
}

#[test]
fn vigenere_encrypt_decrypt() {
    let v = Vigenere::new("KEY");
    let plain = "Attack at dawn!";
    let encrypted = v.encrypt(plain);
    let decrypted = v.decrypt(&encrypted);
    assert_eq!(decrypted, plain);
}

#[test]
fn caesar_zero_shift_is_identity() {
    let c = Caesar::new(0);
    let plain = "Nothing changes: 123!";
    assert_eq!(c.encrypt(plain), plain);
    assert_eq!(c.decrypt(plain), plain);
}

#[test]
fn caesar_shift_reduces_modulo_alphabet() {
    let c = Caesar::new(29);
    // 29 % 26 == 3: same as a shift by 3
    assert_eq!(c.encrypt("ABC"), "DEF");
}

#[test]
fn caesar_validate_solution_ignores_case() {
    let c = Caesar::new(1);
    let ciphertext = c.encrypt("Secret");
    assert!(c.validate_solution(&ciphertext, "sEcReT"));
    assert!(!c.validate_solution(&ciphertext, "wrong"));
    assert!(!c.validate_solution(&ciphertext, "Secret!"));
}

#[test]
fn vigenere_mixed_case_and_symbols_round_trip() {
    let v = Vigenere::new("Lemon");
    let plain = "Attack At Dawn -- 05:00!";
    let encrypted = v.encrypt(plain);
    assert_eq!(v.decrypt(&encrypted), plain);
}

#[test]
fn vigenere_known_example_encrypts_correctly() {
    let v = Vigenere::new("LEMON");
    assert_eq!(v.encrypt("ATTACKATDAWN"), "LXFOPVEFRNHR");
}

#[test]
fn vigenere_keyword_ignores_non_letters() {
    let with_digits = Vigenere::new("K3E-Y!");
    let plain_key = Vigenere::new("KEY");
    let msg = "HIDDEN";
    assert_eq!(with_digits.encrypt(msg), plain_key.encrypt(msg));
}

#[test]
fn vigenere_empty_keyword_passes_non_letters_through() {
    let v = Vigenere::new("");
    let text = "123 -- 456!";
    assert_eq!(v.encrypt(text), text);
    assert_eq!(v.decrypt(text), text);
}

#[test]
fn vigenere_validate_solution_ignores_case() {
    let v = Vigenere::new("KEY");
    let ciphertext = v.encrypt("Attack at dawn!");
    assert!(v.validate_solution(&ciphertext, "ATTACK AT DAWN!"));
    assert!(!v.validate_solution(&ciphertext, "retreat at dawn!"));
}
