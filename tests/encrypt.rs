use enigma::catalog::rotor_wiring;
use enigma::machine::{create_config, encrypt_u8, step, world, Rotor};
use enigma::permutation::{CipherError, Permutation};
use enigma::text::{chr, encrypt, input_to_u8, ord, str_to_vec8, str_to_vec8_rev};

fn test_one(plaintext: &str, ciphertext: &str, rotor_config: &Vec<u8>, key: &str, rings: &str) {
    let computed_ciphertext = encrypt(plaintext, rotor_config, key, rings).unwrap();
    let computed_plaintext = encrypt(ciphertext, rotor_config, key, rings).unwrap();
    assert_eq!(computed_plaintext, plaintext);
    assert_eq!(computed_ciphertext, ciphertext);
}

#[test]
fn encrypt_tests() {
    test_one(
        "QUEJAIMEAFAIREAPPRENDREUNNOMBREUTILEAUXSAGESIMMORTELARCHIMEDEARTISTEINGENIEURQUIDETONJUGEMENTPEUTPRISERLAVALEURPOURMOITONPROBLEMEEUTDEPAREILSAVANTAGES",
        "UBTSGAGKIOJYHNNGYGWDIEXLIQQHDVALZBFLTKVPIDHNHPETEHGGEEKDCCGBSWDQJGYFPUDHIVBWNLTJHPJPTMHJYFPKSYUBUOPOTFHSJJBFCVUJVJWSMDJVQCZKEMBYLBJFIZRDZFCIQORVGBOBIT",
        &vec![0u8, 1, 2],
        "AAA",
        "AAA",
    );
    test_one("HELLOWORLD", "CDMOGOSHXC", &vec![0u8, 1, 2], "LMZ", "AAA");
}

#[test]
fn known_vector_and_its_reverse() {
    let c = encrypt("HELLOWORLD", &vec![0u8, 1, 2], "LMZ", "AAA").unwrap();
    assert_eq!(c, "CDMOGOSHXC");
    let p = encrypt(&c, &vec![0u8, 1, 2], "LMZ", "AAA").unwrap();
    assert_eq!(p, "HELLOWORLD");
}

#[test]
fn involution_with_rings_and_other_rotors() {
    let text = "THEQUICKBROWNFOXJUMPSOVERTHELAZYDOG";
    let c = encrypt(text, &vec![3u8, 0, 4], "QEV", "BXK").unwrap();
    assert_ne!(c, text);
    assert_eq!(encrypt(&c, &vec![3u8, 0, 4], "QEV", "BXK").unwrap(), text);
}

#[test]
fn lower_case_input_gives_upper_case_output() {
    let lower = encrypt("helloworld", &vec![0u8, 1, 2], "lmz", "aaa").unwrap();
    assert_eq!(lower, "CDMOGOSHXC");
}

#[test]
fn non_letters_pass_through_without_stepping() {
    let c = encrypt("HELLO, WORLD!", &vec![0u8, 1, 2], "LMZ", "AAA").unwrap();
    assert_eq!(c, "CDMOG, OSHXC!");
    let p = encrypt(&c, &vec![0u8, 1, 2], "LMZ", "AAA").unwrap();
    assert_eq!(p, "HELLO, WORLD!");
}

#[test]
fn empty_text_encrypts_to_empty() {
    assert_eq!(encrypt("", &vec![0u8, 1, 2], "AAA", "AAA").unwrap(), "");
}

#[test]
fn a_letter_never_encrypts_to_itself() {
    let c = encrypt("AAAAAAAAAAAAAAAAAAAAAAAAAA", &vec![0u8, 1, 2], "AAA", "AAA").unwrap();
    for ch in c.chars() {
        assert_ne!(ch, 'A');
    }
}

#[test]
fn key_of_wrong_length_is_refused() {
    assert_eq!(encrypt("HELLO", &vec![0u8, 1, 2], "AA", "AAA"), Err(CipherError::InvalidKeyLength));
    assert_eq!(encrypt("HELLO", &vec![0u8, 1, 2], "AAAA", "AAA"), Err(CipherError::InvalidKeyLength));
    assert_eq!(encrypt("HELLO", &vec![0u8, 1, 2], "A1A", "AAA"), Err(CipherError::InvalidKeyLength));
}

#[test]
fn rings_of_wrong_length_are_refused() {
    assert_eq!(encrypt("HELLO", &vec![0u8, 1, 2], "AAA", "AA"), Err(CipherError::InvalidRingLength));
    assert_eq!(encrypt("HELLO", &vec![0u8, 1, 2], "AAA", "A-A"), Err(CipherError::InvalidRingLength));
    assert_eq!(encrypt("HELLO", &vec![0u8, 1, 2], "AA", "AA"), Err(CipherError::InvalidKeyLength));
}

#[test]
fn encrypt_u8_matches_encrypt() {
    let w = world();
    let input = input_to_u8("HELLOWORLD");
    let out = encrypt_u8(&w, &input, &vec![0u8, 1, 2], &vec![11u8, 12, 25], &vec![0u8, 0, 0]);
    let text: String = out.iter().map(|&v| chr(v)).collect();
    assert_eq!(text, "CDMOGOSHXC");
}

#[test]
fn ring_setting_changes_output() {
    let a = encrypt("HELLOWORLD", &vec![0u8, 1, 2], "LMZ", "AAA").unwrap();
    let b = encrypt("HELLOWORLD", &vec![0u8, 1, 2], "LMZ", "ABA").unwrap();
    assert_ne!(a, b);
}

#[test]
fn letters_and_indices() {
    assert_eq!(ord('a'), Some(0));
    assert_eq!(ord('Z'), Some(25));
    assert_eq!(ord('m'), Some(12));
    assert_eq!(ord('!'), None);
    assert_eq!(chr(0), 'A');
    assert_eq!(chr(25), 'Z');
    assert_eq!(chr(26), '?');
    assert_eq!(str_to_vec8("LMZ"), Some(vec![11u8, 12, 25]));
    assert_eq!(str_to_vec8_rev("LMZ"), Some(vec![25u8, 12, 11]));
    assert_eq!(str_to_vec8("L Z"), None);
    assert_eq!(input_to_u8("a-B c!"), vec![0u8, 1, 2]);
}

#[test]
fn double_stepping_moves_the_middle_rotor_twice() {
    let w = world();
    let rings = vec![0u8, 0, 0];
    let config = create_config(&w, &vec![0u8, 1, 2], &rings);
    // positions fastest first: rotor 0 turns over at Q (16), rotor 1 at E (4)
    let mut state = vec![15u8, 3, 0];
    step(&mut state, &config);
    assert_eq!(state, vec![16u8, 3, 0]);
    step(&mut state, &config);
    assert_eq!(state, vec![17u8, 4, 0]);
    step(&mut state, &config);
    assert_eq!(state, vec![18u8, 5, 1]);
    step(&mut state, &config);
    assert_eq!(state, vec![19u8, 5, 1]);
}

#[test]
fn odometer_stepping_has_no_anomaly() {
    let w = world();
    let rings = vec![0u8, 0, 0];
    let mut config = create_config(&w, &vec![0u8, 1, 2], &rings);
    config.set_double_stepping(false);
    let mut state = vec![16u8, 3, 0];
    step(&mut state, &config);
    assert_eq!(state, vec![17u8, 4, 0]);
    step(&mut state, &config);
    assert_eq!(state, vec![18u8, 4, 0]);
    let mut carried = vec![16u8, 4, 0];
    step(&mut carried, &config);
    assert_eq!(carried, vec![17u8, 5, 1]);
    let mut wraps = vec![25u8, 25, 25];
    step(&mut wraps, &config);
    assert_eq!(wraps, vec![0u8, 25, 25]);
}

#[test]
fn stepping_wraps_around() {
    let w = world();
    let rings = vec![0u8, 0, 0];
    let config = create_config(&w, &vec![4u8, 3, 2], &rings);
    // rotor 4 turns over at Z (25)
    let mut state = vec![25u8, 0, 0];
    step(&mut state, &config);
    assert_eq!(state, vec![0u8, 1, 0]);
}

#[test]
fn a_rotor_may_carry_two_notches() {
    let rotor = Rotor { wiring: Permutation::build(rotor_wiring(2)).unwrap(), notches: vec![12u8, 25] };
    assert!(rotor.at_notch(12));
    assert!(rotor.at_notch(25));
    assert!(!rotor.at_notch(0));
}
