use enigma::cryptanalysis::{brute_force, brute_force_rotors_and_key, refine_rings, BestK, Candidate, Product};
use enigma::machine::{encrypt_u8, world};
use enigma::quadgram::{score, QuadgramTable};
use enigma::text::{encrypt, input_to_u8};

fn window(t: &[u8]) -> usize {
    ((t[0] as usize * 26 + t[1] as usize) * 26 + t[2] as usize) * 26 + t[3] as usize
}

fn table_favouring(text: &str, weight: i32) -> QuadgramTable {
    let mut weights = vec![0i32; 456976];
    let letters = input_to_u8(text);
    for i in 0..letters.len().saturating_sub(3) {
        weights[window(&letters[i..i + 4])] = weight;
    }
    QuadgramTable::new(weights).unwrap()
}

fn candidate(score: i128, k: u8) -> Candidate {
    Candidate { score, key: vec![k, k, k], rotor_config: vec![0, 1, 2] }
}

#[test]
fn product_enumerates_in_lexicographic_order() {
    let mut p = Product::new(2, 2);
    assert_eq!(p.next(), Some(vec![0usize, 0]));
    assert_eq!(p.next(), Some(vec![0usize, 1]));
    assert_eq!(p.next(), Some(vec![1usize, 0]));
    assert_eq!(p.next(), Some(vec![1usize, 1]));
    assert_eq!(p.next(), None);
    assert_eq!(p.next(), None);
}

#[test]
fn product_counts_every_tuple() {
    let mut p = Product::new(5, 3);
    let mut n = 0;
    let mut last = None;
    while let Some(t) = p.next() {
        n += 1;
        last = Some(t);
    }
    assert_eq!(n, 125);
    assert_eq!(last, Some(vec![4usize, 4, 4]));
}

#[test]
fn table_needs_one_weight_per_window() {
    assert!(QuadgramTable::new(vec![0i32; 10]).is_none());
    assert!(QuadgramTable::new(vec![0i32; 456976]).is_some());
}

#[test]
fn score_sums_every_window() {
    let mut weights = vec![0i32; 456976];
    weights[window(&[0, 1, 2, 3])] = 7;
    weights[window(&[1, 2, 3, 4])] = -2;
    let table = QuadgramTable::new(weights).unwrap();
    assert_eq!(score(&table, &vec![0u8, 1, 2, 3, 4]), 5);
    assert_eq!(score(&table, &vec![0u8, 1, 2, 3, 0, 1, 2, 3]), 14);
    // values that are not letters are dropped before windows are taken
    assert_eq!(score(&table, &vec![0u8, 1, 200, 2, 3]), 7);
}

#[test]
fn short_texts_score_zero() {
    let table = QuadgramTable::new(vec![9i32; 456976]).unwrap();
    assert_eq!(score(&table, &vec![]), 0);
    assert_eq!(score(&table, &vec![1u8, 2, 3]), 0);
    assert_eq!(score(&table, &vec![1u8, 2, 3, 4]), 9);
}

#[test]
fn score_is_repeatable() {
    let table = table_favouring("HELLOWORLD", 100);
    let t = input_to_u8("HELLOWORLD");
    let a = score(&table, &t);
    let b = score(&table, &t);
    assert_eq!(a, b);
    assert_eq!(a, 700);
}

#[test]
fn best_k_keeps_the_best() {
    let mut b = BestK::new(2);
    b.insert(candidate(5, 0));
    b.insert(candidate(3, 1));
    assert_eq!(b.len(), 2);
    assert_eq!(b.get_worst(), Some(1));
    b.insert(candidate(3, 2));
    assert_eq!(b.get(1).key, vec![1u8, 1, 1]);
    b.insert(candidate(9, 3));
    assert_eq!(b.len(), 2);
    assert_eq!(b.get(1).score, 9);
    b.insert(candidate(1, 4));
    let kept: Vec<i128> = (0..b.len()).map(|i| b.get(i).score).collect();
    assert_eq!(kept, vec![5, 9]);
    assert_eq!(b.best_first(), vec![1usize, 0]);
}

#[test]
fn best_k_ranks_equal_scores_in_slot_order() {
    let mut b = BestK::new(4);
    b.insert(candidate(2, 0));
    b.insert(candidate(7, 1));
    b.insert(candidate(2, 2));
    b.insert(candidate(7, 3));
    assert_eq!(b.best_first(), vec![1usize, 3, 0, 2]);
    assert_eq!(b.get_worst(), Some(0));
}

#[test]
fn empty_ciphertext_has_no_solution() {
    let table = QuadgramTable::new(vec![0i32; 456976]).unwrap();
    assert!(brute_force(&table, "").is_none());
    assert!(brute_force(&table, "12 -- !").is_none());
}

#[test]
fn first_phase_keeps_a_hundred() {
    let w = world();
    let table = table_favouring("ATTACK", 50);
    let cipher = input_to_u8(&encrypt("ATTACK", &vec![2u8, 0, 1], "BCD", "AAA").unwrap());
    let best = brute_force_rotors_and_key(&w, &table, &cipher, &vec![0u8, 0, 0]);
    assert_eq!(best.len(), 100);
    let mut top = 0;
    for i in 0..best.len() {
        let c = best.get(i);
        let plain = encrypt_u8(&w, &cipher, &c.rotor_config, &c.key, &vec![0u8, 0, 0]);
        assert_eq!(score(&table, &plain), c.score);
        top = top.max(c.score);
    }
    assert!(top >= 150);
    let lowest = (0..best.len()).map(|i| best.get(i).score).min().unwrap();
    for order in [vec![0u8, 1, 2], vec![2u8, 0, 1], vec![4u8, 3, 1]] {
        for key in [vec![0u8, 0, 0], vec![1u8, 2, 3], vec![25u8, 25, 25], vec![7u8, 19, 4]] {
            let kept = (0..best.len()).any(|i| best.get(i).rotor_config == order && best.get(i).key == key);
            if !kept {
                let plain = encrypt_u8(&w, &cipher, &order, &key, &vec![0u8, 0, 0]);
                assert!(score(&table, &plain) <= lowest);
            }
        }
    }
}

#[test]
fn search_finds_a_decryption_at_least_as_good_as_the_truth() {
    let plain = "ATTACKATDAWN";
    let table = table_favouring(plain, 100);
    let cipher = encrypt(plain, &vec![1u8, 2, 0], "KEY", "AAA").unwrap();
    let truth = score(&table, &input_to_u8(plain));
    let sol = brute_force(&table, &cipher).unwrap();
    assert!(sol.score >= truth);
    let again = encrypt(&cipher, &sol.rotor_config, &sol.key, &sol.rings).unwrap();
    assert_eq!(again, sol.plaintext);
    assert_eq!(score(&table, &input_to_u8(&again)), sol.score);
}

#[test]
fn second_phase_on_nothing_gives_nothing() {
    let w = world();
    let table = QuadgramTable::new(vec![0i32; 456976]).unwrap();
    let best = BestK::new(3);
    assert!(refine_rings(&w, &table, &vec![1u8, 2, 3, 4], &best).is_none());
}

#[test]
fn second_phase_finds_the_ring_setting() {
    let w = world();
    let plain = "WEATHERREPORT";
    let table = table_favouring(plain, 10);
    // key BCD moved on by rings ABC is key BDF
    let cipher = input_to_u8(&encrypt(plain, &vec![0u8, 1, 2], "BDF", "ABC").unwrap());
    let mut best = BestK::new(1);
    best.insert(Candidate { score: 0, key: vec![1u8, 2, 3], rotor_config: vec![0u8, 1, 2] });
    let found = refine_rings(&w, &table, &cipher, &best).unwrap();
    assert_eq!(found.score, 100);
    assert_eq!(found.rotor_config, vec![0u8, 1, 2]);
    let plain_back = encrypt_u8(&w, &cipher, &found.rotor_config, &found.key, &found.rings);
    assert_eq!(score(&table, &plain_back), found.score);
}

#[test]
fn second_phase_keeps_the_first_of_equal_trials() {
    let w = world();
    let table = QuadgramTable::new(vec![0i32; 456976]).unwrap();
    let mut best = BestK::new(3);
    best.insert(Candidate { score: 4, key: vec![1u8, 2, 3], rotor_config: vec![2u8, 1, 0] });
    best.insert(Candidate { score: 9, key: vec![5u8, 6, 7], rotor_config: vec![3u8, 4, 0] });
    best.insert(Candidate { score: 9, key: vec![8u8, 8, 8], rotor_config: vec![0u8, 1, 2] });
    // every trial scores zero: the first tried wins, which is the best-ranked
    // candidate (slot 1) at ring setting AAA
    let found = refine_rings(&w, &table, &vec![3u8, 1, 4, 1, 5], &best).unwrap();
    assert_eq!(found.score, 0);
    assert_eq!(found.rotor_config, vec![3u8, 4, 0]);
    assert_eq!(found.key, vec![5u8, 6, 7]);
    assert_eq!(found.rings, vec![0u8, 0, 0]);
}

#[test]
fn search_reads_only_the_letters() {
    let table = table_favouring("MEETATNOON", 10);
    let cipher = encrypt("MEETATNOON", &vec![0u8, 1, 2], "ABC", "AAA").unwrap();
    let plain = brute_force(&table, &cipher).unwrap();
    let noisy = format!("{} -- {}!", cipher[..5].to_lowercase(), &cipher[5..]);
    let again = brute_force(&table, &noisy).unwrap();
    assert_eq!(plain.score, again.score);
    assert_eq!(plain.key, again.key);
    assert_eq!(plain.rings, again.rings);
    assert_eq!(plain.rotor_config, again.rotor_config);
    assert_eq!(plain.plaintext, again.plaintext);
    assert!(plain.key.chars().all(|c| c.is_ascii_uppercase()));
    assert!(plain.rings.chars().all(|c| c.is_ascii_uppercase()));
}
