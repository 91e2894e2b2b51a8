use hamming_dict::{generate_dict, generate_dict_from, generate_dict_rand, generate_dict_with_seed,
    Codeword};
use rand::Rng;
use rand::SeedableRng;
use rand_xoshiro::Xoshiro256PlusPlus;

fn dicts_equal(a: &Vec<Codeword>, b: &Vec<Codeword>) -> bool {
    a.len() == b.len() && a.iter().zip(b.iter()).all(|(x, y)| x.same_bytes(y))
}

fn min_pairwise(dict: &Vec<Codeword>) -> u64 {
    let mut best = u64::MAX;
    for i in 0..dict.len() {
        for j in (i + 1)..dict.len() {
            let d = dict[i].distance(&dict[j]);
            if d < best {
                best = d;
            }
        }
    }
    best
}

#[test]
fn building_twice_gives_identical_codebooks() {
    let (a, done_a) = generate_dict(8, 4);
    let (b, done_b) = generate_dict(8, 4);
    assert!(done_a && done_b);
    assert!(dicts_equal(&a, &b));
}

#[test]
fn seeding_ignores_previous_content() {
    let mut a = vec![Codeword::zeros(3); 5];
    let mut b: Vec<Codeword> = (0..5u8)
        .map(|k| Codeword::from_bytes(vec![k, k.wrapping_mul(7), 0xA5]))
        .collect();
    assert!(generate_dict_rand(&mut a));
    assert!(generate_dict_rand(&mut b));
    assert!(dicts_equal(&a, &b));
}

#[test]
fn seed_override_changes_the_codebook() {
    let mut a = vec![Codeword::zeros(8); 4];
    let mut b = vec![Codeword::zeros(8); 4];
    assert!(generate_dict_with_seed(&mut a, 0));
    assert!(generate_dict_with_seed(&mut b, 1));
    assert!(!dicts_equal(&a, &b));
}

#[test]
fn single_word_carries_the_raw_stream() {
    // One word is never refined, so its bytes must be exactly what the
    // generator hands out; drawing them here directly would catch a seeding
    // path that returned its input unchanged.
    let (dict, done) = generate_dict(8, 1);
    assert!(done);
    assert_eq!(dict.len(), 1);
    let mut rng = Xoshiro256PlusPlus::seed_from_u64(0);
    for i in 0..8 {
        let expect: u8 = rng.gen();
        assert_eq!(dict[0].byte(i), expect);
    }
}

#[test]
fn refining_empty_codebook_is_a_no_op() {
    let mut dict: Vec<Codeword> = Vec::new();
    assert!(generate_dict_from(&mut dict));
    assert!(dict.is_empty());
}

#[test]
fn refining_single_word_keeps_its_bytes() {
    let mut dict = vec![Codeword::from_bytes(vec![1, 2, 3])];
    assert!(generate_dict_from(&mut dict));
    assert_eq!(dict.len(), 1);
    assert_eq!(dict[0].byte(0), 1);
    assert_eq!(dict[0].byte(1), 2);
    assert_eq!(dict[0].byte(2), 3);
}

#[test]
fn refining_converged_codebook_changes_nothing() {
    let (mut dict, done) = generate_dict(8, 4);
    assert!(done);
    let before: Vec<Codeword> = dict.iter().map(|w| w.duplicate()).collect();
    assert!(generate_dict_from(&mut dict));
    assert!(dicts_equal(&dict, &before));
}

#[test]
fn refinement_never_lowers_the_minimum_distance() {
    let mut dict = vec![
        Codeword::from_bytes(vec![0x00, 0x00]),
        Codeword::from_bytes(vec![0x01, 0x00]),
        Codeword::from_bytes(vec![0xFF, 0xFF]),
    ];
    let before = min_pairwise(&dict);
    assert!(generate_dict_from(&mut dict));
    assert!(min_pairwise(&dict) >= before);
}

#[test]
fn zero_width_words_survive_the_split_path_unchanged() {
    // More than 64 words forces the partitioner to split even though no
    // bit exists to flip; the codebook must come back untouched.
    let mut dict = vec![Codeword::zeros(0); 70];
    assert!(generate_dict_from(&mut dict));
    assert_eq!(dict.len(), 70);
    for w in &dict {
        assert_eq!(w.width(), 0);
    }
}

#[test]
fn converged_pair_is_distinct() {
    let (dict, done) = generate_dict(3, 2);
    assert!(done);
    assert!(dict[0].distance(&dict[1]) >= 1);
    assert!(!dict[0].same_bytes(&dict[1]));
}

#[test]
fn zero_width_words_are_degenerate_but_valid() {
    let (dict, done) = generate_dict(0, 3);
    assert!(done);
    assert_eq!(dict.len(), 3);
    for w in &dict {
        assert_eq!(w.width(), 0);
    }
    assert_eq!(min_pairwise(&dict), 0);
}

#[test]
fn all_pairwise_distances_lie_within_the_width_bound() {
    let (dict, done) = generate_dict(8, 4);
    assert!(done);
    for i in 0..dict.len() {
        for j in 0..dict.len() {
            if i != j {
                let d = dict[i].distance(&dict[j]);
                assert!(d <= 64);
            }
        }
    }
}
