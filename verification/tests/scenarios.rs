use hamming_dict::{generate_dict, generate_dict_from, generate_dict_stage_2, Codeword};
use rand::Rng;
use rand::SeedableRng;
use rand_xoshiro::Xoshiro256PlusPlus;

fn min_pairwise(dict: &Vec<Codeword>) -> u64 {
    let mut best = u64::MAX;
    for i in 0..dict.len() {
        for j in (i + 1)..dict.len() {
            let d = dict[i].distance(&dict[j]);
            if d < best {
                best = d;
            }
        }
    }
    best
}

#[test]
fn default_build_of_four_words_is_reproducible_bit_for_bit() {
    let expected: [[u8; 8]; 4] = [
        [111, 37, 149, 194, 232, 115, 215, 198],
        [44, 205, 2, 183, 22, 140, 228, 61],
        [147, 82, 126, 121, 201, 160, 24, 153],
        [208, 186, 233, 12, 55, 95, 43, 98],
    ];
    let (dict, done) = generate_dict(8, 4);
    assert!(done);
    assert_eq!(dict.len(), 4);
    for (i, row) in expected.iter().enumerate() {
        for (j, &b) in row.iter().enumerate() {
            assert_eq!(dict[i].byte(j), b);
        }
    }
}

#[test]
fn pair_of_words_reaches_a_local_optimum_of_distance() {
    let (dict, done) = generate_dict(8, 2);
    assert!(done);
    let d0 = dict[0].distance(&dict[1]);
    // No single-bit flip on either word may increase their distance.
    for w in 0..2 {
        for byte in 0..8 {
            for bit in 0..8u8 {
                let mut cand = dict[w].duplicate();
                cand.flip_bit(byte, bit);
                let other = &dict[1 - w];
                assert!(cand.distance(other) <= d0);
            }
        }
    }
    // For eight-byte words the pair converges to full complements.
    assert_eq!(d0, 64);
}

#[test]
fn split_refinement_is_no_worse_than_direct_refinement() {
    // 130 words force at least one partitioner split; the same seeded
    // input refined without the split serves as the baseline.
    let mut rng = Xoshiro256PlusPlus::seed_from_u64(0);
    let mut seeded: Vec<Codeword> = Vec::new();
    for _ in 0..130 {
        let mut bytes = Vec::new();
        for _ in 0..4 {
            bytes.push(rng.gen::<u8>());
        }
        seeded.push(Codeword::from_bytes(bytes));
    }
    let mut split: Vec<Codeword> = seeded.iter().map(|w| w.duplicate()).collect();
    let mut direct: Vec<Codeword> = seeded.iter().map(|w| w.duplicate()).collect();
    let before = min_pairwise(&seeded);
    assert!(generate_dict_from(&mut split));
    assert!(generate_dict_stage_2(&mut direct, 0, 130));
    let mp_split = min_pairwise(&split);
    let mp_direct = min_pairwise(&direct);
    assert!(mp_split >= mp_direct);
    assert!(mp_split >= before);
    assert!(mp_split > 0);
}
