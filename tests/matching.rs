use akaze::descriptor::Descriptor;
use akaze::matching::{descriptor_match, hamming_distance, Match};

fn desc(bytes: &[u8]) -> Descriptor {
    Descriptor { vector: bytes.to_vec() }
}

fn full_hamming(a: &Descriptor, b: &Descriptor) -> usize {
    a.vector
        .iter()
        .zip(b.vector.iter())
        .map(|(x, y)| (x ^ y).count_ones() as usize)
        .sum()
}

#[test]
fn hamming_single_bit() {
    let a = desc(&[0b0100100]);
    let b = desc(&[0b0100000]);
    assert_eq!(hamming_distance(&a, &b, usize::MAX), 1);
}

#[test]
fn hamming_all_bits() {
    let a = desc(&[0x00, 0xff, 0x0f]);
    let b = desc(&[0xff, 0x00, 0xf0]);
    assert_eq!(hamming_distance(&a, &b, usize::MAX), 24);
    assert_eq!(hamming_distance(&a, &a, usize::MAX), 0);
}

#[test]
fn hamming_common_length_only() {
    let a = desc(&[0xff, 0xff]);
    let b = desc(&[0x00]);
    assert_eq!(hamming_distance(&a, &b, usize::MAX), 8);
}

#[test]
fn hamming_early_exit_matches_full_distance() {
    let mut state: u32 = 12345;
    for _ in 0..200 {
        let mut a = Vec::new();
        let mut b = Vec::new();
        for _ in 0..21 {
            state = state.wrapping_mul(1103515245).wrapping_add(12345);
            a.push((state >> 16) as u8);
            state = state.wrapping_mul(1103515245).wrapping_add(12345);
            b.push((state >> 16) as u8);
        }
        let (a, b) = (desc(&a), desc(&b));
        let full = full_hamming(&a, &b);
        for bound in [0usize, 10, 40, 80, 90, 120, 168, 1000] {
            let r = hamming_distance(&a, &b, bound);
            if full <= bound {
                assert_eq!(r, full);
            } else {
                assert!(r > bound);
                assert!(r <= full);
            }
        }
    }
}

#[test]
fn match_picks_nearest_with_ratio() {
    let d0 = vec![desc(&[0b0000_0000]), desc(&[0b1111_0000])];
    let d1 = vec![
        desc(&[0b1111_1111]),
        desc(&[0b0000_0001]),
        desc(&[0b1111_0001]),
    ];
    // For d0[0]: distances 8, 1, 5: best 1 at index 1, second 5.
    // For d0[1]: distances 4, 5, 1: best 1 at index 2, second 4.
    let r = descriptor_match(&d0, &d1, 10000, 86, 100);
    assert_eq!(
        r,
        vec![
            Match { index_0: 0, index_1: 1, distance: 1 },
            Match { index_0: 1, index_1: 2, distance: 1 },
        ]
    );
}

#[test]
fn match_ratio_rejects_ambiguous() {
    // best 2, second 3: 2 < 0.86^2 * 3 = 2.2188 holds; with ratio 0.8,
    // 2 < 0.64 * 3 = 1.92 fails.
    let d0 = vec![desc(&[0b0000_0000])];
    let d1 = vec![desc(&[0b0000_0011]), desc(&[0b0000_0111])];
    assert_eq!(descriptor_match(&d0, &d1, 10000, 86, 100).len(), 1);
    assert_eq!(descriptor_match(&d0, &d1, 10000, 8, 10).len(), 0);
}

#[test]
fn match_threshold_rejects_far() {
    let d0 = vec![desc(&[0b0000_0000])];
    let d1 = vec![desc(&[0b0011_1111])];
    // A single candidate: second best stays at the threshold.
    assert_eq!(
        descriptor_match(&d0, &d1, 50, 86, 100),
        vec![Match { index_0: 0, index_1: 0, distance: 6 }]
    );
    assert_eq!(descriptor_match(&d0, &d1, 6, 86, 100).len(), 0);
}

#[test]
fn match_ties_keep_first_and_fail_ratio() {
    let d0 = vec![desc(&[0x00])];
    let d1 = vec![desc(&[0x01]), desc(&[0x02])];
    // best == second, so no ratio below one accepts it.
    assert_eq!(descriptor_match(&d0, &d1, 10000, 99, 100).len(), 0);
    // A ratio above one accepts the first of the tied candidates.
    assert_eq!(
        descriptor_match(&d0, &d1, 10000, 2, 1),
        vec![Match { index_0: 0, index_1: 0, distance: 1 }]
    );
}

#[test]
fn match_empty_sets() {
    let none: Vec<Descriptor> = vec![];
    let some = vec![desc(&[1, 2, 3])];
    assert!(descriptor_match(&none, &some, 10000, 86, 100).is_empty());
    assert!(descriptor_match(&some, &none, 10000, 86, 100).is_empty());
}

#[test]
fn match_output_unique_and_bounded() {
    let mut state: u32 = 777;
    let mut make = |n: usize| -> Vec<Descriptor> {
        (0..n)
            .map(|_| {
                let v: Vec<u8> = (0..21)
                    .map(|_| {
                        state = state.wrapping_mul(1103515245).wrapping_add(12345);
                        (state >> 16) as u8
                    })
                    .collect();
                desc(&v)
            })
            .collect()
    };
    let mut d0 = make(40);
    let d1 = make(60);
    // Make some descriptors of the first set close copies of the second.
    for i in 0..20 {
        let mut v = d1[i * 2].vector.clone();
        v[0] ^= 1;
        d0[i] = desc(&v);
    }
    let r = descriptor_match(&d0, &d1, 10000, 86, 100);
    assert!(r.len() >= 20);
    for w in r.windows(2) {
        assert!(w[0].index_0 < w[1].index_0);
    }
    for m in &r {
        assert!(m.distance <= 8 * d0[m.index_0].vector.len());
        assert_eq!(m.distance, full_hamming(&d0[m.index_0], &d1[m.index_1]));
    }
    for i in 0..20 {
        assert!(r.contains(&Match { index_0: i, index_1: i * 2, distance: 1 }));
    }
}

#[test]
fn hamming_early_exit_value_and_symmetry() {
    let a = desc(&[0xff, 0xff, 0xff]);
    let b = desc(&[0x00, 0x00, 0x00]);
    // 8 after one byte is within the bound, 16 after two exceeds it.
    assert_eq!(hamming_distance(&a, &b, 10), 16);
    assert_eq!(hamming_distance(&b, &a, 10), 16);
    assert_eq!(hamming_distance(&a, &b, 7), 8);
    assert_eq!(hamming_distance(&a, &b, 24), 24);
}

#[test]
fn match_second_best_not_capped_by_threshold() {
    // Distances 1 and 8 with threshold 4 and ratio 1/2: 1 < 0.25 * 8 and
    // 1 < 4, so the query is matched.
    let d0 = vec![desc(&[0x00])];
    let d1 = vec![desc(&[0x01]), desc(&[0xff])];
    assert_eq!(
        descriptor_match(&d0, &d1, 4, 1, 2),
        vec![Match { index_0: 0, index_1: 0, distance: 1 }]
    );
    // Distances 3 and 8: 3 < 0.25 * 8 fails.
    let d1 = vec![desc(&[0x07]), desc(&[0xff])];
    assert!(descriptor_match(&d0, &d1, 4, 1, 2).is_empty());
}
