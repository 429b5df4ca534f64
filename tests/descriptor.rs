use akaze::descriptor::{descriptor_byte_len, mldb_binary_comparisons, mldb_descriptor, pack_bits};

fn bit(bytes: &[u8], p: usize) -> bool {
    (bytes[p / 8] >> (p % 8)) & 1 == 1
}

#[test]
fn descriptor_sizes() {
    assert_eq!(descriptor_byte_len(1), 21);
    assert_eq!(descriptor_byte_len(2), 41);
    assert_eq!(descriptor_byte_len(3), 61);
}

#[test]
fn comparisons_order() {
    // One channel, three cells: pairs (0,1), (0,2), (1,2).
    let mut bits = vec![true];
    mldb_binary_comparisons(&vec![5, 7, 1], &mut bits, 3, 1);
    assert_eq!(bits, vec![true, false, true, true]);
}

#[test]
fn comparisons_channels_interleaved() {
    // Two channels, two cells: values are [c0 ch0, c0 ch1, c1 ch0, c1 ch1].
    let mut bits = Vec::new();
    mldb_binary_comparisons(&vec![1, 9, 2, 3], &mut bits, 2, 2);
    assert_eq!(bits, vec![false, true]);
}

#[test]
fn comparisons_equal_values_give_zero() {
    let mut bits = Vec::new();
    mldb_binary_comparisons(&vec![4, 4, 4, 4], &mut bits, 4, 1);
    assert_eq!(bits, vec![false; 6]);
}

#[test]
fn packing_lsb_first() {
    let bits = vec![true, false, true, false, false, false, false, false, true];
    assert_eq!(pack_bits(&bits, 2), vec![0b0000_0101, 0b0000_0001]);
    assert_eq!(pack_bits(&bits, 3), vec![0b0000_0101, 0b0000_0001, 0]);
    assert_eq!(pack_bits(&Vec::new(), 1), vec![0]);
}

#[test]
fn descriptor_length_per_channel_count() {
    for channels in 1..=3usize {
        let v0: Vec<u32> = (0..4 * channels as u32).collect();
        let v1: Vec<u32> = (0..9 * channels as u32).collect();
        let v2: Vec<u32> = (0..16 * channels as u32).collect();
        let d = mldb_descriptor(&v0, &v1, &v2, channels);
        assert_eq!(d.vector.len(), (162 * channels + 7) / 8);
    }
}

#[test]
fn descriptor_bits_decreasing_cells() {
    // Strictly decreasing keys: every comparison "i > j" for j > i holds.
    let v0: Vec<u32> = (0..4).rev().collect();
    let v1: Vec<u32> = (0..9).rev().collect();
    let v2: Vec<u32> = (0..16).rev().collect();
    let d = mldb_descriptor(&v0, &v1, &v2, 1);
    assert_eq!(d.vector.len(), 21);
    for p in 0..162 {
        assert!(bit(&d.vector, p));
    }
    for p in 162..168 {
        assert!(!bit(&d.vector, p));
    }
}

#[test]
fn descriptor_bits_level_boundaries() {
    // Increasing keys on the first level (no bits), decreasing on the
    // second (36 bits), increasing on the third.
    let v0: Vec<u32> = (0..4).collect();
    let v1: Vec<u32> = (0..9).rev().collect();
    let v2: Vec<u32> = (0..16).collect();
    let d = mldb_descriptor(&v0, &v1, &v2, 1);
    for p in 0..168 {
        assert_eq!(bit(&d.vector, p), (6..42).contains(&p), "bit {}", p);
    }
}
