use akaze::config::{check_config, ConfigError};
use akaze::contrast::{bin_histogram, percentile_bin};
use akaze::evolution::{build_path, evolution_levels, EvolutionLevel};
use akaze::matching::Match;
use akaze::ransac::{best_trial, draw_sample, inlier_count, keep_inliers, sample_from_draws, SAMPLE_SIZE};

#[test]
fn levels_of_vga_image() {
    let ls = evolution_levels(640, 480, 4, 4);
    assert_eq!(ls.len(), 12);
    assert_eq!(ls[0], EvolutionLevel { octave: 0, sublevel: 0, width: 640, height: 480 });
    assert_eq!(ls[5], EvolutionLevel { octave: 1, sublevel: 1, width: 320, height: 240 });
    assert_eq!(ls[11], EvolutionLevel { octave: 2, sublevel: 3, width: 160, height: 120 });
}

#[test]
fn levels_stop_at_small_octave() {
    let ls = evolution_levels(100, 50, 4, 4);
    assert_eq!(ls.len(), 4);
    assert!(ls.iter().all(|l| l.octave == 0 && l.width == 100 && l.height == 50));
    // The minimal image keeps its first octave only.
    assert_eq!(evolution_levels(80, 40, 4, 4).len(), 4);
    // 161 x 81 halves to 80 x 40, which is still built; 40 x 20 is not.
    let ls = evolution_levels(161, 81, 2, 6);
    assert_eq!(ls.len(), 4);
    assert_eq!(ls[2], EvolutionLevel { octave: 1, sublevel: 0, width: 80, height: 40 });
}

#[test]
fn levels_octave_cap() {
    assert_eq!(evolution_levels(4096, 4096, 3, 2).len(), 3);
    assert_eq!(evolution_levels(4096, 4096, 3, 1).len(), 0);
    assert_eq!(evolution_levels(4096, 4096, 3, 0).len(), 0);
    assert_eq!(evolution_levels(4096, 4096, 0, 4).len(), 0);
}

#[test]
fn levels_dimensions_and_order() {
    let ls = evolution_levels(1001, 777, 3, 8);
    assert_eq!(ls.len(), 12);
    for w in ls.windows(2) {
        let (a, b) = (w[0], w[1]);
        if a.octave == b.octave {
            assert_eq!((a.width, a.height), (b.width, b.height));
            assert_eq!(a.sublevel + 1, b.sublevel);
        } else {
            assert_eq!(a.octave + 1, b.octave);
            assert_eq!((a.width / 2, a.height / 2), (b.width, b.height));
        }
        assert!(a.octave * 3 + a.sublevel < b.octave * 3 + b.sublevel);
    }
}

#[test]
fn debug_paths() {
    assert_eq!(build_path("out", "Lx_", 3), "out/Lx_00003.png");
    assert_eq!(build_path("", "Ldet_", 0), "Ldet_00000.png");
    assert_eq!(build_path("a/b", "Lflow_", 123456), "a/b/Lflow_123456.png");
    assert_eq!(build_path("d", "Lt_", 99999), "d/Lt_99999.png");
}

#[test]
fn config_checks() {
    assert_eq!(check_config(640, 480, 4, 3), Ok(()));
    assert_eq!(check_config(0, 480, 4, 3), Err(ConfigError::EmptyImage));
    assert_eq!(check_config(640, 0, 0, 0), Err(ConfigError::EmptyImage));
    assert_eq!(check_config(640, 480, 0, 3), Err(ConfigError::NoSublevels));
    assert_eq!(check_config(640, 480, 4, 0), Err(ConfigError::InvalidChannels));
    assert_eq!(check_config(640, 480, 4, 4), Err(ConfigError::InvalidChannels));
}

#[test]
fn percentile_search() {
    let h = vec![3usize, 0, 4, 2, 1];
    assert_eq!(percentile_bin(&h, 0), Some(0));
    assert_eq!(percentile_bin(&h, 3), Some(1));
    assert_eq!(percentile_bin(&h, 4), Some(3));
    assert_eq!(percentile_bin(&h, 7), Some(3));
    assert_eq!(percentile_bin(&h, 10), Some(5));
    assert_eq!(percentile_bin(&h, 11), None);
    assert_eq!(percentile_bin(&Vec::new(), 1), None);
    assert_eq!(percentile_bin(&vec![usize::MAX, usize::MAX], usize::MAX), Some(1));
}

#[test]
fn samples_are_distinct_and_in_range() {
    let mut source = random::default().seed([7, 11]);
    for n in [8usize, 9, 20, 1000] {
        for _ in 0..50 {
            let s = draw_sample(&mut source, n);
            assert_eq!(s.len(), SAMPLE_SIZE);
            for i in 0..s.len() {
                assert!(s[i] < n);
                for j in (i + 1)..s.len() {
                    assert_ne!(s[i], s[j]);
                }
            }
        }
    }
}

#[test]
fn samples_repeat_with_the_same_seed() {
    let mut a = random::default().seed([42, 69]);
    let first: Vec<Vec<usize>> = (0..5).map(|_| draw_sample(&mut a, 100)).collect();
    let mut b = random::default().seed([42, 69]);
    let second: Vec<Vec<usize>> = (0..5).map(|_| draw_sample(&mut b, 100)).collect();
    assert_eq!(first, second);
    // Successive draws differ: the source advances.
    assert_ne!(first[0], first[1]);
}

#[test]
fn inlier_bookkeeping() {
    let ms: Vec<Match> = (0..5).map(|i| Match { index_0: i, index_1: 4 - i, distance: i }).collect();
    let flags = vec![true, false, false, true, true];
    assert_eq!(inlier_count(&flags), 3);
    assert_eq!(inlier_count(&vec![]), 0);
    let kept = keep_inliers(&ms, &flags);
    assert_eq!(kept, vec![ms[0], ms[3], ms[4]]);
    assert!(keep_inliers(&ms, &vec![false; 5]).is_empty());
}

#[test]
fn histogram_counts() {
    assert_eq!(bin_histogram(&vec![0, 2, 2, 4, 0, 2], 5), vec![2, 0, 3, 0, 1]);
    assert_eq!(bin_histogram(&vec![], 3), vec![0, 0, 0]);
    assert_eq!(bin_histogram(&vec![], 0), Vec::<usize>::new());
}

#[test]
fn samples_from_given_draws() {
    assert_eq!(sample_from_draws(10, &vec![0; 8]), vec![0, 1, 2, 3, 4, 5, 6, 7]);
    assert_eq!(sample_from_draws(10, &vec![9, 0, 0, 0, 0, 0, 0, 0]), vec![9, 1, 2, 3, 4, 5, 6, 7]);
    assert_eq!(sample_from_draws(8, &vec![1; 8]), vec![1, 2, 3, 4, 5, 6, 7, 0]);
    assert_eq!(sample_from_draws(8, &vec![u64::MAX; 8]).len(), 8);
}

#[test]
fn best_trial_picks_first_largest() {
    assert_eq!(best_trial(&vec![None, Some(3), Some(5), Some(5), None]), Some(2));
    assert_eq!(best_trial(&vec![None, Some(0), None]), Some(1));
    assert_eq!(best_trial(&vec![None, None]), None);
    assert_eq!(best_trial(&vec![]), None);
}
