//! The percentile step of the contrast factor: where in a histogram of
//! gradient magnitudes a given share of the points is reached.
use vstd::prelude::*;

verus! {

/// Total of the first `k` bins.
pub open spec fn prefix_sum(histogram: Seq<usize>, k: nat) -> nat
    decreases k,
{
    if k == 0 {
        0
    } else {
        prefix_sum(histogram, (k - 1) as nat) + histogram[k - 1] as nat
    }
}

/// The smallest `k` such that the first `k` bins hold at least `threshold`
/// points, or `None` when all the bins together hold fewer.
pub fn percentile_bin(histogram: &Vec<usize>, threshold: usize) -> (r: Option<usize>)
    ensures
        r matches Some(k) ==> k <= histogram@.len() && prefix_sum(histogram@, k as nat) >= threshold
            && forall|j: nat| j < k ==> #[trigger] prefix_sum(histogram@, j) < threshold,
        r is None ==> prefix_sum(histogram@, histogram@.len()) < threshold,
{
    let n = histogram.len();
    let mut num_elements: usize = 0;
    let mut k: usize = 0;
    while k < n
        invariant
            n == histogram@.len(),
            k <= n,
            num_elements == prefix_sum(histogram@, k as nat),
            forall|j: nat| j < k ==> #[trigger] prefix_sum(histogram@, j) < threshold,
        decreases n - k,
    {
        if num_elements >= threshold {
            return Some(k);
        }
        if histogram[k] >= threshold - num_elements {
            return Some(k + 1);
        }
        num_elements = num_elements + histogram[k];
        k = k + 1;
    }
    if num_elements >= threshold {
        Some(k)
    } else {
        None
    }
}

/// How many of the first `k` entries of `bins` are `b`.
pub open spec fn count_of(bins: Seq<usize>, b: nat, k: nat) -> nat
    decreases k,
{
    if k == 0 {
        0
    } else {
        count_of(bins, b, (k - 1) as nat) + if bins[k - 1] == b { 1nat } else { 0nat }
    }
}

proof fn lemma_count_of_bound(bins: Seq<usize>, b: nat, k: nat)
    ensures
        count_of(bins, b, k) <= k,
    decreases k,
{
    if k > 0 {
        lemma_count_of_bound(bins, b, (k - 1) as nat);
    }
}

/// The histogram of `bins` over `num_bins` bins: entry `b` counts the
/// points that fell into bin `b`.
pub fn bin_histogram(bins: &Vec<usize>, num_bins: usize) -> (r: Vec<usize>)
    requires
        forall|i: int| 0 <= i < bins@.len() ==> #[trigger] bins@[i] < num_bins,
    ensures
        r@.len() == num_bins,
        forall|b: int| 0 <= b < num_bins ==> #[trigger] r@[b] == count_of(bins@, b as nat, bins@.len()),
{
    let mut histogram: Vec<usize> = Vec::new();
    let mut b: usize = 0;
    while b < num_bins
        invariant
            b <= num_bins,
            histogram@.len() == b,
            forall|j: int| 0 <= j < b ==> #[trigger] histogram@[j] == 0,
        decreases num_bins - b,
    {
        histogram.push(0);
        b = b + 1;
    }
    let mut i: usize = 0;
    while i < bins.len()
        invariant
            i <= bins@.len(),
            histogram@.len() == num_bins,
            forall|k: int| 0 <= k < bins@.len() ==> #[trigger] bins@[k] < num_bins,
            forall|j: int|
                0 <= j < num_bins ==> #[trigger] histogram@[j] == count_of(bins@, j as nat, i as nat),
        decreases bins.len() - i,
    {
        let bin = bins[i];
        proof {
            lemma_count_of_bound(bins@, bin as nat, i as nat);
        }
        let count = histogram[bin];
        histogram.set(bin, count + 1);
        i = i + 1;
    }
    histogram
}

} // verus!
