//! Drawing the minimal samples of the RANSAC verification of matches.
use vstd::prelude::*;

use crate::matching::Match;

verus! {

/// The number of matches that one fundamental-matrix fit takes.
pub const SAMPLE_SIZE: usize = 8;

#[verifier::external_type_specification]
#[verifier::external_body]
pub struct ExRandomDefault(random::Default);

/// Relies on `random::Source::read_u64` of `random::Default`: the next
/// number of its generator's stream. Nothing is promised of the value.
#[verifier::external_body]
fn next_random(source: &mut random::Default) -> (r: u64) {
    random::Source::read_u64(source)
}

/// Whether the entries of `s` are pairwise distinct and below `n`.
pub open spec fn distinct_indices(s: Seq<usize>, n: nat) -> bool {
    &&& forall|i: int| 0 <= i < s.len() ==> #[trigger] s[i] < n
    &&& forall|i: int, j: int| 0 <= i < j < s.len() ==> #[trigger] s[i] != #[trigger] s[j]
}

/// `s` with entries `i` and `j` exchanged.
pub open spec fn swap_at(s: Seq<usize>, i: int, j: int) -> Seq<usize> {
    s.update(i, s[j]).update(j, s[i])
}

/// The indices `0 .. n` after the first `k` steps of a Fisher-Yates
/// shuffle: step `k'` exchanges entry `k'` with entry
/// `k' + draws[k'] % (n - k')`.
pub open spec fn shuffled(n: nat, draws: Seq<u64>, k: nat) -> Seq<usize>
    decreases k,
{
    if k == 0 {
        Seq::new(n, |i: int| i as usize)
    } else {
        let prev = shuffled(n, draws, (k - 1) as nat);
        let step = k - 1;
        swap_at(prev, step, step + (draws[step] as nat % (n - step) as nat))
    }
}

/// The sample that the draws `draws` select: the first `SAMPLE_SIZE`
/// entries of `0 .. n` after `SAMPLE_SIZE` steps of a Fisher-Yates shuffle
/// driven by them. The entries are distinct and below `n`.
pub fn sample_from_draws(n: usize, draws: &Vec<u64>) -> (r: Vec<usize>)
    requires
        n >= SAMPLE_SIZE,
        draws@.len() == SAMPLE_SIZE,
    ensures
        r@ == shuffled(n as nat, draws@, SAMPLE_SIZE as nat).subrange(0, SAMPLE_SIZE as int),
        r@.len() == SAMPLE_SIZE,
        distinct_indices(r@, n as nat),
{
    let mut perm: Vec<usize> = Vec::new();
    let mut i: usize = 0;
    while i < n
        invariant
            i <= n,
            perm@.len() == i,
            forall|k: int| 0 <= k < i ==> #[trigger] perm@[k] == k,
        decreases n - i,
    {
        perm.push(i);
        i = i + 1;
    }
    assert(perm@ =~= shuffled(n as nat, draws@, 0));
    let mut k: usize = 0;
    while k < SAMPLE_SIZE
        invariant
            n >= SAMPLE_SIZE,
            k <= SAMPLE_SIZE,
            draws@.len() == SAMPLE_SIZE,
            perm@.len() == n,
            perm@ == shuffled(n as nat, draws@, k as nat),
            distinct_indices(perm@, n as nat),
        decreases SAMPLE_SIZE - k,
    {
        let j: usize = k + (draws[k] % ((n - k) as u64)) as usize;
        let a = perm[k];
        let b = perm[j];
        let ghost before = perm@;
        perm.set(k, b);
        perm.set(j, a);
        proof {
            assert(perm@ == swap_at(before, k as int, j as int));
            assert forall|x: int, y: int| 0 <= x < y < perm@.len() implies #[trigger] perm@[x]
                != #[trigger] perm@[y] by {
                let sx = if x == k { j as int } else if x == j { k as int } else { x };
                let sy = if y == k { j as int } else if y == j { k as int } else { y };
                assert(perm@[x] == before[sx]);
                assert(perm@[y] == before[sy]);
                assert(sx != sy);
                if sx < sy {
                    assert(before[sx] != before[sy]);
                } else {
                    assert(before[sy] != before[sx]);
                }
            }
            assert forall|x: int| 0 <= x < perm@.len() implies #[trigger] perm@[x] < n by {
                let sx = if x == k { j as int } else if x == j { k as int } else { x };
                assert(perm@[x] == before[sx]);
            }
        }
        k = k + 1;
    }
    let mut out: Vec<usize> = Vec::new();
    let mut m: usize = 0;
    while m < SAMPLE_SIZE
        invariant
            m <= SAMPLE_SIZE,
            perm@.len() == n,
            n >= SAMPLE_SIZE,
            distinct_indices(perm@, n as nat),
            out@ == perm@.subrange(0, m as int),
        decreases SAMPLE_SIZE - m,
    {
        out.push(perm[m]);
        m = m + 1;
        assert(out@ =~= perm@.subrange(0, m as int));
    }
    out
}

/// Draw `SAMPLE_SIZE` distinct indices below `n` without replacement:
/// `SAMPLE_SIZE` numbers are read from `source` and handed to
/// `sample_from_draws`.
pub fn draw_sample(source: &mut random::Default, n: usize) -> (r: Vec<usize>)
    requires
        n >= SAMPLE_SIZE,
    ensures
        r@.len() == SAMPLE_SIZE,
        distinct_indices(r@, n as nat),
        exists|d: Seq<u64>|
            d.len() == SAMPLE_SIZE && r@ == (#[trigger] shuffled(
                n as nat,
                d,
                SAMPLE_SIZE as nat,
            )).subrange(0, SAMPLE_SIZE as int),
{
    let mut draws: Vec<u64> = Vec::new();
    let mut k: usize = 0;
    while k < SAMPLE_SIZE
        invariant
            k <= SAMPLE_SIZE,
            draws@.len() == k,
        decreases SAMPLE_SIZE - k,
    {
        draws.push(next_random(source));
        k = k + 1;
    }
    let r = sample_from_draws(n, &draws);
    assert(draws@.len() == SAMPLE_SIZE && r@ == shuffled(
        n as nat,
        draws@,
        SAMPLE_SIZE as nat,
    ).subrange(0, SAMPLE_SIZE as int));
    r
}

/// The matches whose flag is set, in their order.
pub open spec fn flagged(matches: Seq<Match>, is_inlier: Seq<bool>, k: nat) -> Seq<Match>
    decreases k,
{
    if k == 0 {
        seq![]
    } else {
        let prev = flagged(matches, is_inlier, (k - 1) as nat);
        if is_inlier[k - 1] {
            prev.push(matches[k - 1])
        } else {
            prev
        }
    }
}

/// The number of set flags among the first `k`.
pub open spec fn count_set(is_inlier: Seq<bool>, k: nat) -> nat
    decreases k,
{
    if k == 0 {
        0
    } else {
        count_set(is_inlier, (k - 1) as nat) + if is_inlier[k - 1] { 1nat } else { 0nat }
    }
}

proof fn lemma_count_set_bound(is_inlier: Seq<bool>, k: nat)
    ensures
        count_set(is_inlier, k) <= k,
    decreases k,
{
    if k > 0 {
        lemma_count_set_bound(is_inlier, (k - 1) as nat);
    }
}

/// How many matches a model accepts, one flag per match.
pub fn inlier_count(is_inlier: &Vec<bool>) -> (r: usize)
    ensures
        r == count_set(is_inlier@, is_inlier@.len()),
{
    let mut count: usize = 0;
    let mut i: usize = 0;
    while i < is_inlier.len()
        invariant
            i <= is_inlier@.len(),
            count == count_set(is_inlier@, i as nat),
        decreases is_inlier.len() - i,
    {
        proof {
            lemma_count_set_bound(is_inlier@, (i + 1) as nat);
        }
        if is_inlier[i] {
            count = count + 1;
        }
        i = i + 1;
    }
    count
}

/// The matches that the chosen model accepts, in their order.
pub fn keep_inliers(matches: &Vec<Match>, is_inlier: &Vec<bool>) -> (r: Vec<Match>)
    requires
        matches@.len() == is_inlier@.len(),
    ensures
        r@ == flagged(matches@, is_inlier@, matches@.len()),
{
    let mut out: Vec<Match> = Vec::new();
    let mut i: usize = 0;
    while i < matches.len()
        invariant
            i <= matches@.len(),
            matches@.len() == is_inlier@.len(),
            out@ == flagged(matches@, is_inlier@, i as nat),
        decreases matches.len() - i,
    {
        if is_inlier[i] {
            out.push(matches[i]);
        }
        i = i + 1;
    }
    out
}

/// The inlier count of a trial, `-1` for a trial that gave no model.
pub open spec fn trial_score(count: Option<usize>) -> int {
    match count {
        Some(c) => c as int,
        None => -1,
    }
}

/// The trial whose model accepts the most matches, the first of them on a
/// tie; `None` when no trial gave a model.
pub fn best_trial(counts: &Vec<Option<usize>>) -> (r: Option<usize>)
    ensures
        r is None <==> forall|t: int| 0 <= t < counts@.len() ==> #[trigger] counts@[t] is None,
        r matches Some(t) ==> {
            &&& t < counts@.len()
            &&& counts@[t as int] is Some
            &&& forall|u: int|
                0 <= u < counts@.len() ==> trial_score(#[trigger] counts@[u]) <= trial_score(
                    counts@[t as int],
                )
            &&& forall|u: int|
                0 <= u < t ==> trial_score(#[trigger] counts@[u]) < trial_score(counts@[t as int])
        },
{
    let mut best: Option<usize> = None;
    let mut i: usize = 0;
    while i < counts.len()
        invariant
            i <= counts@.len(),
            best is None <==> forall|t: int| 0 <= t < i ==> #[trigger] counts@[t] is None,
            best matches Some(t) ==> {
                &&& t < i
                &&& counts@[t as int] is Some
                &&& forall|u: int|
                    0 <= u < i ==> trial_score(#[trigger] counts@[u]) <= trial_score(
                        counts@[t as int],
                    )
                &&& forall|u: int|
                    0 <= u < t ==> trial_score(#[trigger] counts@[u]) < trial_score(
                        counts@[t as int],
                    )
            },
        decreases counts.len() - i,
    {
        if let Some(c) = counts[i] {
            let better = match best {
                None => true,
                Some(t) => match counts[t] {
                    Some(bc) => c > bc,
                    None => true,
                },
            };
            if better {
                best = Some(i);
            }
        }
        i = i + 1;
    }
    best
}

} // verus!
