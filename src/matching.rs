//! Hamming distance between descriptors and brute-force matching with
//! Lowe's ratio test.
use vstd::prelude::*;

use crate::descriptor::Descriptor;

verus! {

/// A correspondence between descriptor `index_0` of the first set and
/// descriptor `index_1` of the second, at Hamming distance `distance`.
#[derive(Debug, Clone, Copy, PartialEq, Eq)]
pub struct Match {
    pub index_0: usize,
    pub index_1: usize,
    pub distance: usize,
}

/// Number of the low `n` bits in which `x` and `y` differ.
pub open spec fn bits_differ(x: nat, y: nat, n: nat) -> nat
    decreases n,
{
    if n == 0 {
        0
    } else {
        (if x % 2 != y % 2 { 1nat } else { 0nat }) + bits_differ(x / 2, y / 2, (n - 1) as nat)
    }
}

/// Number of differing bits of two bytes.
pub open spec fn byte_distance(x: u8, y: u8) -> nat {
    bits_differ(x as nat, y as nat, 8)
}

/// Hamming distance over the first `k` byte pairs.
pub open spec fn hamming_prefix(a: Seq<u8>, b: Seq<u8>, k: nat) -> nat
    decreases k,
{
    if k == 0 {
        0
    } else {
        hamming_prefix(a, b, (k - 1) as nat) + byte_distance(a[k - 1], b[k - 1])
    }
}

pub open spec fn min_len(a: Seq<u8>, b: Seq<u8>) -> nat {
    if a.len() <= b.len() { a.len() } else { b.len() }
}

/// Hamming distance of two byte strings, compared over their common length.
pub open spec fn hamming(a: Seq<u8>, b: Seq<u8>) -> nat {
    hamming_prefix(a, b, min_len(a, b))
}

/// The shortest number of leading byte pairs, at least `k`, whose
/// distance exceeds `bound`; the common length when there is none.
pub open spec fn exit_len(a: Seq<u8>, b: Seq<u8>, bound: nat, k: nat) -> nat
    decreases min_len(a, b) - k,
{
    if k >= min_len(a, b) || hamming_prefix(a, b, k) > bound {
        k
    } else {
        exit_len(a, b, bound, k + 1)
    }
}

/// Number of set bits among the low `n` bits of `v`.
pub open spec fn ones(v: nat, n: nat) -> nat
    decreases n,
{
    if n == 0 {
        0
    } else {
        (v % 2) + ones(v / 2, (n - 1) as nat)
    }
}

proof fn lemma_bits_differ_xor(x: u8, y: u8, n: nat)
    ensures
        bits_differ(x as nat, y as nat, n) == ones((x ^ y) as nat, n),
    decreases n,
{
    if n > 0 {
        assert((x ^ y) % 2 == (if x % 2 != y % 2 { 1u8 } else { 0u8 })) by (bit_vector);
        assert((x ^ y) / 2 == (x / 2) ^ (y / 2)) by (bit_vector);
        lemma_bits_differ_xor(x / 2, y / 2, (n - 1) as nat);
    }
}

/// The distance of two bytes is the number of set bits of their
/// exclusive or.
pub proof fn lemma_byte_distance_xor(x: u8, y: u8)
    ensures
        byte_distance(x, y) == ones((x ^ y) as nat, 8),
{
    lemma_bits_differ_xor(x, y, 8);
}

proof fn lemma_bits_differ_symmetric(x: nat, y: nat, n: nat)
    ensures
        bits_differ(x, y, n) == bits_differ(y, x, n),
    decreases n,
{
    if n > 0 {
        lemma_bits_differ_symmetric(x / 2, y / 2, (n - 1) as nat);
    }
}

proof fn lemma_hamming_prefix_symmetric(a: Seq<u8>, b: Seq<u8>, k: nat)
    ensures
        hamming_prefix(a, b, k) == hamming_prefix(b, a, k),
    decreases k,
{
    if k > 0 {
        lemma_hamming_prefix_symmetric(a, b, (k - 1) as nat);
        lemma_bits_differ_symmetric(a[k - 1] as nat, b[k - 1] as nat, 8);
    }
}

proof fn lemma_exit_len_symmetric(a: Seq<u8>, b: Seq<u8>, bound: nat, k: nat)
    ensures
        exit_len(a, b, bound, k) == exit_len(b, a, bound, k),
    decreases min_len(a, b) - k,
{
    lemma_hamming_prefix_symmetric(a, b, k);
    if k < min_len(a, b) && hamming_prefix(a, b, k) <= bound {
        lemma_exit_len_symmetric(a, b, bound, k + 1);
    }
}

/// The Hamming distance, and the value of the bounded distance, do not
/// depend on the order of the two descriptors.
pub proof fn lemma_hamming_symmetric(a: Seq<u8>, b: Seq<u8>, bound: nat)
    ensures
        hamming(a, b) == hamming(b, a),
        exit_len(a, b, bound, 0) == exit_len(b, a, bound, 0),
        hamming_prefix(a, b, exit_len(a, b, bound, 0)) == hamming_prefix(
            b,
            a,
            exit_len(b, a, bound, 0),
        ),
{
    lemma_hamming_prefix_symmetric(a, b, min_len(a, b));
    lemma_exit_len_symmetric(a, b, bound, 0);
    lemma_hamming_prefix_symmetric(a, b, exit_len(a, b, bound, 0));
}

proof fn lemma_bits_differ_bound(x: nat, y: nat, n: nat)
    ensures
        bits_differ(x, y, n) <= n,
    decreases n,
{
    if n > 0 {
        lemma_bits_differ_bound(x / 2, y / 2, (n - 1) as nat);
    }
}

/// The Hamming distance over `k` bytes is at most `8 * k`.
pub proof fn lemma_hamming_prefix_bound(a: Seq<u8>, b: Seq<u8>, k: nat)
    ensures
        hamming_prefix(a, b, k) <= 8 * k,
    decreases k,
{
    if k > 0 {
        lemma_hamming_prefix_bound(a, b, (k - 1) as nat);
        lemma_bits_differ_bound(a[k - 1] as nat, b[k - 1] as nat, 8);
    }
}

proof fn lemma_hamming_prefix_mono(a: Seq<u8>, b: Seq<u8>, j: nat, k: nat)
    requires
        j <= k,
    ensures
        hamming_prefix(a, b, j) <= hamming_prefix(a, b, k),
    decreases k,
{
    if j < k {
        lemma_hamming_prefix_mono(a, b, j, (k - 1) as nat);
    }
}

/// Number of differing bits of two bytes.
fn byte_hamming(x: u8, y: u8) -> (r: usize)
    ensures
        r == byte_distance(x, y),
        r <= 8,
{
    let mut a: u8 = x;
    let mut b: u8 = y;
    let mut count: usize = 0;
    let mut i: usize = 0;
    while i < 8
        invariant
            i <= 8,
            count <= i,
            count + bits_differ(a as nat, b as nat, (8 - i) as nat) == byte_distance(x, y),
        decreases 8 - i,
    {
        if a % 2 != b % 2 {
            count = count + 1;
        }
        a = a / 2;
        b = b / 2;
        i = i + 1;
    }
    count
}

/// The Hamming distance between two descriptors, with an early exit: as
/// soon as the running count exceeds `bailout_distance` the count so far is
/// returned, which then also exceeds it. The result is the distance over
/// the shortest run of leading byte pairs whose distance exceeds the bound,
/// or over all common bytes when there is none.
pub fn hamming_distance(d0: &Descriptor, d1: &Descriptor, bailout_distance: usize) -> (r: usize)
    requires
        d0.vector@.len() <= usize::MAX / 8,
    ensures
        hamming(d0.vector@, d1.vector@) <= bailout_distance ==> r == hamming(
            d0.vector@,
            d1.vector@,
        ),
        hamming(d0.vector@, d1.vector@) > bailout_distance ==> r > bailout_distance,
        r <= hamming(d0.vector@, d1.vector@),
        r == hamming_prefix(
            d0.vector@,
            d1.vector@,
            exit_len(d0.vector@, d1.vector@, bailout_distance as nat, 0),
        ),
{
    let a = &d0.vector;
    let b = &d1.vector;
    let n: usize = if a.len() <= b.len() { a.len() } else { b.len() };
    let mut distance: usize = 0;
    let mut i: usize = 0;
    while i < n
        invariant
            a@ == d0.vector@,
            b@ == d1.vector@,
            n == min_len(a@, b@),
            n <= usize::MAX / 8,
            i <= n,
            distance == hamming_prefix(a@, b@, i as nat),
            distance <= 8 * i,
            distance <= bailout_distance,
            exit_len(a@, b@, bailout_distance as nat, 0) == exit_len(
                a@,
                b@,
                bailout_distance as nat,
                i as nat,
            ),
        decreases n - i,
    {
        let d = byte_hamming(a[i], b[i]);
        distance = distance + d;
        i = i + 1;
        assert(hamming_prefix(a@, b@, i as nat) == hamming_prefix(a@, b@, (i - 1) as nat)
            + byte_distance(a@[i - 1], b@[i - 1]));
        if distance > bailout_distance {
            proof {
                lemma_hamming_prefix_mono(a@, b@, i as nat, n as nat);
                assert(exit_len(a@, b@, bailout_distance as nat, (i - 1) as nat) == exit_len(
                    a@,
                    b@,
                    bailout_distance as nat,
                    i as nat,
                ));
                assert(exit_len(a@, b@, bailout_distance as nat, i as nat) == i);
            }
            return distance;
        }
    }
    distance
}

/// Nearest and second-nearest search over the first `k` descriptors of
/// `ds1`: `(best, index of best, second best)`, both distances starting at
/// `start`. A later candidate replaces the best only when strictly closer,
/// so ties keep the earlier index.
pub open spec fn scan(d0: Seq<u8>, ds1: Seq<Descriptor>, start: nat, k: nat) -> (nat, nat, nat)
    decreases k,
{
    if k == 0 {
        (start, 0, start)
    } else {
        let prev = scan(d0, ds1, start, (k - 1) as nat);
        let d = hamming(d0, ds1[k - 1].vector@);
        if d < prev.0 {
            (d, (k - 1) as nat, prev.0)
        } else if d < prev.2 {
            (prev.0, prev.1, d)
        } else {
            prev
        }
    }
}

/// The start of both running distances of the matcher: above every
/// distance that a descriptor pair can have.
pub open spec fn unbounded() -> nat {
    usize::MAX as nat
}

/// Lowe's ratio test on Hamming distances with the ratio `num / den`
/// squared: `best < (num / den)^2 * second`.
pub open spec fn lowes_accepts(best: nat, second: nat, num: nat, den: nat) -> bool {
    best * (den * den) < second * (num * num)
}

/// Whether the search for `d0` yields a match: its best distance passes
/// Lowe's test against the second best and is below `threshold`.
pub open spec fn search_accepts(
    d0: Seq<u8>,
    ds1: Seq<Descriptor>,
    threshold: nat,
    num: nat,
    den: nat,
) -> bool {
    let s = scan(d0, ds1, unbounded(), ds1.len());
    lowes_accepts(s.0, s.2, num, den) && s.0 < threshold
}

/// The matches that the brute-force search yields for the first `i`
/// descriptors of `ds0`, in order of `index_0`.
pub open spec fn matches_upto(
    ds0: Seq<Descriptor>,
    ds1: Seq<Descriptor>,
    threshold: nat,
    num: nat,
    den: nat,
    i: nat,
) -> Seq<Match>
    decreases i,
{
    if i == 0 {
        seq![]
    } else {
        let prev = matches_upto(ds0, ds1, threshold, num, den, (i - 1) as nat);
        if search_accepts(ds0[i - 1].vector@, ds1, threshold, num, den) {
            let s = scan(ds0[i - 1].vector@, ds1, unbounded(), ds1.len());
            prev.push(Match { index_0: (i - 1) as usize, index_1: s.1 as usize, distance: s.0 as usize })
        } else {
            prev
        }
    }
}

pub open spec fn all_matches(
    ds0: Seq<Descriptor>,
    ds1: Seq<Descriptor>,
    threshold: nat,
    num: nat,
    den: nat,
) -> Seq<Match> {
    matches_upto(ds0, ds1, threshold, num, den, ds0.len())
}

/// Whether some match of `ms` is for descriptor `i` of the first set.
pub open spec fn matched(ms: Seq<Match>, i: int) -> bool {
    exists|p: int| 0 <= p < ms.len() && (#[trigger] ms[p]).index_0 == i
}

/// The search state is either untouched or names a real candidate.
proof fn lemma_scan(d0: Seq<u8>, ds1: Seq<Descriptor>, start: nat, k: nat)
    requires
        k <= ds1.len(),
    ensures
        scan(d0, ds1, start, k).0 <= scan(d0, ds1, start, k).2,
        scan(d0, ds1, start, k).2 <= start,
        scan(d0, ds1, start, k).0 == start || (scan(d0, ds1, start, k).1 < k
            && scan(d0, ds1, start, k).0 == hamming(
            d0,
            ds1[scan(d0, ds1, start, k).1 as int].vector@,
        )),
    decreases k,
{
    if k > 0 {
        lemma_scan(d0, ds1, start, (k - 1) as nat);
    }
}

/// Hamming distance from `d0` to descriptor `j` of `ds1`.
pub open spec fn dist_to(d0: Seq<u8>, ds1: Seq<Descriptor>, j: int) -> nat {
    hamming(d0, ds1[j].vector@)
}

/// What the search over the first `k` descriptors finds: `best` is the
/// least distance, capped at `start`; below `start`, `index` is the first
/// descriptor at that distance; `second` is the least distance among the
/// other descriptors, capped at `start`.
pub proof fn lemma_scan_nearest(d0: Seq<u8>, ds1: Seq<Descriptor>, start: nat, k: nat)
    requires
        k <= ds1.len(),
    ensures
        ({
            let (best, index, second) = scan(d0, ds1, start, k);
            &&& forall|j: int| 0 <= j < k ==> #[trigger] dist_to(d0, ds1, j) >= best
            &&& best <= second <= start
            &&& best < start ==> {
                &&& index < k
                &&& dist_to(d0, ds1, index as int) == best
                &&& forall|j: int| 0 <= j < index ==> #[trigger] dist_to(d0, ds1, j) > best
            }
            &&& forall|j: int| 0 <= j < k && j != index ==> #[trigger] dist_to(d0, ds1, j) >= second
            &&& second == start || exists|j: int|
                0 <= j < k && j != index && #[trigger] dist_to(d0, ds1, j) == second
        }),
    decreases k,
{
    if k > 0 {
        lemma_scan_nearest(d0, ds1, start, (k - 1) as nat);
        let (b, bj, sc) = scan(d0, ds1, start, (k - 1) as nat);
        let d = dist_to(d0, ds1, k - 1);
        if d < b {
            if b < start {
                assert(dist_to(d0, ds1, bj as int) == b);
            }
        } else if d < sc {
            assert(b < start);
            assert(dist_to(d0, ds1, k - 1) == d);
        }
    }
}

/// Descriptor `j` is the nearest to `d0` among `ds1`, the first one on a
/// tie.
pub open spec fn is_nearest(d0: Seq<u8>, ds1: Seq<Descriptor>, j: int) -> bool {
    &&& 0 <= j < ds1.len()
    &&& forall|k: int| 0 <= k < ds1.len() ==> #[trigger] dist_to(d0, ds1, k) >= dist_to(d0, ds1, j)
    &&& forall|k: int| 0 <= k < j ==> #[trigger] dist_to(d0, ds1, k) > dist_to(d0, ds1, j)
}

/// Whether `d0` is matched: its nearest descriptor is closer than
/// `threshold` and passes Lowe's test against every other descriptor,
/// that is against the second-least distance; with a single candidate the
/// second distance is unbounded.
pub open spec fn query_matches(
    d0: Seq<u8>,
    ds1: Seq<Descriptor>,
    threshold: nat,
    num: nat,
    den: nat,
) -> bool {
    exists|j: int|
        #[trigger] is_nearest(d0, ds1, j) && dist_to(d0, ds1, j) < threshold && (forall|k: int|
            0 <= k < ds1.len() && k != j ==> lowes_accepts(
                dist_to(d0, ds1, j),
                #[trigger] dist_to(d0, ds1, k),
                num,
                den,
            )) && (ds1.len() == 1 ==> lowes_accepts(dist_to(d0, ds1, j), unbounded(), num, den))
}

proof fn lemma_lowes_mono(best: nat, s: nat, t: nat, num: nat, den: nat)
    requires
        lowes_accepts(best, s, num, den),
        s <= t,
    ensures
        lowes_accepts(best, t, num, den),
{
    assert(s * (num * num) <= t * (num * num)) by (nonlinear_arith)
        requires
            s <= t,
    ;
}

proof fn lemma_dist_below_unbounded(d0: Seq<u8>, ds1: Seq<Descriptor>, j: int)
    requires
        d0.len() <= usize::MAX / 8,
        0 <= j < ds1.len(),
    ensures
        dist_to(d0, ds1, j) < unbounded(),
{
    let b = ds1[j].vector@;
    lemma_hamming_prefix_bound(d0, b, min_len(d0, b));
}

/// The search accepts exactly the queries of `query_matches`, and its
/// best index is the nearest descriptor.
pub proof fn lemma_search_direct(
    d0: Seq<u8>,
    ds1: Seq<Descriptor>,
    threshold: nat,
    num: nat,
    den: nat,
)
    requires
        d0.len() <= usize::MAX / 8,
        threshold <= usize::MAX,
    ensures
        search_accepts(d0, ds1, threshold, num, den) <==> query_matches(
            d0,
            ds1,
            threshold,
            num,
            den,
        ),
        ds1.len() > 0 ==> is_nearest(d0, ds1, scan(d0, ds1, unbounded(), ds1.len()).1 as int)
            && scan(d0, ds1, unbounded(), ds1.len()).0 == dist_to(
            d0,
            ds1,
            scan(d0, ds1, unbounded(), ds1.len()).1 as int,
        ),
{
    let n = ds1.len();
    lemma_scan_nearest(d0, ds1, unbounded(), n);
    let (b, bj, sc) = scan(d0, ds1, unbounded(), n);
    if n > 0 {
        lemma_dist_below_unbounded(d0, ds1, 0);
        assert(b < unbounded());
        assert(is_nearest(d0, ds1, bj as int));
    }
    if search_accepts(d0, ds1, threshold, num, den) {
        assert(b < unbounded());
        assert forall|k: int| 0 <= k < n && k != bj implies lowes_accepts(
            b,
            #[trigger] dist_to(d0, ds1, k),
            num,
            den,
        ) by {
            lemma_lowes_mono(b, sc, dist_to(d0, ds1, k), num, den);
        }
        assert(is_nearest(d0, ds1, bj as int));
    }
    if query_matches(d0, ds1, threshold, num, den) {
        let j = choose|j: int|
            #[trigger] is_nearest(d0, ds1, j) && dist_to(d0, ds1, j) < threshold && (forall|k: int|
                0 <= k < ds1.len() && k != j ==> lowes_accepts(
                    dist_to(d0, ds1, j),
                    #[trigger] dist_to(d0, ds1, k),
                    num,
                    den,
                )) && (ds1.len() == 1 ==> lowes_accepts(dist_to(d0, ds1, j), unbounded(), num, den));
        assert(j == bj) by {
            if j < bj {
                assert(dist_to(d0, ds1, j) > b);
            } else if bj < j {
                assert(dist_to(d0, ds1, bj as int) > dist_to(d0, ds1, j));
            }
        }
        if sc == unbounded() {
            if n >= 2 {
                let k: int = if bj == 0 { 1 } else { 0 };
                lemma_dist_below_unbounded(d0, ds1, k);
                assert(dist_to(d0, ds1, k) >= sc);
            }
        } else {
            let k = choose|k: int| 0 <= k < n && k != bj && #[trigger] dist_to(d0, ds1, k) == sc;
            assert(lowes_accepts(b, dist_to(d0, ds1, k), num, den));
        }
    }
}

fn lowes_ratio_test(best: usize, second: usize, num: u32, den: u32) -> (r: bool)
    ensures
        r == lowes_accepts(best as nat, second as nat, num as nat, den as nat),
{
    proof {
        lemma_square_fits(den as nat);
        lemma_square_fits(num as nat);
    }
    let dd: u64 = (den as u64) * (den as u64);
    let nn: u64 = (num as u64) * (num as u64);
    proof {
        lemma_product_fits(best as nat, dd as nat);
        lemma_product_fits(second as nat, nn as nat);
    }
    (best as u128) * (dd as u128) < (second as u128) * (nn as u128)
}

proof fn lemma_square_fits(x: nat)
    requires
        x <= 0xffff_ffff,
    ensures
        x * x <= 0xffff_ffff_ffff_ffff,
{
    assert(x * x <= 0xffff_ffff * 0xffff_ffff) by (nonlinear_arith)
        requires
            x <= 0xffff_ffff,
    ;
}

proof fn lemma_product_fits(x: nat, y: nat)
    requires
        x <= 0xffff_ffff_ffff_ffff,
        y <= 0xffff_ffff_ffff_ffff,
    ensures
        x * y <= 0xffff_ffff_ffff_ffff_ffff_ffff_ffff_ffff,
{
    assert(x * y <= 0xffff_ffff_ffff_ffff * 0xffff_ffff_ffff_ffff) by (nonlinear_arith)
        requires
            x <= 0xffff_ffff_ffff_ffff,
            y <= 0xffff_ffff_ffff_ffff,
    ;
}

/// Brute-force matching. For each descriptor of the first set, find the
/// nearest descriptor of the second set by Hamming distance (the first one
/// on a tie) and the least distance among the others, and emit a match with
/// the nearest one when `best < (lowes_ratio_num / lowes_ratio_den)^2 *
/// second` and `best < distance_threshold`. With a single candidate the
/// second distance is unbounded (`usize::MAX`). Matches come in the order of
/// the first set; there is no reverse check.
pub fn descriptor_match(
    descriptors_0: &Vec<Descriptor>,
    descriptors_1: &Vec<Descriptor>,
    distance_threshold: usize,
    lowes_ratio_num: u32,
    lowes_ratio_den: u32,
) -> (r: Vec<Match>)
    requires
        forall|i: int|
            0 <= i < descriptors_0@.len() ==> #[trigger] descriptors_0@[i].vector@.len()
                <= usize::MAX / 8,
    ensures
        r@ == all_matches(
            descriptors_0@,
            descriptors_1@,
            distance_threshold as nat,
            lowes_ratio_num as nat,
            lowes_ratio_den as nat,
        ),
        forall|p: int, q: int| 0 <= p < q < r@.len() ==> (#[trigger] r@[p]).index_0 < (
        #[trigger] r@[q]).index_0,
        forall|p: int|
            0 <= p < r@.len() ==> {
                let m = #[trigger] r@[p];
                &&& m.index_0 < descriptors_0@.len()
                &&& m.index_1 < descriptors_1@.len()
                &&& m.distance == hamming(
                    descriptors_0@[m.index_0 as int].vector@,
                    descriptors_1@[m.index_1 as int].vector@,
                )
                &&& m.distance <= 8 * descriptors_0@[m.index_0 as int].vector@.len()
                &&& m.distance <= 8 * descriptors_1@[m.index_1 as int].vector@.len()
                &&& is_nearest(
                    descriptors_0@[m.index_0 as int].vector@,
                    descriptors_1@,
                    m.index_1 as int,
                )
            },
        forall|i: int|
            0 <= i < descriptors_0@.len() ==> (#[trigger] matched(r@, i) <==> query_matches(
                descriptors_0@[i].vector@,
                descriptors_1@,
                distance_threshold as nat,
                lowes_ratio_num as nat,
                lowes_ratio_den as nat,
            )),
{
    let mut output: Vec<Match> = Vec::new();
    let mut i: usize = 0;
    while i < descriptors_0.len()
        invariant
            i <= descriptors_0@.len(),
            forall|k: int|
                0 <= k < descriptors_0@.len() ==> #[trigger] descriptors_0@[k].vector@.len()
                    <= usize::MAX / 8,
            output@ == matches_upto(
                descriptors_0@,
                descriptors_1@,
                distance_threshold as nat,
                lowes_ratio_num as nat,
                lowes_ratio_den as nat,
                i as nat,
            ),
        decreases descriptors_0.len() - i,
    {
        let d0 = &descriptors_0[i];
        let mut min_distance: usize = usize::MAX;
        let mut min_j: usize = 0;
        let mut second_to_min_distance: usize = usize::MAX;
        let mut j: usize = 0;
        while j < descriptors_1.len()
            invariant
                j <= descriptors_1@.len(),
                d0.vector@.len() <= usize::MAX / 8,
                (min_distance as nat, min_j as nat, second_to_min_distance as nat) == scan(
                    d0.vector@,
                    descriptors_1@,
                    unbounded(),
                    j as nat,
                ),
            decreases descriptors_1.len() - j,
        {
            proof {
                lemma_scan(d0.vector@, descriptors_1@, unbounded(), j as nat);
            }
            let distance = hamming_distance(d0, &descriptors_1[j], second_to_min_distance);
            if distance < min_distance {
                second_to_min_distance = min_distance;
                min_distance = distance;
                min_j = j;
            } else if distance < second_to_min_distance {
                second_to_min_distance = distance;
            }
            j = j + 1;
        }
        if lowes_ratio_test(min_distance, second_to_min_distance, lowes_ratio_num, lowes_ratio_den)
            && min_distance < distance_threshold {
            output.push(Match { index_0: i, index_1: min_j, distance: min_distance });
        }
        i = i + 1;
    }
    let n1: usize = descriptors_1.len();
    proof {
        assert(descriptors_1@.len() == n1);
        lemma_match_uniqueness(
            descriptors_0@,
            descriptors_1@,
            distance_threshold,
            lowes_ratio_num,
            lowes_ratio_den,
        );
        lemma_match_distance_bound(
            descriptors_0@,
            descriptors_1@,
            distance_threshold,
            lowes_ratio_num,
            lowes_ratio_den,
        );
        let ds0 = descriptors_0@;
        let ds1 = descriptors_1@;
        let t = distance_threshold as nat;
        let num = lowes_ratio_num as nat;
        let den = lowes_ratio_den as nat;
        lemma_matches_upto(ds0, ds1, t, num, den, ds0.len());
        assert forall|i: int| 0 <= i < ds0.len() implies (#[trigger] matched(output@, i)
            <==> query_matches(ds0[i].vector@, ds1, t, num, den)) by {
            lemma_search_direct(ds0[i].vector@, ds1, t, num, den);
        }
        assert forall|p: int| 0 <= p < output@.len() implies is_nearest(
            ds0[(#[trigger] output@[p]).index_0 as int].vector@,
            ds1,
            output@[p].index_1 as int,
        ) by {
            lemma_search_direct(ds0[output@[p].index_0 as int].vector@, ds1, t, num, den);
        }
    }
    output
}

proof fn lemma_matches_upto(
    ds0: Seq<Descriptor>,
    ds1: Seq<Descriptor>,
    threshold: nat,
    num: nat,
    den: nat,
    i: nat,
)
    requires
        i <= ds0.len(),
        ds0.len() <= usize::MAX,
        ds1.len() <= usize::MAX,
        threshold <= usize::MAX,
    ensures
        forall|p: int|
            0 <= p < matches_upto(ds0, ds1, threshold, num, den, i).len() ==> {
                let m = #[trigger] matches_upto(ds0, ds1, threshold, num, den, i)[p];
                let sc = scan(ds0[m.index_0 as int].vector@, ds1, unbounded(), ds1.len());
                &&& m.index_0 < i
                &&& m.index_1 < ds1.len()
                &&& m.index_1 == sc.1
                &&& m.distance == sc.0
                &&& m.distance == hamming(
                    ds0[m.index_0 as int].vector@,
                    ds1[m.index_1 as int].vector@,
                )
            },
        forall|p: int, q: int|
            0 <= p < q < matches_upto(ds0, ds1, threshold, num, den, i).len() ==> (
            #[trigger] matches_upto(ds0, ds1, threshold, num, den, i)[p]).index_0 < (
            #[trigger] matches_upto(ds0, ds1, threshold, num, den, i)[q]).index_0,
        forall|j: int|
            0 <= j < i ==> (#[trigger] matched(matches_upto(ds0, ds1, threshold, num, den, i), j)
                <==> search_accepts(ds0[j].vector@, ds1, threshold, num, den)),
    decreases i,
{
    if i > 0 {
        lemma_matches_upto(ds0, ds1, threshold, num, den, (i - 1) as nat);
        lemma_scan(ds0[i - 1].vector@, ds1, unbounded(), ds1.len());
        let prev = matches_upto(ds0, ds1, threshold, num, den, (i - 1) as nat);
        let cur = matches_upto(ds0, ds1, threshold, num, den, i);
        let sc = scan(ds0[i - 1].vector@, ds1, unbounded(), ds1.len());
        if search_accepts(ds0[i - 1].vector@, ds1, threshold, num, den) {
            let m = Match {
                index_0: (i - 1) as usize,
                index_1: sc.1 as usize,
                distance: sc.0 as usize,
            };
            assert(cur == prev.push(m));
            assert(m.index_0 == i - 1);
            assert(m.index_1 == sc.1);
            assert(m.distance == sc.0);
            assert forall|p: int| 0 <= p < cur.len() implies {
                let m = #[trigger] cur[p];
                let sc = scan(ds0[m.index_0 as int].vector@, ds1, unbounded(), ds1.len());
                &&& m.index_0 < i
                &&& m.index_1 < ds1.len()
                &&& m.index_1 == sc.1
                &&& m.distance == sc.0
                &&& m.distance == hamming(
                    ds0[m.index_0 as int].vector@,
                    ds1[m.index_1 as int].vector@,
                )
            } by {
                if p < prev.len() {
                    assert(cur[p] == prev[p]);
                }
            }
            assert forall|p: int, q: int| 0 <= p < q < cur.len() implies (
            #[trigger] cur[p]).index_0 < (#[trigger] cur[q]).index_0 by {
                assert(cur[p] == prev[p]);
                if q < prev.len() {
                    assert(cur[q] == prev[q]);
                }
            }
            assert forall|j: int| 0 <= j < i implies (#[trigger] matched(cur, j) <==> search_accepts(
                ds0[j].vector@,
                ds1,
                threshold,
                num,
                den,
            )) by {
                if j == i - 1 {
                    assert(cur[prev.len() as int] == m);
                } else {
                    if matched(cur, j) {
                        let p = choose|p: int| 0 <= p < cur.len() && (#[trigger] cur[p]).index_0 == j;
                        assert(p < prev.len());
                        assert(cur[p] == prev[p]);
                    }
                    if matched(prev, j) {
                        let p = choose|p: int| 0 <= p < prev.len() && (#[trigger] prev[p]).index_0
                            == j;
                        assert(cur[p] == prev[p]);
                    }
                }
            }
        } else {
            assert(cur == prev);
            assert forall|j: int| 0 <= j < i implies (#[trigger] matched(cur, j) <==> search_accepts(
                ds0[j].vector@,
                ds1,
                threshold,
                num,
                den,
            )) by {
                if j == i - 1 && matched(cur, j) {
                    let p = choose|p: int| 0 <= p < cur.len() && (#[trigger] cur[p]).index_0 == j;
                    assert(prev[p].index_0 < i - 1);
                }
            }
        }
    }
}

/// Matches come in strictly increasing `index_0`, so no descriptor of the
/// first set appears in two matches.
pub proof fn lemma_match_uniqueness(
    descriptors_0: Seq<Descriptor>,
    descriptors_1: Seq<Descriptor>,
    distance_threshold: usize,
    lowes_ratio_num: u32,
    lowes_ratio_den: u32,
)
    requires
        descriptors_0.len() <= usize::MAX,
        descriptors_1.len() <= usize::MAX,
    ensures
        forall|p: int, q: int|
            0 <= p < q < all_matches(
                descriptors_0,
                descriptors_1,
                distance_threshold as nat,
                lowes_ratio_num as nat,
                lowes_ratio_den as nat,
            ).len() ==> (#[trigger] all_matches(
                descriptors_0,
                descriptors_1,
                distance_threshold as nat,
                lowes_ratio_num as nat,
                lowes_ratio_den as nat,
            )[p]).index_0 < (#[trigger] all_matches(
                descriptors_0,
                descriptors_1,
                distance_threshold as nat,
                lowes_ratio_num as nat,
                lowes_ratio_den as nat,
            )[q]).index_0,
{
    lemma_matches_upto(
        descriptors_0,
        descriptors_1,
        distance_threshold as nat,
        lowes_ratio_num as nat,
        lowes_ratio_den as nat,
        descriptors_0.len(),
    );
}

/// Every match pairs existing descriptors, its distance is their Hamming
/// distance, and so it is at most eight times the byte length of either.
pub proof fn lemma_match_distance_bound(
    descriptors_0: Seq<Descriptor>,
    descriptors_1: Seq<Descriptor>,
    distance_threshold: usize,
    lowes_ratio_num: u32,
    lowes_ratio_den: u32,
)
    requires
        descriptors_0.len() <= usize::MAX,
        descriptors_1.len() <= usize::MAX,
    ensures
        forall|p: int|
            0 <= p < all_matches(
                descriptors_0,
                descriptors_1,
                distance_threshold as nat,
                lowes_ratio_num as nat,
                lowes_ratio_den as nat,
            ).len() ==> {
                let m = #[trigger] all_matches(
                    descriptors_0,
                    descriptors_1,
                    distance_threshold as nat,
                    lowes_ratio_num as nat,
                    lowes_ratio_den as nat,
                )[p];
                &&& m.index_0 < descriptors_0.len()
                &&& m.index_1 < descriptors_1.len()
                &&& m.distance == hamming(
                    descriptors_0[m.index_0 as int].vector@,
                    descriptors_1[m.index_1 as int].vector@,
                )
                &&& m.distance <= 8 * descriptors_0[m.index_0 as int].vector@.len()
                &&& m.distance <= 8 * descriptors_1[m.index_1 as int].vector@.len()
            },
{
    let ms = all_matches(
        descriptors_0,
        descriptors_1,
        distance_threshold as nat,
        lowes_ratio_num as nat,
        lowes_ratio_den as nat,
    );
    lemma_matches_upto(
        descriptors_0,
        descriptors_1,
        distance_threshold as nat,
        lowes_ratio_num as nat,
        lowes_ratio_den as nat,
        descriptors_0.len(),
    );
    assert forall|p: int| 0 <= p < ms.len() implies {
        let m = #[trigger] ms[p];
        &&& m.distance <= 8 * descriptors_0[m.index_0 as int].vector@.len()
        &&& m.distance <= 8 * descriptors_1[m.index_1 as int].vector@.len()
    } by {
        let m = ms[p];
        let a = descriptors_0[m.index_0 as int].vector@;
        let b = descriptors_1[m.index_1 as int].vector@;
        lemma_hamming_prefix_bound(a, b, min_len(a, b));
    }
}

} // verus!
