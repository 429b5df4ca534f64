//! Layout of the nonlinear scale space: which octaves and sublevels exist
//! for an image, and the image size of each, plus the file names under
//! which the evolutions are written for inspection.
use vstd::prelude::*;

use crate::descriptor::two_to;

verus! {

/// An octave whose halved image is narrower than this is not built.
pub const MIN_OCTAVE_WIDTH: u32 = 80;

/// An octave whose halved image is lower than this is not built.
pub const MIN_OCTAVE_HEIGHT: u32 = 40;

/// One step of the scale space: its octave, its sublevel within the octave,
/// and the size of its images.
#[derive(Debug, Clone, Copy, PartialEq, Eq)]
pub struct EvolutionLevel {
    pub octave: u32,
    pub sublevel: u32,
    pub width: u32,
    pub height: u32,
}

/// Whether octave `i` of a `w` x `h` image is built: the first always is,
/// a later one when its image is at least the minimum size.
pub open spec fn octave_accepted(w: nat, h: nat, i: nat) -> bool {
    i == 0 || (w / two_to(i) >= MIN_OCTAVE_WIDTH && h / two_to(i) >= MIN_OCTAVE_HEIGHT)
}

/// The number of octaves built, counting on from octave `i`: octaves are
/// tried in turn below `limit` and the first one refused ends the list.
pub open spec fn octave_count(w: nat, h: nat, limit: nat, i: nat) -> nat
    decreases limit - i,
{
    if i >= limit || !octave_accepted(w, h, i) {
        i
    } else {
        octave_count(w, h, limit, i + 1)
    }
}

/// Octaves are tried for `i < max_octave_evolution - 1`.
pub open spec fn octave_limit(max_octave_evolution: nat) -> nat {
    if max_octave_evolution == 0 {
        0
    } else {
        (max_octave_evolution - 1) as nat
    }
}

/// Step `k` of the scale space: sublevels run fastest, and the images of
/// octave `o` are the input's size divided by `2^o`, rounded down.
pub open spec fn level_at(w: nat, h: nat, num_sublevels: nat, k: nat) -> EvolutionLevel {
    EvolutionLevel {
        octave: (k / num_sublevels) as u32,
        sublevel: (k % num_sublevels) as u32,
        width: (w / two_to(k / num_sublevels)) as u32,
        height: (h / two_to(k / num_sublevels)) as u32,
    }
}

/// All steps of the scale space of a `w` x `h` image.
pub open spec fn levels(w: nat, h: nat, num_sublevels: nat, max_octave_evolution: nat) -> Seq<
    EvolutionLevel,
> {
    Seq::new(
        octave_count(w, h, octave_limit(max_octave_evolution), 0) * num_sublevels,
        |k: int| level_at(w, h, num_sublevels, k as nat),
    )
}

proof fn lemma_two_to_pos(n: nat)
    ensures
        two_to(n) > 0,
    decreases n,
{
    if n > 0 {
        lemma_two_to_pos((n - 1) as nat);
    }
}

/// Halving an octave's size gives the next octave's size.
proof fn lemma_halve(x: nat, i: nat)
    ensures
        (x / two_to(i)) / 2 == x / two_to(i + 1),
{
    lemma_two_to_pos(i);
    vstd::arithmetic::div_mod::lemma_div_denominator(x as int, two_to(i) as int, 2);
    assert(two_to(i + 1) == two_to(i) * 2);
}

proof fn lemma_div_le(x: nat, d: nat)
    requires
        d > 0,
    ensures
        x / d <= x,
{
    vstd::arithmetic::div_mod::lemma_div_is_ordered_by_denominator(x as int, 1, d as int);
}

proof fn lemma_octave_count_bound(w: nat, h: nat, limit: nat, i: nat)
    requires
        i <= limit,
    ensures
        i <= octave_count(w, h, limit, i) <= limit,
    decreases limit - i,
{
    if i < limit && octave_accepted(w, h, i) {
        lemma_octave_count_bound(w, h, limit, i + 1);
    }
}

/// The steps of the scale space of a `width` x `height` image: octaves
/// `0, 1, ...` below `max_octave_evolution - 1`, stopping at the first
/// octave after the first whose image would be smaller than 80 x 40, and
/// `num_sublevels` steps in each.
pub fn evolution_levels(
    width: u32,
    height: u32,
    num_sublevels: u32,
    max_octave_evolution: u32,
) -> (r: Vec<EvolutionLevel>)
    ensures
        r@ == levels(width as nat, height as nat, num_sublevels as nat, max_octave_evolution as nat),
{
    let ghost w = width as nat;
    let ghost h = height as nat;
    let ghost ns = num_sublevels as nat;
    let limit: u32 = if max_octave_evolution == 0 {
        0
    } else {
        max_octave_evolution - 1
    };
    let mut out: Vec<EvolutionLevel> = Vec::new();
    let mut level_width: u32 = width;
    let mut level_height: u32 = height;
    let mut i: u32 = 0;
    proof {
        lemma_octave_count_bound(w, h, limit as nat, 0);
        assert(two_to(0) == 1);
        assert(w / 1 == w);
        assert(h / 1 == h);
    }
    while i < limit
        invariant
            i <= limit,
            limit == octave_limit(max_octave_evolution as nat),
            w == width,
            h == height,
            ns == num_sublevels,
            level_width == w / two_to(i as nat),
            level_height == h / two_to(i as nat),
            octave_count(w, h, limit as nat, 0) == octave_count(w, h, limit as nat, i as nat),
            out@.len() == i * ns,
            forall|k: int| 0 <= k < out@.len() ==> #[trigger] out@[k] == level_at(w, h, ns, k as nat),
        ensures
            i == limit || !octave_accepted(w, h, i as nat),
            i <= limit,
            octave_count(w, h, limit as nat, 0) == octave_count(w, h, limit as nat, i as nat),
            out@.len() == i * ns,
            forall|k: int| 0 <= k < out@.len() ==> #[trigger] out@[k] == level_at(w, h, ns, k as nat),
        decreases limit - i,
    {
        if !(i == 0 || (level_width >= MIN_OCTAVE_WIDTH && level_height >= MIN_OCTAVE_HEIGHT)) {
            break;
        }
        let mut j: u32 = 0;
        while j < num_sublevels
            invariant
                i < limit,
                j <= num_sublevels,
                w == width,
                h == height,
                ns == num_sublevels,
                level_width == w / two_to(i as nat),
                level_height == h / two_to(i as nat),
                out@.len() == i * ns + j,
                forall|k: int|
                    0 <= k < out@.len() ==> #[trigger] out@[k] == level_at(w, h, ns, k as nat),
            decreases num_sublevels - j,
        {
            let ghost k = (i * ns + j) as nat;
            proof {
                assert(k / ns == i as nat && k % ns == j as nat) by (nonlinear_arith)
                    requires
                        k == i * ns + j,
                        j < ns,
                ;
            }
            out.push(EvolutionLevel { octave: i, sublevel: j, width: level_width, height: level_height });
            j = j + 1;
        }
        proof {
            lemma_halve(w, i as nat);
            lemma_halve(h, i as nat);
            assert(out@.len() == (i + 1) * ns) by (nonlinear_arith)
                requires
                    out@.len() == i * ns + ns,
            ;
        }
        level_width = level_width / 2;
        level_height = level_height / 2;
        i = i + 1;
    }
    proof {
        lemma_octave_count_bound(w, h, limit as nat, i as nat);
        assert(octave_count(w, h, limit as nat, i as nat) == i);
    }
    assert(out@ =~= levels(w, h, ns, max_octave_evolution as nat));
    out
}

proof fn lemma_level_fields(w: nat, h: nat, num_sublevels: nat, max_octave_evolution: nat, k: nat)
    requires
        w <= u32::MAX,
        h <= u32::MAX,
        max_octave_evolution <= u32::MAX,
        num_sublevels <= u32::MAX,
        k < levels(w, h, num_sublevels, max_octave_evolution).len(),
    ensures
        num_sublevels > 0,
        ({
            let l = levels(w, h, num_sublevels, max_octave_evolution)[k as int];
            &&& l.octave == k / num_sublevels
            &&& l.sublevel == k % num_sublevels
            &&& l.width == w / two_to(k / num_sublevels)
            &&& l.height == h / two_to(k / num_sublevels)
        }),
{
    let limit = octave_limit(max_octave_evolution);
    let count = octave_count(w, h, limit, 0);
    lemma_octave_count_bound(w, h, limit, 0);
    assert(num_sublevels > 0) by (nonlinear_arith)
        requires
            k < count * num_sublevels,
    ;
    assert(k / num_sublevels < count) by (nonlinear_arith)
        requires
            k < count * num_sublevels,
            num_sublevels > 0,
    ;
    vstd::arithmetic::div_mod::lemma_mod_pos_bound(k as int, num_sublevels as int);
    lemma_two_to_pos(k / num_sublevels);
    lemma_div_le(w, two_to(k / num_sublevels));
    lemma_div_le(h, two_to(k / num_sublevels));
    let l = levels(w, h, num_sublevels, max_octave_evolution)[k as int];
    assert(l == level_at(w, h, num_sublevels, k));
    assert(count <= limit);
    assert(limit <= u32::MAX);
    assert(l.octave == k / num_sublevels);
    assert(l.sublevel == k % num_sublevels);
    assert(l.width == w / two_to(k / num_sublevels));
}

/// Within an octave the image size is constant; where the octave grows it
/// grows by one and the image size is halved, rounding down.
pub proof fn lemma_level_dimensions(
    width: u32,
    height: u32,
    num_sublevels: u32,
    max_octave_evolution: u32,
    k: nat,
)
    requires
        k + 1 < levels(width as nat, height as nat, num_sublevels as nat, max_octave_evolution as nat).len(),
    ensures
        ({
            let ls = levels(width as nat, height as nat, num_sublevels as nat, max_octave_evolution as nat);
            let a = ls[k as int];
            let b = ls[(k + 1) as int];
            ||| (b.octave == a.octave && b.width == a.width && b.height == a.height)
            ||| (b.octave == a.octave + 1 && b.width == a.width / 2 && b.height == a.height / 2)
        }),
{
    let w = width as nat;
    let h = height as nat;
    let ns = num_sublevels as nat;
    let m = max_octave_evolution as nat;
    lemma_level_fields(w, h, ns, m, k);
    lemma_level_fields(w, h, ns, m, k + 1);
    let o = k / ns;
    assert((k + 1) / ns == o || (k + 1) / ns == o + 1) by (nonlinear_arith)
        requires
            ns > 0,
            o == k / ns,
    ;
    if (k + 1) / ns == o + 1 {
        lemma_halve(w, o);
        lemma_halve(h, o);
    }
}

/// Steps are ordered by scale: `octave * num_sublevels + sublevel`, the
/// exponent of the step's scale in units of `1 / num_sublevels` octave,
/// strictly increases along the list, and every sublevel is below
/// `num_sublevels`.
pub proof fn lemma_level_order(
    width: u32,
    height: u32,
    num_sublevels: u32,
    max_octave_evolution: u32,
)
    ensures
        ({
            let ls = levels(width as nat, height as nat, num_sublevels as nat, max_octave_evolution as nat);
            &&& forall|k: int| 0 <= k < ls.len() ==> (#[trigger] ls[k]).sublevel < num_sublevels
            &&& forall|k1: int, k2: int|
                0 <= k1 < k2 < ls.len() ==> (#[trigger] ls[k1]).octave * num_sublevels + ls[k1].sublevel
                    < (#[trigger] ls[k2]).octave * num_sublevels + ls[k2].sublevel
        }),
{
    let w = width as nat;
    let h = height as nat;
    let ns = num_sublevels as nat;
    let m = max_octave_evolution as nat;
    let ls = levels(w, h, ns, m);
    assert forall|k: int| 0 <= k < ls.len() implies (#[trigger] ls[k]).sublevel < num_sublevels
        && ls[k].octave * num_sublevels + ls[k].sublevel == k by {
        lemma_level_fields(w, h, ns, m, k as nat);
        let n = ns as int;
        vstd::arithmetic::div_mod::lemma_fundamental_div_mod(k, n);
        assert((k / n) * n == n * (k / n)) by (nonlinear_arith);
    }
}

/// The character of decimal digit `d`.
pub open spec fn digit_char(d: nat) -> char {
    if d == 0 {
        '0'
    } else if d == 1 {
        '1'
    } else if d == 2 {
        '2'
    } else if d == 3 {
        '3'
    } else if d == 4 {
        '4'
    } else if d == 5 {
        '5'
    } else if d == 6 {
        '6'
    } else if d == 7 {
        '7'
    } else if d == 8 {
        '8'
    } else {
        '9'
    }
}

/// The decimal digits of `n`, without leading zeros.
pub open spec fn decimal(n: nat) -> Seq<char>
    decreases n,
{
    if n < 10 {
        seq![digit_char(n)]
    } else {
        decimal(n / 10).push(digit_char(n % 10))
    }
}

/// The decimal digits of `n`, with zeros in front up to `width` characters.
pub open spec fn zero_padded(n: nat, width: nat) -> Seq<char> {
    let d = decimal(n);
    if d.len() >= width {
        d
    } else {
        Seq::new((width - d.len()) as nat, |i: int| '0') + d
    }
}

/// Where an evolution image goes: `<label><index, five digits>.png`, under
/// `dir` (joined with `/`) unless `dir` is empty.
pub open spec fn debug_path(dir: Seq<char>, label: Seq<char>, idx: nat) -> Seq<char> {
    let name = label + zero_padded(idx, 5) + seq!['.', 'p', 'n', 'g'];
    if dir.len() == 0 {
        name
    } else {
        dir + seq!['/'] + name
    }
}

fn digit_str(d: usize) -> (r: &'static str)
    requires
        d < 10,
    ensures
        r@ == seq![digit_char(d as nat)],
{
    proof {
        reveal_strlit("0");
        reveal_strlit("1");
        reveal_strlit("2");
        reveal_strlit("3");
        reveal_strlit("4");
        reveal_strlit("5");
        reveal_strlit("6");
        reveal_strlit("7");
        reveal_strlit("8");
        reveal_strlit("9");
    }
    if d == 0 {
        "0"
    } else if d == 1 {
        "1"
    } else if d == 2 {
        "2"
    } else if d == 3 {
        "3"
    } else if d == 4 {
        "4"
    } else if d == 5 {
        "5"
    } else if d == 6 {
        "6"
    } else if d == 7 {
        "7"
    } else if d == 8 {
        "8"
    } else {
        "9"
    }
}

fn decimal_len(n: usize) -> (r: usize)
    ensures
        r == decimal(n as nat).len(),
        r <= 20,
    decreases n,
{
    if n < 10 {
        1
    } else {
        let r = decimal_len(n / 10);
        proof {
            lemma_decimal_len_bound(n as nat);
        }
        r + 1
    }
}

proof fn lemma_decimal_len_bound(n: nat)
    requires
        n <= usize::MAX,
    ensures
        decimal(n).len() <= 20,
{
    lemma_decimal_len_mono(n, 0xffff_ffff_ffff_ffff);
    reveal_with_fuel(decimal, 21);
}

proof fn lemma_decimal_len_mono(m: nat, n: nat)
    requires
        m <= n,
    ensures
        decimal(m).len() <= decimal(n).len(),
    decreases n,
{
    if m >= 10 {
        lemma_decimal_len_mono(m / 10, n / 10);
    } else {
        assert(decimal(m).len() == 1);
    }
}

fn append_decimal(s: &mut String, n: usize)
    ensures
        final(s)@ == old(s)@ + decimal(n as nat),
    decreases n,
{
    if n >= 10 {
        append_decimal(s, n / 10);
    }
    s.append(digit_str(n % 10));
    assert(s@ =~= old(s)@ + decimal(n as nat));
}

/// The file name of evolution image `idx` of the kind `path_label` under
/// `destination_dir`: the label, the index with at least five digits, and
/// `.png`.
pub fn build_path(destination_dir: &str, path_label: &str, idx: usize) -> (r: String)
    ensures
        r@ == debug_path(destination_dir@, path_label@, idx as nat),
{
    let mut out = String::new();
    if !destination_dir.is_empty() {
        out.append(destination_dir);
        proof {
            reveal_strlit("/");
        }
        out.append("/");
    }
    let ghost prefix = out@;
    out.append(path_label);
    let len = decimal_len(idx);
    let mut k: usize = len;
    proof {
        reveal_strlit("0");
    }
    while k < 5
        invariant
            len <= k,
            len == decimal(idx as nat).len(),
            len >= 5 ==> k == len,
            len < 5 ==> k <= 5,
            out@ == prefix + path_label@ + Seq::new((k - len) as nat, |i: int| '0'),
        decreases 5 - k,
    {
        proof {
            reveal_strlit("0");
        }
        out.append("0");
        assert(out@ =~= prefix + path_label@ + Seq::new((k - len) as nat, |i: int| '0').push('0'));
        assert(Seq::new((k + 1 - len) as nat, |i: int| '0') =~= Seq::new(
            (k - len) as nat,
            |i: int| '0',
        ).push('0'));
        k = k + 1;
    }
    append_decimal(&mut out, idx);
    proof {
        reveal_strlit(".png");
    }
    out.append(".png");
    proof {
        let pad = Seq::new((k - len) as nat, |i: int| '0');
        if len >= 5 {
            assert(pad =~= seq![]);
        }
        assert(zero_padded(idx as nat, 5) =~= pad + decimal(idx as nat));
        assert(out@ =~= debug_path(destination_dir@, path_label@, idx as nat));
    }
    out
}

} // verus!
