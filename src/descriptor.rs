//! Binary M-LDB descriptors: their byte layout and the packing of the
//! pairwise cell comparisons into bits.
//!
//! Cell means are handed in as order keys: unsigned integers that compare
//! as the means they stand for, so that `a > b` of two keys is `a > b` of
//! the means.
use vstd::prelude::*;

verus! {

/// A binary feature descriptor; bit `p` lives in byte `p / 8` at
/// position `p % 8`, least significant bit first.
#[derive(Debug, Clone)]
pub struct Descriptor {
    pub vector: Vec<u8>,
}

/// Comparisons per channel on the three grid levels: C(4,2), C(9,2) and
/// C(16,2), that is 6 + 36 + 120.
pub const BITS_PER_CHANNEL: usize = 162;

/// Bytes of a descriptor with `channels` channels: the comparison bits,
/// rounded up to whole bytes.
pub open spec fn descriptor_len(channels: nat) -> nat {
    (BITS_PER_CHANNEL as nat * channels + 7) / 8
}

/// Bit `b` of `v`, counting from the least significant.
pub open spec fn nth_bit(v: nat, b: nat) -> bool
    decreases b,
{
    if b == 0 {
        v % 2 == 1
    } else {
        nth_bit(v / 2, (b - 1) as nat)
    }
}

/// Bit `p` of a descriptor's bytes.
pub open spec fn descriptor_bit(bytes: Seq<u8>, p: nat) -> bool {
    nth_bit(bytes[(p / 8) as int] as nat, p % 8)
}

/// Entry `p` of `bits`, false past its end.
pub open spec fn bit_at(bits: Seq<bool>, p: int) -> bool {
    0 <= p < bits.len() && bits[p]
}

/// Whether cell `i` is greater than cell `j` in channel `pos`, the cells'
/// channels being interleaved.
pub open spec fn cell_greater(values: Seq<u32>, channels: nat, pos: nat, i: nat, j: nat) -> bool {
    values[(channels * i + pos) as int] > values[(channels * j + pos) as int]
}

/// Comparisons of cell `i` with the cells `i + 1 .. j_end`.
pub open spec fn row_bits(values: Seq<u32>, channels: nat, pos: nat, i: nat, j_end: nat) -> Seq<
    bool,
> {
    if j_end <= i + 1 {
        seq![]
    } else {
        Seq::new(
            (j_end - i - 1) as nat,
            |k: int| cell_greater(values, channels, pos, i, (i + 1 + k) as nat),
        )
    }
}

/// Comparisons of channel `pos` for the cells `0 .. i_end` against every
/// later cell among `count`.
pub open spec fn channel_bits(values: Seq<u32>, channels: nat, pos: nat, count: nat, i_end: nat) -> Seq<
    bool,
>
    decreases i_end,
{
    if i_end == 0 {
        seq![]
    } else {
        channel_bits(values, channels, pos, count, (i_end - 1) as nat) + row_bits(
            values,
            channels,
            pos,
            (i_end - 1) as nat,
            count,
        )
    }
}

/// Comparisons of the channels `0 .. pos_end` of one grid level with
/// `count` cells, channel by channel, then by `i`, then by `j > i`.
pub open spec fn comparison_bits(values: Seq<u32>, channels: nat, count: nat, pos_end: nat) -> Seq<
    bool,
>
    decreases pos_end,
{
    if pos_end == 0 {
        seq![]
    } else {
        comparison_bits(values, channels, count, (pos_end - 1) as nat) + channel_bits(
            values,
            channels,
            (pos_end - 1) as nat,
            count,
            count,
        )
    }
}

/// Every comparison bit of a descriptor: the 2x2, 3x3 and 4x4 grid levels
/// in turn.
pub open spec fn mldb_bits(
    values_0: Seq<u32>,
    values_1: Seq<u32>,
    values_2: Seq<u32>,
    channels: nat,
) -> Seq<bool> {
    comparison_bits(values_0, channels, 4, channels) + comparison_bits(
        values_1,
        channels,
        9,
        channels,
    ) + comparison_bits(values_2, channels, 16, channels)
}

proof fn lemma_channel_bits_len(values: Seq<u32>, channels: nat, pos: nat, count: nat, i: nat)
    requires
        i <= count,
    ensures
        2 * channel_bits(values, channels, pos, count, i).len() == i * (2 * count - i - 1),
    decreases i,
{
    if i > 0 {
        lemma_channel_bits_len(values, channels, pos, count, (i - 1) as nat);
        let prev = channel_bits(values, channels, pos, count, (i - 1) as nat).len();
        let row = row_bits(values, channels, pos, (i - 1) as nat, count).len();
        assert(row == count - i);
        assert(channel_bits(values, channels, pos, count, i).len() == prev + row);
        assert(2 * channel_bits(values, channels, pos, count, i).len() == 2 * (prev + row));
        assert(2 * (prev + row) == i * (2 * count - i - 1)) by (nonlinear_arith)
            requires
                2 * prev == (i - 1) * (2 * count - (i - 1) - 1),
                row == count - i,
                i <= count,
        ;
        assert(2 * channel_bits(values, channels, pos, count, i).len() == i * (2 * count - i - 1));
    } else {
        assert(channel_bits(values, channels, pos, count, i).len() == 0);
    }
}

proof fn lemma_comparison_bits_len(values: Seq<u32>, channels: nat, count: nat, pos: nat)
    ensures
        2 * comparison_bits(values, channels, count, pos).len() == pos * (count * (count - 1)),
    decreases pos,
{
    if count == 0 {
        lemma_comparison_bits_len_empty(values, channels, pos);
        assert(pos * (count * (count - 1)) == 0) by (nonlinear_arith)
            requires
                count == 0,
        ;
    } else if pos == 0 {
        assert(comparison_bits(values, channels, count, pos).len() == 0);
    } else {
        lemma_comparison_bits_len(values, channels, count, (pos - 1) as nat);
        lemma_channel_bits_len(values, channels, (pos - 1) as nat, count, count);
        let prev = comparison_bits(values, channels, count, (pos - 1) as nat).len();
        let ch = channel_bits(values, channels, (pos - 1) as nat, count, count).len();
        assert(comparison_bits(values, channels, count, pos).len() == prev + ch);
        assert(2 * (prev + ch) == pos * (count * (count - 1))) by (nonlinear_arith)
            requires
                2 * prev == (pos - 1) * (count * (count - 1)),
                2 * ch == count * (2 * count - count - 1),
                count >= 1,
        ;
        assert(2 * comparison_bits(values, channels, count, pos).len() == pos * (count * (count
            - 1)));
    }
}

proof fn lemma_comparison_bits_len_empty(values: Seq<u32>, channels: nat, pos: nat)
    ensures
        comparison_bits(values, channels, 0, pos).len() == 0,
    decreases pos,
{
    if pos > 0 {
        lemma_comparison_bits_len_empty(values, channels, (pos - 1) as nat);
    }
}

/// A descriptor has 162 comparison bits per channel.
pub proof fn lemma_mldb_bits_len(
    values_0: Seq<u32>,
    values_1: Seq<u32>,
    values_2: Seq<u32>,
    channels: nat,
)
    ensures
        mldb_bits(values_0, values_1, values_2, channels).len() == BITS_PER_CHANNEL as nat
            * channels,
{
    lemma_comparison_bits_len(values_0, channels, 4, channels);
    lemma_comparison_bits_len(values_1, channels, 9, channels);
    lemma_comparison_bits_len(values_2, channels, 16, channels);
    let a = comparison_bits(values_0, channels, 4, channels);
    let b = comparison_bits(values_1, channels, 9, channels);
    let c = comparison_bits(values_2, channels, 16, channels);
    assert(mldb_bits(values_0, values_1, values_2, channels).len() == a.len() + b.len()
        + c.len());
    assert(a.len() + b.len() + c.len() == 162 * channels) by (nonlinear_arith)
        requires
            2 * a.len() == channels * (4 * (4 - 1)),
            2 * b.len() == channels * (9 * (9 - 1)),
            2 * c.len() == channels * (16 * (16 - 1)),
    ;
}

proof fn lemma_cell_index(channels: nat, count: nat, pos: nat, j: nat)
    requires
        pos < channels,
        j < count,
    ensures
        channels * j + pos < channels * count,
{
    assert(channels * j + pos < channels * count) by (nonlinear_arith)
        requires
            pos < channels,
            j < count,
    ;
}

/// Append the comparison bits of one grid level with `count` cells to
/// `bits`: for each channel, for each cell `i`, for each later cell `j`,
/// whether cell `i` is greater than cell `j`.
pub fn mldb_binary_comparisons(
    values: &Vec<u32>,
    bits: &mut Vec<bool>,
    count: usize,
    nr_channels: usize,
)
    requires
        nr_channels * count <= values@.len(),
    ensures
        final(bits)@ == old(bits)@ + comparison_bits(
            values@,
            nr_channels as nat,
            count as nat,
            nr_channels as nat,
        ),
{
    let ghost start = bits@;
    let ghost v = values@;
    let ghost ch = nr_channels as nat;
    let n: usize = values.len();
    let mut pos: usize = 0;
    while pos < nr_channels
        invariant
            pos <= nr_channels,
            v == values@,
            ch == nr_channels,
            nr_channels * count <= values@.len(),
            n == values@.len(),
            bits@ == start + comparison_bits(v, ch, count as nat, pos as nat),
        decreases nr_channels - pos,
    {
        let mut i: usize = 0;
        while i < count
            invariant
                pos < nr_channels,
                i <= count,
                v == values@,
                ch == nr_channels,
                nr_channels * count <= values@.len(),
                n == values@.len(),
                bits@ == start + comparison_bits(v, ch, count as nat, pos as nat) + channel_bits(
                    v,
                    ch,
                    pos as nat,
                    count as nat,
                    i as nat,
                ),
            decreases count - i,
        {
            proof {
                lemma_cell_index(ch, count as nat, pos as nat, i as nat);
            }
            let ival = values[nr_channels * i + pos];
            let mut j: usize = i + 1;
            while j < count
                invariant
                    pos < nr_channels,
                    i < count,
                    i + 1 <= j <= count,
                    v == values@,
                    ch == nr_channels,
                    nr_channels * count <= values@.len(),
                    n == values@.len(),
                    ival == v[(ch * i + pos) as int],
                    bits@ == start + comparison_bits(v, ch, count as nat, pos as nat)
                        + channel_bits(v, ch, pos as nat, count as nat, i as nat) + row_bits(
                        v,
                        ch,
                        pos as nat,
                        i as nat,
                        j as nat,
                    ),
                decreases count - j,
            {
                proof {
                    lemma_cell_index(ch, count as nat, pos as nat, j as nat);
                }
                let res = ival > values[nr_channels * j + pos];
                bits.push(res);
                proof {
                    let a = start + comparison_bits(v, ch, count as nat, pos as nat)
                        + channel_bits(v, ch, pos as nat, count as nat, i as nat);
                    assert(row_bits(v, ch, pos as nat, i as nat, (j + 1) as nat) =~= row_bits(
                        v,
                        ch,
                        pos as nat,
                        i as nat,
                        j as nat,
                    ).push(res));
                    assert(bits@ =~= a + row_bits(v, ch, pos as nat, i as nat, (j + 1) as nat));
                }
                j = j + 1;
            }
            proof {
                let a = start + comparison_bits(v, ch, count as nat, pos as nat);
                let c = channel_bits(v, ch, pos as nat, count as nat, i as nat);
                let r = row_bits(v, ch, pos as nat, i as nat, count as nat);
                assert(channel_bits(v, ch, pos as nat, count as nat, (i + 1) as nat) == c + r);
                assert(bits@ =~= a + (c + r));
            }
            i = i + 1;
        }
        proof {
            let c = comparison_bits(v, ch, count as nat, pos as nat);
            let d = channel_bits(v, ch, pos as nat, count as nat, count as nat);
            assert(comparison_bits(v, ch, count as nat, (pos + 1) as nat) == c + d);
            assert(bits@ =~= start + (c + d));
        }
        pos = pos + 1;
    }
}

/// `2^n`.
pub open spec fn two_to(n: nat) -> nat
    decreases n,
{
    if n == 0 {
        1
    } else {
        2 * two_to((n - 1) as nat)
    }
}

/// The number whose bits, least significant first, are the `n` entries of
/// `bits` from `start` on (false past its end).
pub open spec fn byte_value(bits: Seq<bool>, start: int, n: nat) -> nat
    decreases n,
{
    if n == 0 {
        0
    } else {
        (if bit_at(bits, start) { 1nat } else { 0nat }) + 2 * byte_value(bits, start + 1, (n - 1) as nat)
    }
}

proof fn lemma_byte_value_bit(bits: Seq<bool>, start: int, n: nat, b: nat)
    requires
        b < n,
    ensures
        nth_bit(byte_value(bits, start, n), b) == bit_at(bits, start + b),
    decreases b,
{
    let low: nat = if bit_at(bits, start) { 1 } else { 0 };
    let rest = byte_value(bits, start + 1, (n - 1) as nat);
    let v = byte_value(bits, start, n);
    assert(v == low + 2 * rest);
    assert(v % 2 == low);
    assert(v / 2 == rest);
    if b > 0 {
        lemma_byte_value_bit(bits, start + 1, (n - 1) as nat, (b - 1) as nat);
    }
}

proof fn lemma_two_to_mono(j: nat, k: nat)
    requires
        j <= k,
    ensures
        two_to(j) <= two_to(k),
    decreases k,
{
    if j < k {
        lemma_two_to_mono(j, (k - 1) as nat);
    }
}

proof fn lemma_two_to_8()
    ensures
        two_to(8) == 256,
{
    reveal_with_fuel(two_to, 9);
}

/// The byte that holds entries `base .. base + 8` of `bits`.
fn pack_byte(bits: &Vec<bool>, base: usize) -> (r: u8)
    requires
        base <= usize::MAX - 8,
    ensures
        r as nat == byte_value(bits@, base as int, 8),
{
    proof {
        lemma_two_to_8();
    }
    let mut x: u32 = 0;
    let mut b: usize = 8;
    while b > 0
        invariant
            b <= 8,
            base <= usize::MAX - 8,
            two_to(8) == 256,
            x as nat == byte_value(bits@, base + b, (8 - b) as nat),
            x < two_to((8 - b) as nat),
        decreases b,
    {
        proof {
            lemma_two_to_mono((8 - b) as nat, 7);
            lemma_two_to_mono(7, 8);
        }
        b = b - 1;
        let bit: u32 = if base + b < bits.len() && bits[base + b] {
            1
        } else {
            0
        };
        x = x * 2 + bit;
    }
    x as u8
}

/// Pack `bits` into `num_bytes` bytes, least significant bit first; bits
/// past the end of `bits` are zero.
pub fn pack_bits(bits: &Vec<bool>, num_bytes: usize) -> (r: Vec<u8>)
    requires
        num_bytes <= usize::MAX / 8,
    ensures
        r@.len() == num_bytes,
        forall|p: nat| p < 8 * num_bytes ==> #[trigger] descriptor_bit(r@, p) == bit_at(bits@, p as int),
{
    let mut out: Vec<u8> = Vec::new();
    let mut k: usize = 0;
    while k < num_bytes
        invariant
            k <= num_bytes,
            num_bytes <= usize::MAX / 8,
            out@.len() == k,
            forall|i: int| 0 <= i < k ==> #[trigger] out@[i] as nat == byte_value(bits@, 8 * i, 8),
        decreases num_bytes - k,
    {
        let byte = pack_byte(bits, 8 * k);
        out.push(byte);
        k = k + 1;
    }
    assert forall|p: nat| p < 8 * num_bytes implies #[trigger] descriptor_bit(out@, p) == bit_at(
        bits@,
        p as int,
    ) by {
        let i = (p / 8) as int;
        assert(0 <= i < num_bytes);
        assert(8 * i + p % 8 == p);
        lemma_byte_value_bit(bits@, 8 * i, 8, p % 8);
    }
    out
}

/// Byte length of a descriptor with `channels` channels.
pub fn descriptor_byte_len(channels: usize) -> (r: usize)
    requires
        channels <= 3,
    ensures
        r == descriptor_len(channels as nat),
{
    (BITS_PER_CHANNEL * channels + 7) / 8
}

/// The M-LDB descriptor of the cell order keys of the three grid levels:
/// `values_0` holds the 2x2 cells, `values_1` the 3x3 cells and `values_2`
/// the 4x4 cells, each cell's `channels` keys side by side. Its bits are
/// those of `mldb_bits`, packed least significant first, with zeros in the
/// unused high bits of the last byte.
pub fn mldb_descriptor(
    values_0: &Vec<u32>,
    values_1: &Vec<u32>,
    values_2: &Vec<u32>,
    channels: usize,
) -> (r: Descriptor)
    requires
        1 <= channels <= 3,
        4 * channels <= values_0@.len(),
        9 * channels <= values_1@.len(),
        16 * channels <= values_2@.len(),
    ensures
        r.vector@.len() == descriptor_len(channels as nat),
        forall|p: nat|
            p < 8 * r.vector@.len() ==> #[trigger] descriptor_bit(r.vector@, p) == bit_at(
                mldb_bits(values_0@, values_1@, values_2@, channels as nat),
                p as int,
            ),
{
    let mut bits: Vec<bool> = Vec::new();
    mldb_binary_comparisons(values_0, &mut bits, 4, channels);
    mldb_binary_comparisons(values_1, &mut bits, 9, channels);
    mldb_binary_comparisons(values_2, &mut bits, 16, channels);
    assert(bits@ =~= mldb_bits(values_0@, values_1@, values_2@, channels as nat));
    let vector = pack_bits(&bits, descriptor_byte_len(channels));
    Descriptor { vector }
}

} // verus!
