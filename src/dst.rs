//! The banded bit-parallel DP: one sweep over the target, column by column.
use vstd::prelude::*;
use crate::align::{Alignment, AlignmentData};
use crate::error::AlignError;
use crate::block::{blocks_for, row_value, Block, Word, MAX_SEQUENCE_LEN};
use crate::dp::{
    covered, dp_cell, dp_exact, dp_ge, lemma_block_above, lemma_dp_nonneg, lemma_block_step, lemma_block_step_exact,
    lemma_cover_above, lemma_cover_below_grown, lemma_cover_below_kept, lemma_dp_horizontal,
    lemma_dp_vertical, lemma_fresh_rows, lemma_padded_rows, lemma_row_index_zero, lemma_top_row,
    padded_wild, peq_cost,
    row_min,
};
use crate::mode::AlignMode;

verus! {

/// Every this many columns the band is reduced cell by cell.
pub const STRONG_REDUCE_NUM: usize = 2048;

/// Above every score the engine can reach: a threshold this large prunes nothing.
pub const K_LIMIT: usize = 0x2000_0000;

/// Most blocks a query of accepted length needs.
pub const MAX_BLOCKS: usize = 0x20_0001;

/// Inputs of one DP sweep fit together: the profile covers every target symbol, and `w`
/// is the padding of the last block.
pub open spec fn dp_input(peq: Seq<Word>, w: int, max_num_blocks: int, query_len: int, target: Seq<usize>) -> bool {
    &&& 1 <= query_len <= MAX_SEQUENCE_LEN
    &&& target.len() <= MAX_SEQUENCE_LEN
    &&& max_num_blocks == blocks_for(query_len)
    &&& w == max_num_blocks * 64 - query_len
    &&& forall|i: int| 0 <= i < target.len() ==> (#[trigger] target[i] + 1) * max_num_blocks <= peq.len()
}

/// End locations: at least one, ascending, each in `-1 ..= n - 1`.
pub open spec fn locations_ok(e: Seq<isize>, n: int) -> bool {
    &&& e.len() > 0
    &&& forall|i: int| 0 <= i < e.len() ==> -1 <= #[trigger] e[i] <= n - 1
    &&& forall|i: int, j: int| 0 <= i < j < e.len() ==> e[i] < e[j]
}

/// After `c` columns each block is well formed and its score lies in a range that keeps
/// every computation on it within `isize`.
pub open spec fn band_bounds(blocks: Seq<Block>, c: int) -> bool {
    forall|b: int|
        0 <= b < blocks.len() ==> (#[trigger] blocks[b]).wf() && (b + 1) * 64 - c <= blocks[b].score
            <= (b + 1) * 66 + 2 * c
}

/// Blocks `first .. end` each stay at or above the matrix column `j`, and each one's cell
/// above agrees with the last cell of the block before it.
pub open spec fn band_ge(blocks: Seq<Block>, first: int, end: int, peq: Seq<Word>, target: Seq<usize>, free_start: bool, j: int) -> bool {
    &&& forall|b: int| first <= b < end ==> dp_ge(#[trigger] blocks[b], b, peq, blocks.len() as int, target, free_start, j)
    &&& forall|b: int| first < b < end ==> row_value(#[trigger] blocks[b], -1) == row_value(blocks[b - 1], 63)
}

/// Blocks `first .. end` each hold exactly the matrix cells of column `j` that are at most `k`.
pub open spec fn band_exact(blocks: Seq<Block>, first: int, end: int, peq: Seq<Word>, target: Seq<usize>, free_start: bool, j: int, k: int) -> bool {
    forall|b: int| first <= b < end ==> dp_exact(#[trigger] blocks[b], b, peq, blocks.len() as int, target, free_start, j, k)
}

proof fn lemma_band_exact_extend(before: Seq<Block>, after: Seq<Block>, first: int, end: int, peq: Seq<Word>, target: Seq<usize>, free_start: bool, j: int, k: int)
    requires
        band_exact(before, first, end, peq, target, free_start, j, k),
        after.len() == before.len(),
        0 <= first <= end < after.len(),
        forall|x: int| 0 <= x < after.len() && x != end ==> #[trigger] after[x] == before[x],
        dp_exact(after[end], end, peq, after.len() as int, target, free_start, j, k),
    ensures
        band_exact(after, first, end + 1, peq, target, free_start, j, k),
{
    assert forall|b: int| first <= b < end + 1 implies dp_exact(#[trigger] after[b], b, peq, after.len() as int, target, free_start, j, k) by {
        if b < end {
            assert(after[b] == before[b]);
        }
    }
}

proof fn lemma_band_ge_sub(blocks: Seq<Block>, lo: int, hi: int, first: int, end: int, peq: Seq<Word>, target: Seq<usize>, free_start: bool, j: int)
    requires
        band_ge(blocks, lo, hi, peq, target, free_start, j),
        lo <= first,
        end <= hi,
    ensures
        band_ge(blocks, first, end, peq, target, free_start, j),
{
    assert forall|b: int| first <= b < end implies dp_ge(#[trigger] blocks[b], b, peq, blocks.len() as int, target, free_start, j) by {
        assert(lo <= b < hi);
    }
    assert forall|b: int| first < b < end implies row_value(#[trigger] blocks[b], -1) == row_value(blocks[b - 1], 63) by {
        assert(lo < b < hi);
    }
}

/// The initial blocks are column `-1` of the matrix exactly.
proof fn lemma_initial_band(blocks: Seq<Block>, peq: Seq<Word>, target: Seq<usize>, free_start: bool, k: int)
    requires
        forall|b: int|
            0 <= b < blocks.len() ==> (#[trigger] blocks[b]).p == 0xffff_ffff_ffff_ffffu64
                && blocks[b].m == 0 && blocks[b].score == (b + 1) * 64,
    ensures
        band_ge(blocks, 0, blocks.len() as int, peq, target, free_start, -1),
        band_exact(blocks, 0, blocks.len() as int, peq, target, free_start, -1, k),
{
    assert forall|b: int| 0 <= b < blocks.len() implies dp_exact(#[trigger] blocks[b], b, peq, blocks.len() as int, target, free_start, -1, k) by {
        assert forall|r: int| -1 <= r < 64 && dp_cell(peq, blocks.len() as int, target, free_start, 64 * b + r, -1) <= k
            implies #[trigger] row_value(blocks[b], r) == dp_cell(peq, blocks.len() as int, target, free_start, 64 * b + r, -1) by {
            lemma_fresh_rows(blocks[b], r);
        }
    }
    let nb = blocks.len() as int;
    assert forall|b: int| 0 <= b < nb implies dp_ge(#[trigger] blocks[b], b, peq, nb, target, free_start, -1) by {
        assert forall|r: int| -1 <= r < 64 implies #[trigger] row_value(blocks[b], r) >= dp_cell(peq, nb, target, free_start, 64 * b + r, -1) by {
            lemma_fresh_rows(blocks[b], r);
        }
    }
    assert forall|b: int| 0 < b < nb implies row_value(#[trigger] blocks[b], -1) == row_value(blocks[b - 1], 63) by {
        lemma_fresh_rows(blocks[b], -1);
        lemma_fresh_rows(blocks[b - 1], 63);
    }
}

/// The cell above the first block of the band, moved by the column's entry delta, is at
/// least its matrix cell.
proof fn lemma_band_entry(block: Block, first: int, peq: Seq<Word>, nb: int, target: Seq<usize>, free_start: bool, hin: int, c: int)
    requires
        dp_ge(block, first, peq, nb, target, free_start, c - 1),
        c >= 0,
        first >= 0,
        free_start ==> first == 0 && hin == 0,
        !free_start ==> hin == 1,
    ensures
        row_value(block, -1) + hin >= dp_cell(peq, nb, target, free_start, 64 * first - 1, c),
{
    assert(row_value(block, -1) >= dp_cell(peq, nb, target, free_start, 64 * first + -1, c - 1));
    assert(64 * first + -1 == 64 * first - 1);
    lemma_dp_horizontal(peq, nb, target, free_start, 64 * first - 1, c);
}

proof fn lemma_band_ge_extend(before: Seq<Block>, after: Seq<Block>, first: int, end: int, peq: Seq<Word>, target: Seq<usize>, free_start: bool, j: int)
    requires
        band_ge(before, first, end, peq, target, free_start, j),
        after.len() == before.len(),
        0 <= first <= end < after.len(),
        forall|x: int| 0 <= x < after.len() && x != end ==> #[trigger] after[x] == before[x],
        dp_ge(after[end], end, peq, after.len() as int, target, free_start, j),
        first < end ==> row_value(after[end], -1) == row_value(after[end - 1], 63),
    ensures
        band_ge(after, first, end + 1, peq, target, free_start, j),
{
    assert forall|b: int| first <= b < end + 1 implies dp_ge(#[trigger] after[b], b, peq, after.len() as int, target, free_start, j) by {
        if b < end {
            assert(after[b] == before[b]);
        }
    }
    assert forall|b: int| first < b < end + 1 implies row_value(#[trigger] after[b], -1) == row_value(after[b - 1], 63) by {
        if b < end {
            assert(after[b] == before[b]);
            assert(after[b - 1] == before[b - 1]);
        }
    }
}

/// The cell above the band's first block moves exactly by the column's entry delta,
/// wherever it is within `k`.
proof fn lemma_entry_exact(block: Block, first: int, end: int, peq: Seq<Word>, nb: int, target: Seq<usize>, free_start: bool, hin: int, c: int, k: int)
    requires
        0 <= c,
        0 <= first < end <= nb,
        dp_exact(block, first, peq, nb, target, free_start, c - 1, k),
        covered(peq, nb, target, free_start, first, end, c - 1, k),
        free_start ==> first == 0 && hin == 0,
        !free_start ==> hin == 1,
    ensures
        dp_cell(peq, nb, target, free_start, 64 * first - 1, c) <= k ==> row_value(block, -1) + hin
            == dp_cell(peq, nb, target, free_start, 64 * first - 1, c),
{
    if first == 0 {
        assert(64 * first + -1 == -1);
        if dp_cell(peq, nb, target, free_start, -1, c) <= k {
            assert(dp_cell(peq, nb, target, free_start, -1, c - 1) <= k);
            assert(row_value(block, -1) == dp_cell(peq, nb, target, free_start, 64 * first + -1, c - 1));
        }
    } else {
        assert forall|x: int| 0 <= x < 64 * first implies #[trigger] dp_cell(peq, nb, target, free_start, x, c - 1) > k by {
            assert(!(64 * first <= x < 64 * end));
        }
        crate::dp::lemma_cover_above(peq, nb, target, free_start, first, c, k);
        assert(dp_cell(peq, nb, target, free_start, 64 * first - 1, c) > k);
    }
}

proof fn lemma_base(t: int, nb: int, b: int, len: int)
    requires
        0 <= t,
        0 <= b < nb,
        (t + 1) * nb <= len,
    ensures
        0 <= t * nb + b < len,
        t * nb + nb <= len,
{
    assert(t * nb + nb == (t + 1) * nb) by (nonlinear_arith);
}

/// The initial column: every block all `+1` deltas, block `b` ending at `(b + 1)·64`.
pub(crate) fn initial_blocks(max_num_blocks: usize) -> (blocks: Vec<Block>)
    requires
        max_num_blocks <= MAX_BLOCKS,
    ensures
        blocks@.len() == max_num_blocks,
        band_bounds(blocks@, 0),
        forall|b: int|
            0 <= b < max_num_blocks ==> (#[trigger] blocks@[b]).p == 0xffff_ffff_ffff_ffffu64
                && blocks@[b].m == 0 && blocks@[b].score == (b + 1) * 64,
{
    let mut blocks: Vec<Block> = Vec::new();
    let mut b: usize = 0;
    while b < max_num_blocks
        invariant
            b <= max_num_blocks <= MAX_BLOCKS,
            blocks@.len() == b,
            band_bounds(blocks@, 0),
            forall|x: int|
                0 <= x < b ==> (#[trigger] blocks@[x]).p == 0xffff_ffff_ffff_ffffu64
                    && blocks@[x].m == 0 && blocks@[x].score == (x + 1) * 64,
        decreases max_num_blocks - b,
    {
        assert(0xffff_ffff_ffff_ffffu64 & 0u64 == 0) by (bit_vector);
        blocks.push(Block { p: 0xffff_ffff_ffff_ffff, m: 0, score: ((b + 1) * 64) as isize });
        b = b + 1;
    }
    blocks
}

/// Advances blocks `first .. end` by one column, carrying the horizontal delta down from
/// `hin`; returns the delta leaving the last of them. Each block stays at or above the
/// matrix column it stands for.
pub(crate) fn advance_band(
    blocks: &mut Vec<Block>,
    peq: &[Word],
    base: usize,
    first: usize,
    end: usize,
    hin: isize,
    Ghost(c): Ghost<int>,
    Ghost(target): Ghost<Seq<usize>>,
    Ghost(free_start): Ghost<bool>,
    Ghost(exact): Ghost<bool>,
    Ghost(k): Ghost<int>,
) -> (hout: isize)
    requires
        exact ==> band_exact(old(blocks)@, first as int, end as int, peq@, target, free_start, c - 1, k),
        exact ==> (dp_cell(peq@, old(blocks)@.len() as int, target, free_start, 64 * first - 1, c) <= k
            ==> row_value(old(blocks)@[first as int], -1) + hin == dp_cell(
            peq@,
            old(blocks)@.len() as int,
            target,
            free_start,
            64 * first - 1,
            c,
        )),
        first < end <= old(blocks)@.len() <= MAX_BLOCKS,
        base + end <= peq.len(),
        -1 <= hin <= 1,
        0 <= c < MAX_SEQUENCE_LEN,
        band_bounds(old(blocks)@, c),
        c < target.len(),
        base == target[c] * old(blocks)@.len(),
        band_ge(old(blocks)@, first as int, end as int, peq@, target, free_start, c - 1),
        row_value(old(blocks)@[first as int], -1) + hin >= dp_cell(
            peq@,
            old(blocks)@.len() as int,
            target,
            free_start,
            64 * first - 1,
            c,
        ),
    ensures
        final(blocks)@.len() == old(blocks)@.len(),
        band_bounds(final(blocks)@, c + 1),
        -1 <= hout <= 1,
        end * 64 - c <= final(blocks)@[end - 1].score - hout <= end * 66 + 2 * c,
        final(blocks)@[end - 1].score - hout == old(blocks)@[end - 1].score,
        band_ge(final(blocks)@, first as int, end as int, peq@, target, free_start, c),
        exact ==> band_exact(final(blocks)@, first as int, end as int, peq@, target, free_start, c, k),
{
    let ghost nb = blocks@.len() as int;
    let mut hout: isize = hin;
    let mut b: usize = first;
    while b < end
        invariant
            first <= b <= end <= blocks@.len() <= MAX_BLOCKS,
            blocks@.len() == old(blocks)@.len(),
            nb == blocks@.len(),
            base + end <= peq.len(),
            -1 <= hout <= 1,
            0 <= c < MAX_SEQUENCE_LEN,
            c < target.len(),
            base == target[c] * nb,
            forall|x: int|
                0 <= x < blocks@.len() && !(first <= x < b) ==> (#[trigger] blocks@[x]).wf() && (x + 1)
                    * 64 - c <= blocks@[x].score <= (x + 1) * 66 + 2 * c,
            forall|x: int|
                first <= x < b ==> (#[trigger] blocks@[x]).wf() && (x + 1) * 64 - (c + 1)
                    <= blocks@[x].score <= (x + 1) * 66 + 2 * (c + 1),
            b > first ==> b * 64 - c <= blocks@[b - 1].score - hout <= b * 66 + 2 * c,
            b > first ==> blocks@[b - 1].score - hout == old(blocks)@[b - 1].score,
            forall|x: int| b <= x < blocks@.len() ==> #[trigger] blocks@[x] == old(blocks)@[x],
            band_ge(old(blocks)@, first as int, end as int, peq@, target, free_start, c - 1),
            band_ge(blocks@, first as int, b as int, peq@, target, free_start, c),
            b == first ==> hout == hin,
            row_value(old(blocks)@[first as int], -1) + hin >= dp_cell(peq@, nb, target, free_start, 64 * first - 1, c),
            exact ==> band_exact(old(blocks)@, first as int, end as int, peq@, target, free_start, c - 1, k),
            exact ==> band_exact(blocks@, first as int, b as int, peq@, target, free_start, c, k),
            exact ==> (dp_cell(peq@, nb, target, free_start, 64 * first - 1, c) <= k ==> row_value(
                old(blocks)@[first as int],
                -1,
            ) + hin == dp_cell(peq@, nb, target, free_start, 64 * first - 1, c)),
        decreases end - b,
    {
        let mut blk = blocks[b];
        let ghost before = blk;
        let ghost prev = blocks@;
        assert(blocks@[b as int].wf());
        let eqw = peq[base + b];
        hout = blk.calculate_hout_delta(eqw, hout);
        proof {
            assert(before == old(blocks)@[b as int]);
            if b > first {
                assert(row_value(old(blocks)@[b as int], -1) == row_value(old(blocks)@[b - 1], 63));
                assert(row_value(prev[b - 1], 63) >= dp_cell(peq@, nb, target, free_start, 64 * (b - 1) + 63, c));
            }
            assert(64 * b - 1 == 64 * (b - 1) + 63);
            lemma_block_step(before, blk, eqw, peq@, nb, target, free_start, b as int, c);
            if exact {
                if b > first {
                    assert(row_value(blk, -1) == row_value(prev[b - 1], 63));
                    assert(dp_exact(prev[b - 1], b - 1, peq@, nb, target, free_start, c, k));
                }
                lemma_block_step_exact(before, blk, eqw, peq@, nb, target, free_start, b as int, c, k);
            }
        }
        blocks.set(b, blk);
        proof {
            lemma_band_ge_extend(prev, blocks@, first as int, b as int, peq@, target, free_start, c);
            if exact {
                lemma_band_exact_extend(prev, blocks@, first as int, b as int, peq@, target, free_start, c, k);
            }
        }
        b = b + 1;
    }
    hout
}

/// Brings block `end` into the band below block `end - 1`, whose delta out was `hout`.
pub(crate) fn expand_band(
    blocks: &mut Vec<Block>,
    peq: &[Word],
    base: usize,
    end: usize,
    hout: isize,
    Ghost(c): Ghost<int>,
    Ghost(target): Ghost<Seq<usize>>,
    Ghost(free_start): Ghost<bool>,
    Ghost(exact): Ghost<bool>,
    Ghost(k): Ghost<int>,
)
    requires
        exact ==> forall|x: int| 64 * end <= x < 64 * end + 64 ==> #[trigger] dp_cell(peq@, old(blocks)@.len() as int, target, free_start, x, c - 1) > k,
        exact ==> (dp_cell(peq@, old(blocks)@.len() as int, target, free_start, 64 * end - 1, c - 1) <= k
            ==> old(blocks)@[end - 1].score - hout == dp_cell(peq@, old(blocks)@.len() as int, target, free_start, 64 * end - 1, c - 1)),
        exact ==> dp_exact(old(blocks)@[end - 1], end - 1, peq@, old(blocks)@.len() as int, target, free_start, c, k),
        1 <= end < old(blocks)@.len() <= MAX_BLOCKS,
        base + end < peq.len(),
        -1 <= hout <= 1,
        0 <= c < MAX_SEQUENCE_LEN,
        band_bounds(old(blocks)@, c + 1),
        end * 64 - c <= old(blocks)@[end - 1].score - hout <= end * 66 + 2 * c,
        c < target.len(),
        base == target[c] * old(blocks)@.len(),
        dp_ge(old(blocks)@[end - 1], end - 1, peq@, old(blocks)@.len() as int, target, free_start, c),
        old(blocks)@[end - 1].score - hout >= dp_cell(
            peq@,
            old(blocks)@.len() as int,
            target,
            free_start,
            64 * end - 1,
            c - 1,
        ),
    ensures
        final(blocks)@.len() == old(blocks)@.len(),
        band_bounds(final(blocks)@, c + 1),
        dp_ge(final(blocks)@[end as int], end as int, peq@, old(blocks)@.len() as int, target, free_start, c),
        row_value(final(blocks)@[end as int], -1) == row_value(final(blocks)@[end - 1], 63),
        forall|x: int| 0 <= x < final(blocks)@.len() && x != end ==> #[trigger] final(blocks)@[x] == old(blocks)@[x],
        exact ==> dp_exact(final(blocks)@[end as int], end as int, peq@, old(blocks)@.len() as int, target, free_start, c, k),
{
    let ghost nb = blocks@.len() as int;
    assert(0xffff_ffff_ffff_ffffu64 & 0u64 == 0) by (bit_vector);
    let mut blk = Block {
        p: 0xffff_ffff_ffff_ffff,
        m: 0,
        score: blocks[end - 1].score - hout + 64,
    };
    let ghost fresh = blk;
    proof {
        let top = blocks@[end - 1].score - hout;
        assert forall|r: int| -1 <= r < 64 implies #[trigger] row_value(fresh, r) >= dp_cell(
            peq@,
            nb,
            target,
            free_start,
            64 * end + r,
            c - 1,
        ) by {
            lemma_fresh_rows(fresh, r);
            lemma_dp_vertical(peq@, nb, target, free_start, 64 * end - 1, c - 1, r + 1);
            assert(64 * end - 1 + (r + 1) == 64 * end + r);
        }
        lemma_fresh_rows(fresh, -1);
        assert(row_value(blocks@[end - 1], 63) == blocks@[end - 1].score);
        assert(row_value(blocks@[end - 1], 63) >= dp_cell(peq@, nb, target, free_start, 64 * (end - 1) + 63, c));
        assert(64 * end - 1 == 64 * (end - 1) + 63);
    }
    let eqw = peq[base + end];
    blk.calculate_hout_delta(eqw, hout);
    proof {
        lemma_block_step(fresh, blk, eqw, peq@, nb, target, free_start, end as int, c);
        if exact {
            assert forall|r: int| -1 <= r < 64 && dp_cell(peq@, nb, target, free_start, 64 * end + r, c - 1) <= k
                implies #[trigger] row_value(fresh, r) == dp_cell(peq@, nb, target, free_start, 64 * end + r, c - 1) by {
                if r >= 0 {
                    assert(dp_cell(peq@, nb, target, free_start, 64 * end + r, c - 1) > k);
                } else {
                    assert(64 * end + r == 64 * end - 1);
                }
            }
            assert(row_value(blk, -1) == row_value(blocks@[end - 1], 63));
            lemma_block_step_exact(fresh, blk, eqw, peq@, nb, target, free_start, end as int, c, k);
        }
    }
    blocks.set(end, blk);
}

/// Whether every cell of the block is above `k`.
fn all_block_cells_larger(block: &Block, k: isize) -> (r: bool)
    requires
        isize::MIN + 64 <= block.score <= isize::MAX - 64,
    ensures
        r <==> forall|j: int| 0 <= j < 64 ==> #[trigger] block.cell_spec(j as nat) > k,
{
    let scores = block.get_cell_values();
    let mut i: usize = 0;
    while i < 64
        invariant
            i <= 64,
            scores@.len() == 64,
            forall|j: int| 0 <= j < 64 ==> #[trigger] scores@[j] == block.cell_spec(j as nat),
            forall|j: int| 0 <= j < i ==> #[trigger] block.cell_spec(j as nat) > k,
        decreases 64 - i,
    {
        if scores[i] <= k {
            return false;
        }
        i = i + 1;
    }
    true
}

/// The padded cell that the sweep reads for end position `p`: `w` rows below the query's
/// last row and `w` columns on, or fewer where the target ends first.
pub open spec fn end_cell(peq: Seq<Word>, nb: int, target: Seq<usize>, free_start: bool, query_len: int, w: int, p: int) -> int {
    let d = if w <= target.len() - 1 - p { w } else { target.len() - 1 - p };
    dp_cell(peq, nb, target, free_start, query_len - 1 + d, p + d)
}

/// Every listed position was read at score `bs`.
pub open spec fn ends_sound(ps: Seq<isize>, bs: int, peq: Seq<Word>, nb: int, target: Seq<usize>, free_start: bool, query_len: int, w: int) -> bool {
    forall|x: int| 0 <= x < ps.len() ==> #[trigger] end_cell(peq, nb, target, free_start, query_len, w, ps[x] as int) == bs
}

/// Every position below `lim` where the query's last row reaches `g` is listed.
pub open spec fn ends_complete(ps: Seq<isize>, lim: int, g: int, peq: Seq<Word>, nb: int, target: Seq<usize>, free_start: bool, query_len: int) -> bool {
    forall|p: int| 0 <= p < lim && #[trigger] dp_cell(peq, nb, target, free_start, query_len - 1, p) == g ==> ps.contains(p as isize)
}

/// No position below `lim` has the query's last row at `g`.
pub open spec fn ends_absent(lim: int, g: int, peq: Seq<Word>, nb: int, target: Seq<usize>, free_start: bool, query_len: int) -> bool {
    forall|p: int| 0 <= p < lim ==> #[trigger] dp_cell(peq, nb, target, free_start, query_len - 1, p) != g
}

/// The end positions are exactly where the query's last row reaches `g`; position `-1`
/// may be left out.
pub open spec fn ends_exact(e: Seq<isize>, g: int, peq: Seq<Word>, nb: int, target: Seq<usize>, free_start: bool, query_len: int) -> bool {
    &&& forall|x: int| 0 <= x < e.len() ==> #[trigger] dp_cell(peq, nb, target, free_start, query_len - 1, e[x] as int) == g
    &&& ends_complete(e, target.len() as int, g, peq, nb, target, free_start, query_len)
}

/// Positions read at the least cell of the query's last row are where that row reaches it.
proof fn lemma_ends_final(ps: Seq<isize>, g: int, peq: Seq<Word>, nb: int, target: Seq<usize>, free_start: bool, query_len: int, w: int)
    requires
        ends_sound(ps, g, peq, nb, target, free_start, query_len, w),
        locations_ok(ps, target.len() as int),
        g == row_min(peq, nb, target, free_start, query_len - 1, target.len() - 1),
        1 <= query_len,
        0 <= w,
        query_len - 1 + w < 64 * nb,
        padded_wild(peq, nb, query_len, target),
    ensures
        forall|x: int| 0 <= x < ps.len() ==> #[trigger] dp_cell(peq, nb, target, free_start, query_len - 1, ps[x] as int) == g,
{
    assert forall|x: int| 0 <= x < ps.len() implies #[trigger] dp_cell(peq, nb, target, free_start, query_len - 1, ps[x] as int) == g by {
        let p = ps[x] as int;
        let d = if w <= target.len() - 1 - p { w } else { target.len() - 1 - p };
        assert(end_cell(peq, nb, target, free_start, query_len, w, ps[x] as int) == g);
        crate::dp::lemma_padded_exact(peq, nb, target, free_start, query_len, d, p + d);
    }
}

/// One end position considered: the bookkeeping of listed positions stays sound and
/// complete.
proof fn lemma_ends_step(
    ps0: Seq<isize>,
    ps1: Seq<isize>,
    best0: Option<usize>,
    best1: Option<usize>,
    recorded: bool,
    col: int,
    p: int,
    g: int,
    found: bool,
    peq: Seq<Word>,
    nb: int,
    target: Seq<usize>,
    free_start: bool,
    query_len: int,
    w: int,
)
    requires
        -(MAX_SEQUENCE_LEN as int) <= p <= MAX_SEQUENCE_LEN,
        recorded ==> col <= K_LIMIT,
        recorded ==> (best0 matches Some(bs) ==> col <= bs),
        best0 matches Some(bs) ==> ends_sound(ps0, bs as int, peq, nb, target, free_start, query_len, w),
        found && best0 == Some(g as usize) ==> ends_complete(ps0, p, g, peq, nb, target, free_start, query_len),
        found && best0 != Some(g as usize) ==> ends_absent(p, g, peq, nb, target, free_start, query_len),
        found ==> 0 <= g,
        found && p >= 0 && dp_cell(peq, nb, target, free_start, query_len - 1, p) == g ==> recorded && col == g,
        recorded ==> col == end_cell(peq, nb, target, free_start, query_len, w, p) && 0 <= col,
        recorded && found && col == g ==> dp_cell(peq, nb, target, free_start, query_len - 1, p) == g,
        found && recorded ==> col >= g,
        found ==> (best0 matches Some(bs) ==> bs >= g),
        recorded ==> best1 == Some(col as usize) && ps1 == (if best0 == Some(col as usize) { ps0.push(p as isize) } else { seq![p as isize] }),
        !recorded ==> best1 == best0 && ps1 == ps0,
    ensures
        best1 matches Some(bs) ==> ends_sound(ps1, bs as int, peq, nb, target, free_start, query_len, w),
        found && best1 == Some(g as usize) ==> ends_complete(ps1, p + 1, g, peq, nb, target, free_start, query_len),
        found && best1 != Some(g as usize) ==> ends_absent(p + 1, g, peq, nb, target, free_start, query_len),
{
    assert((p as isize) as int == p);
    if recorded {
        assert((col as usize) as int == col);
        if best0 == Some(col as usize) {
            assert forall|x: int| 0 <= x < ps1.len() implies #[trigger] end_cell(peq, nb, target, free_start, query_len, w, ps1[x] as int) == col by {
                if x < ps0.len() {
                    assert(ps1[x] == ps0[x]);
                }
            }
        } else {
            assert forall|x: int| 0 <= x < ps1.len() implies #[trigger] end_cell(peq, nb, target, free_start, query_len, w, ps1[x] as int) == col by {
                assert(ps1[x] == p as isize);
            }
        }
    }
    if found && best1 == Some(g as usize) {
        assert forall|q: int| 0 <= q < p + 1 && #[trigger] dp_cell(peq, nb, target, free_start, query_len - 1, q) == g implies ps1.contains(q as isize) by {
            if q == p {
                assert(ps1.last() == p as isize || ps1 == seq![p as isize]);
                if recorded {
                    if best0 == Some(col as usize) {
                        assert(ps1[ps0.len() as int] == p as isize);
                    } else {
                        assert(ps1[0] == p as isize);
                    }
                }
            } else {
                if best0 == Some(g as usize) {
                    assert(ps0.contains(q as isize));
                    let x = choose|x: int| 0 <= x < ps0.len() && ps0[x] == q as isize;
                    if recorded {
                        assert(ps1[x] == q as isize);
                    }
                } else {
                    assert(dp_cell(peq, nb, target, free_start, query_len - 1, q) != g);
                }
            }
        }
    }
    if found && best1 != Some(g as usize) {
        assert forall|q: int| 0 <= q < p + 1 implies #[trigger] dp_cell(peq, nb, target, free_start, query_len - 1, q) != g by {
            if q < p {
                if best0 == Some(g as usize) {
                    assert(recorded);
                    assert(col == g);
                }
            } else {
                if dp_cell(peq, nb, target, free_start, query_len - 1, q) == g {
                    assert(recorded && col == g);
                    assert((g as usize) as int == g);
                }
            }
        }
    }
}

/// What the column read at `c` means for end position `c - w`.
proof fn lemma_column_ends(
    blocks: Seq<Block>,
    first: int,
    end: int,
    c: int,
    kk: int,
    g: int,
    found: bool,
    qi: int,
    w: int,
    peq: Seq<Word>,
    target: Seq<usize>,
    is_hw: bool,
    col_g: int,
)
    requires
        0 <= first < end <= blocks.len(),
        1 <= qi,
        0 <= w < 64,
        64 * blocks.len() == qi + w,
        0 <= c < target.len(),
        band_ge(blocks, first, end, peq, target, is_hw, c),
        band_exact(blocks, first, end, peq, target, is_hw, c, kk),
        covered(peq, blocks.len() as int, target, is_hw, first, end, c, kk),
        padded_wild(peq, blocks.len() as int, qi, target),
        g == row_min(peq, blocks.len() as int, target, is_hw, qi - 1, target.len() - 1),
        found ==> g <= kk,
        col_g == (if end == blocks.len() { blocks[end - 1].score as int } else { 0 }),
    ensures
        ({
            let nb = blocks.len() as int;
            let pc = c - w;
            let recorded = end == nb && 0 <= col_g && col_g <= kk && c + 1 >= w;
            &&& (found && pc >= 0 && dp_cell(peq, nb, target, is_hw, qi - 1, pc) == g ==> recorded && col_g == g)
            &&& (recorded ==> col_g == end_cell(peq, nb, target, is_hw, qi, w, pc) && 0 <= col_g)
            &&& (recorded && found && col_g == g ==> dp_cell(peq, nb, target, is_hw, qi - 1, pc) == g)
            &&& (recorded ==> col_g >= g)
        }),
{
    let nb = blocks.len() as int;
    let pc = c - w;
    let recorded = end == nb && 0 <= col_g && col_g <= kk && c + 1 >= w;
    lemma_padded_rows(peq, nb, target, is_hw, qi, qi - 1 + w, c);
    if end == nb {
        let lb = blocks[end - 1];
        assert(64 * (end - 1) + 63 == qi - 1 + w);
        assert(dp_ge(lb, end - 1, peq, nb, target, is_hw, c));
        assert(dp_exact(lb, end - 1, peq, nb, target, is_hw, c, kk));
        assert(row_value(lb, 63) == lb.score);
        assert(row_value(lb, 63) >= dp_cell(peq, nb, target, is_hw, 64 * (end - 1) + 63, c));
        if recorded {
            assert(end_cell(peq, nb, target, is_hw, qi, w, pc) == dp_cell(peq, nb, target, is_hw, qi - 1 + w, c));
            if col_g == g {
                crate::dp::lemma_padded_exact(peq, nb, target, is_hw, qi, w, c);
            }
        }
    }
    if found && pc >= 0 && dp_cell(peq, nb, target, is_hw, qi - 1, pc) == g {
        crate::dp::lemma_padded_diag(peq, nb, target, is_hw, qi, pc, w);
        if !(64 * first <= qi - 1 + w < 64 * end) {
            assert(dp_cell(peq, nb, target, is_hw, qi - 1 + w, c) > kk);
        }
        assert(end == nb);
        lemma_dp_nonneg(peq, nb, target, is_hw, qi - 1 + w, c);
        let lb = blocks[end - 1];
        assert(64 * (end - 1) + 63 == qi - 1 + w);
        assert(dp_exact(lb, end - 1, peq, nb, target, is_hw, c, kk));
        assert(row_value(lb, 63) == lb.score);
    }
}

/// One column of the prefix and infix sweeps: advances the band and moves its ends.
fn sg_step(
    blocks: &mut Vec<Block>,
    peq: &[Word],
    target: &[usize],
    c: usize,
    first: usize,
    end: usize,
    kk: isize,
    is_hw: bool,
) -> (r: (usize, usize))
    requires
        c < target@.len() <= MAX_SEQUENCE_LEN,
        (target@[c as int] + 1) * old(blocks)@.len() <= peq@.len(),
        peq@.len() == peq.len(),
        first < end <= old(blocks)@.len() <= MAX_BLOCKS,
        0 <= kk <= K_LIMIT,
        band_bounds(old(blocks)@, c as int),
        band_ge(old(blocks)@, first as int, end as int, peq@, target@, is_hw, c - 1),
        band_exact(old(blocks)@, first as int, end as int, peq@, target@, is_hw, c - 1, kk as int),
        covered(peq@, old(blocks)@.len() as int, target@, is_hw, first as int, end as int, c - 1, kk as int),
        is_hw ==> first == 0,
    ensures
        final(blocks)@.len() == old(blocks)@.len(),
        band_bounds(final(blocks)@, c + 1),
        r.1 <= old(blocks)@.len(),
        is_hw ==> r.0 == 0 && r.1 >= 1,
        r.0 < r.1 ==> band_ge(final(blocks)@, r.0 as int, r.1 as int, peq@, target@, is_hw, c as int),
        r.0 < r.1 ==> band_exact(final(blocks)@, r.0 as int, r.1 as int, peq@, target@, is_hw, c as int, kk as int),
        covered(peq@, old(blocks)@.len() as int, target@, is_hw, r.0 as int, r.1 as int, c as int, kk as int),
{
    let max_num_blocks = blocks.len();
    let ghost nbi = max_num_blocks as int;
    let start_hout: isize = if is_hw { 0 } else { 1 };
    let t = target[c];
    proof {
        assert((target@[c as int] + 1) * max_num_blocks <= peq@.len());
        lemma_base(t as int, nbi, 0, peq@.len() as int);
    }
    assert(t * max_num_blocks + max_num_blocks <= peq@.len());
    let base = t * max_num_blocks;
    proof {
        lemma_band_entry(blocks@[first as int], first as int, peq@, nbi, target@, is_hw, start_hout as int, c as int);
        lemma_entry_exact(blocks@[first as int], first as int, end as int, peq@, nbi, target@, is_hw, start_hout as int, c as int, kk as int);
    }
    let ghost pre = blocks@;
    proof {
        assert(row_value(pre[end - 1], 63) >= dp_cell(peq@, nbi, target@, is_hw, 64 * (end - 1) + 63, c - 1));
        assert(64 * end - 1 == 64 * (end - 1) + 63);
        assert(dp_exact(pre[end - 1], end - 1, peq@, nbi, target@, is_hw, c - 1, kk as int));
        assert(row_value(pre[end - 1], 63) == pre[end - 1].score);
    }
    let hout = advance_band(
        blocks,
        peq,
        base,
        first,
        end,
        start_hout,
        Ghost(c as int),
        Ghost(target@),
        Ghost(is_hw),
        Ghost(true),
        Ghost(kk as int),
    );
    let (f2, e2) = sg_adjust_band(
        blocks,
        peq,
        base,
        first,
        end,
        hout,
        kk,
        c,
        is_hw,
        Ghost(target@),
    );
    (f2, e2)
}

/// What the final column's cell `i + 1` rows above the last means for end position
/// `n - w + i`.
proof fn lemma_final_ends(
    lb: Block,
    nb: int,
    i: int,
    kk_end: int,
    kk: int,
    g: int,
    found: bool,
    qi: int,
    w: int,
    peq: Seq<Word>,
    target: Seq<usize>,
    is_hw: bool,
)
    requires
        1 <= qi,
        0 <= i < w < 64,
        64 * nb == qi + w,
        target.len() <= MAX_SEQUENCE_LEN,
        dp_ge(lb, nb - 1, peq, nb, target, is_hw, target.len() - 1),
        dp_exact(lb, nb - 1, peq, nb, target, is_hw, target.len() - 1, kk_end),
        kk <= kk_end,
        padded_wild(peq, nb, qi, target),
        g == row_min(peq, nb, target, is_hw, qi - 1, target.len() - 1),
        found ==> g <= kk,
    ensures
        ({
            let n = target.len() as int;
            let pc = n - w + i;
            let col = row_value(lb, 62 - i);
            let recorded = 0 <= col && col <= kk && n + i + 1 >= w;
            &&& (found && pc >= 0 && dp_cell(peq, nb, target, is_hw, qi - 1, pc) == g ==> recorded && col == g)
            &&& (recorded ==> col == end_cell(peq, nb, target, is_hw, qi, w, pc) && 0 <= col)
            &&& (recorded && found && col == g ==> dp_cell(peq, nb, target, is_hw, qi - 1, pc) == g)
            &&& (recorded ==> col >= g)
        }),
{
    let n = target.len() as int;
    let pc = n - w + i;
    let d = w - 1 - i;
    let row = qi - 1 + d;
    assert(64 * (nb - 1) + (62 - i) == row);
    assert(row_value(lb, 62 - i) >= dp_cell(peq, nb, target, is_hw, 64 * (nb - 1) + (62 - i), n - 1));
    lemma_padded_rows(peq, nb, target, is_hw, qi, row, n - 1);
    let col = row_value(lb, 62 - i);
    if 0 <= col && col <= kk && n + i + 1 >= w {
        assert(col == dp_cell(peq, nb, target, is_hw, 64 * (nb - 1) + (62 - i), n - 1));
        assert(end_cell(peq, nb, target, is_hw, qi, w, pc) == dp_cell(peq, nb, target, is_hw, row, n - 1));
        if found && col == g {
            crate::dp::lemma_padded_exact(peq, nb, target, is_hw, qi, d, n - 1);
        }
    }
    if found && pc >= 0 && dp_cell(peq, nb, target, is_hw, qi - 1, pc) == g {
        crate::dp::lemma_padded_diag(peq, nb, target, is_hw, qi, pc, d);
        lemma_dp_nonneg(peq, nb, target, is_hw, row, n - 1);
    }
}

/// Records end position `pos` for a score within the threshold: a score below the best so
/// far replaces it, clears the positions and becomes the threshold; an equal one adds `pos`.
fn record_score(best: &mut Option<usize>, positions: &mut Vec<isize>, kk: &mut isize, score: isize, pos: isize)
    requires
        0 <= score <= *old(kk),
        -1 <= pos,
        *old(best) matches Some(bs) ==> bs == *old(kk),
        (*old(best)) is Some <==> old(positions)@.len() > 0,
        forall|x: int| 0 <= x < old(positions)@.len() ==> -1 <= #[trigger] old(positions)@[x] < pos,
        forall|x: int, y: int| 0 <= x < y < old(positions)@.len() ==> old(positions)@[x] < old(positions)@[y],
    ensures
        *final(best) == Some(score as usize),
        *final(kk) == score,
        final(positions)@ == (if *old(best) == Some(score as usize) { old(positions)@.push(pos) } else { seq![pos] }),
        final(positions)@.len() > 0,
        forall|x: int| 0 <= x < final(positions)@.len() ==> -1 <= #[trigger] final(positions)@[x] <= pos,
        forall|x: int, y: int| 0 <= x < y < final(positions)@.len() ==> final(positions)@[x] < final(positions)@[y],
{
    let same = match *best {
        None => false,
        Some(bs) => score == bs as isize,
    };
    if !same {
        positions.clear();
        *best = Some(score as usize);
        *kk = score;
    }
    positions.push(pos);
}

impl Alignment {
    /// Myers' bit-vector sweep for the prefix (`SHW`) and infix (`HW`) modes, with the
    /// Ukkonen band. Sets `edit_distance` to the best score within `k`, and
    /// `end_locations` to the target positions where it is reached; both `None` when no
    /// score is within `k`. The best score is the least cell of the query's last row: it
    /// is reported exactly when it is within `k`, and the end locations are then exactly
    /// the positions where that row reaches it (`-1` may be left out).
    #[verifier::rlimit(50)]
    pub fn calc_edit_dst_semi_global(
        &mut self,
        peq: &[Word],
        w: usize,
        max_num_blocks: usize,
        query_len: usize,
        target: &[usize],
        k: usize,
        mode: &AlignMode,
    )
        requires
            dp_input(peq@, w as int, max_num_blocks as int, query_len as int, target@),
            padded_wild(peq@, max_num_blocks as int, query_len as int, target@),
            !(*mode is NW),
        ensures
            final(self).edit_distance matches Some(d) ==> row_min(
                peq@,
                max_num_blocks as int,
                target@,
                *mode is HW,
                query_len - 1,
                target@.len() - 1,
            ) <= d,
            target@.len() >= 1 && row_min(
                peq@,
                max_num_blocks as int,
                target@,
                *mode is HW,
                query_len - 1,
                target@.len() - 1,
            ) <= k ==> final(self).edit_distance == Some(
                row_min(peq@, max_num_blocks as int, target@, *mode is HW, query_len - 1, target@.len() - 1) as usize,
            ),
            final(self).start_locations == old(self).start_locations,
            final(self).alignment == old(self).alignment,
            final(self).alphabet_length == old(self).alphabet_length,
            final(self).edit_distance is Some <==> final(self).end_locations is Some,
            final(self).edit_distance matches Some(d) ==> d <= k,
            target@.len() >= 1 && final(self).edit_distance is Some ==> (final(self).end_locations matches Some(e) && ends_exact(
                e@,
                row_min(peq@, max_num_blocks as int, target@, *mode is HW, query_len - 1, target@.len() - 1),
                peq@,
                max_num_blocks as int,
                target@,
                *mode is HW,
                query_len as int,
            )),
            final(self).end_locations matches Some(e) ==> locations_ok(e@, target@.len() as int),
    {
        assert(peq@.len() == peq.len());
        let is_hw = match mode {
            AlignMode::HW => true,
            _ => false,
        };
        let n = target.len();
        let mut kk: isize = if k > K_LIMIT { K_LIMIT as isize } else { k as isize };
        if is_hw && query_len < k {
            kk = query_len as isize;
        }
        let mut best: Option<usize> = None;
        let mut positions: Vec<isize> = Vec::new();
        let mut first: usize = 0;
        let mut end: usize = if (k as u64) < K_LIMIT as u64 { (k + 1 + 63) / 64 } else { max_num_blocks };
        if end > max_num_blocks {
            end = max_num_blocks;
        }
        if end == 0 {
            end = 1;
        }
        let mut blocks = initial_blocks(max_num_blocks);
        let start_hout: isize = if is_hw { 0 } else { 1 };
        let ghost g = row_min(peq@, max_num_blocks as int, target@, is_hw, query_len - 1, n - 1);
        let ghost nbi = max_num_blocks as int;
        let ghost qi = query_len as int;
        let ghost found = n >= 1 && g <= k;
        proof {
            lemma_initial_band(blocks@, peq@, target@, is_hw, kk as int);
            lemma_band_ge_sub(blocks@, 0, max_num_blocks as int, first as int, end as int, peq@, target@, is_hw, -1);
            lemma_band_exact_sub(blocks@, 0, max_num_blocks as int, first as int, end as int, peq@, target@, is_hw, -1, kk as int);
            assert forall|i: int| 0 <= i < 64 * nbi && !(64 * first <= i < 64 * end) implies #[trigger] dp_cell(peq@, nbi, target@, is_hw, i, -1) > kk by {
                assert(64 * end <= i);
                assert(end < max_num_blocks);
            }
            if n >= 1 {
                crate::dp::lemma_row_min_at_column(peq@, nbi, target@, is_hw, qi - 1, n - 1);
            }
            if found {
                lemma_dp_nonneg(peq@, nbi, target@, is_hw, qi - 1, -1);
                crate::dp::lemma_row_min_le(peq@, nbi, target@, is_hw, qi - 1, n - 1, -1);
            }
        }
        let ghost jstar = choose|j: int| 0 <= j <= n - 1 && #[trigger] dp_cell(peq@, nbi, target@, is_hw, qi - 1, j) == g;
        let ghost dstar = if w as int <= n - 1 - jstar { w as int } else { n - 1 - jstar };
        let ghost ti = qi - 1 + dstar;
        let ghost tj = jstar + dstar;
        proof {
            if found {
                assert(0 <= jstar <= n - 1 && dp_cell(peq@, nbi, target@, is_hw, qi - 1, jstar) == g);
                crate::dp::lemma_padded_diag(peq@, nbi, target@, is_hw, qi, jstar, dstar);
                lemma_padded_rows(peq@, nbi, target@, is_hw, qi, ti, tj);
                assert(dp_cell(peq@, nbi, target@, is_hw, ti, tj) == g);
                lemma_dp_nonneg(peq@, nbi, target@, is_hw, ti, tj);
            }
        }
        let mut c: usize = 0;
        while c < n
            invariant
                band_ge(blocks@, first as int, end as int, peq@, target@, is_hw, c - 1),
                band_exact(blocks@, first as int, end as int, peq@, target@, is_hw, c - 1, kk as int),
                covered(peq@, nbi, target@, is_hw, first as int, end as int, c - 1, kk as int),
                is_hw == (*mode is HW),
                peq@.len() == peq.len(),
                found == (n >= 1 && g <= k),
                padded_wild(peq@, max_num_blocks as int, query_len as int, target@),
                nbi == max_num_blocks,
                qi == query_len,
                found ==> g <= kk,
                found ==> dp_cell(peq@, nbi, target@, is_hw, ti, tj) == g && 0 <= g,
                found ==> 0 <= jstar && tj <= n - 1 && ti < 64 * nbi && ti >= qi - 1 && (dstar == w || tj == n - 1),
                found ==> tj == jstar + dstar && ti == qi - 1 + dstar && 0 <= dstar <= w,
                found && dstar == w && tj < c ==> best == Some(g as usize),
                best matches Some(bs) ==> ends_sound(positions@, bs as int, peq@, nbi, target@, is_hw, qi, w as int),
                found && best == Some(g as usize) ==> ends_complete(positions@, c - w, g, peq@, nbi, target@, is_hw, qi),
                found && best != Some(g as usize) ==> ends_absent(c - w, g, peq@, nbi, target@, is_hw, qi),
                best matches Some(bs) ==> bs <= K_LIMIT,
                is_hw ==> first == 0 && start_hout == 0,
                !is_hw ==> start_hout == 1,
                dp_input(peq@, w as int, max_num_blocks as int, query_len as int, target@),
                n == target@.len(),
                c <= n,
                blocks@.len() == max_num_blocks,
                band_bounds(blocks@, c as int),
                first < end <= max_num_blocks,
                -1 <= start_hout <= 1,
                0 <= kk <= k,
                kk <= K_LIMIT,
                best is Some <==> positions@.len() > 0,
                best matches Some(bs) ==> bs == kk,
                best matches Some(bs) ==> bs >= g,
                g == row_min(peq@, max_num_blocks as int, target@, is_hw, query_len - 1, n - 1),
                forall|i: int| 0 <= i < positions@.len() ==> -1 <= #[trigger] positions@[i] < c - w,
                self.start_locations == old(self).start_locations,
                self.alignment == old(self).alignment,
                self.alphabet_length == old(self).alphabet_length,
                forall|i: int, j: int| 0 <= i < j < positions@.len() ==> positions@[i] < positions@[j],
            decreases n - c,
        {
            let (f2, e2) = sg_step(&mut blocks, peq, target, c, first, end, kk, is_hw);
            first = f2;
            end = e2;
            proof {
                if found && end <= first {
                    if first == 0 {
                        lemma_top_row(peq@, nbi, target@, c as int);
                        assert(dp_cell(peq@, nbi, target@, is_hw, 0, c as int) > kk);
                    }
                    assert forall|x: int| 0 <= x < 64 * nbi implies #[trigger] dp_cell(peq@, nbi, target@, false, x, c as int) > kk by {
                        assert(!(64 * first <= x < 64 * end));
                    }
                    if tj >= c {
                        crate::dp::lemma_column_above_later(peq@, nbi, target@, c as int, tj, kk as int, ti);
                    }
                    assert forall|p: int| 0 <= p < n && #[trigger] dp_cell(peq@, nbi, target@, is_hw, qi - 1, p) == g implies positions@.contains(p as isize) by {
                        if p >= c - w {
                            let d = if w <= n - 1 - p { w as int } else { n - 1 - p };
                            crate::dp::lemma_padded_diag(peq@, nbi, target@, is_hw, qi, p, d);
                            crate::dp::lemma_column_above_later(peq@, nbi, target@, c as int, p + d, kk as int, qi - 1 + d);
                        }
                    }
                    lemma_ends_final(positions@, g, peq@, nbi, target@, is_hw, qi, w as int);
                }
            }
            if end <= first {
                self.edit_distance = best;
                self.end_locations = if best.is_some() { Some(positions) } else { None };
                return;
            }
            let ghost kk_before = kk;
            let ghost ps0 = positions@;
            let ghost best0 = best;
            let ghost pc = c - w;
            let ghost col_g: int = if end == max_num_blocks { blocks@[end - 1].score as int } else { 0 };
            let ghost recorded = end == max_num_blocks && 0 <= col_g && col_g <= kk && c + 1 >= w;
            proof {
                lemma_column_ends(blocks@, first as int, end as int, c as int, kk as int, g, found, qi, w as int, peq@, target@, is_hw, col_g);
            }
            proof {
                if found && dstar == w && tj == c {
                    if !(64 * first <= ti < 64 * end) {
                        assert(dp_cell(peq@, nbi, target@, is_hw, ti, c as int) > kk);
                    }
                    assert(end == max_num_blocks);
                }
            }
            if end == max_num_blocks {
                let col_score = blocks[end - 1].score;
                proof {
                    let lb = blocks@[end - 1];
                    assert(dp_ge(lb, end - 1, peq@, max_num_blocks as int, target@, is_hw, c as int));
                    assert(row_value(lb, 63) >= dp_cell(peq@, max_num_blocks as int, target@, is_hw, 64 * (end - 1) + 63, c as int));
                    lemma_padded_rows(peq@, max_num_blocks as int, target@, is_hw, query_len as int, 64 * (end - 1) + 63, c as int);
                    assert(row_value(lb, 63) == lb.score);
                    if found && dstar == w && tj == c {
                        assert(64 * (end - 1) + 63 == ti);
                        assert(dp_exact(lb, end - 1, peq@, nbi, target@, is_hw, c as int, kk as int));
                    }
                }
                if 0 <= col_score && col_score <= kk && c + 1 >= w {
                    record_score(&mut best, &mut positions, &mut kk, col_score, c as isize - w as isize);
                }
            }
            proof {
                if found && dstar == w && tj == c {
                    assert(end == max_num_blocks) by {
                        assert(!(64 * first <= ti < 64 * end) ==> dp_cell(peq@, nbi, target@, is_hw, ti, c as int) > kk);
                    }
                }
                lemma_exact_mono(blocks@, first as int, end as int, peq@, target@, is_hw, c as int, kk_before as int, kk as int);
                lemma_cover_mono(peq@, nbi, target@, is_hw, first as int, end as int, c as int, kk_before as int, kk as int);
                lemma_ends_step(ps0, positions@, best0, best, recorded, col_g, pc, g, found, peq@, nbi, target@, is_hw, qi, w as int);
            }
            c = c + 1;
        }
        let ghost xi = w - dstar - 1;
        let ghost kk_end = kk;
        proof {
            if found && dstar < w {
                if !(64 * first <= ti < 64 * end) {
                    assert(dp_cell(peq@, nbi, target@, is_hw, ti, n - 1) > kk);
                }
                assert(end == max_num_blocks);
            }
        }
        if end == max_num_blocks {
            let scores = blocks[end - 1].get_cell_values();
            let ghost lb = blocks@[end - 1];
            assert(dp_ge(lb, end - 1, peq@, max_num_blocks as int, target@, is_hw, n - 1));
            assert(dp_exact(lb, end - 1, peq@, nbi, target@, is_hw, n - 1, kk as int));
            let mut i: usize = 0;
            while i < w
                invariant
                    best matches Some(bs) ==> bs >= g,
                    found ==> g <= kk,
                    found ==> dp_cell(peq@, nbi, target@, is_hw, ti, tj) == g && 0 <= g,
                    found && (dstar == w || i > xi) ==> best == Some(g as usize),
                    found && dstar < w ==> tj == n - 1 && 64 * (end - 1) <= ti < 64 * end && 0 <= xi < w,
                    found ==> xi == w - dstar - 1 && ti == qi - 1 + dstar,
                    found ==> 0 <= jstar && tj == jstar + dstar && 0 <= dstar <= w && tj <= n - 1,
                    best matches Some(bs) ==> bs >= g,
                    dp_exact(lb, end - 1, peq@, nbi, target@, is_hw, n - 1, kk_end as int),
                    dp_ge(lb, end - 1, peq@, max_num_blocks as int, target@, is_hw, n - 1),
                    kk <= kk_end,
                    kk_end <= K_LIMIT,
                    end == max_num_blocks,
                    padded_wild(peq@, max_num_blocks as int, query_len as int, target@),
                    g == row_min(peq@, max_num_blocks as int, target@, is_hw, query_len - 1, n - 1),
                    nbi == max_num_blocks,
                    qi == query_len,
                    found == (n >= 1 && g <= k),
                    self.start_locations == old(self).start_locations,
                    self.alignment == old(self).alignment,
                    self.alphabet_length == old(self).alphabet_length,
                    lb == blocks@[end - 1],
                    forall|j: int| 0 <= j < 64 ==> #[trigger] scores@[j] == lb.cell_spec(j as nat),
                    dp_input(peq@, w as int, max_num_blocks as int, query_len as int, target@),
                    n == target@.len(),
                    i <= w,
                    scores@.len() == 64,
                    0 <= kk <= k,
                    best is Some <==> positions@.len() > 0,
                    best matches Some(bs) ==> bs == kk,
                    forall|x: int| 0 <= x < positions@.len() ==> -1 <= #[trigger] positions@[x] < n - w + i,
                    forall|x: int, y: int| 0 <= x < y < positions@.len() ==> positions@[x] < positions@[y],
                    best matches Some(bs) ==> ends_sound(positions@, bs as int, peq@, nbi, target@, is_hw, qi, w as int),
                    found && best == Some(g as usize) ==> ends_complete(positions@, n - w + i, g, peq@, nbi, target@, is_hw, qi),
                    found && best != Some(g as usize) ==> ends_absent(n - w + i, g, peq@, nbi, target@, is_hw, qi),
                    best matches Some(bs) ==> bs <= K_LIMIT,
                decreases w - i,
            {
                let col_score = scores[i + 1];
                proof {
                    assert(row_value(lb, 62 - i) >= dp_cell(peq@, max_num_blocks as int, target@, is_hw, 64 * (end - 1) + (62 - i), n - 1));
                    lemma_padded_rows(peq@, max_num_blocks as int, target@, is_hw, query_len as int, 64 * (end - 1) + (62 - i), n - 1);
                    assert(col_score == row_value(lb, 62 - i));
                    if found && dstar < w && i == xi {
                        assert(64 * (end - 1) + (62 - i) == ti);
                        assert(dp_cell(peq@, nbi, target@, is_hw, ti, n - 1) <= kk_end);
                        assert(col_score == g);
                        assert(n + i + 1 >= w);
                    }
                }
                let ghost ps0 = positions@;
                let ghost best0 = best;
                let ghost recorded = 0 <= col_score && col_score <= kk && n + i + 1 >= w;
                proof {
                    lemma_final_ends(lb, nbi, i as int, kk_end as int, kk as int, g, found, qi, w as int, peq@, target@, is_hw);
                }
                if 0 <= col_score && col_score <= kk && n + i + 1 >= w {
                    record_score(&mut best, &mut positions, &mut kk, col_score, n as isize - w as isize + i as isize);
                }
                proof {
                    lemma_ends_step(ps0, positions@, best0, best, recorded, col_score as int, n - w + i, g, found, peq@, nbi, target@, is_hw, qi, w as int);
                }
                i = i + 1;
            }
        }
        proof {
            if end != max_num_blocks && found {
                assert forall|p: int| n - w <= p < n && 0 <= p implies #[trigger] dp_cell(peq@, nbi, target@, is_hw, qi - 1, p) != g by {
                    if dp_cell(peq@, nbi, target@, is_hw, qi - 1, p) == g {
                        let d = n - 1 - p;
                        crate::dp::lemma_padded_diag(peq@, nbi, target@, is_hw, qi, p, d);
                        lemma_padded_rows(peq@, nbi, target@, is_hw, qi, qi - 1 + d, n - 1);
                        if !(64 * first <= qi - 1 + d < 64 * end) {
                            assert(dp_cell(peq@, nbi, target@, is_hw, qi - 1 + d, n - 1) > kk);
                        }
                    }
                }
            }
            if found && best is Some {
                assert(best == Some(g as usize));
                assert(ends_complete(positions@, n as int, g, peq@, nbi, target@, is_hw, qi)) by {
                    assert forall|p: int| 0 <= p < n && #[trigger] dp_cell(peq@, nbi, target@, is_hw, qi - 1, p) == g implies positions@.contains(p as isize) by {
                        if end == max_num_blocks {
                        } else {
                            if p >= n - w {
                            }
                        }
                    }
                }
                lemma_ends_final(positions@, g, peq@, nbi, target@, is_hw, qi, w as int);
            }
        }
        self.edit_distance = best;
        self.end_locations = if best.is_some() { Some(positions) } else { None };
    }

    /// Myers' bit-vector sweep for the global (`NW`) mode, with the Ukkonen band.
    ///
    /// Sets `edit_distance` to the score of the whole query against the whole target when
    /// it is within `k`, and `position` to the last target position; both `None`
    /// otherwise. When `align_data` holds a table, each column's band is copied into it.
    /// With `target_stop_position` set to `p`, the sweep halts after column `p` and
    /// `position` is `p`. Asking for both a table and a stop position is an error, which
    /// leaves everything as it was.
    #[verifier::rlimit(50)]
    pub fn calc_edit_dst_nw(
        &mut self,
        peq: &[Word],
        w: usize,
        max_num_blocks: usize,
        query_len: usize,
        target: &[usize],
        k: usize,
        position: &mut Option<usize>,
        align_data: &mut Option<AlignmentData>,
        target_stop_position: Option<usize>,
    ) -> (r: Result<(), AlignError>)
        requires
            dp_input(peq@, w as int, max_num_blocks as int, query_len as int, target@),
            target@.len() >= 1,
            (*old(align_data)) matches Some(d) ==> d.sized(max_num_blocks as int, target@.len() as int),
        ensures
            r is Err <==> ((*old(align_data)) is Some && target_stop_position is Some),
            r is Err ==> r == Err::<(), AlignError>(AlignError::InvalidConfiguration),
            r is Err ==> *final(self) == *old(self),
            r is Err ==> *final(position) == *old(position),
            r is Err ==> *final(align_data) == *old(align_data),
            final(self).start_locations == old(self).start_locations,
            final(self).end_locations == old(self).end_locations,
            final(self).alignment == old(self).alignment,
            final(self).alphabet_length == old(self).alphabet_length,
            (*final(align_data)) is Some <==> (*old(align_data)) is Some,
            (*final(align_data)) matches Some(d) ==> d.sized(max_num_blocks as int, target@.len() as int),
            r is Ok && target_stop_position is None ==> final(self).edit_distance == global_result(
                k as int,
                dp_cell(peq@, max_num_blocks as int, target@, false, query_len - 1, target@.len() - 1),
            ),
            r is Ok && target_stop_position is None ==> ((*final(position) is Some <==> final(self).edit_distance is Some)
                && (*final(position) is Some ==> *final(position) == Some((target@.len() - 1) as usize))),
            r is Ok && final(self).edit_distance is None ==> (*final(position) is None || (
                target_stop_position is Some && *final(position) == target_stop_position)),
            r is Ok && final(self).edit_distance is Some ==> ((*final(align_data)) matches Some(d)
                ==> forall|c: int| 0 <= c < target@.len() ==> #[trigger] table_column(
                d,
                max_num_blocks as int,
                c,
                peq@,
                target@,
                clamp_k(k),
            )),
    {
        assert(peq@.len() == peq.len());
        if align_data.is_some() && target_stop_position.is_some() {
            return Err(AlignError::InvalidConfiguration);
        }
        let n = target.len();
        let ghost nbi = max_num_blocks as int;
        let ghost qi = query_len as int;
        let ghost g = dp_cell(peq@, nbi, target@, false, qi - 1, n - 1);
        proof {
            crate::dp::lemma_dp_gap(peq@, nbi, target@, qi - 1, n - 1);
            crate::dp::lemma_dp_upper(peq@, nbi, target@, qi - 1, n - 1);
            lemma_dp_nonneg(peq@, nbi, target@, false, qi - 1, n - 1);
        }
        let gap: usize = if n > query_len { n - query_len } else { query_len - n };
        if k < gap {
            self.edit_distance = None;
            *position = None;
            return Ok(());
        }
        let kk: isize = if k > K_LIMIT { K_LIMIT as isize } else { k as isize };
        let mut end: usize = if (k as u64) < K_LIMIT as u64 { (k + 1 + 63) / 64 } else { max_num_blocks };
        if end > max_num_blocks {
            end = max_num_blocks;
        }
        if end == 0 {
            end = 1;
        }
        let mut first: usize = 0;
        let mut blocks = initial_blocks(max_num_blocks);
        proof {
            lemma_initial_band(blocks@, peq@, target@, false, kk as int);
            lemma_band_ge_sub(blocks@, 0, max_num_blocks as int, first as int, end as int, peq@, target@, false, -1);
            lemma_band_exact_sub(blocks@, 0, max_num_blocks as int, first as int, end as int, peq@, target@, false, -1, kk as int);
            assert forall|i: int| 0 <= i < 64 * nbi && !(64 * first <= i < 64 * end) implies #[trigger] dp_cell(peq@, nbi, target@, false, i, -1) > kk by {
                assert(64 * end <= i);
                assert(end < max_num_blocks);
            }
        }
        let capture = align_data.is_some();
        let mut data = match align_data.take() {
            Some(d) => d,
            None => AlignmentData::new(0, 0),
        };
        let mut c: usize = 0;
        while c < n
            invariant
                dp_input(peq@, w as int, max_num_blocks as int, query_len as int, target@),
                peq@.len() == peq.len(),
                n == target@.len(),
                c <= n,
                nbi == max_num_blocks,
                qi == query_len,
                g == dp_cell(peq@, nbi, target@, false, qi - 1, n - 1),
                g <= MAX_SEQUENCE_LEN * 2 + 2,
                blocks@.len() == max_num_blocks,
                band_bounds(blocks@, c as int),
                band_ge(blocks@, first as int, end as int, peq@, target@, false, c - 1),
                band_exact(blocks@, first as int, end as int, peq@, target@, false, c - 1, kk as int),
                covered(peq@, nbi, target@, false, first as int, end as int, c - 1, kk as int),
                first < end <= max_num_blocks,
                0 <= kk <= K_LIMIT,
                kk as int == clamp_k(k),
                capture ==> data.sized(max_num_blocks as int, n as int),
                capture ==> forall|x: int| 0 <= x < c ==> #[trigger] table_column(data, nbi, x, peq@, target@, kk as int),
                capture <==> (*old(align_data)) is Some,
                *align_data is None,
                capture ==> target_stop_position is None,
                self.start_locations == old(self).start_locations,
                self.end_locations == old(self).end_locations,
                self.alignment == old(self).alignment,
                self.alphabet_length == old(self).alphabet_length,
            decreases n - c,
        {
            let t = target[c];
            proof {
                assert((target@[c as int] + 1) * max_num_blocks <= peq@.len());
                lemma_base(t as int, max_num_blocks as int, 0, peq@.len() as int);
            }
            assert(t * max_num_blocks + max_num_blocks <= peq@.len());
            let base = t * max_num_blocks;
            proof {
                lemma_band_entry(blocks@[first as int], first as int, peq@, nbi, target@, false, 1, c as int);
                lemma_entry_exact(blocks@[first as int], first as int, end as int, peq@, nbi, target@, false, 1, c as int, kk as int);
            }
            let ghost pre = blocks@;
            proof {
                assert(row_value(pre[end - 1], 63) >= dp_cell(peq@, nbi, target@, false, 64 * (end - 1) + 63, c - 1));
                assert(64 * end - 1 == 64 * (end - 1) + 63);
                assert(dp_exact(pre[end - 1], end - 1, peq@, nbi, target@, false, c - 1, kk as int));
                assert(row_value(pre[end - 1], 63) == pre[end - 1].score);
            }
            let hout = advance_band(
                &mut blocks,
                peq,
                base,
                first,
                end,
                1,
                Ghost(c as int),
                Ghost(target@),
                Ghost(false),
                Ghost(true),
                Ghost(kk as int),
            );
            let (f2, e2) = sg_adjust_band(
                &mut blocks,
                peq,
                base,
                first,
                end,
                hout,
                kk,
                c,
                false,
                Ghost(target@),
            );
            first = f2;
            end = e2;
            if end <= first {
                proof {
                    if first == 0 {
                        lemma_top_row(peq@, nbi, target@, c as int);
                        assert(dp_cell(peq@, nbi, target@, false, 0, c as int) > kk);
                    }
                    assert forall|x: int| 0 <= x < 64 * nbi implies #[trigger] dp_cell(peq@, nbi, target@, false, x, c as int) > kk by {
                        assert(!(64 * first <= x < 64 * end));
                    }
                    crate::dp::lemma_column_above_later(peq@, nbi, target@, c as int, n - 1, kk as int, qi - 1);
                }
                self.edit_distance = None;
                *position = None;
                if capture {
                    *align_data = Some(data);
                }
                return Ok(());
            }
            if capture {
                save_column(
                    &mut data,
                    &blocks,
                    first,
                    end,
                    c,
                    max_num_blocks,
                    Ghost(n as int),
                    Ghost(peq@),
                    Ghost(target@),
                    Ghost(kk as int),
                );
            }
            let stop_here = match target_stop_position {
                Some(p) => p == c,
                None => false,
            };
            if stop_here {
                self.edit_distance = None;
                *position = target_stop_position;
                return Ok(());
            }
            c = c + 1;
        }
        if capture {
            *align_data = Some(data);
        }
        proof {
            if g <= kk {
                if !(64 * first <= qi - 1 < 64 * end) {
                    assert(dp_cell(peq@, nbi, target@, false, qi - 1, n - 1) > kk);
                }
                assert(end == max_num_blocks);
            }
        }
        if end == max_num_blocks {
            let scores = blocks[end - 1].get_cell_values();
            let best = scores[w];
            proof {
                let lb = blocks@[end - 1];
                assert(dp_ge(lb, end - 1, peq@, nbi, target@, false, n - 1));
                assert(dp_exact(lb, end - 1, peq@, nbi, target@, false, n - 1, kk as int));
                assert(64 * (end - 1) + (63 - w) == query_len - 1);
                assert(row_value(lb, 63 - w) >= dp_cell(peq@, nbi, target@, false, 64 * (end - 1) + (63 - w), n - 1));
                assert(best == row_value(lb, 63 - w));
            }
            if 0 <= best && best <= kk {
                self.edit_distance = Some(best as usize);
                *position = Some(n - 1);
                return Ok(());
            }
        }
        self.edit_distance = None;
        *position = None;
        Ok(())
    }
}

proof fn lemma_band_exact_sub(blocks: Seq<Block>, lo: int, hi: int, first: int, end: int, peq: Seq<Word>, target: Seq<usize>, free_start: bool, j: int, k: int)
    requires
        band_exact(blocks, lo, hi, peq, target, free_start, j, k),
        lo <= first,
        end <= hi,
    ensures
        band_exact(blocks, first, end, peq, target, free_start, j, k),
{
    assert forall|b: int| first <= b < end implies dp_exact(#[trigger] blocks[b], b, peq, blocks.len() as int, target, free_start, j, k) by {
        assert(lo <= b < hi);
    }
}

proof fn lemma_cover_drop_last(peq: Seq<Word>, nb: int, target: Seq<usize>, free_start: bool, first: int, end: int, j: int, k: int)
    requires
        covered(peq, nb, target, free_start, first, end, j, k),
        first < end,
        forall|r: int| 0 <= r < 64 ==> #[trigger] dp_cell(peq, nb, target, free_start, 64 * (end - 1) + r, j) > k,
    ensures
        covered(peq, nb, target, free_start, first, end - 1, j, k),
{
    assert forall|i: int| 0 <= i < 64 * nb && !(64 * first <= i < 64 * (end - 1)) implies #[trigger] dp_cell(peq, nb, target, free_start, i, j) > k by {
        if 64 * (end - 1) <= i < 64 * end {
            let r = i - 64 * (end - 1);
            assert(dp_cell(peq, nb, target, free_start, 64 * (end - 1) + r, j) > k);
        }
    }
}

proof fn lemma_cover_drop_first(peq: Seq<Word>, nb: int, target: Seq<usize>, free_start: bool, first: int, end: int, j: int, k: int)
    requires
        covered(peq, nb, target, free_start, first, end, j, k),
        first < end,
        forall|r: int| 0 <= r < 64 ==> #[trigger] dp_cell(peq, nb, target, free_start, 64 * first + r, j) > k,
        first == 0 ==> dp_cell(peq, nb, target, free_start, -1, j) > k,
    ensures
        covered(peq, nb, target, free_start, first + 1, end, j, k),
{
    assert forall|i: int| 0 <= i < 64 * nb && !(64 * (first + 1) <= i < 64 * end) implies #[trigger] dp_cell(peq, nb, target, free_start, i, j) > k by {
        if 64 * first <= i < 64 * (first + 1) {
            let r = i - 64 * first;
            assert(dp_cell(peq, nb, target, free_start, 64 * first + r, j) > k);
        }
    }
}

proof fn lemma_cover_mono(peq: Seq<Word>, nb: int, target: Seq<usize>, free_start: bool, first: int, end: int, j: int, k: int, k2: int)
    requires
        covered(peq, nb, target, free_start, first, end, j, k),
        k2 <= k,
    ensures
        covered(peq, nb, target, free_start, first, end, j, k2),
{
    assert forall|i: int| 0 <= i < 64 * nb && !(64 * first <= i < 64 * end) implies #[trigger] dp_cell(peq, nb, target, free_start, i, j) > k2 by {
        assert(dp_cell(peq, nb, target, free_start, i, j) > k);
    }
}

proof fn lemma_exact_mono(blocks: Seq<Block>, first: int, end: int, peq: Seq<Word>, target: Seq<usize>, free_start: bool, j: int, k: int, k2: int)
    requires
        band_exact(blocks, first, end, peq, target, free_start, j, k),
        k2 <= k,
    ensures
        band_exact(blocks, first, end, peq, target, free_start, j, k2),
{
    assert forall|b: int| first <= b < end implies dp_exact(#[trigger] blocks[b], b, peq, blocks.len() as int, target, free_start, j, k2) by {
        assert(dp_exact(blocks[b], b, peq, blocks.len() as int, target, free_start, j, k));
        assert forall|r: int| -1 <= r < 64 && dp_cell(peq, blocks.len() as int, target, free_start, 64 * b + r, j) <= k2
            implies #[trigger] row_value(blocks[b], r) == dp_cell(peq, blocks.len() as int, target, free_start, 64 * b + r, j) by {
        }
    }
}

/// Drops blocks from the top of the prefix band while all their cells exceed `k`.
fn sg_shrink_first(
    blocks: &Vec<Block>,
    peq: &[Word],
    first: usize,
    end: usize,
    kk: isize,
    c: usize,
    Ghost(target): Ghost<Seq<usize>>,
) -> (r: usize)
    requires
        first <= end <= blocks@.len() <= MAX_BLOCKS,
        0 <= kk <= K_LIMIT,
        c < MAX_SEQUENCE_LEN,
        c < target.len(),
        band_bounds(blocks@, c + 1),
        band_ge(blocks@, first as int, end as int, peq@, target, false, c as int),
        band_exact(blocks@, first as int, end as int, peq@, target, false, c as int, kk as int),
        covered(peq@, blocks@.len() as int, target, false, first as int, end as int, c as int, kk as int),
    ensures
        first <= r <= end,
        band_ge(blocks@, r as int, end as int, peq@, target, false, c as int),
        band_exact(blocks@, r as int, end as int, peq@, target, false, c as int, kk as int),
        covered(peq@, blocks@.len() as int, target, false, r as int, end as int, c as int, kk as int),
{
    let max_num_blocks = blocks.len();
    let ghost nb = max_num_blocks as int;
    let ghost k = kk as int;
    let ghost ci = c as int;
    let ghost first0 = first;
    let mut first = first;
    while first < end && blocks[first].score >= kk + 64
        invariant
            nb == max_num_blocks,
            k == kk,
            ci == c,
            0 <= kk <= K_LIMIT,
            max_num_blocks <= MAX_BLOCKS,
            band_bounds(blocks@, c + 1),
            c < MAX_SEQUENCE_LEN,
            c < target.len(),
            first0 <= first <= end,
            end <= max_num_blocks,
            blocks@.len() == max_num_blocks,
            band_ge(blocks@, first as int, end as int, peq@, target, false, ci),
            band_exact(blocks@, first as int, end as int, peq@, target, false, ci, k),
            covered(peq@, nb, target, false, first as int, end as int, ci, k),
        decreases end - first,
    {
        proof {
            assert(row_value(blocks@[first as int], 63) == blocks@[first as int].score);
            lemma_block_above(blocks@[first as int], first as int, peq@, nb, target, false, ci, k);
            if first == 0 {
                lemma_top_row(peq@, nb, target, ci);
                assert(dp_cell(peq@, nb, target, false, 64 * (first as int) + 0, ci) > k);
            }
            lemma_cover_drop_first(peq@, nb, target, false, first as int, end as int, ci, k);
            lemma_band_ge_sub(blocks@, first as int, end as int, first + 1, end as int, peq@, target, false, ci);
            lemma_band_exact_sub(blocks@, first as int, end as int, first + 1, end as int, peq@, target, false, ci, k);
        }
        first = first + 1;
    }
    if c % STRONG_REDUCE_NUM == 0 {
        while first < end && all_block_cells_larger(&blocks[first], kk)
            invariant
                nb == max_num_blocks,
                k == kk,
                ci == c,
                0 <= kk <= K_LIMIT,
                max_num_blocks <= MAX_BLOCKS,
                band_bounds(blocks@, c + 1),
                c < MAX_SEQUENCE_LEN,
                c < target.len(),
                    first0 <= first <= end,
                end <= max_num_blocks,
                blocks@.len() == max_num_blocks,
                band_bounds(blocks@, c + 1),
                c < MAX_SEQUENCE_LEN,
                band_ge(blocks@, first as int, end as int, peq@, target, false, ci),
                band_exact(blocks@, first as int, end as int, peq@, target, false, ci, k),
                covered(peq@, nb, target, false, first as int, end as int, ci, k),
            decreases end - first,
        {
            proof {
                let blk = blocks@[first as int];
                assert forall|x: int| 0 <= x < 64 implies #[trigger] row_value(blk, x) > k by {
                    assert(blk.cell_spec((63 - x) as nat) > k);
                }
                lemma_block_above(blk, first as int, peq@, nb, target, false, ci, k);
                if first == 0 {
                    lemma_top_row(peq@, nb, target, ci);
                    assert(dp_cell(peq@, nb, target, false, 64 * (first as int) + 0, ci) > k);
                }
                lemma_cover_drop_first(peq@, nb, target, false, first as int, end as int, ci, k);
                lemma_band_ge_sub(blocks@, first as int, end as int, first + 1, end as int, peq@, target, false, ci);
                lemma_band_exact_sub(blocks@, first as int, end as int, first + 1, end as int, peq@, target, false, ci, k);
            }
            first = first + 1;
        }
    }
    first
}

/// The band step of the prefix and infix sweeps after column `c` is computed: brings in
/// the next block where a score within `k` can reach it, and drops blocks whose cells are
/// all above `k`. Returns the new first block and end of band.
#[verifier::rlimit(50)]
fn sg_adjust_band(
    blocks: &mut Vec<Block>,
    peq: &[Word],
    base: usize,
    first: usize,
    end: usize,
    hout: isize,
    kk: isize,
    c: usize,
    is_hw: bool,
    Ghost(target): Ghost<Seq<usize>>,
) -> (r: (usize, usize))
    requires
        c < target.len(),
        c < MAX_SEQUENCE_LEN,
        base == target[c as int] * old(blocks)@.len(),
        base + old(blocks)@.len() <= peq.len(),
        first < end <= old(blocks)@.len() <= MAX_BLOCKS,
        -1 <= hout <= 1,
        0 <= kk <= K_LIMIT,
        band_bounds(old(blocks)@, c + 1),
        end * 64 - c <= old(blocks)@[end - 1].score - hout <= end * 66 + 2 * c,
        band_ge(old(blocks)@, first as int, end as int, peq@, target, is_hw, c as int),
        band_exact(old(blocks)@, first as int, end as int, peq@, target, is_hw, c as int, kk as int),
        covered(peq@, old(blocks)@.len() as int, target, is_hw, first as int, end as int, c - 1, kk as int),
        old(blocks)@[end - 1].score - hout >= dp_cell(peq@, old(blocks)@.len() as int, target, is_hw, 64 * end - 1, c - 1),
        dp_cell(peq@, old(blocks)@.len() as int, target, is_hw, 64 * end - 1, c - 1) <= kk ==> old(blocks)@[end - 1].score - hout
            == dp_cell(peq@, old(blocks)@.len() as int, target, is_hw, 64 * end - 1, c - 1),
        is_hw ==> first == 0,
    ensures
        final(blocks)@.len() == old(blocks)@.len(),
        band_bounds(final(blocks)@, c + 1),
        r.1 <= old(blocks)@.len(),
        is_hw ==> r.0 == 0 && r.1 >= 1,
        r.0 < r.1 ==> band_ge(final(blocks)@, r.0 as int, r.1 as int, peq@, target, is_hw, c as int),
        r.0 < r.1 ==> band_exact(final(blocks)@, r.0 as int, r.1 as int, peq@, target, is_hw, c as int, kk as int),
        covered(peq@, old(blocks)@.len() as int, target, is_hw, r.0 as int, r.1 as int, c as int, kk as int),
{
    let max_num_blocks = blocks.len();
    let ghost nb = max_num_blocks as int;
    let ghost k = kk as int;
    let ghost ci = c as int;
    let mut first = first;
    let mut end = end;
    let last_score = blocks[end - 1].score;
    let ghost vold = last_score - hout;
    proof {
        assert(64 * end - 1 == 64 * (end - 1) + 63);
        assert(dp_exact(blocks@[end - 1], end - 1, peq@, nb, target, is_hw, ci, k));
        assert(dp_ge(blocks@[end - 1], end - 1, peq@, nb, target, is_hw, ci));
        if !is_hw && first > 0 {
            lemma_cover_above(peq@, nb, target, false, first as int, ci, k);
        }
        if is_hw {
            assert(dp_ge(blocks@[0], 0, peq@, nb, target, is_hw, ci));
            assert(dp_exact(blocks@[0], 0, peq@, nb, target, is_hw, ci, k));
        }
    }
    let grow = end < max_num_blocks && last_score - hout <= kk && ((peq[base + end] & 1) != 0
        || hout < 0);
    if grow {
        let ghost before = blocks@;
        expand_band(
            blocks,
            peq,
            base,
            end,
            hout,
            Ghost(ci),
            Ghost(target),
            Ghost(is_hw),
            Ghost(true),
            Ghost(k),
        );
        proof {
            lemma_cover_below_grown(peq@, nb, target, is_hw, end as int, ci, k, vold, hout as int);
            lemma_band_ge_extend(before, blocks@, first as int, end as int, peq@, target, is_hw, ci);
            lemma_band_exact_extend(before, blocks@, first as int, end as int, peq@, target, is_hw, ci, k);
            assert(blocks@[0] == before[0]);
            assert forall|i: int| 0 <= i < 64 * nb && !(64 * first <= i < 64 * (end + 1)) implies #[trigger] dp_cell(peq@, nb, target, is_hw, i, ci) > k by {
                if i < 64 * first {
                } else {
                    assert(64 * (end + 1) <= i);
                }
            }
        }
        end = end + 1;
    } else {
        proof {
            if end < max_num_blocks {
                assert(row_value(blocks@[end - 1], 63) == blocks@[end - 1].score);
                assert(dp_cell(peq@, nb, target, is_hw, 64 * (end - 1) + 63, ci) <= k ==> row_value(blocks@[end - 1], 63)
                    == dp_cell(peq@, nb, target, is_hw, 64 * (end - 1) + 63, ci));
                let x = peq@[base + end];
                assert(((x & 1) != 0) == ((x >> 0u64) & 1 == 1)) by (bit_vector);
                lemma_row_index_zero(end as int);
                assert(peq_cost(peq@, nb, target, 64 * end, ci) == 0 <==> (x & 1) != 0);
                lemma_cover_below_kept(peq@, nb, target, is_hw, end as int, ci, k, vold, hout as int);
            }
            assert forall|i: int| 0 <= i < 64 * nb && !(64 * first <= i < 64 * end) implies #[trigger] dp_cell(peq@, nb, target, is_hw, i, ci) > k by {
                if i < 64 * first {
                } else {
                    assert(64 * end <= i);
                }
            }
        }
        while end > first && blocks[end - 1].score >= kk + 64
            invariant
                nb == max_num_blocks,
                k == kk,
                ci == c,
                0 <= kk <= K_LIMIT,
                max_num_blocks <= MAX_BLOCKS,
                band_bounds(blocks@, c + 1),
                c < MAX_SEQUENCE_LEN,
                c < target.len(),
                is_hw ==> first == 0,
                first < end + 1,
                end <= max_num_blocks,
                blocks@.len() == max_num_blocks,
                band_ge(blocks@, first as int, end as int, peq@, target, is_hw, ci),
                band_exact(blocks@, first as int, end as int, peq@, target, is_hw, ci, k),
                covered(peq@, nb, target, is_hw, first as int, end as int, ci, k),
            decreases end,
        {
            proof {
                assert(row_value(blocks@[end - 1], 63) == blocks@[end - 1].score);
                lemma_block_above(blocks@[end - 1], end - 1, peq@, nb, target, is_hw, ci, k);
                lemma_cover_drop_last(peq@, nb, target, is_hw, first as int, end as int, ci, k);
                lemma_band_ge_sub(blocks@, first as int, end as int, first as int, end - 1, peq@, target, is_hw, ci);
                lemma_band_exact_sub(blocks@, first as int, end as int, first as int, end - 1, peq@, target, is_hw, ci, k);
            }
            end = end - 1;
        }
    }
    if c % STRONG_REDUCE_NUM == 0 {
        while end > first && all_block_cells_larger(&blocks[end - 1], kk)
            invariant
                nb == max_num_blocks,
                k == kk,
                ci == c,
                0 <= kk <= K_LIMIT,
                max_num_blocks <= MAX_BLOCKS,
                band_bounds(blocks@, c + 1),
                c < MAX_SEQUENCE_LEN,
                c < target.len(),
                is_hw ==> first == 0,
                first < end + 1,
                end <= max_num_blocks,
                blocks@.len() == max_num_blocks,
                band_bounds(blocks@, c + 1),
                c < MAX_SEQUENCE_LEN,
                band_ge(blocks@, first as int, end as int, peq@, target, is_hw, ci),
                band_exact(blocks@, first as int, end as int, peq@, target, is_hw, ci, k),
                covered(peq@, nb, target, is_hw, first as int, end as int, ci, k),
            decreases end,
        {
            proof {
                let blk = blocks@[end - 1];
                assert forall|x: int| 0 <= x < 64 implies #[trigger] row_value(blk, x) > k by {
                    assert(blk.cell_spec((63 - x) as nat) > k);
                }
                lemma_block_above(blk, end - 1, peq@, nb, target, is_hw, ci, k);
                lemma_cover_drop_last(peq@, nb, target, is_hw, first as int, end as int, ci, k);
                lemma_band_ge_sub(blocks@, first as int, end as int, first as int, end - 1, peq@, target, is_hw, ci);
                lemma_band_exact_sub(blocks@, first as int, end as int, first as int, end - 1, peq@, target, is_hw, ci, k);
            }
            end = end - 1;
        }
    }
    if is_hw && end == 0 {
        end = 1;
        proof {
            assert forall|i: int| 0 <= i < 64 * nb && !(64 * first <= i < 64 * end) implies #[trigger] dp_cell(peq@, nb, target, is_hw, i, ci) > k by {
                assert(!(64 * 0 <= i < 64 * 0));
            }
        }
    }
    if !is_hw {
        first = sg_shrink_first(blocks, peq, first, end, kk, c, Ghost(target));
    }
    (first, end)
}

/// The global distance reported for optimum `g` under threshold `k`.
pub open spec fn global_result(k: int, g: int) -> Option<usize> {
    if g <= k {
        Some(g as usize)
    } else {
        None
    }
}

/// The threshold a sweep works with: `k`, capped where no score can reach.
pub open spec fn clamp_k(k: usize) -> int {
    if k > K_LIMIT { K_LIMIT as int } else { k as int }
}

/// Block `b` of column `c` as the table holds it.
pub open spec fn table_block(d: AlignmentData, nb: int, c: int, b: int) -> Block {
    Block {
        p: d.ps@[nb * c + b]->Some_0,
        m: d.ms@[nb * c + b]->Some_0,
        score: d.scores@[nb * c + b]->Some_0,
    }
}

/// Column `c` of the table: its band holds every matrix cell within `k` of the global
/// sweep, each block's rows at or above their cells and exact where those are within `k`.
pub open spec fn table_column(d: AlignmentData, nb: int, c: int, peq: Seq<Word>, target: Seq<usize>, k: int) -> bool {
    &&& d.column_saved(nb, c)
    &&& covered(peq, nb, target, false, d.first_blocks@[c]->Some_0 as int, d.last_blocks@[c]->Some_0 + 1, c, k)
    &&& forall|b: int|
        d.first_blocks@[c]->Some_0 <= b <= d.last_blocks@[c]->Some_0 ==> {
            &&& dp_ge(#[trigger] table_block(d, nb, c, b), b, peq, nb, target, false, c)
            &&& dp_exact(table_block(d, nb, c, b), b, peq, nb, target, false, c, k)
            &&& -(K_LIMIT as int) <= table_block(d, nb, c, b).score <= K_LIMIT
        }
}

/// Copies the band `first .. end` of column `c` into the table.
fn save_column(
    data: &mut AlignmentData,
    blocks: &Vec<Block>,
    first: usize,
    end: usize,
    c: usize,
    max_num_blocks: usize,
    Ghost(n): Ghost<int>,
    Ghost(peq): Ghost<Seq<Word>>,
    Ghost(target): Ghost<Seq<usize>>,
    Ghost(k): Ghost<int>,
)
    requires
        old(data).sized(max_num_blocks as int, n),
        first < end <= max_num_blocks,
        blocks@.len() == max_num_blocks,
        max_num_blocks <= MAX_BLOCKS,
        c < n,
        c < MAX_SEQUENCE_LEN,
        band_bounds(blocks@, c + 1),
        band_ge(blocks@, first as int, end as int, peq, target, false, c as int),
        band_exact(blocks@, first as int, end as int, peq, target, false, c as int, k),
        covered(peq, max_num_blocks as int, target, false, first as int, end as int, c as int, k),
        forall|x: int| 0 <= x < c ==> #[trigger] table_column(*old(data), max_num_blocks as int, x, peq, target, k),
    ensures
        final(data).sized(max_num_blocks as int, n),
        forall|x: int| 0 <= x <= c ==> #[trigger] table_column(*final(data), max_num_blocks as int, x, peq, target, k),
{
    let ghost nb = max_num_blocks as int;
    let ghost d0 = *data;
    proof {
        assert(max_num_blocks * c + max_num_blocks <= max_num_blocks * n) by (nonlinear_arith)
            requires
                c < n,
                0 <= max_num_blocks,
        ;
    }
    let mut b: usize = first;
    while b < end
        invariant
            first <= b <= end <= max_num_blocks,
            nb == max_num_blocks,
            blocks@.len() == max_num_blocks,
            data.sized(max_num_blocks as int, n),
            max_num_blocks * c + max_num_blocks <= max_num_blocks * n,
            c < n,
            data.first_blocks == d0.first_blocks,
            data.last_blocks == d0.last_blocks,
            forall|i: int| 0 <= i < nb * c ==> #[trigger] data.ps@[i] == d0.ps@[i] && data.ms@[i] == d0.ms@[i] && data.scores@[i] == d0.scores@[i],
            forall|x: int| first <= x < b ==> #[trigger] table_block(*data, nb, c as int, x) == blocks@[x] && data.ps@[nb * c + x] is Some && data.ms@[nb * c + x] is Some && data.scores@[nb * c + x] is Some,
        decreases end - b,
    {
        let idx = max_num_blocks * c + b;
        let blk = blocks[b];
        let ghost before = *data;
        data.ps.set(idx, Some(blk.p));
        data.ms.set(idx, Some(blk.m));
        data.scores.set(idx, Some(blk.score));
        proof {
            assert forall|i: int| 0 <= i < nb * c implies #[trigger] data.ps@[i] == d0.ps@[i] && data.ms@[i] == d0.ms@[i] && data.scores@[i] == d0.scores@[i] by {
                assert(i != idx);
                assert(before.ps@[i] == d0.ps@[i]);
            }
            assert forall|x: int| first <= x < b + 1 implies #[trigger] table_block(*data, nb, c as int, x) == blocks@[x] && data.ps@[nb * c + x] is Some && data.ms@[nb * c + x] is Some && data.scores@[nb * c + x] is Some by {
                if x < b {
                    assert(table_block(before, nb, c as int, x) == blocks@[x]);
                    assert(before.ps@[nb * c + x] is Some);
                }
            }
        }
        b = b + 1;
    }
    let ghost d1 = *data;
    data.first_blocks.set(c, Some(first));
    data.last_blocks.set(c, Some(end - 1));
    proof {
        assert(data.ps == d1.ps && data.ms == d1.ms && data.scores == d1.scores);
        assert forall|x: int| first <= x < end implies #[trigger] table_block(*data, nb, c as int, x) == blocks@[x] by {
            assert(table_block(d1, nb, c as int, x) == blocks@[x]);
        }
        assert forall|x: int| 0 <= x <= c implies #[trigger] table_column(*data, nb, x, peq, target, k) by {
            if x < c {
                assert(table_column(d0, nb, x, peq, target, k));
                assert(data.first_blocks@[x] == d0.first_blocks@[x]);
                assert(data.last_blocks@[x] == d0.last_blocks@[x]);
                let f = d0.first_blocks@[x]->Some_0;
                let l = d0.last_blocks@[x]->Some_0;
                assert forall|b2: int| f <= b2 <= l implies {
                    &&& dp_ge(#[trigger] table_block(*data, nb, x, b2), b2, peq, nb, target, false, x)
                    &&& dp_exact(table_block(*data, nb, x, b2), b2, peq, nb, target, false, x, k)
                    &&& -(K_LIMIT as int) <= table_block(*data, nb, x, b2).score <= K_LIMIT
                } && data.ps@[nb * x + b2] is Some && data.ms@[nb * x + b2] is Some && data.scores@[nb * x + b2] is Some by {
                    assert(nb * x + b2 < nb * c) by (nonlinear_arith)
                        requires
                            0 <= x < c,
                            0 <= b2 < nb,
                    ;
                    assert(0 <= nb * x + b2) by (nonlinear_arith)
                        requires
                            0 <= x,
                            0 <= b2,
                            0 <= nb,
                    ;
                    assert(table_block(*data, nb, x, b2) == table_block(d0, nb, x, b2));
                    assert(d0.ps@[nb * x + b2] is Some);
                }
                assert forall|b2: int| f <= b2 <= l implies #[trigger] data.ps@[nb * x + b2] is Some
                    && data.ms@[nb * x + b2] is Some && data.scores@[nb * x + b2] is Some by {
                    assert(nb * x + b2 < nb * c) by (nonlinear_arith)
                        requires
                            0 <= x < c,
                            0 <= b2 < nb,
                    ;
                    assert(0 <= nb * x + b2) by (nonlinear_arith)
                        requires
                            0 <= x,
                            0 <= b2,
                            0 <= nb,
                    ;
                    assert(d0.ps@[nb * x + b2] is Some);
                }
                assert(data.column_saved(nb, x));
                assert(covered(peq, nb, target, false, data.first_blocks@[x]->Some_0 as int, data.last_blocks@[x]->Some_0 + 1, x, k));
            } else {
                assert forall|b2: int| first <= b2 <= end - 1 implies {
                    &&& dp_ge(#[trigger] table_block(*data, nb, x, b2), b2, peq, nb, target, false, x)
                    &&& dp_exact(table_block(*data, nb, x, b2), b2, peq, nb, target, false, x, k)
                    &&& -(K_LIMIT as int) <= table_block(*data, nb, x, b2).score <= K_LIMIT
                } by {
                    assert(x == c as int);
                    assert(table_block(*data, nb, c as int, b2) == blocks@[b2]);
                    assert(blocks@[b2].wf());
                }
                assert(end - 1 + 1 == end);
                assert(data.first_blocks@[x] == Some(first));
                assert(data.last_blocks@[x] == Some((end - 1) as usize));
                assert forall|b2: int| first <= b2 <= end - 1 implies #[trigger] data.ps@[nb * x + b2] is Some
                    && data.ms@[nb * x + b2] is Some && data.scores@[nb * x + b2] is Some by {
                    assert(table_block(d1, nb, c as int, b2) == blocks@[b2]);
                    assert(d1.ps@[nb * c + b2] is Some);
                }
                assert(data.column_saved(nb, x));
                assert(covered(peq, nb, target, false, data.first_blocks@[x]->Some_0 as int, data.last_blocks@[x]->Some_0 + 1, x, k));
            }
        }
    }
}

} // verus!
