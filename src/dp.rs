//! The edit-distance matrix that the sweep computes, and facts about it.
use vstd::prelude::*;
use crate::block::{bit, count_high, lemma_row_step, min3, row_value, step_cost, Block, Word};

verus! {

/// Cost of the diagonal step into row `i` of column `j`, read from the profile: 0 where
/// it marks a match.
pub open spec fn peq_cost(peq: Seq<Word>, nb: int, target: Seq<usize>, i: int, j: int) -> int {
    1 - bit(peq[target[j] * nb + i / 64], i % 64)
}

/// Cell `(i, j)` of the edit-distance matrix of the padded query against `target`, rows
/// and columns from `-1`. Column `-1` holds `i + 1`; row `-1` holds `j + 1`, or 0 when
/// the start of the target is free.
pub open spec fn dp_cell(peq: Seq<Word>, nb: int, target: Seq<usize>, free_start: bool, i: int, j: int) -> int
    decreases (i + 1) as nat + (j + 1) as nat,
{
    if i < 0 {
        if free_start { 0 } else { j + 1 }
    } else if j < 0 {
        i + 1
    } else {
        min3(
            dp_cell(peq, nb, target, free_start, i - 1, j - 1) + peq_cost(peq, nb, target, i, j),
            dp_cell(peq, nb, target, free_start, i - 1, j) + 1,
            dp_cell(peq, nb, target, free_start, i, j - 1) + 1,
        )
    }
}

/// Every row `-1 ..= 63` of block `b` is at least the matrix cell it stands for in column `j`.
pub open spec fn dp_ge(block: Block, b: int, peq: Seq<Word>, nb: int, target: Seq<usize>, free_start: bool, j: int) -> bool {
    forall|r: int| -1 <= r < 64 ==> #[trigger] row_value(block, r) >= dp_cell(peq, nb, target, free_start, 64 * b + r, j)
}

/// A cell exceeds its left neighbour by at most one.
pub proof fn lemma_dp_horizontal(peq: Seq<Word>, nb: int, target: Seq<usize>, free_start: bool, i: int, j: int)
    requires
        i >= -1,
        j >= 0,
    ensures
        dp_cell(peq, nb, target, free_start, i, j) <= dp_cell(peq, nb, target, free_start, i, j - 1) + 1,
{
}

/// A cell exceeds the one `d` rows above it by at most `d`.
pub proof fn lemma_dp_vertical(peq: Seq<Word>, nb: int, target: Seq<usize>, free_start: bool, i: int, j: int, d: int)
    requires
        i >= -1,
        j >= -1,
        d >= 0,
    ensures
        dp_cell(peq, nb, target, free_start, i + d, j) <= dp_cell(peq, nb, target, free_start, i, j) + d,
    decreases d,
{
    if d > 0 {
        lemma_dp_vertical(peq, nb, target, free_start, i, j, d - 1);
        let k = i + d;
        assert(dp_cell(peq, nb, target, free_start, k, j) <= dp_cell(peq, nb, target, free_start, k - 1, j) + 1);
    }
}

/// Row `64·b` is the first row of block `b`.
pub proof fn lemma_row_index_zero(b: int)
    requires
        0 <= b,
    ensures
        (64 * b) / 64 == b,
        (64 * b) % 64 == 0,
{
    lemma_row_index(b, 0);
}

proof fn lemma_row_index(b: int, r: int)
    requires
        0 <= b,
        0 <= r < 64,
    ensures
        (64 * b + r) / 64 == b,
        (64 * b + r) % 64 == r,
{
    vstd::arithmetic::div_mod::lemma_fundamental_div_mod_converse(64 * b + r, 64, b, r);
}

proof fn lemma_block_step_row(
    old_b: Block,
    new_b: Block,
    eq: Word,
    peq: Seq<Word>,
    nb: int,
    target: Seq<usize>,
    free_start: bool,
    b: int,
    c: int,
    r: int,
)
    requires
        0 <= c < target.len(),
        0 <= b < nb,
        -1 <= r < 64,
        dp_ge(old_b, b, peq, nb, target, free_start, c - 1),
        row_value(new_b, -1) >= dp_cell(peq, nb, target, free_start, 64 * b - 1, c),
        forall|x: int|
            0 <= x < 64 ==> #[trigger] row_value(new_b, x) == min3(
                row_value(old_b, x - 1) + step_cost(eq, x),
                row_value(new_b, x - 1) + 1,
                row_value(old_b, x) + 1,
            ),
        eq == peq[target[c] * nb + b],
    ensures
        row_value(new_b, r) >= dp_cell(peq, nb, target, free_start, 64 * b + r, c),
    decreases r + 1,
{
    if r >= 0 {
        lemma_block_step_row(old_b, new_b, eq, peq, nb, target, free_start, b, c, r - 1);
        lemma_row_index(b, r);
        assert(row_value(old_b, r - 1) >= dp_cell(peq, nb, target, free_start, 64 * b + (r - 1), c - 1));
        assert(row_value(old_b, r) >= dp_cell(peq, nb, target, free_start, 64 * b + r, c - 1));
        assert(step_cost(eq, r) == peq_cost(peq, nb, target, 64 * b + r, c));
        assert(64 * b + r - 1 == 64 * b + (r - 1));
    }
}

/// One column step keeps each row at least its matrix cell, given that the cell above
/// the block is.
pub proof fn lemma_block_step(
    old_b: Block,
    new_b: Block,
    eq: Word,
    peq: Seq<Word>,
    nb: int,
    target: Seq<usize>,
    free_start: bool,
    b: int,
    c: int,
)
    requires
        0 <= c < target.len(),
        0 <= b < nb,
        dp_ge(old_b, b, peq, nb, target, free_start, c - 1),
        row_value(new_b, -1) >= dp_cell(peq, nb, target, free_start, 64 * b - 1, c),
        forall|x: int|
            0 <= x < 64 ==> #[trigger] row_value(new_b, x) == min3(
                row_value(old_b, x - 1) + step_cost(eq, x),
                row_value(new_b, x - 1) + 1,
                row_value(old_b, x) + 1,
            ),
        eq == peq[target[c] * nb + b],
    ensures
        dp_ge(new_b, b, peq, nb, target, free_start, c),
{
    assert forall|r: int| -1 <= r < 64 implies #[trigger] row_value(new_b, r) >= dp_cell(peq, nb, target, free_start, 64 * b + r, c) by {
        lemma_block_step_row(old_b, new_b, eq, peq, nb, target, free_start, b, c, r);
    }
}

/// All-ones words count one per bit.
pub proof fn lemma_count_all_ones(j: nat)
    requires
        j <= 64,
    ensures
        count_high(0xffff_ffff_ffff_ffffu64, j) == j,
        count_high(0u64, j) == 0,
    decreases j,
{
    if j > 0 {
        lemma_count_all_ones((j - 1) as nat);
        let k = (64 - j) as u64;
        assert((0xffff_ffff_ffff_ffffu64 >> k) & 1 == 1) by (bit_vector)
            requires
                k < 64,
        ;
        assert((0u64 >> k) & 1 == 0) by (bit_vector);
    }
}

/// A fresh block below a cell of value `top` holds `top + 1, top + 2, …` in its rows.
pub proof fn lemma_fresh_rows(block: Block, r: int)
    requires
        block.p == 0xffff_ffff_ffff_ffffu64,
        block.m == 0,
        -1 <= r < 64,
    ensures
        row_value(block, r) == block.score - 63 + r,
{
    lemma_count_all_ones((63 - r) as nat);
}

/// The least cell of row `i` over columns `-1 ..= upto`.
pub open spec fn row_min(peq: Seq<Word>, nb: int, target: Seq<usize>, free_start: bool, i: int, upto: int) -> int
    decreases (upto + 1) as nat,
{
    if upto <= -1 {
        dp_cell(peq, nb, target, free_start, i, -1)
    } else {
        let r = row_min(peq, nb, target, free_start, i, upto - 1);
        let v = dp_cell(peq, nb, target, free_start, i, upto);
        if v < r { v } else { r }
    }
}

/// `row_min` is at most each cell it ranges over.
pub proof fn lemma_row_min_le(peq: Seq<Word>, nb: int, target: Seq<usize>, free_start: bool, i: int, upto: int, j: int)
    requires
        -1 <= j <= upto,
    ensures
        row_min(peq, nb, target, free_start, i, upto) <= dp_cell(peq, nb, target, free_start, i, j),
    decreases upto + 1,
{
    if upto > -1 && j < upto {
        lemma_row_min_le(peq, nb, target, free_start, i, upto - 1, j);
    }
}

/// Rows past the query's end match every symbol.
pub open spec fn padded_wild(peq: Seq<Word>, nb: int, query_len: int, target: Seq<usize>) -> bool {
    forall|r: int, j: int|
        query_len <= r < 64 * nb && 0 <= j < target.len() ==> #[trigger] peq_cost(peq, nb, target, r, j) == 0
}

/// Below the query's last row the matrix only repeats what that row reached: no cell
/// there is smaller than the least cell of the last row.
pub proof fn lemma_padded_rows(peq: Seq<Word>, nb: int, target: Seq<usize>, free_start: bool, query_len: int, i: int, j: int)
    requires
        1 <= query_len,
        query_len - 1 <= i < 64 * nb,
        -1 <= j < target.len(),
        padded_wild(peq, nb, query_len, target),
    ensures
        dp_cell(peq, nb, target, free_start, i, j) >= row_min(peq, nb, target, free_start, query_len - 1, target.len() - 1),
    decreases (i + 1) as nat + (j + 1) as nat,
{
    let g = row_min(peq, nb, target, free_start, query_len - 1, target.len() - 1);
    if i == query_len - 1 {
        lemma_row_min_le(peq, nb, target, free_start, i, target.len() - 1, j);
    } else if j == -1 {
        lemma_row_min_le(peq, nb, target, free_start, query_len - 1, target.len() - 1, -1);
    } else {
        lemma_padded_rows(peq, nb, target, free_start, query_len, i - 1, j - 1);
        lemma_padded_rows(peq, nb, target, free_start, query_len, i - 1, j);
        lemma_padded_rows(peq, nb, target, free_start, query_len, i, j - 1);
        assert(peq_cost(peq, nb, target, i, j) == 0);
    }
}

/// Cells are never negative.
pub proof fn lemma_dp_nonneg(peq: Seq<Word>, nb: int, target: Seq<usize>, free_start: bool, i: int, j: int)
    requires
        i >= -1,
        j >= -1,
    ensures
        dp_cell(peq, nb, target, free_start, i, j) >= 0,
    decreases (i + 1) as nat + (j + 1) as nat,
{
    if i >= 0 && j >= 0 {
        lemma_dp_nonneg(peq, nb, target, free_start, i - 1, j - 1);
        lemma_dp_nonneg(peq, nb, target, free_start, i - 1, j);
        lemma_dp_nonneg(peq, nb, target, free_start, i, j - 1);
    }
}

/// The rows `-1 ..= 63` of block `b` whose matrix cell in column `j` is at most `k` hold
/// exactly that cell.
pub open spec fn dp_exact(block: Block, b: int, peq: Seq<Word>, nb: int, target: Seq<usize>, free_start: bool, j: int, k: int) -> bool {
    forall|r: int|
        -1 <= r < 64 && dp_cell(peq, nb, target, free_start, 64 * b + r, j) <= k ==> #[trigger] row_value(block, r)
            == dp_cell(peq, nb, target, free_start, 64 * b + r, j)
}

proof fn lemma_block_exact_row(
    old_b: Block,
    new_b: Block,
    eq: Word,
    peq: Seq<Word>,
    nb: int,
    target: Seq<usize>,
    free_start: bool,
    b: int,
    c: int,
    k: int,
    r: int,
)
    requires
        0 <= c < target.len(),
        0 <= b < nb,
        -1 <= r < 64,
        dp_ge(old_b, b, peq, nb, target, free_start, c - 1),
        dp_exact(old_b, b, peq, nb, target, free_start, c - 1, k),
        dp_ge(new_b, b, peq, nb, target, free_start, c),
        dp_cell(peq, nb, target, free_start, 64 * b - 1, c) <= k ==> row_value(new_b, -1) == dp_cell(
            peq,
            nb,
            target,
            free_start,
            64 * b - 1,
            c,
        ),
        forall|x: int|
            0 <= x < 64 ==> #[trigger] row_value(new_b, x) == min3(
                row_value(old_b, x - 1) + step_cost(eq, x),
                row_value(new_b, x - 1) + 1,
                row_value(old_b, x) + 1,
            ),
        eq == peq[target[c] * nb + b],
    ensures
        dp_cell(peq, nb, target, free_start, 64 * b + r, c) <= k ==> row_value(new_b, r) == dp_cell(
            peq,
            nb,
            target,
            free_start,
            64 * b + r,
            c,
        ),
    decreases r + 1,
{
    if r == -1 {
        assert(64 * b + r == 64 * b - 1);
    } else {
        lemma_block_exact_row(old_b, new_b, eq, peq, nb, target, free_start, b, c, k, r - 1);
        lemma_row_index(b, r);
        let i = 64 * b + r;
        assert(i - 1 == 64 * b + (r - 1));
        let d_a = dp_cell(peq, nb, target, free_start, i - 1, c - 1);
        let d_b = dp_cell(peq, nb, target, free_start, i - 1, c);
        let d_c = dp_cell(peq, nb, target, free_start, i, c - 1);
        assert(step_cost(eq, r) == peq_cost(peq, nb, target, i, c));
        assert(0 <= step_cost(eq, r) <= 1);
        assert(row_value(old_b, r - 1) >= d_a);
        assert(row_value(old_b, r) >= d_c);
        assert(row_value(new_b, r) >= dp_cell(peq, nb, target, free_start, i, c));
        if dp_cell(peq, nb, target, free_start, i, c) <= k {
            assert(d_a <= k ==> row_value(old_b, r - 1) == d_a);
            assert(d_c <= k ==> row_value(old_b, r) == d_c);
        }
    }
}

/// One column step keeps the rows within `k` exact, given that the cell above the block is.
pub proof fn lemma_block_step_exact(
    old_b: Block,
    new_b: Block,
    eq: Word,
    peq: Seq<Word>,
    nb: int,
    target: Seq<usize>,
    free_start: bool,
    b: int,
    c: int,
    k: int,
)
    requires
        0 <= c < target.len(),
        0 <= b < nb,
        dp_ge(old_b, b, peq, nb, target, free_start, c - 1),
        dp_exact(old_b, b, peq, nb, target, free_start, c - 1, k),
        dp_ge(new_b, b, peq, nb, target, free_start, c),
        dp_cell(peq, nb, target, free_start, 64 * b - 1, c) <= k ==> row_value(new_b, -1) == dp_cell(
            peq,
            nb,
            target,
            free_start,
            64 * b - 1,
            c,
        ),
        forall|x: int|
            0 <= x < 64 ==> #[trigger] row_value(new_b, x) == min3(
                row_value(old_b, x - 1) + step_cost(eq, x),
                row_value(new_b, x - 1) + 1,
                row_value(old_b, x) + 1,
            ),
        eq == peq[target[c] * nb + b],
    ensures
        dp_exact(new_b, b, peq, nb, target, free_start, c, k),
{
    assert forall|r: int|
        -1 <= r < 64 && dp_cell(peq, nb, target, free_start, 64 * b + r, c) <= k implies #[trigger] row_value(new_b, r)
            == dp_cell(peq, nb, target, free_start, 64 * b + r, c) by {
        lemma_block_exact_row(old_b, new_b, eq, peq, nb, target, free_start, b, c, k, r);
    }
}

/// The last cell exceeds the one `63 - r` rows above it by at most that many.
pub proof fn lemma_rows_lipschitz(block: Block, r: int)
    requires
        -1 <= r <= 63,
    ensures
        row_value(block, 63) <= row_value(block, r) + (63 - r),
    decreases 63 - r,
{
    if r < 63 {
        lemma_rows_lipschitz(block, r + 1);
        lemma_row_step(block, r + 1);
    }
}

/// A block whose last cell is `k + 64` or more, or all of whose cells exceed `k`, covers
/// only matrix cells above `k`.
pub proof fn lemma_block_above(block: Block, b: int, peq: Seq<Word>, nb: int, target: Seq<usize>, free_start: bool, j: int, k: int)
    requires
        dp_ge(block, b, peq, nb, target, free_start, j),
        dp_exact(block, b, peq, nb, target, free_start, j, k),
        row_value(block, 63) >= k + 64 || forall|x: int| 0 <= x < 64 ==> #[trigger] row_value(block, x) > k,
    ensures
        forall|r: int| 0 <= r < 64 ==> #[trigger] dp_cell(peq, nb, target, free_start, 64 * b + r, j) > k,
{
    assert forall|r: int| 0 <= r < 64 implies #[trigger] dp_cell(peq, nb, target, free_start, 64 * b + r, j) > k by {
        if dp_cell(peq, nb, target, free_start, 64 * b + r, j) <= k {
            assert(row_value(block, r) == dp_cell(peq, nb, target, free_start, 64 * b + r, j));
            lemma_rows_lipschitz(block, r);
        }
    }
}

/// Outside blocks `first .. end` every cell of column `j` exceeds `k`, and so does the
/// row above the query once the band has left the top.
pub open spec fn covered(peq: Seq<Word>, nb: int, target: Seq<usize>, free_start: bool, first: int, end: int, j: int, k: int) -> bool {
    &&& forall|i: int|
        0 <= i < 64 * nb && !(64 * first <= i < 64 * end) ==> #[trigger] dp_cell(peq, nb, target, free_start, i, j) > k
    &&& (first > 0 ==> dp_cell(peq, nb, target, free_start, -1, j) > k)
}

proof fn lemma_above_row(peq: Seq<Word>, nb: int, target: Seq<usize>, free_start: bool, first: int, c: int, k: int, i: int)
    requires
        0 <= c,
        -1 <= i < 64 * first,
        first > 0,
        !free_start,
        forall|x: int| 0 <= x < 64 * first ==> #[trigger] dp_cell(peq, nb, target, free_start, x, c - 1) > k,
        dp_cell(peq, nb, target, free_start, -1, c - 1) > k,
    ensures
        dp_cell(peq, nb, target, free_start, i, c) > k,
    decreases i + 1,
{
    if i >= 0 {
        lemma_above_row(peq, nb, target, free_start, first, c, k, i - 1);
        lemma_dp_nonneg(peq, nb, target, free_start, i - 1, c - 1);
        if i - 1 >= 0 {
            assert(dp_cell(peq, nb, target, free_start, i - 1, c - 1) > k);
        }
        assert(dp_cell(peq, nb, target, free_start, i, c - 1) > k);
        assert(0 <= peq_cost(peq, nb, target, i, c));
    }
}

/// Rows above the band stay above `k` from one column to the next.
pub proof fn lemma_cover_above(peq: Seq<Word>, nb: int, target: Seq<usize>, free_start: bool, first: int, c: int, k: int)
    requires
        0 <= c,
        first > 0,
        !free_start,
        forall|x: int| 0 <= x < 64 * first ==> #[trigger] dp_cell(peq, nb, target, free_start, x, c - 1) > k,
        dp_cell(peq, nb, target, free_start, -1, c - 1) > k,
    ensures
        forall|x: int| -1 <= x < 64 * first ==> #[trigger] dp_cell(peq, nb, target, free_start, x, c) > k,
{
    assert forall|x: int| -1 <= x < 64 * first implies #[trigger] dp_cell(peq, nb, target, free_start, x, c) > k by {
        lemma_above_row(peq, nb, target, free_start, first, c, k, x);
    }
}

/// Without a free start, the row above the query is at least the query's first row.
pub proof fn lemma_top_row(peq: Seq<Word>, nb: int, target: Seq<usize>, c: int)
    requires
        c >= 0,
    ensures
        dp_cell(peq, nb, target, false, -1, c) >= dp_cell(peq, nb, target, false, 0, c),
{
    assert(peq_cost(peq, nb, target, 0, c) <= 1);
    assert(dp_cell(peq, nb, target, false, -1, c - 1) == c);
    assert(dp_cell(peq, nb, target, false, 0, c) <= dp_cell(peq, nb, target, false, -1, c - 1) + peq_cost(
        peq,
        nb,
        target,
        0,
        c,
    ));
}

proof fn lemma_below_row_kept(
    peq: Seq<Word>,
    nb: int,
    target: Seq<usize>,
    free_start: bool,
    e: int,
    c: int,
    k: int,
    vold: int,
    hout: int,
    i: int,
)
    requires
        1 <= e,
        0 <= c,
        64 * e <= i < 64 * nb,
        forall|x: int| 64 * e <= x < 64 * nb ==> #[trigger] dp_cell(peq, nb, target, free_start, x, c - 1) > k,
        vold >= dp_cell(peq, nb, target, free_start, 64 * e - 1, c - 1),
        dp_cell(peq, nb, target, free_start, 64 * e - 1, c - 1) <= k ==> vold == dp_cell(peq, nb, target, free_start, 64 * e - 1, c - 1),
        -1 <= hout <= 1,
        dp_cell(peq, nb, target, free_start, 64 * e - 1, c) <= k ==> vold + hout == dp_cell(peq, nb, target, free_start, 64 * e - 1, c),
        !(vold <= k && (peq_cost(peq, nb, target, 64 * e, c) == 0 || hout < 0)),
    ensures
        dp_cell(peq, nb, target, free_start, i, c) > k,
    decreases i,
{
    lemma_dp_nonneg(peq, nb, target, free_start, i - 1, c - 1);
    assert(0 <= peq_cost(peq, nb, target, i, c) <= 1);
    if i == 64 * e {
        lemma_dp_vertical(peq, nb, target, free_start, 64 * e - 1, c - 1, 1);
        assert(dp_cell(peq, nb, target, free_start, 64 * e, c - 1) > k);
    } else {
        lemma_below_row_kept(peq, nb, target, free_start, e, c, k, vold, hout, i - 1);
        assert(dp_cell(peq, nb, target, free_start, i - 1, c - 1) > k);
        assert(dp_cell(peq, nb, target, free_start, i, c - 1) > k);
    }
}

/// Without a new block, the rows below the band stay above `k`: the block's top cell
/// can only be reached at `k` or less by a match below the band's last cell, or by a
/// falling delta out of it.
pub proof fn lemma_cover_below_kept(
    peq: Seq<Word>,
    nb: int,
    target: Seq<usize>,
    free_start: bool,
    e: int,
    c: int,
    k: int,
    vold: int,
    hout: int,
)
    requires
        1 <= e,
        0 <= c,
        forall|x: int| 64 * e <= x < 64 * nb ==> #[trigger] dp_cell(peq, nb, target, free_start, x, c - 1) > k,
        vold >= dp_cell(peq, nb, target, free_start, 64 * e - 1, c - 1),
        dp_cell(peq, nb, target, free_start, 64 * e - 1, c - 1) <= k ==> vold == dp_cell(peq, nb, target, free_start, 64 * e - 1, c - 1),
        -1 <= hout <= 1,
        dp_cell(peq, nb, target, free_start, 64 * e - 1, c) <= k ==> vold + hout == dp_cell(peq, nb, target, free_start, 64 * e - 1, c),
        !(vold <= k && (peq_cost(peq, nb, target, 64 * e, c) == 0 || hout < 0)),
    ensures
        forall|x: int| 64 * e <= x < 64 * nb ==> #[trigger] dp_cell(peq, nb, target, free_start, x, c) > k,
{
    assert forall|x: int| 64 * e <= x < 64 * nb implies #[trigger] dp_cell(peq, nb, target, free_start, x, c) > k by {
        lemma_below_row_kept(peq, nb, target, free_start, e, c, k, vold, hout, x);
    }
}

proof fn lemma_new_block_row(
    peq: Seq<Word>,
    nb: int,
    target: Seq<usize>,
    free_start: bool,
    e: int,
    c: int,
    k: int,
    vold: int,
    hout: int,
    d: int,
)
    requires
        1 <= e < nb,
        0 <= c,
        0 <= d < 64,
        forall|x: int| 64 * e <= x < 64 * nb ==> #[trigger] dp_cell(peq, nb, target, free_start, x, c - 1) > k,
        vold >= dp_cell(peq, nb, target, free_start, 64 * e - 1, c - 1),
        -1 <= hout <= 1,
        dp_cell(peq, nb, target, free_start, 64 * e - 1, c) <= k ==> vold + hout == dp_cell(peq, nb, target, free_start, 64 * e - 1, c),
    ensures
        dp_cell(peq, nb, target, free_start, 64 * e + d, c) >= k,
    decreases d,
{
    let i = 64 * e + d;
    lemma_dp_nonneg(peq, nb, target, free_start, i - 1, c - 1);
    assert(0 <= peq_cost(peq, nb, target, i, c) <= 1);
    assert(dp_cell(peq, nb, target, free_start, i, c - 1) > k);
    if d == 0 {
        lemma_dp_vertical(peq, nb, target, free_start, 64 * e - 1, c - 1, 1);
        assert(dp_cell(peq, nb, target, free_start, 64 * e, c - 1) > k);
    } else {
        lemma_new_block_row(peq, nb, target, free_start, e, c, k, vold, hout, d - 1);
        assert(dp_cell(peq, nb, target, free_start, i - 1, c - 1) > k);
    }
}

proof fn lemma_below_row_grown(
    peq: Seq<Word>,
    nb: int,
    target: Seq<usize>,
    free_start: bool,
    e: int,
    c: int,
    k: int,
    vold: int,
    hout: int,
    i: int,
)
    requires
        1 <= e < nb,
        0 <= c,
        64 * (e + 1) <= i < 64 * nb,
        forall|x: int| 64 * e <= x < 64 * nb ==> #[trigger] dp_cell(peq, nb, target, free_start, x, c - 1) > k,
        vold >= dp_cell(peq, nb, target, free_start, 64 * e - 1, c - 1),
        -1 <= hout <= 1,
        dp_cell(peq, nb, target, free_start, 64 * e - 1, c) <= k ==> vold + hout == dp_cell(peq, nb, target, free_start, 64 * e - 1, c),
    ensures
        dp_cell(peq, nb, target, free_start, i, c) > k,
    decreases i,
{
    lemma_dp_nonneg(peq, nb, target, free_start, i - 1, c - 1);
    assert(0 <= peq_cost(peq, nb, target, i, c) <= 1);
    assert(dp_cell(peq, nb, target, free_start, i - 1, c - 1) > k);
    assert(dp_cell(peq, nb, target, free_start, i, c - 1) > k);
    if i == 64 * (e + 1) {
        lemma_new_block_row(peq, nb, target, free_start, e, c, k, vold, hout, 63);
        assert(i - 1 == 64 * e + 63);
    } else {
        lemma_below_row_grown(peq, nb, target, free_start, e, c, k, vold, hout, i - 1);
    }
}

/// With block `e` brought in, the rows below it stay above `k`.
pub proof fn lemma_cover_below_grown(
    peq: Seq<Word>,
    nb: int,
    target: Seq<usize>,
    free_start: bool,
    e: int,
    c: int,
    k: int,
    vold: int,
    hout: int,
)
    requires
        1 <= e < nb,
        0 <= c,
        forall|x: int| 64 * e <= x < 64 * nb ==> #[trigger] dp_cell(peq, nb, target, free_start, x, c - 1) > k,
        vold >= dp_cell(peq, nb, target, free_start, 64 * e - 1, c - 1),
        -1 <= hout <= 1,
        dp_cell(peq, nb, target, free_start, 64 * e - 1, c) <= k ==> vold + hout == dp_cell(peq, nb, target, free_start, 64 * e - 1, c),
    ensures
        forall|x: int| 64 * (e + 1) <= x < 64 * nb ==> #[trigger] dp_cell(peq, nb, target, free_start, x, c) > k,
{
    assert forall|x: int| 64 * (e + 1) <= x < 64 * nb implies #[trigger] dp_cell(peq, nb, target, free_start, x, c) > k by {
        lemma_below_row_grown(peq, nb, target, free_start, e, c, k, vold, hout, x);
    }
}

/// Once a whole column, with the row above it, exceeds `k` (no free start), every later
/// column does too.
pub proof fn lemma_column_above_later(peq: Seq<Word>, nb: int, target: Seq<usize>, c: int, c2: int, k: int, i: int)
    requires
        0 <= c <= c2,
        -1 <= i < 64 * nb,
        forall|x: int| 0 <= x < 64 * nb ==> #[trigger] dp_cell(peq, nb, target, false, x, c) > k,
        dp_cell(peq, nb, target, false, -1, c) > k,
    ensures
        dp_cell(peq, nb, target, false, i, c2) > k,
    decreases c2 - c, i + 1,
{
    if c2 > c && i >= 0 {
        lemma_column_above_later(peq, nb, target, c, c2 - 1, k, i - 1);
        lemma_column_above_later(peq, nb, target, c, c2, k, i - 1);
        lemma_column_above_later(peq, nb, target, c, c2 - 1, k, i);
        assert(0 <= peq_cost(peq, nb, target, i, c2));
    }
}

/// Down the rows past the query's end the matrix runs along the diagonal for free.
pub proof fn lemma_padded_diag(peq: Seq<Word>, nb: int, target: Seq<usize>, free_start: bool, query_len: int, j: int, d: int)
    requires
        1 <= query_len,
        0 <= d,
        query_len - 1 + d < 64 * nb,
        -1 <= j,
        j + d < target.len(),
        padded_wild(peq, nb, query_len, target),
    ensures
        dp_cell(peq, nb, target, free_start, query_len - 1 + d, j + d) <= dp_cell(peq, nb, target, free_start, query_len - 1, j),
    decreases d,
{
    if d > 0 {
        lemma_padded_diag(peq, nb, target, free_start, query_len, j, d - 1);
        assert(peq_cost(peq, nb, target, query_len - 1 + d, j + d) == 0);
        assert(query_len - 1 + d - 1 == query_len - 1 + (d - 1));
    }
}

/// `row_min` is reached at some column.
pub proof fn lemma_row_min_attained(peq: Seq<Word>, nb: int, target: Seq<usize>, free_start: bool, i: int, upto: int) -> (j: int)
    requires
        upto >= -1,
    ensures
        -1 <= j <= upto,
        dp_cell(peq, nb, target, free_start, i, j) == row_min(peq, nb, target, free_start, i, upto),
    decreases upto + 1,
{
    if upto == -1 {
        -1
    } else {
        let j0 = lemma_row_min_attained(peq, nb, target, free_start, i, upto - 1);
        if dp_cell(peq, nb, target, free_start, i, upto) < row_min(peq, nb, target, free_start, i, upto - 1) {
            upto
        } else {
            j0
        }
    }
}

/// With at least one target column, the least cell of a query row is reached at a
/// column `0` or later.
pub proof fn lemma_row_min_at_column(peq: Seq<Word>, nb: int, target: Seq<usize>, free_start: bool, i: int, upto: int)
    requires
        i >= 0,
        upto >= 0,
    ensures
        exists|j: int| 0 <= j <= upto && #[trigger] dp_cell(peq, nb, target, free_start, i, j) == row_min(peq, nb, target, free_start, i, upto),
    decreases upto,
{
    if upto == 0 {
        assert(peq_cost(peq, nb, target, i, 0) <= 1);
        assert(dp_cell(peq, nb, target, free_start, i - 1, -1) == i);
        assert(dp_cell(peq, nb, target, free_start, i, 0) <= dp_cell(peq, nb, target, free_start, i - 1, -1) + peq_cost(peq, nb, target, i, 0));
        assert(dp_cell(peq, nb, target, free_start, i, 0) == row_min(peq, nb, target, free_start, i, 0));
    } else {
        lemma_row_min_at_column(peq, nb, target, free_start, i, upto - 1);
        if dp_cell(peq, nb, target, free_start, i, upto) < row_min(peq, nb, target, free_start, i, upto - 1) {
            assert(dp_cell(peq, nb, target, free_start, i, upto) == row_min(peq, nb, target, free_start, i, upto));
        } else {
            let j0 = choose|j: int| 0 <= j <= upto - 1 && #[trigger] dp_cell(peq, nb, target, free_start, i, j) == row_min(peq, nb, target, free_start, i, upto - 1);
            assert(dp_cell(peq, nb, target, free_start, i, j0) == row_min(peq, nb, target, free_start, i, upto));
        }
    }
}

/// Without a free start a cell is at least the distance of its row from its column.
pub proof fn lemma_dp_gap(peq: Seq<Word>, nb: int, target: Seq<usize>, i: int, j: int)
    requires
        i >= -1,
        j >= -1,
    ensures
        dp_cell(peq, nb, target, false, i, j) >= i - j,
        dp_cell(peq, nb, target, false, i, j) >= j - i,
    decreases (i + 1) as nat + (j + 1) as nat,
{
    if i >= 0 && j >= 0 {
        lemma_dp_gap(peq, nb, target, i - 1, j - 1);
        lemma_dp_gap(peq, nb, target, i - 1, j);
        lemma_dp_gap(peq, nb, target, i, j - 1);
        assert(0 <= peq_cost(peq, nb, target, i, j));
    }
}

/// Without a free start a cell is at most `i + j + 2`.
pub proof fn lemma_dp_upper(peq: Seq<Word>, nb: int, target: Seq<usize>, i: int, j: int)
    requires
        i >= -1,
        j >= -1,
    ensures
        dp_cell(peq, nb, target, false, i, j) <= i + j + 2,
{
    lemma_dp_vertical(peq, nb, target, false, -1, j, i + 1);
}

/// A cell below the query's last row comes from some cell of that row, at least as far
/// off the diagonal as it has moved.
pub proof fn lemma_padded_witness(peq: Seq<Word>, nb: int, target: Seq<usize>, free_start: bool, query_len: int, d: int, c: int)
    requires
        1 <= query_len,
        0 <= d,
        query_len - 1 + d < 64 * nb,
        -1 <= c < target.len(),
        padded_wild(peq, nb, query_len, target),
    ensures
        exists|j: int|
            -1 <= j <= c && #[trigger] dp_cell(peq, nb, target, free_start, query_len - 1, j) + (if c - j - d >= 0 { c - j - d } else { d + j - c })
                <= dp_cell(peq, nb, target, free_start, query_len - 1 + d, c),
    decreases (d + c + 1) as nat,
{
    let i = query_len - 1 + d;
    if d == 0 {
        assert(dp_cell(peq, nb, target, free_start, query_len - 1, c) + 0 <= dp_cell(peq, nb, target, free_start, i, c));
    } else if c == -1 {
        assert(dp_cell(peq, nb, target, free_start, query_len - 1, -1) + d <= dp_cell(peq, nb, target, free_start, i, -1));
    } else {
        assert(peq_cost(peq, nb, target, i, c) == 0);
        lemma_padded_witness(peq, nb, target, free_start, query_len, d - 1, c - 1);
        lemma_padded_witness(peq, nb, target, free_start, query_len, d - 1, c);
        lemma_padded_witness(peq, nb, target, free_start, query_len, d, c - 1);
        assert(query_len - 1 + (d - 1) == i - 1);
        let j1 = choose|j: int| -1 <= j <= c - 1 && #[trigger] dp_cell(peq, nb, target, free_start, query_len - 1, j) + (if c - 1 - j - (d - 1) >= 0 { c - 1 - j - (d - 1) } else { d - 1 + j - (c - 1) })
            <= dp_cell(peq, nb, target, free_start, query_len - 1 + (d - 1), c - 1);
        let j2 = choose|j: int| -1 <= j <= c && #[trigger] dp_cell(peq, nb, target, free_start, query_len - 1, j) + (if c - j - (d - 1) >= 0 { c - j - (d - 1) } else { d - 1 + j - c })
            <= dp_cell(peq, nb, target, free_start, query_len - 1 + (d - 1), c);
        let j3 = choose|j: int| -1 <= j <= c - 1 && #[trigger] dp_cell(peq, nb, target, free_start, query_len - 1, j) + (if c - 1 - j - d >= 0 { c - 1 - j - d } else { d + j - (c - 1) })
            <= dp_cell(peq, nb, target, free_start, query_len - 1 + d, c - 1);
        let v = dp_cell(peq, nb, target, free_start, i, c);
        if v == dp_cell(peq, nb, target, free_start, i - 1, c - 1) {
            assert(dp_cell(peq, nb, target, free_start, query_len - 1, j1) + (if c - j1 - d >= 0 { c - j1 - d } else { d + j1 - c }) <= v);
        } else if v == dp_cell(peq, nb, target, free_start, i - 1, c) + 1 {
            assert(dp_cell(peq, nb, target, free_start, query_len - 1, j2) + (if c - j2 - d >= 0 { c - j2 - d } else { d + j2 - c }) <= v);
        } else {
            assert(v == dp_cell(peq, nb, target, free_start, i, c - 1) + 1);
            assert(dp_cell(peq, nb, target, free_start, query_len - 1, j3) + (if c - j3 - d >= 0 { c - j3 - d } else { d + j3 - c }) <= v);
        }
    }
}

/// A cell below the query's last row that equals the least cell of that row stands
/// exactly `d` columns after a column where that row reaches its least cell.
pub proof fn lemma_padded_exact(peq: Seq<Word>, nb: int, target: Seq<usize>, free_start: bool, query_len: int, d: int, c: int)
    requires
        1 <= query_len,
        0 <= d,
        query_len - 1 + d < 64 * nb,
        -1 <= c < target.len(),
        padded_wild(peq, nb, query_len, target),
        dp_cell(peq, nb, target, free_start, query_len - 1 + d, c) == row_min(peq, nb, target, free_start, query_len - 1, target.len() - 1),
    ensures
        c - d >= -1,
        dp_cell(peq, nb, target, free_start, query_len - 1, c - d) == row_min(peq, nb, target, free_start, query_len - 1, target.len() - 1),
{
    lemma_padded_witness(peq, nb, target, free_start, query_len, d, c);
    let j = choose|j: int|
        -1 <= j <= c && #[trigger] dp_cell(peq, nb, target, free_start, query_len - 1, j) + (if c - j - d >= 0 { c - j - d } else { d + j - c })
            <= dp_cell(peq, nb, target, free_start, query_len - 1 + d, c);
    lemma_row_min_le(peq, nb, target, free_start, query_len - 1, target.len() - 1, j);
    assert(j == c - d);
    lemma_row_min_le(peq, nb, target, free_start, query_len - 1, target.len() - 1, c - d);
}

} // verus!
