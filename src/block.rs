//! One block of a DP column: a word of vertical deltas plus the score of its last cell.
use vstd::prelude::*;

verus! {

/// A single bit-vector word.
pub type Word = u64;

/// Number of bits in a [`Word`].
pub const WORD_SIZE: u32 = 64;

/// The word with only its highest bit set.
pub const HIGH_BIT_MASK: Word = 0x8000_0000_0000_0000;

/// Longest query or target the engine accepts; longer ones are not representable in its
/// integer widths.
pub const MAX_SEQUENCE_LEN: usize = 0x800_0000;

/// Number of blocks that cover `len` rows.
pub open spec fn blocks_for(len: int) -> int {
    (len + 63) / 64
}

/// Bit `i` of `x`, as 0 or 1.
pub open spec fn bit(x: Word, i: int) -> int {
    if 0 <= i < 64 && (x >> (i as u64)) & 1 == 1 { 1 } else { 0 }
}

/// Number of set bits among the `j` highest bits of `x`.
pub open spec fn count_high(x: Word, j: nat) -> int
    decreases j,
{
    if j == 0 {
        0
    } else {
        count_high(x, (j - 1) as nat) + bit(x, 64 - j)
    }
}

/// The bit that carries a negative horizontal input into bit 0.
pub open spec fn neg_bit(hin: int) -> Word {
    if hin < 0 { 1 } else { 0 }
}

/// The bit that carries a positive horizontal input into bit 0.
pub open spec fn pos_bit(hin: int) -> Word {
    if hin > 0 { 1 } else { 0 }
}

/// `Xh`: the rows whose horizontal delta is pulled down by a match or by a run of `+1`s above.
pub open spec fn horizontal_mask(p: Word, eq: Word) -> Word {
    (vstd::wrapping::u64_specs::wrapping_add(eq & p, p) ^ p) | eq
}

/// Rows whose horizontal delta is `+1`, before the shift.
pub open spec fn plus_h(p: Word, m: Word, eq: Word, hin: int) -> Word {
    m | !(horizontal_mask(p, eq | neg_bit(hin)) | p)
}

/// Rows whose horizontal delta is `-1`, before the shift.
pub open spec fn minus_h(p: Word, eq: Word, hin: int) -> Word {
    p & horizontal_mask(p, eq | neg_bit(hin))
}

/// The horizontal delta leaving the block at its last row.
pub open spec fn hout_of(p: Word, m: Word, eq: Word, hin: int) -> int {
    ((plus_h(p, m, eq, hin) >> 63u64) & 1) as int - ((minus_h(p, eq, hin) >> 63u64) & 1) as int
}

/// New `P` of a block after one column.
pub open spec fn next_p(p: Word, m: Word, eq: Word, hin: int) -> Word {
    let ph = (plus_h(p, m, eq, hin) << 1u64) | pos_bit(hin);
    let mh = (minus_h(p, eq, hin) << 1u64) | neg_bit(hin);
    mh | !((eq | m) | ph)
}

/// New `M` of a block after one column.
pub open spec fn next_m(p: Word, m: Word, eq: Word, hin: int) -> Word {
    let ph = (plus_h(p, m, eq, hin) << 1u64) | pos_bit(hin);
    ph & (eq | m)
}

/// `W` consecutive cells of one column of the edit-distance matrix.
#[derive(Debug, Clone, Copy, Default)]
pub struct Block {
    /// Bit `i` set when the vertical delta into row `i` is `+1`.
    pub p: Word,
    /// Bit `i` set when the vertical delta into row `i` is `-1`.
    pub m: Word,
    /// Score of the last (highest-bit) cell of the block.
    pub score: isize,
}

/// A delta never claims both `+1` and `-1`, whichever the inputs.
proof fn lemma_next_disjoint(p: Word, m: Word, eq: Word, neg: Word, pos: Word)
    requires
        p & m == 0,
        neg <= 1,
        pos <= 1,
        neg == 0 || pos == 0,
    ensures
        ({
            let e = eq | neg;
            let xh = (vstd::wrapping::u64_specs::wrapping_add(e & p, p) ^ p) | e;
            let ph = ((m | !(xh | p)) << 1u64) | pos;
            let mh = ((p & xh) << 1u64) | neg;
            (mh | !((eq | m) | ph)) & (ph & (eq | m)) == 0
        }),
{
    let e = eq | neg;
    let s = vstd::wrapping::u64_specs::wrapping_add(e & p, p);
    let xh = (s ^ p) | e;
    assert(((((p & xh) << 1u64) | neg) | !((eq | m) | (((m | !(xh | p)) << 1u64) | pos)))
        & ((((m | !(xh | p)) << 1u64) | pos) & (eq | m)) == 0) by (bit_vector)
        requires
            p & m == 0,
            neg <= 1,
            pos <= 1,
            neg == 0 || pos == 0,
    ;
}

/// Bit `i` of `x` is set.
pub open spec fn bit_set(x: Word, i: u64) -> bool {
    (x >> i) & 1 == 1
}

proof fn lemma_bit_ops(a: Word, b: Word, i: u64)
    requires
        i < 64,
    ensures
        bit_set(a | b, i) == (bit_set(a, i) || bit_set(b, i)),
        bit_set(a & b, i) == (bit_set(a, i) && bit_set(b, i)),
        bit_set(!a, i) == !bit_set(a, i),
{
    assert(((a | b) >> i) & 1 == 1 <==> ((a >> i) & 1 == 1 || (b >> i) & 1 == 1)) by (bit_vector)
        requires
            i < 64,
    ;
    assert(((a & b) >> i) & 1 == 1 <==> ((a >> i) & 1 == 1 && (b >> i) & 1 == 1)) by (bit_vector)
        requires
            i < 64,
    ;
    assert(((!a) >> i) & 1 == 1 <==> !((a >> i) & 1 == 1)) by (bit_vector)
        requires
            i < 64,
    ;
}

proof fn lemma_bit_shift_in(a: Word, x: Word, i: u64)
    requires
        i < 64,
        x <= 1,
    ensures
        i == 0 ==> (bit_set((a << 1u64) | x, i) == (x == 1)),
        i > 0 ==> (bit_set((a << 1u64) | x, i) == bit_set(a, (i - 1) as u64)),
{
    assert(i == 0 ==> ((((a << 1u64) | x) >> i) & 1 == 1 <==> x == 1)) by (bit_vector)
        requires
            i < 64,
            x <= 1,
    ;
    assert(i > 0 ==> ((((a << 1u64) | x) >> i) & 1 == 1 <==> (a >> ((i - 1) as u64)) & 1 == 1))
        by (bit_vector)
        requires
            i < 64,
            x <= 1,
    ;
}

/// The carry chain of `Xh`: row `i` is set by a match there, or by a `-1` horizontal
/// delta coming down from row `i - 1` (the folded-in `hin` for row 0).
proof fn lemma_xh_bits(eq: Word, p: Word, neg: Word, i: u64)
    requires
        neg <= 1,
        i < 64,
    ensures
        i == 0 ==> (bit_set(horizontal_mask(p, eq | neg), i) == (bit_set(eq, i) || neg == 1)),
        i > 0 ==> (bit_set(horizontal_mask(p, eq | neg), i) == (bit_set(eq, i) || bit_set(
            p & horizontal_mask(p, eq | neg),
            (i - 1) as u64,
        ))),
{
    assert(i == 0 ==> ((((vstd::wrapping::u64_specs::wrapping_add((eq | neg) & p, p) ^ p) | (eq
        | neg)) >> i) & 1 == 1 <==> ((eq >> i) & 1 == 1 || neg == 1))) by (bit_vector)
        requires
            neg <= 1,
            i < 64,
    ;
    assert(i > 0 ==> ((((vstd::wrapping::u64_specs::wrapping_add((eq | neg) & p, p) ^ p) | (eq
        | neg)) >> i) & 1 == 1 <==> ((eq >> i) & 1 == 1 || ((p & ((
    vstd::wrapping::u64_specs::wrapping_add((eq | neg) & p, p) ^ p) | (eq | neg))) >> ((i
        - 1) as u64)) & 1 == 1))) by (bit_vector)
        requires
            neg <= 1,
            i < 64,
    ;
}

/// 1 for `true`, 0 for `false`.
pub open spec fn b2i(b: bool) -> int {
    if b { 1 } else { 0 }
}

/// The smallest of three values.
pub open spec fn min3(a: int, b: int, c: int) -> int {
    if a <= b && a <= c {
        a
    } else if b <= c {
        b
    } else {
        c
    }
}

/// One row of Myers' update on deltas: with vertical delta `v` into the row, horizontal
/// delta `h` above it and cost `c` of the diagonal step, the new cell exceeds the one
/// diagonally above-left by `t = min(c, h + 1, v + 1)`; the bit formulas give the
/// horizontal delta `t - v` out of the row and the vertical delta `t - h` into it.
proof fn lemma_row_rule(eq: bool, p: bool, m: bool, hp: bool, hm: bool)
    requires
        !(p && m),
        !(hp && hm),
    ensures
        ({
            let xh = eq || hm;
            let php = m || !(xh || p);
            let mhp = p && xh;
            let np = hm || !(eq || m || hp);
            let nm = hp && (eq || m);
            let v = b2i(p) - b2i(m);
            let h = b2i(hp) - b2i(hm);
            let t = min3(1 - b2i(eq), h + 1, v + 1);
            &&& !(php && mhp)
            &&& b2i(php) - b2i(mhp) == t - v
            &&& b2i(np) - b2i(nm) == t - h
        }),
{
}

/// Horizontal delta out of row `i` in the update, `hin` for row `-1`.
pub open spec fn hdelta(p: Word, m: Word, eq: Word, hin: int, i: int) -> int {
    if i < 0 {
        hin
    } else {
        b2i(bit_set(plus_h(p, m, eq, hin), i as u64)) - b2i(bit_set(minus_h(p, eq, hin), i as u64))
    }
}

/// Vertical delta into row `i` of a block.
pub open spec fn vdelta(p: Word, m: Word, i: int) -> int {
    b2i(bit_set(p, i as u64)) - b2i(bit_set(m, i as u64))
}

/// Cost of the diagonal step into row `i`: 0 on a match, 1 otherwise.
pub open spec fn step_cost(eq: Word, i: int) -> int {
    1 - b2i(bit_set(eq, i as u64))
}

proof fn lemma_row_facts(p: Word, m: Word, eq: Word, hin: int, i: int)
    requires
        p & m == 0,
        -1 <= hin <= 1,
        0 <= i < 64,
    ensures
        ({
            let t = min3(step_cost(eq, i), hdelta(p, m, eq, hin, i - 1) + 1, vdelta(p, m, i) + 1);
            &&& hdelta(p, m, eq, hin, i) == t - vdelta(p, m, i)
            &&& vdelta(next_p(p, m, eq, hin), next_m(p, m, eq, hin), i) == t - hdelta(
                p,
                m,
                eq,
                hin,
                i - 1,
            )
            &&& -1 <= hdelta(p, m, eq, hin, i) <= 1
        }),
{
    let iu = i as u64;
    let neg = neg_bit(hin);
    let pos = pos_bit(hin);
    let e = eq | neg;
    let xh = horizontal_mask(p, e);
    let ph = plus_h(p, m, eq, hin);
    let mh = minus_h(p, eq, hin);
    let ph2 = (ph << 1u64) | pos;
    let mh2 = (mh << 1u64) | neg;
    assert(p & m == 0 ==> !(bit_set(p, iu) && bit_set(m, iu))) by (bit_vector)
        requires
            iu < 64,
    ;
    lemma_xh_bits(eq, p, neg, iu);
    lemma_bit_ops(eq, neg, iu);
    lemma_bit_ops(xh, p, iu);
    lemma_bit_ops(xh | p, p, iu);
    lemma_bit_ops((eq | m) | ph2, p, iu);
    lemma_bit_ops(m, !(xh | p), iu);
    lemma_bit_ops(p, xh, iu);
    lemma_bit_ops(eq, m, iu);
    lemma_bit_ops(eq | m, ph2, iu);
    lemma_bit_ops(mh2, !((eq | m) | ph2), iu);
    lemma_bit_ops(ph2, eq | m, iu);
    lemma_bit_shift_in(ph, pos, iu);
    lemma_bit_shift_in(mh, neg, iu);
    if i > 0 {
        let ju = (i - 1) as u64;
        assert(m & p == 0 ==> !(bit_set(m | !(xh | p), ju) && bit_set(p & xh, ju))) by (bit_vector)
            requires
                ju < 64,
        ;
        assert(m & p == 0) by (bit_vector)
            requires
                p & m == 0,
        ;
    }
    assert(bit_set(e, iu) == (bit_set(eq, iu) || (iu == 0 && neg == 1))) by {
        assert(iu > 0 ==> !bit_set(neg, iu)) by (bit_vector)
            requires
                neg <= 1,
                iu < 64,
        ;
        assert(iu == 0 ==> (bit_set(neg, iu) == (neg == 1))) by (bit_vector)
            requires
                neg <= 1,
        ;
    }
    lemma_row_rule(
        bit_set(eq, iu),
        bit_set(p, iu),
        bit_set(m, iu),
        bit_set(ph2, iu),
        bit_set(mh2, iu),
    );
}

/// Value of row `i` of a block's column, from `-1` (the cell just above the block) to
/// `63` (its last cell).
pub open spec fn row_value(block: Block, i: int) -> int {
    block.cell_spec((63 - i) as nat)
}

pub proof fn lemma_row_step(block: Block, i: int)
    requires
        0 <= i < 64,
    ensures
        row_value(block, i - 1) == row_value(block, i) - vdelta(block.p, block.m, i),
{
    assert(count_high(block.p, (64 - i) as nat) == count_high(block.p, (63 - i) as nat) + bit(block.p, i));
    assert(count_high(block.m, (64 - i) as nat) == count_high(block.m, (63 - i) as nat) + bit(block.m, i));
}

/// The block after one update of `Block { p, m, score }`.
pub open spec fn advanced(p: Word, m: Word, eq: Word, hin: int, score: int) -> Block {
    Block {
        p: next_p(p, m, eq, hin),
        m: next_m(p, m, eq, hin),
        score: (score + hout_of(p, m, eq, hin)) as isize,
    }
}

proof fn lemma_row_diff(p: Word, m: Word, eq: Word, hin: int, score: isize, i: int)
    requires
        p & m == 0,
        -1 <= hin <= 1,
        -1 <= i <= 63,
        isize::MIN < score < isize::MAX,
    ensures
        row_value(advanced(p, m, eq, hin, score as int), i) - row_value(Block { p, m, score }, i)
            == hdelta(p, m, eq, hin, i),
    decreases 63 - i,
{
    let old_b = Block { p, m, score };
    let new_b = advanced(p, m, eq, hin, score as int);
    if i == 63 {
        lemma_row_facts(p, m, eq, hin, 63);
        let x = plus_h(p, m, eq, hin);
        let y = minus_h(p, eq, hin);
        assert((x >> 63u64) & 1 == 1 || (x >> 63u64) & 1 == 0) by (bit_vector);
        assert((y >> 63u64) & 1 == 1 || (y >> 63u64) & 1 == 0) by (bit_vector);
        assert(hout_of(p, m, eq, hin) == hdelta(p, m, eq, hin, 63));
    } else {
        lemma_row_diff(p, m, eq, hin, score, i + 1);
        lemma_row_facts(p, m, eq, hin, i + 1);
        lemma_row_step(old_b, i + 1);
        lemma_row_step(new_b, i + 1);
    }
}

/// Myers' update is the edit-distance recurrence on the block's rows: each new cell is
/// the least of the diagonal step, the step down from the new cell above and the step
/// across from the old cell, and the cell above the block moves by `hin`.
pub proof fn lemma_advance_is_recurrence(p: Word, m: Word, eq: Word, hin: int, score: isize)
    requires
        p & m == 0,
        -1 <= hin <= 1,
        isize::MIN < score < isize::MAX,
    ensures
        row_value(advanced(p, m, eq, hin, score as int), -1) == row_value(Block { p, m, score }, -1)
            + hin,
        forall|i: int|
            0 <= i < 64 ==> #[trigger] row_value(advanced(p, m, eq, hin, score as int), i) == min3(
                row_value(Block { p, m, score }, i - 1) + step_cost(eq, i),
                row_value(advanced(p, m, eq, hin, score as int), i - 1) + 1,
                row_value(Block { p, m, score }, i) + 1,
            ),
{
    let old_b = Block { p, m, score };
    let new_b = advanced(p, m, eq, hin, score as int);
    lemma_row_diff(p, m, eq, hin, score, -1);
    assert forall|i: int| 0 <= i < 64 implies #[trigger] row_value(new_b, i) == min3(
        row_value(old_b, i - 1) + step_cost(eq, i),
        row_value(new_b, i - 1) + 1,
        row_value(old_b, i) + 1,
    ) by {
        lemma_row_diff(p, m, eq, hin, score, i);
        lemma_row_diff(p, m, eq, hin, score, i - 1);
        lemma_row_facts(p, m, eq, hin, i);
        lemma_row_step(old_b, i);
    }
}

/// `count_high` lies between 0 and `j`.
proof fn lemma_count_high_bounds(x: Word, j: nat)
    ensures
        0 <= count_high(x, j) <= j,
    decreases j,
{
    if j > 0 {
        lemma_count_high_bounds(x, (j - 1) as nat);
    }
}

/// The mask `HIGH_BIT_MASK >> j` selects bit `63 - j`.
proof fn lemma_mask_bit(x: Word, j: u64)
    requires
        j < 64,
    ensures
        (x & (0x8000_0000_0000_0000u64 >> j) != 0) == ((x >> ((63 - j) as u64)) & 1 == 1),
{
    assert((x & (0x8000_0000_0000_0000u64 >> j) != 0) == ((x >> ((63 - j) as u64)) & 1 == 1))
        by (bit_vector)
        requires
            j < 64,
    ;
}

/// A cell differs from the last one by at most the number of rows between them.
pub proof fn lemma_cell_bounds(block: Block, j: nat)
    ensures
        block.score - j <= block.cell_spec(j) <= block.score + j,
{
    lemma_count_high_bounds(block.p, j);
    lemma_count_high_bounds(block.m, j);
}

/// The last cell rebuilt from a block's deltas is the block's score.
pub proof fn lemma_bottom_cell(block: Block)
    ensures
        block.cell_spec(0) == block.score,
{
}

impl Block {
    /// No row has both a `+1` and a `-1` vertical delta.
    pub open spec fn wf(&self) -> bool {
        self.p & self.m == 0
    }

    /// Value of the cell `j` rows above the last one.
    pub open spec fn cell_spec(&self, j: nat) -> int {
        self.score - count_high(self.p, j) + count_high(self.m, j)
    }

    /// Advances the block by one column (Myers' `Advance_Block`).
    ///
    /// `eq` marks the rows whose query symbol equals the column's symbol; `hin` is the
    /// horizontal delta entering the first row. Returns the horizontal delta leaving the
    /// last row, and adds it to the score. The new rows follow the edit-distance
    /// recurrence from the old ones.
    pub fn calculate_hout_delta(&mut self, eq: Word, hin: isize) -> (hout: isize)
        requires
            old(self).wf(),
            -1 <= hin <= 1,
            isize::MIN < old(self).score < isize::MAX,
        ensures
            hout == hout_of(old(self).p, old(self).m, eq, hin as int),
            -1 <= hout <= 1,
            final(self).p == next_p(old(self).p, old(self).m, eq, hin as int),
            final(self).m == next_m(old(self).p, old(self).m, eq, hin as int),
            final(self).score == old(self).score + hout,
            final(self).wf(),
            row_value(*final(self), -1) == row_value(*old(self), -1) + hin,
            forall|i: int|
                0 <= i < 64 ==> #[trigger] row_value(*final(self), i) == min3(
                    row_value(*old(self), i - 1) + step_cost(eq, i),
                    row_value(*final(self), i - 1) + 1,
                    row_value(*old(self), i) + 1,
                ),
    {
        let ghost before = *self;
        let p = self.p;
        let m = self.m;
        let neg: Word = if hin < 0 { 1 } else { 0 };
        let pos: Word = if hin > 0 { 1 } else { 0 };
        let xv: Word = eq | m;
        let e: Word = eq | neg;
        let xh: Word = ((e & p).wrapping_add(p) ^ p) | e;
        let ph: Word = m | !(xh | p);
        let mh: Word = p & xh;
        let top_p: Word = (ph >> 63u64) & 1;
        let top_m: Word = (mh >> 63u64) & 1;
        assert(top_p <= 1 && top_m <= 1) by (bit_vector)
            requires
                top_p == (ph >> 63u64) & 1,
                top_m == (mh >> 63u64) & 1,
        ;
        let hout: isize = top_p as isize - top_m as isize;
        let ph2: Word = (ph << 1u64) | pos;
        let mh2: Word = (mh << 1u64) | neg;
        self.p = mh2 | !(xv | ph2);
        self.m = ph2 & xv;
        self.score = self.score + hout;
        proof {
            lemma_next_disjoint(p, m, eq, neg, pos);
            lemma_advance_is_recurrence(p, m, eq, hin as int, before.score);
            assert(before == Block { p, m, score: before.score });
            assert(*self == advanced(p, m, eq, hin as int, before.score as int));
        }
        hout
    }

    /// Values of the block's cells, from its last cell upwards: entry `j` is the cell `j`
    /// rows above the last one.
    pub fn get_cell_values(&self) -> (scores: Vec<isize>)
        requires
            isize::MIN + 64 <= self.score <= isize::MAX - 64,
        ensures
            scores@.len() == 64,
            forall|j: int| 0 <= j < 64 ==> #[trigger] scores@[j] == self.cell_spec(j as nat),
            scores@[0] == self.score,
    {
        let mut scores: Vec<isize> = Vec::new();
        let mut score: isize = self.score;
        let mut j: u64 = 0;
        while j < 64
            invariant
                j <= 64,
                scores@.len() == j,
                score == self.cell_spec(j as nat),
                isize::MIN + 64 <= self.score <= isize::MAX - 64,
                forall|i: int| 0 <= i < j ==> #[trigger] scores@[i] == self.cell_spec(i as nat),
            decreases 64 - j,
        {
            scores.push(score);
            proof {
                lemma_count_high_bounds(self.p, j as nat);
                lemma_count_high_bounds(self.m, j as nat);
                lemma_mask_bit(self.p, j);
                lemma_mask_bit(self.m, j);
                assert(count_high(self.p, (j + 1) as nat) == count_high(self.p, j as nat) + bit(
                    self.p,
                    63 - j,
                ));
                assert(count_high(self.m, (j + 1) as nat) == count_high(self.m, j as nat) + bit(
                    self.m,
                    63 - j,
                ));
            }
            let mask: Word = HIGH_BIT_MASK >> j;
            if self.p & mask != 0 {
                score = score - 1;
            }
            if self.m & mask != 0 {
                score = score + 1;
            }
            j = j + 1;
        }
        scores
    }
}

} // verus!
