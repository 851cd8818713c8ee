//! The alignment result and the top-level alignment run.
use vstd::prelude::*;
use crate::error::AlignError;
use crate::alphabet::{distinct_in_order, lemma_distinct_in_order, renames};
pub use crate::alphabet::transform_sequences;
pub use crate::block::{Word, HIGH_BIT_MASK, WORD_SIZE};
use crate::block::{blocks_for, min3, Block, MAX_SEQUENCE_LEN};
use crate::cigar::{is_transcript, lemma_transcript_congruent, reversed, transcript_cost, EditOp};
use crate::config::AlignConfig;
use crate::dp::{dp_cell, padded_wild, peq_cost, row_min};
use crate::dst::{dp_input, ends_exact, locations_ok, table_block, table_column, K_LIMIT, MAX_BLOCKS};
use crate::dp::{dp_exact, dp_ge};
use crate::block::row_value;
use crate::equal::{added_equal, byte_is_char, finds, EqualityDefinition};
use crate::mode::AlignMode;
use crate::peq::{build_peq_table, in_alphabet, is_profile};
use crate::task::AlignTask;
use vstd::string::StringSliceAdditionalSpecFns;

verus! {

/// The word with only its lowest bit set.
pub const WORD_1: Word = 1;

/// Number of distinct byte values.
pub const MAX_UCHAR: usize = 256;

/// Result of aligning a query against a target.
#[derive(Debug, Default)]
pub struct Alignment {
    /// Edit distance of the best alignment, or `None` when there is none within `k`.
    pub edit_distance: Option<usize>,
    /// Zero-based positions in the target where optimal alignments end, ascending.
    pub end_locations: Option<Vec<isize>>,
    /// Zero-based positions in the target where those alignments start, paired with
    /// `end_locations`.
    pub start_locations: Option<Vec<isize>>,
    /// Edit operations of an optimal alignment for the first (start, end) pair.
    pub alignment: Option<Vec<EditOp>>,
    /// Number of distinct symbols in query and target together.
    pub alphabet_length: usize,
}

/// Per-column state of a global DP pass, kept for the traceback: for column `c` the
/// band `first_blocks[c] ..= last_blocks[c]` and, at `c · B + b`, block `b`'s words and
/// score.
pub struct AlignmentData {
    /// `P` words.
    pub ps: Vec<Option<Word>>,
    /// `M` words.
    pub ms: Vec<Option<Word>>,
    /// Block scores.
    pub scores: Vec<Option<isize>>,
    /// First block of each column's band.
    pub first_blocks: Vec<Option<usize>>,
    /// Last block of each column's band.
    pub last_blocks: Vec<Option<usize>>,
}

impl AlignmentData {
    /// Room for `max_num_blocks` blocks in each of `target_len` columns.
    pub open spec fn sized(&self, max_num_blocks: int, target_len: int) -> bool {
        &&& max_num_blocks * target_len <= usize::MAX
        &&& self.ps@.len() == max_num_blocks * target_len
        &&& self.ms@.len() == max_num_blocks * target_len
        &&& self.scores@.len() == max_num_blocks * target_len
        &&& self.first_blocks@.len() == target_len
        &&& self.last_blocks@.len() == target_len
    }

    /// Column `c` holds a band `f ..= l` of blocks and the words and score of each block
    /// in it, at `c · B + b`.
    pub open spec fn column_saved(&self, max_num_blocks: int, c: int) -> bool {
        &&& self.first_blocks@[c] is Some
        &&& self.last_blocks@[c] is Some
        &&& self.first_blocks@[c]->Some_0 <= self.last_blocks@[c]->Some_0 < max_num_blocks
        &&& forall|b: int|
            self.first_blocks@[c]->Some_0 <= b <= self.last_blocks@[c]->Some_0 ==> #[trigger] self.ps@[max_num_blocks * c + b] is Some
                && self.ms@[max_num_blocks * c + b] is Some && self.scores@[max_num_blocks * c + b] is Some
    }

    /// An empty table for `max_num_blocks` blocks in each of `target_len` columns.
    pub fn new(max_num_blocks: usize, target_len: usize) -> (r: Self)
        requires
            max_num_blocks * target_len <= usize::MAX,
        ensures
            r.sized(max_num_blocks as int, target_len as int),
            forall|i: int| 0 <= i < max_num_blocks * target_len ==> #[trigger] r.ps@[i] is None
                && r.ms@[i] is None && r.scores@[i] is None,
            forall|c: int| 0 <= c < target_len ==> #[trigger] r.first_blocks@[c] is None
                && r.last_blocks@[c] is None,
    {
        let cells = max_num_blocks * target_len;
        AlignmentData {
            ps: vec![None; cells],
            ms: vec![None; cells],
            scores: vec![None; cells],
            first_blocks: vec![None; target_len],
            last_blocks: vec![None; target_len],
        }
    }
}

/// Value of the DP cell at row `i`, column `j` as the table holds it, or `None` when the
/// cell lies outside that column's band.
fn trace_cell(
    data: &AlignmentData,
    max_num_blocks: usize,
    i: usize,
    j: usize,
    Ghost(m): Ghost<int>,
    Ghost(peq): Ghost<Seq<Word>>,
    Ghost(target): Ghost<Seq<usize>>,
) -> (r: Option<isize>)
    requires
        data.sized(max_num_blocks as int, m),
        j < m,
        max_num_blocks <= MAX_BLOCKS,
        table_column(*data, max_num_blocks as int, j as int, peq, target, K_LIMIT as int),
    ensures
        r matches Some(v) ==> v >= dp_cell(peq, max_num_blocks as int, target, false, i as int, j as int),
        i < 64 * max_num_blocks && dp_cell(peq, max_num_blocks as int, target, false, i as int, j as int) <= K_LIMIT
            ==> r == Some(dp_cell(peq, max_num_blocks as int, target, false, i as int, j as int) as isize),
{
    let ghost nb = max_num_blocks as int;
    let b = i / 64;
    let ghost r0 = (i % 64) as int;
    proof {
        assert(64 * b + r0 == i);
        if i < 64 * max_num_blocks && dp_cell(peq, nb, target, false, i as int, j as int) <= K_LIMIT {
            let f = data.first_blocks@[j as int]->Some_0;
            let l = data.last_blocks@[j as int]->Some_0;
            if !(64 * f <= i < 64 * (l + 1)) {
                assert(dp_cell(peq, nb, target, false, i as int, j as int) > K_LIMIT);
            }
        }
    }
    if b >= max_num_blocks {
        return None;
    }
    let band = (data.first_blocks[j], data.last_blocks[j]);
    match band {
        (Some(f), Some(l)) => {
            if b < f || b > l {
                return None;
            }
        },
        _ => {
            return None;
        },
    }
    proof {
        assert(max_num_blocks * j + b < max_num_blocks * m) by (nonlinear_arith)
            requires
                j < m,
                b < max_num_blocks,
        ;
        assert(data.ps@[nb * j + b] is Some);
    }
    let idx = max_num_blocks * j + b;
    let entry = (data.ps[idx], data.ms[idx], data.scores[idx]);
    match entry {
        (Some(p), Some(mm), Some(sc)) => {
            proof {
                assert(Block { p, m: mm, score: sc } == table_block(*data, nb, j as int, b as int));
                assert(-(K_LIMIT as int) <= table_block(*data, nb, j as int, b as int).score <= K_LIMIT);
            }
            if sc < -(K_LIMIT as isize) || sc > K_LIMIT as isize {
                return None;
            }
            let blk = Block { p, m: mm, score: sc };
            let vals = blk.get_cell_values();
            proof {
                assert(blk == table_block(*data, nb, j as int, b as int));
                assert(dp_ge(blk, b as int, peq, nb, target, false, j as int));
                assert(dp_exact(blk, b as int, peq, nb, target, false, j as int, K_LIMIT as int));
                assert(vals@[63 - r0] == blk.cell_spec((63 - r0) as nat));
                assert(row_value(blk, r0) == blk.cell_spec((63 - r0) as nat));
                assert(row_value(blk, r0) >= dp_cell(peq, nb, target, false, 64 * b + r0, j as int));
            }
            Some(vals[63 - i % 64])
        },
        _ => None,
    }
}

/// Value of the DP cell after `ii` query and `jj` target symbols: the borders are
/// `jj` and `ii`, the inside comes from the table.
fn path_cell(
    data: &AlignmentData,
    max_num_blocks: usize,
    ii: usize,
    jj: usize,
    Ghost(m): Ghost<int>,
    Ghost(peq): Ghost<Seq<Word>>,
    Ghost(target): Ghost<Seq<usize>>,
) -> (r: Option<isize>)
    requires
        data.sized(max_num_blocks as int, m),
        jj <= m,
        ii <= MAX_SEQUENCE_LEN,
        jj <= MAX_SEQUENCE_LEN,
        max_num_blocks <= MAX_BLOCKS,
        ii > 0 && jj > 0 ==> table_column(*data, max_num_blocks as int, jj - 1, peq, target, K_LIMIT as int),
    ensures
        r matches Some(v) ==> v >= dp_cell(peq, max_num_blocks as int, target, false, ii - 1, jj - 1),
        ii - 1 < 64 * max_num_blocks && dp_cell(peq, max_num_blocks as int, target, false, ii - 1, jj - 1) <= K_LIMIT
            ==> r == Some(dp_cell(peq, max_num_blocks as int, target, false, ii - 1, jj - 1) as isize),
{
    if ii == 0 {
        Some(jj as isize)
    } else if jj == 0 {
        Some(ii as isize)
    } else {
        trace_cell(data, max_num_blocks, ii - 1, jj - 1, Ghost(m), Ghost(peq), Ghost(target))
    }
}

/// Whether a step of cost `cost` leads from `from` to `to`.
fn step_fits(from: Option<isize>, cost: isize, to: Option<isize>) -> (r: bool)
    requires
        0 <= cost <= 1,
    ensures
        r <==> (from is Some && to is Some && from->Some_0 + cost == to->Some_0),
{
    match (from, to) {
        (Some(f), Some(t)) => if cost == 0 {
            f == t
        } else {
            f < t && f + 1 == t
        },
        _ => false,
    }
}

impl Alignment {
    /// Reconstructs an optimal global alignment of `query` against `target` and stores
    /// its edit operations in `alignment`. Fails with `NotRepresentable` when the trace
    /// table would not fit in memory's index range.
    pub fn obtain_optimal_path(
        &mut self,
        query: &[usize],
        target: &[usize],
        equality_def: &EqualityDefinition,
    ) -> (r: Result<(), AlignError>)
        requires
            equality_def.wf(),
            in_alphabet(query@, equality_def.alphabet_spec().len() as int),
            in_alphabet(target@, equality_def.alphabet_spec().len() as int),
            query@.len() <= MAX_SEQUENCE_LEN,
            target@.len() <= MAX_SEQUENCE_LEN,
        ensures
            r is Err ==> r == Err::<(), AlignError>(AlignError::NotRepresentable),
            r is Err <==> blocks_for(query@.len() as int) * target@.len() > usize::MAX,
            r is Ok ==> (final(self).alignment matches Some(ops) && is_transcript(
                ops@,
                query@,
                target@,
                |x: int, y: int| equality_def.equal_spec(x, y),
            ) && transcript_cost(ops@) == lev_cell(
                query@,
                target@,
                |x: int, y: int| equality_def.equal_spec(x, y),
                false,
                query@.len() - 1,
                target@.len() - 1,
            )),
            final(self).edit_distance == old(self).edit_distance,
            final(self).end_locations == old(self).end_locations,
            final(self).start_locations == old(self).start_locations,
            final(self).alphabet_length == old(self).alphabet_length,
    {
        let qlen = query.len();
        let m = target.len();
        let max_num_blocks = (qlen + 63) / 64;
        let cells = max_num_blocks.checked_mul(m);
        if cells.is_none() {
            return Err(AlignError::NotRepresentable);
        }
        let ghost nb = max_num_blocks as int;
        let ghost eqf = |x: int, y: int| equality_def.equal_spec(x, y);
        let a = equality_def.alphabet_len();
        let peq = build_peq_table(a, query, equality_def);
        let mut data = AlignmentData::new(max_num_blocks, m);
        let ghost lg = lev_cell(query@, target@, eqf, false, qlen - 1, m - 1);
        proof {
            lemma_lev_nonneg(query@, target@, eqf, qlen - 1, m - 1);
        }
        if qlen > 0 && m > 0 {
            let w = max_num_blocks * 64 - qlen;
            let mut scratch = Alignment {
                edit_distance: None,
                end_locations: None,
                start_locations: None,
                alignment: None,
                alphabet_length: 0,
            };
            let mut position: Option<usize> = None;
            let mut table: Option<AlignmentData> = Some(data);
            proof {
                assert forall|i: int| 0 <= i < target@.len() implies (#[trigger] target@[i] + 1)
                    * max_num_blocks <= peq@.len() by {
                    assert(target@[i] < a);
                    assert((target@[i] + 1) * max_num_blocks <= (a + 1) * max_num_blocks) by (nonlinear_arith)
                        requires
                            target@[i] < a,
                            0 <= max_num_blocks,
                    ;
                }
                crate::dp::lemma_dp_upper(peq@, nb, target@, qlen - 1, m - 1);
                crate::dp::lemma_dp_nonneg(peq@, nb, target@, false, qlen - 1, m - 1);
            }
            let res = scratch.calc_edit_dst_nw(
                peq.as_slice(),
                w,
                max_num_blocks,
                qlen,
                target,
                K_LIMIT,
                &mut position,
                &mut table,
                None,
            );
            proof {
                assert(res is Ok);
                assert(crate::dst::clamp_k(K_LIMIT) == K_LIMIT);
                assert(scratch.edit_distance is Some);
            }
            data = match table {
                Some(d) => d,
                None => AlignmentData::new(max_num_blocks, m),
            };
        }
        proof {
            if qlen > 0 && m > 0 {
                lemma_dp_is_lev(peq@, query@, *equality_def, eqf, target@, false, qlen - 1, m - 1);
                crate::dp::lemma_dp_upper(peq@, nb, target@, qlen - 1, m - 1);
            }
        }
        let mut ii: usize = qlen;
        let mut jj: usize = m;
        let mut rops: Vec<EditOp> = Vec::new();
        proof {
            assert(query@.subrange(qlen as int, qlen as int) =~= Seq::<usize>::empty());
            assert(target@.subrange(m as int, m as int) =~= Seq::<usize>::empty());
            assert(reversed(rops@) =~= Seq::<EditOp>::empty());
        }
        while ii > 0 || jj > 0
            invariant
                ii <= qlen == query@.len(),
                jj <= m == target@.len(),
                qlen <= MAX_SEQUENCE_LEN,
                m <= MAX_SEQUENCE_LEN,
                nb == max_num_blocks,
                max_num_blocks == blocks_for(qlen as int),
                max_num_blocks <= MAX_BLOCKS,
                data.sized(max_num_blocks as int, m as int),
                equality_def.wf(),
                a == equality_def.alphabet_spec().len(),
                in_alphabet(query@, equality_def.alphabet_spec().len() as int),
                in_alphabet(target@, equality_def.alphabet_spec().len() as int),
                is_profile(peq@, query@, *equality_def),
                eqf == (|x: int, y: int| equality_def.equal_spec(x, y)),
                lg == lev_cell(query@, target@, eqf, false, qlen - 1, m - 1),
                lg <= 2 * MAX_SEQUENCE_LEN + 2,
                qlen > 0 && m > 0 ==> forall|c: int| 0 <= c < m ==> #[trigger] table_column(data, nb, c, peq@, target@, K_LIMIT as int),
                is_transcript(
                    reversed(rops@),
                    query@.subrange(ii as int, qlen as int),
                    target@.subrange(jj as int, m as int),
                    eqf,
                ),
                transcript_cost(reversed(rops@)) >= 0,
                lev_cell(query@, target@, eqf, false, ii - 1, jj - 1) + transcript_cost(reversed(rops@)) == lg,
            decreases ii + jj,
        {
            let ghost before = reversed(rops@);
            let ghost qs = query@.subrange(ii as int, qlen as int);
            let ghost ts = target@.subrange(jj as int, m as int);
            let op = if ii > 0 && jj > 0 {
                let same = equality_def.index((query[ii - 1], target[jj - 1]));
                let cur = path_cell(&data, max_num_blocks, ii, jj, Ghost(m as int), Ghost(peq@), Ghost(target@));
                let diag = path_cell(&data, max_num_blocks, ii - 1, jj - 1, Ghost(m as int), Ghost(peq@), Ghost(target@));
                let up = path_cell(&data, max_num_blocks, ii - 1, jj, Ghost(m as int), Ghost(peq@), Ghost(target@));
                let left = path_cell(&data, max_num_blocks, ii, jj - 1, Ghost(m as int), Ghost(peq@), Ghost(target@));
                let cost: isize = if same { 0 } else { 1 };
                proof {
                    let i = ii - 1;
                    let j = jj - 1;
                    lemma_dp_is_lev(peq@, query@, *equality_def, eqf, target@, false, i, j);
                    lemma_dp_is_lev(peq@, query@, *equality_def, eqf, target@, false, i - 1, j - 1);
                    lemma_dp_is_lev(peq@, query@, *equality_def, eqf, target@, false, i - 1, j);
                    lemma_dp_is_lev(peq@, query@, *equality_def, eqf, target@, false, i, j - 1);
                    lemma_lev_nonneg(query@, target@, eqf, i - 1, j - 1);
                    lemma_lev_nonneg(query@, target@, eqf, i - 1, j);
                    lemma_lev_nonneg(query@, target@, eqf, i, j - 1);
                    assert(i < 64 * max_num_blocks);
                    assert(eqf(query@[i] as int, target@[j] as int) == same);
                }
                let diag_op = if same { EditOp::Match } else { EditOp::Mismatch };
                if step_fits(diag, cost, cur) {
                    diag_op
                } else if step_fits(up, 1, cur) {
                    EditOp::Insert
                } else if step_fits(left, 1, cur) {
                    EditOp::Delete
                } else {
                    diag_op
                }
            } else if ii > 0 {
                EditOp::Insert
            } else {
                EditOp::Delete
            };
            rops.push(op);
            proof {
                assert(reversed(rops@) =~= seq![op] + before);
                assert((seq![op] + before).drop_first() =~= before);
                assert(transcript_cost(reversed(rops@)) == (if op is Match { 0int } else { 1int }) + transcript_cost(before));
            }
            match op {
                EditOp::Match | EditOp::Mismatch => {
                    proof {
                        let q2 = query@.subrange(ii - 1, qlen as int);
                        let t2 = target@.subrange(jj - 1, m as int);
                        assert(q2.drop_first() =~= qs);
                        assert(t2.drop_first() =~= ts);
                        assert(q2[0] == query@[ii - 1]);
                        assert(t2[0] == target@[jj - 1]);
                    }
                    ii = ii - 1;
                    jj = jj - 1;
                },
                EditOp::Insert => {
                    proof {
                        let q2 = query@.subrange(ii - 1, qlen as int);
                        assert(q2.drop_first() =~= qs);
                    }
                    ii = ii - 1;
                },
                EditOp::Delete => {
                    proof {
                        let t2 = target@.subrange(jj - 1, m as int);
                        assert(t2.drop_first() =~= ts);
                    }
                    jj = jj - 1;
                },
            }
        }
        let mut ops: Vec<EditOp> = Vec::new();
        let len = rops.len();
        let mut x: usize = 0;
        while x < len
            invariant
                x <= len == rops@.len(),
                ops@ =~= reversed(rops@).take(x as int),
            decreases len - x,
        {
            ops.push(rops[len - 1 - x]);
            x = x + 1;
        }
        proof {
            assert(ops@ =~= reversed(rops@));
            assert(query@.subrange(0, qlen as int) =~= query@);
            assert(target@.subrange(0, m as int) =~= target@);
        }
        self.alignment = Some(ops);
        Ok(())
    }
}

/// `s` with each byte replaced by its position in `alphabet`.
pub open spec fn renamed(alphabet: Seq<u8>, s: Seq<u8>) -> Seq<usize> {
    Seq::new(s.len(), |i: int| alphabet.index_of(s[i]) as usize)
}

/// The equality of symbol indices over `alphabet`: the identity plus the added pairs.
pub open spec fn symbol_equal(alphabet: Seq<u8>, pairs: Seq<crate::equal::EqualityPair>) -> spec_fn(int, int) -> bool {
    |x: int, y: int| x == y || added_equal(alphabet, pairs, x, y) || added_equal(alphabet, pairs, y, x)
}

/// Cell `(i, j)` of the edit-distance matrix of `query` against `target` under the
/// symbol equality `eq`: the cost of aligning the query's first `i + 1` symbols with the
/// target's first `j + 1`. Row `-1` is `j + 1`, or 0 when the start of the target is free.
pub open spec fn lev_cell(query: Seq<usize>, target: Seq<usize>, eq: spec_fn(int, int) -> bool, free_start: bool, i: int, j: int) -> int
    decreases (i + 1) as nat + (j + 1) as nat,
{
    if i < 0 {
        if free_start { 0 } else { j + 1 }
    } else if j < 0 {
        i + 1
    } else {
        min3(
            lev_cell(query, target, eq, free_start, i - 1, j - 1) + (if eq(query[i] as int, target[j] as int) { 0int } else { 1int }),
            lev_cell(query, target, eq, free_start, i - 1, j) + 1,
            lev_cell(query, target, eq, free_start, i, j - 1) + 1,
        )
    }
}

/// The least cell of row `i` over columns `-1 ..= upto`.
pub open spec fn lev_row_min(query: Seq<usize>, target: Seq<usize>, eq: spec_fn(int, int) -> bool, free_start: bool, i: int, upto: int) -> int
    decreases (upto + 1) as nat,
{
    if upto <= -1 {
        lev_cell(query, target, eq, free_start, i, -1)
    } else {
        let r = lev_row_min(query, target, eq, free_start, i, upto - 1);
        let v = lev_cell(query, target, eq, free_start, i, upto);
        if v < r { v } else { r }
    }
}

/// The optimal edit distance of `query` against `target` in `mode`: whole against whole
/// (global), the query against a prefix of the target (prefix), or against any infix.
pub open spec fn mode_distance(mode: AlignMode, query: Seq<usize>, target: Seq<usize>, eq: spec_fn(int, int) -> bool) -> int {
    let qi = query.len() - 1;
    let tj = target.len() - 1;
    match mode {
        AlignMode::NW => lev_cell(query, target, eq, false, qi, tj),
        AlignMode::SHW => lev_row_min(query, target, eq, false, qi, tj),
        AlignMode::HW => lev_row_min(query, target, eq, true, qi, tj),
    }
}

proof fn lemma_lev_congruent(query: Seq<usize>, target: Seq<usize>, e1: spec_fn(int, int) -> bool, e2: spec_fn(int, int) -> bool, a: int, i: int, j: int)
    requires
        forall|x: int| 0 <= x < query.len() ==> #[trigger] query[x] < a,
        forall|x: int| 0 <= x < target.len() ==> #[trigger] target[x] < a,
        forall|x: int, y: int| 0 <= x < a && 0 <= y < a ==> #[trigger] e1(x, y) == e2(x, y),
        i < query.len(),
        j < target.len(),
    ensures
        lev_cell(query, target, e1, false, i, j) == lev_cell(query, target, e2, false, i, j),
    decreases (i + 1) as nat + (j + 1) as nat,
{
    if i >= 0 && j >= 0 {
        lemma_lev_congruent(query, target, e1, e2, a, i - 1, j - 1);
        lemma_lev_congruent(query, target, e1, e2, a, i - 1, j);
        lemma_lev_congruent(query, target, e1, e2, a, i, j - 1);
        assert(e1(query[i] as int, target[j] as int) == e2(query[i] as int, target[j] as int));
    }
}

proof fn lemma_lev_nonneg(query: Seq<usize>, target: Seq<usize>, eq: spec_fn(int, int) -> bool, i: int, j: int)
    requires
        i >= -1,
        j >= -1,
    ensures
        lev_cell(query, target, eq, false, i, j) >= 0,
    decreases (i + 1) as nat + (j + 1) as nat,
{
    if i >= 0 && j >= 0 {
        lemma_lev_nonneg(query, target, eq, i - 1, j - 1);
        lemma_lev_nonneg(query, target, eq, i - 1, j);
        lemma_lev_nonneg(query, target, eq, i, j - 1);
    }
}

proof fn lemma_dp_is_lev(peq: Seq<Word>, query: Seq<usize>, def: EqualityDefinition, eq: spec_fn(int, int) -> bool, target: Seq<usize>, free_start: bool, i: int, j: int)
    requires
        is_profile(peq, query, def),
        in_alphabet(query, def.alphabet_spec().len() as int),
        in_alphabet(target, def.alphabet_spec().len() as int),
        forall|x: int, y: int| 0 <= x < def.alphabet_spec().len() && 0 <= y < def.alphabet_spec().len() ==> #[trigger] eq(x, y) == def.equal_spec(x, y),
        i < query.len(),
        j < target.len(),
    ensures
        dp_cell(peq, blocks_for(query.len() as int), target, free_start, i, j) == lev_cell(query, target, eq, free_start, i, j),
    decreases (i + 1) as nat + (j + 1) as nat,
{
    let nb = blocks_for(query.len() as int);
    if i >= 0 && j >= 0 {
        lemma_dp_is_lev(peq, query, def, eq, target, free_start, i - 1, j - 1);
        lemma_dp_is_lev(peq, query, def, eq, target, free_start, i - 1, j);
        lemma_dp_is_lev(peq, query, def, eq, target, free_start, i, j - 1);
        let b = i / 64;
        let r = i % 64;
        vstd::arithmetic::div_mod::lemma_fundamental_div_mod(i, 64);
        assert(0 <= b < nb);
        assert(query[i] < def.alphabet_spec().len());
        assert(target[j] < def.alphabet_spec().len());
        assert(crate::block::bit(peq[target[j] * nb + b], r) == 1 <==> crate::peq::profile_bit(query, def, target[j] as int, 64 * b + r));
        assert(peq_cost(peq, nb, target, i, j) == (if eq(query[i] as int, target[j] as int) { 0int } else { 1int }));
    }
}

proof fn lemma_row_min_is_lev(peq: Seq<Word>, query: Seq<usize>, def: EqualityDefinition, eq: spec_fn(int, int) -> bool, target: Seq<usize>, free_start: bool, upto: int)
    requires
        is_profile(peq, query, def),
        in_alphabet(query, def.alphabet_spec().len() as int),
        in_alphabet(target, def.alphabet_spec().len() as int),
        forall|x: int, y: int| 0 <= x < def.alphabet_spec().len() && 0 <= y < def.alphabet_spec().len() ==> #[trigger] eq(x, y) == def.equal_spec(x, y),
        1 <= query.len(),
        upto < target.len(),
    ensures
        row_min(peq, blocks_for(query.len() as int), target, free_start, query.len() - 1, upto)
            == lev_row_min(query, target, eq, free_start, query.len() - 1, upto),
    decreases (upto + 1) as nat,
{
    lemma_dp_is_lev(peq, query, def, eq, target, free_start, query.len() - 1, upto);
    if upto > -1 {
        lemma_row_min_is_lev(peq, query, def, eq, target, free_start, upto - 1);
    } else {
        lemma_dp_is_lev(peq, query, def, eq, target, free_start, query.len() - 1, -1);
    }
}

/// The distance reported for optimum `g` under threshold `k`: `g` itself unless `k` is
/// given and below it.
pub open spec fn threshold_result(k: Option<usize>, g: int) -> Option<usize> {
    match k {
        Some(kv) => if g <= kv { Some(g as usize) } else { None },
        None => Some(g as usize),
    }
}

/// The end locations of a run with a distance: the last target position in the global
/// mode, `-1` on an empty query or target in the other modes, and otherwise ascending
/// positions within the target.
pub open spec fn ends_ok(mode: AlignMode, e: Seq<isize>, qlen: int, n: int) -> bool {
    &&& locations_ok(e, n)
    &&& (mode is NW ==> e == seq![(n - 1) as isize])
    &&& (!(mode is NW) && (qlen == 0 || n == 0) ==> e == seq![-1isize])
}

/// Start locations pair up with the end locations: each lies in `0 ..= end + 1`, and
/// outside the infix mode it is 0.
pub open spec fn starts_ok(s: Seq<isize>, e: Seq<isize>, infix: bool) -> bool {
    &&& s.len() == e.len()
    &&& forall|i: int| 0 <= i < s.len() ==> 0 <= #[trigger] s[i] <= e[i] + 1 && (!infix ==> s[i] == 0)
}

/// The end positions of a prefix or infix alignment are exactly the target positions
/// where the query's last row reaches the optimum `g` (position `-1` may be left out).
pub open spec fn lev_ends_exact(e: Seq<isize>, g: int, query: Seq<usize>, target: Seq<usize>, eq: spec_fn(int, int) -> bool, free_start: bool) -> bool {
    &&& forall|x: int| 0 <= x < e.len() ==> #[trigger] lev_cell(query, target, eq, free_start, query.len() - 1, e[x] as int) == g
    &&& forall|p: int|
        0 <= p < target.len() && #[trigger] lev_cell(query, target, eq, free_start, query.len() - 1, p) == g ==> e.contains(p as isize)
}

/// What `run` returns on the bytes `q` and `t`.
pub open spec fn run_result(config: AlignConfig, q: Seq<u8>, t: Seq<u8>, a: Alignment) -> bool {
    let alpha = distinct_in_order(q + t);
    let n = t.len() as int;
    let eq = symbol_equal(alpha, config.added_equalities@);
    &&& a.alphabet_length == alpha.len()
    &&& a.edit_distance == threshold_result(
        config.k,
        mode_distance(config.mode, renamed(alpha, q), renamed(alpha, t), eq),
    )
    &&& (a.edit_distance is Some <==> a.end_locations is Some)
    &&& (a.end_locations matches Some(e) ==> ends_ok(config.mode, e@, q.len() as int, n))
    &&& (!(config.mode is NW) && q.len() > 0 && t.len() > 0 ==> (a.end_locations matches Some(e) ==> lev_ends_exact(
        e@,
        mode_distance(config.mode, renamed(alpha, q), renamed(alpha, t), eq),
        renamed(alpha, q),
        renamed(alpha, t),
        eq,
        config.mode is HW,
    )))
    &&& (a.start_locations is Some <==> (a.edit_distance is Some && !(config.task is Distance)))
    &&& (a.start_locations matches Some(s) ==> (a.end_locations matches Some(e) && starts_ok(
        s@,
        e@,
        config.mode is HW,
    )))
    &&& (a.alignment is Some <==> (a.edit_distance is Some && config.task is Path))
    &&& (a.alignment matches Some(ops) ==> (a.start_locations matches Some(s) && (
    a.end_locations matches Some(e) && is_transcript(
        ops@,
        renamed(alpha, q),
        renamed(alpha, t).subrange(s@[0] as int, e@[0] + 1),
        eq,
    ) && transcript_cost(ops@) == lev_cell(
        renamed(alpha, q),
        renamed(alpha, t).subrange(s@[0] as int, e@[0] + 1),
        eq,
        false,
        q.len() - 1,
        e@[0] - s@[0],
    ))))
}

proof fn lemma_lev_top_min(query: Seq<usize>, target: Seq<usize>, eq: spec_fn(int, int) -> bool, free_start: bool, upto: int)
    requires
        upto >= -1,
    ensures
        lev_row_min(query, target, eq, free_start, -1, upto) == 0,
    decreases upto + 1,
{
    if upto > -1 {
        lemma_lev_top_min(query, target, eq, free_start, upto - 1);
    }
}

/// On an empty query or target the optimum is the length of the other sequence
/// (global), or the query's length (prefix and infix).
proof fn lemma_empty_mode_distance(mode: AlignMode, query: Seq<usize>, target: Seq<usize>, eq: spec_fn(int, int) -> bool)
    requires
        query.len() == 0 || target.len() == 0,
    ensures
        mode_distance(mode, query, target, eq) == (match mode {
            AlignMode::NW => if query.len() > target.len() { query.len() as int } else { target.len() as int },
            _ => query.len() as int,
        }),
{
    if query.len() == 0 {
        lemma_lev_top_min(query, target, eq, false, target.len() - 1);
        lemma_lev_top_min(query, target, eq, true, target.len() - 1);
    }
}

/// The alphabet size a run reports is the number of distinct bytes in query and target
/// together.
pub proof fn lemma_alphabet_length(config: AlignConfig, q: Seq<u8>, t: Seq<u8>, a: Alignment)
    requires
        run_result(config, q, t, a),
    ensures
        a.alphabet_length == (q + t).to_set().len(),
{
    lemma_distinct_in_order(q + t);
    distinct_in_order(q + t).unique_seq_to_set();
}

/// A fixed threshold under which a solution is found gives the same distance as the
/// doubling search.
pub proof fn lemma_fixed_k_matches_dynamic(
    fixed: AlignConfig,
    dynamic: AlignConfig,
    q: Seq<u8>,
    t: Seq<u8>,
    a_fixed: Alignment,
    a_dynamic: Alignment,
)
    requires
        run_result(fixed, q, t, a_fixed),
        run_result(dynamic, q, t, a_dynamic),
        fixed.k is Some,
        dynamic.k is None,
        fixed.mode == dynamic.mode,
        fixed.added_equalities@ == dynamic.added_equalities@,
        a_fixed.edit_distance is Some,
    ensures
        a_fixed.edit_distance == a_dynamic.edit_distance,
        a_fixed.end_locations is Some && a_dynamic.end_locations is Some,
        fixed.mode is NW ==> a_fixed.end_locations->Some_0@ == a_dynamic.end_locations->Some_0@,
        (fixed.task is Distance) == (dynamic.task is Distance) ==> (a_fixed.start_locations is Some
            <==> a_dynamic.start_locations is Some),
{
}

proof fn lemma_lev_diag_zero(s: Seq<usize>, eq: spec_fn(int, int) -> bool, i: int)
    requires
        -1 <= i < s.len(),
        forall|x: int| #[trigger] eq(x, x),
    ensures
        lev_cell(s, s, eq, false, i, i) == 0,
    decreases i + 1,
{
    if i >= 0 {
        lemma_lev_diag_zero(s, eq, i - 1);
        lemma_lev_nonneg(s, s, eq, i - 1, i);
        lemma_lev_nonneg(s, s, eq, i, i - 1);
        assert(eq(s[i] as int, s[i] as int));
    }
}

proof fn lemma_cost_zero_all_match(ops: Seq<EditOp>, q: Seq<usize>, t: Seq<usize>, eq: spec_fn(int, int) -> bool)
    requires
        is_transcript(ops, q, t, eq),
        transcript_cost(ops) == 0,
    ensures
        ops.len() == q.len(),
        forall|x: int| 0 <= x < ops.len() ==> #[trigger] ops[x] == EditOp::Match,
    decreases ops.len(),
{
    if ops.len() > 0 {
        lemma_cost_nonneg(ops.drop_first());
        lemma_cost_zero_all_match(ops.drop_first(), q.drop_first(), t.drop_first(), eq);
        assert forall|x: int| 0 <= x < ops.len() implies #[trigger] ops[x] == EditOp::Match by {
            if x > 0 {
                assert(ops[x] == ops.drop_first()[x - 1]);
            }
        }
    }
}

proof fn lemma_cost_nonneg(ops: Seq<EditOp>)
    ensures
        transcript_cost(ops) >= 0,
    decreases ops.len(),
{
    if ops.len() > 0 {
        lemma_cost_nonneg(ops.drop_first());
    }
}

/// Identity: a non-empty sequence aligned globally against itself has distance 0, ends
/// at its last position, and its path is all matches.
pub proof fn lemma_identity(config: AlignConfig, q: Seq<u8>, a: Alignment)
    requires
        run_result(config, q, q, a),
        config.mode is NW,
        0 < q.len() <= isize::MAX,
    ensures
        a.edit_distance == Some(0usize),
        a.end_locations matches Some(e) && e@ == seq![(q.len() - 1) as isize],
        a.alignment matches Some(ops) ==> ops@.len() == q.len() && forall|x: int| 0 <= x < ops@.len() ==> #[trigger] ops@[x] == EditOp::Match,
{
    let alpha = distinct_in_order(q + q);
    let rq = renamed(alpha, q);
    let eq = symbol_equal(alpha, config.added_equalities@);
    assert forall|x: int| #[trigger] eq(x, x) by {}
    lemma_lev_diag_zero(rq, eq, q.len() - 1);
    if a.alignment is Some {
        let ops = a.alignment->Some_0@;
        let s = a.start_locations->Some_0@;
        let e = a.end_locations->Some_0@;
        assert(s[0] == 0);
        assert(e[0] == (q.len() - 1) as isize);
        assert(e[0] + 1 == q.len());
        assert(rq.subrange(0, q.len() as int) =~= rq);
        assert(rq.subrange(s[0] as int, e[0] + 1) == rq);
        lemma_cost_zero_all_match(ops, rq, rq, eq);
    }
}

/// Bytes `x` and `y` are equal, or declared equal by one of the pairs in either order.
pub open spec fn pair_equal(pairs: Seq<crate::equal::EqualityPair>, x: u8, y: u8) -> bool {
    x == y || exists|i: int|
        0 <= i < pairs.len() && ((byte_is_char(x, (#[trigger] pairs[i]).first) && byte_is_char(y, pairs[i].second)) || (
        byte_is_char(x, pairs[i].second) && byte_is_char(y, pairs[i].first)))
}

/// The edit-distance matrix on bytes under `pair_equal`, rows and columns from `-1`.
pub open spec fn byte_lev(q: Seq<u8>, t: Seq<u8>, pairs: Seq<crate::equal::EqualityPair>, i: int, j: int) -> int
    decreases (i + 1) as nat + (j + 1) as nat,
{
    if i < 0 {
        j + 1
    } else if j < 0 {
        i + 1
    } else {
        min3(
            byte_lev(q, t, pairs, i - 1, j - 1) + (if pair_equal(pairs, q[i], t[j]) { 0int } else { 1int }),
            byte_lev(q, t, pairs, i - 1, j) + 1,
            byte_lev(q, t, pairs, i, j - 1) + 1,
        )
    }
}

proof fn lemma_finds_iff(alphabet: Seq<u8>, c: char, x: int)
    requires
        alphabet.no_duplicates(),
        0 <= x < alphabet.len(),
    ensures
        finds(alphabet, c, x) <==> byte_is_char(alphabet[x], c),
{
    if byte_is_char(alphabet[x], c) {
        assert forall|z: int| 0 <= z < x implies !byte_is_char(#[trigger] alphabet[z], c) by {
            if byte_is_char(alphabet[z], c) {
                assert(alphabet[z] as u32 == alphabet[x] as u32);
                assert(alphabet[z] == alphabet[x]);
            }
        }
    }
}

proof fn lemma_renamed_equal(alpha: Seq<u8>, pairs: Seq<crate::equal::EqualityPair>, x: u8, y: u8)
    requires
        alpha.no_duplicates(),
        alpha.contains(x),
        alpha.contains(y),
    ensures
        symbol_equal(alpha, pairs)(alpha.index_of(x), alpha.index_of(y)) == pair_equal(pairs, x, y),
{
    let ix = alpha.index_of(x);
    let iy = alpha.index_of(y);
    assert(0 <= ix < alpha.len() && alpha[ix] == x);
    assert(0 <= iy < alpha.len() && alpha[iy] == y);
    if x == y {
        assert(ix == iy);
    }
    if ix == iy {
        assert(x == y);
    }
    assert forall|i: int| 0 <= i < pairs.len() implies (finds(alpha, (#[trigger] pairs[i]).first, ix) == byte_is_char(x, pairs[i].first))
        && finds(alpha, pairs[i].second, iy) == byte_is_char(y, pairs[i].second)
        && finds(alpha, pairs[i].first, iy) == byte_is_char(y, pairs[i].first)
        && finds(alpha, pairs[i].second, ix) == byte_is_char(x, pairs[i].second) by {
        lemma_finds_iff(alpha, pairs[i].first, ix);
        lemma_finds_iff(alpha, pairs[i].second, iy);
        lemma_finds_iff(alpha, pairs[i].first, iy);
        lemma_finds_iff(alpha, pairs[i].second, ix);
    }
    if pair_equal(pairs, x, y) && x != y {
        let i = choose|i: int|
            0 <= i < pairs.len() && ((byte_is_char(x, (#[trigger] pairs[i]).first) && byte_is_char(y, pairs[i].second)) || (
            byte_is_char(x, pairs[i].second) && byte_is_char(y, pairs[i].first)));
        assert(pairs[i] == pairs[i]);
    }
    if added_equal(alpha, pairs, ix, iy) {
        let i = choose|i: int| 0 <= i < pairs.len() && finds(alpha, (#[trigger] pairs[i]).first, ix) && finds(alpha, pairs[i].second, iy);
        assert(pairs[i] == pairs[i]);
    }
    if added_equal(alpha, pairs, iy, ix) {
        let i = choose|i: int| 0 <= i < pairs.len() && finds(alpha, (#[trigger] pairs[i]).first, iy) && finds(alpha, pairs[i].second, ix);
        assert(pairs[i] == pairs[i]);
    }
}

proof fn lemma_lev_is_byte_lev(alpha: Seq<u8>, pairs: Seq<crate::equal::EqualityPair>, q: Seq<u8>, t: Seq<u8>, i: int, j: int)
    requires
        alpha.no_duplicates(),
        alpha.len() <= 256,
        forall|x: int| 0 <= x < q.len() ==> alpha.contains(#[trigger] q[x]),
        forall|x: int| 0 <= x < t.len() ==> alpha.contains(#[trigger] t[x]),
        i < q.len(),
        j < t.len(),
    ensures
        lev_cell(renamed(alpha, q), renamed(alpha, t), symbol_equal(alpha, pairs), false, i, j) == byte_lev(q, t, pairs, i, j),
    decreases (i + 1) as nat + (j + 1) as nat,
{
    if i >= 0 && j >= 0 {
        lemma_lev_is_byte_lev(alpha, pairs, q, t, i - 1, j - 1);
        lemma_lev_is_byte_lev(alpha, pairs, q, t, i - 1, j);
        lemma_lev_is_byte_lev(alpha, pairs, q, t, i, j - 1);
        lemma_renamed_equal(alpha, pairs, q[i], t[j]);
        let ix = alpha.index_of(q[i]);
        let iy = alpha.index_of(t[j]);
        assert(0 <= ix < alpha.len());
        assert(0 <= iy < alpha.len());
        assert(renamed(alpha, q)[i] as int == ix);
        assert(renamed(alpha, t)[j] as int == iy);
    }
}

proof fn lemma_byte_lev_symmetric(q: Seq<u8>, t: Seq<u8>, pairs: Seq<crate::equal::EqualityPair>, i: int, j: int)
    requires
        i >= -1,
        j >= -1,
    ensures
        byte_lev(q, t, pairs, i, j) == byte_lev(t, q, pairs, j, i),
    decreases (i + 1) as nat + (j + 1) as nat,
{
    if i >= 0 && j >= 0 {
        lemma_byte_lev_symmetric(q, t, pairs, i - 1, j - 1);
        lemma_byte_lev_symmetric(q, t, pairs, i - 1, j);
        lemma_byte_lev_symmetric(q, t, pairs, i, j - 1);
        if pair_equal(pairs, q[i], t[j]) && q[i] != t[j] {
            let k = choose|k: int|
                0 <= k < pairs.len() && ((byte_is_char(q[i], (#[trigger] pairs[k]).first) && byte_is_char(t[j], pairs[k].second)) || (
                byte_is_char(q[i], pairs[k].second) && byte_is_char(t[j], pairs[k].first)));
            assert(pairs[k] == pairs[k]);
        }
        if pair_equal(pairs, t[j], q[i]) && q[i] != t[j] {
            let k = choose|k: int|
                0 <= k < pairs.len() && ((byte_is_char(t[j], (#[trigger] pairs[k]).first) && byte_is_char(q[i], pairs[k].second)) || (
                byte_is_char(t[j], pairs[k].second) && byte_is_char(q[i], pairs[k].first)));
            assert(pairs[k] == pairs[k]);
        }
    }
}

/// The global optimum of a run is the byte-level edit distance under the configured pairs.
proof fn lemma_run_global_distance(q: Seq<u8>, t: Seq<u8>, pairs: Seq<crate::equal::EqualityPair>)
    ensures
        mode_distance(
            AlignMode::NW,
            renamed(distinct_in_order(q + t), q),
            renamed(distinct_in_order(q + t), t),
            symbol_equal(distinct_in_order(q + t), pairs),
        ) == byte_lev(q, t, pairs, q.len() - 1, t.len() - 1),
{
    let alpha = distinct_in_order(q + t);
    lemma_distinct_in_order(q + t);
    assert forall|x: int| 0 <= x < q.len() implies alpha.contains(#[trigger] q[x]) by {
        assert((q + t)[x] == q[x]);
        assert((q + t).to_set().contains(q[x]));
    }
    assert forall|x: int| 0 <= x < t.len() implies alpha.contains(#[trigger] t[x]) by {
        assert((q + t)[q.len() + x] == t[x]);
        assert((q + t).to_set().contains(t[x]));
    }
    crate::alphabet::lemma_distinct_bytes_len(alpha);
    lemma_lev_is_byte_lev(alpha, pairs, q, t, q.len() - 1, t.len() - 1);
}

/// Symmetry: in the global mode the distance of `q` against `t` is that of `t` against `q`.
pub proof fn lemma_symmetry(c1: AlignConfig, c2: AlignConfig, q: Seq<u8>, t: Seq<u8>, a1: Alignment, a2: Alignment)
    requires
        run_result(c1, q, t, a1),
        run_result(c2, t, q, a2),
        c1.mode is NW,
        c2.mode is NW,
        c1.k == c2.k,
        c1.added_equalities@ == c2.added_equalities@,
    ensures
        a1.edit_distance == a2.edit_distance,
{
    lemma_run_global_distance(q, t, c1.added_equalities@);
    lemma_run_global_distance(t, q, c1.added_equalities@);
    lemma_byte_lev_symmetric(q, t, c1.added_equalities@, q.len() - 1, t.len() - 1);
}

proof fn lemma_renamed(alphabet: Seq<u8>, s: Seq<u8>, out: Seq<usize>)
    requires
        alphabet.no_duplicates(),
        renames(alphabet, s, out),
    ensures
        out == renamed(alphabet, s),
{
    assert forall|i: int| 0 <= i < s.len() implies out[i] == #[trigger] renamed(alphabet, s)[i] by {
        let j = alphabet.index_of(s[i]);
        assert(alphabet[out[i] as int] == s[i]);
        assert(0 <= j < alphabet.len() && alphabet[j] == s[i]);
    }
    assert(out =~= renamed(alphabet, s));
}

proof fn lemma_profile_covers(peq: Seq<Word>, query: Seq<usize>, def: EqualityDefinition, target: Seq<usize>)
    requires
        is_profile(peq, query, def),
        in_alphabet(target, def.alphabet_spec().len() as int),
    ensures
        forall|i: int| 0 <= i < target.len() ==> (#[trigger] target[i] + 1) * blocks_for(query.len() as int) <= peq.len(),
{
    let a = def.alphabet_spec().len() as int;
    let nb = blocks_for(query.len() as int);
    assert forall|i: int| 0 <= i < target.len() implies (#[trigger] target[i] + 1) * nb <= peq.len() by {
        assert(target[i] < a);
        assert((target[i] + 1) * nb <= (a + 1) * nb) by (nonlinear_arith)
            requires
                target[i] < a,
                0 <= nb,
        ;
    }
}

proof fn lemma_profile_wild(peq: Seq<Word>, query: Seq<usize>, def: EqualityDefinition, target: Seq<usize>)
    requires
        is_profile(peq, query, def),
        in_alphabet(target, def.alphabet_spec().len() as int),
    ensures
        padded_wild(peq, blocks_for(query.len() as int), query.len() as int, target),
{
    let nb = blocks_for(query.len() as int);
    let a = def.alphabet_spec().len() as int;
    assert forall|r: int, j: int| query.len() <= r < 64 * nb && 0 <= j < target.len() implies #[trigger] peq_cost(peq, nb, target, r, j) == 0 by {
        let b = r / 64;
        let i = r % 64;
        vstd::arithmetic::div_mod::lemma_fundamental_div_mod(r, 64);
        assert(0 <= i < 64);
        assert(0 <= b < nb);
        assert(64 * b + i == r);
        assert(target[j] < a);
        assert(crate::block::bit(peq[target[j] * nb + b], i) == 1 <==> crate::peq::profile_bit(query, def, target[j] as int, 64 * b + i));
    }
}

/// `s` back to front.
fn reverse_of(s: &[usize]) -> (r: Vec<usize>)
    ensures
        r@ == reversed(s@),
{
    let mut r: Vec<usize> = Vec::new();
    let len = s.len();
    let mut i: usize = 0;
    while i < len
        invariant
            i <= len == s@.len(),
            r@ =~= reversed(s@).take(i as int),
        decreases len - i,
    {
        r.push(s[len - 1 - i]);
        i = i + 1;
    }
    assert(r@ =~= reversed(s@));
    r
}

/// The matrix value a sweep in `mode` never reports less than.
pub open spec fn sweep_bound(mode: AlignMode, peq: Seq<Word>, nb: int, query_len: int, target: Seq<usize>) -> int {
    match mode {
        AlignMode::NW => dp_cell(peq, nb, target, false, query_len - 1, target.len() - 1),
        AlignMode::SHW => row_min(peq, nb, target, false, query_len - 1, target.len() - 1),
        AlignMode::HW => row_min(peq, nb, target, true, query_len - 1, target.len() - 1),
    }
}

/// One DP sweep in the configured mode.
fn sweep(
    alignment: &mut Alignment,
    mode: &AlignMode,
    peq: &[Word],
    w: usize,
    max_num_blocks: usize,
    query_len: usize,
    target: &[usize],
    k: usize,
)
    requires
        dp_input(peq@, w as int, max_num_blocks as int, query_len as int, target@),
        padded_wild(peq@, max_num_blocks as int, query_len as int, target@),
        target@.len() >= 1,
    ensures
        final(alignment).start_locations == old(alignment).start_locations,
        final(alignment).alignment == old(alignment).alignment,
        final(alignment).alphabet_length == old(alignment).alphabet_length,
        final(alignment).edit_distance matches Some(d) ==> d <= k,
        *mode is NW ==> final(alignment).end_locations == old(alignment).end_locations,
        !(*mode is NW) ==> (final(alignment).edit_distance is Some <==> final(alignment).end_locations is Some),
        !(*mode is NW) ==> (final(alignment).end_locations matches Some(e) ==> locations_ok(e@, target@.len() as int)),
        final(alignment).edit_distance matches Some(d) ==> sweep_bound(*mode, peq@, max_num_blocks as int, query_len as int, target@) <= d,
        sweep_bound(*mode, peq@, max_num_blocks as int, query_len as int, target@) <= k
            ==> final(alignment).edit_distance == Some(sweep_bound(*mode, peq@, max_num_blocks as int, query_len as int, target@) as usize),
        !(*mode is NW) && final(alignment).edit_distance is Some ==> (final(alignment).end_locations matches Some(e) && ends_exact(
            e@,
            sweep_bound(*mode, peq@, max_num_blocks as int, query_len as int, target@),
            peq@,
            max_num_blocks as int,
            target@,
            *mode is HW,
            query_len as int,
        )),
{
    match mode {
        AlignMode::NW => {
            proof {
                crate::dp::lemma_dp_nonneg(peq@, max_num_blocks as int, target@, false, query_len - 1, target@.len() - 1);
            }
            let mut position: Option<usize> = None;
            let mut table: Option<AlignmentData> = None;
            let _ = alignment.calc_edit_dst_nw(
                peq,
                w,
                max_num_blocks,
                query_len,
                target,
                k,
                &mut position,
                &mut table,
                None,
            );
        },
        _ => {
            alignment.calc_edit_dst_semi_global(peq, w, max_num_blocks, query_len, target, k, mode);
        },
    }
}

/// Start locations of infix alignments: for each end `e`, a prefix sweep of the reversed
/// query over the target read backwards from `e`; its last end gives the start.
fn infix_starts(
    ends: &Vec<isize>,
    rev_peq: &[Word],
    w: usize,
    max_num_blocks: usize,
    query_len: usize,
    rev_target: &[usize],
    distance: usize,
) -> (starts: Vec<isize>)
    requires
        dp_input(rev_peq@, w as int, max_num_blocks as int, query_len as int, rev_target@),
        padded_wild(rev_peq@, max_num_blocks as int, query_len as int, rev_target@),
        locations_ok(ends@, rev_target@.len() as int),
    ensures
        starts@.len() == ends@.len(),
        forall|i: int| 0 <= i < starts@.len() ==> 0 <= #[trigger] starts@[i] <= ends@[i] + 1,
{
    let n = rev_target.len();
    let mut starts: Vec<isize> = Vec::new();
    let mut i: usize = 0;
    while i < ends.len()
        invariant
            dp_input(rev_peq@, w as int, max_num_blocks as int, query_len as int, rev_target@),
            padded_wild(rev_peq@, max_num_blocks as int, query_len as int, rev_target@),
            locations_ok(ends@, n as int),
            n == rev_target@.len(),
            i <= ends@.len(),
            starts@.len() == i,
            forall|j: int| 0 <= j < i ==> 0 <= #[trigger] starts@[j] <= ends@[j] + 1,
        decreases ends@.len() - i,
    {
        let e = ends[i];
        assert(-1 <= ends@[i as int] <= n - 1);
        if e < 0 {
            starts.push(0);
        } else {
            let eu = e as usize;
            let sub = vstd::slice::slice_subrange(rev_target, n - 1 - eu, n);
            proof {
                assert forall|j: int| 0 <= j < sub@.len() implies (#[trigger] sub@[j] + 1) * max_num_blocks <= rev_peq@.len() by {
                    assert(sub@[j] == rev_target@[n - 1 - eu + j]);
                }
                assert forall|r: int, j: int| query_len <= r < 64 * max_num_blocks && 0 <= j < sub@.len() implies #[trigger] peq_cost(rev_peq@, max_num_blocks as int, sub@, r, j) == 0 by {
                    assert(sub@[j] == rev_target@[n - 1 - eu + j]);
                    assert(peq_cost(rev_peq@, max_num_blocks as int, rev_target@, r, n - 1 - eu + j) == 0);
                }
            }
            let mut rev = Alignment {
                edit_distance: None,
                end_locations: None,
                start_locations: None,
                alignment: None,
                alphabet_length: 0,
            };
            rev.calc_edit_dst_semi_global(rev_peq, w, max_num_blocks, query_len, sub, distance, &AlignMode::SHW);
            let start: isize = match &rev.end_locations {
                Some(ps) => {
                    let last = ps[ps.len() - 1];
                    e - last
                },
                None => 0,
            };
            starts.push(start);
        }
        i = i + 1;
    }
    starts
}

/// The distance search on a non-empty query and target: one sweep at the given `k`, or
/// sweeps at doubling thresholds from 64 when `k` is unset.
#[verifier::loop_isolation(false)]
fn search_distance(
    alignment: &mut Alignment,
    config: &AlignConfig,
    tq: &Vec<usize>,
    tt: &Vec<usize>,
    eq_def: &EqualityDefinition,
    Ghost(eqf): Ghost<spec_fn(int, int) -> bool>,
)
    requires
        1 <= tq@.len() <= MAX_SEQUENCE_LEN,
        1 <= tt@.len() <= MAX_SEQUENCE_LEN,
        eq_def.wf(),
        in_alphabet(tq@, eq_def.alphabet_spec().len() as int),
        in_alphabet(tt@, eq_def.alphabet_spec().len() as int),
        forall|x: int, y: int|
            0 <= x < eq_def.alphabet_spec().len() && 0 <= y < eq_def.alphabet_spec().len() ==> #[trigger] eqf(x, y)
                == eq_def.equal_spec(x, y),
        old(alignment).edit_distance is None,
        old(alignment).end_locations is None,
        old(alignment).start_locations is None,
        old(alignment).alignment is None,
    ensures
        final(alignment).alphabet_length == old(alignment).alphabet_length,
        final(alignment).start_locations is None,
        final(alignment).alignment is None,
        final(alignment).edit_distance == threshold_result(config.k, mode_distance(config.mode, tq@, tt@, eqf)),
        final(alignment).edit_distance is Some <==> final(alignment).end_locations is Some,
        final(alignment).end_locations matches Some(e) ==> ends_ok(config.mode, e@, tq@.len() as int, tt@.len() as int),
        !(config.mode is NW) ==> (final(alignment).end_locations matches Some(e) ==> lev_ends_exact(
            e@,
            mode_distance(config.mode, tq@, tt@, eqf),
            tq@,
            tt@,
            eqf,
            config.mode is HW,
        )),
{
    let qlen = tq.len();
    let n = tt.len();
    let max_num_blocks = (qlen + 63) / 64;
    let w = max_num_blocks * 64 - qlen;
    let a = eq_def.alphabet_len();
    let peq = build_peq_table(a, tq.as_slice(), eq_def);
    proof {
        lemma_profile_covers(peq@, tq@, *eq_def, tt@);
        lemma_profile_wild(peq@, tq@, *eq_def, tt@);
    }
    let ghost gb = sweep_bound(config.mode, peq@, max_num_blocks as int, qlen as int, tt@);
    proof {
        crate::dp::lemma_row_min_le(peq@, max_num_blocks as int, tt@, false, qlen - 1, n - 1, -1);
        crate::dp::lemma_row_min_le(peq@, max_num_blocks as int, tt@, true, qlen - 1, n - 1, -1);
        crate::dp::lemma_dp_nonneg(peq@, max_num_blocks as int, tt@, false, qlen - 1, n - 1);
        crate::dp::lemma_dp_upper(peq@, max_num_blocks as int, tt@, qlen - 1, n - 1);
        crate::dp::lemma_dp_nonneg(peq@, max_num_blocks as int, tt@, false, qlen - 1, -1);
        crate::dp::lemma_dp_nonneg(peq@, max_num_blocks as int, tt@, true, qlen - 1, -1);
        if !(config.mode is NW) {
            crate::dp::lemma_row_min_at_column(peq@, max_num_blocks as int, tt@, config.mode is HW, qlen - 1, n - 1);
            let j = choose|j: int| 0 <= j <= n - 1 && #[trigger] dp_cell(peq@, max_num_blocks as int, tt@, config.mode is HW, qlen - 1, j) == gb;
            crate::dp::lemma_dp_nonneg(peq@, max_num_blocks as int, tt@, config.mode is HW, qlen - 1, j);
        }
        assert(0 <= gb <= 2 * MAX_SEQUENCE_LEN + 2);
        lemma_dp_is_lev(peq@, tq@, *eq_def, eqf, tt@, false, qlen - 1, n - 1);
        lemma_row_min_is_lev(peq@, tq@, *eq_def, eqf, tt@, false, n - 1);
        lemma_row_min_is_lev(peq@, tq@, *eq_def, eqf, tt@, true, n - 1);
        assert(mode_distance(config.mode, tq@, tt@, eqf) == gb);
    }
    let dynamic = config.k.is_none();
    let mut k: usize = match config.k {
        Some(v) => v,
        None => 64,
    };
    sweep(alignment, &config.mode, peq.as_slice(), w, max_num_blocks, qlen, tt.as_slice(), k);
    while dynamic && alignment.edit_distance.is_none() && k <= K_LIMIT
        invariant
            dynamic <==> config.k is None,
            dynamic ==> 64 <= k <= 2 * K_LIMIT,
            alignment.start_locations is None,
            alignment.alignment is None,
            alignment.alphabet_length == old(alignment).alphabet_length,
            config.mode is NW ==> alignment.end_locations is None,
            !(config.mode is NW) ==> (alignment.edit_distance is Some <==> alignment.end_locations is Some),
            !(config.mode is NW) ==> (alignment.end_locations matches Some(e) ==> locations_ok(e@, n as int)),
            alignment.edit_distance == (if gb <= k { Some(gb as usize) } else { None::<usize> }),
            !(config.mode is NW) && alignment.edit_distance is Some ==> (alignment.end_locations matches Some(e) && ends_exact(
                e@,
                gb,
                peq@,
                max_num_blocks as int,
                tt@,
                config.mode is HW,
                qlen as int,
            )),
            config.k matches Some(kv) ==> k == kv,
        decreases 2 * K_LIMIT - k,
    {
        k = k * 2;
        sweep(alignment, &config.mode, peq.as_slice(), w, max_num_blocks, qlen, tt.as_slice(), k);
    }
    let is_nw = match config.mode {
        AlignMode::NW => true,
        _ => false,
    };
    if is_nw && alignment.edit_distance.is_some() {
        let mut ends: Vec<isize> = Vec::new();
        ends.push(n as isize - 1);
        alignment.end_locations = Some(ends);
    }
    proof {
        if !(config.mode is NW) && alignment.edit_distance is Some {
            let free = config.mode is HW;
            let e = alignment.end_locations->Some_0@;
            assert forall|p: int| -1 <= p < n implies #[trigger] dp_cell(peq@, max_num_blocks as int, tt@, free, qlen - 1, p)
                == lev_cell(tq@, tt@, eqf, free, qlen - 1, p) by {
                lemma_dp_is_lev(peq@, tq@, *eq_def, eqf, tt@, free, qlen - 1, p);
            }
            assert forall|x: int| 0 <= x < e.len() implies #[trigger] lev_cell(tq@, tt@, eqf, free, qlen - 1, e[x] as int) == gb by {
                assert(dp_cell(peq@, max_num_blocks as int, tt@, free, qlen - 1, e[x] as int) == gb);
            }
            assert forall|p: int| 0 <= p < n && #[trigger] lev_cell(tq@, tt@, eqf, free, qlen - 1, p) == gb implies e.contains(p as isize) by {
                assert(dp_cell(peq@, max_num_blocks as int, tt@, free, qlen - 1, p) == gb);
            }
        }
    }
}

impl Alignment {
    /// Aligns `query` against `target` (both read as bytes) under `config`.
    ///
    /// The reported distance is the optimal one for the mode whenever it is within `k`
    /// (always, with `k` unset), and `None` otherwise. Fails with `NotRepresentable` when
    /// both sequences are non-empty and one is longer than `MAX_SEQUENCE_LEN` (the length
    /// up to which every score fits a 32-bit `isize`), or when the path is asked for and a
    /// sequence is that long or its trace table would not fit the index range.
    #[verifier::loop_isolation(false)]
    #[verifier::rlimit(50)]
    pub fn run(config: AlignConfig, query: &str, target: &str) -> (r: Result<Self, AlignError>)
        ensures
            r is Err ==> r == Err::<Alignment, AlignError>(AlignError::NotRepresentable),
            (query.spec_bytes().len() > 0 && target.spec_bytes().len() > 0 && (
            query.spec_bytes().len() > MAX_SEQUENCE_LEN || target.spec_bytes().len()
                > MAX_SEQUENCE_LEN)) ==> r is Err,
            (query.spec_bytes().len() <= MAX_SEQUENCE_LEN && target.spec_bytes().len()
                <= MAX_SEQUENCE_LEN && (!(config.task is Path) || blocks_for(
                query.spec_bytes().len() as int,
            ) * target.spec_bytes().len() <= usize::MAX)) ==> r is Ok,
            (query.spec_bytes().len() == 0 || target.spec_bytes().len() == 0) && !(config.task is Path)
                && query.spec_bytes().len() <= isize::MAX && target.spec_bytes().len() <= isize::MAX ==> r is Ok,
            r matches Ok(a) ==> run_result(config, query.spec_bytes(), target.spec_bytes(), a),
    {
        if query.len() > 0 && target.len() > 0 && (query.len() > MAX_SEQUENCE_LEN || target.len()
            > MAX_SEQUENCE_LEN) {
            return Err(AlignError::NotRepresentable);
        }
        if query.len() > isize::MAX as usize || target.len() > isize::MAX as usize {
            return Err(AlignError::NotRepresentable);
        }
        let ghost q = query.spec_bytes();
        let ghost t = target.spec_bytes();
        let (alphabet, tq, tt) = transform_sequences(query, target);
        let ghost alpha = alphabet@;
        proof {
            lemma_distinct_in_order(q + t);
            lemma_renamed(alpha, q, tq@);
            lemma_renamed(alpha, t, tt@);
        }
        let mut alignment = Alignment {
            edit_distance: None,
            end_locations: None,
            start_locations: None,
            alignment: None,
            alphabet_length: alphabet.len(),
        };
        let qlen = tq.len();
        let n = tt.len();
        let eq_def = EqualityDefinition::from_bytes(alphabet.as_slice(), config.added_equalities.as_slice());
        let a = alphabet.len();
        let ghost eqf = symbol_equal(alpha, config.added_equalities@);
        proof {
            assert(in_alphabet(tq@, a as int));
            assert(in_alphabet(tt@, a as int));
            assert forall|x: int, y: int| 0 <= x < a && 0 <= y < a implies #[trigger] eqf(x, y) == eq_def.equal_spec(x, y) by {
                assert(eq_def.equal_spec(x, y) <==> (x == y || added_equal(alpha, config.added_equalities@, x, y)
                    || added_equal(alpha, config.added_equalities@, y, x)));
            }
        }
        if qlen == 0 || n == 0 {
            let fast: usize = match config.mode {
                AlignMode::NW => if qlen > n { qlen } else { n },
                _ => qlen,
            };
            proof {
                lemma_empty_mode_distance(config.mode, tq@, tt@, eqf);
            }
            let within = match config.k {
                Some(kv) => fast <= kv,
                None => true,
            };
            if !within {
                return Ok(alignment);
            }
            alignment.edit_distance = Some(fast);
            let mut ends: Vec<isize> = Vec::new();
            match config.mode {
                AlignMode::NW => ends.push(n as isize - 1),
                _ => ends.push(-1),
            }
            alignment.end_locations = Some(ends);
        } else {
            search_distance(&mut alignment, &config, &tq, &tt, &eq_def, Ghost(eqf));
        }
        if alignment.edit_distance.is_none() {
            return Ok(alignment);
        }
        let ends: Vec<isize> = match &alignment.end_locations {
            Some(e) => {
                let mut copy: Vec<isize> = Vec::new();
                let mut i: usize = 0;
                while i < e.len()
                    invariant
                        i <= e@.len(),
                        copy@ =~= e@.take(i as int),
                    decreases e@.len() - i,
                {
                    copy.push(e[i]);
                    i = i + 1;
                }
                assert(copy@ =~= e@);
                copy
            },
            None => Vec::new(),
        };
        let wants_starts = match config.task {
            AlignTask::Distance => false,
            _ => true,
        };
        if !wants_starts {
            return Ok(alignment);
        }
        let distance: usize = match alignment.edit_distance {
            Some(d) => d,
            None => 0,
        };
        let is_hw = match config.mode {
            AlignMode::HW => true,
            _ => false,
        };
        let starts: Vec<isize> = if is_hw && qlen > 0 && n > 0 {
            let max_num_blocks = (qlen + 63) / 64;
            let w = max_num_blocks * 64 - qlen;
            let rev_tq = reverse_of(tq.as_slice());
            let rev_tt = reverse_of(tt.as_slice());
            proof {
                assert(in_alphabet(rev_tq@, a as int)) by {
                    assert forall|i: int| 0 <= i < rev_tq@.len() implies #[trigger] rev_tq@[i] < a by {
                        assert(rev_tq@[i] == tq@[qlen - 1 - i]);
                    }
                }
                assert(in_alphabet(rev_tt@, a as int)) by {
                    assert forall|i: int| 0 <= i < rev_tt@.len() implies #[trigger] rev_tt@[i] < a by {
                        assert(rev_tt@[i] == tt@[n - 1 - i]);
                    }
                }
            }
            let rev_peq = build_peq_table(a, rev_tq.as_slice(), &eq_def);
            proof {
                lemma_profile_covers(rev_peq@, rev_tq@, eq_def, rev_tt@);
                lemma_profile_wild(rev_peq@, rev_tq@, eq_def, rev_tt@);
            }
            infix_starts(&ends, rev_peq.as_slice(), w, max_num_blocks, qlen, rev_tt.as_slice(), distance)
        } else {
            let mut zeros: Vec<isize> = Vec::new();
            let mut i: usize = 0;
            while i < ends.len()
                invariant
                    i <= ends@.len(),
                    zeros@.len() == i,
                    forall|j: int| 0 <= j < i ==> #[trigger] zeros@[j] == 0,
                decreases ends@.len() - i,
            {
                zeros.push(0);
                i = i + 1;
            }
            zeros
        };
        let s0 = starts[0];
        let e0 = ends[0];
        alignment.start_locations = Some(starts);
        let wants_path = match config.task {
            AlignTask::Path => true,
            _ => false,
        };
        if wants_path && (qlen > MAX_SEQUENCE_LEN || n > MAX_SEQUENCE_LEN) {
            return Err(AlignError::NotRepresentable);
        }
        if wants_path {
            let lo = s0 as usize;
            let hi = (e0 + 1) as usize;
            let aln_target = vstd::slice::slice_subrange(tt.as_slice(), lo, hi);
            proof {
                assert(in_alphabet(aln_target@, a as int)) by {
                    assert forall|i: int| 0 <= i < aln_target@.len() implies #[trigger] aln_target@[i] < a by {
                        assert(aln_target@[i] == tt@[lo + i]);
                    }
                }
                assert(blocks_for(qlen as int) * (hi - lo) <= blocks_for(qlen as int) * n) by (nonlinear_arith)
                    requires
                        hi - lo <= n,
                        0 <= hi - lo,
                        0 <= blocks_for(qlen as int),
                ;
            }
            let res = alignment.obtain_optimal_path(tq.as_slice(), aln_target, &eq_def);
            if res.is_err() {
                return Err(AlignError::NotRepresentable);
            }
            proof {
                let ops = alignment.alignment->Some_0@;
                lemma_transcript_congruent(
                    ops,
                    tq@,
                    aln_target@,
                    |x: int, y: int| eq_def.equal_spec(x, y),
                    eqf,
                    a as int,
                );
                lemma_lev_congruent(
                    tq@,
                    aln_target@,
                    |x: int, y: int| eq_def.equal_spec(x, y),
                    eqf,
                    a as int,
                    qlen - 1,
                    hi - lo - 1,
                );
            }
        }
        Ok(alignment)
    }
}

} // verus!
