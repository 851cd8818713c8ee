//! Edit operations of an alignment path.
use vstd::prelude::*;

verus! {

/// CIGAR flavour.
#[derive(Debug, Clone, Copy, PartialEq, Eq)]
pub enum CigarFormat {
    /// Match: 'M', Insertion: 'I', Deletion: 'D', Mismatch: 'M'.
    Standard,
    /// Match: '=', Insertion: 'I', Deletion: 'D', Mismatch: 'X'.
    Extended,
}

/// One step of an alignment path.
#[derive(Debug, Clone, Copy, PartialEq, Eq)]
pub enum EditOp {
    /// Query and target symbols are equal.
    Match,
    /// Insertion to target: a query symbol against a gap.
    Insert,
    /// Deletion from target: a target symbol against a gap.
    Delete,
    /// Query and target symbols differ.
    Mismatch,
}

/// `ops` aligns `query` against `target`, front to back: each op consumes the symbols it
/// names, a `Match` only on symbols that `eq` relates and a `Mismatch` only on others.
pub open spec fn is_transcript(ops: Seq<EditOp>, query: Seq<usize>, target: Seq<usize>, eq: spec_fn(int, int) -> bool) -> bool
    decreases ops.len(),
{
    if ops.len() == 0 {
        query.len() == 0 && target.len() == 0
    } else {
        match ops[0] {
            EditOp::Match => query.len() > 0 && target.len() > 0 && eq(query[0] as int, target[0] as int) && is_transcript(ops.drop_first(), query.drop_first(), target.drop_first(), eq),
            EditOp::Mismatch => query.len() > 0 && target.len() > 0 && !eq(query[0] as int, target[0] as int) && is_transcript(ops.drop_first(), query.drop_first(), target.drop_first(), eq),
            EditOp::Insert => query.len() > 0 && is_transcript(
                ops.drop_first(),
                query.drop_first(),
                target,
                eq,
            ),
            EditOp::Delete => target.len() > 0 && is_transcript(
                ops.drop_first(),
                query,
                target.drop_first(),
                eq,
            ),
        }
    }
}

/// Number of operations that cost one edit: all but the matches.
pub open spec fn transcript_cost(ops: Seq<EditOp>) -> int
    decreases ops.len(),
{
    if ops.len() == 0 {
        0
    } else {
        (if ops[0] is Match { 0int } else { 1int }) + transcript_cost(ops.drop_first())
    }
}

/// `s` read back to front.
pub open spec fn reversed<A>(s: Seq<A>) -> Seq<A> {
    Seq::new(s.len(), |i: int| s[s.len() - 1 - i])
}

/// Whether a transcript is valid depends on the equality only over the symbols present.
pub proof fn lemma_transcript_congruent(
    ops: Seq<EditOp>,
    query: Seq<usize>,
    target: Seq<usize>,
    e1: spec_fn(int, int) -> bool,
    e2: spec_fn(int, int) -> bool,
    a: int,
)
    requires
        forall|i: int| 0 <= i < query.len() ==> #[trigger] query[i] < a,
        forall|i: int| 0 <= i < target.len() ==> #[trigger] target[i] < a,
        forall|x: int, y: int| 0 <= x < a && 0 <= y < a ==> #[trigger] e1(x, y) == e2(x, y),
    ensures
        is_transcript(ops, query, target, e1) == is_transcript(ops, query, target, e2),
    decreases ops.len(),
{
    if ops.len() > 0 {
        if query.len() > 0 && target.len() > 0 {
            lemma_transcript_congruent(ops.drop_first(), query.drop_first(), target.drop_first(), e1, e2, a);
        }
        if query.len() > 0 {
            lemma_transcript_congruent(ops.drop_first(), query.drop_first(), target, e1, e2, a);
        }
        if target.len() > 0 {
            lemma_transcript_congruent(ops.drop_first(), query, target.drop_first(), e1, e2, a);
        }
    }
}

} // verus!
