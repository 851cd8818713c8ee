//! The query profile: for each symbol and block, the rows whose query symbol equals it.
use vstd::prelude::*;
use crate::block::{bit, blocks_for, Word, MAX_SEQUENCE_LEN};
use crate::equal::EqualityDefinition;

verus! {

/// Whether bit `pos % 64` of the profile word of symbol `s` is set: `s` is the wildcard,
/// `pos` lies past the query's end, or the query symbol at `pos` equals `s`.
pub open spec fn profile_bit(query: Seq<usize>, def: EqualityDefinition, s: int, pos: int) -> bool {
    s == def.alphabet_spec().len() || pos >= query.len() || def.equal_spec(query[pos] as int, s)
}

/// Query symbols all lie in the alphabet.
pub open spec fn in_alphabet(query: Seq<usize>, a: int) -> bool {
    forall|i: int| 0 <= i < query.len() ==> #[trigger] query[i] < a
}

/// `peq` is the profile of `query`: word `s·B + b` covers rows `64·b ..= 64·b + 63`
/// for symbol `s`, where `B` is the number of blocks.
pub open spec fn is_profile(peq: Seq<Word>, query: Seq<usize>, def: EqualityDefinition) -> bool {
    let a = def.alphabet_spec().len() as int;
    let nb = blocks_for(query.len() as int);
    &&& peq.len() == (a + 1) * nb
    &&& forall|s: int, b: int, i: int|
        0 <= s <= a && 0 <= b < nb && 0 <= i < 64 ==> (#[trigger] bit(peq[s * nb + b], i) == 1
            <==> profile_bit(query, def, s, 64 * b + i))
}

proof fn lemma_shift_in(w: Word, x: Word, j: u64)
    requires
        x <= 1,
        j < 64,
    ensures
        j == 0 ==> ((((w << 1u64) | x) >> j) & 1) == x,
        j > 0 ==> ((((w << 1u64) | x) >> j) & 1) == ((w >> ((j - 1) as u64)) & 1),
{
    assert(j == 0 ==> ((((w << 1u64) | x) >> j) & 1) == x) by (bit_vector)
        requires
            x <= 1,
            j < 64,
    ;
    assert(j > 0 ==> ((((w << 1u64) | x) >> j) & 1) == ((w >> ((j - 1) as u64)) & 1)) by (bit_vector)
        requires
            x <= 1,
            j < 64,
    ;
}

/// The profile word of symbol `s < A` for block `b`.
fn profile_word(query: &[usize], def: &EqualityDefinition, s: usize, b: usize) -> (w: Word)
    requires
        def.wf(),
        s < def.alphabet_spec().len(),
        in_alphabet(query@, def.alphabet_spec().len() as int),
        b < blocks_for(query@.len() as int),
        query@.len() <= MAX_SEQUENCE_LEN,
    ensures
        forall|i: int| 0 <= i < 64 ==> (bit(w, i) == 1 <==> profile_bit(query@, *def, s as int, 64 * b + i)),
{
    let mut w: Word = 0;
    let mut n: u64 = 0;
    let base: usize = 64 * b;
    while n < 64
        invariant
            n <= 64,
            base == 64 * b,
            base + 64 <= MAX_SEQUENCE_LEN + 64,
            def.wf(),
            s < def.alphabet_spec().len(),
            in_alphabet(query@, def.alphabet_spec().len() as int),
            n == 0 ==> w == 0,
            forall|j: int| 0 <= j < n ==> (bit(w, j) == 1 <==> profile_bit(query@, *def, s as int, base + 64 - n + j)),
        decreases 64 - n,
    {
        let pos: usize = base + 63 - n as usize;
        let x: Word = if pos >= query.len() || def.index((query[pos], s)) { 1 } else { 0 };
        let ghost w0 = w;
        w = (w << 1u64) | x;
        proof {
            assert forall|j: int| 0 <= j < n + 1 implies (bit(w, j) == 1 <==> profile_bit(query@, *def, s as int, base + 64 - (n + 1) + j)) by {
                lemma_shift_in(w0, x, j as u64);
                if j > 0 {
                    assert(bit(w, j) == bit(w0, j - 1));
                }
            }
        }
        n = n + 1;
    }
    w
}

/// Builds the query profile of `query` over the alphabet of `equality_def`, with the
/// wildcard symbol `A` all ones.
pub fn build_peq_table(alphabet_length: usize, query: &[usize], equality_def: &EqualityDefinition) -> (peq: Vec<Word>)
    requires
        equality_def.wf(),
        alphabet_length == equality_def.alphabet_spec().len(),
        in_alphabet(query@, alphabet_length as int),
        query@.len() <= MAX_SEQUENCE_LEN,
    ensures
        is_profile(peq@, query@, *equality_def),
{
    let nb: usize = (query.len() + 63) / 64;
    let a = alphabet_length;
    let ghost ai = a as int;
    let ghost nbi = nb as int;
    proof {
        assert((a + 1) * nb <= 257 * (MAX_SEQUENCE_LEN / 64 + 1)) by (nonlinear_arith)
            requires
                a <= 256,
                nb <= MAX_SEQUENCE_LEN / 64 + 1,
        ;
    }
    let mut peq: Vec<Word> = Vec::new();
    let mut s: usize = 0;
    while s <= a
        invariant
            nb == blocks_for(query@.len() as int),
            a == alphabet_length,
            ai == a,
            nbi == nb,
            a <= 256,
            (a + 1) * nb <= 257 * (MAX_SEQUENCE_LEN / 64 + 1),
            equality_def.wf(),
            alphabet_length == equality_def.alphabet_spec().len(),
            in_alphabet(query@, alphabet_length as int),
            query@.len() <= MAX_SEQUENCE_LEN,
            s <= a + 1,
            peq@.len() == s * nb,
            forall|t: int, b: int, i: int|
                0 <= t < s && 0 <= b < nb && 0 <= i < 64 ==> (#[trigger] bit(peq@[t * nbi + b], i) == 1
                    <==> profile_bit(query@, *equality_def, t, 64 * b + i)),
        decreases a + 1 - s,
    {
        let mut b: usize = 0;
        proof {
            assert(s * nb + nb <= (a + 1) * nb) by (nonlinear_arith)
                requires
                    s <= a,
            ;
        }
        while b < nb
            invariant
                nb == blocks_for(query@.len() as int),
                a == alphabet_length,
                ai == a,
                nbi == nb,
                a <= 256,
                s <= a,
                s * nb + nb <= (a + 1) * nb,
                (a + 1) * nb <= 257 * (MAX_SEQUENCE_LEN / 64 + 1),
                equality_def.wf(),
                alphabet_length == equality_def.alphabet_spec().len(),
                in_alphabet(query@, alphabet_length as int),
                query@.len() <= MAX_SEQUENCE_LEN,
                b <= nb,
                peq@.len() == s * nb + b,
                forall|t: int, c: int, i: int|
                    0 <= t < s && 0 <= c < nb && 0 <= i < 64 ==> (#[trigger] bit(peq@[t * nbi + c], i) == 1
                        <==> profile_bit(query@, *equality_def, t, 64 * c + i)),
                forall|c: int, i: int|
                    0 <= c < b && 0 <= i < 64 ==> (#[trigger] bit(peq@[s * nbi + c], i) == 1
                        <==> profile_bit(query@, *equality_def, s as int, 64 * c + i)),
            decreases nb - b,
        {
            let w: Word = if s == a {
                proof {
                    assert(forall|i: u64| i < 64 ==> ((0xffff_ffff_ffff_ffffu64 >> i) & 1) == 1) by (bit_vector);
                }
                0xffff_ffff_ffff_ffff
            } else {
                profile_word(query, equality_def, s, b)
            };
            let ghost p0 = peq@;
            peq.push(w);
            proof {
                assert forall|t: int, c: int, i: int|
                    0 <= t < s && 0 <= c < nb && 0 <= i < 64 implies (#[trigger] bit(peq@[t * nbi + c], i) == 1
                        <==> profile_bit(query@, *equality_def, t, 64 * c + i)) by {
                    assert(t * nbi + c < s * nbi) by (nonlinear_arith)
                        requires
                            0 <= t < s,
                            0 <= c < nbi,
                    ;
                    assert(peq@[t * nbi + c] == p0[t * nbi + c]);
                }
            }
            b = b + 1;
        }
        proof {
            assert forall|t: int, c: int, i: int|
                0 <= t < s + 1 && 0 <= c < nb && 0 <= i < 64 implies (#[trigger] bit(peq@[t * nbi + c], i) == 1
                    <==> profile_bit(query@, *equality_def, t, 64 * c + i)) by {
                if t == s {
                } 
            }
            assert((s + 1) * nbi == s * nbi + nbi) by (nonlinear_arith);
        }
        s = s + 1;
    }
    peq
}

} // verus!
