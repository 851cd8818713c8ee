//! The alphabet transform: symbols renamed to dense indices by first appearance.
use vstd::prelude::*;
use vstd::string::StringSliceAdditionalSpecFns;

verus! {

/// The distinct elements of `s`, in order of first appearance.
pub open spec fn distinct_in_order(s: Seq<u8>) -> Seq<u8>
    decreases s.len(),
{
    if s.len() == 0 {
        Seq::empty()
    } else {
        let r = distinct_in_order(s.drop_last());
        if r.contains(s.last()) {
            r
        } else {
            r.push(s.last())
        }
    }
}

/// `distinct_in_order(s)` holds each element of `s` exactly once.
pub proof fn lemma_distinct_in_order(s: Seq<u8>)
    ensures
        distinct_in_order(s).no_duplicates(),
        distinct_in_order(s).to_set() =~= s.to_set(),
    decreases s.len(),
{
    if s.len() > 0 {
        let p = s.drop_last();
        lemma_distinct_in_order(p);
        let r = distinct_in_order(p);
        assert(s =~= p.push(s.last()));
        Seq::<u8>::lemma_to_set_insert_commutes(p, s.last());
        Seq::<u8>::lemma_to_set_insert_commutes(r, s.last());
        assert(p + seq![s.last()] =~= p.push(s.last()));
        assert(r + seq![s.last()] =~= r.push(s.last()));
        if r.contains(s.last()) {
            assert(r.to_set().contains(s.last()));
        }
    }
}

/// A sequence of distinct bytes has at most 256 elements.
pub proof fn lemma_distinct_bytes_len(s: Seq<u8>)
    requires
        s.no_duplicates(),
    ensures
        s.len() <= 256,
{
    let f = |c: u8| c as int;
    let t = s.map_values(f);
    assert(vstd::relations::injective(f));
    s.lemma_no_duplicates_injective(f);
    t.unique_seq_to_set();
    vstd::set_lib::lemma_int_range(0, 256);
    assert(t.to_set().subset_of(vstd::set_lib::set_int_range(0, 256))) by {
        assert forall|x: int| t.to_set().contains(x) implies 0 <= x < 256 by {
            let i = choose|i: int| 0 <= i < t.len() && t[i] == x;
        }
    }
    vstd::set_lib::lemma_len_subset(t.to_set(), vstd::set_lib::set_int_range(0, 256));
}

/// The lookup tables agree with the alphabet built so far.
pub open spec fn tables_agree(alphabet: Seq<u8>, letter_idx: Seq<usize>, in_alphabet: Seq<bool>) -> bool {
    &&& letter_idx.len() == 256
    &&& in_alphabet.len() == 256
    &&& forall|c: u8| #[trigger] in_alphabet[c as int] <==> alphabet.contains(c)
    &&& forall|c: u8|
        #[trigger] in_alphabet[c as int] ==> letter_idx[c as int] < alphabet.len()
            && alphabet[letter_idx[c as int] as int] == c
}

/// `out` renames each element of `s` to its position in `alphabet`.
pub open spec fn renames(alphabet: Seq<u8>, s: Seq<u8>, out: Seq<usize>) -> bool {
    &&& out.len() == s.len()
    &&& forall|i: int|
        0 <= i < s.len() ==> #[trigger] out[i] < alphabet.len() && alphabet[out[i] as int]
            == s[i]
}

fn append_symbols(
    seq: &[u8],
    alphabet: &mut Vec<u8>,
    letter_idx: &mut Vec<usize>,
    in_alphabet: &mut Vec<bool>,
    Ghost(seen): Ghost<Seq<u8>>,
) -> (out: Vec<usize>)
    requires
        old(alphabet)@ == distinct_in_order(seen),
        tables_agree(old(alphabet)@, old(letter_idx)@, old(in_alphabet)@),
    ensures
        final(alphabet)@ == distinct_in_order(seen + seq@),
        tables_agree(final(alphabet)@, final(letter_idx)@, final(in_alphabet)@),
        renames(final(alphabet)@, seq@, out@),
{
    let mut out: Vec<usize> = Vec::new();
    let mut i: usize = 0;
    while i < seq.len()
        invariant
            i <= seq@.len(),
            alphabet@ == distinct_in_order(seen + seq@.take(i as int)),
            tables_agree(alphabet@, letter_idx@, in_alphabet@),
            renames(alphabet@, seq@.take(i as int), out@),
        decreases seq@.len() - i,
    {
        let c = seq[i];
        let ghost s1 = seen + seq@.take(i + 1);
        proof {
            assert(s1.drop_last() =~= seen + seq@.take(i as int));
            assert(s1.last() == c);
        }
        if !in_alphabet[c as usize] {
            proof {
                lemma_distinct_in_order(s1);
            }
            let pos = alphabet.len();
            let ghost a0 = alphabet@;
            let ghost in0 = in_alphabet@;
            let ghost li0 = letter_idx@;
            alphabet.push(c);
            letter_idx.set(c as usize, pos);
            in_alphabet.set(c as usize, true);
            proof {
                assert(alphabet@ == a0.push(c));
                assert forall|d: u8| #[trigger] in_alphabet@[d as int] <==> alphabet@.contains(d) by {
                    if d != c {
                        assert(in_alphabet@[d as int] == in0[d as int]);
                        if alphabet@.contains(d) {
                            let j = choose|j: int| 0 <= j < alphabet@.len() && alphabet@[j] == d;
                            assert(a0[j] == d);
                        }
                        if a0.contains(d) {
                            let j = choose|j: int| 0 <= j < a0.len() && a0[j] == d;
                            assert(alphabet@[j] == d);
                        }
                    } else {
                        assert(alphabet@[pos as int] == c);
                    }
                }
                assert forall|d: u8| #[trigger] in_alphabet@[d as int] implies letter_idx@[d as int]
                    < alphabet@.len() && alphabet@[letter_idx@[d as int] as int] == d by {
                    if d != c {
                        assert(in0[d as int]);
                        assert(letter_idx@[d as int] == li0[d as int]);
                    }
                }
            }
        }
        let ghost a_before = alphabet@;
        out.push(letter_idx[c as usize]);
        proof {
            assert(seq@.take(i + 1) =~= seq@.take(i as int).push(c));
            assert forall|j: int| 0 <= j < i + 1 implies #[trigger] out@[j] < alphabet@.len()
                && alphabet@[out@[j] as int] == seq@.take(i + 1)[j] by {
                if j < i {
                    assert(seq@.take(i + 1)[j] == seq@.take(i as int)[j]);
                }
            }
        }
        i = i + 1;
    }
    proof {
        assert(seq@.take(seq@.len() as int) =~= seq@);
    }
    out
}

/// Renames the bytes of `query` and then of `target` to indices into the alphabet of
/// both, listed by first appearance (query first). Returns the alphabet and the two
/// renamed sequences.
pub fn transform_sequences(query: &str, target: &str) -> (r: (Vec<u8>, Vec<usize>, Vec<usize>))
    ensures
        r.0@ == distinct_in_order(query.spec_bytes() + target.spec_bytes()),
        r.0@.len() <= 256,
        renames(r.0@, query.spec_bytes(), r.1@),
        renames(r.0@, target.spec_bytes(), r.2@),
{
    let q = query.as_bytes();
    let t = target.as_bytes();
    let mut alphabet: Vec<u8> = Vec::new();
    let mut letter_idx: Vec<usize> = vec![0; 256];
    let mut in_alphabet: Vec<bool> = vec![false; 256];
    proof {
        assert(distinct_in_order(Seq::<u8>::empty()) == Seq::<u8>::empty());
        assert forall|c: u8| #[trigger] in_alphabet@[c as int] <==> alphabet@.contains(c) by {}
    }
    let tq = append_symbols(q, &mut alphabet, &mut letter_idx, &mut in_alphabet, Ghost(Seq::empty()));
    proof {
        assert(Seq::<u8>::empty() + q@ =~= q@);
    }
    let a1 = alphabet.len();
    let tt = append_symbols(t, &mut alphabet, &mut letter_idx, &mut in_alphabet, Ghost(q@));
    proof {
        lemma_distinct_in_order(q@ + t@);
        lemma_distinct_bytes_len(alphabet@);
        lemma_prefix_kept(q@, t@);
        assert forall|i: int| 0 <= i < q@.len() implies #[trigger] tq@[i] < alphabet@.len()
            && alphabet@[tq@[i] as int] == q@[i] by {}
    }
    (alphabet, tq, tt)
}

/// Appending elements keeps the distinct elements already found, at their positions.
pub proof fn lemma_prefix_kept(s: Seq<u8>, t: Seq<u8>)
    ensures
        distinct_in_order(s).len() <= distinct_in_order(s + t).len(),
        distinct_in_order(s) =~= distinct_in_order(s + t).take(distinct_in_order(s).len() as int),
    decreases t.len(),
{
    if t.len() > 0 {
        let u = s + t;
        assert(u.drop_last() =~= s + t.drop_last());
        lemma_prefix_kept(s, t.drop_last());
    } else {
        assert(s + t =~= s);
    }
}

} // verus!
