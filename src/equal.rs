//! The equality relation over alphabet symbols.
use vstd::prelude::*;
use crate::error::AlignError;
use vstd::string::StringSliceAdditionalSpecFns;

verus! {

/// Declares two characters equal.
#[derive(Debug, Clone, Copy)]
pub struct EqualityPair {
    /// First character.
    pub first: char,
    /// Second character.
    pub second: char,
}

/// Whether the alphabet byte `b` stands for the character `c`.
pub open spec fn byte_is_char(b: u8, c: char) -> bool {
    b as u32 == c as u32
}

/// `x` is the first position of the alphabet that holds `c`.
pub open spec fn finds(alphabet: Seq<u8>, c: char, x: int) -> bool {
    &&& 0 <= x < alphabet.len()
    &&& byte_is_char(alphabet[x], c)
    &&& forall|i: int| 0 <= i < x ==> !byte_is_char(#[trigger] alphabet[i], c)
}

/// `c` occurs in the alphabet.
pub open spec fn holds_char(alphabet: Seq<u8>, c: char) -> bool {
    exists|i: int| 0 <= i < alphabet.len() && byte_is_char(#[trigger] alphabet[i], c)
}

/// Symbol `x` is declared equal to symbol `y` by one of the pairs.
pub open spec fn added_equal(alphabet: Seq<u8>, pairs: Seq<EqualityPair>, x: int, y: int) -> bool {
    exists|i: int|
        0 <= i < pairs.len() && finds(alphabet, (#[trigger] pairs[i]).first, x) && finds(
            alphabet,
            pairs[i].second,
            y,
        )
}

/// Position of the cell `(x, y)` in a row-major `a × a` matrix.
pub open spec fn cell_pos(a: int, x: int, y: int) -> int {
    x + a * y
}

proof fn lemma_cell_pos(a: int, x: int, y: int)
    requires
        0 <= x < a,
        0 <= y < a,
    ensures
        0 <= cell_pos(a, x, y) < a * a,
{
    assert(0 <= x + a * y < a * a) by (nonlinear_arith)
        requires
            0 <= x < a,
            0 <= y < a,
    ;
}

proof fn lemma_cell_pos_unique(a: int, x1: int, y1: int, x2: int, y2: int)
    requires
        0 <= x1 < a,
        0 <= y1 < a,
        0 <= x2 < a,
        0 <= y2 < a,
        cell_pos(a, x1, y1) == cell_pos(a, x2, y2),
    ensures
        x1 == x2,
        y1 == y2,
{
    if y1 < y2 {
        assert(a * y1 + a <= a * y2) by (nonlinear_arith)
            requires
                y1 < y2,
                a > 0,
        ;
    } else if y2 < y1 {
        assert(a * y2 + a <= a * y1) by (nonlinear_arith)
            requires
                y2 < y1,
                a > 0,
        ;
    }
}

/// Equality relation on the symbols of an alphabet: an `A × A` boolean matrix.
#[derive(Debug, Clone)]
pub struct EqualityDefinition {
    alphabet: Vec<u8>,
    matrix: Vec<bool>,
}

/// First position of `c` in `alphabet`.
fn find_char(alphabet: &[u8], c: char) -> (r: Option<usize>)
    ensures
        r matches Some(x) ==> finds(alphabet@, c, x as int),
        r is None <==> !holds_char(alphabet@, c),
{
    let mut i: usize = 0;
    while i < alphabet.len()
        invariant
            i <= alphabet@.len(),
            forall|j: int| 0 <= j < i ==> !byte_is_char(#[trigger] alphabet@[j], c),
        decreases alphabet@.len() - i,
    {
        if alphabet[i] as u32 == c as u32 {
            return Some(i);
        }
        i = i + 1;
    }
    None
}

impl EqualityDefinition {
    /// The symbols, in index order.
    pub closed spec fn alphabet_spec(&self) -> Seq<u8> {
        self.alphabet@
    }

    /// The matrix, row-major: the cell `(x, y)` is at `x + A·y`.
    pub closed spec fn matrix_spec(&self) -> Seq<bool> {
        self.matrix@
    }

    /// The matrix is square over the alphabet.
    pub open spec fn wf(&self) -> bool {
        &&& self.matrix_spec().len() == self.alphabet_spec().len() * self.alphabet_spec().len()
        &&& self.alphabet_spec().len() <= 256
    }

    /// Whether the cell `(x, y)` of the matrix is set.
    pub open spec fn written(&self, x: int, y: int) -> bool {
        self.matrix_spec()[cell_pos(self.alphabet_spec().len() as int, x, y)]
    }

    /// Whether symbols `x` and `y` are equal: the matrix is read both ways, so a pair
    /// declares its two characters equal in either order.
    pub open spec fn equal_spec(&self, x: int, y: int) -> bool {
        self.written(x, y) || self.written(y, x)
    }

    /// Builds the relation over `alphabet`: the identity, plus the cell `(x, y)` for each
    /// pair whose two characters both occur in the alphabet. Equality reads the cell both
    /// ways.
    pub fn from_bytes(alphabet: &[u8], added_equalities: &[EqualityPair]) -> (r: Self)
        requires
            alphabet@.len() <= 256,
        ensures
            r.wf(),
            r.alphabet_spec() == alphabet@,
            forall|x: int, y: int|
                0 <= x < alphabet@.len() && 0 <= y < alphabet@.len() ==> (#[trigger] r.written(
                    x,
                    y,
                ) <==> (x == y || added_equal(alphabet@, added_equalities@, x, y))),
            forall|x: int, y: int|
                0 <= x < alphabet@.len() && 0 <= y < alphabet@.len() ==> (#[trigger] r.equal_spec(
                    x,
                    y,
                ) <==> (x == y || added_equal(alphabet@, added_equalities@, x, y) || added_equal(
                    alphabet@,
                    added_equalities@,
                    y,
                    x,
                ))),
    {
        let a = alphabet.len();
        let ghost ai = a as int;
        proof {
            assert(a * a <= 65536) by (nonlinear_arith)
                requires
                    a <= 256,
            ;
        }
        let mut matrix: Vec<bool> = vec![false; a * a];
        proof {
            assert forall|u: int, v: int| 0 <= u < a && 0 <= v < a implies !matrix@[
                #[trigger] cell_pos(ai, u, v)] by {
                lemma_cell_pos(ai, u, v);
            }
        }
        let mut x: usize = 0;
        while x < a
            invariant
                a == alphabet@.len(),
                a <= 256,
                a * a <= 65536,
                ai == a as int,
                x <= a,
                matrix@.len() == a * a,
                forall|u: int, v: int|
                    0 <= u < a && 0 <= v < a ==> (matrix@[#[trigger] cell_pos(ai, u, v)] <==> (u
                        == v && u < x)),
            decreases a - x,
        {
            let ghost prev = matrix@;
            proof {
                lemma_cell_pos(ai, x as int, x as int);
            }
            matrix.set(x + a * x, true);
            proof {
                assert forall|u: int, v: int| 0 <= u < a && 0 <= v < a implies (matrix@[
                    #[trigger] cell_pos(ai, u, v)] <==> (u == v && u < x + 1)) by {
                    lemma_cell_pos(ai, u, v);
                    if cell_pos(ai, u, v) == cell_pos(ai, x as int, x as int) {
                        lemma_cell_pos_unique(ai, u, v, x as int, x as int);
                    } else {
                        assert(prev[cell_pos(ai, u, v)] <==> (u == v && u < x));
                    }
                }
            }
            x = x + 1;
        }
        let mut i: usize = 0;
        while i < added_equalities.len()
            invariant
                a == alphabet@.len(),
                a <= 256,
                a * a <= 65536,
                ai == a as int,
                i <= added_equalities@.len(),
                matrix@.len() == a * a,
                forall|u: int, v: int|
                    0 <= u < a && 0 <= v < a ==> (matrix@[#[trigger] cell_pos(ai, u, v)] <==> (u
                        == v || added_equal(alphabet@, added_equalities@.take(i as int), u, v))),
            decreases added_equalities@.len() - i,
        {
            let pair = added_equalities[i];
            let first = find_char(alphabet, pair.first);
            let second = find_char(alphabet, pair.second);
            let ghost before = added_equalities@.take(i as int);
            let ghost after = added_equalities@.take(i + 1);
            proof {
                assert(after =~= before.push(pair));
                assert forall|u: int, v: int| added_equal(alphabet@, before, u, v) implies added_equal(alphabet@, after, u, v) by {
                    let j = choose|j: int| 0 <= j < before.len() && finds(alphabet@, (#[trigger] before[j]).first, u) && finds(alphabet@, before[j].second, v);
                    assert(after[j] == before[j]);
                }
                assert forall|u: int, v: int| added_equal(alphabet@, after, u, v) && !added_equal(alphabet@, before, u, v)
                    implies finds(alphabet@, pair.first, u) && finds(alphabet@, pair.second, v) by {
                    let j = choose|j: int| 0 <= j < after.len() && finds(alphabet@, (#[trigger] after[j]).first, u) && finds(alphabet@, after[j].second, v);
                    if j < before.len() {
                        assert(before[j] == after[j]);
                    }
                }
            }
            match (first, second) {
                (Some(fx), Some(sy)) => {
                    proof {
                        assert(finds(alphabet@, pair.first, fx as int));
                        assert(finds(alphabet@, pair.second, sy as int));
                        lemma_cell_pos(ai, fx as int, sy as int);
                        assert forall|u: int, v: int| 0 <= u < a && 0 <= v < a && finds(alphabet@, pair.first, u) && finds(alphabet@, pair.second, v)
                            implies u == fx && v == sy by {
                            if u < fx {
                                assert(!byte_is_char(alphabet@[u], pair.first));
                            } else if fx < u {
                                assert(!byte_is_char(alphabet@[fx as int], pair.first));
                            }
                            if v < sy {
                                assert(!byte_is_char(alphabet@[v], pair.second));
                            } else if sy < v {
                                assert(!byte_is_char(alphabet@[sy as int], pair.second));
                            }
                        }
                        assert(added_equal(alphabet@, after, fx as int, sy as int)) by {
                            assert(after[i as int] == pair);
                        }
                    }
                    let ghost prev = matrix@;
                    matrix.set(fx + a * sy, true);
                    proof {
                        assert forall|u: int, v: int| 0 <= u < a && 0 <= v < a implies (matrix@[
                            #[trigger] cell_pos(ai, u, v)] <==> (u == v || added_equal(
                            alphabet@,
                            after,
                            u,
                            v,
                        ))) by {
                            lemma_cell_pos(ai, u, v);
                            if cell_pos(ai, u, v) == cell_pos(ai, fx as int, sy as int) {
                                lemma_cell_pos_unique(ai, u, v, fx as int, sy as int);
                            } else {
                                assert(prev[cell_pos(ai, u, v)] <==> (u == v || added_equal(
                                    alphabet@,
                                    before,
                                    u,
                                    v,
                                )));
                            }
                        }
                    }
                },
                _ => {
                    proof {
                        assert forall|u: int, v: int| added_equal(alphabet@, after, u, v) implies added_equal(alphabet@, before, u, v) by {
                            if !added_equal(alphabet@, before, u, v) {
                                if first is None {
                                    assert(byte_is_char(alphabet@[u], pair.first));
                                } else {
                                    assert(byte_is_char(alphabet@[v], pair.second));
                                }
                            }
                        }
                    }
                },
            }
            i = i + 1;
        }
        proof {
            assert(added_equalities@.take(added_equalities@.len() as int) =~= added_equalities@);
        }
        let mut alpha: Vec<u8> = Vec::new();
        let mut j: usize = 0;
        while j < a
            invariant
                a == alphabet@.len(),
                j <= a,
                alpha@ =~= alphabet@.take(j as int),
            decreases a - j,
        {
            alpha.push(alphabet[j]);
            j = j + 1;
        }
        proof {
            assert(alphabet@.take(a as int) =~= alphabet@);
        }
        EqualityDefinition { alphabet: alpha, matrix }
    }

    /// Builds the relation over the bytes of `alphabet`, with the identity and the
    /// `added_equalities` whose characters both occur in it.
    pub fn new(alphabet: &str, added_equalities: Option<&[EqualityPair]>) -> (r: Self)
        requires
            alphabet.spec_bytes().len() <= 256,
        ensures
            r.wf(),
            r.alphabet_spec() == alphabet.spec_bytes(),
            forall|x: int, y: int|
                0 <= x < r.alphabet_spec().len() && 0 <= y < r.alphabet_spec().len() ==> (
                #[trigger] r.written(x, y) <==> (x == y || (added_equalities matches Some(
                    pairs,
                ) && added_equal(r.alphabet_spec(), pairs@, x, y)))),
    {
        let bytes = alphabet.as_bytes();
        match added_equalities {
            Some(pairs) => EqualityDefinition::from_bytes(bytes, pairs),
            None => {
                let none: Vec<EqualityPair> = Vec::new();
                let r = EqualityDefinition::from_bytes(bytes, none.as_slice());
                r
            },
        }
    }

    /// Whether the characters `a` and `b` are equal, or an error when either is not in
    /// the alphabet.
    pub fn are_equal(&self, a: char, b: char) -> (r: Result<bool, AlignError>)
        requires
            self.wf(),
        ensures
            r is Err <==> !holds_char(self.alphabet_spec(), a) || !holds_char(
                self.alphabet_spec(),
                b,
            ),
            r is Err ==> r == Err::<bool, AlignError>(AlignError::SymbolNotInAlphabet),
            r matches Ok(e) ==> exists|x: int, y: int|
                finds(self.alphabet_spec(), a, x) && finds(self.alphabet_spec(), b, y) && e
                    == self.equal_spec(x, y),
    {
        let fx = find_char(self.alphabet.as_slice(), a);
        let fy = find_char(self.alphabet.as_slice(), b);
        match (fx, fy) {
            (Some(x), Some(y)) => {
                assert(finds(self.alphabet_spec(), a, x as int));
                assert(finds(self.alphabet_spec(), b, y as int));
                Ok(self.index((x, y)))
            },
            _ => Err(AlignError::SymbolNotInAlphabet),
        }
    }

    /// Whether symbol `index.0` is equal to symbol `index.1`, in either order of the
    /// matrix.
    pub fn index(&self, index: (usize, usize)) -> (r: bool)
        requires
            self.wf(),
            index.0 < self.alphabet_spec().len(),
            index.1 < self.alphabet_spec().len(),
        ensures
            r == self.equal_spec(index.0 as int, index.1 as int),
    {
        let a = self.alphabet.len();
        proof {
            lemma_cell_pos(a as int, index.0 as int, index.1 as int);
            assert(a * a <= 65536) by (nonlinear_arith)
                requires
                    a <= 256,
            ;
        }
        proof {
            lemma_cell_pos(a as int, index.1 as int, index.0 as int);
        }
        self.matrix[index.0 + a * index.1] || self.matrix[index.1 + a * index.0]
    }

    /// The character at alphabet position `index`, or `None` past the alphabet's end
    /// (the wildcard).
    pub fn symbol(&self, index: usize) -> (r: Option<char>)
        ensures
            index < self.alphabet_spec().len() ==> (r matches Some(c) && byte_is_char(
                self.alphabet_spec()[index as int],
                c,
            )),
            index >= self.alphabet_spec().len() ==> r is None,
    {
        if index < self.alphabet.len() {
            Some(self.alphabet[index] as char)
        } else {
            None
        }
    }

    /// Number of symbols.
    pub fn alphabet_len(&self) -> (r: usize)
        ensures
            r == self.alphabet_spec().len(),
    {
        self.alphabet.len()
    }

    /// The matrix, row-major.
    pub fn matrix(&self) -> (r: &Vec<bool>)
        ensures
            r@ == self.matrix_spec(),
    {
        &self.matrix
    }
}

} // verus!
