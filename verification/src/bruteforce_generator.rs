//! A restartable mixed-radix enumerator of all finite sequences over a fixed
//! alphabet.
//!
//! The enumerator keeps a digit vector — one alphabet index per position of
//! the current sequence, least-significant digit first — together with the
//! materialized sequence itself, which runs most-significant position first.
//! Advancing increments the least-significant digit and propagates carries;
//! when the whole vector overflows, the sequence grows by one position, so
//! every sequence of every length is eventually produced exactly once.

use vstd::prelude::*;
use vstd::std_specs::cmp::PartialEqSpec;

verus! {

/// Why construction of an enumerator can be refused.
#[derive(Clone, Copy, Debug, PartialEq, Eq, Structural)]
pub enum GeneratorError {
    /// The supplied alphabet is empty: nothing can ever be enumerated.
    ConfigurationError,
    /// A "start-from" sequence contains a symbol absent from the alphabet,
    /// so its digit vector cannot be reconstructed.
    ResumeMismatch,
}

/// Every digit is a valid index into an alphabet of `b` symbols.
pub open spec fn digits_in_range(d: Seq<usize>, b: nat) -> bool {
    forall|i: int| 0 <= i < d.len() ==> (#[trigger] d[i]) < b
}

/// The successor of a digit vector (least-significant digit first) in base
/// `b`: increment the front digit, carrying into later digits; a full
/// overflow — also of the empty vector — grows the vector by one zero digit.
pub open spec fn succ_digits(d: Seq<usize>, b: nat) -> Seq<usize>
    decreases d.len(),
{
    if d.len() == 0 {
        seq![0usize]
    } else if d[0] + 1 < b {
        seq![((d[0] + 1) as usize)] + d.skip(1)
    } else {
        seq![0usize] + succ_digits(d.skip(1), b)
    }
}

/// The sequence spelled by a digit vector: position `i` of the sequence is
/// the alphabet symbol selected by digit `len - 1 - i`, so the front of the
/// sequence is the most-significant digit.
pub open spec fn word_of<T>(alpha: Seq<T>, d: Seq<usize>) -> Seq<T> {
    Seq::new(d.len(), |i: int| alpha[d[d.len() - 1 - i] as int])
}

/// `j` is the position of the first symbol of `alpha` that compares equal to
/// `x` (by the equality the element type's `PartialEq` implements).
pub open spec fn is_first_index_of<T: PartialEqSpec>(alpha: Seq<T>, x: T, j: int) -> bool {
    &&& 0 <= j < alpha.len()
    &&& alpha[j].eq_spec(&x)
    &&& forall|k: int| 0 <= k < j ==> !(#[trigger] alpha[k].eq_spec(&x))
}

/// Some symbol of `alpha` compares equal to `x`.
pub open spec fn alphabet_contains<T: PartialEqSpec>(alpha: Seq<T>, x: T) -> bool {
    exists|j: int| 0 <= j < alpha.len() && (#[trigger] alpha[j].eq_spec(&x))
}

/// Incrementing a digit vector whose digits `0..i` are all at the maximum
/// while digit `i` is not resets the carried prefix to zero, bumps digit `i`,
/// and leaves the more significant digits untouched.
proof fn lemma_succ_carry_prefix(d: Seq<usize>, b: nat, i: int)
    requires
        b >= 1,
        digits_in_range(d, b),
        0 <= i < d.len(),
        forall|j: int| 0 <= j < i ==> #[trigger] d[j] + 1 == b,
        d[i] + 1 < b,
    ensures
        succ_digits(d, b) == Seq::new(
            d.len(),
            |k: int|
                if k < i {
                    0usize
                } else if k == i {
                    (d[i] + 1) as usize
                } else {
                    d[k]
                },
        ),
    decreases i,
{
    let expected = Seq::new(
        d.len(),
        |k: int|
            if k < i {
                0usize
            } else if k == i {
                (d[i] + 1) as usize
            } else {
                d[k]
            },
    );
    if i == 0 {
        assert(succ_digits(d, b) =~= expected);
    } else {
        lemma_succ_carry_prefix(d.skip(1), b, i - 1);
        assert(succ_digits(d, b) =~= expected);
    }
}

/// Incrementing a digit vector whose digits are all at the maximum overflows
/// completely: every digit resets and one more zero digit appears.
proof fn lemma_succ_all_max(d: Seq<usize>, b: nat)
    requires
        b >= 1,
        digits_in_range(d, b),
        forall|j: int| 0 <= j < d.len() ==> #[trigger] d[j] + 1 == b,
    ensures
        succ_digits(d, b) == Seq::new(d.len() + 1, |k: int| 0usize),
    decreases d.len(),
{
    if d.len() == 0 {
        assert(succ_digits(d, b) =~= Seq::new(d.len() + 1, |k: int| 0usize));
    } else {
        lemma_succ_all_max(d.skip(1), b);
        assert(succ_digits(d, b) =~= Seq::new(d.len() + 1, |k: int| 0usize));
    }
}

/// A stateful enumerator of all finite sequences over `charset`, in order of
/// increasing length and, within one length, in base-`charset.len()` counting
/// order.
pub struct BruteForceGenerator<'charset, ElementType> {
    length: usize,
    charset: &'charset [ElementType],
    current_indexes: Vec<usize>,
    current_permutation: Vec<ElementType>,
}

impl<'charset, ElementType> BruteForceGenerator<'charset, ElementType> {
    /// The alphabet the enumerator draws from.
    pub closed spec fn alpha(self) -> Seq<ElementType> {
        self.charset@
    }

    /// The radix of the counter: the number of symbols in the alphabet.
    pub open spec fn base(self) -> nat {
        self.alpha().len()
    }

    /// The digit vector, least-significant digit first.
    pub closed spec fn digits(self) -> Seq<usize> {
        self.current_indexes@
    }

    /// The materialized current sequence, most-significant position first.
    pub closed spec fn word(self) -> Seq<ElementType> {
        self.current_permutation@
    }

    /// The recorded length of the current sequence.
    pub closed spec fn length(self) -> nat {
        self.length as nat
    }

    /// Well-formedness: the alphabet is non-empty, the recorded length
    /// matches the digit vector, every digit indexes into the alphabet, and
    /// the sequence buffer spells exactly what the digit vector denotes.
    pub open spec fn wf(self) -> bool {
        &&& self.base() >= 1
        &&& self.length() == self.digits().len()
        &&& digits_in_range(self.digits(), self.base())
        &&& self.word() == word_of(self.alpha(), self.digits())
    }

    /// Build a bruteforcer running from the empty result.
    ///
    /// Fails exactly when the alphabet is empty.
    pub fn new(charset: &'charset [ElementType]) -> (r: Result<
        Self,
        GeneratorError,
    >)
        ensures
            charset@.len() == 0 <==> r == Err::<Self, GeneratorError>(
                GeneratorError::ConfigurationError,
            ),
            charset@.len() > 0 ==> (r matches Ok(g) && {
                &&& g.wf()
                &&& g.alpha() == charset@
                &&& g.digits() == Seq::<usize>::empty()
                &&& g.word() == Seq::<ElementType>::empty()
            }),
    {
        if charset.len() == 0 {
            return Err(GeneratorError::ConfigurationError);
        }
        let g = BruteForceGenerator {
            charset,
            current_indexes: Vec::new(),
            length: 0,
            current_permutation: Vec::new(),
        };
        proof {
            assert(g.word() =~= word_of(g.alpha(), g.digits()));
        }
        Ok(g)
    }
}

impl<'charset, ElementType: Copy> BruteForceGenerator<'charset, ElementType> {
    /// Build a bruteforcer generating sequences with at least `length`
    /// elements: the counter starts at the lexicographically first sequence
    /// of that length, which is not yet emitted.
    ///
    /// Fails exactly when the alphabet is empty.
    pub fn start_at_length(charset: &'charset [ElementType], length: usize) -> (r: Result<
        Self,
        GeneratorError,
    >)
        ensures
            charset@.len() == 0 <==> r == Err::<Self, GeneratorError>(
                GeneratorError::ConfigurationError,
            ),
            charset@.len() > 0 ==> (r matches Ok(g) && {
                &&& g.wf()
                &&& g.alpha() == charset@
                &&& g.digits() == Seq::new(length as nat, |i: int| 0usize)
                &&& g.word() == Seq::new(length as nat, |i: int| charset@[0])
            }),
    {
        if charset.len() == 0 {
            return Err(GeneratorError::ConfigurationError);
        }
        let first: ElementType = charset[0];
        let mut current_indexes: Vec<usize> = Vec::with_capacity(length);
        let mut current_permutation: Vec<ElementType> = Vec::with_capacity(length);
        let mut i: usize = 0;
        while i < length
            invariant
                i <= length,
                first == charset@[0],
                current_indexes@.len() == i,
                current_permutation@.len() == i,
                forall|k: int| 0 <= k < i ==> #[trigger] current_indexes@[k] == 0usize,
                forall|k: int| 0 <= k < i ==> #[trigger] current_permutation@[k] == charset@[0],
            decreases length - i,
        {
            current_indexes.push(0);
            current_permutation.push(first);
            i = i + 1;
        }
        let g = BruteForceGenerator { length, charset, current_indexes, current_permutation };
        proof {
            assert(g.digits() =~= Seq::new(length as nat, |i: int| 0usize));
            assert(g.word() =~= Seq::new(length as nat, |i: int| charset@[0]));
            assert(g.word() =~= word_of(g.alpha(), g.digits()));
        }
        Ok(g)
    }

    /// An independent copy of the current sequence buffer, so the caller may
    /// keep it past the next advance.
    fn snapshot(&self) -> (r: Vec<ElementType>)
        ensures
            r@ == self.word(),
    {
        let n: usize = self.current_permutation.len();
        let mut out: Vec<ElementType> = Vec::with_capacity(n);
        let mut k: usize = 0;
        while k < n
            invariant
                k <= n,
                n == self.current_permutation@.len(),
                out@ =~= self.current_permutation@.subrange(0, k as int),
            decreases n - k,
        {
            out.push(self.current_permutation[k]);
            k = k + 1;
        }
        proof {
            assert(out@ =~= self.word());
        }
        out
    }

    /// Move to the next permutation and return a copy of it.
    ///
    /// The digit vector becomes its base-`B` successor: the least-significant
    /// digit is incremented, carries propagate towards the most-significant
    /// end, and a full overflow — in particular the very first advance from
    /// the empty start — grows the sequence by one position, every digit
    /// reset to zero.
    pub fn raw_next(&mut self) -> (r: Vec<ElementType>)
        requires
            old(self).wf(),
        ensures
            final(self).wf(),
            final(self).alpha() == old(self).alpha(),
            final(self).digits() == succ_digits(old(self).digits(), old(self).base()),
            final(self).length() == old(self).length() || final(self).length() == old(
                self,
            ).length() + 1,
            r@ == final(self).word(),
    {
        let ghost d0: Seq<usize> = self.current_indexes@;
        let ghost alpha0: Seq<ElementType> = self.charset@;
        let b: usize = self.charset.len();
        let n: usize = self.current_indexes.len();
        let mut i: usize = 0;
        while i < n
            invariant_except_break
                i <= n,
                b == alpha0.len(),
                b >= 1,
                self.charset@ == alpha0,
                self.length == n,
                d0.len() == n,
                digits_in_range(d0, b as nat),
                self.current_indexes@.len() == n,
                forall|j: int| 0 <= j < i ==> #[trigger] d0[j] + 1 == b,
                forall|j: int|
                    0 <= j < n ==> #[trigger] self.current_indexes@[j] == (if j < i {
                        0usize
                    } else {
                        d0[j]
                    }),
                self.current_permutation@ == word_of(alpha0, self.current_indexes@),
            ensures
                b == alpha0.len(),
                b >= 1,
                self.charset@ == alpha0,
                self.length == n,
                d0.len() == n,
                i <= n,
                self.current_indexes@.len() == n,
                digits_in_range(self.current_indexes@, b as nat),
                self.current_permutation@ == word_of(alpha0, self.current_indexes@),
                i == n ==> (forall|j: int| 0 <= j < n ==> #[trigger] d0[j] + 1 == b)
                    && (forall|j: int| 0 <= j < n ==> #[trigger] self.current_indexes@[j] == 0usize),
                i < n ==> self.current_indexes@ == succ_digits(d0, b as nat),
            decreases n - i,
        {
            let d: usize = self.current_indexes[i];
            proof {
                assert(digits_in_range(self.current_indexes@, b as nat)) by {
                    assert(forall|j: int|
                        0 <= j < n ==> #[trigger] self.current_indexes@[j] == 0usize
                            || self.current_indexes@[j] == d0[j]);
                }
            }
            if d + 1 < b {
                self.current_indexes[i] = d + 1;
                self.current_permutation[n - 1 - i] = self.charset[d + 1];
                proof {
                    lemma_succ_carry_prefix(d0, b as nat, i as int);
                    assert(self.current_indexes@ =~= succ_digits(d0, b as nat));
                    assert(self.current_permutation@ =~= word_of(
                        alpha0,
                        self.current_indexes@,
                    ));
                }
                break ;
            } else {
                self.current_indexes[i] = 0;
                self.current_permutation[n - 1 - i] = self.charset[0];
                proof {
                    assert(self.current_permutation@ =~= word_of(
                        alpha0,
                        self.current_indexes@,
                    ));
                }
                i = i + 1;
            }
        }
        if i == n {
            // Every digit carried: the whole vector overflowed, so the
            // sequence grows by one position.
            proof {
                lemma_succ_all_max(d0, b as nat);
            }
            self.current_indexes.push(0);
            self.current_permutation.insert(0, self.charset[0]);
            self.length = self.current_indexes.len();
            proof {
                assert(self.current_indexes@ =~= succ_digits(d0, b as nat));
                assert(self.current_permutation@ =~= word_of(
                    alpha0,
                    self.current_indexes@,
                ));
            }
        }
        self.snapshot()
    }

    /// Advance and hand out the next sequence. The search space is unbounded,
    /// so the enumerator never runs out and the result is always `Some`.
    pub fn next(&mut self) -> (r: Option<Vec<ElementType>>)
        requires
            old(self).wf(),
        ensures
            final(self).wf(),
            final(self).alpha() == old(self).alpha(),
            final(self).digits() == succ_digits(old(self).digits(), old(self).base()),
            final(self).length() == old(self).length() || final(self).length() == old(
                self,
            ).length() + 1,
            r matches Some(v) && v@ == final(self).word(),
    {
        Some(self.raw_next())
    }
}

impl<'charset, ElementType: Copy + PartialEqSpec> BruteForceGenerator<'charset, ElementType> {
    /// The position of the first symbol of `charset` equal to `x`, if any.
    fn find_first_index(charset: &[ElementType], x: ElementType) -> (r: Option<usize>)
        requires
            ElementType::obeys_eq_spec(),
        ensures
            match r {
                Some(j) => is_first_index_of(charset@, x, j as int),
                None => !alphabet_contains(charset@, x),
            },
    {
        let n: usize = charset.len();
        let mut j: usize = 0;
        while j < n
            invariant
                j <= n,
                n == charset@.len(),
                ElementType::obeys_eq_spec(),
                forall|k: int| 0 <= k < j ==> !(#[trigger] charset@[k].eq_spec(&x)),
            decreases n - j,
        {
            if charset[j] == x {
                return Some(j);
            }
            j = j + 1;
        }
        None
    }

    /// Build a bruteforcer that starts from a specific permutation: the digit
    /// vector is reconstructed by looking each given symbol up in the
    /// alphabet (least-significant digit first), so that advancing continues
    /// the enumeration right after the given sequence instead of restarting
    /// the counter from zero.
    ///
    /// Fails with `ConfigurationError` exactly when the alphabet is empty,
    /// and with `ResumeMismatch` exactly when some given symbol is absent
    /// from the alphabet.
    pub fn start_from(
        charset: &'charset [ElementType],
        current_permutation: &[ElementType],
    ) -> (r: Result<Self, GeneratorError>)
        requires
            ElementType::obeys_eq_spec(),
        ensures
            charset@.len() == 0 <==> r == Err::<Self, GeneratorError>(
                GeneratorError::ConfigurationError,
            ),
            (charset@.len() > 0 && exists|p: int|
                0 <= p < current_permutation@.len() && !alphabet_contains(
                    charset@,
                    #[trigger] current_permutation@[p],
                )) <==> r == Err::<Self, GeneratorError>(GeneratorError::ResumeMismatch),
            r matches Ok(g) ==> {
                &&& g.wf()
                &&& g.alpha() == charset@
                &&& g.digits().len() == current_permutation@.len()
                &&& forall|i: int|
                    0 <= i < g.digits().len() ==> is_first_index_of(
                        charset@,
                        current_permutation@[g.digits().len() - 1 - i],
                        #[trigger] g.digits()[i] as int,
                    )
                &&& forall|p: int|
                    0 <= p < g.word().len() ==> (#[trigger] g.word()[p]).eq_spec(
                        &current_permutation@[p],
                    )
            },
    {
        if charset.len() == 0 {
            return Err(GeneratorError::ConfigurationError);
        }
        let len: usize = current_permutation.len();
        let mut current_indexes: Vec<usize> = Vec::with_capacity(len);
        let mut i: usize = 0;
        while i < len
            invariant
                i <= len,
                len == current_permutation@.len(),
                charset@.len() >= 1,
                ElementType::obeys_eq_spec(),
                current_indexes@.len() == i,
                forall|q: int|
                    0 <= q < i ==> is_first_index_of(
                        charset@,
                        current_permutation@[len - 1 - q],
                        #[trigger] current_indexes@[q] as int,
                    ),
            decreases len - i,
        {
            match Self::find_first_index(charset, current_permutation[len - 1 - i]) {
                Some(j) => {
                    current_indexes.push(j);
                },
                None => {
                    return Err(GeneratorError::ResumeMismatch);
                },
            }
            i = i + 1;
        }
        let mut word: Vec<ElementType> = Vec::with_capacity(len);
        let mut p: usize = 0;
        while p < len
            invariant
                p <= len,
                len == current_indexes@.len(),
                charset@.len() >= 1,
                digits_in_range(current_indexes@, charset@.len()),
                word@.len() == p,
                forall|q: int|
                    0 <= q < p ==> #[trigger] word@[q] == charset@[current_indexes@[len - 1
                        - q] as int],
            decreases len - p,
        {
            let j: usize = current_indexes[len - 1 - p];
            word.push(charset[j]);
            p = p + 1;
        }
        let g = BruteForceGenerator {
            length: len,
            charset,
            current_indexes,
            current_permutation: word,
        };
        proof {
            assert(g.word() =~= word_of(g.alpha(), g.digits()));
            assert forall|q: int| 0 <= q < len implies alphabet_contains(
                charset@,
                #[trigger] current_permutation@[q],
            ) by {
                let i = len - 1 - q;
                assert(is_first_index_of(
                    charset@,
                    current_permutation@[q],
                    g.digits()[i] as int,
                ));
            }
        }
        Ok(g)
    }
}

/// Turns a buffer of ASCII bytes into owned text.
///
/// Relies on `String::from_utf8`: bytes below 0x80 are valid UTF-8 and decode
/// one byte to one identical code point, so under the precondition the call
/// cannot fail and the unwrap cannot panic.
#[verifier::external_body]
fn ascii_bytes_to_string(bytes: Vec<u8>) -> (r: String)
    requires
        forall|i: int| 0 <= i < bytes@.len() ==> bytes@[i] < 128,
    ensures
        r@ == bytes@.map_values(|b: u8| b as char),
{
    String::from_utf8(bytes).unwrap()
}

/// A bruteforcer specialized to single-byte alphabets whose output is text.
///
/// The per-candidate text-validity check is skipped: instead, construction
/// demands an alphabet of ASCII bytes, under which every emitted byte
/// sequence is valid text unconditionally.
pub struct AsciiStringBruteForceGenerator<'charset>(BruteForceGenerator<'charset, u8>);

impl<'charset> AsciiStringBruteForceGenerator<'charset> {
    /// The underlying generic enumerator.
    pub closed spec fn inner(self) -> BruteForceGenerator<'charset, u8> {
        self.0
    }

    /// Well-formedness: the inner enumerator is well-formed and its alphabet
    /// holds ASCII bytes only.
    pub open spec fn wf(self) -> bool {
        &&& self.inner().wf()
        &&& forall|i: int|
            0 <= i < self.inner().alpha().len() ==> #[trigger] self.inner().alpha()[i] < 128
    }

    /// Build a text bruteforcer running from the empty result.
    ///
    /// The caller must supply an alphabet of ASCII bytes; in return every
    /// emitted value is handed out as text with no per-candidate check.
    /// Fails exactly when the alphabet is empty.
    pub fn new(charset: &'charset [u8]) -> (r: Result<Self, GeneratorError>)
        requires
            forall|i: int| 0 <= i < charset@.len() ==> charset@[i] < 128,
        ensures
            charset@.len() == 0 <==> r == Err::<Self, GeneratorError>(
                GeneratorError::ConfigurationError,
            ),
            charset@.len() > 0 ==> (r matches Ok(g) && {
                &&& g.wf()
                &&& g.inner().alpha() == charset@
                &&& g.inner().digits() == Seq::<usize>::empty()
                &&& g.inner().word() == Seq::<u8>::empty()
            }),
    {
        match BruteForceGenerator::new(charset) {
            Ok(inner) => Ok(AsciiStringBruteForceGenerator(inner)),
            Err(e) => Err(e),
        }
    }

    /// Advance and hand out the next candidate as text: the characters of
    /// the result are exactly the bytes of the inner enumerator's next
    /// sequence. The result is always `Some`.
    pub fn next(&mut self) -> (r: Option<String>)
        requires
            old(self).wf(),
        ensures
            final(self).wf(),
            final(self).inner().alpha() == old(self).inner().alpha(),
            final(self).inner().digits() == succ_digits(
                old(self).inner().digits(),
                old(self).inner().base(),
            ),
            r matches Some(s) && s@ == final(self).inner().word().map_values(
                |b: u8| b as char,
            ),
    {
        let bytes = self.0.raw_next();
        Some(ascii_bytes_to_string(bytes))
    }
}

// The enumeration order, and why it reaches every sequence exactly once.
//
// A digit vector is read as a number in base `b`, least-significant digit
// first. One advance either increments that number by one at the same length
// or, when the number was the largest of its length, moves to zero at the
// next length: so within one length the enumerator counts, and over its
// lifetime it walks the lengths in increasing order.

/// The numeric value of a digit vector, least-significant digit first.
pub open spec fn digits_value(d: Seq<usize>, b: nat) -> nat
    decreases d.len(),
{
    if d.len() == 0 {
        0
    } else {
        (d[0] + b * digits_value(d.skip(1), b)) as nat
    }
}

/// `b` to the power `e`.
pub open spec fn pow_nat(b: nat, e: nat) -> nat
    decreases e,
{
    if e == 0 {
        1
    } else {
        b * pow_nat(b, (e - 1) as nat)
    }
}

/// The all-zero digit vector of length `l`: the counter state that spells
/// the lexicographically first sequence of length `l`.
pub open spec fn zero_digits(l: nat) -> Seq<usize> {
    Seq::new(l, |k: int| 0usize)
}

/// The digit vector after `n` advances from `d`.
pub open spec fn iter_succ(d: Seq<usize>, b: nat, n: nat) -> Seq<usize>
    decreases n,
{
    if n == 0 {
        d
    } else {
        iter_succ(succ_digits(d, b), b, (n - 1) as nat)
    }
}

/// `d1` is emitted strictly before `d2`: it is shorter, or of the same
/// length and numerically smaller.
pub open spec fn precedes(d1: Seq<usize>, d2: Seq<usize>, b: nat) -> bool {
    ||| d1.len() < d2.len()
    ||| (d1.len() == d2.len() && digits_value(d1, b) < digits_value(d2, b))
}

/// A power of a positive base is positive.
proof fn lemma_pow_pos(b: nat, e: nat)
    requires
        b >= 1,
    ensures
        pow_nat(b, e) >= 1,
    decreases e,
{
    if e > 0 {
        lemma_pow_pos(b, (e - 1) as nat);
        let p = pow_nat(b, (e - 1) as nat);
        assert(b * p >= 1) by (nonlinear_arith)
            requires
                b >= 1,
                p >= 1,
        ;
    }
}

/// The all-zero digit vector has value zero.
proof fn lemma_zero_digits_value(l: nat, b: nat)
    ensures
        digits_value(zero_digits(l), b) == 0,
        digits_in_range(zero_digits(l), b) <==> (l == 0 || b >= 1),
    decreases l,
{
    if l > 0 {
        lemma_zero_digits_value((l - 1) as nat, b);
        assert(zero_digits(l).skip(1) =~= zero_digits((l - 1) as nat));
        assert(digits_value(zero_digits(l), b) == (zero_digits(l)[0] + b * digits_value(
            zero_digits(l).skip(1),
            b,
        )) as nat);
    }
}

/// The value of an in-range digit vector is below `b ^ len`.
proof fn lemma_value_bound(d: Seq<usize>, b: nat)
    requires
        b >= 1,
        digits_in_range(d, b),
    ensures
        digits_value(d, b) < pow_nat(b, d.len()),
    decreases d.len(),
{
    if d.len() > 0 {
        lemma_value_bound(d.skip(1), b);
        let v = digits_value(d.skip(1), b);
        let p = pow_nat(b, (d.len() - 1) as nat);
        assert(d[0] + b * v < b * p) by (nonlinear_arith)
            requires
                b >= 1,
                d[0] < b,
                v < p,
        ;
    }
}

/// The successor of an in-range digit vector is in range.
proof fn lemma_succ_in_range(d: Seq<usize>, b: nat)
    requires
        b >= 1,
        digits_in_range(d, b),
    ensures
        digits_in_range(succ_digits(d, b), b),
    decreases d.len(),
{
    if d.len() == 0 || d[0] + 1 < b {
    } else {
        lemma_succ_in_range(d.skip(1), b);
    }
}

/// One advance of the counter is one increment of its value: it steps to
/// `value + 1` at the same length, except that the largest value of a length
/// overflows to the all-zero vector one digit longer.
pub proof fn lemma_succ_value(d: Seq<usize>, b: nat)
    requires
        b >= 1,
        b <= usize::MAX,
        digits_in_range(d, b),
    ensures
        digits_value(d, b) + 1 <= pow_nat(b, d.len()),
        digits_value(d, b) + 1 < pow_nat(b, d.len()) ==> succ_digits(d, b).len() == d.len()
            && digits_value(succ_digits(d, b), b) == digits_value(d, b) + 1,
        digits_value(d, b) + 1 == pow_nat(b, d.len()) ==> succ_digits(d, b) == zero_digits(
            d.len() + 1,
        ),
    decreases d.len(),
{
    lemma_value_bound(d, b);
    if d.len() == 0 {
        assert(succ_digits(d, b) =~= zero_digits(1));
        lemma_zero_digits_value(1, b);
    } else {
        let v = digits_value(d.skip(1), b);
        let p = pow_nat(b, (d.len() - 1) as nat);
        lemma_value_bound(d.skip(1), b);
        assert(digits_value(d, b) == (d[0] + b * v) as nat);
        if d[0] + 1 < b {
            let s = succ_digits(d, b);
            assert(s.skip(1) =~= d.skip(1));
            assert(s[0] == d[0] + 1);
            assert(digits_value(s, b) == (s[0] + b * digits_value(s.skip(1), b)) as nat);
            assert(d[0] + 1 + b * v < b * p) by (nonlinear_arith)
                requires
                    b >= 1,
                    d[0] + 1 < b,
                    v < p,
            ;
        } else {
            lemma_succ_value(d.skip(1), b);
            if v + 1 < p {
                let s = succ_digits(d, b);
                assert(s.skip(1) =~= succ_digits(d.skip(1), b));
                assert(s[0] == 0usize);
                assert(digits_value(s, b) == (s[0] + b * digits_value(s.skip(1), b)) as nat);
                assert(b * (v + 1) == b * v + b) by (nonlinear_arith);
                assert(b * (v + 1) < b * p) by (nonlinear_arith)
                    requires
                        b >= 1,
                        v + 1 < p,
                ;
            } else {
                let s = succ_digits(d, b);
                assert(succ_digits(d.skip(1), b) == zero_digits(d.len()));
                assert(s =~= zero_digits(d.len() + 1));
                lemma_zero_digits_value(d.len() + 1, b);
                assert(b + b * v == b * (v + 1)) by (nonlinear_arith);
            }
        }
    }
}

/// Two in-range digit vectors of the same length with the same value are the
/// same vector: together with `lemma_exhaustive_per_length`, the length-`l`
/// digit vectors are in bijection with the values `0 .. pow_nat(b, l)`.
pub proof fn lemma_value_injective(d1: Seq<usize>, d2: Seq<usize>, b: nat)
    requires
        b >= 1,
        digits_in_range(d1, b),
        digits_in_range(d2, b),
        d1.len() == d2.len(),
        digits_value(d1, b) == digits_value(d2, b),
    ensures
        d1 == d2,
    decreases d1.len(),
{
    if d1.len() == 0 {
        assert(d1 =~= d2);
    } else {
        let v1 = digits_value(d1.skip(1), b);
        let v2 = digits_value(d2.skip(1), b);
        assert(digits_value(d1, b) == (d1[0] + b * v1) as nat);
        assert(digits_value(d2, b) == (d2[0] + b * v2) as nat);
        assert(d1[0] == d2[0] && v1 == v2) by (nonlinear_arith)
            requires
                b >= 1,
                d1[0] < b,
                d2[0] < b,
                d1[0] + b * v1 == d2[0] + b * v2,
        ;
        lemma_value_injective(d1.skip(1), d2.skip(1), b);
        assert forall|i: int| 0 <= i < d1.len() implies d1[i] == d2[i] by {
            if i > 0 {
                assert(d1.skip(1)[i - 1] == d2.skip(1)[i - 1]);
            }
        }
        assert(d1 =~= d2);
    }
}

/// Peeling one advance off the back of an iterated advance.
proof fn lemma_iter_succ_back(d: Seq<usize>, b: nat, n: nat)
    requires
        n >= 1,
    ensures
        iter_succ(d, b, n) == succ_digits(iter_succ(d, b, (n - 1) as nat), b),
    decreases n,
{
    assert(iter_succ(d, b, n) == iter_succ(succ_digits(d, b), b, (n - 1) as nat));
    if n == 1 {
        assert(iter_succ(succ_digits(d, b), b, 0) == succ_digits(d, b));
        assert(iter_succ(d, b, 0) == d);
    } else {
        lemma_iter_succ_back(succ_digits(d, b), b, (n - 1) as nat);
        assert(iter_succ(d, b, (n - 1) as nat) == iter_succ(
            succ_digits(d, b),
            b,
            (n - 2) as nat,
        ));
    }
}

/// Exhaustiveness per length: starting from the all-zero digit vector of
/// length `l`, the first `pow_nat(b, l) - 1` advances stay at length `l` and
/// step the numeric value one at a time — so exactly `pow_nat(b, l)` distinct
/// vectors of length `l` appear, one per value below `pow_nat(b, l)` — and
/// advance number `pow_nat(b, l)` is the first to leave length `l`, yielding
/// the all-zero vector of length `l + 1`.
pub proof fn lemma_exhaustive_per_length(b: nat, l: nat, n: nat)
    requires
        b >= 1,
        b <= usize::MAX,
        n <= pow_nat(b, l),
    ensures
        n < pow_nat(b, l) ==> {
            &&& iter_succ(zero_digits(l), b, n).len() == l
            &&& digits_in_range(iter_succ(zero_digits(l), b, n), b)
            &&& digits_value(iter_succ(zero_digits(l), b, n), b) == n
        },
        n == pow_nat(b, l) ==> iter_succ(zero_digits(l), b, n) == zero_digits(l + 1),
    decreases n,
{
    lemma_zero_digits_value(l, b);
    lemma_pow_pos(b, l);
    if n == 0 {
    } else {
        lemma_exhaustive_per_length(b, l, (n - 1) as nat);
        let s = iter_succ(zero_digits(l), b, (n - 1) as nat);
        lemma_iter_succ_back(zero_digits(l), b, n);
        lemma_succ_value(s, b);
        lemma_succ_in_range(s, b);
        if n == pow_nat(b, l) {
            lemma_zero_digits_value(l + 1, b);
        }
    }
}

/// Every in-range digit vector of every length is reached: it is exactly the
/// state after `digits_value(d, b)` advances from the all-zero vector of its
/// length.
pub proof fn lemma_exhaustive_cover(d: Seq<usize>, b: nat)
    requires
        b >= 1,
        b <= usize::MAX,
        digits_in_range(d, b),
    ensures
        d == iter_succ(zero_digits(d.len()), b, digits_value(d, b)),
{
    lemma_value_bound(d, b);
    lemma_exhaustive_per_length(b, d.len(), digits_value(d, b));
    lemma_value_injective(d, iter_succ(zero_digits(d.len()), b, digits_value(d, b)), b);
}

/// Order determinism: the state after `n` advances, and with it the `n`-th
/// emitted sequence, is a function of the alphabet and the starting digit
/// vector alone — two enumerators started alike emit the same sequences in
/// the same order forever.
pub proof fn lemma_order_deterministic<T>(
    alpha1: Seq<T>,
    alpha2: Seq<T>,
    d1: Seq<usize>,
    d2: Seq<usize>,
    n: nat,
)
    requires
        alpha1 == alpha2,
        d1 == d2,
    ensures
        iter_succ(d1, alpha1.len(), n) == iter_succ(d2, alpha2.len(), n),
        word_of(alpha1, iter_succ(d1, alpha1.len(), n)) == word_of(
            alpha2,
            iter_succ(d2, alpha2.len(), n),
        ),
{
}

/// Monotonic length growth: one advance never shrinks the digit vector, and
/// when the length changes it grows by exactly one — which happens exactly
/// when every digit is at its maximum.
pub proof fn lemma_length_monotonic(d: Seq<usize>, b: nat)
    requires
        b >= 1,
        digits_in_range(d, b),
    ensures
        succ_digits(d, b).len() == d.len() || succ_digits(d, b).len() == d.len() + 1,
        succ_digits(d, b).len() == d.len() + 1 <==> (forall|j: int|
            0 <= j < d.len() ==> #[trigger] d[j] + 1 == b),
    decreases d.len(),
{
    if d.len() == 0 || d[0] + 1 < b {
    } else {
        lemma_length_monotonic(d.skip(1), b);
        assert(forall|j: int|
            0 <= j < d.skip(1).len() ==> #[trigger] d.skip(1)[j] == d[j + 1]);
        assert(succ_digits(d, b).len() == 1 + succ_digits(d.skip(1), b).len());
        if succ_digits(d, b).len() == d.len() + 1 {
            assert forall|j: int| 0 <= j < d.len() implies #[trigger] d[j] + 1 == b by {
                if j > 0 {
                    assert(d.skip(1)[j - 1] == d[j]);
                }
            }
        }
        if forall|j: int| 0 <= j < d.len() ==> #[trigger] d[j] + 1 == b {
            assert forall|j: int| 0 <= j < d.skip(1).len() implies #[trigger] d.skip(1)[j] + 1
                == b by {
                assert(d.skip(1)[j] == d[j + 1]);
            }
        }
    }
}

/// One advance moves strictly forward in the emission order.
proof fn lemma_succ_strictly_later(d: Seq<usize>, b: nat)
    requires
        b >= 1,
        b <= usize::MAX,
        digits_in_range(d, b),
    ensures
        precedes(d, succ_digits(d, b), b),
{
    lemma_succ_value(d, b);
    if digits_value(d, b) + 1 == pow_nat(b, d.len()) {
        lemma_zero_digits_value(d.len() + 1, b);
    }
}

/// Resume correctness, first half: once a state has been passed it never
/// comes back — every later state is strictly later in the emission order,
/// so a sequence resumed from is never emitted again.
pub proof fn lemma_never_reemitted(d: Seq<usize>, b: nat, n: nat)
    requires
        b >= 1,
        b <= usize::MAX,
        digits_in_range(d, b),
        n >= 1,
    ensures
        precedes(d, iter_succ(d, b, n), b),
        iter_succ(d, b, n) != d,
    decreases n,
{
    lemma_succ_strictly_later(d, b);
    lemma_succ_in_range(d, b);
    assert(iter_succ(d, b, n) == iter_succ(succ_digits(d, b), b, (n - 1) as nat));
    if n == 1 {
        assert(iter_succ(succ_digits(d, b), b, 0) == succ_digits(d, b));
    } else {
        lemma_never_reemitted(succ_digits(d, b), b, (n - 1) as nat);
    }
}

/// Resume correctness, second half: the advance yields the immediate
/// successor — no in-range digit vector lies strictly between a state and
/// its successor in the emission order.
pub proof fn lemma_immediate_successor(d: Seq<usize>, e: Seq<usize>, b: nat)
    requires
        b >= 1,
        b <= usize::MAX,
        digits_in_range(d, b),
        digits_in_range(e, b),
        precedes(d, e, b),
    ensures
        e == succ_digits(d, b) || precedes(succ_digits(d, b), e, b),
{
    lemma_succ_value(d, b);
    lemma_succ_in_range(d, b);
    lemma_value_bound(d, b);
    lemma_value_bound(e, b);
    let s = succ_digits(d, b);
    if digits_value(d, b) + 1 < pow_nat(b, d.len()) {
        if e.len() == d.len() && digits_value(e, b) == digits_value(s, b) {
            lemma_value_injective(e, s, b);
        }
    } else {
        lemma_zero_digits_value(d.len() + 1, b);
        if e.len() == s.len() && digits_value(e, b) == 0 {
            lemma_value_injective(e, s, b);
        }
    }
}

/// With an alphabet free of duplicate symbols, distinct digit vectors spell
/// distinct sequences — so the distinctness of the enumerated digit vectors
/// carries over to the emitted sequences themselves, and a sequence resumed
/// from is never spelled again.
pub proof fn lemma_distinct_words<T>(alpha: Seq<T>, d1: Seq<usize>, d2: Seq<usize>)
    requires
        forall|i: int, j: int| 0 <= i < j < alpha.len() ==> alpha[i] != alpha[j],
        digits_in_range(d1, alpha.len()),
        digits_in_range(d2, alpha.len()),
        d1 != d2,
    ensures
        word_of(alpha, d1) != word_of(alpha, d2),
{
    if d1.len() == d2.len() {
        if forall|i: int| 0 <= i < d1.len() ==> d1[i] == d2[i] {
            assert(d1 =~= d2);
        } else {
            let i = choose|i: int| 0 <= i < d1.len() && d1[i] != d2[i];
            let p = d1.len() - 1 - i;
            assert(word_of(alpha, d1)[p] == alpha[d1[i] as int]);
            assert(word_of(alpha, d2)[p] == alpha[d2[i] as int]);
            assert(alpha[d1[i] as int] != alpha[d2[i] as int]);
        }
    } else {
        assert(word_of(alpha, d1).len() != word_of(alpha, d2).len());
    }
}

/// Round-trip digit/sequence mapping: in every well-formed state the
/// materialized sequence buffer equals the sequence reconstructed from the
/// digit vector through the alphabet.
pub proof fn lemma_round_trip<'charset, T>(g: BruteForceGenerator<'charset, T>)
    requires
        g.wf(),
    ensures
        g.word() == word_of(g.alpha(), g.digits()),
{
}

} // verus!
