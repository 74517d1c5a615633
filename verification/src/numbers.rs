use vstd::prelude::*;

verus! {

/// The arithmetic of Lox numbers, which are IEEE-754 binary64 values held as
/// their bit patterns.
///
/// The operations that round (reading a literal, the four arithmetic
/// operations) and the text of a number are supplied by the embedding program
/// through this trait, which promises nothing; everything the interpreter
/// proves holds for every implementation of it. The library records each
/// answer it gets together with the call that gave it (see [`gives_number`],
/// [`gives_text`] and [`gives_parse`]), so its contracts say which question
/// each answer came from.
pub trait Numerics {
    /// The number that a numeric literal (digits, optionally followed by `.`
    /// and digits) denotes.
    fn parse(&self, text: &str) -> u64;

    /// `a + b`.
    fn sum(&self, a: u64, b: u64) -> u64;

    /// `a - b`.
    fn difference(&self, a: u64, b: u64) -> u64;

    /// `a * b`.
    fn product(&self, a: u64, b: u64) -> u64;

    /// `a / b`.
    fn quotient(&self, a: u64, b: u64) -> u64;

    /// The text of `a` as Rust's `Debug` writes an `f64` (`3.0`, `0.5`, `-1.0`).
    fn debug_text(&self, a: u64) -> String;
}

/// An arithmetic operation that rounds, done by the number backend.
#[derive(Clone, Copy, Debug, PartialEq, Eq, Structural)]
pub enum NumOp {
    Sum,
    Difference,
    Product,
    Quotient,
}

/// One answer of the number backend, with the question it answers: the
/// result of `a op b`, or the text of a number.
pub enum Answer {
    Number(NumOp, u64, u64, u64),
    Text(u64, Seq<char>),
}

/// The backend `n` can give `r` as the result of `a op b`: a call of the
/// method for `op` with `a` and `b` returned `r`.
pub open spec fn gives_number<N: Numerics>(n: &N, op: NumOp, a: u64, b: u64, r: u64) -> bool {
    match op {
        NumOp::Sum => call_ensures(N::sum, (n, a, b), r),
        NumOp::Difference => call_ensures(N::difference, (n, a, b), r),
        NumOp::Product => call_ensures(N::product, (n, a, b), r),
        NumOp::Quotient => call_ensures(N::quotient, (n, a, b), r),
    }
}

/// The backend `n` can give `text` as the text of `a`.
pub open spec fn gives_text<N: Numerics>(n: &N, a: u64, text: Seq<char>) -> bool {
    exists|s: String| s@ == text && #[trigger] call_ensures(N::debug_text, (n, a), s)
}

/// The backend `n` can give `v` as the number that the literal `text`
/// denotes.
pub open spec fn gives_parse<N: Numerics>(n: &N, text: Seq<char>, v: u64) -> bool {
    exists|s: &str| s@ == text && #[trigger] call_ensures(N::parse, (n, s), v)
}

/// The backend `n` can give the answer `a` to its question.
pub open spec fn agrees<N: Numerics>(n: &N, a: Answer) -> bool {
    match a {
        Answer::Number(op, x, y, r) => gives_number(n, op, x, y, r),
        Answer::Text(x, s) => gives_text(n, x, s),
    }
}

/// Every answer in `log` is one the backend `n` can give.
pub open spec fn answered_by<N: Numerics>(n: &N, log: Seq<Answer>) -> bool {
    forall|i: int| 0 <= i < log.len() ==> agrees(n, #[trigger] log[i])
}

pub proof fn lemma_answered_by_push<N: Numerics>(n: &N, log: Seq<Answer>, a: Answer)
    requires
        answered_by(n, log),
        agrees(n, a),
    ensures
        answered_by(n, log.push(a)),
{
    assert forall|i: int| 0 <= i < log.push(a).len() implies agrees(n, #[trigger] log.push(a)[i]) by {
        if i < log.len() {
            assert(log.push(a)[i] == log[i]);
        }
    }
}

/// A number backend together with the answers it has given so far.
pub struct Backend<'a, N: Numerics> {
    numbers: &'a N,
    log: Ghost<Seq<Answer>>,
}

impl<'a, N: Numerics> Backend<'a, N> {
    /// Every answer in the log is one the backend gave.
    #[verifier::type_invariant]
    closed spec fn answers_from_numbers(&self) -> bool {
        answered_by(self.numbers, self.log@)
    }

    /// The number backend.
    pub closed spec fn numbers(&self) -> &'a N {
        self.numbers
    }

    /// The answers given so far, oldest first.
    pub closed spec fn log(&self) -> Seq<Answer> {
        self.log@
    }

    /// A backend that has answered nothing yet.
    pub fn new(numbers: &'a N) -> (b: Self)
        ensures
            b.numbers() == numbers,
            b.log() == Seq::<Answer>::empty(),
    {
        Backend { numbers, log: Ghost(Seq::empty()) }
    }

    /// Every answer given so far is one the backend can give.
    pub fn answers_hold(&self)
        ensures
            answered_by(self.numbers(), self.log()),
    {
        proof {
            use_type_invariant(self);
        }
    }

    /// Asks for `a op b`.
    pub fn ask(&mut self, op: NumOp, a: u64, b: u64) -> (r: u64)
        ensures
            final(self).numbers() == old(self).numbers(),
            final(self).log() == old(self).log().push(Answer::Number(op, a, b, r)),
            gives_number(old(self).numbers(), op, a, b, r),
    {
        proof {
            use_type_invariant(&*self);
        }
        let r = match op {
            NumOp::Sum => self.numbers.sum(a, b),
            NumOp::Difference => self.numbers.difference(a, b),
            NumOp::Product => self.numbers.product(a, b),
            NumOp::Quotient => self.numbers.quotient(a, b),
        };
        proof {
            lemma_answered_by_push(self.numbers, self.log@, Answer::Number(op, a, b, r));
        }
        self.log = Ghost(self.log@.push(Answer::Number(op, a, b, r)));
        r
    }

    /// Asks for the text of `a`.
    pub fn text(&mut self, a: u64) -> (s: String)
        ensures
            final(self).numbers() == old(self).numbers(),
            final(self).log() == old(self).log().push(Answer::Text(a, s@)),
            gives_text(old(self).numbers(), a, s@),
    {
        proof {
            use_type_invariant(&*self);
        }
        let s = self.numbers.debug_text(a);
        proof {
            lemma_answered_by_push(self.numbers, self.log@, Answer::Text(a, s@));
        }
        self.log = Ghost(self.log@.push(Answer::Text(a, s@)));
        s
    }
}

/// Asks the backend `n` for the text of `a`.
pub fn text_of<N: Numerics>(n: &N, a: u64) -> (s: String)
    ensures
        gives_text(n, a, s@),
{
    n.debug_text(a)
}

/// Asks the backend `n` for the number that the literal `text` denotes.
pub fn parse_with<N: Numerics>(n: &N, text: &str) -> (v: u64)
    ensures
        gives_parse(n, text@, v),
{
    n.parse(text)
}

/// Whether `full` begins with `log`.
pub open spec fn extends(full: Seq<Answer>, log: Seq<Answer>) -> bool {
    log.len() <= full.len() && full.take(log.len() as int) == log
}

pub proof fn lemma_extends_trans(full: Seq<Answer>, mid: Seq<Answer>, log: Seq<Answer>)
    requires
        extends(full, mid),
        extends(mid, log),
    ensures
        extends(full, log),
{
    assert(full.take(log.len() as int) =~= mid.take(log.len() as int));
}

pub proof fn lemma_extends_refl(log: Seq<Answer>)
    ensures
        extends(log, log),
{
    assert(log.take(log.len() as int) =~= log);
}

pub proof fn lemma_extends_pushed(log: Seq<Answer>, a: Answer)
    ensures
        extends(log.push(a), log),
{
    assert(log.push(a).take(log.len() as int) =~= log);
}

pub proof fn lemma_extends_push(full: Seq<Answer>, log: Seq<Answer>, a: Answer)
    requires
        extends(full, log.push(a)),
    ensures
        extends(full, log),
        full[log.len() as int] == a,
{
    assert(full.take(log.len() as int) =~= log.push(a).take(log.len() as int));
    assert(log.push(a).take(log.len() as int) =~= log);
    assert(full.take(log.len() + 1int)[log.len() as int] == a);
}

/// The sign bit of a binary64 value.
pub const SIGN_BIT: u64 = 0x8000_0000_0000_0000;

/// Whether `a` is a NaN: all exponent bits set and a nonzero fraction.
pub open spec fn is_nan(a: u64) -> bool {
    (a & 0x7ff0_0000_0000_0000) == 0x7ff0_0000_0000_0000 && (a & 0x000f_ffff_ffff_ffff) != 0
}

/// Whether `a` is `0.0` or `-0.0`.
pub open spec fn is_zero(a: u64) -> bool {
    (a & 0x7fff_ffff_ffff_ffff) == 0
}

/// `-a`: the same value with the sign bit flipped.
pub open spec fn negated(a: u64) -> u64 {
    a ^ SIGN_BIT
}

/// A key that orders the non-NaN values as the numbers they denote, with
/// `-0.0` just below `0.0`.
pub open spec fn order_key(a: u64) -> u64 {
    if (a & SIGN_BIT) != 0 {
        !a
    } else {
        a | SIGN_BIT
    }
}

/// IEEE-754 equality: NaN equals nothing, and the two zeros are equal.
pub open spec fn num_eq(a: u64, b: u64) -> bool {
    !is_nan(a) && !is_nan(b) && (a == b || (is_zero(a) && is_zero(b)))
}

/// IEEE-754 `a < b`.
pub open spec fn num_lt(a: u64, b: u64) -> bool {
    !is_nan(a) && !is_nan(b) && !(is_zero(a) && is_zero(b)) && order_key(a) < order_key(b)
}

/// IEEE-754 `a <= b`.
pub open spec fn num_le(a: u64, b: u64) -> bool {
    num_lt(a, b) || num_eq(a, b)
}

pub fn is_zero_exec(a: u64) -> (r: bool)
    ensures
        r == is_zero(a),
{
    (a & 0x7fff_ffff_ffff_ffff) == 0
}

pub fn is_nan_exec(a: u64) -> (r: bool)
    ensures
        r == is_nan(a),
{
    (a & 0x7ff0_0000_0000_0000) == 0x7ff0_0000_0000_0000 && (a & 0x000f_ffff_ffff_ffff) != 0
}

pub fn negate(a: u64) -> (r: u64)
    ensures
        r == negated(a),
{
    a ^ SIGN_BIT
}

fn order_key_exec(a: u64) -> (r: u64)
    ensures
        r == order_key(a),
{
    if (a & SIGN_BIT) != 0 {
        !a
    } else {
        a | SIGN_BIT
    }
}

pub fn equal(a: u64, b: u64) -> (r: bool)
    ensures
        r == num_eq(a, b),
{
    !is_nan_exec(a) && !is_nan_exec(b) && (a == b || (is_zero_exec(a) && is_zero_exec(b)))
}

pub fn less(a: u64, b: u64) -> (r: bool)
    ensures
        r == num_lt(a, b),
{
    !is_nan_exec(a) && !is_nan_exec(b) && !(is_zero_exec(a) && is_zero_exec(b)) && order_key_exec(a) < order_key_exec(b)
}

pub fn less_equal(a: u64, b: u64) -> (r: bool)
    ensures
        r == num_le(a, b),
{
    less(a, b) || equal(a, b)
}

} // verus!
