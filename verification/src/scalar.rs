//! The arithmetic that the kernels compute with.
//!
//! A kernel is written once, over any type that implements [`Scalar`]: a machine
//! float runs it, a [`crate::term::Term`] records what it computes. A comparison
//! gives a condition, not a `bool`, so that a kernel never branches on data: it
//! selects, as a thread of a simdgroup does.
use vstd::prelude::*;

verus! {

/// Functions of one argument.
#[derive(Clone, Copy, PartialEq, Eq, Structural, Debug)]
pub enum Fun {
    Neg,
    Exp,
    Exp2,
    Log,
    Log2,
    Sqrt,
    Rsqrt,
    Sin,
    Cos,
    Floor,
    Silu,
    Gelu,
    Sigmoid,
}

/// Functions of two arguments.
#[derive(Clone, Copy, PartialEq, Eq, Structural, Debug)]
pub enum Op {
    Add,
    Sub,
    Mul,
    Div,
    Max,
    Min,
}

/// Comparisons.
#[derive(Clone, Copy, PartialEq, Eq, Structural, Debug)]
pub enum Rel {
    Less,
    AtLeast,
}

/// A value that kernels accumulate in.
///
/// Each executable method returns what the specification function beside it
/// says, and nothing else is known of either: what holds of a kernel holds
/// whatever the rounding is.
pub trait Scalar: Sized {
    /// What a comparison gives.
    type Cond;

    /// An index that may depend on data.
    type Index;

    /// `num / den`.
    spec fn rational(num: i64, den: u64) -> Self;

    /// `n`.
    spec fn natural(n: u32) -> Self;

    /// Negative infinity.
    spec fn lowest() -> Self;

    /// Not a number.
    spec fn undefined() -> Self;

    spec fn applied(f: Fun, a: Self) -> Self;

    spec fn combined(op: Op, a: Self, b: Self) -> Self;

    spec fn related(rel: Rel, a: Self, b: Self) -> Self::Cond;

    spec fn certain() -> Self::Cond;

    spec fn conjoined(c: Self::Cond, d: Self::Cond) -> Self::Cond;

    spec fn negated(c: Self::Cond) -> Self::Cond;

    /// `a` where `c` holds, else `b`.
    spec fn chosen(c: Self::Cond, a: Self, b: Self) -> Self;

    spec fn position(i: u32) -> Self::Index;

    /// `i` where `c` holds, else `j`.
    spec fn chosen_index(c: Self::Cond, i: Self::Index, j: Self::Index) -> Self::Index;

    /// An index as a number.
    spec fn of_index(i: Self::Index) -> Self;

    /// A number cut to an index.
    spec fn to_index(a: Self) -> Self::Index;

    /// The number that an index is, where it is known.
    spec fn resolved(i: Self::Index) -> Option<u32>;

    fn dup(&self) -> (r: Self)
        ensures
            r == *self,
    ;

    fn ratio(num: i64, den: u64) -> (r: Self)
        requires
            den > 0,
        ensures
            r == Self::rational(num, den),
    ;

    fn from_u32(n: u32) -> (r: Self)
        ensures
            r == Self::natural(n),
    ;

    fn neg_infinity() -> (r: Self)
        ensures
            r == Self::lowest(),
    ;

    fn nan() -> (r: Self)
        ensures
            r == Self::undefined(),
    ;

    fn apply(f: Fun, a: &Self) -> (r: Self)
        ensures
            r == Self::applied(f, *a),
    ;

    fn combine(op: Op, a: &Self, b: &Self) -> (r: Self)
        ensures
            r == Self::combined(op, *a, *b),
    ;

    fn relate(rel: Rel, a: &Self, b: &Self) -> (r: Self::Cond)
        ensures
            r == Self::related(rel, *a, *b),
    ;

    fn always() -> (r: Self::Cond)
        ensures
            r == Self::certain(),
    ;

    fn both(c: &Self::Cond, d: &Self::Cond) -> (r: Self::Cond)
        ensures
            r == Self::conjoined(*c, *d),
    ;

    fn not(c: &Self::Cond) -> (r: Self::Cond)
        ensures
            r == Self::negated(*c),
    ;

    fn select(c: &Self::Cond, a: &Self, b: &Self) -> (r: Self)
        ensures
            r == Self::chosen(*c, *a, *b),
    ;

    fn index(i: u32) -> (r: Self::Index)
        ensures
            r == Self::position(i),
    ;

    fn select_index(c: &Self::Cond, i: &Self::Index, j: &Self::Index) -> (r: Self::Index)
        ensures
            r == Self::chosen_index(*c, *i, *j),
    ;

    fn index_value(i: &Self::Index) -> (r: Self)
        ensures
            r == Self::of_index(*i),
    ;

    fn trunc(a: &Self) -> (r: Self::Index)
        ensures
            r == Self::to_index(*a),
    ;

    fn resolve(i: &Self::Index) -> (r: Option<u32>)
        ensures
            r == Self::resolved(*i),
    ;
}

/// A value that buffers hold: it is widened when it is read and narrowed when it
/// is written.
pub trait Element<S: Scalar>: Sized {
    spec fn widened(self) -> S;

    spec fn narrowed(a: S) -> Self;

    /// What a cooperative matrix tile reads back of a value that was stored in it.
    spec fn staged(a: S) -> S;

    fn widen(&self) -> (r: S)
        ensures
            r == self.widened(),
    ;

    fn narrow(a: &S) -> (r: Self)
        ensures
            r == Self::narrowed(*a),
    ;

    fn stage(a: &S) -> (r: S)
        ensures
            r == Self::staged(*a),
    ;

    fn copied(&self) -> (r: Self)
        ensures
            r == *self,
    ;
}

/// A scalar is stored as it is.
impl<S: Scalar> Element<S> for S {
    open spec fn widened(self) -> S {
        self
    }

    open spec fn narrowed(a: S) -> S {
        a
    }

    open spec fn staged(a: S) -> S {
        a
    }

    fn widen(&self) -> (r: S) {
        self.dup()
    }

    fn narrow(a: &S) -> (r: S) {
        a.dup()
    }

    fn stage(a: &S) -> (r: S) {
        a.dup()
    }

    fn copied(&self) -> (r: S) {
        self.dup()
    }
}

#[verifier::inline]
pub open spec fn plus<S: Scalar>(a: S, b: S) -> S {
    S::combined(Op::Add, a, b)
}

#[verifier::inline]
pub open spec fn minus<S: Scalar>(a: S, b: S) -> S {
    S::combined(Op::Sub, a, b)
}

#[verifier::inline]
pub open spec fn times<S: Scalar>(a: S, b: S) -> S {
    S::combined(Op::Mul, a, b)
}

#[verifier::inline]
pub open spec fn over<S: Scalar>(a: S, b: S) -> S {
    S::combined(Op::Div, a, b)
}

#[verifier::inline]
pub open spec fn zero<S: Scalar>() -> S {
    S::rational(0, 1)
}

#[verifier::inline]
pub open spec fn one<S: Scalar>() -> S {
    S::rational(1, 1)
}

/// `a > b`, as a condition.
#[verifier::inline]
pub open spec fn above<S: Scalar>(a: S, b: S) -> S::Cond {
    S::related(Rel::Less, b, a)
}

#[verifier::inline]
pub open spec fn below<S: Scalar>(a: S, b: S) -> S::Cond {
    S::related(Rel::Less, a, b)
}

pub fn s_add<S: Scalar>(a: &S, b: &S) -> (r: S)
    ensures
        r == plus(*a, *b),
{
    S::combine(Op::Add, a, b)
}

pub fn s_sub<S: Scalar>(a: &S, b: &S) -> (r: S)
    ensures
        r == minus(*a, *b),
{
    S::combine(Op::Sub, a, b)
}

pub fn s_mul<S: Scalar>(a: &S, b: &S) -> (r: S)
    ensures
        r == times(*a, *b),
{
    S::combine(Op::Mul, a, b)
}

pub fn s_div<S: Scalar>(a: &S, b: &S) -> (r: S)
    ensures
        r == over(*a, *b),
{
    S::combine(Op::Div, a, b)
}

pub fn s_zero<S: Scalar>() -> (r: S)
    ensures
        r == zero::<S>(),
{
    S::ratio(0, 1)
}

pub fn s_one<S: Scalar>() -> (r: S)
    ensures
        r == one::<S>(),
{
    S::ratio(1, 1)
}

pub fn s_gt<S: Scalar>(a: &S, b: &S) -> (r: S::Cond)
    ensures
        r == above(*a, *b),
{
    S::relate(Rel::Less, b, a)
}

pub fn s_lt<S: Scalar>(a: &S, b: &S) -> (r: S::Cond)
    ensures
        r == below(*a, *b),
{
    S::relate(Rel::Less, a, b)
}

} // verus!
