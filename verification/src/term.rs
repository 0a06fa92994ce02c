//! Arithmetic on terms: a kernel that runs on [`Term`]s hands back, for each
//! output, the expression that it computes.
use vstd::prelude::*;

use crate::dtype::Dt;
use crate::scalar::{Element, Fun, Op, Rel, Scalar};

verus! {

/// An expression over the inputs of a kernel.
pub enum Term {
    Rational(i64, u64),
    Natural(u32),
    Lowest,
    Undefined,
    /// The value of an input.
    Input(u32),
    Fun(Fun, Box<Term>),
    Op(Op, Box<Term>, Box<Term>),
    Choice(Box<Test>, Box<Term>, Box<Term>),
    OfSlot(Box<Slot>),
    /// A value after it was stored as a type.
    Rounded(Dt, Box<Term>),
}

/// A condition on terms.
pub enum Test {
    Rel(Rel, Box<Term>, Box<Term>),
    Certain,
    Both(Box<Test>, Box<Test>),
    Not(Box<Test>),
}

/// An index that terms decide.
pub enum Slot {
    Fixed(u32),
    Choice(Box<Test>, Box<Slot>, Box<Slot>),
    Cut(Box<Term>),
}

fn copy_term(t: &Term) -> (r: Term)
    ensures
        r == *t,
    decreases *t,
{
    match t {
        Term::Rational(n, d) => Term::Rational(*n, *d),
        Term::Natural(n) => Term::Natural(*n),
        Term::Lowest => Term::Lowest,
        Term::Undefined => Term::Undefined,
        Term::Input(i) => Term::Input(*i),
        Term::Fun(f, a) => Term::Fun(*f, Box::new(copy_term(a))),
        Term::Op(op, a, b) => Term::Op(*op, Box::new(copy_term(a)), Box::new(copy_term(b))),
        Term::Choice(c, a, b) => Term::Choice(
            Box::new(copy_test(c)),
            Box::new(copy_term(a)),
            Box::new(copy_term(b)),
        ),
        Term::OfSlot(i) => Term::OfSlot(Box::new(copy_slot(i))),
        Term::Rounded(dt, a) => Term::Rounded(*dt, Box::new(copy_term(a))),
    }
}

fn copy_test(t: &Test) -> (r: Test)
    ensures
        r == *t,
    decreases *t,
{
    match t {
        Test::Rel(rel, a, b) => Test::Rel(*rel, Box::new(copy_term(a)), Box::new(copy_term(b))),
        Test::Certain => Test::Certain,
        Test::Both(c, d) => Test::Both(Box::new(copy_test(c)), Box::new(copy_test(d))),
        Test::Not(c) => Test::Not(Box::new(copy_test(c))),
    }
}

fn copy_slot(s: &Slot) -> (r: Slot)
    ensures
        r == *s,
    decreases *s,
{
    match s {
        Slot::Fixed(i) => Slot::Fixed(*i),
        Slot::Choice(c, i, j) => Slot::Choice(
            Box::new(copy_test(c)),
            Box::new(copy_slot(i)),
            Box::new(copy_slot(j)),
        ),
        Slot::Cut(a) => Slot::Cut(Box::new(copy_term(a))),
    }
}

impl Scalar for Term {
    type Cond = Test;

    type Index = Slot;

    open spec fn rational(num: i64, den: u64) -> Term {
        Term::Rational(num, den)
    }

    open spec fn natural(n: u32) -> Term {
        Term::Natural(n)
    }

    open spec fn lowest() -> Term {
        Term::Lowest
    }

    open spec fn undefined() -> Term {
        Term::Undefined
    }

    open spec fn applied(f: Fun, a: Term) -> Term {
        Term::Fun(f, Box::new(a))
    }

    open spec fn combined(op: Op, a: Term, b: Term) -> Term {
        Term::Op(op, Box::new(a), Box::new(b))
    }

    open spec fn related(rel: Rel, a: Term, b: Term) -> Test {
        Test::Rel(rel, Box::new(a), Box::new(b))
    }

    open spec fn certain() -> Test {
        Test::Certain
    }

    open spec fn conjoined(c: Test, d: Test) -> Test {
        Test::Both(Box::new(c), Box::new(d))
    }

    open spec fn negated(c: Test) -> Test {
        Test::Not(Box::new(c))
    }

    open spec fn chosen(c: Test, a: Term, b: Term) -> Term {
        Term::Choice(Box::new(c), Box::new(a), Box::new(b))
    }

    open spec fn position(i: u32) -> Slot {
        Slot::Fixed(i)
    }

    open spec fn chosen_index(c: Test, i: Slot, j: Slot) -> Slot {
        Slot::Choice(Box::new(c), Box::new(i), Box::new(j))
    }

    open spec fn of_index(i: Slot) -> Term {
        Term::OfSlot(Box::new(i))
    }

    open spec fn to_index(a: Term) -> Slot {
        Slot::Cut(Box::new(a))
    }

    /// Only an index that no term decides is known.
    open spec fn resolved(i: Slot) -> Option<u32> {
        match i {
            Slot::Fixed(n) => Some(n),
            _ => None,
        }
    }

    fn dup(&self) -> (r: Term) {
        copy_term(self)
    }

    fn ratio(num: i64, den: u64) -> (r: Term) {
        Term::Rational(num, den)
    }

    fn from_u32(n: u32) -> (r: Term) {
        Term::Natural(n)
    }

    fn neg_infinity() -> (r: Term) {
        Term::Lowest
    }

    fn nan() -> (r: Term) {
        Term::Undefined
    }

    fn apply(f: Fun, a: &Term) -> (r: Term) {
        Term::Fun(f, Box::new(copy_term(a)))
    }

    fn combine(op: Op, a: &Term, b: &Term) -> (r: Term) {
        Term::Op(op, Box::new(copy_term(a)), Box::new(copy_term(b)))
    }

    fn relate(rel: Rel, a: &Term, b: &Term) -> (r: Test) {
        Test::Rel(rel, Box::new(copy_term(a)), Box::new(copy_term(b)))
    }

    fn always() -> (r: Test) {
        Test::Certain
    }

    fn both(c: &Test, d: &Test) -> (r: Test) {
        Test::Both(Box::new(copy_test(c)), Box::new(copy_test(d)))
    }

    fn not(c: &Test) -> (r: Test) {
        Test::Not(Box::new(copy_test(c)))
    }

    fn select(c: &Test, a: &Term, b: &Term) -> (r: Term) {
        Term::Choice(Box::new(copy_test(c)), Box::new(copy_term(a)), Box::new(copy_term(b)))
    }

    fn index(i: u32) -> (r: Slot) {
        Slot::Fixed(i)
    }

    fn select_index(c: &Test, i: &Slot, j: &Slot) -> (r: Slot) {
        Slot::Choice(Box::new(copy_test(c)), Box::new(copy_slot(i)), Box::new(copy_slot(j)))
    }

    fn index_value(i: &Slot) -> (r: Term) {
        Term::OfSlot(Box::new(copy_slot(i)))
    }

    fn trunc(a: &Term) -> (r: Slot) {
        Slot::Cut(Box::new(copy_term(a)))
    }

    fn resolve(i: &Slot) -> (r: Option<u32>) {
        match i {
            Slot::Fixed(n) => Some(*n),
            _ => None,
        }
    }
}

/// A term that a half-precision buffer holds.
pub struct HalfTerm {
    pub value: Term,
}

impl Element<Term> for HalfTerm {
    open spec fn widened(self) -> Term {
        self.value
    }

    open spec fn narrowed(a: Term) -> HalfTerm {
        HalfTerm { value: Term::Rounded(Dt::F16, Box::new(a)) }
    }

    open spec fn staged(a: Term) -> Term {
        Term::Rounded(Dt::F16.staged(), Box::new(a))
    }

    fn widen(&self) -> (r: Term) {
        copy_term(&self.value)
    }

    fn narrow(a: &Term) -> (r: HalfTerm) {
        HalfTerm { value: Term::Rounded(Dt::F16, Box::new(copy_term(a))) }
    }

    fn stage(a: &Term) -> (r: Term) {
        Term::Rounded(Dt::F16.coop_stage(), Box::new(copy_term(a)))
    }

    fn copied(&self) -> (r: HalfTerm) {
        HalfTerm { value: copy_term(&self.value) }
    }
}

/// A term that a bfloat buffer holds.
pub struct BrainTerm {
    pub value: Term,
}

impl Element<Term> for BrainTerm {
    open spec fn widened(self) -> Term {
        self.value
    }

    open spec fn narrowed(a: Term) -> BrainTerm {
        BrainTerm { value: Term::Rounded(Dt::Bf16, Box::new(a)) }
    }

    open spec fn staged(a: Term) -> Term {
        Term::Rounded(Dt::Bf16.staged(), Box::new(a))
    }

    fn widen(&self) -> (r: Term) {
        copy_term(&self.value)
    }

    fn narrow(a: &Term) -> (r: BrainTerm) {
        BrainTerm { value: Term::Rounded(Dt::Bf16, Box::new(copy_term(a))) }
    }

    fn stage(a: &Term) -> (r: Term) {
        Term::Rounded(Dt::Bf16.coop_stage(), Box::new(copy_term(a)))
    }

    fn copied(&self) -> (r: BrainTerm) {
        BrainTerm { value: copy_term(&self.value) }
    }
}

/// A term records each operation with its operands in order.
pub proof fn law_terms_record_their_parts(
    f: Fun,
    op: Op,
    rel: Rel,
    a: Term,
    b: Term,
    c: Test,
    i: Slot,
    j: Slot,
    num: i64,
    den: u64,
    n: u32,
)
    ensures
        <Term as Scalar>::rational(num, den) == Term::Rational(num, den),
        <Term as Scalar>::natural(n) == Term::Natural(n),
        <Term as Scalar>::applied(f, a) == Term::Fun(f, Box::new(a)),
        <Term as Scalar>::combined(op, a, b) == Term::Op(op, Box::new(a), Box::new(b)),
        <Term as Scalar>::related(rel, a, b) == Test::Rel(rel, Box::new(a), Box::new(b)),
        <Term as Scalar>::chosen(c, a, b) == Term::Choice(
            Box::new(c),
            Box::new(a),
            Box::new(b),
        ),
        <Term as Scalar>::chosen_index(c, i, j) == Slot::Choice(
            Box::new(c),
            Box::new(i),
            Box::new(j),
        ),
        <Term as Scalar>::resolved(<Term as Scalar>::position(n)) == Some(n),
{
}

/// A stored term records the type that it was stored as: half precision and bfloat buffers
/// round to their own type, and both are staged in half precision.
pub proof fn law_stored_terms_record_their_type(a: Term)
    ensures
        <HalfTerm as Element<Term>>::narrowed(a).widened() == Term::Rounded(
            Dt::F16,
            Box::new(a),
        ),
        <BrainTerm as Element<Term>>::narrowed(a).widened() == Term::Rounded(
            Dt::Bf16,
            Box::new(a),
        ),
        <HalfTerm as Element<Term>>::staged(a) == Term::Rounded(Dt::F16, Box::new(a)),
        <BrainTerm as Element<Term>>::staged(a) == Term::Rounded(Dt::F16, Box::new(a)),
{
}

} // verus!
