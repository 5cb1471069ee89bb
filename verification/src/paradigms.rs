//! Small language-paradigm examples: an arithmetic expression language, a
//! function that takes ownership of a string, and a service parameterised by
//! a formatting trait object.
use vstd::prelude::*;
use vstd::utf8::encode_utf8;

verus! {

/// An arithmetic expression over 64-bit integers.
#[derive(Debug)]
pub enum Expr {
    Lit(i64),
    Add(Box<Expr>, Box<Expr>),
    Mul(Box<Expr>, Box<Expr>),
}

/// The mathematical value of an expression.
pub open spec fn value(e: Expr) -> int
    decreases e,
{
    match e {
        Expr::Lit(n) => n as int,
        Expr::Add(a, b) => value(*a) + value(*b),
        Expr::Mul(a, b) => value(*a) * value(*b),
    }
}

/// The algebra of expressions: adding and multiplying commute, `0` adds
/// nothing, `1` multiplies by nothing, and multiplication distributes over
/// addition.
pub proof fn lemma_value_algebra(a: Expr, b: Expr, c: Expr)
    ensures
        value(Expr::Add(Box::new(a), Box::new(b))) == value(Expr::Add(Box::new(b), Box::new(a))),
        value(Expr::Mul(Box::new(a), Box::new(b))) == value(Expr::Mul(Box::new(b), Box::new(a))),
        value(Expr::Add(Box::new(a), Box::new(Expr::Lit(0)))) == value(a),
        value(Expr::Mul(Box::new(a), Box::new(Expr::Lit(1)))) == value(a),
        value(Expr::Mul(Box::new(a), Box::new(Expr::Add(Box::new(b), Box::new(c))))) == value(
            Expr::Add(
                Box::new(Expr::Mul(Box::new(a), Box::new(b))),
                Box::new(Expr::Mul(Box::new(a), Box::new(c))),
            ),
        ),
{
    assert(value(a) * (value(b) + value(c)) == value(a) * value(b) + value(a) * value(c))
        by (nonlinear_arith);
    assert(value(a) * value(b) == value(b) * value(a)) by (nonlinear_arith);
    assert(value(Expr::Lit(0)) == 0);
    assert(value(Expr::Lit(1)) == 1);
    assert(value(a) * 1 == value(a));
    assert(value(Expr::Add(Box::new(b), Box::new(c))) == value(b) + value(c));
    assert(value(Expr::Mul(Box::new(a), Box::new(b))) == value(a) * value(b));
    assert(value(Expr::Mul(Box::new(a), Box::new(c))) == value(a) * value(c));
}

/// Every subexpression's value fits in an `i64`, so evaluation never
/// overflows.
pub open spec fn fits(e: Expr) -> bool
    decreases e,
{
    &&& i64::MIN <= value(e) <= i64::MAX
    &&& match e {
        Expr::Lit(_) => true,
        Expr::Add(a, b) => fits(*a) && fits(*b),
        Expr::Mul(a, b) => fits(*a) && fits(*b),
    }
}

/// Evaluates an expression.
pub fn eval(e: &Expr) -> (r: i64)
    requires
        fits(*e),
    ensures
        r == value(*e),
    decreases e,
{
    match e {
        Expr::Lit(n) => *n,
        Expr::Add(a, b) => eval(a) + eval(b),
        Expr::Mul(a, b) => eval(a) * eval(b),
    }
}

/// Takes the string and returns its length in bytes.
pub fn consume(s: String) -> (r: usize)
    ensures
        r == encode_utf8(s@).len() as usize,
{
    s.as_str().len()
}

/// Something that turns a text into another text.
pub trait Formatter {
    /// What `format` returns for `s`.
    spec fn spec_format(&self, s: Seq<char>) -> Seq<char>;

    /// Formats `s`.
    fn format(&self, s: &str) -> (r: String)
        ensures
            r@ == self.spec_format(s@),
    ;
}

/// The Unicode upper case of a text, as `str::to_uppercase` gives it.
pub uninterp spec fn spec_to_uppercase(s: Seq<char>) -> Seq<char>;

/// Calls `str::to_uppercase`. Claims only that the result is
/// `spec_to_uppercase` of the text: the Unicode case mapping it follows is
/// given by tables, so it is named here rather than written out.
#[verifier::external_body]
fn to_uppercase(s: &str) -> (r: String)
    ensures
        r@ == spec_to_uppercase(s@),
{
    s.to_uppercase()
}

/// The formatter that upper-cases.
pub struct Upper;

impl Formatter for Upper {
    open spec fn spec_format(&self, s: Seq<char>) -> Seq<char> {
        spec_to_uppercase(s)
    }

    fn format(&self, s: &str) -> (r: String) {
        to_uppercase(s)
    }
}

/// Runs the service: formats `input` with `f`.
pub fn run_service(f: &dyn Formatter, input: &str) -> (r: String)
    ensures
        r@ == f.spec_format(input@),
{
    f.format(input)
}

} // verus!
