//! A bidirectional type checker for the simply typed lambda calculus with
//! booleans and type annotations.
//!
//! `infer` synthesises a type for variables, `true`, applications and
//! annotated terms; `check` checks a lambda against a function type and
//! falls back to inference for everything else.
use vstd::prelude::*;
use crate::text::{join2, join3, str_eq};

verus! {

/// Types: booleans and functions.
#[derive(Debug, PartialEq, Eq)]
pub enum Ty {
    Bool,
    Arr(Box<Ty>, Box<Ty>),
}

/// Terms: variables, lambdas, applications, annotations and `true`.
#[derive(Debug)]
pub enum Tm {
    V(&'static str),
    Lam(&'static str, Box<Tm>),
    App(Box<Tm>, Box<Tm>),
    Ann(Box<Tm>, Ty),
    True,
}

/// A copy of a type.
pub fn ty_clone(t: &Ty) -> (r: Ty)
    ensures
        r == *t,
    decreases t,
{
    match t {
        Ty::Bool => Ty::Bool,
        Ty::Arr(i, o) => Ty::Arr(Box::new(ty_clone(i)), Box::new(ty_clone(o))),
    }
}

/// Whether two types are the same.
pub fn ty_eq(a: &Ty, b: &Ty) -> (r: bool)
    ensures
        r == (*a == *b),
    decreases a,
{
    match a {
        Ty::Bool => match b {
            Ty::Bool => true,
            _ => false,
        },
        Ty::Arr(a1, a2) => match b {
            Ty::Arr(b1, b2) => ty_eq(a1, b1) && ty_eq(a2, b2),
            _ => false,
        },
    }
}

/// The type bound to `name` by the newest binding in `entries`.
pub open spec fn lookup(entries: Seq<(&'static str, Ty)>, name: Seq<char>) -> Option<Ty>
    decreases entries.len(),
{
    if entries.len() == 0 {
        None
    } else if entries.last().0@ == name {
        Some(entries.last().1)
    } else {
        lookup(entries.drop_last(), name)
    }
}

/// A typing context: variable names bound to types, a newer binding of a
/// name hiding older ones.
pub struct Ctx {
    entries: Vec<(&'static str, Ty)>,
}

impl View for Ctx {
    type V = Map<Seq<char>, Ty>;

    closed spec fn view(&self) -> Map<Seq<char>, Ty> {
        Map::new(
            |n: Seq<char>| lookup(self.entries@, n) is Some,
            |n: Seq<char>| lookup(self.entries@, n)->Some_0,
        )
    }
}

impl Ctx {
    /// The empty context.
    pub fn new() -> (r: Self)
        ensures
            r@ == Map::<Seq<char>, Ty>::empty(),
    {
        let r = Ctx { entries: Vec::new() };
        assert(r@ =~= Map::<Seq<char>, Ty>::empty());
        r
    }

    /// Binds `x` to `t`, replacing any binding of `x`.
    pub fn insert(&mut self, x: &'static str, t: Ty)
        ensures
            final(self)@ == old(self)@.insert(x@, t),
    {
        let ghost before = self.entries@;
        self.entries.push((x, t));
        assert(self.entries@.drop_last() =~= before);
        assert(self@ =~= old(self)@.insert(x@, t));
    }

    /// The type bound to `x`, if any.
    pub fn get(&self, x: &str) -> (r: Option<Ty>)
        ensures
            r == (if self@.contains_key(x@) {
                Some(self@[x@])
            } else {
                None::<Ty>
            }),
    {
        let mut i: usize = self.entries.len();
        assert(self.entries@.take(i as int) =~= self.entries@);
        while i > 0
            invariant
                i <= self.entries@.len(),
                lookup(self.entries@, x@) == lookup(self.entries@.take(i as int), x@),
            decreases i,
        {
            let name = self.entries[i - 1].0;
            let ghost pre = self.entries@.take(i as int);
            assert(pre.drop_last() =~= self.entries@.take(i - 1));
            if str_eq(name, x) {
                return Some(ty_clone(&self.entries[i - 1].1));
            }
            i = i - 1;
        }
        None
    }

    /// A copy of the context.
    pub fn copy(&self) -> (r: Ctx)
        ensures
            r@ == self@,
    {
        let mut entries: Vec<(&'static str, Ty)> = Vec::with_capacity(self.entries.len());
        let mut i: usize = 0;
        while i < self.entries.len()
            invariant
                i <= self.entries@.len(),
                entries@ == self.entries@.take(i as int),
            decreases self.entries@.len() - i,
        {
            let (n, t) = &self.entries[i];
            entries.push((*n, ty_clone(t)));
            assert(entries@ =~= self.entries@.take(i + 1));
            i = i + 1;
        }
        assert(entries@ =~= self.entries@);
        Ctx { entries }
    }
}

/// The message for an unbound variable: `unbound: ` and the name.
pub open spec fn unbound_message(name: Seq<char>) -> Seq<char> {
    "unbound: "@ + name
}

/// How a type is written in messages: `Bool`, or `Arr(` the argument type,
/// `, `, the result type and `)`.
pub open spec fn ty_text(t: Ty) -> Seq<char>
    decreases t,
{
    match t {
        Ty::Bool => "Bool"@,
        Ty::Arr(i, o) => "Arr("@ + ty_text(*i) + ", "@ + ty_text(*o) + ")"@,
    }
}

/// The message for a type mismatch: `expected `, the expected type, `, got `
/// and the type found.
pub open spec fn mismatch_message(expected: Ty, got: Ty) -> Seq<char> {
    "expected "@ + ty_text(expected) + ", got "@ + ty_text(got)
}

/// Writes a type as `ty_text` gives it.
fn render_ty(t: &Ty) -> (r: String)
    ensures
        r@ == ty_text(*t),
    decreases t,
{
    match t {
        Ty::Bool => "Bool".to_owned(),
        Ty::Arr(i, o) => {
            let a = render_ty(i);
            let b = render_ty(o);
            let head = join3("Arr(", a.as_str(), ", ");
            join3(head.as_str(), b.as_str(), ")")
        },
    }
}

fn unbound(name: &str) -> (r: String)
    ensures
        r@ == unbound_message(name@),
{
    join2("unbound: ", name)
}

fn mismatch(expected: &Ty, got: &Ty) -> (r: String)
    ensures
        r@ == mismatch_message(*expected, *got),
{
    let e = render_ty(expected);
    let g = render_ty(got);
    let head = join3("expected ", e.as_str(), ", got ");
    join2(head.as_str(), g.as_str())
}

/// The message for applying something that is not a function.
pub open spec fn not_function_message() -> Seq<char> {
    "apply non-function"@
}

/// The message for a lambda met where a type must be synthesised.
pub open spec fn needs_type_message() -> Seq<char> {
    "lambda needs expected type"@
}

/// The type synthesised for `tm` in `ctx`, or the first error met.
pub open spec fn infer_spec(ctx: Map<Seq<char>, Ty>, tm: Tm) -> Result<Ty, Seq<char>>
    decreases tm, 0nat,
{
    match tm {
        Tm::V(x) => if ctx.contains_key(x@) {
            Ok(ctx[x@])
        } else {
            Err(unbound_message(x@))
        },
        Tm::True => Ok(Ty::Bool),
        Tm::Ann(t, ty) => match check_spec(ctx, *t, ty) {
            Err(e) => Err(e),
            Ok(_) => Ok(ty),
        },
        Tm::App(f, a) => match infer_spec(ctx, *f) {
            Err(e) => Err(e),
            Ok(Ty::Arr(i, o)) => match check_spec(ctx, *a, *i) {
                Err(e) => Err(e),
                Ok(_) => Ok(*o),
            },
            Ok(_) => Err(not_function_message()),
        },
        Tm::Lam(_, _) => Err(needs_type_message()),
    }
}

/// Whether `tm` checks against `ty` in `ctx`, or the first error met.
pub open spec fn check_spec(ctx: Map<Seq<char>, Ty>, tm: Tm, ty: Ty) -> Result<(), Seq<char>>
    decreases tm, 1nat,
{
    match (tm, ty) {
        (Tm::Lam(x, body), Ty::Arr(i, o)) => check_spec(ctx.insert(x@, *i), *body, *o),
        _ => match infer_spec(ctx, tm) {
            Err(e) => Err(e),
            Ok(it) => if it == ty {
                Ok(())
            } else {
                Err(mismatch_message(ty, it))
            },
        },
    }
}

/// A term checks against every type synthesised for it.
pub proof fn lemma_synthesised_type_checks(ctx: Map<Seq<char>, Ty>, tm: Tm, ty: Ty)
    requires
        infer_spec(ctx, tm) == Ok::<Ty, Seq<char>>(ty),
    ensures
        check_spec(ctx, tm, ty) == Ok::<(), Seq<char>>(()),
{
    assert(tm !is Lam);
}

/// A variable's synthesised type is the type the context binds it to, and
/// an unbound variable is an error.
pub proof fn lemma_infer_var(ctx: Map<Seq<char>, Ty>, x: &'static str, t: Ty)
    ensures
        (infer_spec(ctx, Tm::V(x)) == Ok::<Ty, Seq<char>>(t)) == (ctx.contains_key(x@) && ctx[x@]
            == t),
        !ctx.contains_key(x@) ==> infer_spec(ctx, Tm::V(x)) is Err,
{
}

/// `true` synthesises `Bool` in every context, and a bare lambda
/// synthesises nothing.
pub proof fn lemma_infer_true_and_lambda(ctx: Map<Seq<char>, Ty>, x: &'static str, body: Tm)
    ensures
        infer_spec(ctx, Tm::True) == Ok::<Ty, Seq<char>>(Ty::Bool),
        infer_spec(ctx, Tm::Lam(x, Box::new(body))) is Err,
{
}

/// An annotated term synthesises exactly its annotation, and does so
/// precisely when the term checks against the annotation.
pub proof fn lemma_infer_annotation(ctx: Map<Seq<char>, Ty>, e: Tm, ty: Ty, t: Ty)
    ensures
        infer_spec(ctx, Tm::Ann(Box::new(e), ty)) == Ok::<Ty, Seq<char>>(t) ==> t == ty,
        (infer_spec(ctx, Tm::Ann(Box::new(e), ty)) is Ok) == (check_spec(ctx, e, ty) is Ok),
{
}

/// Application: when the function synthesises `Arr(i, o)` and the argument
/// checks against `i`, the application synthesises the result type `o`.
pub proof fn lemma_infer_app(ctx: Map<Seq<char>, Ty>, f: Tm, a: Tm, i: Ty, o: Ty)
    requires
        infer_spec(ctx, f) == Ok::<Ty, Seq<char>>(Ty::Arr(Box::new(i), Box::new(o))),
        check_spec(ctx, a, i) is Ok,
    ensures
        infer_spec(ctx, Tm::App(Box::new(f), Box::new(a))) == Ok::<Ty, Seq<char>>(o),
{
}

/// Conversely, an application that synthesises `t` applies a function whose
/// type is an arrow ending in `t`, to an argument that checks against that
/// arrow's argument type.
pub proof fn lemma_app_inversion(ctx: Map<Seq<char>, Ty>, f: Tm, a: Tm, t: Ty)
    requires
        infer_spec(ctx, Tm::App(Box::new(f), Box::new(a))) == Ok::<Ty, Seq<char>>(t),
    ensures
        exists|i: Ty|
            infer_spec(ctx, f) == Ok::<Ty, Seq<char>>(Ty::Arr(Box::new(i), Box::new(t)))
                && #[trigger] check_spec(ctx, a, i) is Ok,
{
    match infer_spec(ctx, f) {
        Ok(Ty::Arr(i, o)) => {
            assert(infer_spec(ctx, f) == Ok::<Ty, Seq<char>>(Ty::Arr(Box::new(*i), Box::new(t))));
            assert(check_spec(ctx, a, *i) is Ok);
        },
        _ => {},
    }
}

/// Applying something whose type is not an arrow is an error.
pub proof fn lemma_app_of_non_function(ctx: Map<Seq<char>, Ty>, f: Tm, a: Tm)
    requires
        infer_spec(ctx, f) == Ok::<Ty, Seq<char>>(Ty::Bool),
    ensures
        infer_spec(ctx, Tm::App(Box::new(f), Box::new(a))) is Err,
{
}

/// A lambda checks against `Arr(i, o)` exactly when its body checks against
/// `o` with the parameter bound to `i`, and never checks against `Bool`.
pub proof fn lemma_check_lambda(
    ctx: Map<Seq<char>, Ty>,
    x: &'static str,
    body: Tm,
    i: Ty,
    o: Ty,
)
    ensures
        (check_spec(ctx, Tm::Lam(x, Box::new(body)), Ty::Arr(Box::new(i), Box::new(o))) is Ok)
            == (check_spec(ctx.insert(x@, i), body, o) is Ok),
        check_spec(ctx, Tm::Lam(x, Box::new(body)), Ty::Bool) is Err,
{
    assert(infer_spec(ctx, Tm::Lam(x, Box::new(body))) is Err);
}

/// Every term but a lambda checks against a type exactly when it
/// synthesises that very type.
pub proof fn lemma_check_by_synthesis(ctx: Map<Seq<char>, Ty>, tm: Tm, ty: Ty)
    requires
        tm !is Lam,
    ensures
        (check_spec(ctx, tm, ty) is Ok) == (infer_spec(ctx, tm) == Ok::<Ty, Seq<char>>(ty)),
{
}

/// Synthesises the type of `tm` in `ctx`.
pub fn infer(ctx: &Ctx, tm: &Tm) -> (r: Result<Ty, String>)
    ensures
        match (r, infer_spec(ctx@, *tm)) {
            (Ok(t), Ok(u)) => t == u,
            (Err(m), Err(n)) => m@ == n,
            _ => false,
        },
    decreases tm, 0nat,
{
    match tm {
        Tm::V(x) => match ctx.get(x) {
            Some(t) => Ok(t),
            None => Err(unbound(x)),
        },
        Tm::True => Ok(Ty::Bool),
        Tm::Ann(t, ty) => match check(ctx, t, ty) {
            Err(e) => Err(e),
            Ok(()) => Ok(ty_clone(ty)),
        },
        Tm::App(f, a) => match infer(ctx, f) {
            Err(e) => Err(e),
            Ok(Ty::Arr(i, o)) => match check(ctx, a, &i) {
                Err(e) => Err(e),
                Ok(()) => Ok(*o),
            },
            Ok(_) => {
                proof {
                    reveal_strlit("apply non-function");
                }
                Err("apply non-function".to_owned())
            },
        },
        Tm::Lam(_, _) => {
            proof {
                reveal_strlit("lambda needs expected type");
            }
            Err("lambda needs expected type".to_owned())
        },
    }
}

/// Checks `tm` against `ty` in `ctx`.
pub fn check(ctx: &Ctx, tm: &Tm, ty: &Ty) -> (r: Result<(), String>)
    ensures
        match (r, check_spec(ctx@, *tm, *ty)) {
            (Ok(_), Ok(_)) => true,
            (Err(m), Err(n)) => m@ == n,
            _ => false,
        },
    decreases tm, 1nat,
{
    match (tm, ty) {
        (Tm::Lam(x, body), Ty::Arr(i, o)) => {
            let mut c = ctx.copy();
            c.insert(x, ty_clone(i));
            check(&c, body, o)
        },
        _ => {
            let it = match infer(ctx, tm) {
                Err(e) => {
                    return Err(e);
                },
                Ok(t) => t,
            };
            if ty_eq(&it, ty) {
                Ok(())
            } else {
                Err(mismatch(ty, &it))
            }
        },
    }
}

} // verus!
