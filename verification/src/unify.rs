//! Structural unification of simple types, where a type variable unifies
//! with anything.
use vstd::prelude::*;
use crate::text::{debug_str, join2, join3, str_debug};

verus! {

/// A simple type: integers, booleans, named variables and functions.
#[derive(Debug, PartialEq, Eq)]
pub enum Ty {
    Int,
    Bool,
    Var(&'static str),
    Arr(Box<Ty>, Box<Ty>),
}

/// The first pair of subterms, left to right, that do not unify; `None`
/// when the two types unify.
pub open spec fn mismatch(a: Ty, b: Ty) -> Option<(Ty, Ty)>
    decreases a,
{
    match a {
        Ty::Var(_) => None,
        Ty::Int => match b {
            Ty::Int => None,
            Ty::Var(_) => None,
            _ => Some((a, b)),
        },
        Ty::Bool => match b {
            Ty::Bool => None,
            Ty::Var(_) => None,
            _ => Some((a, b)),
        },
        Ty::Arr(a1, a2) => match b {
            Ty::Var(_) => None,
            Ty::Arr(b1, b2) => match mismatch(*a1, *b1) {
                Some(p) => Some(p),
                None => mismatch(*a2, *b2),
            },
            _ => Some((a, b)),
        },
    }
}

/// How a type is written in messages: `Int`, `Bool`, `Var(` the quoted
/// name `)`, or `Arr(` the argument type, `, `, the result type and `)`.
pub open spec fn ty_text(t: Ty) -> Seq<char>
    decreases t,
{
    match t {
        Ty::Int => "Int"@,
        Ty::Bool => "Bool"@,
        Ty::Var(n) => "Var("@ + str_debug(n@) + ")"@,
        Ty::Arr(i, o) => "Arr("@ + ty_text(*i) + ", "@ + ty_text(*o) + ")"@,
    }
}

/// The message `cannot unify `, the first type, ` with ` and the second.
pub open spec fn unify_message(a: Ty, b: Ty) -> Seq<char> {
    "cannot unify "@ + ty_text(a) + " with "@ + ty_text(b)
}

/// Writes a type as `ty_text` gives it.
fn render_ty(t: &Ty) -> (r: String)
    ensures
        r@ == ty_text(*t),
    decreases t,
{
    match t {
        Ty::Int => "Int".to_owned(),
        Ty::Bool => "Bool".to_owned(),
        Ty::Var(n) => {
            let quoted = debug_str(n);
            join3("Var(", quoted.as_str(), ")")
        },
        Ty::Arr(i, o) => {
            let a = render_ty(i);
            let b = render_ty(o);
            let head = join3("Arr(", a.as_str(), ", ");
            join3(head.as_str(), b.as_str(), ")")
        },
    }
}

fn cannot_unify(a: &Ty, b: &Ty) -> (r: String)
    ensures
        r@ == unify_message(*a, *b),
{
    let x = render_ty(a);
    let y = render_ty(b);
    let head = join3("cannot unify ", x.as_str(), " with ");
    join2(head.as_str(), y.as_str())
}

/// Unifies `a` with `b`, or names the first pair of subterms that clash.
pub fn unify_simple(a: &Ty, b: &Ty) -> (r: Result<(), String>)
    ensures
        match mismatch(*a, *b) {
            None => r is Ok,
            Some(p) => r matches Err(m) && m@ == unify_message(p.0, p.1),
        },
    decreases a,
{
    match a {
        Ty::Var(_) => Ok(()),
        Ty::Int => match b {
            Ty::Int => Ok(()),
            Ty::Var(_) => Ok(()),
            _ => Err(cannot_unify(a, b)),
        },
        Ty::Bool => match b {
            Ty::Bool => Ok(()),
            Ty::Var(_) => Ok(()),
            _ => Err(cannot_unify(a, b)),
        },
        Ty::Arr(a1, a2) => match b {
            Ty::Var(_) => Ok(()),
            Ty::Arr(b1, b2) => {
                match unify_simple(a1, b1) {
                    Err(e) => Err(e),
                    Ok(()) => unify_simple(a2, b2),
                }
            },
            _ => Err(cannot_unify(a, b)),
        },
    }
}

/// Whether two types clash at their outermost constructor: neither is a
/// variable and they are built differently (`Int`, `Bool` or an arrow).
pub open spec fn heads_clash(a: Ty, b: Ty) -> bool {
    &&& a !is Var
    &&& b !is Var
    &&& !(a is Int && b is Int)
    &&& !(a is Bool && b is Bool)
    &&& !(a is Arr && b is Arr)
}

/// A type variable unifies with every type, on either side.
pub proof fn lemma_var_unifies(n: &'static str, t: Ty)
    ensures
        mismatch(Ty::Var(n), t) is None,
        mismatch(t, Ty::Var(n)) is None,
{
}

/// Two types whose outermost constructors differ (neither a variable) do
/// not unify, and that pair is the one reported: `Int` never unifies with
/// `Bool`, nor a base type with an arrow.
pub proof fn lemma_head_clash(a: Ty, b: Ty)
    requires
        heads_clash(a, b),
    ensures
        mismatch(a, b) == Some((a, b)),
{
}

/// Two arrow types unify exactly when their argument types unify and their
/// result types unify; a clash in the argument types is the one reported
/// first, and otherwise the result types' clash is.
pub proof fn lemma_arrows_unify(a1: Ty, a2: Ty, b1: Ty, b2: Ty)
    ensures
        (mismatch(Ty::Arr(Box::new(a1), Box::new(a2)), Ty::Arr(Box::new(b1), Box::new(b2))) is None)
            == (mismatch(a1, b1) is None && mismatch(a2, b2) is None),
        mismatch(a1, b1) is Some ==> mismatch(
            Ty::Arr(Box::new(a1), Box::new(a2)),
            Ty::Arr(Box::new(b1), Box::new(b2)),
        ) == mismatch(a1, b1),
        mismatch(a1, b1) is None ==> mismatch(
            Ty::Arr(Box::new(a1), Box::new(a2)),
            Ty::Arr(Box::new(b1), Box::new(b2)),
        ) == mismatch(a2, b2),
{
}

/// A reported pair always clashes at its outermost constructors.
pub proof fn lemma_reported_pair_clashes(a: Ty, b: Ty)
    requires
        mismatch(a, b) is Some,
    ensures
        heads_clash(mismatch(a, b)->Some_0.0, mismatch(a, b)->Some_0.1),
    decreases a,
{
    match (a, b) {
        (Ty::Arr(a1, a2), Ty::Arr(b1, b2)) => {
            if mismatch(*a1, *b1) is Some {
                lemma_reported_pair_clashes(*a1, *b1);
            } else {
                lemma_reported_pair_clashes(*a2, *b2);
            }
        },
        _ => {},
    }
}

/// Every type unifies with itself.
pub proof fn lemma_unify_reflexive(a: Ty)
    ensures
        mismatch(a, a) is None,
    decreases a,
{
    match a {
        Ty::Arr(a1, a2) => {
            lemma_unify_reflexive(*a1);
            lemma_unify_reflexive(*a2);
        },
        _ => {},
    }
}

/// Unifiability is symmetric.
pub proof fn lemma_unify_symmetric(a: Ty, b: Ty)
    ensures
        (mismatch(a, b) is None) == (mismatch(b, a) is None),
    decreases a,
{
    match a {
        Ty::Arr(a1, a2) => match b {
            Ty::Arr(b1, b2) => {
                lemma_unify_symmetric(*a1, *b1);
                lemma_unify_symmetric(*a2, *b2);
            },
            _ => {},
        },
        _ => {},
    }
}

} // verus!
