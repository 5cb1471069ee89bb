use systems_lab::contracts::{parse_packet, transfer, LockFreeCounter, ParseError, TransferError};
use systems_lab::paradigms::{consume, eval, run_service, Expr, Upper};
use systems_lab::stlc::{check, infer, ty_clone, ty_eq, Ctx, Tm, Ty as STy};
use systems_lab::unify::{unify_simple, Ty};

#[test]
fn parse_packet_accepts_and_refuses() {
    assert_eq!(parse_packet(b"CS\x01\x03abc"), Ok(&b"abc"[..]));
    assert_eq!(parse_packet(b"CS\x09\x01z"), Err(ParseError::BadVersion));
    assert_eq!(parse_packet(b"CS\x01"), Err(ParseError::TooShort));
    assert_eq!(parse_packet(b"XS\x01\x00"), Err(ParseError::BadMagic));
    assert_eq!(parse_packet(b"CS\x01\x05ab"), Err(ParseError::LengthMismatch));
    assert_eq!(parse_packet(b"CS\x03\x00"), Ok(&b""[..]));
}

#[test]
fn transfer_conserves_and_refuses() {
    assert_eq!(transfer(100, 20, 30), Ok((70, 50)));
    assert_eq!(transfer(100, 20, 0), Err(TransferError::NonPositiveAmount));
    assert_eq!(transfer(100, 20, -5), Err(TransferError::NonPositiveAmount));
    assert_eq!(transfer(10, 20, 30), Err(TransferError::InsufficientFunds));
    assert_eq!(transfer(30, 0, 30), Ok((0, 30)));
}

#[test]
fn lock_free_counter_is_monotonic() {
    let mut c = LockFreeCounter::new();
    let mut last = c.get();
    for _ in 0..1000 {
        let now = c.inc();
        assert!(now >= last);
        last = now;
    }
    assert_eq!(c.get(), 1000);
}

#[test]
fn unify_reports_first_clash() {
    let ok = Ty::Arr(Box::new(Ty::Int), Box::new(Ty::Bool));
    let bad = Ty::Arr(Box::new(Ty::Bool), Box::new(Ty::Int));
    assert_eq!(unify_simple(&ok, &ok), Ok(()));
    assert_eq!(unify_simple(&ok, &bad), Err("cannot unify Int with Bool".to_string()));
    assert_eq!(unify_simple(&Ty::Var("a"), &bad), Ok(()));
    assert_eq!(unify_simple(&bad, &Ty::Var("b")), Ok(()));
    assert_eq!(
        unify_simple(&Ty::Int, &ok),
        Err("cannot unify Int with Arr(Int, Bool)".to_string())
    );
}

#[test]
fn expression_evaluation() {
    let p = Expr::Mul(
        Box::new(Expr::Add(Box::new(Expr::Lit(2)), Box::new(Expr::Lit(3)))),
        Box::new(Expr::Lit(4)),
    );
    assert_eq!(eval(&p), 20);
    assert_eq!(eval(&Expr::Lit(-7)), -7);
}

#[test]
fn consume_counts_bytes() {
    assert_eq!(consume(String::from("owned")), 5);
    assert_eq!(consume(String::from("\u{e9}")), 2);
    assert_eq!(consume(String::new()), 0);
}

#[test]
fn trait_object_service() {
    assert_eq!(run_service(&Upper, "trait composition"), "TRAIT COMPOSITION");
    assert_eq!(run_service(&Upper, "stra\u{df}e"), "STRASSE");
}

fn bool_to_bool() -> STy {
    STy::Arr(Box::new(STy::Bool), Box::new(STy::Bool))
}

#[test]
fn bidirectional_checker_examples() {
    let id = Tm::Ann(Box::new(Tm::Lam("x", Box::new(Tm::V("x")))), bool_to_bool());
    let app = Tm::App(Box::new(id), Box::new(Tm::True));
    assert_eq!(infer(&Ctx::new(), &app), Ok(STy::Bool));
    assert_eq!(infer(&Ctx::new(), &Tm::V("y")), Err("unbound: y".to_string()));
    assert_eq!(
        infer(&Ctx::new(), &Tm::App(Box::new(Tm::True), Box::new(Tm::True))),
        Err("apply non-function".to_string())
    );
    assert_eq!(
        infer(&Ctx::new(), &Tm::Lam("x", Box::new(Tm::V("x")))),
        Err("lambda needs expected type".to_string())
    );
    assert_eq!(
        check(&Ctx::new(), &Tm::True, &bool_to_bool()),
        Err("expected Arr(Bool, Bool), got Bool".to_string())
    );
    let mut ctx = Ctx::new();
    ctx.insert("f", bool_to_bool());
    assert_eq!(infer(&ctx, &Tm::V("f")), Ok(bool_to_bool()));
    assert_eq!(ctx.get("f"), Some(bool_to_bool()));
    assert_eq!(ctx.get("g"), None);
    let copy = ctx.copy();
    assert_eq!(copy.get("f"), Some(bool_to_bool()));
    assert!(ty_eq(&ty_clone(&bool_to_bool()), &bool_to_bool()));
    assert!(!ty_eq(&STy::Bool, &bool_to_bool()));
}

#[test]
fn synthesised_types_check() {
    let id = Tm::Ann(Box::new(Tm::Lam("x", Box::new(Tm::V("x")))), bool_to_bool());
    let app = Tm::App(Box::new(id), Box::new(Tm::True));
    let ty = infer(&Ctx::new(), &app).expect("synthesises");
    assert_eq!(check(&Ctx::new(), &app, &ty), Ok(()));
    let mut ctx = Ctx::new();
    ctx.insert("f", bool_to_bool());
    let fty = infer(&ctx, &Tm::V("f")).expect("bound");
    assert_eq!(check(&ctx, &Tm::V("f"), &fty), Ok(()));
}
