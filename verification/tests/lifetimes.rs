use inet_lifetimes::lifetimes::Lifetime;
use inet_lifetimes::lifetimes::LifetimeCtx;
use inet_lifetimes::lifetimes::LifetimeInfo;
use inet_lifetimes::lifetimes::Side;
use inet_lifetimes::order::Order;
use inet_lifetimes::order::Relation;

fn named(ctx: &mut LifetimeCtx, name: &str, side: Side, max: Option<usize>, min: Option<usize>) -> Lifetime {
    ctx.lifetimes.push(
        String::from(name),
        Some(LifetimeInfo { side, max: max.map(Lifetime), min: min.map(Lifetime) }),
    )
}

fn four(max_c: Option<usize>, min_d: Option<usize>) -> LifetimeCtx {
    let mut ctx = LifetimeCtx::default();
    named(&mut ctx, "'a", Side::External, None, None);
    named(&mut ctx, "'b", Side::External, None, None);
    named(&mut ctx, "'c", Side::External, max_c, None);
    named(&mut ctx, "'d", Side::External, None, min_d);
    ctx
}

const A: Lifetime = Lifetime(0);
const B: Lifetime = Lifetime(1);
const C: Lifetime = Lifetime(2);
const D: Lifetime = Lifetime(3);

#[test]
fn obligation_without_bounds_is_reported() {
    let mut ctx = four(None, None);
    ctx.ex_order.relate(A, B, Relation::LT);
    ctx.in_order.relate(C, D, Relation::LE);
    let error = ctx.check_satisfiable(Some(Side::Internal), &ctx.ex_order, &ctx.in_order).unwrap_err();
    assert_eq!(
        error.to_string(),
        "satisfying internal obligations is impossible without more external guarantees:\n  'c ≤ 'd\n  we know:\n    'a < 'b\n  we need:\n    'c ≤ 'd"
    );
}

#[test]
fn guarantees_around_the_obligation_do_not_discharge_it() {
    let mut ctx = LifetimeCtx::default();
    named(&mut ctx, "'a", Side::External, None, None);
    named(&mut ctx, "'b", Side::External, None, None);
    named(&mut ctx, "'c", Side::External, None, Some(0));
    named(&mut ctx, "'d", Side::External, Some(1), None);
    ctx.ex_order.relate(A, B, Relation::LT);
    ctx.ex_order.relate(A, C, Relation::LE);
    ctx.ex_order.relate(D, B, Relation::LE);
    ctx.in_order.relate(C, D, Relation::LE);
    let error = ctx.check_satisfiable(Some(Side::Internal), &ctx.ex_order, &ctx.in_order).unwrap_err();
    assert_eq!(error.message(), "satisfying internal obligations is impossible without more external guarantees:");
    assert_eq!(error.causes().get(0).message(), "'c ≤ 'd");
}

#[test]
fn bounds_discharge_the_obligation() {
    let mut ctx = four(Some(0), Some(1));
    ctx.ex_order.relate(A, B, Relation::LE);
    ctx.in_order.relate(C, D, Relation::LE);
    assert!(ctx.check_satisfiable(Some(Side::Internal), &ctx.ex_order, &ctx.in_order).is_ok());
}

#[test]
fn bounds_that_would_need_a_cycle_are_rejected() {
    let mut ctx = four(Some(1), Some(0));
    ctx.ex_order.relate(A, B, Relation::LT);
    ctx.in_order.relate(C, D, Relation::LE);
    let error = ctx.check_satisfiable(Some(Side::Internal), &ctx.ex_order, &ctx.in_order).unwrap_err();
    assert_eq!(error.message(), "satisfying internal obligations would require incoherent constraints:");
    assert_eq!(error.causes().len(), 1);
}

#[test]
fn discharge_relaxes_by_bounds() {
    let mut ctx = four(Some(0), None);
    ctx.ex_order.relate(A, B, Relation::LE);
    let residual = vec![(C, D, Relation::LT), (A, B, Relation::LE)];
    let outcome = ctx.discharge(&residual, &ctx.ex_order);
    assert!(outcome.changed);
    assert_eq!(outcome.new_knows.get(A, D), Some(Relation::LT));
    assert_eq!(outcome.new_knows.get(A, B), Some(Relation::LE));
    assert_eq!(outcome.problems.get(A, B), Some(Relation::LE));
    assert_eq!(outcome.problems.get(C, D), None);
}

#[test]
fn obligations_among_omitted_lifetimes_are_dropped() {
    let mut ctx = LifetimeCtx::default();
    named(&mut ctx, "'a", Side::External, None, None);
    named(&mut ctx, "'x", Side::Internal, None, None);
    named(&mut ctx, "'b", Side::External, None, None);
    ctx.in_order.relate(Lifetime(0), Lifetime(1), Relation::LE);
    ctx.in_order.relate(Lifetime(1), Lifetime(2), Relation::LT);
    let error = ctx.check_satisfiable(Some(Side::Internal), &ctx.ex_order, &ctx.in_order).unwrap_err();
    assert_eq!(error.causes().get(0).message(), "'a < 'b");
    ctx.ex_order.relate(Lifetime(0), Lifetime(2), Relation::LT);
    assert!(ctx.check_satisfiable(Some(Side::Internal), &ctx.ex_order, &ctx.in_order).is_ok());
}

#[test]
fn cycle_in_obligations_is_reported() {
    let mut ctx = four(None, None);
    ctx.in_order.relate(A, B, Relation::LT);
    ctx.in_order.relate(B, A, Relation::LE);
    let error = ctx.check_satisfiable(None, &ctx.ex_order, &ctx.in_order).unwrap_err();
    assert_eq!(
        error.to_string(),
        "satisfying internal obligations would require incoherent constraints:\n  'a < 'b < 'a"
    );
    let mut longer = four(None, None);
    longer.in_order.relate(A, B, Relation::LT);
    longer.in_order.relate(B, C, Relation::LE);
    longer.in_order.relate(C, A, Relation::LE);
    let error = longer.check_satisfiable(None, &longer.ex_order, &longer.in_order).unwrap_err();
    assert_eq!(
        error.to_string(),
        "satisfying internal obligations would require incoherent constraints:\n  'a < 'b ≤ 'c ≤ 'a"
    );
}

#[test]
fn populate_bounds_finds_the_nearest_bounds() {
    let mut ctx = LifetimeCtx::default();
    let a = ctx.intro(String::from("'a"), Side::External);
    let x = ctx.intro(String::from("'x"), Side::Internal);
    let y = ctx.intro(String::from("'y"), Side::Internal);
    let b = ctx.intro(String::from("'b"), Side::External);
    ctx.in_order.relate(a, x, Relation::LE);
    ctx.in_order.relate(x, y, Relation::LE);
    ctx.in_order.relate(y, b, Relation::LE);
    assert_eq!(ctx.populate_bounds(Side::Internal), Ok(()));
    let info = |lt: Lifetime| *ctx.lifetimes.get(lt).ok().unwrap();
    assert_eq!(info(x).min, Some(a));
    assert_eq!(info(x).max, Some(b));
    assert_eq!(info(y).min, Some(a));
    assert_eq!(info(y).max, Some(b));
    assert_eq!(info(a).min, None);
    assert_eq!(info(a).max, None);
}

#[test]
fn strict_bound_is_rejected() {
    let mut ctx = LifetimeCtx::default();
    let a = ctx.intro(String::from("'a"), Side::External);
    let x = ctx.intro(String::from("'x"), Side::Internal);
    ctx.in_order.relate(x, a, Relation::LT);
    assert_eq!(
        ctx.populate_bounds(Side::Internal),
        Err(String::from(
            "internal lifetime ''x''s external upper bound is related with '<', not '<='\n  rewrite the contract so that it uses '<='\n  (this is a temporary limitation of the checker)"
        ))
    );
}

#[test]
fn several_bounds_are_rejected() {
    let mut ctx = LifetimeCtx::default();
    let a = ctx.intro(String::from("'a"), Side::External);
    let b = ctx.intro(String::from("'b"), Side::External);
    let x = ctx.intro(String::from("'x"), Side::Internal);
    ctx.in_order.relate(a, x, Relation::LE);
    ctx.in_order.relate(b, x, Relation::LE);
    assert_eq!(
        ctx.populate_bounds(Side::Internal),
        Err(String::from(
            "internal lifetime ''x' has multiple external lower bounds\n  rewrite the contract so there is only one\n  (this is a temporary limitation of the checker)"
        ))
    );
}

#[test]
fn contract_with_a_cycle_is_impossible() {
    let mut ctx = LifetimeCtx::default();
    let a = ctx.intro(String::from("'a"), Side::External);
    ctx.ex_order.relate(a, a, Relation::LT);
    let error = ctx.check_contract_satisfiable().unwrap_err();
    assert_eq!(error.to_string(), "impossible external constraints:\n  'a < 'a");
    let mut fine = LifetimeCtx::default();
    let a = fine.intro(String::from("'a"), Side::External);
    let b = fine.intro(String::from("'b"), Side::External);
    fine.ex_order.relate(a, b, Relation::LT);
    assert!(fine.check_contract_satisfiable().is_ok());
}

#[test]
fn import_renames_moves_and_inverts() {
    let mut from = LifetimeCtx::default();
    let a = from.intro(String::from("'a"), Side::External);
    let x = from.intro(String::from("'x"), Side::Internal);
    from.ex_order.relate(a, x, Relation::LE);
    from.in_order.relate(x, a, Relation::LT);
    from.lifetimes.poison(x);
    from.lifetimes = {
        let mut scope = inet_lifetimes::scope::Scope::new();
        scope.push(String::from("'a"), Some(LifetimeInfo { side: Side::External, max: Some(x), min: None }));
        scope.push(String::from("'x"), Some(LifetimeInfo { side: Side::Internal, max: None, min: Some(a) }));
        scope
    };
    let mut ctx = LifetimeCtx::default();
    ctx.intro(String::from("'z"), Side::External);
    let base = ctx.import(&from, true, "F.");
    assert_eq!(base, Lifetime(1));
    assert_eq!(ctx.show_lt(Lifetime(1)), "'F.a");
    assert_eq!(ctx.show_lt(Lifetime(2)), "'F.x");
    let first = *ctx.lifetimes.get(Lifetime(1)).ok().unwrap();
    assert_eq!(first, LifetimeInfo { side: Side::Internal, max: Some(Lifetime(2)), min: None });
    let second = *ctx.lifetimes.get(Lifetime(2)).ok().unwrap();
    assert_eq!(second, LifetimeInfo { side: Side::External, max: None, min: Some(Lifetime(1)) });
    assert_eq!(ctx.in_order.get(Lifetime(1), Lifetime(2)), Some(Relation::LE));
    assert_eq!(ctx.ex_order.get(Lifetime(2), Lifetime(1)), Some(Relation::LT));
    let plain: Order<Lifetime> = Order::new();
    assert_eq!(plain.len(), 0);
}

#[test]
fn sides() {
    assert_eq!(!Side::External, Side::Internal);
    assert_eq!(!Side::Internal, Side::External);
    assert_eq!(Side::External.flip(true), Side::Internal);
    assert_eq!(Side::External.flip(false), Side::External);
    assert_eq!(Side::External.name(), "external");
    assert_eq!(Side::Internal.name(), "internal");
    assert_eq!(Lifetime(3).offset(Lifetime(4)), Lifetime(7));
}

#[test]
fn a_composed_bound_that_is_strict_is_rejected() {
    let mut ctx = LifetimeCtx::default();
    let x = ctx.intro(String::from("'x"), Side::Internal);
    let y = ctx.intro(String::from("'y"), Side::Internal);
    let e = ctx.intro(String::from("'e"), Side::External);
    ctx.in_order.relate(x, y, Relation::LT);
    ctx.in_order.relate(y, e, Relation::LE);
    assert_eq!(
        ctx.populate_bounds(Side::Internal),
        Err(String::from(
            "internal lifetime ''x''s external upper bound is related with '<', not '<='\n  rewrite the contract so that it uses '<='\n  (this is a temporary limitation of the checker)"
        ))
    );
}

#[test]
fn a_cycle_over_several_lifetimes_is_impossible() {
    let mut ctx = LifetimeCtx::default();
    let a = ctx.intro(String::from("'a"), Side::External);
    let b = ctx.intro(String::from("'b"), Side::External);
    let c = ctx.intro(String::from("'c"), Side::External);
    let d = ctx.intro(String::from("'d"), Side::External);
    ctx.ex_order.relate(a, b, Relation::LE);
    ctx.ex_order.relate(b, c, Relation::LE);
    ctx.ex_order.relate(c, a, Relation::LE);
    ctx.ex_order.relate(a, d, Relation::LT);
    ctx.ex_order.relate(d, c, Relation::LE);
    let error = ctx.check_contract_satisfiable().unwrap_err();
    assert!(error.to_string().starts_with("impossible external constraints:\n"), "{}", error.to_string());
    let mut equal = LifetimeCtx::default();
    let a = equal.intro(String::from("'a"), Side::External);
    let b = equal.intro(String::from("'b"), Side::External);
    equal.ex_order.relate(a, b, Relation::LE);
    equal.ex_order.relate(b, a, Relation::LE);
    assert!(equal.check_contract_satisfiable().is_ok());
}
