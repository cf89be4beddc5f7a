use inet_lifetimes::error::Error;
use inet_lifetimes::error::ErrorGroup;
use inet_lifetimes::globals::Component;
use inet_lifetimes::globals::Type;
use inet_lifetimes::index_vec::Idx;
use inet_lifetimes::index_vec::IndexVec;
use inet_lifetimes::scope::Scope;
use inet_lifetimes::scope::ScopeBuilder;
use inet_lifetimes::text::decimal;
use inet_lifetimes::text::quoted;
use inet_lifetimes::vars::Var;

fn text<T>(r: Result<T, Error>) -> String {
    match r {
        Ok(_) => String::from("ok"),
        Err(e) => e.to_string(),
    }
}

#[test]
fn scope_entries_have_three_states() {
    let mut scope: Scope<Type, u8> = Scope::new();
    let a = scope.push(String::from("a"), None);
    let b = scope.push(String::from("b"), Some(7));
    assert_eq!(a, Type(0));
    assert_eq!(b, Type(1));
    assert_eq!(scope.len(), Type(2));
    assert_eq!(scope.count(), 2);
    assert_eq!(text(scope.get(a)), "undefined type 'a'");
    assert_eq!(scope.get(b).ok(), Some(&7));
    assert_eq!(scope.name(a), "a");
    assert!(!scope.poisoned(a));
    scope.poison(a);
    assert!(scope.poisoned(a));
    assert_eq!(text(scope.get(a)), "previous error in type 'a'");
    assert_eq!(scope.peek(a), None);
    assert_eq!(scope.peek(b), Some(&7));
    assert_eq!(scope.peek(Type(9)), None);
    assert_eq!(*scope.at(b), 7);
    assert!(scope.is_defined(b));
    assert!(!scope.is_defined(a));
}

#[test]
fn definitions() {
    let mut scope: Scope<Component, u8> = Scope::new();
    let f = scope.push(String::from("F"), None);
    let g = scope.push(String::from("G"), None);
    assert!(scope.expect_undefined(f).is_ok());
    assert!(scope.try_define(f, 1).is_ok());
    assert_eq!(scope.get(f).ok(), Some(&1));
    assert_eq!(text(scope.expect_undefined(f)), "duplicate definition of component 'F'");
    assert_eq!(text(scope.try_define(f, 2)), "duplicate definition of component 'F'");
    assert!(scope.poisoned(f));
    assert_eq!(text(scope.try_define(f, 3)), "duplicate definition of component 'F'");
    assert_eq!(*scope.or_define(g, 4), 4);
    assert_eq!(*scope.or_define(g, 5), 4);
    *scope.or_define(g, 5) += 3;
    assert_eq!(scope.get(g).ok(), Some(&7));
    scope.replace(g, 6);
    assert_eq!(scope.iter(), vec![(g, "G", &6)]);
    if let Some(value) = scope.peek_mut(g) {
        *value = 8;
    }
    assert_eq!(scope.get(g).ok(), Some(&8));
    let copy = scope.clone();
    assert_eq!(copy.iter(), vec![(g, "G", &8)]);
    assert!(copy.poisoned(f));
}

#[test]
fn builder_hands_out_one_index_for_a_name() {
    let mut builder: ScopeBuilder<Var, u8> = ScopeBuilder::default();
    builder.ensure_empty();
    let x = builder.get("x");
    let y = builder.get("y");
    assert_eq!(x, Var(0));
    assert_eq!(y, Var(1));
    assert_eq!(builder.get("x"), x);
    assert_eq!(builder.find("y"), Some(y));
    assert_eq!(builder.find("z"), None);
    let scope = builder.finish();
    assert_eq!(scope.count(), 2);
    assert_eq!(scope.name(y), "y");
    assert_eq!(text(scope.get(x)), "undefined variable 'x'");
    builder.ensure_empty();
    assert_eq!(builder.get("y"), Var(0));
}

#[test]
fn index_vec() {
    let mut table: IndexVec<usize, u8> = IndexVec::new();
    assert_eq!(table.push(5), 0);
    assert_eq!(table.push(6), 1);
    assert_eq!(table.len(), 2);
    assert_eq!(table.get(1), Some(&6));
    assert_eq!(table.get(2), None);
    *table.get_or_extend(4) = 9;
    assert_eq!(table.values(), &vec![5, 6, 0, 0, 9]);
    assert_eq!(table.keys(), vec![0, 1, 2, 3, 4]);
    assert_eq!(table.iter(), vec![(0, &5), (1, &6), (2, &0), (3, &0), (4, &9)]);
    *table.get_or_extend(1) = 7;
    assert_eq!(table.count(), 5);
    if let Some(entry) = table.get_mut(0) {
        *entry = 1;
    }
    assert!(table.get_mut(8).is_none());
    table.set(2, 3);
    assert_eq!(*table.at(2), 3);
    table.truncate(9);
    assert_eq!(table.count(), 5);
    table.truncate(2);
    assert_eq!(table.into_vec(), vec![1, 7]);
    let other: IndexVec<Type, u8> = IndexVec::from_vec(vec![4]);
    assert_eq!(other.len(), Type(1));
    assert_eq!(usize::from_usize(3).to_usize(), 3);
    assert_eq!(Type::kind(), "type");
    assert_eq!(Component::kind(), "component");
    assert_eq!(Var::kind(), "variable");
    assert_eq!(!Type(4), Type(5));
    assert_eq!(!Type(5), Type(4));
}

#[test]
fn errors_are_trees() {
    let mut group = ErrorGroup::new();
    assert!(group.is_empty());
    assert!(group.report(String::from("nothing:")).is_ok());
    group.push(Error::msg("first"));
    assert_eq!(group.push(Ok::<u8, Error>(3)), Some(3));
    assert_eq!(group.push(Err::<u8, Error>(Error::msg("second"))), None);
    let mut inner = ErrorGroup::new();
    inner.push_error(Error::context(String::from("third:"), Error::msg("deep")));
    group.push(inner);
    assert_eq!(group.push_result(Ok::<u8, Error>(4)), Some(4));
    assert_eq!(group.len(), 3);
    let error = group.report(String::from("top:")).unwrap_err();
    assert!(group.is_empty());
    assert_eq!(error.message(), "top:");
    assert_eq!(error.causes().len(), 3);
    assert_eq!(error.causes().get(2).message(), "third:");
    assert_eq!(error.to_string(), "top:\n  first\n  second\n  third:\n    deep");
    let mut other = ErrorGroup::new();
    other.push_group(ErrorGroup::new());
    assert!(other.is_empty());
    assert_eq!(Error::new(String::from("alone")).to_string(), "alone");
}

#[test]
fn numbers_and_quotes() {
    assert_eq!(decimal(0), "0");
    assert_eq!(decimal(7), "7");
    assert_eq!(decimal(10), "10");
    assert_eq!(decimal(4096), "4096");
    assert_eq!(quoted("F"), "'F'");
}
