use inet_lifetimes::check_program;
use inet_lifetimes::globals::Component;
use inet_lifetimes::globals::GlobalCtx;
use inet_lifetimes::globals::Polarity;
use inet_lifetimes::globals::PortLabel;
use inet_lifetimes::globals::Type;
use inet_lifetimes::globals::TypeInfo;
use inet_lifetimes::lifetimes::LifetimeCtx;
use inet_lifetimes::lifetimes::Side;
use inet_lifetimes::order::Relation;
use inet_lifetimes::parser::parse;
use inet_lifetimes::program::AgentDef;
use inet_lifetimes::program::Node;
use inet_lifetimes::program::Program;
use inet_lifetimes::program::TypeDef;
use inet_lifetimes::globals::dual_of;
use inet_lifetimes::vars::Var;
use inet_lifetimes::vars::VarCtx;

fn globals_with_type(polarity: Polarity) -> GlobalCtx {
    let mut globals = GlobalCtx::default();
    globals.types.push(String::from("!a"), None);
    globals.types.push(String::from("a"), None);
    globals.components.push(String::from("F"), None);
    let def = TypeDef { id: Type(1), polarity };
    assert!(def.define(&mut globals).is_ok());
    globals
}

#[test]
fn type_definitions_define_both_polarities() {
    let mut globals = globals_with_type(Polarity::Neg);
    assert_eq!(globals.types.get(Type(1)).ok(), Some(&TypeInfo { polarity: Polarity::Neg }));
    assert_eq!(globals.types.get(Type(0)).ok(), Some(&TypeInfo { polarity: Polarity::Pos }));
    let again = TypeDef { id: Type(1), polarity: Polarity::Pos };
    assert_eq!(again.define(&mut globals).unwrap_err().to_string(), "duplicate definition of type 'a'");
    assert!(globals.types.poisoned(Type(1)));
    assert!(!globals.types.poisoned(Type(0)));
    let dual = TypeDef { id: Type(0), polarity: Polarity::Pos };
    assert_eq!(dual.define(&mut globals).unwrap_err().to_string(), "duplicate definition of type '!a'");
    assert_eq!(dual_of(Type(6)), Type(7));
    assert_eq!(dual_of(Type(7)), Type(6));
}

fn agent(relation: Option<Relation>) -> AgentDef {
    let mut lt_ctx = LifetimeCtx::default();
    let a = lt_ctx.intro(String::from("'a"), Side::External);
    let b = lt_ctx.intro(String::from("'b"), Side::External);
    if let Some(rel) = relation {
        lt_ctx.ex_order.relate(a, b, rel);
    }
    AgentDef { id: Component(0), lt_ctx, ports: vec![PortLabel(Type(1), a), PortLabel(Type(0), b)] }
}

#[test]
fn agents_are_defined_once_and_checked() {
    let mut globals = globals_with_type(Polarity::Pos);
    let mut first = agent(Some(Relation::GT));
    assert!(first.define(&mut globals).is_ok());
    assert_eq!(globals.components.get(Component(0)).ok().unwrap().ports, first.ports);
    assert!(first.check(&mut globals).is_ok());
    let mut second = agent(None);
    let error = second.define(&mut globals).unwrap_err();
    assert_eq!(error.to_string(), "in agent 'F':\n  duplicate definition of component 'F'");
    assert!(globals.components.poisoned(Component(0)));
    let error = second.check(&mut globals).unwrap_err();
    assert_eq!(error.message(), "in agent 'F':");
    assert_eq!(
        error.causes().get(0).message(),
        "satisfying internal obligations is impossible without more external guarantees:"
    );
    assert_eq!(error.causes().get(0).causes().get(0).message(), "'b < 'a");
}

#[test]
fn node_arity_is_checked() {
    let mut globals = globals_with_type(Polarity::Pos);
    assert!(agent(Some(Relation::GT)).define(&mut globals).is_ok());
    let mut vars = VarCtx::default();
    let x = vars.vars.push(String::from("x"), Some(Default::default()));
    let y = vars.vars.push(String::from("y"), Some(Default::default()));
    let good = Node { component: Component(0), ports: vec![x, y] };
    let pairs = vars.check_node_arity(&good, &globals).ok().unwrap();
    assert_eq!(pairs, vec![(x, PortLabel(Type(1), inet_lifetimes::lifetimes::Lifetime(0))), (y, PortLabel(Type(0), inet_lifetimes::lifetimes::Lifetime(1)))]);
    let bad = Node { component: Component(0), ports: vec![x] };
    let error = vars.check_node_arity(&bad, &globals).unwrap_err();
    assert_eq!(error.to_string(), "'F' expects 2 ports but 1 were supplied");
    assert!(vars.vars.poisoned(x));
    assert!(!vars.vars.poisoned(y));
    vars.record_use(x, PortLabel(Type(0), inet_lifetimes::lifetimes::Lifetime(0)));
    vars.record_use(y, PortLabel(Type(0), inet_lifetimes::lifetimes::Lifetime(0)));
    assert_eq!(vars.vars.get(y).ok().unwrap().uses.len(), 1);
    assert_eq!(vars.vars.get(Var(1)).ok().unwrap().uses[0], PortLabel(Type(0), inet_lifetimes::lifetimes::Lifetime(0)));
}

#[test]
fn variables_must_join_two_dual_ports() {
    let source = "type a : -\ntype b : -\nagent ['x] A(a 'x, a 'x)\nagent ['x] B(!a 'x, b 'x)\n";
    let twice = format!("{}rule A(p, q) B(p, q) {{ A(q, q) }}\n", source);
    let message = inet_lifetimes::check(&twice).unwrap_err();
    assert!(message.contains("'q': used more than twice"), "{}", message);
    let mismatch = format!("{}rule A(p, q) B(p, q) {{ }}\n", source);
    let message = inet_lifetimes::check(&mismatch).unwrap_err();
    assert!(message.contains("'q': mismatched types '!a' and '!b'"), "{}", message);
    let arity = format!("{}rule A(p) B(p, q) {{ }}\n", source);
    let message = inet_lifetimes::check(&arity).unwrap_err();
    assert!(message.contains("'A' expects 2 ports but 1 were supplied"), "{}", message);
    assert!(message.contains("'q': used only once"), "{}", message);
    let undefined = format!("{}rule A(p, q) C(p, q) {{ }}\n", source);
    let message = inet_lifetimes::check(&undefined).unwrap_err();
    assert!(message.contains("in rule 'A-C':\n    undefined component 'C'"), "{}", message);
}

#[test]
fn failed_agents_poison_their_component() {
    let source = "type a : +\nagent ['x < 'x] A(a 'x)\nagent ['y] B(!a 'y)\nrule A(p) B(p) { }\n";
    let message = inet_lifetimes::check(source).unwrap_err();
    assert!(message.contains("in agent 'A':\n    impossible external constraints:\n      'x < 'x"), "{}", message);
    assert!(message.contains("in rule 'A-B':\n    previous error in component 'A'"), "{}", message);
    assert!(!message.contains("in agent 'B'"), "{}", message);
}

#[test]
fn nets_compose_contracts() {
    let source = "type a : +\nagent ['x] A(a 'x)\nagent ['y] B(!a 'y)\nnet [] N() { A(v) B(v) }\n";
    assert!(parse(source).is_err());
    let source = "type a : +\nagent ['x] A(a 'x)\nagent ['y] B(!a 'y)\nnet N() { A(v) B(v) }\n";
    assert_eq!(inet_lifetimes::check(source), Ok(()));
    let dangling = "type a : +\nagent ['x] A(a 'x)\nnet N() { A(v) }\n";
    let message = inet_lifetimes::check(dangling).unwrap_err();
    assert!(message.contains("in net 'N':\n    'v': used only once"), "{}", message);
    let free = "type a : +\nagent ['x] A(a 'x)\nnet ['z] N(v : a 'z) { A(v) }\n";
    assert_eq!(inet_lifetimes::check(free), Ok(()));
    let wrong = "type a : +\nagent ['x] A(a 'x)\nnet ['z] N(v : !a 'z) { A(v) }\n";
    let message = inet_lifetimes::check(wrong).unwrap_err();
    assert!(message.contains("in net 'N':\n    'v': mismatched types 'a' and 'a'"), "{}", message);
}

#[test]
fn programs_are_checked_as_a_whole() {
    let mut program = parse("type a : +\ntype a : -\n").ok().unwrap();
    assert_eq!(program.types.len(), 2);
    assert_eq!(check_program(&mut program), Err(String::from("check errors:\n  duplicate definition of type 'a'")));
    let mut empty = Program::default();
    assert_eq!(check_program(&mut empty), Ok(()));
    assert!(empty.check().is_empty());
}

#[test]
fn nodes_bring_in_their_contracts_and_record_uses() {
    let mut globals = globals_with_type(Polarity::Pos);
    assert!(agent(Some(Relation::GT)).define(&mut globals).is_ok());
    let mut vars = VarCtx::default();
    let x = vars.vars.push(String::from("x"), Some(Default::default()));
    let y = vars.vars.push(String::from("y"), Some(Default::default()));
    let nodes = vec![
        Node { component: Component(0), ports: vec![x, y] },
        Node { component: Component(0), ports: vec![y] },
        Node { component: Component(0), ports: vec![y, x] },
    ];
    let mut errors = inet_lifetimes::error::ErrorGroup::new();
    let mut lt_ctx = LifetimeCtx::default();
    lt_ctx.intro(String::from("'own"), Side::External);
    vars.infer_uses(&mut errors, &globals, &mut lt_ctx, &nodes);

    let lt = inet_lifetimes::lifetimes::Lifetime;
    assert_eq!(lt_ctx.lifetimes.count(), 7);
    assert_eq!(lt_ctx.lifetimes.name(lt(0)), "'own");
    assert_eq!(lt_ctx.lifetimes.name(lt(1)), "'0.a");
    assert_eq!(lt_ctx.lifetimes.name(lt(2)), "'0.b");
    assert_eq!(lt_ctx.lifetimes.name(lt(3)), "'1.a");
    assert_eq!(lt_ctx.lifetimes.name(lt(6)), "'2.b");
    assert_eq!(lt_ctx.lifetimes.get(lt(0)).ok().unwrap().side, Side::External);
    assert_eq!(lt_ctx.lifetimes.get(lt(1)).ok().unwrap().side, Side::Internal);
    assert_eq!(lt_ctx.lifetimes.get(lt(6)).ok().unwrap().side, Side::Internal);

    assert_eq!(lt_ctx.in_order.get(lt(1), lt(2)), Some(Relation::GT));
    assert_eq!(lt_ctx.in_order.get(lt(2), lt(1)), Some(Relation::LT));
    assert_eq!(lt_ctx.in_order.get(lt(3), lt(4)), Some(Relation::GT));
    assert_eq!(lt_ctx.in_order.get(lt(5), lt(6)), Some(Relation::GT));
    assert_eq!(lt_ctx.in_order.get(lt(2), lt(3)), None);
    assert_eq!(lt_ctx.ex_order.get(lt(1), lt(2)), None);

    assert_eq!(errors.len(), 1);
    assert_eq!(errors.get(0).to_string(), "'F' expects 2 ports but 1 were supplied");

    assert!(vars.vars.poisoned(y));
    assert_eq!(
        vars.vars.get(x).ok().unwrap().uses,
        vec![PortLabel(Type(1), lt(1)), PortLabel(Type(0), lt(6))]
    );
}
