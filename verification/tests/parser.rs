use inet_lifetimes::globals::Component;
use inet_lifetimes::globals::Polarity;
use inet_lifetimes::globals::PortLabel;
use inet_lifetimes::globals::Type;
use inet_lifetimes::lifetimes::Lifetime;
use inet_lifetimes::lifetimes::Side;
use inet_lifetimes::order::Relation;
use inet_lifetimes::parser::is_name_char;
use inet_lifetimes::parser::parse;
use inet_lifetimes::vars::Var;

#[test]
fn declarations_are_read_in_order() {
    let program = parse(
        "// a file\ntype a : +\ntype b : -\nagent ['x <= 'y | 'z?] F(a 'x, !b 'y)\nrule F(p, q) F(p, r) { F(q, r) }\nnet ['x] N(v : a 'x) { F(v, w) F(w, v) }\n",
    )
    .ok()
    .unwrap();
    assert_eq!(program.types.len(), 2);
    assert_eq!(program.types[0].id, Type(1));
    assert_eq!(program.types[0].polarity, Polarity::Pos);
    assert_eq!(program.types[1].id, Type(3));
    assert_eq!(program.types[1].polarity, Polarity::Neg);
    assert_eq!(program.globals.types.name(Type(0)), "!a");
    assert_eq!(program.globals.types.name(Type(1)), "a");
    assert_eq!(program.agents.len(), 1);
    let agent = &program.agents[0];
    assert_eq!(agent.id, Component(0));
    assert_eq!(agent.ports, vec![PortLabel(Type(1), Lifetime(0)), PortLabel(Type(2), Lifetime(1))]);
    assert_eq!(agent.lt_ctx.ex_order.get(Lifetime(0), Lifetime(1)), Some(Relation::LE));
    assert_eq!(agent.lt_ctx.lifetimes.name(Lifetime(2)), "'z");
    assert_eq!(agent.lt_ctx.lifetimes.get(Lifetime(0)).ok().unwrap().side, Side::External);
    assert_eq!(agent.lt_ctx.lifetimes.get(Lifetime(2)).ok().unwrap().side, Side::External);
    assert_eq!(program.rules.len(), 1);
    let rule = &program.rules[0];
    assert_eq!(rule.a.ports, vec![Var(0), Var(1)]);
    assert_eq!(rule.b.ports, vec![Var(0), Var(2)]);
    assert_eq!(rule.result.len(), 1);
    assert_eq!(rule.result[0].component, Component(0));
    assert_eq!(rule.var_ctx.vars.name(Var(2)), "r");
    assert_eq!(program.nets.len(), 1);
    let net = &program.nets[0];
    assert_eq!(net.id, Component(1));
    assert_eq!(net.free_ports, vec![(Var(0), PortLabel(Type(1), Lifetime(0)))]);
    assert_eq!(net.nodes.len(), 2);
    assert_eq!(program.globals.components.name(Component(1)), "N");
}

#[test]
fn comparisons_fill_the_order_of_their_side() {
    let program = parse("agent ['a < 'b > 'c | 'd >= 'e, 'f] G()").ok().unwrap();
    let ctx = &program.agents[0].lt_ctx;
    assert_eq!(ctx.ex_order.get(Lifetime(0), Lifetime(1)), Some(Relation::LT));
    assert_eq!(ctx.ex_order.get(Lifetime(1), Lifetime(2)), Some(Relation::GT));
    assert_eq!(ctx.ex_order.get(Lifetime(2), Lifetime(3)), None);
    assert_eq!(ctx.in_order.get(Lifetime(3), Lifetime(4)), Some(Relation::GE));
    assert_eq!(ctx.in_order.get(Lifetime(4), Lifetime(5)), None);
    assert_eq!(ctx.lifetimes.get(Lifetime(2)).ok().unwrap().side, Side::External);
    assert_eq!(ctx.lifetimes.get(Lifetime(3)).ok().unwrap().side, Side::Internal);
    assert_eq!(ctx.lifetimes.get(Lifetime(5)).ok().unwrap().side, Side::Internal);
}

#[test]
fn question_mark_flips_the_side() {
    let program = parse("agent ['a?, 'b] G()").ok().unwrap();
    let ctx = &program.agents[0].lt_ctx;
    assert_eq!(ctx.lifetimes.get(Lifetime(0)).ok().unwrap().side, Side::Internal);
    assert_eq!(ctx.lifetimes.get(Lifetime(1)).ok().unwrap().side, Side::External);
}

#[test]
fn inconsistent_sides_are_rejected() {
    let message = parse("agent ['a, 'a?] G()").err().unwrap();
    assert!(message.starts_with("inconsistent external/internal modifiers on lifetime ''a':\n"), "{}", message);
    assert!(message.contains("1 | agent ['a,"), "{}", message);
}

#[test]
fn parse_errors_show_the_place() {
    let message = parse("type a : +\nagent F(").err().unwrap();
    assert!(message.contains("PARSE_ERROR"), "{}", message);
    assert!(message.contains("expected: "), "{}", message);
    assert!(message.contains("2 | agent F("), "{}", message);
    assert!(!message.contains("1 | type a"), "{}", message);
    assert!(parse("type : +").is_err());
    assert!(parse("type a : ?").is_err());
    assert!(parse("agent [] F()").is_err());
    assert!(parse("agent ['a | 'b | 'c] F()").is_err());
    assert!(parse("agent ['] F()").is_err());
    assert!(parse("rule A(x) B(x)").is_err());
    assert!(parse("net N(x a 'a) {}").is_err());
    assert!(parse("thing").is_err());
}

#[test]
fn name_characters() {
    for c in ['a', 'Z', '0', '9', '_', '.', '-', '/', '$'] {
        assert!(is_name_char(c));
    }
    for c in [' ', '\'', '!', '(', ':', 'é', '\n'] {
        assert!(!is_name_char(c));
    }
}

#[test]
fn comments_and_white_space_separate_tokens() {
    let program = parse("  // first\n\ttype // the word\n a // the name\n : // then\n - // done").ok().unwrap();
    assert_eq!(program.types.len(), 1);
    assert_eq!(program.types[0].id, Type(1));
    assert_eq!(program.types[0].polarity, Polarity::Neg);
    assert_eq!(program.agents.len(), 0);
}

#[test]
fn an_empty_text_declares_nothing() {
    for text in ["", "   \n\t", "// only a comment", "// one\n// two\n"] {
        let program = parse(text).ok().unwrap();
        assert_eq!(program.types.len(), 0);
        assert_eq!(program.agents.len(), 0);
        assert_eq!(program.rules.len(), 0);
        assert_eq!(program.nets.len(), 0);
        assert_eq!(program.globals.types.count(), 0);
        assert_eq!(program.globals.components.count(), 0);
    }
}

#[test]
fn a_context_may_be_left_out() {
    let program = parse("agent F(a 'x, !a 'x)").ok().unwrap();
    let agent = &program.agents[0];
    assert_eq!(agent.lt_ctx.ex_order.len(), 0);
    assert_eq!(agent.lt_ctx.in_order.len(), 0);
    assert_eq!(agent.lt_ctx.lifetimes.count(), 1);
    assert_eq!(agent.lt_ctx.lifetimes.name(Lifetime(0)), "'x");
    assert!(agent.lt_ctx.lifetimes.get(Lifetime(0)).is_err());
    assert_eq!(agent.ports, vec![PortLabel(Type(1), Lifetime(0)), PortLabel(Type(0), Lifetime(0))]);
}

#[test]
fn a_bar_in_front_starts_with_the_internal_side() {
    let program = parse("agent [| 'a <= 'b] G()").ok().unwrap();
    let ctx = &program.agents[0].lt_ctx;
    assert_eq!(ctx.lifetimes.get(Lifetime(0)).ok().unwrap().side, Side::Internal);
    assert_eq!(ctx.lifetimes.get(Lifetime(1)).ok().unwrap().side, Side::Internal);
    assert_eq!(ctx.in_order.get(Lifetime(0), Lifetime(1)), Some(Relation::LE));
    assert_eq!(ctx.in_order.get(Lifetime(1), Lifetime(0)), Some(Relation::GE));
    assert_eq!(ctx.ex_order.get(Lifetime(0), Lifetime(1)), None);
}

#[test]
fn names_are_shared_within_a_declaration_only() {
    let program = parse("rule A(x, y) B(y, x) { }\nrule A(y) B(y) { A(z) }").ok().unwrap();
    assert_eq!(program.rules[0].a.ports, vec![Var(0), Var(1)]);
    assert_eq!(program.rules[0].b.ports, vec![Var(1), Var(0)]);
    assert_eq!(program.rules[0].var_ctx.vars.count(), 2);
    assert_eq!(program.rules[1].a.ports, vec![Var(0)]);
    assert_eq!(program.rules[1].b.ports, vec![Var(0)]);
    assert_eq!(program.rules[1].result[0].ports, vec![Var(1)]);
    assert_eq!(program.rules[1].a.component, Component(0));
    assert_eq!(program.rules[1].b.component, Component(1));
    assert_eq!(program.globals.components.count(), 2);
}

#[test]
fn a_list_may_end_with_a_comma() {
    let program = parse("agent F(a 'x,)\nrule F(p,) F(q,) { }").ok().unwrap();
    assert_eq!(program.agents[0].ports.len(), 1);
    assert_eq!(program.rules[0].a.ports, vec![Var(0)]);
    assert_eq!(program.rules[0].b.ports, vec![Var(1)]);
}
