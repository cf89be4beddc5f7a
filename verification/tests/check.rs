use inet_lifetimes::check;
use inet_lifetimes::parser::parse;

const PRELUDE: &str = "type a : +\n";

fn fails_with(source: &str, needle: &str) {
    match check(source) {
        Ok(()) => panic!("no errors for:\n{}", source),
        Err(message) => assert!(message.contains(needle), "missing {:?} in:\n{}", needle, message),
    }
}

#[test]
fn duplicate_type_definition_is_one_error() {
    let message = check("type a : +\ntype a : +\n").unwrap_err();
    assert_eq!(message, "check errors:\n  duplicate definition of type 'a'");
    assert_eq!(message.matches("duplicate definition").count(), 1);
}

#[test]
fn agent_without_relation_fails() {
    let source = format!("{}agent ['a, 'b] F(a 'a, !a 'b)\n", PRELUDE);
    fails_with(&source, "in agent 'F':");
    fails_with(&source, "satisfying internal obligations is impossible without more external guarantees");
}

#[test]
fn agent_with_relation_succeeds() {
    let source = "type a : -\nagent ['a < 'b] F(a 'a, !a 'b)\n";
    assert_eq!(check(source), Ok(()));
    let mirrored = "type a : +\nagent ['b < 'a] F(a 'a, !a 'b)\n";
    assert_eq!(check(mirrored), Ok(()));
}

#[test]
fn agent_with_relation_against_polarity_fails() {
    let source = format!("{}agent ['a < 'b] F(a 'a, !a 'b)\n", PRELUDE);
    assert_eq!(
        check(&source),
        Err(String::from(
            "check errors:\n  in agent 'F':\n    satisfying internal obligations is impossible without more external guarantees:\n      'b < 'a\n      we know:\n        'a < 'b\n      we need:\n        'b < 'a"
        ))
    );
}

#[test]
fn rule_not_connected_by_principal_ports_fails() {
    let source = format!(
        "{}agent ['a] A(a 'a, a 'a)\nagent ['a] B(!a 'a, !a 'a)\nrule A(y, x) B(z, x) {{}}\n",
        PRELUDE
    );
    fails_with(&source, "matched nodes are not connected by their principal ports");
    fails_with(&source, "in rule 'A-B':");
}

#[test]
fn variable_used_once_fails() {
    let source = format!(
        "{}agent ['a] A(a 'a, a 'a)\nagent ['a] B(!a 'a)\nrule A(p, x) B(p) {{}}\n",
        PRELUDE
    );
    fails_with(&source, "'x': used only once");
}

#[test]
fn type_order_of_two_agents_stays_acyclic() {
    let source = "type inc : +\ntype dec : -\nagent ['a] Inc(inc 'a, !dec 'a)\nagent ['a] Dec(dec 'a, inc 'a)\n";
    assert_eq!(check(source), Ok(()));
}

#[test]
fn type_order_cycle_is_reported() {
    let source = "type s : +\ntype t : +\nagent ['a] P(s 'a, !t 'a)\nagent ['a] Q(t 'a, !s 'a)\n";
    fails_with(source, "found cycles in type order");
}

#[test]
fn undefined_type_is_reported() {
    fails_with("agent ['a] F(b 'a)\n", "undefined type 'b'");
}

#[test]
fn parse_error_is_returned() {
    assert!(parse("agent F(").is_err());
    assert!(check("what").is_err());
}

#[test]
fn empty_file_is_ok() {
    assert_eq!(check(""), Ok(()));
    assert_eq!(check("// nothing\n  \n"), Ok(()));
}

#[test]
fn types_alone_give_their_errors_and_no_others() {
    assert_eq!(check("type a : +\n// nothing else\ntype b : -"), Ok(()));
    assert_eq!(check(""), Ok(()));
    assert_eq!(
        check("type a : +\ntype a : -\ntype b : +\ntype !b : +"),
        Err(String::from(
            "check errors:\n  duplicate definition of type 'a'\n  duplicate definition of type '!b'"
        ))
    );
}

#[test]
fn an_agent_without_a_port_of_the_dual_type_is_accepted() {
    assert_eq!(check("type a : +\ntype b : +\nagent ['x] F(a 'x, b 'x)"), Ok(()));
    assert_eq!(check("type a : -\nagent ['x] F(a 'x)"), Ok(()));
    assert_eq!(check("agent F()"), Ok(()));
}

#[test]
fn labels_that_are_not_defined_give_their_errors_in_order() {
    assert_eq!(
        check("type a : +\nagent ['x] F(a 'x, b 'y)"),
        Err(String::from(
            "check errors:\n  in agent 'F':\n    undefined type 'b'\n    undefined lifetime ''y'"
        ))
    );
}

#[test]
fn a_rule_over_components_that_are_not_defined_stops_at_once() {
    assert_eq!(
        check("rule A(x, y) B(y, x) { C(x) }"),
        Err(String::from(
            "check errors:\n  in rule 'A-B':\n    matched nodes are not connected by their principal ports\n    undefined component 'A'\n    undefined component 'B'\n    undefined component 'C'"
        ))
    );
}

#[test]
fn a_net_over_components_that_are_not_defined_stops_at_once() {
    assert_eq!(
        check("type a : +\nnet ['x] N(v : a 'x) { A(v) B(v) }"),
        Err(String::from(
            "check errors:\n  in net 'N':\n    undefined component 'A'\n    undefined component 'B'"
        ))
    );
}
