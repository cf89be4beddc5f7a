use inet_lifetimes::globals::Polarity;
use inet_lifetimes::order::find_cycles::Flag;
use inet_lifetimes::order::transistor::Completion;
use inet_lifetimes::order::transistor::Everything;
use inet_lifetimes::order::transistor::Unchosen;
use inet_lifetimes::order::transistor::Transistor;
use inet_lifetimes::order::Order;
use inet_lifetimes::order::Relation;
use inet_lifetimes::scope::Scope;

const LE: Relation = Relation::LE;
const LT: Relation = Relation::LT;

fn sorted(mut edges: Vec<(usize, usize, Relation)>) -> Vec<(usize, usize, u8)> {
    let mut keyed: Vec<(usize, usize, u8)> = edges.drain(..).map(|(a, b, rel)| (a, b, rel.bits())).collect();
    keyed.sort();
    keyed
}

#[test]
fn test_simple_cases() {
    for (order, cycles) in [
        (Order::<usize>::default(), vec![]),
        (Order::from_iter(vec![(0, 1, LT), (1, 2, LT), (2, 3, LT)]), vec![]),
        (Order::from_iter(vec![(0, 1, LT), (1, 2, LT), (0, 2, LT)]), vec![]),
        (Order::from_iter(vec![(0, 1, LE), (1, 3, LE), (0, 2, LT), (2, 3, LE), (3, 4, LT)]), vec![]),
        (Order::from_iter(vec![(0, 1, LE), (1, 0, LE)]), vec![]),
        (Order::from_iter(vec![(0, 0, LE)]), vec![]),
        //
        (Order::from_iter(vec![(0, 1, LT), (1, 0, LE)]), vec![vec![0, 1, 0]]),
        (Order::from_iter(vec![(0, 0, LT)]), vec![vec![0, 0]]),
        (
            Order::from_iter(vec![(0, 1, LT), (0, 2, LE), (1, 0, LE), (2, 0, LT)]),
            vec![vec![0, 1, 0], vec![0, 2, 0]],
        ),
        (
            Order::from_iter(vec![(0, 1, LT), (0, 2, LE), (1, 0, LE), (2, 0, LT), (1, 2, LT)]),
            vec![vec![0, 1, 0], vec![0, 1, 2, 0]],
        ),
        (
            Order::from_iter(vec![(0, 1, LT), (0, 2, LE), (1, 0, LE), (2, 0, LT), (2, 1, LT)]),
            vec![vec![0, 1, 0], vec![0, 2, 0]],
        ),
    ] {
        assert_eq!(order.find_cycles(), cycles, "order {:?}", sorted(order.iter()));
    }
}

fn every_node_represented(order: &Order<usize>, cycles: &Vec<Vec<usize>>) -> bool {
    (0..order.len()).all(|a| cycles.iter().any(|cycle| cycle.contains(&a)))
}

#[test]
fn test_extreme_cases() {
    for n in 1..=100 {
        let m = n * 2;
        let order =
            Order::from_iter((0..m).flat_map(|x| [(x, (x + 2) % m, LT), (x, ((x + 2) % m) ^ 1, LT)]).collect());
        let cycles = order.find_cycles();

        assert_eq!(cycles.len(), n + 2);

        assert!(every_node_represented(&order, &cycles));
    }

    for n in 1..=20 {
        let order = Order::from_iter((0..n).flat_map(|a| (0..n).map(move |b| (a, b, LT))).collect());
        let cycles = order.find_cycles();

        assert_eq!(cycles.len(), n * (n + 1) / 2);

        assert!(every_node_represented(&order, &cycles));
    }
}

#[test]
fn test_complete() {
    let order = Order::from_iter(vec![(0, 1, Relation::LT), (1, 2, Relation::LT), (2, 3, Relation::LT)]);
    for super_enter in [false, true] {
        let transistor = Transistor::new(&order, Completion { enter_all: super_enter });
        assert_eq!(
            sorted(transistor.finish().iter()),
            sorted(
                Order::from_iter(vec![
                    (0, 1, Relation::LT),
                    (0, 2, Relation::LT),
                    (0, 3, Relation::LT),
                    (1, 2, Relation::LT),
                    (1, 3, Relation::LT),
                    (2, 3, Relation::LT)
                ])
                .iter()
            ),
        );
    }
}

#[test]
fn test() {
    let closure = Order::from_iter(vec![(0, 1, Relation::LT), (1, 2, Relation::LT), (2, 3, Relation::LT)]).complete();
    assert_eq!(closure.len(), 4);
    assert_eq!(closure.get(0, 3), Some(Relation::LT));
    assert_eq!(closure.get(3, 0), Some(Relation::GT));
}

#[test]
fn flags_are_distinct() {
    assert_ne!(Flag::Unseen, Flag::Done);
    assert_eq!(Flag::Cycle(3), Flag::Cycle(3));
}

fn chain() -> Order<usize> {
    Order::from_iter(vec![(0, 1, LT), (1, 2, LT), (2, 3, LT)])
}

fn forward(order: &Order<usize>) -> Vec<(usize, usize, u8)> {
    sorted(order.iter_forward())
}

#[test]
fn relate_stores_both_directions() {
    let mut order: Order<usize> = Order::new();
    order.relate(2, 5, LE);
    assert_eq!(order.len(), 6);
    assert_eq!(order.get(2, 5), Some(Relation::LE));
    assert_eq!(order.get(5, 2), Some(Relation::GE));
    order.relate(5, 2, Relation::GT);
    assert_eq!(order.get(2, 5), Some(Relation::LT));
    assert_eq!(order.get(5, 2), Some(Relation::GT));
    assert_eq!(order.get(2, 4), None);
    assert_eq!(order.get(9, 2), None);
}

#[test]
fn relating_an_element_at_most_to_itself_is_a_no_op() {
    let mut order = chain();
    let before = sorted(order.iter());
    order.relate(1, 1, LE);
    order.relate(7, 7, Relation::GE);
    assert_eq!(sorted(order.iter()), before);
    assert_eq!(order.len(), 4);
}

#[test]
fn element_strictly_below_itself_is_a_cycle() {
    let mut order = chain();
    order.relate(2, 2, LT);
    assert_eq!(order.get(2, 2), Some(Relation::BOT));
    assert_eq!(order.find_cycles(), vec![vec![2, 2]]);
}

#[test]
fn completion_of_a_chain() {
    let closure = chain().complete();
    assert_eq!(
        forward(&closure),
        vec![
            (0, 1, LT.bits()),
            (0, 2, LT.bits()),
            (0, 3, LT.bits()),
            (1, 2, LT.bits()),
            (1, 3, LT.bits()),
            (2, 3, LT.bits())
        ]
    );
}

#[test]
fn completion_keeps_the_weaker_relation_where_no_step_is_strict() {
    let order = Order::from_iter(vec![(0, 1, LE), (1, 2, LE), (2, 3, LT)]);
    let closure = order.complete();
    assert_eq!(closure.get(0, 2), Some(Relation::LE));
    assert_eq!(closure.get(0, 3), Some(Relation::LT));
    assert_eq!(closure.get(1, 3), Some(Relation::LT));
}

#[test]
fn omission_bypasses_the_chosen_elements() {
    let omitted = chain().omit(&vec![false, true, false, false]);
    assert_eq!(forward(&omitted), vec![(0, 2, LT.bits()), (0, 3, LT.bits()), (2, 3, LT.bits())]);
    for (a, b, _) in omitted.iter() {
        assert_ne!(a, 1);
        assert_ne!(b, 1);
    }
    for other in 0..4 {
        assert_eq!(omitted.get(1, other), None);
        assert_eq!(omitted.get(other, 1), None);
    }
}

#[test]
fn difference_keeps_what_the_other_order_does_not_give() {
    let needs = Order::from_iter(vec![(0, 2, LT), (0, 3, LE), (3, 1, LT)]);
    let missing = sorted(needs.difference(&chain()));
    assert_eq!(missing, vec![(3, 1, LT.bits())]);
    let nothing: Order<usize> = Order::new();
    assert_eq!(sorted(needs.difference(&nothing)), forward(&needs));
}

#[test]
fn import_moves_positions_and_brings_self_relations() {
    let mut from: Order<usize> = chain();
    from.relate(3, 3, LT);
    let mut order: Order<usize> = Order::from_iter(vec![(0, 1, LE)]);
    order.import(&from, 1);
    assert_eq!(order.get(0, 1), Some(Relation::LE));
    assert_eq!(order.get(1, 2), Some(Relation::LT));
    assert_eq!(order.get(2, 1), Some(Relation::GT));
    assert_eq!(order.get(3, 4), Some(Relation::LT));
    assert_eq!(order.get(4, 4), from.get(3, 3));
    assert_eq!(order.get(4, 4), Some(Relation::BOT));
    assert!(order.find_cycles().contains(&vec![4, 4]));
    assert_eq!(order.len(), 5);
}

#[test]
fn clone_holds_the_same_relations() {
    let order = chain();
    let copy = order.clone();
    assert_eq!(sorted(copy.iter()), sorted(order.iter()));
    assert_eq!(copy.len(), order.len());
}

#[test]
fn relate_polarity_reverses_under_neg() {
    let mut order: Order<usize> = Order::new();
    order.relate_polarity(0, 1, LT, Polarity::Neg);
    assert_eq!(order.get(0, 1), Some(Relation::GT));
    order.relate_polarity(2, 3, LT, Polarity::Pos);
    assert_eq!(order.get(2, 3), Some(Relation::LT));
}

#[test]
fn has_asks_for_a_relation_at_least_as_tight() {
    let order = chain();
    assert!(order.has(0, 1, LT));
    assert!(order.has(0, 1, LE));
    assert!(!order.has(1, 0, LE));
    assert!(!order.has(0, 2, LT));
    let loose = Order::from_iter(vec![(0, 1, LE)]);
    assert!(!loose.has(0, 1, LT));
}

#[test]
fn a_cycle_through_equal_elements_is_found() {
    // 0 = 1 = 2 and 0 < 3 <= 2: every element is on a cycle.
    let order = Order::from_iter(vec![(0, 1, LE), (1, 2, LE), (2, 0, LE), (0, 3, LT), (3, 2, LE)]);
    let cycles = order.find_cycles();
    assert!(!cycles.is_empty());
    for cycle in &cycles {
        assert_eq!(cycle.first(), cycle.last());
        assert!(cycle.len() >= 2);
        let strict = cycle.windows(2).any(|pair| order.get(pair[0], pair[1]) == Some(LT));
        assert!(strict, "{:?}", cycle);
        for pair in cycle.windows(2) {
            assert!(matches!(order.get(pair[0], pair[1]), Some(Relation::LT) | Some(Relation::LE)));
        }
    }
    assert!(every_node_represented(&order, &cycles));
}

#[test]
fn an_element_that_the_walk_leaves_out_gets_its_own_cycle() {
    // 2 lies on the cycle 0 < 2 < 1 < 0.
    let order = Order::from_iter(vec![(0, 1, LT), (1, 0, LT), (0, 2, LT), (2, 1, LT)]);
    let cycles = order.find_cycles();
    assert!(every_node_represented(&order, &cycles));
    // Equal elements alone make no cycle.
    let equal = Order::from_iter(vec![(0, 1, LE), (1, 2, LE), (2, 0, LE)]);
    assert_eq!(equal.find_cycles(), Vec::<Vec<usize>>::new());
}

fn names(count: usize) -> Scope<usize, u8> {
    let mut scope: Scope<usize, u8> = Scope::new();
    for i in 0..count {
        scope.push(format!("n{}", i), None);
    }
    scope
}

#[test]
fn forward_relations_are_listed_as_errors() {
    let order = Order::from_iter(vec![(0, 1, LT), (2, 1, Relation::GE)]);
    let errors = order.verify_empty(&names(3));
    let mut lines: Vec<String> = (0..errors.len()).map(|k| errors.get(k).to_string()).collect();
    lines.sort();
    assert_eq!(lines, vec![String::from("n0 < n1"), String::from("n1 ≤ n2")]);
    let nothing: Order<usize> = Order::from_iter(vec![(1, 0, Relation::GT)]);
    assert_eq!(forward(&nothing), vec![(0, 1, LT.bits())]);
    assert!(Order::<usize>::new().verify_empty(&names(0)).is_empty());
}

#[test]
fn cycles_are_shown_with_their_relations() {
    let order = Order::from_iter(vec![(0, 1, LT), (1, 2, LE), (2, 0, LE)]);
    assert_eq!(order.show_cycle(&vec![0, 1, 2, 0], &names(3)).to_string(), "n0 < n1 ≤ n2 ≤ n0");
    assert_eq!(order.show_cycle(&vec![1], &names(3)).to_string(), "n1");
    assert_eq!(order.show_cycle(&vec![], &names(3)).to_string(), "");
    let errors = order.check_coherent(&names(3));
    assert_eq!(errors.len(), 1);
    assert_eq!(errors.get(0).to_string(), "n0 < n1 ≤ n2 ≤ n0");
    assert!(chain().check_coherent(&names(4)).is_empty());
}

#[test]
fn strict_orders_with_a_cycle_always_report_one() {
    for n in 2..8usize {
        let mut edges: Vec<(usize, usize, Relation)> = (0..n).map(|a| (a, (a + 1) % n, LT)).collect();
        edges.push((0, n, LT));
        edges.push((n, 1, LT));
        let order = Order::from_iter(edges);
        assert!(!order.find_cycles().is_empty());
    }
}

#[test]
fn visits_can_be_chosen() {
    let order = chain();
    let mut transistor = Transistor::new(&order, Completion { enter_all: false });
    transistor.visit(2);
    let partial = transistor.finish_where(&vec![false, false, false, false]);
    assert_eq!(forward(&partial), vec![(2, 3, LT.bits())]);
    let whole = Transistor::new(&order, Completion { enter_all: false }).finish_where(&Everything);
    assert_eq!(forward(&whole), forward(&order.complete()));
    let mut lazy = Transistor::new(&order, Completion { enter_all: false });
    assert!(!lazy.has(0, 3, LT));
    assert!(!lazy.has(0, 1, LE));
    assert!(lazy.has(3, 0, LT));
    assert!(lazy.has(0, 3, Relation::GE));
    lazy.visit_where(&vec![false, true]);
    assert_eq!(forward(&lazy.finish()), forward(&order.complete()));
}

#[test]
fn without_drops_the_chosen_elements() {
    let order = chain().complete();
    let rest = order.without(&vec![false, false, true]);
    assert_eq!(forward(&rest), vec![(0, 1, LT.bits()), (0, 3, LT.bits()), (1, 3, LT.bits())]);
    let all = order.without(&Unchosen { inner: &Everything });
    assert_eq!(forward(&all), forward(&order));
}

#[test]
fn completion_holds_through_equal_elements() {
    // 0 = 1, and 1 < 2: both are strictly below 2, whichever is walked first.
    let order = Order::from_iter(vec![(0, 1, LE), (1, 0, LE), (1, 2, LT)]);
    let closure = order.complete();
    assert_eq!(closure.get(0, 2), Some(Relation::LT));
    assert_eq!(closure.get(1, 2), Some(Relation::LT));
    assert_eq!(closure.get(2, 0), Some(Relation::GT));
    assert_eq!(closure.get(0, 1), Some(Relation::EQ));
    let longer = Order::from_iter(vec![(0, 1, LE), (1, 2, LE), (2, 0, LE), (2, 3, LE), (3, 4, LT)]);
    let closure = longer.complete();
    for start in 0..3 {
        assert_eq!(closure.get(start, 3), Some(Relation::LE), "from {}", start);
        assert_eq!(closure.get(start, 4), Some(Relation::LT), "from {}", start);
    }
    let needs = Order::from_iter(vec![(0, 4, LT), (1, 3, LE), (3, 0, LE)]);
    assert_eq!(sorted(needs.difference(&longer)), vec![(3, 0, LE.bits())]);
}

#[test]
fn a_visit_sees_what_it_reaches() {
    let order = Order::from_iter(vec![(0, 1, LE), (1, 2, LT), (2, 3, LE)]);
    let mut transistor = Transistor::new(&order, Completion { enter_all: false });
    transistor.visit(0);
    let output = transistor.finish_where(&vec![false, false, false, false]);
    assert_eq!(output.get(0, 3), Some(Relation::LT));
    assert_eq!(output.get(1, 2), Some(Relation::LT));
    assert_eq!(output.get(1, 3), Some(Relation::LT));
    assert_eq!(output.get(2, 3), Some(Relation::LE));
}
