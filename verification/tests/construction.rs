use compgraph::{Application, Graph, Operation};

#[test]
fn new_graph_is_empty() {
    let g = Graph::new();
    assert_eq!(g.len(), 0);
}

#[test]
fn handles_count_up_from_zero() {
    let mut g = Graph::new();
    let a = g.create_input("a");
    let b = g.create_input("b");
    let sum = g.add(a, b);
    let sine = g.sin(sum);
    assert_eq!(a.index(), 0);
    assert_eq!(b.index(), 1);
    assert_eq!(sum.index(), 2);
    assert_eq!(sine.index(), 3);
    assert_eq!(g.len(), 4);
    assert_ne!(a, b);
}

#[test]
fn contains_tells_own_handles_from_others() {
    let mut g = Graph::new();
    let mut other = Graph::new();
    let a = g.create_input("a");
    let _ = other.create_input("p");
    let q = other.create_input("q");
    assert!(g.contains(a));
    assert!(!g.contains(q));
    assert!(other.contains(q));
    assert_eq!(g.cached(q), None);
}

#[test]
fn fresh_nodes_hold_no_value() {
    let mut g = Graph::new();
    let a = g.create_input("a");
    let b = g.create_input("b");
    let sum = g.add(a, b);
    let product = g.mul(a, b);
    let power = g.pow_f32(a, b);
    let sine = g.sin(a);
    for h in [a, b, sum, product, power, sine] {
        assert_eq!(g.cached(h), None);
    }
}

#[test]
fn a_new_node_stands_after_its_operands() {
    let mut g = Graph::new();
    let a = g.create_input("a");
    let mut top = a;
    for round in 0..20 {
        let next = match round % 4 {
            0 => g.add(top, a),
            1 => g.mul(top, top),
            2 => g.pow_f32(a, top),
            _ => g.sin(top),
        };
        assert!(next.index() > top.index());
        assert!(next.index() > a.index());
        assert_eq!(next.index() + 1, g.len());
        top = next;
    }
}

#[test]
fn building_keeps_the_values_that_are_held() {
    let mut g = Graph::new();
    let a = g.create_input("a");
    g.set(a, 3).unwrap();
    let double = g.add(a, a);
    assert_eq!(g.compute(double, |_t: Application| 6), Ok(6));
    let b = g.create_input("b");
    let more = g.mul(double, b);
    assert_eq!(g.cached(a), Some(3));
    assert_eq!(g.cached(double), Some(6));
    assert_eq!(g.cached(b), None);
    assert_eq!(g.cached(more), None);
}

#[test]
fn one_node_may_be_both_operands() {
    let mut g = Graph::new();
    let a = g.create_input("a");
    let sum = g.add(a, a);
    let product = g.mul(a, a);
    let power = g.pow_f32(a, a);
    g.set(a, 2).unwrap();
    let tag = |t: Application| match t {
        Application::Add(x, y) => 100 + x + y,
        Application::Mul(x, y) => 200 + x + y,
        Application::Pow(x, y) => 300 + x + y,
        Application::Sin(x) => 400 + x,
    };
    assert_eq!(g.compute(sum, tag), Ok(104));
    assert_eq!(g.compute(product, tag), Ok(204));
    assert_eq!(g.compute(power, tag), Ok(304));
    g.set(a, 3).unwrap();
    assert_eq!(g.cached(sum), None);
    assert_eq!(g.cached(product), None);
    assert_eq!(g.cached(power), None);
}

#[test]
fn operands_record_their_readers() {
    let mut g = Graph::new();
    let a = g.create_input("a");
    let b = g.create_input("b");
    let sum = g.add(a, b);
    let square = g.mul(a, a);
    let power = g.pow_f32(b, sum);
    let sine = g.sin(sum);
    assert_eq!(g.node(a).unwrap().dependents(), &vec![sum, square, square]);
    assert_eq!(g.node(b).unwrap().dependents(), &vec![sum, power]);
    assert_eq!(g.node(sum).unwrap().dependents(), &vec![power, sine]);
    assert!(g.node(square).unwrap().dependents().is_empty());
    assert!(g.node(sine).unwrap().dependents().is_empty());
}

#[test]
fn nodes_keep_their_operations() {
    let mut g = Graph::new();
    let a = g.create_input("first");
    let b = g.create_input("second");
    let sum = g.add(a, b);
    let product = g.mul(b, a);
    let power = g.pow_f32(a, sum);
    let sine = g.sin(product);
    assert_eq!(g.node(a).unwrap().operation(), &Operation::Input(String::from("first")));
    assert_eq!(g.node(b).unwrap().operation(), &Operation::Input(String::from("second")));
    assert_eq!(g.node(sum).unwrap().operation(), &Operation::Add(a, b));
    assert_eq!(g.node(product).unwrap().operation(), &Operation::Mul(b, a));
    assert_eq!(g.node(power).unwrap().operation(), &Operation::Pow(a, sum));
    assert_eq!(g.node(sine).unwrap().operation(), &Operation::Sin(product));
    assert_eq!(g.node(sine).unwrap().cache(), None);
}

#[test]
fn node_of_a_foreign_handle_is_none() {
    let mut g = Graph::new();
    let mut other = Graph::new();
    let _ = other.create_input("p");
    let q = other.create_input("q");
    let a = g.create_input("a");
    assert!(g.node(a).is_some());
    assert!(g.node(q).is_none());
}
