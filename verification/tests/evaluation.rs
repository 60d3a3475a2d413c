use compgraph::{Application, Graph, GraphError};
use std::cell::Cell;

fn value(bits: u32) -> f32 {
    f32::from_bits(bits)
}

/// Single-precision arithmetic on bit patterns.
fn arithmetic(t: Application) -> u32 {
    match t {
        Application::Add(a, b) => (value(a) + value(b)).to_bits(),
        Application::Mul(a, b) => (value(a) * value(b)).to_bits(),
        Application::Sin(a) => value(a).sin().to_bits(),
        Application::Pow(a, b) => value(a).powf(value(b)).to_bits(),
    }
}

#[test]
fn sum_of_two_inputs() {
    let mut g = Graph::new();
    let a = g.create_input("a");
    let b = g.create_input("b");
    let sum = g.add(a, b);
    g.set(a, 2f32.to_bits()).unwrap();
    g.set(b, 3f32.to_bits()).unwrap();
    assert_eq!(g.compute(sum, arithmetic), Ok(5f32.to_bits()));
}

#[test]
fn product_of_two_inputs() {
    let mut g = Graph::new();
    let a = g.create_input("a");
    let b = g.create_input("b");
    let product = g.mul(a, b);
    g.set(a, 2f32.to_bits()).unwrap();
    g.set(b, 3f32.to_bits()).unwrap();
    assert_eq!(g.compute(product, arithmetic), Ok(6f32.to_bits()));
}

#[test]
fn power_takes_base_then_exponent() {
    let mut g = Graph::new();
    let base = g.create_input("base");
    let exp = g.create_input("exp");
    let power = g.pow_f32(base, exp);
    g.set(base, 2f32.to_bits()).unwrap();
    g.set(exp, 3f32.to_bits()).unwrap();
    assert_eq!(g.compute(power, arithmetic), Ok(8f32.to_bits()));
    g.set(base, 3f32.to_bits()).unwrap();
    g.set(exp, 2f32.to_bits()).unwrap();
    assert_eq!(g.compute(power, arithmetic), Ok(9f32.to_bits()));
}

#[test]
fn sine_of_zero_is_zero() {
    let mut g = Graph::new();
    let a = g.create_input("a");
    let sine = g.sin(a);
    g.set(a, 0f32.to_bits()).unwrap();
    assert_eq!(g.compute(sine, arithmetic), Ok(0f32.to_bits()));
}

#[test]
fn each_operator_is_handed_the_values_of_its_operands_in_order() {
    let mut g = Graph::new();
    let a = g.create_input("a");
    let b = g.create_input("b");
    let sum = g.add(a, b);
    let product = g.mul(a, b);
    let power = g.pow_f32(a, b);
    let sine = g.sin(b);
    g.set(a, 10).unwrap();
    g.set(b, 20).unwrap();
    let code = |t: Application| match t {
        Application::Add(x, y) => 1000 + 100 * x + y,
        Application::Mul(x, y) => 2000 + 100 * x + y,
        Application::Pow(x, y) => 3000 + 100 * x + y,
        Application::Sin(x) => 4000 + x,
    };
    assert_eq!(g.compute(sum, code), Ok(2020));
    assert_eq!(g.compute(product, code), Ok(3020));
    assert_eq!(g.compute(power, code), Ok(4020));
    assert_eq!(g.compute(sine, code), Ok(4020));
}

#[test]
fn an_input_evaluates_to_what_was_set() {
    let mut g = Graph::new();
    let a = g.create_input("a");
    g.set(a, 1.5f32.to_bits()).unwrap();
    assert_eq!(g.compute(a, arithmetic), Ok(1.5f32.to_bits()));
}

#[test]
fn second_evaluation_applies_nothing() {
    let mut g = Graph::new();
    let a = g.create_input("a");
    let b = g.create_input("b");
    let sum = g.add(a, b);
    let root = g.sin(sum);
    g.set(a, 1f32.to_bits()).unwrap();
    g.set(b, 2f32.to_bits()).unwrap();
    let calls = Cell::new(0usize);
    let counting = |t: Application| {
        calls.set(calls.get() + 1);
        arithmetic(t)
    };
    let first = g.compute(root, &counting).unwrap();
    assert_eq!(calls.get(), 2);
    let second = g.compute(root, &counting).unwrap();
    assert_eq!(calls.get(), 2);
    assert_eq!(first, second);
    assert_eq!(first, 3f32.sin().to_bits());
}

#[test]
fn memoized_value_is_returned_even_by_other_arithmetic() {
    let mut g = Graph::new();
    let a = g.create_input("a");
    let sine = g.sin(a);
    g.set(a, 1f32.to_bits()).unwrap();
    let first = g.compute(sine, arithmetic).unwrap();
    let second = g.compute(sine, |_t: Application| 0u32).unwrap();
    assert_eq!(first, second);
}

#[test]
fn square_is_the_product_of_the_value_with_itself() {
    for x in [0f32, 1.0, -1.5, 3.25, 1e20, -0.0, f32::INFINITY] {
        let mut g = Graph::new();
        let input = g.create_input("x");
        let square = g.mul(input, input);
        g.set(input, x.to_bits()).unwrap();
        let result = g.compute(square, arithmetic).unwrap();
        let single = g.compute(input, arithmetic).unwrap();
        assert_eq!(result, (value(single) * value(single)).to_bits());
        assert_eq!(result, (x * x).to_bits());
    }
}

#[test]
fn shared_node_is_evaluated_once() {
    let mut g = Graph::new();
    let x = g.create_input("x");
    let sine = g.sin(x);
    let left = g.add(sine, x);
    let right = g.mul(sine, x);
    let root = g.add(left, right);
    g.set(x, 0.5f32.to_bits()).unwrap();
    let sines = Cell::new(0usize);
    let calls = Cell::new(0usize);
    let counting = |t: Application| {
        calls.set(calls.get() + 1);
        if let Application::Sin(_) = t {
            sines.set(sines.get() + 1);
        }
        arithmetic(t)
    };
    let result = g.compute(root, &counting).unwrap();
    assert_eq!(sines.get(), 1);
    assert_eq!(calls.get(), 4);
    let s = 0.5f32.sin();
    assert_eq!(result, ((s + 0.5) + (s * 0.5)).to_bits());
}

#[test]
fn long_chain_of_squares_is_linear() {
    let mut g = Graph::new();
    let x = g.create_input("x");
    let mut top = x;
    for _ in 0..200 {
        top = g.mul(top, top);
    }
    g.set(x, 1f32.to_bits()).unwrap();
    let calls = Cell::new(0usize);
    let counting = |t: Application| {
        calls.set(calls.get() + 1);
        arithmetic(t)
    };
    assert_eq!(g.compute(top, &counting), Ok(1f32.to_bits()));
    assert_eq!(calls.get(), 200);
    g.set(x, 1f32.to_bits()).unwrap();
    assert_eq!(g.cached(top), None);
    assert_eq!(g.compute(top, &counting), Ok(1f32.to_bits()));
    assert_eq!(calls.get(), 400);
}

#[test]
fn evaluation_fills_the_nodes_below_the_root_only() {
    let mut g = Graph::new();
    let a = g.create_input("a");
    let b = g.create_input("b");
    let sum = g.add(a, b);
    let above = g.sin(sum);
    let aside = g.mul(a, a);
    g.set(a, 1f32.to_bits()).unwrap();
    g.set(b, 2f32.to_bits()).unwrap();
    assert_eq!(g.compute(sum, arithmetic), Ok(3f32.to_bits()));
    assert_eq!(g.cached(sum), Some(3f32.to_bits()));
    assert_eq!(g.cached(above), None);
    assert_eq!(g.cached(aside), None);
    assert_eq!(g.cached(a), Some(1f32.to_bits()));
}

#[test]
fn unset_input_is_reported_by_name() {
    let mut g = Graph::new();
    let a = g.create_input("a");
    let b = g.create_input("b");
    let sum = g.add(a, b);
    g.set(a, 1f32.to_bits()).unwrap();
    assert_eq!(
        g.compute(sum, arithmetic),
        Err(GraphError::UnsetInput { input: b, name: String::from("b") })
    );
    assert_eq!(
        g.compute(b, arithmetic),
        Err(GraphError::UnsetInput { input: b, name: String::from("b") })
    );
}

#[test]
fn first_unset_input_in_operand_order_is_reported() {
    let mut g = Graph::new();
    let a = g.create_input("a");
    let b = g.create_input("b");
    let c = g.create_input("c");
    let inner = g.mul(b, c);
    let root = g.pow_f32(inner, a);
    assert_eq!(
        g.compute(root, arithmetic),
        Err(GraphError::UnsetInput { input: b, name: String::from("b") })
    );
    g.set(b, 1f32.to_bits()).unwrap();
    assert_eq!(
        g.compute(root, arithmetic),
        Err(GraphError::UnsetInput { input: c, name: String::from("c") })
    );
    g.set(c, 1f32.to_bits()).unwrap();
    assert_eq!(
        g.compute(root, arithmetic),
        Err(GraphError::UnsetInput { input: a, name: String::from("a") })
    );
    g.set(a, 1f32.to_bits()).unwrap();
    assert_eq!(g.compute(root, arithmetic), Ok(1f32.to_bits()));
}

#[test]
fn failed_evaluation_leaves_no_value_behind() {
    let mut g = Graph::new();
    let a = g.create_input("a");
    let b = g.create_input("b");
    let ready = g.sin(a);
    let kept = g.mul(a, a);
    let root = g.add(ready, b);
    g.set(a, 1f32.to_bits()).unwrap();
    let kept_value = g.compute(kept, arithmetic).unwrap();
    let calls = Cell::new(0usize);
    let counting = |t: Application| {
        calls.set(calls.get() + 1);
        arithmetic(t)
    };
    assert!(g.compute(root, &counting).is_err());
    assert_eq!(calls.get(), 1);
    assert_eq!(g.cached(ready), None);
    assert_eq!(g.cached(root), None);
    assert_eq!(g.cached(b), None);
    assert_eq!(g.cached(a), Some(1f32.to_bits()));
    assert_eq!(g.cached(kept), Some(kept_value));
}

#[test]
fn zero_to_the_power_zero_is_one() {
    let mut g = Graph::new();
    let base = g.create_input("base");
    let exp = g.create_input("exp");
    let power = g.pow_f32(base, exp);
    g.set(base, 0f32.to_bits()).unwrap();
    g.set(exp, 0f32.to_bits()).unwrap();
    assert_eq!(g.compute(power, arithmetic), Ok(1f32.to_bits()));
}

#[test]
fn not_a_number_is_a_value_and_no_error() {
    let mut g = Graph::new();
    let base = g.create_input("base");
    let exp = g.create_input("exp");
    let power = g.pow_f32(base, exp);
    let root = g.add(power, base);
    g.set(base, (-8f32).to_bits()).unwrap();
    g.set(exp, 0.5f32.to_bits()).unwrap();
    let result = g.compute(root, arithmetic).unwrap();
    assert!(value(result).is_nan());
    assert!(value(g.cached(power).unwrap()).is_nan());
    assert_eq!(g.compute(root, arithmetic), Ok(result));
}
