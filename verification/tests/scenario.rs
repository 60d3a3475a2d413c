use compgraph::{Application, Graph};

/// Single-precision arithmetic on bit patterns.
fn arithmetic(t: Application) -> u32 {
    let v = |bits: u32| f32::from_bits(bits);
    match t {
        Application::Add(a, b) => (v(a) + v(b)).to_bits(),
        Application::Mul(a, b) => (v(a) * v(b)).to_bits(),
        Application::Sin(a) => v(a).sin().to_bits(),
        Application::Pow(a, b) => v(a).powf(v(b)).to_bits(),
    }
}

/// Round to decimal digits
fn round(x: f32, precision: u32) -> f32 {
    let m = 10i32.pow(precision) as f32;
    (x * m).round() / m
}

#[test]
fn test() {
    let mut g = Graph::new();
    let x1 = g.create_input("x1");
    let x2 = g.create_input("x2");
    let x3 = g.create_input("x3");
    let x4 = g.create_input("x4");

    let power = g.pow_f32(x3, x4);
    let inner = g.add(x2, power);
    let sine = g.sin(inner);
    let product = g.mul(x2, sine);
    let graph = g.add(x1, product);

    g.set(x1, 1f32.to_bits()).unwrap();
    g.set(x2, 2f32.to_bits()).unwrap();
    g.set(x3, 3f32.to_bits()).unwrap();
    g.set(x4, 3f32.to_bits()).unwrap();

    let mut result = f32::from_bits(g.compute(graph, arithmetic).unwrap());
    result = round(result, 5);
    assert_eq!(result, -0.32727);

    g.set(x1, 2f32.to_bits()).unwrap();
    g.set(x2, 3f32.to_bits()).unwrap();
    g.set(x3, 4f32.to_bits()).unwrap();
    result = f32::from_bits(g.compute(graph, arithmetic).unwrap());
    result = round(result, 5);
    assert_eq!(result, -0.56656);
}
