use std::sync::Arc;

use noise_graph::evaluate::{evaluate_node, OutputsCache};
use noise_graph::graph::{Graph, OutputParam};
use noise_graph::template::{NodeTemplate, Slot};
use noise_graph::value::{EvalError, NodeValue, NoiseExpr, NoiseType, Operator, Scalar, ValueKind};

fn bits(x: f64) -> u64 {
    x.to_bits()
}

fn input(g: &Graph, n: usize, s: Slot) -> usize {
    g.input_id(n, s).expect("declared input")
}

fn out(g: &Graph, n: usize) -> usize {
    g.output_id(n, Slot::Out).expect("output")
}

fn wire(g: &mut Graph, from: usize, to: usize, s: Slot) {
    let o = out(g, from);
    let i = input(g, to, s);
    g.connect(o, i);
}

fn number_node(g: &mut Graph, x: f64) -> usize {
    let n = g.add_node(NodeTemplate::Number);
    let i = input(g, n, Slot::Value);
    g.set_literal(i, NodeValue::Number(Scalar::Literal(bits(x))));
    n
}

fn run(g: &Graph, n: usize) -> (Result<NodeValue, EvalError>, OutputsCache) {
    let mut cache = OutputsCache::new(g);
    let r = evaluate_node(g, n, &mut cache);
    (r, cache)
}

fn function(v: NodeValue) -> Arc<NoiseExpr> {
    match v {
        NodeValue::NoiseFunction(f) => f,
        other => panic!("not a noise function: {:?}", other),
    }
}

#[test]
fn shared_node_is_evaluated_once() {
    let mut g = Graph::new();
    let x = g.add_node(NodeTemplate::Perlin);
    let a = g.add_node(NodeTemplate::Scale);
    let b = g.add_node(NodeTemplate::Clamp);
    let root = g.add_node(NodeTemplate::Add);
    wire(&mut g, x, a, Slot::Source);
    wire(&mut g, x, b, Slot::Source);
    wire(&mut g, a, root, Slot::Source1);
    wire(&mut g, b, root, Slot::Source2);
    let (r, cache) = run(&g, root);
    let f = function(r.unwrap());
    assert_eq!(cache.times_evaluated(x), 1);
    assert_eq!(cache.times_evaluated(root), 1);
    assert_eq!(cache.evaluated, vec![x, a, b, root]);
    match &*f {
        NoiseExpr::Add(l, r) => match (&**l, &**r) {
            (NoiseExpr::Scale { source: s1, .. }, NoiseExpr::Clamp { source: s2, .. }) => {
                assert!(Arc::ptr_eq(s1, s2));
                assert_eq!(**s1, NoiseExpr::Perlin);
            }
            other => panic!("unexpected operands {:?}", other),
        },
        other => panic!("unexpected function {:?}", other),
    }
}

#[test]
fn fresh_passes_give_identical_results() {
    let mut g = Graph::new();
    let a = number_node(&mut g, 2.5);
    let b = number_node(&mut g, -0.75);
    let op = g.add_node(NodeTemplate::Arithmetic);
    let opi = input(&g, op, Slot::Operator);
    g.set_literal(opi, NodeValue::Operator(Operator::Multiply));
    wire(&mut g, a, op, Slot::A);
    wire(&mut g, b, op, Slot::B);
    let scale = g.add_node(NodeTemplate::Scale);
    let perlin = g.add_node(NodeTemplate::Perlin);
    wire(&mut g, perlin, scale, Slot::Source);
    wire(&mut g, op, scale, Slot::Scale);
    let (first, _) = run(&g, scale);
    let (second, _) = run(&g, scale);
    assert_eq!(first.unwrap(), second.unwrap());
}

#[test]
fn number_into_noise_slot_is_a_type_mismatch() {
    let mut g = Graph::new();
    let n = number_node(&mut g, 1.0);
    let s = g.add_node(NodeTemplate::Scale);
    wire(&mut g, n, s, Slot::Source);
    let (r, _) = run(&g, s);
    assert_eq!(
        r,
        Err(EvalError::ValueTypeMismatch {
            expected: ValueKind::NoiseFunction,
            found: ValueKind::Number,
        })
    );
}

#[test]
fn unconnected_bias_uses_declared_default() {
    let mut g = Graph::new();
    let p = g.add_node(NodeTemplate::Perlin);
    let sb = g.add_node(NodeTemplate::ScaleBias);
    wire(&mut g, p, sb, Slot::Source);
    let (r, _) = run(&g, sb);
    let f = function(r.unwrap());
    match &*f {
        NoiseExpr::ScaleBias { source, scale, bias } => {
            assert_eq!(**source, NoiseExpr::Perlin);
            assert_eq!(*scale, Scalar::Literal(bits(1.0)));
            assert_eq!(*bias, Scalar::Literal(bits(0.0)));
        }
        other => panic!("unexpected function {:?}", other),
    }
}

#[test]
fn add_composes_its_two_sources() {
    let mut g = Graph::new();
    let p = g.add_node(NodeTemplate::Perlin);
    let v = g.add_node(NodeTemplate::Value);
    let add = g.add_node(NodeTemplate::Add);
    wire(&mut g, p, add, Slot::Source1);
    wire(&mut g, v, add, Slot::Source2);
    let (r, _) = run(&g, add);
    let expected = NoiseExpr::Add(Arc::new(NoiseExpr::Perlin), Arc::new(NoiseExpr::Value));
    assert_eq!(*function(r.unwrap()), expected);
}

#[test]
fn scale_keeps_its_factor() {
    let mut g = Graph::new();
    let p = g.add_node(NodeTemplate::Perlin);
    let s = g.add_node(NodeTemplate::Scale);
    wire(&mut g, p, s, Slot::Source);
    let si = input(&g, s, Slot::Scale);
    g.set_literal(si, NodeValue::Number(Scalar::Literal(bits(4.0))));
    let (r, _) = run(&g, s);
    let expected = NoiseExpr::Scale {
        source: Arc::new(NoiseExpr::Perlin),
        scale: Scalar::Literal(bits(4.0)),
    };
    assert_eq!(*function(r.unwrap()), expected);
}

#[test]
fn division_by_zero_is_not_an_error() {
    let mut g = Graph::new();
    let op = g.add_node(NodeTemplate::Arithmetic);
    let opi = input(&g, op, Slot::Operator);
    g.set_literal(opi, NodeValue::Operator(Operator::Divide));
    let ai = input(&g, op, Slot::A);
    g.set_literal(ai, NodeValue::Number(Scalar::Literal(bits(4.0))));
    let bi = input(&g, op, Slot::B);
    g.set_literal(bi, NodeValue::Number(Scalar::Literal(bits(0.0))));
    let (r, _) = run(&g, op);
    let expected = NodeValue::Number(Scalar::Apply(
        Operator::Divide,
        Arc::new(Scalar::Literal(bits(4.0))),
        Arc::new(Scalar::Literal(bits(0.0))),
    ));
    assert_eq!(r, Ok(expected));
}

#[test]
fn number_node_passes_its_literal_through() {
    let mut g = Graph::new();
    let n = number_node(&mut g, 3.5);
    let (r, cache) = run(&g, n);
    assert_eq!(r, Ok(NodeValue::Number(Scalar::Literal(bits(3.5)))));
    assert_eq!(cache.values[out(&g, n)], Some(NodeValue::Number(Scalar::Literal(bits(3.5)))));
}

#[test]
fn self_dependency_is_reported_as_a_cycle() {
    let mut g = Graph::new();
    let add = g.add_node(NodeTemplate::Add);
    wire(&mut g, add, add, Slot::Source1);
    let (r, _) = run(&g, add);
    assert_eq!(r, Err(EvalError::CycleDetected(add)));
}

#[test]
fn longer_cycle_is_reported() {
    let mut g = Graph::new();
    let a = g.add_node(NodeTemplate::Min);
    let b = g.add_node(NodeTemplate::Clamp);
    wire(&mut g, a, b, Slot::Source);
    wire(&mut g, b, a, Slot::Source2);
    let (r, _) = run(&g, a);
    assert_eq!(r, Err(EvalError::CycleDetected(a)));
}

#[test]
fn missing_input_slot_is_reported() {
    let mut g = Graph::new();
    let add = g.add_node(NodeTemplate::Add);
    g.nodes[add].inputs.pop();
    let (r, _) = run(&g, add);
    assert_eq!(r, Err(EvalError::MissingInputSlot(Slot::Source2)));
}

#[test]
fn unpublished_output_is_reported() {
    let mut g = Graph::new();
    let p = g.add_node(NodeTemplate::Perlin);
    let extra = g.outputs.len();
    g.outputs.push(OutputParam { node: p, slot: Slot::Value });
    g.nodes[p].outputs.push(extra);
    let s = g.add_node(NodeTemplate::Scale);
    let i = input(&g, s, Slot::Source);
    g.connect(extra, i);
    let (r, _) = run(&g, s);
    assert_eq!(r, Err(EvalError::MissingOutputSlot(Slot::Value)));
}

#[test]
fn first_error_in_declared_order_wins() {
    let mut g = Graph::new();
    let n = number_node(&mut g, 1.0);
    let broken = g.add_node(NodeTemplate::Add);
    g.nodes[broken].inputs.clear();
    let clamp = g.add_node(NodeTemplate::Clamp);
    wire(&mut g, n, clamp, Slot::Source);
    let lower = input(&g, clamp, Slot::BoundsLower);
    let bo = out(&g, broken);
    g.connect(bo, lower);
    let (r, cache) = run(&g, clamp);
    assert_eq!(
        r,
        Err(EvalError::ValueTypeMismatch {
            expected: ValueKind::NoiseFunction,
            found: ValueKind::Number,
        })
    );
    assert_eq!(cache.times_evaluated(broken), 0);
}

#[test]
fn fractal_defaults_follow_their_generator() {
    let mut g = Graph::new();
    let h = g.add_node(NodeTemplate::HybridMulti);
    let r = g.add_node(NodeTemplate::RidgedMulti);
    let (hv, _) = run(&g, h);
    let (rv, _) = run(&g, r);
    let lacunarity = std::f64::consts::PI * 2.0 / 3.0;
    let expected_h = NoiseExpr::HybridMulti {
        base: NoiseType::Perlin,
        octaves: Scalar::Literal(bits(6.0)),
        frequency: Scalar::Literal(bits(2.0)),
        lacunarity: Scalar::Literal(bits(lacunarity)),
        persistence: Scalar::Literal(bits(0.25)),
    };
    let expected_r = NoiseExpr::RidgedMulti {
        base: NoiseType::Perlin,
        octaves: Scalar::Literal(bits(6.0)),
        frequency: Scalar::Literal(bits(1.0)),
        lacunarity: Scalar::Literal(bits(lacunarity)),
        persistence: Scalar::Literal(bits(1.0)),
        attenuation: Scalar::Literal(bits(2.0)),
    };
    assert_eq!(*function(hv.unwrap()), expected_h);
    assert_eq!(*function(rv.unwrap()), expected_r);
}

#[test]
fn noise_type_input_selects_the_base() {
    let mut g = Graph::new();
    let h = g.add_node(NodeTemplate::RidgedMulti);
    let ti = input(&g, h, Slot::NoiseType);
    g.set_literal(ti, NodeValue::NoiseType(NoiseType::Simplex));
    let (r, _) = run(&g, h);
    match &*function(r.unwrap()) {
        NoiseExpr::RidgedMulti { base, .. } => assert_eq!(*base, NoiseType::Simplex),
        other => panic!("unexpected function {:?}", other),
    }
}

#[test]
fn clamp_defaults_to_unit_bounds() {
    let mut g = Graph::new();
    let p = g.add_node(NodeTemplate::Perlin);
    let c = g.add_node(NodeTemplate::Clamp);
    wire(&mut g, p, c, Slot::Source);
    let (r, _) = run(&g, c);
    let expected = NoiseExpr::Clamp {
        source: Arc::new(NoiseExpr::Perlin),
        lower: Scalar::Literal(bits(-1.0)),
        upper: Scalar::Literal(bits(1.0)),
    };
    assert_eq!(*function(r.unwrap()), expected);
}

#[test]
fn scale_point_reads_all_four_axes() {
    let mut g = Graph::new();
    let p = g.add_node(NodeTemplate::Perlin);
    let sp = g.add_node(NodeTemplate::ScalePoint);
    wire(&mut g, p, sp, Slot::Source);
    let yi = input(&g, sp, Slot::Y);
    g.set_literal(yi, NodeValue::Number(Scalar::Literal(bits(3.0))));
    let (r, _) = run(&g, sp);
    let expected = NoiseExpr::ScalePoint {
        source: Arc::new(NoiseExpr::Perlin),
        x: Scalar::Literal(bits(1.0)),
        y: Scalar::Literal(bits(3.0)),
        z: Scalar::Literal(bits(1.0)),
        u: Scalar::Literal(bits(1.0)),
    };
    assert_eq!(*function(r.unwrap()), expected);
}

#[test]
fn unconnected_noise_input_is_the_zero_constant() {
    let mut g = Graph::new();
    let m = g.add_node(NodeTemplate::Min);
    let (r, _) = run(&g, m);
    let zero = Arc::new(NoiseExpr::Constant(Scalar::Literal(bits(0.0))));
    assert_eq!(*function(r.unwrap()), NoiseExpr::Min(zero.clone(), zero));
}

#[test]
fn projections_report_the_kind_found() {
    assert_eq!(
        NodeValue::Operator(Operator::Add).as_number(),
        Err(EvalError::ValueTypeMismatch { expected: ValueKind::Number, found: ValueKind::Operator })
    );
    assert_eq!(
        NodeValue::Number(Scalar::Literal(bits(6.0))).as_usize(),
        Ok(Scalar::Literal(bits(6.0)))
    );
    assert_eq!(
        NodeValue::NoiseType(NoiseType::Simplex).as_noise_type(),
        Ok(NoiseType::Simplex)
    );
    assert_eq!(
        NodeValue::NoiseType(NoiseType::Simplex).as_operator(),
        Err(EvalError::ValueTypeMismatch {
            expected: ValueKind::Operator,
            found: ValueKind::NoiseType,
        })
    );
    assert!(NodeValue::Number(Scalar::Literal(0)).as_noise_function().is_err());
}

#[test]
fn slot_names_match_the_editor_labels() {
    assert_eq!(Slot::NoiseType.name(), "noise type");
    assert_eq!(Slot::BoundsLower.name(), "bounds lower");
    assert_eq!(Slot::Source1.name(), "source 1");
    assert_eq!(Slot::Out.name(), "out");
}

#[test]
fn built_graphs_are_well_formed() {
    let mut g = Graph::new();
    assert!(g.is_well_formed());
    let p = g.add_node(NodeTemplate::Perlin);
    let s = g.add_node(NodeTemplate::ScalePoint);
    wire(&mut g, p, s, Slot::Source);
    assert!(g.is_well_formed());
    g.nodes[s].inputs.push(g.inputs.len());
    assert!(!g.is_well_formed());
}

#[test]
fn duplicate_slot_names_are_malformed() {
    let mut g = Graph::new();
    let a = g.add_node(NodeTemplate::Add);
    let first = g.nodes[a].inputs[0];
    g.nodes[a].inputs.push(first);
    assert!(!g.is_well_formed());
}

#[test]
fn dangling_connection_is_malformed() {
    let mut g = Graph::new();
    let s = g.add_node(NodeTemplate::Scale);
    let i = input(&g, s, Slot::Source);
    g.inputs[i].connection = Some(7);
    assert!(!g.is_well_formed());
}
