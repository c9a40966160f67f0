use std::sync::Arc;
use vstd::prelude::*;

use crate::value::{NodeValue, NoiseExpr, NoiseFunction, NoiseType, Operator, Scalar, ValueKind};

verus! {

/// The name of an input or output slot of a node.
#[derive(Clone, Copy, Debug, PartialEq, Eq, Structural)]
pub enum Slot {
    Value,
    A,
    B,
    Operator,
    NoiseType,
    Source,
    Source1,
    Source2,
    Scale,
    Bias,
    X,
    Y,
    Z,
    U,
    BoundsLower,
    BoundsUpper,
    Octaves,
    Frequency,
    Lacunarity,
    Persistence,
    Attenuation,
    Out,
}

/// The kind of node: it fixes the node's input slots and how its output is
/// computed from them.
#[derive(Clone, Copy, Debug, PartialEq, Eq, Structural)]
pub enum NodeTemplate {
    Number,
    Arithmetic,
    Perlin,
    Value,
    Add,
    Min,
    Clamp,
    Scale,
    ScaleBias,
    ScalePoint,
    RidgedMulti,
    HybridMulti,
}

/// Bit patterns of the binary64 literals that serve as defaults.
pub const ZERO: u64 = 0x0;
pub const ONE: u64 = 0x3ff0000000000000;
pub const MINUS_ONE: u64 = 0xbff0000000000000;
pub const TWO: u64 = 0x4000000000000000;
pub const QUARTER: u64 = 0x3fd0000000000000;
pub const SIX: u64 = 0x4018000000000000;
/// Two thirds of pi, the default lacunarity of the fractal generators.
pub const TWO_THIRDS_PI: u64 = 0x4000c152382d7365;

impl Slot {
    /// The kind of value a slot of this name carries.
    pub open spec fn kind(self) -> ValueKind {
        match self {
            Slot::Operator => ValueKind::Operator,
            Slot::NoiseType => ValueKind::NoiseType,
            Slot::Source | Slot::Source1 | Slot::Source2 | Slot::Out => ValueKind::NoiseFunction,
            _ => ValueKind::Number,
        }
    }

    pub fn value_kind(&self) -> (r: ValueKind)
        ensures
            r == self.kind(),
    {
        match self {
            Slot::Operator => ValueKind::Operator,
            Slot::NoiseType => ValueKind::NoiseType,
            Slot::Source | Slot::Source1 | Slot::Source2 | Slot::Out => ValueKind::NoiseFunction,
            _ => ValueKind::Number,
        }
    }

    /// The name under which the slot is shown.
    pub fn name(&self) -> &'static str {
        match self {
            Slot::Value => "value",
            Slot::A => "a",
            Slot::B => "b",
            Slot::Operator => "operator",
            Slot::NoiseType => "noise type",
            Slot::Source => "source",
            Slot::Source1 => "source 1",
            Slot::Source2 => "source 2",
            Slot::Scale => "scale",
            Slot::Bias => "bias",
            Slot::X => "x",
            Slot::Y => "y",
            Slot::Z => "z",
            Slot::U => "u",
            Slot::BoundsLower => "bounds lower",
            Slot::BoundsUpper => "bounds upper",
            Slot::Octaves => "octaves",
            Slot::Frequency => "frequency",
            Slot::Lacunarity => "lacunarity",
            Slot::Persistence => "persistence",
            Slot::Attenuation => "attenuation",
            Slot::Out => "out",
        }
    }
}

/// The input slots a template declares, in the order they are evaluated.
pub open spec fn declared_inputs(t: NodeTemplate) -> Seq<Slot> {
    match t {
        NodeTemplate::Number => seq![Slot::Value],
        NodeTemplate::Arithmetic => seq![Slot::Operator, Slot::A, Slot::B],
        NodeTemplate::Perlin | NodeTemplate::Value => seq![],
        NodeTemplate::Add | NodeTemplate::Min => seq![Slot::Source1, Slot::Source2],
        NodeTemplate::Clamp => seq![Slot::Source, Slot::BoundsLower, Slot::BoundsUpper],
        NodeTemplate::Scale => seq![Slot::Source, Slot::Scale],
        NodeTemplate::ScaleBias => seq![Slot::Scale, Slot::Bias, Slot::Source],
        NodeTemplate::ScalePoint => seq![Slot::Source, Slot::X, Slot::Y, Slot::Z, Slot::U],
        NodeTemplate::RidgedMulti => seq![
            Slot::NoiseType,
            Slot::Octaves,
            Slot::Frequency,
            Slot::Lacunarity,
            Slot::Persistence,
            Slot::Attenuation,
        ],
        NodeTemplate::HybridMulti => seq![
            Slot::NoiseType,
            Slot::Octaves,
            Slot::Frequency,
            Slot::Lacunarity,
            Slot::Persistence,
        ],
    }
}

/// The literal a freshly built node holds in an input slot.
pub open spec fn default_literal(t: NodeTemplate, s: Slot) -> NodeValue {
    match s {
        Slot::Operator => NodeValue::Operator(Operator::Add),
        Slot::NoiseType => NodeValue::NoiseType(NoiseType::Perlin),
        Slot::Source | Slot::Source1 | Slot::Source2 | Slot::Out => NodeValue::NoiseFunction(
            Arc::new(NoiseExpr::Constant(Scalar::Literal(ZERO))),
        ),
        _ => NodeValue::Number(Scalar::Literal(default_bits(t, s))),
    }
}

/// The default of a numeric input slot, as binary64 bits.
pub open spec fn default_bits(t: NodeTemplate, s: Slot) -> u64 {
    match s {
        Slot::Scale | Slot::X | Slot::Y | Slot::Z | Slot::U | Slot::BoundsUpper => ONE,
        Slot::BoundsLower => MINUS_ONE,
        Slot::Octaves => SIX,
        Slot::Lacunarity => TWO_THIRDS_PI,
        Slot::Attenuation => TWO,
        Slot::Frequency => if t == NodeTemplate::HybridMulti {
            TWO
        } else {
            ONE
        },
        Slot::Persistence => if t == NodeTemplate::HybridMulti {
            QUARTER
        } else {
            ONE
        },
        _ => ZERO,
    }
}

} // verus!

verus! {

/// The value a node of template `t` outputs when its inputs, in declared
/// order, are `vs`.
pub open spec fn output_of(t: NodeTemplate, vs: Seq<NodeValue>) -> NodeValue {
    match t {
        NodeTemplate::Number => NodeValue::Number(vs[0].number()),
        NodeTemplate::Arithmetic => NodeValue::Number(
            Scalar::Apply(vs[0].operator(), Arc::new(vs[1].number()), Arc::new(vs[2].number())),
        ),
        NodeTemplate::Perlin => NodeValue::NoiseFunction(Arc::new(NoiseExpr::Perlin)),
        NodeTemplate::Value => NodeValue::NoiseFunction(Arc::new(NoiseExpr::Value)),
        NodeTemplate::Add => NodeValue::NoiseFunction(
            Arc::new(NoiseExpr::Add(vs[0].function(), vs[1].function())),
        ),
        NodeTemplate::Min => NodeValue::NoiseFunction(
            Arc::new(NoiseExpr::Min(vs[0].function(), vs[1].function())),
        ),
        NodeTemplate::Clamp => NodeValue::NoiseFunction(
            Arc::new(
                NoiseExpr::Clamp {
                    source: vs[0].function(),
                    lower: vs[1].number(),
                    upper: vs[2].number(),
                },
            ),
        ),
        NodeTemplate::Scale => NodeValue::NoiseFunction(
            Arc::new(NoiseExpr::Scale { source: vs[0].function(), scale: vs[1].number() }),
        ),
        NodeTemplate::ScaleBias => NodeValue::NoiseFunction(
            Arc::new(
                NoiseExpr::ScaleBias {
                    source: vs[2].function(),
                    scale: vs[0].number(),
                    bias: vs[1].number(),
                },
            ),
        ),
        NodeTemplate::ScalePoint => NodeValue::NoiseFunction(
            Arc::new(
                NoiseExpr::ScalePoint {
                    source: vs[0].function(),
                    x: vs[1].number(),
                    y: vs[2].number(),
                    z: vs[3].number(),
                    u: vs[4].number(),
                },
            ),
        ),
        NodeTemplate::RidgedMulti => NodeValue::NoiseFunction(
            Arc::new(
                NoiseExpr::RidgedMulti {
                    base: vs[0].noise_type(),
                    octaves: vs[1].number(),
                    frequency: vs[2].number(),
                    lacunarity: vs[3].number(),
                    persistence: vs[4].number(),
                    attenuation: vs[5].number(),
                },
            ),
        ),
        NodeTemplate::HybridMulti => NodeValue::NoiseFunction(
            Arc::new(
                NoiseExpr::HybridMulti {
                    base: vs[0].noise_type(),
                    octaves: vs[1].number(),
                    frequency: vs[2].number(),
                    lacunarity: vs[3].number(),
                    persistence: vs[4].number(),
                },
            ),
        ),
    }
}

/// The kind of value a node of template `t` outputs.
pub open spec fn output_kind(t: NodeTemplate) -> ValueKind {
    match t {
        NodeTemplate::Number | NodeTemplate::Arithmetic => ValueKind::Number,
        _ => ValueKind::NoiseFunction,
    }
}

/// Each value has the kind its declared slot carries.
pub open spec fn well_kinded(t: NodeTemplate, vs: Seq<NodeValue>) -> bool {
    &&& vs.len() == declared_inputs(t).len()
    &&& forall|i: int| 0 <= i < vs.len() ==> (#[trigger] vs[i]).kind() == declared_inputs(t)[i].kind()
}

fn number_at(vs: &Vec<NodeValue>, i: usize) -> (r: Scalar)
    requires
        i < vs@.len(),
        vs@[i as int].kind() == ValueKind::Number,
    ensures
        r == vs@[i as int].number(),
{
    match &vs[i] {
        NodeValue::Number(s) => s.share(),
        _ => Scalar::Literal(ZERO),
    }
}

fn function_at(vs: &Vec<NodeValue>, i: usize) -> (r: NoiseFunction)
    requires
        i < vs@.len(),
        vs@[i as int].kind() == ValueKind::NoiseFunction,
    ensures
        r == vs@[i as int].function(),
{
    match &vs[i] {
        NodeValue::NoiseFunction(f) => f.clone(),
        _ => Arc::new(NoiseExpr::Perlin),
    }
}

fn operator_at(vs: &Vec<NodeValue>, i: usize) -> (r: Operator)
    requires
        i < vs@.len(),
        vs@[i as int].kind() == ValueKind::Operator,
    ensures
        r == vs@[i as int].operator(),
{
    match &vs[i] {
        NodeValue::Operator(op) => *op,
        _ => Operator::Add,
    }
}

fn noise_type_at(vs: &Vec<NodeValue>, i: usize) -> (r: NoiseType)
    requires
        i < vs@.len(),
        vs@[i as int].kind() == ValueKind::NoiseType,
    ensures
        r == vs@[i as int].noise_type(),
{
    match &vs[i] {
        NodeValue::NoiseType(t) => *t,
        _ => NoiseType::Perlin,
    }
}

impl NodeTemplate {
    /// Declares the node's input slots, in evaluation order; every template
    /// has the one output slot `Out`.
    pub fn inputs(&self) -> (r: Vec<Slot>)
        ensures
            r@ == declared_inputs(*self),
    {
        let r = match self {
            NodeTemplate::Number => vec![Slot::Value],
            NodeTemplate::Arithmetic => vec![Slot::Operator, Slot::A, Slot::B],
            NodeTemplate::Perlin | NodeTemplate::Value => Vec::new(),
            NodeTemplate::Add | NodeTemplate::Min => vec![Slot::Source1, Slot::Source2],
            NodeTemplate::Clamp => vec![Slot::Source, Slot::BoundsLower, Slot::BoundsUpper],
            NodeTemplate::Scale => vec![Slot::Source, Slot::Scale],
            NodeTemplate::ScaleBias => vec![Slot::Scale, Slot::Bias, Slot::Source],
            NodeTemplate::ScalePoint => vec![Slot::Source, Slot::X, Slot::Y, Slot::Z, Slot::U],
            NodeTemplate::RidgedMulti => vec![
                Slot::NoiseType,
                Slot::Octaves,
                Slot::Frequency,
                Slot::Lacunarity,
                Slot::Persistence,
                Slot::Attenuation,
            ],
            NodeTemplate::HybridMulti => vec![
                Slot::NoiseType,
                Slot::Octaves,
                Slot::Frequency,
                Slot::Lacunarity,
                Slot::Persistence,
            ],
        };
        assert(r@ =~= declared_inputs(*self));
        r
    }

    /// The literal a freshly built node of this template holds in slot `s`.
    pub fn default_input(&self, s: Slot) -> (r: NodeValue)
        ensures
            r == default_literal(*self, s),
    {
        match s {
            Slot::Operator => NodeValue::Operator(Operator::Add),
            Slot::NoiseType => NodeValue::NoiseType(NoiseType::Perlin),
            Slot::Source | Slot::Source1 | Slot::Source2 | Slot::Out => NodeValue::NoiseFunction(
                Arc::new(NoiseExpr::Constant(Scalar::Literal(ZERO))),
            ),
            Slot::Scale | Slot::X | Slot::Y | Slot::Z | Slot::U | Slot::BoundsUpper => {
                NodeValue::Number(Scalar::Literal(ONE))
            },
            Slot::BoundsLower => NodeValue::Number(Scalar::Literal(MINUS_ONE)),
            Slot::Octaves => NodeValue::Number(Scalar::Literal(SIX)),
            Slot::Lacunarity => NodeValue::Number(Scalar::Literal(TWO_THIRDS_PI)),
            Slot::Attenuation => NodeValue::Number(Scalar::Literal(TWO)),
            Slot::Frequency => {
                let bits = if matches!(self, NodeTemplate::HybridMulti) {
                    TWO
                } else {
                    ONE
                };
                NodeValue::Number(Scalar::Literal(bits))
            },
            Slot::Persistence => {
                let bits = if matches!(self, NodeTemplate::HybridMulti) {
                    QUARTER
                } else {
                    ONE
                };
                NodeValue::Number(Scalar::Literal(bits))
            },
            _ => NodeValue::Number(Scalar::Literal(ZERO)),
        }
    }

    /// Computes the node's output from its input values, given in declared
    /// order and each of the kind its slot carries.
    pub fn apply(&self, vs: &Vec<NodeValue>) -> (r: NodeValue)
        requires
            well_kinded(*self, vs@),
        ensures
            r == output_of(*self, vs@),
            r.kind() == output_kind(*self),
    {
        let t = *self;
        assert(forall|i: int| 0 <= i < vs@.len() ==> vs@[i].kind() == declared_inputs(t)[i].kind());
        match t {
            NodeTemplate::Number => NodeValue::Number(number_at(vs, 0)),
            NodeTemplate::Arithmetic => {
                let op = operator_at(vs, 0);
                let a = number_at(vs, 1);
                let b = number_at(vs, 2);
                NodeValue::Number(Scalar::Apply(op, Arc::new(a), Arc::new(b)))
            },
            NodeTemplate::Perlin => NodeValue::NoiseFunction(Arc::new(NoiseExpr::Perlin)),
            NodeTemplate::Value => NodeValue::NoiseFunction(Arc::new(NoiseExpr::Value)),
            NodeTemplate::Add => {
                let a = function_at(vs, 0);
                let b = function_at(vs, 1);
                NodeValue::NoiseFunction(Arc::new(NoiseExpr::Add(a, b)))
            },
            NodeTemplate::Min => {
                let a = function_at(vs, 0);
                let b = function_at(vs, 1);
                NodeValue::NoiseFunction(Arc::new(NoiseExpr::Min(a, b)))
            },
            NodeTemplate::Clamp => {
                let source = function_at(vs, 0);
                let lower = number_at(vs, 1);
                let upper = number_at(vs, 2);
                NodeValue::NoiseFunction(Arc::new(NoiseExpr::Clamp { source, lower, upper }))
            },
            NodeTemplate::Scale => {
                let source = function_at(vs, 0);
                let scale = number_at(vs, 1);
                NodeValue::NoiseFunction(Arc::new(NoiseExpr::Scale { source, scale }))
            },
            NodeTemplate::ScaleBias => {
                let scale = number_at(vs, 0);
                let bias = number_at(vs, 1);
                let source = function_at(vs, 2);
                NodeValue::NoiseFunction(Arc::new(NoiseExpr::ScaleBias { source, scale, bias }))
            },
            NodeTemplate::ScalePoint => {
                let source = function_at(vs, 0);
                let x = number_at(vs, 1);
                let y = number_at(vs, 2);
                let z = number_at(vs, 3);
                let u = number_at(vs, 4);
                NodeValue::NoiseFunction(Arc::new(NoiseExpr::ScalePoint { source, x, y, z, u }))
            },
            NodeTemplate::RidgedMulti => {
                let base = noise_type_at(vs, 0);
                let octaves = number_at(vs, 1);
                let frequency = number_at(vs, 2);
                let lacunarity = number_at(vs, 3);
                let persistence = number_at(vs, 4);
                let attenuation = number_at(vs, 5);
                NodeValue::NoiseFunction(
                    Arc::new(
                        NoiseExpr::RidgedMulti {
                            base,
                            octaves,
                            frequency,
                            lacunarity,
                            persistence,
                            attenuation,
                        },
                    ),
                )
            },
            NodeTemplate::HybridMulti => {
                let base = noise_type_at(vs, 0);
                let octaves = number_at(vs, 1);
                let frequency = number_at(vs, 2);
                let lacunarity = number_at(vs, 3);
                let persistence = number_at(vs, 4);
                NodeValue::NoiseFunction(
                    Arc::new(
                        NoiseExpr::HybridMulti { base, octaves, frequency, lacunarity, persistence },
                    ),
                )
            },
        }
    }
}

} // verus!
