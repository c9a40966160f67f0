use std::sync::Arc;
use vstd::prelude::*;

use crate::template::Slot;

verus! {

/// An arithmetic operator applied by an arithmetic node.
#[derive(Clone, Copy, Debug, PartialEq, Eq, Structural)]
pub enum Operator {
    Add,
    Subtract,
    Multiply,
    Divide,
}

/// The family of base noise a fractal node is built on.
#[derive(Clone, Copy, Debug, PartialEq, Eq, Structural)]
pub enum NoiseType {
    Perlin,
    Simplex,
}

/// The four kinds of value that flow between nodes.
#[derive(Clone, Copy, Debug, PartialEq, Eq, Structural)]
pub enum ValueKind {
    Number,
    NoiseFunction,
    Operator,
    NoiseType,
}

/// A number, kept as the computation that yields it: a literal is held as the
/// bit pattern of an IEEE-754 binary64 value, and an application combines two
/// numbers with an operator under floating-point semantics when it is run.
#[derive(Debug, PartialEq)]
pub enum Scalar {
    Literal(u64),
    Apply(Operator, Arc<Scalar>, Arc<Scalar>),
}

/// A shared, immutable handle on a noise function of two coordinates.
pub type NoiseFunction = Arc<NoiseExpr>;

/// The composition tree of a noise function. Each combinator holds shared
/// handles on its operands and the numbers that parameterise it.
#[derive(Debug, PartialEq)]
pub enum NoiseExpr {
    /// The constant function.
    Constant(Scalar),
    Perlin,
    Value,
    /// `a(p) + b(p)`.
    Add(NoiseFunction, NoiseFunction),
    /// The smaller of `a(p)` and `b(p)`.
    Min(NoiseFunction, NoiseFunction),
    /// `min(max(source(p), lower), upper)`.
    Clamp { source: NoiseFunction, lower: Scalar, upper: Scalar },
    /// `source([x / s, y / s]) * s / 2`.
    Scale { source: NoiseFunction, scale: Scalar },
    /// `source(p) * scale + bias`.
    ScaleBias { source: NoiseFunction, scale: Scalar, bias: Scalar },
    /// The source sampled at the point scaled axis by axis.
    ScalePoint { source: NoiseFunction, x: Scalar, y: Scalar, z: Scalar, u: Scalar },
    RidgedMulti {
        base: NoiseType,
        octaves: Scalar,
        frequency: Scalar,
        lacunarity: Scalar,
        persistence: Scalar,
        attenuation: Scalar,
    },
    HybridMulti {
        base: NoiseType,
        octaves: Scalar,
        frequency: Scalar,
        lacunarity: Scalar,
        persistence: Scalar,
    },
}

/// A value produced by a node or held inline by an input slot.
#[derive(Debug, PartialEq)]
pub enum NodeValue {
    Number(Scalar),
    NoiseFunction(NoiseFunction),
    Operator(Operator),
    NoiseType(NoiseType),
}

/// Why an evaluation pass failed.
#[derive(Debug, PartialEq)]
pub enum EvalError {
    /// The node has no input slot of this name.
    MissingInputSlot(Slot),
    /// The node has no output slot of this name.
    MissingOutputSlot(Slot),
    /// A value of one kind was found where another was expected.
    ValueTypeMismatch { expected: ValueKind, found: ValueKind },
    /// The node depends on its own output.
    CycleDetected(usize),
}

impl Scalar {
    /// A copy of this number that shares its operands.
    pub fn share(&self) -> (r: Scalar)
        ensures
            r == *self,
    {
        match self {
            Scalar::Literal(bits) => Scalar::Literal(*bits),
            Scalar::Apply(op, a, b) => Scalar::Apply(*op, a.clone(), b.clone()),
        }
    }
}

pub open spec fn mismatch(expected: ValueKind, found: ValueKind) -> EvalError {
    EvalError::ValueTypeMismatch { expected, found }
}

impl NodeValue {
    pub open spec fn kind(self) -> ValueKind {
        match self {
            NodeValue::Number(_) => ValueKind::Number,
            NodeValue::NoiseFunction(_) => ValueKind::NoiseFunction,
            NodeValue::Operator(_) => ValueKind::Operator,
            NodeValue::NoiseType(_) => ValueKind::NoiseType,
        }
    }

    /// The number held by a value of kind `Number`.
    pub open spec fn number(self) -> Scalar {
        match self {
            NodeValue::Number(s) => s,
            _ => arbitrary(),
        }
    }

    /// The handle held by a value of kind `NoiseFunction`.
    pub open spec fn function(self) -> NoiseFunction {
        match self {
            NodeValue::NoiseFunction(f) => f,
            _ => arbitrary(),
        }
    }

    pub open spec fn operator(self) -> Operator {
        match self {
            NodeValue::Operator(op) => op,
            _ => arbitrary(),
        }
    }

    pub open spec fn noise_type(self) -> NoiseType {
        match self {
            NodeValue::NoiseType(t) => t,
            _ => arbitrary(),
        }
    }

    pub fn value_kind(&self) -> (r: ValueKind)
        ensures
            r == self.kind(),
    {
        match self {
            NodeValue::Number(_) => ValueKind::Number,
            NodeValue::NoiseFunction(_) => ValueKind::NoiseFunction,
            NodeValue::Operator(_) => ValueKind::Operator,
            NodeValue::NoiseType(_) => ValueKind::NoiseType,
        }
    }

    /// A copy of this value: a number is copied, a noise function handle is
    /// shared rather than duplicated.
    pub fn share(&self) -> (r: NodeValue)
        ensures
            r == *self,
    {
        match self {
            NodeValue::Number(s) => NodeValue::Number(s.share()),
            NodeValue::NoiseFunction(f) => NodeValue::NoiseFunction(f.clone()),
            NodeValue::Operator(op) => NodeValue::Operator(*op),
            NodeValue::NoiseType(t) => NodeValue::NoiseType(*t),
        }
    }

    pub fn as_number(self) -> (r: Result<Scalar, EvalError>)
        ensures
            match self {
                NodeValue::Number(s) => r == Ok::<Scalar, EvalError>(s),
                _ => r == Err::<Scalar, EvalError>(mismatch(ValueKind::Number, self.kind())),
            },
    {
        match self {
            NodeValue::Number(s) => Ok(s),
            _ => {
                let found = self.value_kind();
                Err(EvalError::ValueTypeMismatch { expected: ValueKind::Number, found })
            },
        }
    }

    /// A count is carried as a number; it is truncated to an integer when
    /// the noise function that uses it is built.
    pub fn as_usize(self) -> (r: Result<Scalar, EvalError>)
        ensures
            match self {
                NodeValue::Number(s) => r == Ok::<Scalar, EvalError>(s),
                _ => r == Err::<Scalar, EvalError>(mismatch(ValueKind::Number, self.kind())),
            },
    {
        self.as_number()
    }

    pub fn as_noise_function(self) -> (r: Result<NoiseFunction, EvalError>)
        ensures
            match self {
                NodeValue::NoiseFunction(f) => r == Ok::<NoiseFunction, EvalError>(f),
                _ => r == Err::<NoiseFunction, EvalError>(
                    mismatch(ValueKind::NoiseFunction, self.kind()),
                ),
            },
    {
        match self {
            NodeValue::NoiseFunction(f) => Ok(f),
            _ => {
                let found = self.value_kind();
                Err(EvalError::ValueTypeMismatch { expected: ValueKind::NoiseFunction, found })
            },
        }
    }

    pub fn as_operator(self) -> (r: Result<Operator, EvalError>)
        ensures
            match self {
                NodeValue::Operator(op) => r == Ok::<Operator, EvalError>(op),
                _ => r == Err::<Operator, EvalError>(mismatch(ValueKind::Operator, self.kind())),
            },
    {
        match self {
            NodeValue::Operator(op) => Ok(op),
            _ => {
                let found = self.value_kind();
                Err(EvalError::ValueTypeMismatch { expected: ValueKind::Operator, found })
            },
        }
    }

    pub fn as_noise_type(self) -> (r: Result<NoiseType, EvalError>)
        ensures
            match self {
                NodeValue::NoiseType(t) => r == Ok::<NoiseType, EvalError>(t),
                _ => r == Err::<NoiseType, EvalError>(
                    mismatch(ValueKind::NoiseType, self.kind()),
                ),
            },
    {
        match self {
            NodeValue::NoiseType(t) => Ok(t),
            _ => {
                let found = self.value_kind();
                Err(EvalError::ValueTypeMismatch { expected: ValueKind::NoiseType, found })
            },
        }
    }
}

} // verus!
