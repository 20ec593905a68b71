//! The operations of expressions and of bytecode tapes.

use crate::outside::opcode_repr;
use vstd::prelude::*;

verus! {

/// A one-argument math operation.
#[derive(Clone, Copy, Debug, PartialEq, Eq, Structural)]
pub enum UnaryOp {
    /// `-a`
    Neg,
    /// `|a|`
    Abs,
    /// `1 / a`
    Recip,
    /// Square root
    Sqrt,
    /// `a * a`
    Square,
    /// Largest integer not above `a`
    Floor,
    /// Smallest integer not below `a`
    Ceil,
    /// Nearest integer
    Round,
    /// Sine
    Sin,
    /// Cosine
    Cos,
    /// Tangent
    Tan,
    /// Arcsine
    Asin,
    /// Arccosine
    Acos,
    /// Arctangent
    Atan,
    /// Exponential
    Exp,
    /// Natural logarithm
    Ln,
    /// Logical negation: 1 where `a` is 0, else 0
    Not,
    /// Pseudo-random value seeded by `a`
    Rand,
}

/// A two-argument math operation.
#[derive(Clone, Copy, Debug, PartialEq, Eq, Structural)]
pub enum BinaryOp {
    /// `a + b`
    Add,
    /// `a - b`
    Sub,
    /// `a * b`
    Mul,
    /// `a / b`
    Div,
    /// Angle of the point `(b, a)`
    Atan2,
    /// Minimum
    Min,
    /// Maximum
    Max,
    /// Sign of `a - b`
    Compare,
    /// Least non-negative remainder
    Mod,
    /// `a` where it is 0, else `b`
    And,
    /// `a` where it is not 0, else `b`
    Or,
    /// Pseudo-random mix of `a` and `b`
    Mix,
}

/// An operation of a bytecode tape.
#[derive(Clone, Copy, Debug, PartialEq, Eq, Structural)]
pub enum Opcode {
    /// Hands a register out as the result
    Output,
    /// Reads an input into a register
    Input,
    /// Copies a register or an immediate into a register
    Copy,
    /// Moves a value between a register and a memory slot
    Mem,
    /// Applies a one-argument operation
    Unary(UnaryOp),
    /// Applies a two-argument operation
    Binary(BinaryOp),
}

/// The one-argument operation with the number `code` in an expression graph.
pub open spec fn unary_of_code(code: u8) -> Option<UnaryOp> {
    match code {
        0 => Some(UnaryOp::Neg),
        1 => Some(UnaryOp::Abs),
        2 => Some(UnaryOp::Recip),
        3 => Some(UnaryOp::Sqrt),
        4 => Some(UnaryOp::Square),
        5 => Some(UnaryOp::Floor),
        6 => Some(UnaryOp::Ceil),
        7 => Some(UnaryOp::Round),
        8 => Some(UnaryOp::Sin),
        9 => Some(UnaryOp::Cos),
        10 => Some(UnaryOp::Tan),
        11 => Some(UnaryOp::Asin),
        12 => Some(UnaryOp::Acos),
        13 => Some(UnaryOp::Atan),
        14 => Some(UnaryOp::Exp),
        15 => Some(UnaryOp::Ln),
        16 => Some(UnaryOp::Not),
        17 => Some(UnaryOp::Rand),
        _ => None,
    }
}

/// The two-argument operation with the number `code` in an expression graph.
pub open spec fn binary_of_code(code: u8) -> Option<BinaryOp> {
    match code {
        0 => Some(BinaryOp::Add),
        1 => Some(BinaryOp::Sub),
        2 => Some(BinaryOp::Mul),
        3 => Some(BinaryOp::Div),
        4 => Some(BinaryOp::Atan2),
        5 => Some(BinaryOp::Min),
        6 => Some(BinaryOp::Max),
        7 => Some(BinaryOp::Compare),
        8 => Some(BinaryOp::Mod),
        9 => Some(BinaryOp::And),
        10 => Some(BinaryOp::Or),
        11 => Some(BinaryOp::Mix),
        _ => None,
    }
}

/// The operation with the number `code` in a tape.
pub open spec fn opcode_of_code(code: u8) -> Option<Opcode> {
    match code {
        0 => Some(Opcode::Output),
        1 => Some(Opcode::Input),
        2 => Some(Opcode::Copy),
        3 => Some(Opcode::Unary(UnaryOp::Neg)),
        4 => Some(Opcode::Unary(UnaryOp::Abs)),
        5 => Some(Opcode::Unary(UnaryOp::Recip)),
        6 => Some(Opcode::Unary(UnaryOp::Sqrt)),
        7 => Some(Opcode::Unary(UnaryOp::Square)),
        8 => Some(Opcode::Unary(UnaryOp::Floor)),
        9 => Some(Opcode::Unary(UnaryOp::Ceil)),
        10 => Some(Opcode::Unary(UnaryOp::Round)),
        11 => Some(Opcode::Unary(UnaryOp::Not)),
        12 => Some(Opcode::Unary(UnaryOp::Rand)),
        13 => Some(Opcode::Unary(UnaryOp::Sin)),
        14 => Some(Opcode::Unary(UnaryOp::Cos)),
        15 => Some(Opcode::Unary(UnaryOp::Tan)),
        16 => Some(Opcode::Unary(UnaryOp::Asin)),
        17 => Some(Opcode::Unary(UnaryOp::Acos)),
        18 => Some(Opcode::Unary(UnaryOp::Atan)),
        19 => Some(Opcode::Unary(UnaryOp::Exp)),
        20 => Some(Opcode::Unary(UnaryOp::Ln)),
        21 => Some(Opcode::Binary(BinaryOp::Add)),
        22 => Some(Opcode::Binary(BinaryOp::Sub)),
        23 => Some(Opcode::Binary(BinaryOp::Mul)),
        24 => Some(Opcode::Binary(BinaryOp::Div)),
        25 => Some(Opcode::Binary(BinaryOp::Atan2)),
        26 => Some(Opcode::Binary(BinaryOp::Compare)),
        27 => Some(Opcode::Binary(BinaryOp::Mix)),
        28 => Some(Opcode::Binary(BinaryOp::Mod)),
        29 => Some(Opcode::Binary(BinaryOp::Min)),
        30 => Some(Opcode::Binary(BinaryOp::Max)),
        31 => Some(Opcode::Binary(BinaryOp::And)),
        32 => Some(Opcode::Binary(BinaryOp::Or)),
        33 => Some(Opcode::Mem),
        _ => None,
    }
}

impl UnaryOp {
    /// The operation with the number `code` in an expression graph.
    pub fn from_code(code: u8) -> (op: Option<UnaryOp>)
        ensures
            op == unary_of_code(code),
    {
        match code {
            0 => Some(UnaryOp::Neg),
            1 => Some(UnaryOp::Abs),
            2 => Some(UnaryOp::Recip),
            3 => Some(UnaryOp::Sqrt),
            4 => Some(UnaryOp::Square),
            5 => Some(UnaryOp::Floor),
            6 => Some(UnaryOp::Ceil),
            7 => Some(UnaryOp::Round),
            8 => Some(UnaryOp::Sin),
            9 => Some(UnaryOp::Cos),
            10 => Some(UnaryOp::Tan),
            11 => Some(UnaryOp::Asin),
            12 => Some(UnaryOp::Acos),
            13 => Some(UnaryOp::Atan),
            14 => Some(UnaryOp::Exp),
            15 => Some(UnaryOp::Ln),
            16 => Some(UnaryOp::Not),
            17 => Some(UnaryOp::Rand),
            _ => None,
        }
    }
}

impl BinaryOp {
    /// The operation with the number `code` in an expression graph.
    pub fn from_code(code: u8) -> (op: Option<BinaryOp>)
        ensures
            op == binary_of_code(code),
    {
        match code {
            0 => Some(BinaryOp::Add),
            1 => Some(BinaryOp::Sub),
            2 => Some(BinaryOp::Mul),
            3 => Some(BinaryOp::Div),
            4 => Some(BinaryOp::Atan2),
            5 => Some(BinaryOp::Min),
            6 => Some(BinaryOp::Max),
            7 => Some(BinaryOp::Compare),
            8 => Some(BinaryOp::Mod),
            9 => Some(BinaryOp::And),
            10 => Some(BinaryOp::Or),
            11 => Some(BinaryOp::Mix),
            _ => None,
        }
    }

    /// An operation whose result is one of its arguments, so that a tape can be
    /// simplified once the choice is known.
    pub open spec fn choice(self) -> bool {
        self == BinaryOp::Min || self == BinaryOp::Max || self == BinaryOp::And || self
            == BinaryOp::Or
    }

    /// Whether this is an operation whose result is one of its arguments.
    pub fn is_choice(self) -> (b: bool)
        ensures
            b == self.choice(),
    {
        match self {
            BinaryOp::Min | BinaryOp::Max | BinaryOp::And | BinaryOp::Or => true,
            _ => false,
        }
    }
}

impl Opcode {
    /// The operation with the number `code` in a tape.
    pub fn from_repr(code: u8) -> (op: Option<Opcode>)
        ensures
            op == opcode_of_code(code),
    {
        match opcode_repr(code)? {
            0 => Some(Opcode::Output),
            1 => Some(Opcode::Input),
            2 => Some(Opcode::Copy),
            3 => Some(Opcode::Unary(UnaryOp::Neg)),
            4 => Some(Opcode::Unary(UnaryOp::Abs)),
            5 => Some(Opcode::Unary(UnaryOp::Recip)),
            6 => Some(Opcode::Unary(UnaryOp::Sqrt)),
            7 => Some(Opcode::Unary(UnaryOp::Square)),
            8 => Some(Opcode::Unary(UnaryOp::Floor)),
            9 => Some(Opcode::Unary(UnaryOp::Ceil)),
            10 => Some(Opcode::Unary(UnaryOp::Round)),
            11 => Some(Opcode::Unary(UnaryOp::Not)),
            12 => Some(Opcode::Unary(UnaryOp::Rand)),
            13 => Some(Opcode::Unary(UnaryOp::Sin)),
            14 => Some(Opcode::Unary(UnaryOp::Cos)),
            15 => Some(Opcode::Unary(UnaryOp::Tan)),
            16 => Some(Opcode::Unary(UnaryOp::Asin)),
            17 => Some(Opcode::Unary(UnaryOp::Acos)),
            18 => Some(Opcode::Unary(UnaryOp::Atan)),
            19 => Some(Opcode::Unary(UnaryOp::Exp)),
            20 => Some(Opcode::Unary(UnaryOp::Ln)),
            21 => Some(Opcode::Binary(BinaryOp::Add)),
            22 => Some(Opcode::Binary(BinaryOp::Sub)),
            23 => Some(Opcode::Binary(BinaryOp::Mul)),
            24 => Some(Opcode::Binary(BinaryOp::Div)),
            25 => Some(Opcode::Binary(BinaryOp::Atan2)),
            26 => Some(Opcode::Binary(BinaryOp::Compare)),
            27 => Some(Opcode::Binary(BinaryOp::Mix)),
            28 => Some(Opcode::Binary(BinaryOp::Mod)),
            29 => Some(Opcode::Binary(BinaryOp::Min)),
            30 => Some(Opcode::Binary(BinaryOp::Max)),
            31 => Some(Opcode::Binary(BinaryOp::And)),
            32 => Some(Opcode::Binary(BinaryOp::Or)),
            33 => Some(Opcode::Mem),
            _ => None,
        }
    }

    /// An operation that computes a value from values.
    pub open spec fn is_math(self) -> bool {
        self is Unary || self is Binary
    }
}

/// The name of the WGSL function that implements an operation (empty for one
/// that moves values around).
pub open spec fn function_name(op: Opcode) -> Seq<char> {
    match op {
        Opcode::Unary(op) => match op {
            UnaryOp::Neg => "op_neg"@,
            UnaryOp::Abs => "op_abs"@,
            UnaryOp::Recip => "op_recip"@,
            UnaryOp::Sqrt => "op_sqrt"@,
            UnaryOp::Square => "op_square"@,
            UnaryOp::Floor => "op_floor"@,
            UnaryOp::Ceil => "op_ceil"@,
            UnaryOp::Round => "op_round"@,
            UnaryOp::Sin => "op_sin"@,
            UnaryOp::Cos => "op_cos"@,
            UnaryOp::Tan => "op_tan"@,
            UnaryOp::Asin => "op_asin"@,
            UnaryOp::Acos => "op_acos"@,
            UnaryOp::Atan => "op_atan"@,
            UnaryOp::Exp => "op_exp"@,
            UnaryOp::Ln => "op_log"@,
            UnaryOp::Not => "op_not"@,
            UnaryOp::Rand => "op_rand"@,
        },
        Opcode::Binary(op) => match op {
            BinaryOp::Add => "op_add"@,
            BinaryOp::Sub => "op_sub"@,
            BinaryOp::Mul => "op_mul"@,
            BinaryOp::Div => "op_div"@,
            BinaryOp::Atan2 => "op_atan2"@,
            BinaryOp::Min => "op_min"@,
            BinaryOp::Max => "op_max"@,
            BinaryOp::Compare => "op_compare"@,
            BinaryOp::Mod => "op_mod"@,
            BinaryOp::And => "op_and"@,
            BinaryOp::Or => "op_or"@,
            BinaryOp::Mix => "op_mix"@,
        },
        _ => Seq::empty(),
    }
}

/// Returns the name of the WGSL function implementing an operation.
///
/// These are the functions that the tape interpreter is written with.
pub fn op_function(op: Opcode) -> (name: &'static str)
    requires
        op.is_math(),
    ensures
        name@ == function_name(op),
{
    match op {
        Opcode::Unary(op) => match op {
            UnaryOp::Neg => "op_neg",
            UnaryOp::Abs => "op_abs",
            UnaryOp::Recip => "op_recip",
            UnaryOp::Sqrt => "op_sqrt",
            UnaryOp::Square => "op_square",
            UnaryOp::Floor => "op_floor",
            UnaryOp::Ceil => "op_ceil",
            UnaryOp::Round => "op_round",
            UnaryOp::Sin => "op_sin",
            UnaryOp::Cos => "op_cos",
            UnaryOp::Tan => "op_tan",
            UnaryOp::Asin => "op_asin",
            UnaryOp::Acos => "op_acos",
            UnaryOp::Atan => "op_atan",
            UnaryOp::Exp => "op_exp",
            UnaryOp::Ln => "op_log",
            UnaryOp::Not => "op_not",
            UnaryOp::Rand => "op_rand",
        },
        Opcode::Binary(op) => match op {
            BinaryOp::Add => "op_add",
            BinaryOp::Sub => "op_sub",
            BinaryOp::Mul => "op_mul",
            BinaryOp::Div => "op_div",
            BinaryOp::Atan2 => "op_atan2",
            BinaryOp::Min => "op_min",
            BinaryOp::Max => "op_max",
            BinaryOp::Compare => "op_compare",
            BinaryOp::Mod => "op_mod",
            BinaryOp::And => "op_and",
            BinaryOp::Or => "op_or",
            BinaryOp::Mix => "op_mix",
        },
        _ => "",
    }
}

} // verus!
