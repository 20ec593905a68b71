//! Lowering tapes, and the WGSL functions that they become.

use fidget_bytecode::{Bytecode, BytecodeOp, ReservedRegister};
use fidget_core::context::{Context, Tree};
use fidget_core::eval::Function as _;
use fidget_core::var::Var;
use fidget_core::vm::VmShape;
use fidget_kernels::opcode::{op_function, BinaryOp, Opcode, UnaryOp};
use fidget_kernels::tape::{lower, Binding, Function, Instruction, Operand};
use fidget_kernels::text::{push_decimal, push_hex};
use fidget_kernels::wgsl::{compile_function, compile_words};
use fidget_kernels::{KernelError, Variable};
use std::collections::HashMap;

const START: [u32; 2] = [u32::MAX, 0];
const END: [u32; 2] = [u32::MAX, u32::MAX];
const AXES: [(Variable, usize); 3] =
    [(Variable::X, 0), (Variable::Y, 1), (Variable::Z, 2)];

fn op(op: BytecodeOp, dst: u8, lhs: u8, rhs: u8, imm: u32) -> [u32; 2] {
    [u32::from_le_bytes([op as u8, dst, lhs, rhs]), imm]
}

fn tape(ops: &[[u32; 2]]) -> Vec<u32> {
    let mut words = START.to_vec();
    for o in ops {
        words.extend(o);
    }
    words.extend(END);
    words
}

fn compile(ops: &[[u32; 2]]) -> Result<String, KernelError> {
    compile_words(&tape(ops), &AXES, "f")
}

fn message(r: Result<String, KernelError>) -> String {
    match r {
        Ok(s) => panic!("compiled to {s}"),
        Err(e) => e.message(),
    }
}

#[test]
fn words_unpack_lowest_byte_first() {
    let i = Instruction::unpack(0x0403_0201, 7);
    assert_eq!((i.opcode, i.dst, i.lhs, i.rhs, i.imm), (1, 2, 3, 4, 7));
    let i = Instruction::unpack(0xFFFE_FDFC, u32::MAX);
    assert_eq!(
        (i.opcode, i.dst, i.lhs, i.rhs),
        (0xFC, 0xFD, 0xFE, 0xFF)
    );
}

#[test]
fn functions_are_straight_line_text() {
    let src = compile(&[
        op(BytecodeOp::Input, 0, 0xFF, 0xFF, 2),
        op(BytecodeOp::Copy, 1, 0xFF, 0xFF, 1.5f32.to_bits()),
        op(BytecodeOp::Copy, 2, 0, 0xFF, 0),
        op(BytecodeOp::Ln, 3, 2, 0xFF, 0),
        op(BytecodeOp::Sub, 3, 3, 0xFF, 1),
        op(BytecodeOp::Min, 3, 1, 3, 0),
        op(BytecodeOp::Output, 3, 0xFF, 0xFF, 0),
    ])
    .unwrap();
    assert_eq!(
        src,
        "fn f(xyz: array<Value, 3>) -> Value {
    var stack = Stack();
    let v0 = xyz[2];
    let v1 = build_imm(bitcast<f32>(0x3fc00000u));
    let v2 = op_log(v0);
    let v3 = op_sub(v2, build_imm(bitcast<f32>(0x00000001u)));
    let v4 = op_min(v1, v3, &stack);
    return v4;
}
"
    );
}

#[test]
fn spills_are_resolved() {
    let src = compile(&[
        op(BytecodeOp::Input, 0, 0xFF, 0xFF, 0),
        op(BytecodeOp::Mem, 0xFF, 0, 0xFF, 9),
        op(BytecodeOp::Input, 0, 0xFF, 0xFF, 1),
        op(BytecodeOp::Mem, 1, 0xFF, 0xFF, 9),
        op(BytecodeOp::Div, 0, 1, 0, 0),
        op(BytecodeOp::Output, 0, 0xFF, 0xFF, 0),
    ])
    .unwrap();
    assert_eq!(
        src,
        "fn f(xyz: array<Value, 3>) -> Value {
    var stack = Stack();
    let v0 = xyz[0];
    let v1 = xyz[1];
    let v2 = op_div(v0, v1);
    return v2;
}
"
    );
}

#[test]
fn what_follows_the_end_is_ignored() {
    let mut words = tape(&[op(BytecodeOp::Output, 0xFF, 0xFF, 0xFF, 3)]);
    words.extend([0x0000_0077, 0]);
    let src = compile_words(&words, &[], "g").unwrap();
    assert_eq!(
        src,
        "fn g(xyz: array<Value, 3>) -> Value {
    var stack = Stack();
    return build_imm(bitcast<f32>(0x00000003u));
}
"
    );
}

#[test]
fn the_last_output_counts() {
    let src = compile(&[
        op(BytecodeOp::Input, 0, 0xFF, 0xFF, 0),
        op(BytecodeOp::Output, 0, 0xFF, 0xFF, 0),
        op(BytecodeOp::Input, 1, 0xFF, 0xFF, 1),
        op(BytecodeOp::Output, 1, 0xFF, 0xFF, 0),
    ])
    .unwrap();
    assert!(src.ends_with("    return v1;\n}\n"));
}

#[test]
fn inputs_go_by_their_index() {
    let words = tape(&[
        op(BytecodeOp::Input, 0, 0xFF, 0xFF, 5),
        op(BytecodeOp::Output, 0, 0xFF, 0xFF, 0),
    ]);
    let inputs = [(Variable::Z, 5), (Variable::X, 1)];
    let src = compile_words(&words, &inputs, "f").unwrap();
    assert!(src.contains("let v0 = xyz[2];"));
}

#[test]
fn every_error_is_told() {
    assert_eq!(
        message(compile_words(&[u32::MAX], &AXES, "f")),
        "malformed bytecode: odd number of words"
    );
    assert_eq!(
        message(compile(&[[u32::MAX, 12]])),
        "malformed bytecode: unexpected jump"
    );
    assert_eq!(message(compile(&[[34, 0]])), "unknown opcode 34");
    assert_eq!(message(compile(&[[0xFE, 0]])), "unknown opcode 254");
    assert_eq!(
        message(compile(&[op(BytecodeOp::Neg, 0, 1, 0xFF, 0)])),
        "malformed bytecode: read of unset register"
    );
    assert_eq!(
        message(compile(&[op(BytecodeOp::Add, 0, 0xFF, 1, 0)])),
        "malformed bytecode: read of unset register"
    );
    assert_eq!(
        message(compile(&[op(BytecodeOp::Mem, 0, 0xFF, 0xFF, 4)])),
        "malformed bytecode: load of unset slot"
    );
    assert_eq!(
        message(compile(&[op(BytecodeOp::Input, 0, 0xFF, 0xFF, 3)])),
        "malformed bytecode: unknown input"
    );
    assert_eq!(message(compile(&[])), "malformed bytecode: no output");
    assert_eq!(
        message(compile_words(&[], &AXES, "f")),
        "malformed bytecode: no output"
    );
    let v = Var::new();
    let free = Variable::V(v.index().unwrap());
    assert_eq!(
        message(compile_words(&[], &[(Variable::X, 0), (free, 1)], "f")),
        format!("kernels may only use the X, Y, and Z axes (found {v})")
    );
    assert_eq!(
        KernelError::UnsupportedVar(Variable::Y).message(),
        "kernels may only use the X, Y, and Z axes (found Y)"
    );
    assert_eq!(
        KernelError::RegisterError(ReservedRegister).message(),
        "register 255 is reserved"
    );
}

/// Operations are known by the numbers and names of the bytecode
#[test]
fn opcodes_match_the_bytecode() {
    for (name, code) in fidget_bytecode::iter_ops() {
        let op = Opcode::from_repr(code).unwrap();
        let known = match op {
            Opcode::Output => "Output".to_owned(),
            Opcode::Input => "Input".to_owned(),
            Opcode::Copy => "Copy".to_owned(),
            Opcode::Mem => "Mem".to_owned(),
            Opcode::Unary(op) => format!("{op:?}"),
            Opcode::Binary(op) => format!("{op:?}"),
        };
        assert_eq!(name, known);
    }
    for code in 0..=u8::MAX {
        assert_eq!(
            Opcode::from_repr(code).is_some(),
            BytecodeOp::from_repr(code).is_some()
        );
    }
    assert_eq!(op_function(Opcode::Unary(UnaryOp::Ln)), "op_log");
    assert_eq!(op_function(Opcode::Binary(BinaryOp::Atan2)), "op_atan2");
    assert!(BinaryOp::Or.is_choice());
    assert!(!BinaryOp::Mix.is_choice());
}

fn unary(op: UnaryOp, a: f32) -> f32 {
    match op {
        UnaryOp::Neg => -a,
        UnaryOp::Abs => a.abs(),
        UnaryOp::Recip => 1.0 / a,
        UnaryOp::Sqrt => a.sqrt(),
        UnaryOp::Square => a * a,
        UnaryOp::Floor => a.floor(),
        UnaryOp::Ceil => a.ceil(),
        UnaryOp::Sin => a.sin(),
        UnaryOp::Cos => a.cos(),
        UnaryOp::Exp => a.exp(),
        UnaryOp::Ln => a.ln(),
        op => panic!("{op:?}"),
    }
}

fn binary(op: BinaryOp, a: f32, b: f32) -> f32 {
    match op {
        BinaryOp::Add => a + b,
        BinaryOp::Sub => a - b,
        BinaryOp::Mul => a * b,
        BinaryOp::Div => a / b,
        BinaryOp::Min => a.min(b),
        BinaryOp::Max => a.max(b),
        op => panic!("{op:?}"),
    }
}

/// Evaluates straight-line code
fn evaluate(f: &Function, xyz: [f32; 3]) -> f32 {
    let mut values: Vec<f32> = vec![];
    let arg = |values: &[f32], a: Operand| match a {
        Operand::Immediate(bits) => f32::from_bits(bits),
        Operand::Value(i) => values[i],
    };
    for b in &f.bindings {
        let v = match *b {
            Binding::Immediate(bits) => f32::from_bits(bits),
            Binding::Axis(a) => xyz[a as usize],
            Binding::Unary(op, a) => unary(op, arg(&values, a)),
            Binding::Binary(op, a, b) => {
                binary(op, arg(&values, a), arg(&values, b))
            }
        };
        values.push(v);
    }
    arg(&values, f.output)
}

/// Compiled and interpreted evaluation agree
#[test]
fn compiled_code_evaluates_like_the_tree() {
    let (x, y, z) = Tree::axes();
    let a = (x.clone().sin() * 3.0 + y.clone().cos()).abs().sqrt();
    let b = (z.clone().square() - x.clone().exp() / 2.0).floor();
    let t = a.min(b.clone()).max(-y.clone().ceil()) + b.recip();
    let shape = VmShape::from(t.clone());
    let bytecode = Bytecode::new(shape.inner().data()).unwrap();
    let vars = shape.inner().vars();
    let axes: Vec<(u32, u32)> = [(Var::X, 0), (Var::Y, 1), (Var::Z, 2)]
        .into_iter()
        .map(|(v, a)| (vars.get(&v).unwrap() as u32, a))
        .collect();
    let f = lower(bytecode.data(), &axes).unwrap();
    assert!(f.bindings.len() * 2 <= bytecode.len());
    let mut ctx = Context::new();
    let root = ctx.import(&t);
    for i in 0..50 {
        let p = [i as f32 * 0.1 - 2.5, 1.3 - i as f32 * 0.07, 0.4 * i as f32];
        let vars: HashMap<Var, f32> =
            [(Var::X, p[0]), (Var::Y, p[1]), (Var::Z, p[2])].into();
        assert_eq!(evaluate(&f, p), ctx.eval(root, &vars).unwrap());
    }
}

/// The words and the variables of a tape are read where they are
#[test]
fn bytecode_compiles_to_a_named_function() {
    let t = Tree::y() * 2.0 - Tree::x();
    let shape = VmShape::from(t);
    let bytecode = Bytecode::new(shape.inner().data()).unwrap();
    let vars = shape.inner().vars();
    let src = compile_function(&bytecode, vars, "twice").unwrap();
    assert!(src.starts_with("fn twice(xyz: array<Value, 3>) -> Value {\n"));
    assert!(src.contains("= xyz[0];\n"));
    assert!(src.contains("= xyz[1];\n"));
    assert!(!src.contains("xyz[2]"));
    assert!(src.contains("build_imm(bitcast<f32>(0x40000000u))"));
    let inputs: Vec<(Variable, usize)> = [(Variable::X, Var::X), (Variable::Y, Var::Y)]
        .into_iter()
        .map(|(v, w)| (v, vars.get(&w).unwrap()))
        .collect();
    assert_eq!(
        src,
        compile_words(bytecode.data(), &inputs, "twice").unwrap()
    );
}

#[test]
fn numbers_are_spelled() {
    for n in [0usize, 7, 10, 99, 100, 65_536, usize::MAX] {
        let mut s = "n".to_owned();
        push_decimal(&mut s, n);
        assert_eq!(s, format!("n{n}"));
    }
    for n in [0u32, 1, 0xDEAD_BEEF, 0x8000_0000, u32::MAX] {
        let mut s = String::new();
        push_hex(&mut s, n, 8);
        assert_eq!(s, format!("{n:08x}"));
    }
}

#[test]
fn names_change_only_the_header() {
    let ops = [
        op(BytecodeOp::Input, 0, 0xFF, 0xFF, 0),
        op(BytecodeOp::Output, 0, 0xFF, 0xFF, 0),
    ];
    let a = compile_words(&tape(&ops), &AXES, "one").unwrap();
    let b = compile_words(&tape(&ops), &AXES, "another").unwrap();
    let rest = a.strip_prefix("fn one").unwrap();
    assert_eq!(rest, b.strip_prefix("fn another").unwrap());
    assert!(rest.starts_with(
        "(xyz: array<Value, 3>) -> Value {\n    var stack = Stack();\n"
    ));
    assert!(rest.ends_with(";\n}\n"));
}

#[test]
fn start_markers_change_nothing() {
    let input = op(BytecodeOp::Input, 0, 0xFF, 0xFF, 1);
    let output = op(BytecodeOp::Output, 0, 0xFF, 0xFF, 0);
    let plain = compile(&[input, output]).unwrap();
    let marked = compile(&[START, input, [0x1234_56FF, 0], output]).unwrap();
    assert_eq!(plain, marked);
}

#[test]
fn register_errors_convert() {
    let e = KernelError::from(ReservedRegister);
    assert!(matches!(e, KernelError::RegisterError(ReservedRegister)));
}
