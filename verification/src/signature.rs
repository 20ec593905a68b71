//! The function that the tape interpreter calls: every kernel source defines it
//! once, with one and the same signature.

use crate::error::RenderShapeError;
use crate::opcode::{function_name, BinaryOp, Opcode, UnaryOp};
use crate::outside::axis_entries;
use crate::program::{
    builds, case_text, cases_text, fails, functions_text, kernel_name, used_kernels, Candidate,
    KernelProgram, KernelText, KERNEL_STUB,
};
use crate::tape::{lowered, Binding, Code, Operand};
use crate::text::{decimal, hex};
use crate::wgsl::{
    axis_table, binding_text, body_text, compiled, function_text, let_text, operand_text,
};
use vstd::prelude::*;

verus! {

/// The signature of `kernel_input`.
pub open spec fn signature() -> Seq<char> {
    "fn kernel_input(\n    index: u32, xyz: array<Value, 3>, out: ptr<function, Value>,\n) -> bool {"@
}

/// `piece` stands in `text` at the position `i`.
pub open spec fn stands_at(text: Seq<char>, piece: Seq<char>, i: int) -> bool {
    0 <= i && i + piece.len() <= text.len() && text.subrange(i, i + piece.len()) == piece
}

/// `text` has the signature of `kernel_input`, and its name nowhere else.
pub open spec fn defines_kernel_input_once(text: Seq<char>) -> bool {
    exists|i: int| #[trigger]
        stands_at(text, signature(), i) && forall|j: int| #[trigger]
            stands_at(text, "kernel_input"@, j) ==> j == i + 3
}

/// Every `p` follows some letter other than `n`, so that the text has no `input`.
spec fn is_quiet(s: Seq<char>) -> bool {
    forall|i: int| 0 <= i < s.len() && #[trigger] s[i] == 'p' ==> i > 0 && s[i - 1] != 'n'
}

proof fn quiet_sum(a: Seq<char>, b: Seq<char>)
    requires
        is_quiet(a),
        is_quiet(b),
    ensures
        is_quiet(a + b),
{
    let s = a + b;
    assert forall|i: int| 0 <= i < s.len() && #[trigger] s[i] == 'p' implies i > 0 && s[i - 1]
        != 'n' by {
        if i < a.len() {
            assert(a[i] == 'p');
        } else {
            assert(b[i - a.len()] == 'p');
        }
    }
}

proof fn quiet_numbers(n: nat)
    ensures
        is_quiet(decimal(n)),
    decreases n,
{
    if n >= 10 {
        quiet_numbers(n / 10);
    }
}

proof fn quiet_hex(n: nat, width: nat)
    ensures
        is_quiet(hex(n, width)),
    decreases width,
{
    if width > 0 {
        quiet_hex(n / 16, (width - 1) as nat);
    }
}

proof fn quiet_names(op: Opcode)
    requires
        op.is_math(),
    ensures
        is_quiet(function_name(op)),
{
    match op {
        Opcode::Unary(op) => match op {
            UnaryOp::Neg => reveal_strlit("op_neg"),
            UnaryOp::Abs => reveal_strlit("op_abs"),
            UnaryOp::Recip => reveal_strlit("op_recip"),
            UnaryOp::Sqrt => reveal_strlit("op_sqrt"),
            UnaryOp::Square => reveal_strlit("op_square"),
            UnaryOp::Floor => reveal_strlit("op_floor"),
            UnaryOp::Ceil => reveal_strlit("op_ceil"),
            UnaryOp::Round => reveal_strlit("op_round"),
            UnaryOp::Sin => reveal_strlit("op_sin"),
            UnaryOp::Cos => reveal_strlit("op_cos"),
            UnaryOp::Tan => reveal_strlit("op_tan"),
            UnaryOp::Asin => reveal_strlit("op_asin"),
            UnaryOp::Acos => reveal_strlit("op_acos"),
            UnaryOp::Atan => reveal_strlit("op_atan"),
            UnaryOp::Exp => reveal_strlit("op_exp"),
            UnaryOp::Ln => reveal_strlit("op_log"),
            UnaryOp::Not => reveal_strlit("op_not"),
            UnaryOp::Rand => reveal_strlit("op_rand"),
        },
        Opcode::Binary(op) => match op {
            BinaryOp::Add => reveal_strlit("op_add"),
            BinaryOp::Sub => reveal_strlit("op_sub"),
            BinaryOp::Mul => reveal_strlit("op_mul"),
            BinaryOp::Div => reveal_strlit("op_div"),
            BinaryOp::Atan2 => reveal_strlit("op_atan2"),
            BinaryOp::Min => reveal_strlit("op_min"),
            BinaryOp::Max => reveal_strlit("op_max"),
            BinaryOp::Compare => reveal_strlit("op_compare"),
            BinaryOp::Mod => reveal_strlit("op_mod"),
            BinaryOp::And => reveal_strlit("op_and"),
            BinaryOp::Or => reveal_strlit("op_or"),
            BinaryOp::Mix => reveal_strlit("op_mix"),
        },
        _ => {},
    }
}

proof fn quiet_operand(a: Operand)
    ensures
        is_quiet(operand_text(a)),
{
    match a {
        Operand::Immediate(bits) => {
            reveal_strlit("build_imm(bitcast<f32>(0x");
            reveal_strlit("u))");
            quiet_hex(bits as nat, 8);
            quiet_sum("build_imm(bitcast<f32>(0x"@, hex(bits as nat, 8));
            quiet_sum("build_imm(bitcast<f32>(0x"@ + hex(bits as nat, 8), "u))"@);
        },
        Operand::Value(i) => {
            reveal_strlit("v");
            quiet_numbers(i as nat);
            quiet_sum("v"@, decimal(i as nat));
        },
    }
}

proof fn quiet_binding(b: Binding)
    ensures
        is_quiet(binding_text(b)),
{
    reveal_strlit("(");
    reveal_strlit(")");
    match b {
        Binding::Immediate(bits) => quiet_operand(Operand::Immediate(bits)),
        Binding::Axis(a) => {
            reveal_strlit("xyz[");
            reveal_strlit("]");
            quiet_numbers(a as nat);
            quiet_sum("xyz["@, decimal(a as nat));
            quiet_sum("xyz["@ + decimal(a as nat), "]"@);
        },
        Binding::Unary(op, a) => {
            let f = function_name(Opcode::Unary(op));
            quiet_names(Opcode::Unary(op));
            quiet_operand(a);
            quiet_sum(f, "("@);
            quiet_sum(f + "("@, operand_text(a));
            quiet_sum(f + "("@ + operand_text(a), ")"@);
        },
        Binding::Binary(op, a, b) => {
            let f = function_name(Opcode::Binary(op));
            let end = if op.choice() {
                ", &stack)"@
            } else {
                ")"@
            };
            reveal_strlit(", ");
            reveal_strlit(", &stack)");
            quiet_names(Opcode::Binary(op));
            quiet_operand(a);
            quiet_operand(b);
            quiet_sum(f, "("@);
            quiet_sum(f + "("@, operand_text(a));
            quiet_sum(f + "("@ + operand_text(a), ", "@);
            quiet_sum(f + "("@ + operand_text(a) + ", "@, operand_text(b));
            quiet_sum(f + "("@ + operand_text(a) + ", "@ + operand_text(b), end);
        },
    }
}

proof fn quiet_body(bindings: Seq<Binding>)
    ensures
        is_quiet(body_text(bindings)),
    decreases bindings.len(),
{
    if bindings.len() > 0 {
        let k = (bindings.len() - 1) as nat;
        let b = bindings.last();
        reveal_strlit("    let v");
        reveal_strlit(" = ");
        reveal_strlit(";\n");
        quiet_body(bindings.drop_last());
        quiet_numbers(k);
        quiet_binding(b);
        quiet_sum("    let v"@, decimal(k));
        quiet_sum("    let v"@ + decimal(k), " = "@);
        quiet_sum("    let v"@ + decimal(k) + " = "@, binding_text(b));
        quiet_sum("    let v"@ + decimal(k) + " = "@ + binding_text(b), ";\n"@);
        quiet_sum(body_text(bindings.drop_last()), let_text(k, b));
    }
}

proof fn quiet_kernel_name(number: nat)
    ensures
        is_quiet(kernel_name(number)),
{
    reveal_strlit("kernel_");
    quiet_numbers(number);
    quiet_sum("kernel_"@, decimal(number));
}

proof fn quiet_function(number: nat, code: Code)
    ensures
        is_quiet(function_text(kernel_name(number), code)),
{
    let name = kernel_name(number);
    let head = "(xyz: array<Value, 3>) -> Value {\n    var stack = Stack();\n"@;
    let body = body_text(code.bindings);
    reveal_strlit("fn ");
    reveal_strlit("(xyz: array<Value, 3>) -> Value {\n    var stack = Stack();\n");
    reveal_strlit("    return ");
    reveal_strlit(";\n}\n");
    quiet_kernel_name(number);
    quiet_body(code.bindings);
    quiet_operand(code.output);
    quiet_sum("fn "@, name);
    quiet_sum("fn "@ + name, head);
    quiet_sum("fn "@ + name + head, body);
    quiet_sum("fn "@ + name + head + body, "    return "@);
    quiet_sum("fn "@ + name + head + body + "    return "@, operand_text(code.output));
    quiet_sum(
        "fn "@ + name + head + body + "    return "@ + operand_text(code.output),
        ";\n}\n"@,
    );
}

proof fn quiet_case(k: KernelText)
    ensures
        is_quiet(case_text(k)),
{
    let index = decimal(k.index as nat);
    let name = kernel_name(k.number as nat);
    reveal_strlit("        case ");
    reveal_strlit("u: { *out = ");
    reveal_strlit("(xyz); return true; }\n");
    quiet_numbers(k.index as nat);
    quiet_kernel_name(k.number as nat);
    quiet_sum("        case "@, index);
    quiet_sum("        case "@ + index, "u: { *out = "@);
    quiet_sum("        case "@ + index + "u: { *out = "@, name);
    quiet_sum("        case "@ + index + "u: { *out = "@ + name, "(xyz); return true; }\n"@);
}

proof fn quiet_cases(kernels: Seq<KernelText>)
    ensures
        is_quiet(cases_text(kernels)),
    decreases kernels.len(),
{
    if kernels.len() > 0 {
        quiet_cases(kernels.drop_last());
        quiet_case(kernels.last());
        quiet_sum(cases_text(kernels.drop_last()), case_text(kernels.last()));
    }
}

proof fn quiet_functions(kernels: Seq<Candidate>)
    requires
        forall|i: int| 0 <= i < kernels.len() ==> !fails(#[trigger] kernels[i], i as nat),
    ensures
        is_quiet(functions_text(used_kernels(kernels))),
    decreases kernels.len(),
{
    if kernels.len() > 0 {
        let rest = kernels.drop_last();
        let k = kernels.last();
        let number = (kernels.len() - 1) as nat;
        assert forall|i: int| 0 <= i < rest.len() implies !fails(#[trigger] rest[i], i as nat) by {
            assert(rest[i] == kernels[i]);
        }
        quiet_functions(rest);
        if k.index is Some {
            let used = used_kernels(kernels);
            assert(!fails(kernels[kernels.len() - 1], number));
            let text = compiled(k.words, axis_entries(k.inputs), kernel_name(number));
            if let Ok(axes) = axis_table(axis_entries(k.inputs)) {
                if let Ok(code) = lowered(axes, k.words) {
                    quiet_function(number, code);
                }
            }
            assert(used.drop_last() =~= used_kernels(rest));
            quiet_sum(functions_text(used_kernels(rest)), text->Ok_0);
        }
    }
}

/// A text with one `input`, and the signature around it, defines `kernel_input`
/// once.
proof fn loud_once(before: Seq<char>, after: Seq<char>)
    requires
        is_quiet(before),
        is_quiet(after),
    ensures
        defines_kernel_input_once(before + signature() + after),
{
    let text = before + signature() + after;
    let n = before.len() as int;
    let m = signature().len() as int;
    let name = "kernel_input"@;
    reveal_strlit(
        "fn kernel_input(\n    index: u32, xyz: array<Value, 3>, out: ptr<function, Value>,\n) -> bool {",
    );
    reveal_strlit("kernel_input");
    assert(text.subrange(n, n + m) =~= signature());
    assert(stands_at(text, signature(), n));
    assert forall|j: int| #[trigger] stands_at(text, name, j) implies j == n + 3 by {
        let k = j + 9;
        let found = text.subrange(j, j + name.len());
        assert(found[8] == 'n' && found[9] == 'p');
        assert(text[k - 1] == 'n' && text[k] == 'p');
        if k < n {
            assert(before[k] == 'p');
        } else if k < n + m {
            assert(signature()[k - n] == 'p');
            if k > n {
                assert(signature()[k - n - 1] == 'n');
            }
        } else {
            assert(after[k - n - m] == 'p');
        }
    }
}

proof fn head_is_the_signature()
    ensures
        "\nfn kernel_input(\n    index: u32, xyz: array<Value, 3>, out: ptr<function, Value>,\n) -> bool {\n    switch index {\n"@
            == "\n"@ + signature() + "\n    switch index {\n"@,
{
    reveal_strlit("\n");
    reveal_strlit("\n    switch index {\n");
    reveal_strlit(
        "fn kernel_input(\n    index: u32, xyz: array<Value, 3>, out: ptr<function, Value>,\n) -> bool {",
    );
    reveal_strlit(
        "\nfn kernel_input(\n    index: u32, xyz: array<Value, 3>, out: ptr<function, Value>,\n) -> bool {\n    switch index {\n",
    );
    assert("\nfn kernel_input(\n    index: u32, xyz: array<Value, 3>, out: ptr<function, Value>,\n) -> bool {\n    switch index {\n"@
        =~= "\n"@ + signature() + "\n    switch index {\n"@);
}

proof fn stub_defines_kernel_input_once()
    ensures
        defines_kernel_input_once(KERNEL_STUB@),
{
    let end = "\n    return false;\n}\n"@;
    reveal_strlit("\n");
    reveal_strlit("\n    return false;\n}\n");
    loud_once("\n"@, end);
    reveal_strlit(
        "fn kernel_input(\n    index: u32, xyz: array<Value, 3>, out: ptr<function, Value>,\n) -> bool {",
    );
    reveal_strlit("
fn kernel_input(
    index: u32, xyz: array<Value, 3>, out: ptr<function, Value>,
) -> bool {
    return false;
}
");
    assert(KERNEL_STUB@ =~= "\n"@ + signature() + end);
}

/// Every kernel source defines `kernel_input` once, and always with the same
/// signature: the one for shapes without kernels as well as every program.
pub proof fn sources_define_kernel_input_once(kernels: Seq<Candidate>, p: KernelProgram)
    requires
        builds(kernels, Ok::<Option<KernelProgram>, RenderShapeError>(Some(p))),
    ensures
        defines_kernel_input_once(p.source@),
        defines_kernel_input_once(KERNEL_STUB@),
{
    let used = used_kernels(kernels);
    let line = "\n"@;
    let open = "\n    switch index {\n"@;
    let end = "        default: { return false; }\n    }\n}\n"@;
    reveal_strlit("\n");
    reveal_strlit("\n    switch index {\n");
    reveal_strlit("        default: { return false; }\n    }\n}\n");
    quiet_functions(kernels);
    quiet_cases(used);
    quiet_sum(functions_text(used), line);
    quiet_sum(open, cases_text(used));
    quiet_sum(open + cases_text(used), end);
    loud_once(functions_text(used) + line, open + cases_text(used) + end);
    head_is_the_signature();
    assert(p.source@ =~= functions_text(used) + line + signature() + (open + cases_text(used)
        + end));
    stub_defines_kernel_input_once();
}

} // verus!
