//! What the text of a WGSL function means: reading it gives the straight-line
//! code back that it was written for.

use crate::opcode::{function_name, BinaryOp, Opcode, UnaryOp};
use crate::reading::{
    after, after_fails, after_reads, number_reads, read_number, read_word, starts_otherwise, until,
    until_reads, word_reads,
};
use crate::tape::{Binding, Code, Operand};
use crate::text::{decimal, hex};
use crate::wgsl::{binding_text, body_text, function_text, let_text, operand_text};
use vstd::prelude::*;

verus! {

// ---------------------------------------------------------------------------
// The operations
// ---------------------------------------------------------------------------

/// `s` is made of these two letters.
pub open spec fn two(s: Seq<char>, a: char, b: char) -> bool {
    s.len() == 2 && s[0] == a && s[1] == b
}

/// `s` is made of these three letters.
pub open spec fn three(s: Seq<char>, a: char, b: char, c: char) -> bool {
    s.len() == 3 && s[0] == a && s[1] == b && s[2] == c
}

/// `s` is made of these four letters.
pub open spec fn four(s: Seq<char>, a: char, b: char, c: char, d: char) -> bool {
    s.len() == 4 && s[0] == a && s[1] == b && s[2] == c && s[3] == d
}

/// `s` is made of these five letters.
pub open spec fn five(s: Seq<char>, a: char, b: char, c: char, d: char, e: char) -> bool {
    s.len() == 5 && s[0] == a && s[1] == b && s[2] == c && s[3] == d && s[4] == e
}

/// The operation that a word stands for behind `op_` in the shaders: the words
/// are those of the tape interpreter's functions.
pub open spec fn operation_called(s: Seq<char>) -> Option<Opcode> {
    if three(s, 'n', 'e', 'g') {
        Some(Opcode::Unary(UnaryOp::Neg))
    } else if three(s, 'a', 'b', 's') {
        Some(Opcode::Unary(UnaryOp::Abs))
    } else if five(s, 'r', 'e', 'c', 'i', 'p') {
        Some(Opcode::Unary(UnaryOp::Recip))
    } else if four(s, 's', 'q', 'r', 't') {
        Some(Opcode::Unary(UnaryOp::Sqrt))
    } else if s.len() == 6 && five(s.take(5), 's', 'q', 'u', 'a', 'r') && s[5] == 'e' {
        Some(Opcode::Unary(UnaryOp::Square))
    } else if five(s, 'f', 'l', 'o', 'o', 'r') {
        Some(Opcode::Unary(UnaryOp::Floor))
    } else if four(s, 'c', 'e', 'i', 'l') {
        Some(Opcode::Unary(UnaryOp::Ceil))
    } else if five(s, 'r', 'o', 'u', 'n', 'd') {
        Some(Opcode::Unary(UnaryOp::Round))
    } else if three(s, 's', 'i', 'n') {
        Some(Opcode::Unary(UnaryOp::Sin))
    } else if three(s, 'c', 'o', 's') {
        Some(Opcode::Unary(UnaryOp::Cos))
    } else if three(s, 't', 'a', 'n') {
        Some(Opcode::Unary(UnaryOp::Tan))
    } else if four(s, 'a', 's', 'i', 'n') {
        Some(Opcode::Unary(UnaryOp::Asin))
    } else if four(s, 'a', 'c', 'o', 's') {
        Some(Opcode::Unary(UnaryOp::Acos))
    } else if four(s, 'a', 't', 'a', 'n') {
        Some(Opcode::Unary(UnaryOp::Atan))
    } else if three(s, 'e', 'x', 'p') {
        Some(Opcode::Unary(UnaryOp::Exp))
    } else if three(s, 'l', 'o', 'g') {
        Some(Opcode::Unary(UnaryOp::Ln))
    } else if three(s, 'n', 'o', 't') {
        Some(Opcode::Unary(UnaryOp::Not))
    } else if four(s, 'r', 'a', 'n', 'd') {
        Some(Opcode::Unary(UnaryOp::Rand))
    } else if three(s, 'a', 'd', 'd') {
        Some(Opcode::Binary(BinaryOp::Add))
    } else if three(s, 's', 'u', 'b') {
        Some(Opcode::Binary(BinaryOp::Sub))
    } else if three(s, 'm', 'u', 'l') {
        Some(Opcode::Binary(BinaryOp::Mul))
    } else if three(s, 'd', 'i', 'v') {
        Some(Opcode::Binary(BinaryOp::Div))
    } else if five(s, 'a', 't', 'a', 'n', '2') {
        Some(Opcode::Binary(BinaryOp::Atan2))
    } else if three(s, 'm', 'i', 'n') {
        Some(Opcode::Binary(BinaryOp::Min))
    } else if three(s, 'm', 'a', 'x') {
        Some(Opcode::Binary(BinaryOp::Max))
    } else if s.len() == 7 && five(s.take(5), 'c', 'o', 'm', 'p', 'a') && s[5] == 'r' && s[6]
        == 'e' {
        Some(Opcode::Binary(BinaryOp::Compare))
    } else if three(s, 'm', 'o', 'd') {
        Some(Opcode::Binary(BinaryOp::Mod))
    } else if three(s, 'a', 'n', 'd') {
        Some(Opcode::Binary(BinaryOp::And))
    } else if two(s, 'o', 'r') {
        Some(Opcode::Binary(BinaryOp::Or))
    } else if three(s, 'm', 'i', 'x') {
        Some(Opcode::Binary(BinaryOp::Mix))
    } else {
        None
    }
}

/// The operation that a function of the tape interpreter implements.
pub open spec fn operation_of(name: Seq<char>) -> Option<Opcode> {
    if name.len() >= 3 && name[0] == 'o' && name[1] == 'p' && name[2] == '_' {
        operation_called(name.skip(3))
    } else {
        None
    }
}

/// The function that is called for an operation is the one that implements it.
pub proof fn operations_read_back(op: Opcode)
    requires
        op.is_math(),
    ensures
        operation_of(function_name(op)) == Some(op),
        !function_name(op).contains('('),
        function_name(op).len() > 0,
        function_name(op)[0] == 'o',
{
    reveal_strlit("op_neg");
    reveal_strlit("op_abs");
    reveal_strlit("op_recip");
    reveal_strlit("op_sqrt");
    reveal_strlit("op_square");
    reveal_strlit("op_floor");
    reveal_strlit("op_ceil");
    reveal_strlit("op_round");
    reveal_strlit("op_sin");
    reveal_strlit("op_cos");
    reveal_strlit("op_tan");
    reveal_strlit("op_asin");
    reveal_strlit("op_acos");
    reveal_strlit("op_atan");
    reveal_strlit("op_exp");
    reveal_strlit("op_log");
    reveal_strlit("op_not");
    reveal_strlit("op_rand");
    reveal_strlit("op_add");
    reveal_strlit("op_sub");
    reveal_strlit("op_mul");
    reveal_strlit("op_div");
    reveal_strlit("op_atan2");
    reveal_strlit("op_min");
    reveal_strlit("op_max");
    reveal_strlit("op_compare");
    reveal_strlit("op_mod");
    reveal_strlit("op_and");
    reveal_strlit("op_or");
    reveal_strlit("op_mix");
    let name = function_name(op);
    let s = name.skip(3);
    assert forall|i: int| 0 <= i < name.len() implies name[i] != '(' by {}
    assert(operation_called(s) == Some(op));
}

/// The operations that record a choice.
pub open spec fn records_choice(op: BinaryOp) -> bool {
    op is Min || op is Max || op is And || op is Or
}

// ---------------------------------------------------------------------------
// Reading
// ---------------------------------------------------------------------------

/// Reads an argument: `v` with the number of an earlier binding, or a constant
/// that is built from its bits.
#[verifier::opaque]
pub open spec fn read_operand(s: Seq<char>) -> Option<(Operand, Seq<char>)> {
    match after(s, "v"@) {
        Some(r) => match read_number(r) {
            Some((n, rest)) if n <= usize::MAX => Some((Operand::Value(n as usize), rest)),
            _ => None,
        },
        None => match after(s, "build_imm(bitcast<f32>(0x"@) {
            Some(r) => match read_word(r) {
                Some((bits, r)) => match after(r, "u))"@) {
                    Some(rest) => Some((Operand::Immediate(bits), rest)),
                    None => None,
                },
                None => None,
            },
            None => None,
        },
    }
}

/// Reads the arguments of a call of `op`, up to and with the closing bracket.
#[verifier::opaque]
pub open spec fn read_arguments(op: Opcode, s: Seq<char>) -> Option<(Binding, Seq<char>)> {
    match op {
        Opcode::Unary(op) => match read_operand(s) {
            Some((a, r)) => match after(r, ")"@) {
                Some(rest) => Some((Binding::Unary(op, a), rest)),
                None => None,
            },
            None => None,
        },
        Opcode::Binary(op) => match read_operand(s) {
            Some((a, r)) => match after(r, ", "@) {
                Some(r) => match read_operand(r) {
                    Some((b, r)) => match after(
                        r,
                        if records_choice(op) {
                            ", &stack)"@
                        } else {
                            ")"@
                        },
                    ) {
                        Some(rest) => Some((Binding::Binary(op, a, b), rest)),
                        None => None,
                    },
                    None => None,
                },
                None => None,
            },
            None => None,
        },
        _ => None,
    }
}

/// Reads the right-hand side of a binding: an axis of the point, a constant, or
/// a call of one of the interpreter's functions.
#[verifier::opaque]
pub open spec fn read_binding(s: Seq<char>) -> Option<(Binding, Seq<char>)> {
    match after(s, "xyz["@) {
        Some(r) => match read_number(r) {
            Some((n, r)) => match after(r, "]"@) {
                Some(rest) if n <= u32::MAX => Some((Binding::Axis(n as u32), rest)),
                _ => None,
            },
            None => None,
        },
        None => match read_operand(s) {
            Some((Operand::Immediate(bits), rest)) => Some((Binding::Immediate(bits), rest)),
            Some(_) => None,
            None => {
                let (name, r) = until(s, '(');
                match operation_of(name) {
                    Some(op) => match after(r, "("@) {
                        Some(r) => read_arguments(op, r),
                        None => None,
                    },
                    None => None,
                }
            },
        },
    }
}

/// Reads the line that binds the value `k`.
#[verifier::opaque]
pub open spec fn read_let(s: Seq<char>, k: nat) -> Option<(Binding, Seq<char>)> {
    match after(s, "    let v"@) {
        Some(r) => match read_number(r) {
            Some((n, r)) => match after(r, " = "@) {
                Some(r) => match read_binding(r) {
                    Some((b, r)) => match after(r, ";\n"@) {
                        Some(rest) if n == k => Some((b, rest)),
                        _ => None,
                    },
                    None => None,
                },
                None => None,
            },
            None => None,
        },
        None => None,
    }
}

/// Reads the lines that bind values, from the value `k` on, as far as they go.
pub open spec fn read_lets(s: Seq<char>, k: nat) -> (Seq<Binding>, Seq<char>)
    decreases s.len(),
{
    match read_let(s, k) {
        Some((b, r)) if r.len() < s.len() => {
            let (more, rest) = read_lets(r, k + 1);
            (seq![b] + more, rest)
        },
        _ => (Seq::empty(), s),
    }
}

/// Reads a function: its name, its code, and what follows it.
pub open spec fn read_function(s: Seq<char>) -> Option<(Seq<char>, Code, Seq<char>)> {
    match after(s, "fn "@) {
        Some(r) => {
            let (name, r) = until(r, '(');
            match after(r, "(xyz: array<Value, 3>) -> Value {\n    var stack = Stack();\n"@) {
                Some(r) => {
                    let (bindings, r) = read_lets(r, 0);
                    match after(r, "    return "@) {
                        Some(r) => match read_operand(r) {
                            Some((output, r)) => match after(r, ";\n}\n"@) {
                                Some(rest) => Some((name, Code { bindings, output }, rest)),
                                None => None,
                            },
                            None => None,
                        },
                        None => None,
                    }
                },
                None => None,
            }
        },
        None => None,
    }
}

// ---------------------------------------------------------------------------
// What was written is read back
// ---------------------------------------------------------------------------

/// An argument reads back as what it was written for.
pub proof fn operand_reads(a: Operand, rest: Seq<char>)
    requires
        starts_otherwise(rest),
    ensures
        read_operand(operand_text(a) + rest) == Some((a, rest)),
{
    reveal(read_operand);
    let s = operand_text(a) + rest;
    match a {
        Operand::Immediate(bits) => {
            let head = "build_imm(bitcast<f32>(0x"@;
            let tail = "u))"@;
            let digits = hex(bits as nat, 8);
            reveal_strlit("v");
            reveal_strlit("build_imm(bitcast<f32>(0x");
            assert(s =~= head + (digits + (tail + rest)));
            assert(s[0] == 'b');
            after_fails(s, "v"@, 0);
            after_reads(head, digits + (tail + rest));
            word_reads(bits, tail + rest);
            after_reads(tail, rest);
        },
        Operand::Value(i) => {
            assert(s =~= "v"@ + (decimal(i as nat) + rest));
            after_reads("v"@, decimal(i as nat) + rest);
            number_reads(i as nat, rest);
        },
    }
}

/// A call of the function of an operation is read by its name.
proof fn call_reads(op: Opcode, inner: Seq<char>)
    requires
        op.is_math(),
    ensures
        read_binding(function_name(op) + ("("@ + inner)) == read_arguments(op, inner),
{
    reveal(read_operand);
    reveal(read_binding);
    let name = function_name(op);
    let s = name + ("("@ + inner);
    operations_read_back(op);
    assert(s[0] == 'o');
    assert(after(s, "xyz["@) is None) by {
        reveal_strlit("xyz[");
        after_fails(s, "xyz["@, 0);
    }
    assert(after(s, "v"@) is None) by {
        reveal_strlit("v");
        after_fails(s, "v"@, 0);
    }
    assert(after(s, "build_imm(bitcast<f32>(0x"@) is None) by {
        reveal_strlit("build_imm(bitcast<f32>(0x");
        after_fails(s, "build_imm(bitcast<f32>(0x"@, 0);
    }
    reveal_strlit("(");
    assert(("("@ + inner)[0] == '(');
    until_reads(name, '(', "("@ + inner);
    after_reads("("@, inner);
}

proof fn unary_reads(op: UnaryOp, a: Operand, rest: Seq<char>)
    ensures
        read_arguments(Opcode::Unary(op), operand_text(a) + (")"@ + rest)) == Some(
            (Binding::Unary(op, a), rest),
        ),
{
    reveal(read_arguments);
    reveal_strlit(")");
    assert((")"@ + rest)[0] == ')');
    operand_reads(a, ")"@ + rest);
    after_reads(")"@, rest);
}

proof fn binary_reads(op: BinaryOp, a: Operand, b: Operand, rest: Seq<char>)
    ensures
        read_arguments(
            Opcode::Binary(op),
            operand_text(a) + (", "@ + (operand_text(b) + ((if op.choice() {
                ", &stack)"@
            } else {
                ")"@
            }) + rest))),
        ) == Some((Binding::Binary(op, a, b), rest)),
{
    reveal(read_arguments);
    let close = if op.choice() {
        ", &stack)"@
    } else {
        ")"@
    };
    let second = operand_text(b) + (close + rest);
    reveal_strlit(")");
    reveal_strlit(", ");
    reveal_strlit(", &stack)");
    assert((close + rest)[0] == close[0]);
    assert((", "@ + second)[0] == ',');
    operand_reads(a, ", "@ + second);
    after_reads(", "@, second);
    operand_reads(b, close + rest);
    after_reads(close, rest);
}

/// The right-hand side of a binding reads back as what it was written for.
pub proof fn binding_reads(b: Binding, rest: Seq<char>)
    requires
        starts_otherwise(rest),
    ensures
        read_binding(binding_text(b) + rest) == Some((b, rest)),
{
    reveal(read_binding);
    let s = binding_text(b) + rest;
    match b {
        Binding::Immediate(bits) => {
            reveal_strlit("xyz[");
            reveal_strlit("build_imm(bitcast<f32>(0x");
            assert(s[0] == 'b');
            after_fails(s, "xyz["@, 0);
            operand_reads(Operand::Immediate(bits), rest);
        },
        Binding::Axis(a) => {
            let tail = "]"@ + rest;
            reveal_strlit("]");
            assert(tail[0] == ']');
            assert(s =~= "xyz["@ + (decimal(a as nat) + tail));
            after_reads("xyz["@, decimal(a as nat) + tail);
            number_reads(a as nat, tail);
            after_reads("]"@, rest);
        },
        Binding::Unary(op, a) => {
            let inner = operand_text(a) + (")"@ + rest);
            assert(s =~= function_name(Opcode::Unary(op)) + ("("@ + inner));
            call_reads(Opcode::Unary(op), inner);
            unary_reads(op, a, rest);
        },
        Binding::Binary(op, a, c) => {
            let close = if op.choice() {
                ", &stack)"@
            } else {
                ")"@
            };
            let inner = operand_text(a) + (", "@ + (operand_text(c) + (close + rest)));
            assert(s =~= function_name(Opcode::Binary(op)) + ("("@ + inner));
            call_reads(Opcode::Binary(op), inner);
            binary_reads(op, a, c, rest);
        },
    }
}

/// The line of a binding reads back as what it was written for.
pub proof fn let_reads(k: nat, b: Binding, rest: Seq<char>)
    ensures
        read_let(let_text(k, b) + rest, k) == Some((b, rest)),
        let_text(k, b).len() > 0,
{
    reveal(read_let);
    let s = let_text(k, b) + rest;
    let head = "    let v"@;
    let end = ";\n"@ + rest;
    let value = binding_text(b) + end;
    reveal_strlit("    let v");
    reveal_strlit(" = ");
    reveal_strlit(";\n");
    assert(s =~= head + (decimal(k) + (" = "@ + value)));
    after_reads(head, decimal(k) + (" = "@ + value));
    number_reads(k, " = "@ + value);
    after_reads(" = "@, value);
    binding_reads(b, end);
    after_reads(";\n"@, rest);
}

/// The lines of the bindings from `k` on.
spec fn lets_from(bindings: Seq<Binding>, k: int) -> Seq<char>
    decreases bindings.len() - k,
{
    if k >= bindings.len() {
        Seq::empty()
    } else {
        let_text(k as nat, bindings[k]) + lets_from(bindings, k + 1)
    }
}

proof fn lets_are_the_body(bindings: Seq<Binding>, k: int)
    requires
        0 <= k <= bindings.len(),
    ensures
        body_text(bindings.take(k)) + lets_from(bindings, k) == body_text(bindings),
    decreases bindings.len() - k,
{
    if k == bindings.len() {
        assert(bindings.take(k) =~= bindings);
        assert(body_text(bindings) + Seq::<char>::empty() =~= body_text(bindings));
    } else {
        lets_are_the_body(bindings, k + 1);
        assert(bindings.take(k + 1).drop_last() =~= bindings.take(k));
        assert(body_text(bindings.take(k)) + lets_from(bindings, k) =~= body_text(
            bindings.take(k + 1),
        ) + lets_from(bindings, k + 1));
    }
}

proof fn lets_read(bindings: Seq<Binding>, k: int, rest: Seq<char>)
    requires
        0 <= k <= bindings.len(),
        after(rest, "    let v"@) is None,
    ensures
        read_lets(lets_from(bindings, k) + rest, k as nat) == (bindings.skip(k), rest),
    decreases bindings.len() - k,
{
    let s = lets_from(bindings, k) + rest;
    if k == bindings.len() {
        reveal(read_let);
        assert(s =~= rest);
        assert(bindings.skip(k) =~= Seq::<Binding>::empty());
    } else {
        let more = lets_from(bindings, k + 1) + rest;
        assert(s =~= let_text(k as nat, bindings[k]) + more);
        let_reads(k as nat, bindings[k], more);
        lets_read(bindings, k + 1, rest);
        assert(bindings.skip(k) =~= seq![bindings[k]] + bindings.skip(k + 1));
    }
}

/// A function reads back as its name and the code that it was written for.
pub proof fn function_reads(name: Seq<char>, code: Code, rest: Seq<char>)
    requires
        !name.contains('('),
    ensures
        read_function(function_text(name, code) + rest) == Some((name, code, rest)),
{
    let header = "(xyz: array<Value, 3>) -> Value {\n    var stack = Stack();\n"@;
    let end = ";\n}\n"@ + rest;
    let value = operand_text(code.output) + end;
    let tail = "    return "@ + value;
    let body = body_text(code.bindings) + tail;
    assert(function_text(name, code) + rest =~= "fn "@ + (name + (header + body)));
    after_reads("fn "@, name + (header + body));
    header_starts(body);
    until_reads(name, '(', header + body);
    after_reads(header, body);
    body_reads(code.bindings, value);
    after_reads("    return "@, value);
    assert(starts_otherwise(end)) by {
        reveal_strlit(";\n}\n");
    }
    operand_reads(code.output, end);
    after_reads(";\n}\n"@, rest);
}

proof fn header_starts(body: Seq<char>)
    ensures
        ("(xyz: array<Value, 3>) -> Value {\n    var stack = Stack();\n"@ + body).len() > 0,
        ("(xyz: array<Value, 3>) -> Value {\n    var stack = Stack();\n"@ + body)[0] == '(',
{
    reveal_strlit("(xyz: array<Value, 3>) -> Value {\n    var stack = Stack();\n");
}

/// The lines of all bindings read back, up to the line that returns.
proof fn body_reads(bindings: Seq<Binding>, value: Seq<char>)
    ensures
        read_lets(body_text(bindings) + ("    return "@ + value), 0) == (
            bindings,
            "    return "@ + value,
        ),
{
    let tail = "    return "@ + value;
    assert(after(tail, "    let v"@) is None) by {
        reveal_strlit("    return ");
        reveal_strlit("    let v");
        after_fails(tail, "    let v"@, 4);
    }
    lets_are_the_body(bindings, 0);
    assert(bindings.take(0) =~= Seq::<Binding>::empty());
    assert(body_text(bindings) =~= lets_from(bindings, 0));
    lets_read(bindings, 0, tail);
    assert(bindings.skip(0) =~= bindings);
}

} // verus!
