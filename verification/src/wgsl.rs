//! Straight-line code as the text of a WGSL function.

use crate::error::{KernelError, Variable};
use crate::opcode::{function_name, op_function, Opcode};
use crate::outside::{axis_entries, bytecode_data, bytecode_words, var_entries, var_indices};
use crate::tape::{
    ends_at, lower, lowered, start_markers_are_ignored, with_marker,
    words_after_the_end_are_ignored, Binding, Code, Function, Operand,
};
use crate::text::{decimal, hex, push_decimal, push_hex};
use fidget_bytecode::Bytecode;
use fidget_core::var::VarMap;
use vstd::prelude::*;
use vstd::string::StringExecFns;

verus! {

/// An argument: a constant is built from its bits, and a value goes by its name.
pub open spec fn operand_text(a: Operand) -> Seq<char> {
    match a {
        Operand::Immediate(bits) => "build_imm(bitcast<f32>(0x"@ + hex(bits as nat, 8) + "u))"@,
        Operand::Value(i) => "v"@ + decimal(i as nat),
    }
}

/// The right-hand side of a binding.  An operation that makes a choice also
/// takes the stack that choices are recorded on.
pub open spec fn binding_text(b: Binding) -> Seq<char> {
    match b {
        Binding::Immediate(bits) => operand_text(Operand::Immediate(bits)),
        Binding::Axis(a) => "xyz["@ + decimal(a as nat) + "]"@,
        Binding::Unary(op, a) => function_name(Opcode::Unary(op)) + "("@ + operand_text(a) + ")"@,
        Binding::Binary(op, a, b) => function_name(Opcode::Binary(op)) + "("@ + operand_text(a)
            + ", "@ + operand_text(b) + (if op.choice() {
            ", &stack)"@
        } else {
            ")"@
        }),
    }
}

/// The line that binds the value `k`.
pub open spec fn let_text(k: nat, b: Binding) -> Seq<char> {
    "    let v"@ + decimal(k) + " = "@ + binding_text(b) + ";\n"@
}

/// The lines that bind the values, in order.
pub open spec fn body_text(bindings: Seq<Binding>) -> Seq<char>
    decreases bindings.len(),
{
    if bindings.len() == 0 {
        Seq::empty()
    } else {
        body_text(bindings.drop_last()) + let_text(
            (bindings.len() - 1) as nat,
            bindings.last(),
        )
    }
}

/// A function from the evaluation point to a value.
pub open spec fn function_text(name: Seq<char>, code: Code) -> Seq<char> {
    "fn "@ + name + "(xyz: array<Value, 3>) -> Value {\n    var stack = Stack();\n"@ + body_text(
        code.bindings,
    ) + "    return "@ + operand_text(code.output) + ";\n}\n"@
}

fn push_operand(out: &mut String, a: Operand)
    ensures
        final(out)@ == old(out)@ + operand_text(a),
{
    match a {
        Operand::Immediate(bits) => {
            out.append("build_imm(bitcast<f32>(0x");
            push_hex(out, bits, 8);
            out.append("u))");
        },
        Operand::Value(i) => {
            out.append("v");
            push_decimal(out, i);
        },
    }
    assert(out@ =~= old(out)@ + operand_text(a));
}

fn push_binding(out: &mut String, b: Binding)
    ensures
        final(out)@ == old(out)@ + binding_text(b),
{
    match b {
        Binding::Immediate(bits) => push_operand(out, Operand::Immediate(bits)),
        Binding::Axis(a) => {
            out.append("xyz[");
            push_decimal(out, a as usize);
            out.append("]");
        },
        Binding::Unary(op, a) => {
            out.append(op_function(Opcode::Unary(op)));
            out.append("(");
            push_operand(out, a);
            out.append(")");
        },
        Binding::Binary(op, a, b) => {
            out.append(op_function(Opcode::Binary(op)));
            out.append("(");
            push_operand(out, a);
            out.append(", ");
            push_operand(out, b);
            if op.is_choice() {
                out.append(", &stack)");
            } else {
                out.append(")");
            }
        },
    }
    assert(out@ =~= old(out)@ + binding_text(b));
}

impl Function {
    /// Returns the WGSL source of the function, under the given name.
    ///
    /// It has the signature `fn name(xyz: array<Value, 3>) -> Value`, and is
    /// written in terms of the operation functions of the tape interpreter, so
    /// that one source serves every `Value` type.  The choices that operations
    /// record go to a local stack, and are discarded.
    pub fn source(&self, name: &str) -> (source: String)
        ensures
            source@ == function_text(name@, self@),
    {
        let mut out = "fn ".to_owned();
        out.append(name);
        out.append("(xyz: array<Value, 3>) -> Value {\n    var stack = Stack();\n");
        let ghost head = out@;
        let mut k: usize = 0;
        assert(self.bindings@.take(0) == Seq::<Binding>::empty());
        while k < self.bindings.len()
            invariant
                k <= self.bindings@.len(),
                out@ == head + body_text(self.bindings@.take(k as int)),
            decreases self.bindings@.len() - k,
        {
            let b = self.bindings[k];
            out.append("    let v");
            push_decimal(&mut out, k);
            out.append(" = ");
            push_binding(&mut out, b);
            out.append(";\n");
            assert(self.bindings@.take(k + 1).drop_last() == self.bindings@.take(k as int));
            assert(out@ =~= head + body_text(self.bindings@.take(k as int)) + let_text(
                k as nat,
                b,
            ));
            assert(out@ =~= head + body_text(self.bindings@.take(k + 1)));
            k += 1;
        }
        assert(self.bindings@.take(k as int) == self.bindings@);
        out.append("    return ");
        push_operand(&mut out, self.output);
        out.append(";\n}\n");
        assert(out@ =~= function_text(name@, self@));
        out
    }
}

/// The axis of each input, or the first variable that is none.
pub open spec fn axis_table(inputs: Seq<(Variable, usize)>) -> Result<Seq<(u32, u32)>, KernelError>
    decreases inputs.len(),
{
    if inputs.len() == 0 {
        Ok(Seq::empty())
    } else {
        match axis_table(inputs.drop_last()) {
            Err(e) => Err(e),
            Ok(axes) => match inputs.last().0.axis() {
                None => Err(KernelError::UnsupportedVar(inputs.last().0)),
                Some(a) => Ok(axes.push((inputs.last().1 as u32, a))),
            },
        }
    }
}

/// The WGSL function of a tape with the given inputs.
pub open spec fn compiled(
    words: Seq<u32>,
    inputs: Seq<(Variable, usize)>,
    name: Seq<char>,
) -> Result<Seq<char>, KernelError> {
    match axis_table(inputs) {
        Err(e) => Err(e),
        Ok(axes) => match lowered(axes, words) {
            Err(e) => Err(e),
            Ok(code) => Ok(function_text(name, code)),
        },
    }
}

/// The text of a result, where there is one.
pub open spec fn text_of(r: Result<String, KernelError>) -> Result<Seq<char>, KernelError> {
    match r {
        Ok(s) => Ok(s@),
        Err(e) => Err(e),
    }
}

/// An error stays the first one, however many inputs follow.
proof fn axis_error_stays(inputs: Seq<(Variable, usize)>, k: int)
    requires
        0 <= k <= inputs.len(),
        axis_table(inputs.take(k)) is Err,
    ensures
        axis_table(inputs) == axis_table(inputs.take(k)),
    decreases inputs.len(),
{
    if k == inputs.len() {
        assert(inputs.take(k) == inputs);
    } else {
        assert(inputs.drop_last().take(k) == inputs.take(k));
        axis_error_stays(inputs.drop_last(), k);
    }
}

/// Compiles the words of a tape into a WGSL function.
///
/// `inputs` lists the variables of the tape with their indexes; only the `X`,
/// `Y`, and `Z` axes are allowed.
pub fn compile_words(words: &[u32], inputs: &[(Variable, usize)], name: &str) -> (source: Result<
    String,
    KernelError,
>)
    ensures
        text_of(source) == compiled(words@, inputs@, name@),
{
    let mut axes: Vec<(u32, u32)> = Vec::new();
    let mut i: usize = 0;
    assert(inputs@.take(0) == Seq::<(Variable, usize)>::empty());
    while i < inputs.len()
        invariant
            i <= inputs@.len(),
            axis_table(inputs@.take(i as int)) == Ok::<Seq<(u32, u32)>, KernelError>(axes@),
        decreases inputs@.len() - i,
    {
        let (v, index) = inputs[i];
        assert(inputs@.take(i + 1).drop_last() == inputs@.take(i as int));
        match v.axis_number() {
            Some(a) => axes.push((index as u32, a)),
            None => {
                proof {
                    axis_error_stays(inputs@, i + 1);
                }
                return Err(KernelError::UnsupportedVar(v));
            },
        }
        i += 1;
    }
    assert(inputs@.take(i as int) == inputs@);
    match lower(words, axes.as_slice()) {
        Ok(code) => Ok(code.source(name)),
        Err(e) => Err(e),
    }
}

/// A variable map holds a variable that is not an axis.
pub open spec fn has_free(indices: Map<Variable, usize>) -> bool {
    exists|v: Variable| #[trigger] indices.contains_key(v) && v is V
}

/// What compiling a tape gives: with a free variable among the inputs, an error
/// that names one, and otherwise the function of the tape.
pub open spec fn compiles_to(
    words: Seq<u32>,
    indices: Map<Variable, usize>,
    name: Seq<char>,
    source: Result<Seq<char>, KernelError>,
) -> bool {
    if has_free(indices) {
        source matches Err(KernelError::UnsupportedVar(v)) && v is V && indices.contains_key(v)
    } else {
        source == compiled(words, axis_entries(indices), name)
    }
}

/// Only axes are listed, so each has a number.
pub(crate) proof fn axes_have_a_table(indices: Map<Variable, usize>)
    ensures
        axis_table(axis_entries(indices)) is Ok,
{
    reveal_with_fuel(axis_table, 4);
}

/// Compiles a bytecode tape into a WGSL function
///
/// The function has the signature `fn name(xyz: array<Value, 3>) -> Value`.
/// It's written in terms of the operation functions used by the tape
/// interpreter (`op_add`, `build_imm`, etc.), so the same source can be used
/// with any `Value` type (float, interval, or gradient).  It declares a local
/// `Stack` for `min` / `max` choices, which are discarded.
///
/// `vars` is the variable map of the tape; only the `X`, `Y`, and `Z` axes
/// are allowed.
///
/// The function is straight-line code, with one `let` binding per operation;
/// register spills (`Load` / `Store`) are resolved at compile time.
pub fn compile_function(bytecode: &Bytecode, vars: &VarMap, name: &str) -> (source: Result<
    String,
    KernelError,
>)
    ensures
        compiles_to(bytecode_words(*bytecode), var_indices(*vars), name@, text_of(source)),
{
    let inputs = var_entries(vars);
    proof {
        let indices = var_indices(*vars);
        let axes = axis_entries(indices);
        let free = inputs@.skip(axes.len() as int);
        axes_have_a_table(indices);
        if has_free(indices) {
            let k = axes.len() as int;
            assert(free.len() > 0);
            assert(inputs@.take(k + 1).drop_last() == axes);
            assert(inputs@.take(k + 1).last() == free[0]);
            axis_error_stays(inputs@, k + 1);
        } else {
            if free.len() > 0 {
                assert(indices.contains_key(free[0].0) && free[0].0 is V);
            }
            assert(inputs@ == axes);
        }
    }
    compile_words(bytecode_data(bytecode), inputs.as_slice(), name)
}

// ---------------------------------------------------------------------------
// Laws
// ---------------------------------------------------------------------------

/// What follows the name of a function: the rest of its header, and its body.
pub open spec fn is_rest(t: Seq<char>) -> bool {
    &&& "(xyz: array<Value, 3>) -> Value {\n    var stack = Stack();\n"@.is_prefix_of(t)
    &&& ";\n}\n"@.is_suffix_of(t)
}

/// Functions with the names `m` and `n` that are the same but for that, or one
/// and the same error.
pub open spec fn same_but_for_name(
    m: Seq<char>,
    a: Result<Seq<char>, KernelError>,
    n: Seq<char>,
    b: Result<Seq<char>, KernelError>,
) -> bool {
    match (a, b) {
        (Ok(a), Ok(b)) => exists|t: Seq<char>| #[trigger]
            is_rest(t) && a == "fn "@ + m + t && b == "fn "@ + n + t,
        (Err(d), Err(e)) => d == e,
        _ => false,
    }
}

/// Another name changes only the header of a function, and never the error.
pub proof fn name_changes_only_the_header(
    words: Seq<u32>,
    inputs: Seq<(Variable, usize)>,
    m: Seq<char>,
    n: Seq<char>,
)
    ensures
        same_but_for_name(m, compiled(words, inputs, m), n, compiled(words, inputs, n)),
{
    if let Ok(axes) = axis_table(inputs) {
        if let Ok(code) = lowered(axes, words) {
            let head = "(xyz: array<Value, 3>) -> Value {\n    var stack = Stack();\n"@;
            let tail = ";\n}\n"@;
            let inner = body_text(code.bindings) + "    return "@ + operand_text(code.output);
            let t = head + inner + tail;
            assert(head =~= t.subrange(0, head.len() as int));
            assert(tail =~= t.subrange(t.len() - tail.len(), t.len() as int));
            assert(is_rest(t));
            assert(function_text(m, code) =~= "fn "@ + m + t);
            assert(function_text(n, code) =~= "fn "@ + n + t);
        }
    }
}

/// The same of whole tapes: with a free variable among the inputs, the error
/// names one whatever the function is called, and otherwise another name changes
/// only the header.
pub proof fn name_changes_only_the_header_of_a_tape(
    words: Seq<u32>,
    indices: Map<Variable, usize>,
    m: Seq<char>,
    a: Result<Seq<char>, KernelError>,
    n: Seq<char>,
    b: Result<Seq<char>, KernelError>,
)
    requires
        compiles_to(words, indices, m, a),
        compiles_to(words, indices, n, b),
    ensures
        has_free(indices) ==> {
            &&& a matches Err(KernelError::UnsupportedVar(v)) && v is V && indices.contains_key(v)
            &&& b matches Err(KernelError::UnsupportedVar(v)) && v is V && indices.contains_key(v)
        },
        !has_free(indices) ==> same_but_for_name(m, a, n, b),
{
    name_changes_only_the_header(words, axis_entries(indices), m, n);
}

/// Words behind the end marker change neither the text nor the error.
pub proof fn text_ends_with_the_tape(
    words: Seq<u32>,
    i: int,
    more: Seq<u32>,
    inputs: Seq<(Variable, usize)>,
    name: Seq<char>,
)
    requires
        words.len() % 2 == 0,
        more.len() % 2 == 0,
        ends_at(words, i),
    ensures
        compiled(words + more, inputs, name) == compiled(words, inputs, name),
        forall|indices: Map<Variable, usize>, source: Result<Seq<char>, KernelError>|
            compiles_to(words + more, indices, name, source) == #[trigger] compiles_to(
                words,
                indices,
                name,
                source,
            ),
{
    assert forall|axes: Seq<(u32, u32)>| lowered(axes, words + more) == #[trigger] lowered(
        axes,
        words,
    ) by {
        words_after_the_end_are_ignored(axes, words, i, more);
    }
}

/// A further start marker between two operations changes neither the text nor
/// the error.
pub proof fn text_has_no_markers(
    words: Seq<u32>,
    i: int,
    marker: u32,
    inputs: Seq<(Variable, usize)>,
    name: Seq<char>,
)
    requires
        words.len() % 2 == 0,
        0 <= i <= words.len(),
        i % 2 == 0,
        marker % 0x100 == 0xFF,
    ensures
        compiled(with_marker(words, i, marker), inputs, name) == compiled(words, inputs, name),
        forall|indices: Map<Variable, usize>, source: Result<Seq<char>, KernelError>|
            compiles_to(with_marker(words, i, marker), indices, name, source)
                == #[trigger] compiles_to(words, indices, name, source),
{
    assert forall|axes: Seq<(u32, u32)>|
        lowered(axes, with_marker(words, i, marker)) == #[trigger] lowered(axes, words) by {
        start_markers_are_ignored(axes, words, i, marker);
    }
}

} // verus!
