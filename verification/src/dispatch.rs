//! What the text of a program means: which function `kernel_input` calls for an
//! input, and the value that it hands out.

use crate::error::{KernelError, RenderShapeError, Variable};
use crate::meaning::{function_reads, read_function};
use crate::outside::{axis_entries, shape_indices, shape_words};
use crate::program::{
    builds, candidates, case_text, cases_text, exactly_the_used_kernels_are_built, fails,
    fails_with, functions_text, is_first_failure, kernel_name, kernel_names_are_distinct,
    program_text, used_kernels, Candidate, KernelProgram, KernelText, KERNEL_STUB,
};
use crate::reading::{
    after, after_fails, after_reads, decimal_reads_back, denotes, number_reads, read_number, until,
    until_reads,
};
use crate::tape::{compiled_and_interpreted_agree, evaluate, interpret, lowered, Code, Semantics};
use crate::text::decimal;
use crate::wgsl::{axes_have_a_table, axis_table, compiled, compiles_to, function_text, has_free};
use fidget_core::vm::VmShape;
use std::collections::hash_map::DefaultHasher;
use vstd::prelude::*;
use vstd::std_specs::hash::DefaultHasherAdditionalSpecFns;
use vstd::utf8::encode_utf8;

verus! {

// ---------------------------------------------------------------------------
// Reading a program
// ---------------------------------------------------------------------------

/// What the source of a program says.
pub struct Shader {
    /// The functions, by name
    pub functions: Seq<(Seq<char>, Code)>,
    /// The cases of `kernel_input`: the index of an input, and the name of the
    /// function that is called for it
    pub cases: Seq<(nat, Seq<char>)>,
}

/// Reads functions, as far as they go.
pub open spec fn read_functions(s: Seq<char>) -> (Seq<(Seq<char>, Code)>, Seq<char>)
    decreases s.len(),
{
    match read_function(s) {
        Some((name, code, r)) if r.len() < s.len() => {
            let (more, rest) = read_functions(r);
            (seq![(name, code)] + more, rest)
        },
        _ => (Seq::empty(), s),
    }
}

/// Reads the case of a `switch` that hands out what a function returns.
pub open spec fn read_case(s: Seq<char>) -> Option<((nat, Seq<char>), Seq<char>)> {
    match after(s, "        case "@) {
        Some(r) => match read_number(r) {
            Some((label, r)) => match after(r, "u: { *out = "@) {
                Some(r) => {
                    let (name, r) = until(r, '(');
                    match after(r, "(xyz); return true; }\n"@) {
                        Some(rest) => Some(((label, name), rest)),
                        None => None,
                    }
                },
                None => None,
            },
            None => None,
        },
        None => None,
    }
}

/// Reads cases, as far as they go.
pub open spec fn read_cases(s: Seq<char>) -> (Seq<(nat, Seq<char>)>, Seq<char>)
    decreases s.len(),
{
    match read_case(s) {
        Some((case, r)) if r.len() < s.len() => {
            let (more, rest) = read_cases(r);
            (seq![case] + more, rest)
        },
        _ => (Seq::empty(), s),
    }
}

/// The head of `kernel_input`.
pub open spec fn opening() -> Seq<char> {
    "\nfn kernel_input(\n    index: u32, xyz: array<Value, 3>, out: ptr<function, Value>,\n) -> bool {\n"@
}

/// Reads `kernel_input`, which either picks a case or refuses every input, up to
/// the end of the source.
pub open spec fn read_shader_end(s: Seq<char>) -> Option<Seq<(nat, Seq<char>)>> {
    match after(s, opening()) {
        Some(r) => match after(r, "    switch index {\n"@) {
            Some(r) => {
                let (cases, r) = read_cases(r);
                if r == "        default: { return false; }\n    }\n}\n"@ {
                    Some(cases)
                } else {
                    None
                }
            },
            None => if r == "    return false;\n}\n"@ {
                Some(Seq::empty())
            } else {
                None
            },
        },
        None => None,
    }
}

/// Reads a whole source: functions, and then `kernel_input`.
pub open spec fn read_shader(s: Seq<char>) -> Option<Shader> {
    let (functions, r) = read_functions(s);
    match read_shader_end(r) {
        Some(cases) => Some(Shader { functions, cases }),
        None => None,
    }
}

/// The function that is called for the input `index`: that of the first case
/// with this label.
pub open spec fn called_for(cases: Seq<(nat, Seq<char>)>, index: nat) -> Option<Seq<char>>
    decreases cases.len(),
{
    if cases.len() == 0 {
        None
    } else if cases[0].0 == index {
        Some(cases[0].1)
    } else {
        called_for(cases.drop_first(), index)
    }
}

/// The code of the function with the given name.
pub open spec fn defined_as(functions: Seq<(Seq<char>, Code)>, name: Seq<char>) -> Option<Code>
    decreases functions.len(),
{
    if functions.len() == 0 {
        None
    } else if functions[0].0 == name {
        Some(functions[0].1)
    } else {
        defined_as(functions.drop_first(), name)
    }
}

/// What `kernel_input` hands out for the input `index` in a kind of value:
/// nothing, where it returns `false`.
pub open spec fn kernel_input<V>(sem: Semantics<V>, shader: Shader, index: nat) -> Option<V> {
    match called_for(shader.cases, index) {
        Some(name) => match defined_as(shader.functions, name) {
            Some(code) => Some(evaluate(sem, code)),
            None => None,
        },
        None => None,
    }
}

// ---------------------------------------------------------------------------
// What was written is read back
// ---------------------------------------------------------------------------

spec fn functions_from(fs: Seq<(Seq<char>, Code)>, k: int) -> Seq<char>
    decreases fs.len() - k,
{
    if k >= fs.len() {
        Seq::empty()
    } else {
        function_text(fs[k].0, fs[k].1) + functions_from(fs, k + 1)
    }
}

proof fn functions_read(fs: Seq<(Seq<char>, Code)>, k: int, rest: Seq<char>)
    requires
        0 <= k <= fs.len(),
        after(rest, "fn "@) is None,
        forall|j: int| 0 <= j < fs.len() ==> !(#[trigger] fs[j]).0.contains('('),
    ensures
        read_functions(functions_from(fs, k) + rest) == (fs.skip(k), rest),
    decreases fs.len() - k,
{
    let s = functions_from(fs, k) + rest;
    if k == fs.len() {
        assert(s =~= rest);
        assert(fs.skip(k) =~= Seq::<(Seq<char>, Code)>::empty());
    } else {
        let more = functions_from(fs, k + 1) + rest;
        assert(s =~= function_text(fs[k].0, fs[k].1) + more);
        assert(!fs[k].0.contains('('));
        function_reads(fs[k].0, fs[k].1, more);
        reveal_strlit("fn ");
        functions_read(fs, k + 1, rest);
        assert(fs.skip(k) =~= seq![(fs[k].0, fs[k].1)] + fs.skip(k + 1));
    }
}

proof fn functions_are_in_order(kernels: Seq<KernelText>, fs: Seq<(Seq<char>, Code)>, k: int)
    requires
        0 <= k <= kernels.len() == fs.len(),
        forall|j: int| #![auto]
            0 <= j < fs.len() ==> kernels[j].function == function_text(fs[j].0, fs[j].1),
    ensures
        functions_text(kernels.take(k)) + functions_from(fs, k) == functions_text(kernels),
    decreases kernels.len() - k,
{
    if k == kernels.len() {
        assert(kernels.take(k) =~= kernels);
        assert(functions_text(kernels) + Seq::<char>::empty() =~= functions_text(kernels));
    } else {
        functions_are_in_order(kernels, fs, k + 1);
        assert(kernels.take(k + 1).drop_last() =~= kernels.take(k));
        assert(kernels.take(k + 1).last() == kernels[k]);
        assert(functions_text(kernels.take(k)) + functions_from(fs, k) =~= functions_text(
            kernels.take(k + 1),
        ) + functions_from(fs, k + 1));
    }
}

/// The case of a kernel reads back as the index of its placeholder and the name
/// of its function.
pub proof fn case_reads(k: KernelText, rest: Seq<char>)
    ensures
        read_case(case_text(k) + rest) == Some(
            ((k.index as nat, kernel_name(k.number as nat)), rest),
        ),
        case_text(k).len() > 0,
{
    let s = case_text(k) + rest;
    let name = kernel_name(k.number as nat);
    let call = "(xyz); return true; }\n"@ + rest;
    let arm = "u: { *out = "@ + (name + call);
    reveal_strlit("        case ");
    reveal_strlit("u: { *out = ");
    reveal_strlit("(xyz); return true; }\n");
    assert(s =~= "        case "@ + (decimal(k.index as nat) + arm));
    after_reads("        case "@, decimal(k.index as nat) + arm);
    number_reads(k.index as nat, arm);
    after_reads("u: { *out = "@, name + call);
    names_are_plain(k.number as nat);
    assert(call[0] == '(');
    until_reads(name, '(', call);
    after_reads("(xyz); return true; }\n"@, rest);
}

/// The name of a kernel holds no bracket.
proof fn names_are_plain(number: nat)
    ensures
        !kernel_name(number).contains('('),
{
    reveal_strlit("kernel_");
    decimal_reads_back(number);
    assert forall|i: int| 0 <= i < kernel_name(number).len() implies kernel_name(number)[i] != '(' by {
        if i >= 7 {
            assert(kernel_name(number)[i] == decimal(number)[i - 7]);
        }
    }
}

/// The labels of the cases, and the names of the functions that they call.
spec fn cases_of(kernels: Seq<KernelText>) -> Seq<(nat, Seq<char>)> {
    Seq::new(kernels.len(), |j: int| (kernels[j].index as nat, kernel_name(kernels[j].number as nat)))
}

spec fn cases_from(kernels: Seq<KernelText>, k: int) -> Seq<char>
    decreases kernels.len() - k,
{
    if k >= kernels.len() {
        Seq::empty()
    } else {
        case_text(kernels[k]) + cases_from(kernels, k + 1)
    }
}

proof fn cases_are_in_order(kernels: Seq<KernelText>, k: int)
    requires
        0 <= k <= kernels.len(),
    ensures
        cases_text(kernels.take(k)) + cases_from(kernels, k) == cases_text(kernels),
    decreases kernels.len() - k,
{
    if k == kernels.len() {
        assert(kernels.take(k) =~= kernels);
        assert(cases_text(kernels) + Seq::<char>::empty() =~= cases_text(kernels));
    } else {
        cases_are_in_order(kernels, k + 1);
        assert(kernels.take(k + 1).drop_last() =~= kernels.take(k));
        assert(kernels.take(k + 1).last() == kernels[k]);
        assert(cases_text(kernels.take(k)) + cases_from(kernels, k) =~= cases_text(
            kernels.take(k + 1),
        ) + cases_from(kernels, k + 1));
    }
}

proof fn cases_read(kernels: Seq<KernelText>, k: int, rest: Seq<char>)
    requires
        0 <= k <= kernels.len(),
        after(rest, "        case "@) is None,
    ensures
        read_cases(cases_from(kernels, k) + rest) == (cases_of(kernels).skip(k), rest),
    decreases kernels.len() - k,
{
    let s = cases_from(kernels, k) + rest;
    let all = cases_of(kernels);
    if k == kernels.len() {
        assert(s =~= rest);
        assert(all.skip(k) =~= Seq::<(nat, Seq<char>)>::empty());
    } else {
        let more = cases_from(kernels, k + 1) + rest;
        assert(s =~= case_text(kernels[k]) + more);
        case_reads(kernels[k], more);
        cases_read(kernels, k + 1, rest);
        assert(all.skip(k) =~= seq![all[k]] + all.skip(k + 1));
    }
}

/// The source of a program reads back as its functions and its cases.
proof fn program_reads(kernels: Seq<KernelText>, fs: Seq<(Seq<char>, Code)>)
    requires
        kernels.len() == fs.len(),
        forall|j: int| #![auto]
            0 <= j < fs.len() ==> kernels[j].function == function_text(fs[j].0, fs[j].1),
        forall|j: int| 0 <= j < fs.len() ==> !(#[trigger] fs[j]).0.contains('('),
    ensures
        read_shader(program_text(kernels)) == Some(
            Shader { functions: fs, cases: cases_of(kernels) },
        ),
{
    let head = opening();
    let open = "    switch index {\n"@;
    let end = "        default: { return false; }\n    }\n}\n"@;
    let body = cases_text(kernels) + end;
    let rest = head + (open + body);
    opening_is_in_two_parts();
    assert(program_text(kernels) =~= functions_text(kernels) + rest);
    assert(after(rest, "fn "@) is None) by {
        reveal_strlit("fn ");
        after_fails(rest, "fn "@, 0);
    }
    functions_are_in_order(kernels, fs, 0);
    assert(kernels.take(0) =~= Seq::<KernelText>::empty());
    assert(functions_text(kernels) =~= functions_from(fs, 0));
    functions_read(fs, 0, rest);
    assert(fs.skip(0) =~= fs);
    after_reads(head, open + body);
    after_reads(open, body);
    assert(after(end, "        case "@) is None) by {
        reveal_strlit("        case ");
        reveal_strlit("        default: { return false; }\n    }\n}\n");
        after_fails(end, "        case "@, 8);
    }
    cases_are_in_order(kernels, 0);
    assert(cases_text(kernels) =~= cases_from(kernels, 0));
    cases_read(kernels, 0, end);
    assert(cases_of(kernels).skip(0) =~= cases_of(kernels));
}

/// The line that opens `kernel_input` is its signature and the start of the
/// `switch`.
proof fn opening_is_in_two_parts()
    ensures
        "\nfn kernel_input(\n    index: u32, xyz: array<Value, 3>, out: ptr<function, Value>,\n) -> bool {\n    switch index {\n"@
            == opening() + "    switch index {\n"@,
        opening().len() > 0,
        opening()[0] == '\n',
{
    reveal_strlit("\nfn kernel_input(\n    index: u32, xyz: array<Value, 3>, out: ptr<function, Value>,\n) -> bool {\n");
    reveal_strlit("    switch index {\n");
    reveal_strlit("\nfn kernel_input(\n    index: u32, xyz: array<Value, 3>, out: ptr<function, Value>,\n) -> bool {\n    switch index {\n");
}

// ---------------------------------------------------------------------------
// Laws
// ---------------------------------------------------------------------------

/// An axis among the inputs of a tape, with its number in the evaluation point.
pub open spec fn axis_at(indices: Map<Variable, usize>, v: Variable, number: u32) -> Seq<
    (u32, u32),
> {
    if indices.contains_key(v) {
        seq![(indices[v] as u32, number)]
    } else {
        Seq::empty()
    }
}

/// The axes among the inputs of a tape: `X` is the first of the evaluation point,
/// `Y` the second, and `Z` the third.
pub open spec fn axes_of(indices: Map<Variable, usize>) -> Seq<(u32, u32)> {
    axis_at(indices, Variable::X, 0) + axis_at(indices, Variable::Y, 1) + axis_at(
        indices,
        Variable::Z,
        2,
    )
}

proof fn axis_table_lists_the_axes(indices: Map<Variable, usize>)
    ensures
        axis_table(axis_entries(indices)) == Ok::<Seq<(u32, u32)>, KernelError>(axes_of(indices)),
{
    axes_have_a_table(indices);
    reveal_with_fuel(axis_table, 4);
    let entries = axis_entries(indices);
    assert(axis_table(entries)->Ok_0 =~= axes_of(indices));
}

/// Why a tape with the given inputs cannot be compiled: one of its variables is
/// no axis, or else interpreting it gives the error.
pub open spec fn is_reason<V>(
    sem: Semantics<V>,
    words: Seq<u32>,
    indices: Map<Variable, usize>,
    e: KernelError,
) -> bool {
    if exists|v: Variable| #[trigger] indices.contains_key(v) && !(v is X || v is Y || v is Z) {
        e matches KernelError::UnsupportedVar(v) && indices.contains_key(v) && !(v is X || v is Y
            || v is Z)
    } else {
        interpret(sem, axes_of(indices), words) == Err::<V, KernelError>(e)
    }
}

/// What compiling a tape gives, read back, does what interpreting the tape does,
/// in every kind of value: the function goes by its name and returns the value
/// that the tape hands out.  The error is that of interpreting the tape, unless
/// there are variables other than the axes.
pub proof fn functions_do_what_their_tapes_do<V>(
    sem: Semantics<V>,
    words: Seq<u32>,
    indices: Map<Variable, usize>,
    name: Seq<char>,
    source: Result<Seq<char>, KernelError>,
)
    requires
        words.len() <= usize::MAX,
        !name.contains('('),
        compiles_to(words, indices, name, source),
    ensures
        match source {
            Ok(text) => {
                &&& forall|v: Variable| #[trigger]
                    indices.contains_key(v) ==> v is X || v is Y || v is Z
                &&& read_function(text) matches Some((n, code, rest)) && n == name && rest.len()
                    == 0 && interpret(sem, axes_of(indices), words) == Ok::<V, KernelError>(
                    evaluate(sem, code),
                )
            },
            Err(e) => is_reason(sem, words, indices, e),
        },
{
    axis_table_lists_the_axes(indices);
    compiled_and_interpreted_agree(sem, axes_of(indices), words);
    match source {
        Ok(text) => {
            let code = lowered(axes_of(indices), words)->Ok_0;
            assert(text == function_text(name, code));
            function_reads(name, code, Seq::empty());
            assert(text + Seq::<char>::empty() =~= text);
            assert forall|v: Variable| #[trigger] indices.contains_key(v) implies v is X || v is Y
                || v is Z by {
                assert(!has_free(indices));
            }
        },
        Err(e) => {
            if exists|v: Variable| #[trigger]
                indices.contains_key(v) && !(v is X || v is Y || v is Z) {
                let v = choose|v: Variable| #[trigger]
                    indices.contains_key(v) && !(v is X || v is Y || v is Z);
                assert(v is V);
                assert(has_free(indices));
            } else {
                assert(!has_free(indices));
            }
        },
    }
}

/// The number of an axis in the evaluation point, if the variable is one.
pub open spec fn axis_number_of(v: Variable) -> Option<u32> {
    match v {
        Variable::X => Some(0),
        Variable::Y => Some(1),
        Variable::Z => Some(2),
        _ => None,
    }
}

/// The axis of each input, in order.
pub open spec fn listed_axes(inputs: Seq<(Variable, usize)>) -> Seq<(u32, u32)> {
    Seq::new(inputs.len(), |i: int| (inputs[i].1 as u32, axis_number_of(inputs[i].0)->0))
}

/// The first input that is no axis.
pub open spec fn is_first_other(inputs: Seq<(Variable, usize)>, p: int) -> bool {
    &&& 0 <= p < inputs.len()
    &&& axis_number_of(inputs[p].0) is None
    &&& forall|i: int| 0 <= i < p ==> axis_number_of((#[trigger] inputs[i]).0) is Some
}

proof fn axis_table_lists_all_axes(inputs: Seq<(Variable, usize)>)
    ensures
        match axis_table(inputs) {
            Ok(axes) => axes == listed_axes(inputs) && forall|i: int|
                0 <= i < inputs.len() ==> axis_number_of((#[trigger] inputs[i]).0) is Some,
            Err(e) => exists|p: int| #[trigger]
                is_first_other(inputs, p) && e == KernelError::UnsupportedVar(inputs[p].0),
        },
    decreases inputs.len(),
{
    if inputs.len() > 0 {
        let rest = inputs.drop_last();
        let last = inputs.len() - 1;
        axis_table_lists_all_axes(rest);
        match axis_table(rest) {
            Err(e) => {
                let p = choose|p: int| #[trigger]
                    is_first_other(rest, p) && e == KernelError::UnsupportedVar(rest[p].0);
                assert forall|i: int| 0 <= i < p implies axis_number_of(
                    (#[trigger] inputs[i]).0,
                ) is Some by {
                    assert(rest[i] == inputs[i]);
                }
                assert(is_first_other(inputs, p));
            },
            Ok(axes) => {
                assert forall|i: int| 0 <= i < last implies axis_number_of(
                    (#[trigger] inputs[i]).0,
                ) is Some by {
                    assert(rest[i] == inputs[i]);
                }
                if axis_number_of(inputs[last].0) is None {
                    assert(is_first_other(inputs, last));
                } else {
                    assert(axis_table(inputs)->Ok_0 =~= listed_axes(inputs));
                }
            },
        }
    } else {
        assert(listed_axes(inputs) =~= Seq::<(u32, u32)>::empty());
    }
}

/// The same of words with their inputs listed: the first input that is no axis is
/// refused; otherwise the function does what the words do, or has their error.
pub proof fn words_do_what_they_are_compiled_to<V>(
    sem: Semantics<V>,
    words: Seq<u32>,
    inputs: Seq<(Variable, usize)>,
    name: Seq<char>,
)
    requires
        words.len() <= usize::MAX,
        !name.contains('('),
    ensures
        match compiled(words, inputs, name) {
            Ok(text) => {
                &&& forall|i: int|
                    0 <= i < inputs.len() ==> axis_number_of((#[trigger] inputs[i]).0) is Some
                &&& read_function(text) matches Some((n, code, rest)) && n == name && rest.len()
                    == 0 && interpret(sem, listed_axes(inputs), words) == Ok::<V, KernelError>(
                    evaluate(sem, code),
                )
            },
            Err(e) => {
                ||| exists|p: int| #[trigger]
                    is_first_other(inputs, p) && e == KernelError::UnsupportedVar(inputs[p].0)
                ||| (forall|i: int|
                    0 <= i < inputs.len() ==> axis_number_of((#[trigger] inputs[i]).0) is Some)
                    && interpret(sem, listed_axes(inputs), words) == Err::<V, KernelError>(e)
            },
        },
{
    axis_table_lists_all_axes(inputs);
    if let Ok(axes) = axis_table(inputs) {
        compiled_and_interpreted_agree(sem, axes, words);
        if let Ok(code) = lowered(axes, words) {
            let text = function_text(name, code);
            function_reads(name, code, Seq::empty());
            assert(text + Seq::<char>::empty() =~= text);
        }
    }
}

/// The function of a used kernel is that of its tape, under the kernel's name.
proof fn used_functions(kernels: Seq<Candidate>, j: int)
    requires
        kernels.len() <= usize::MAX,
        0 <= j < used_kernels(kernels).len(),
    ensures
        ({
            let k = used_kernels(kernels)[j];
            let c = kernels[k.number as int];
            &&& k.number < kernels.len()
            &&& c.index == Some(k.index)
            &&& k.function == compiled(
                c.words,
                axis_entries(c.inputs),
                kernel_name(k.number as nat),
            )->Ok_0
        }),
    decreases kernels.len(),
{
    let rest = kernels.drop_last();
    if j < used_kernels(rest).len() {
        used_functions(rest, j);
        assert(used_kernels(kernels)[j] == used_kernels(rest)[j]);
    }
}

proof fn picks(cases: Seq<(nat, Seq<char>)>, j: int)
    requires
        0 <= j < cases.len(),
        forall|i: int| 0 <= i < j ==> (#[trigger] cases[i]).0 != cases[j].0,
    ensures
        called_for(cases, cases[j].0) == Some(cases[j].1),
    decreases cases.len(),
{
    if j > 0 {
        let rest = cases.drop_first();
        assert(cases[0].0 != cases[j].0);
        assert forall|i: int| 0 <= i < j - 1 implies (#[trigger] rest[i]).0 != rest[j - 1].0 by {
            assert(rest[i] == cases[i + 1]);
        }
        picks(rest, j - 1);
    }
}

proof fn picks_none(cases: Seq<(nat, Seq<char>)>, index: nat)
    requires
        forall|i: int| 0 <= i < cases.len() ==> (#[trigger] cases[i]).0 != index,
    ensures
        called_for(cases, index) is None,
    decreases cases.len(),
{
    if cases.len() > 0 {
        let rest = cases.drop_first();
        assert(cases[0].0 != index);
        assert forall|i: int| 0 <= i < rest.len() implies (#[trigger] rest[i]).0 != index by {
            assert(rest[i] == cases[i + 1]);
        }
        picks_none(rest, index);
    }
}

proof fn finds(functions: Seq<(Seq<char>, Code)>, j: int)
    requires
        0 <= j < functions.len(),
        forall|i: int| 0 <= i < j ==> (#[trigger] functions[i]).0 != functions[j].0,
    ensures
        defined_as(functions, functions[j].0) == Some(functions[j].1),
    decreases functions.len(),
{
    if j > 0 {
        let rest = functions.drop_first();
        assert(functions[0].0 != functions[j].0);
        assert forall|i: int| 0 <= i < j - 1 implies (#[trigger] rest[i]).0 != rest[j - 1].0 by {
            assert(rest[i] == functions[i + 1]);
        }
        finds(rest, j - 1);
    }
}

/// The kernel `i` is used, and the input `index` is its placeholder.
pub open spec fn stands_for(
    vars: Map<Variable, usize>,
    kernels: Seq<(Variable, VmShape)>,
    i: int,
    index: nat,
) -> bool {
    0 <= i < kernels.len() && vars.contains_key(kernels[i].0) && vars[kernels[i].0] == index
}

/// The code of a kernel.
spec fn code_of(c: Candidate) -> Code {
    lowered(axes_of(c.inputs), c.words)->Ok_0
}

/// The shader of the kernels that are used.
spec fn shader_of(all: Seq<Candidate>) -> Shader {
    let used = used_kernels(all);
    Shader {
        functions: Seq::new(
            used.len(),
            |j: int| (kernel_name(used[j].number as nat), code_of(all[used[j].number as int])),
        ),
        cases: cases_of(used),
    }
}

/// What the laws below take as given.
spec fn is_built(
    vars: Map<Variable, usize>,
    kernels: Seq<(Variable, VmShape)>,
    p: KernelProgram,
) -> bool {
    &&& kernels.len() <= usize::MAX
    &&& builds(candidates(vars, kernels), Ok::<Option<KernelProgram>, RenderShapeError>(Some(p)))
    &&& forall|i: int|
        0 <= i < kernels.len() ==> shape_words((#[trigger] kernels[i]).1).len() <= usize::MAX
}

/// No two kernels have the same placeholder.
pub open spec fn have_distinct_placeholders(
    vars: Map<Variable, usize>,
    kernels: Seq<(Variable, VmShape)>,
) -> bool {
    forall|i: int, j: int, index: nat|
        #[trigger] stands_for(vars, kernels, i, index) && #[trigger] stands_for(
            vars,
            kernels,
            j,
            index,
        ) ==> i == j
}

/// The used kernel `j` stands for its index, and its code does what its tape does.
proof fn used_kernel<V>(
    sem: Semantics<V>,
    vars: Map<Variable, usize>,
    kernels: Seq<(Variable, VmShape)>,
    p: KernelProgram,
    j: int,
)
    requires
        is_built(vars, kernels, p),
        0 <= j < used_kernels(candidates(vars, kernels)).len(),
    ensures
        ({
            let all = candidates(vars, kernels);
            let k = used_kernels(all)[j];
            let n = k.number as int;
            &&& 0 <= n < kernels.len()
            &&& stands_for(vars, kernels, n, k.index as nat)
            &&& k.function == function_text(kernel_name(n as nat), code_of(all[n]))
            &&& interpret(
                sem,
                axes_of(shape_indices(kernels[n].1)),
                shape_words(kernels[n].1),
            ) == Ok::<V, KernelError>(evaluate(sem, code_of(all[n])))
        }),
{
    let all = candidates(vars, kernels);
    let n = used_kernels(all)[j].number as int;
    used_functions(all, j);
    assert(!fails(all[n], n as nat));
    axis_table_lists_the_axes(all[n].inputs);
    assert(shape_words(kernels[n].1).len() <= usize::MAX);
    compiled_and_interpreted_agree(sem, axes_of(all[n].inputs), all[n].words);
}

/// The source reads back as the shader of the used kernels.
proof fn built_program_reads<V>(
    sem: Semantics<V>,
    vars: Map<Variable, usize>,
    kernels: Seq<(Variable, VmShape)>,
    p: KernelProgram,
)
    requires
        is_built(vars, kernels, p),
    ensures
        read_shader(p.source@) == Some(shader_of(candidates(vars, kernels))),
{
    let all = candidates(vars, kernels);
    let used = used_kernels(all);
    let fs = shader_of(all).functions;
    assert forall|j: int| #![auto] 0 <= j < fs.len() implies used[j].function == function_text(
        fs[j].0,
        fs[j].1,
    ) by {
        used_kernel(sem, vars, kernels, p, j);
    }
    assert forall|j: int| 0 <= j < fs.len() implies !(#[trigger] fs[j]).0.contains('(') by {
        names_are_plain(used[j].number as nat);
    }
    program_reads(used, fs);
}

/// Different kernels have different labels and different names.
proof fn kernels_differ<V>(
    sem: Semantics<V>,
    vars: Map<Variable, usize>,
    kernels: Seq<(Variable, VmShape)>,
    p: KernelProgram,
    j: int,
    k: int,
)
    requires
        is_built(vars, kernels, p),
        have_distinct_placeholders(vars, kernels),
        0 <= j < k < used_kernels(candidates(vars, kernels)).len(),
    ensures
        ({
            let shader = shader_of(candidates(vars, kernels));
            &&& shader.cases[j].0 != shader.cases[k].0
            &&& shader.functions[j].0 != shader.functions[k].0
        }),
{
    let all = candidates(vars, kernels);
    let used = used_kernels(all);
    let one = used[j].number;
    let other = used[k].number;
    exactly_the_used_kernels_are_built(all);
    assert(one < other);
    used_kernel(sem, vars, kernels, p, j);
    used_kernel(sem, vars, kernels, p, k);
    if kernel_name(one as nat) == kernel_name(other as nat) {
        kernel_names_are_distinct(one as nat, other as nat);
    }
}

/// For the index of a placeholder, its kernel is called.
proof fn kernel_is_called<V>(
    sem: Semantics<V>,
    vars: Map<Variable, usize>,
    kernels: Seq<(Variable, VmShape)>,
    p: KernelProgram,
    i: int,
    index: nat,
)
    requires
        is_built(vars, kernels, p),
        have_distinct_placeholders(vars, kernels),
        stands_for(vars, kernels, i, index),
    ensures
        ({
            let shader = shader_of(candidates(vars, kernels));
            &&& kernel_input(sem, shader, index) is Some
            &&& interpret(
                sem,
                axes_of(shape_indices(kernels[i].1)),
                shape_words(kernels[i].1),
            ) == Ok::<V, KernelError>(kernel_input(sem, shader, index)->0)
        }),
{
    let all = candidates(vars, kernels);
    let used = used_kernels(all);
    let shader = shader_of(all);
    let fs = shader.functions;
    let cases = shader.cases;
    exactly_the_used_kernels_are_built(all);
    assert(all[i].index is Some);
    let j = choose|j: int| 0 <= j < used.len() && (#[trigger] used[j]).number == i;
    used_kernel(sem, vars, kernels, p, j);
    assert(cases[j] == (index, kernel_name(i as nat)));
    assert(fs[j] == (kernel_name(i as nat), code_of(all[i])));
    assert forall|h: int| 0 <= h < j implies (#[trigger] cases[h]).0 != cases[j].0 by {
        kernels_differ(sem, vars, kernels, p, h, j);
    }
    assert forall|h: int| 0 <= h < j implies (#[trigger] fs[h]).0 != fs[j].0 by {
        kernels_differ(sem, vars, kernels, p, h, j);
    }
    picks(cases, j);
    finds(fs, j);
}

/// The program of a shape does for each placeholder what its kernel does.  The
/// source of the program reads as a shader whose `kernel_input` hands out, for
/// the index of a placeholder, what interpreting the tape of that kernel gives,
/// in every kind of value; for every other index it hands out nothing.
pub proof fn programs_do_what_their_kernels_do<V>(
    sem: Semantics<V>,
    vars: Map<Variable, usize>,
    kernels: Seq<(Variable, VmShape)>,
    p: KernelProgram,
    index: nat,
)
    requires
        kernels.len() <= usize::MAX,
        builds(candidates(vars, kernels), Ok::<Option<KernelProgram>, RenderShapeError>(Some(p))),
        forall|i: int|
            0 <= i < kernels.len() ==> shape_words((#[trigger] kernels[i]).1).len() <= usize::MAX,
        have_distinct_placeholders(vars, kernels),
    ensures
        read_shader(p.source@) matches Some(shader) && {
            &&& forall|i: int| #[trigger]
                stands_for(vars, kernels, i, index) ==> {
                    &&& kernel_input(sem, shader, index) is Some
                    &&& interpret(
                        sem,
                        axes_of(shape_indices(kernels[i].1)),
                        shape_words(kernels[i].1),
                    ) == Ok::<V, KernelError>(kernel_input(sem, shader, index)->0)
                }
            &&& kernel_input(sem, shader, index) is Some ==> exists|i: int| #[trigger]
                stands_for(vars, kernels, i, index)
        },
{
    let all = candidates(vars, kernels);
    let used = used_kernels(all);
    let shader = shader_of(all);
    let cases = shader.cases;
    assert(is_built(vars, kernels, p));
    built_program_reads(sem, vars, kernels, p);
    assert forall|i: int| #[trigger] stands_for(vars, kernels, i, index) implies {
        &&& kernel_input(sem, shader, index) is Some
        &&& interpret(sem, axes_of(shape_indices(kernels[i].1)), shape_words(kernels[i].1)) == Ok::<
            V,
            KernelError,
        >(kernel_input(sem, shader, index)->0)
    } by {
        kernel_is_called(sem, vars, kernels, p, i, index);
    }
    if forall|j: int| 0 <= j < cases.len() ==> (#[trigger] cases[j]).0 != index {
        picks_none(cases, index);
    } else {
        let j = choose|j: int| 0 <= j < cases.len() && (#[trigger] cases[j]).0 == index;
        used_kernel(sem, vars, kernels, p, j);
        assert(stands_for(vars, kernels, used[j].number as int, index));
    }
}

/// These are the numbers of the kernels that a shape uses, in order.
pub open spec fn are_used(
    vars: Map<Variable, usize>,
    kernels: Seq<(Variable, VmShape)>,
    numbers: Seq<int>,
) -> bool {
    &&& forall|j: int, k: int|
        0 <= j < k < numbers.len() ==> #[trigger] numbers[j] < #[trigger] numbers[k]
    &&& forall|i: int| #[trigger]
        numbers.contains(i) <==> 0 <= i < kernels.len() && vars.contains_key(kernels[i].0)
}

/// The source of a program has a function for each kernel that is used, and for no
/// other, in order.  It does what the tape of the kernel does; it is called
/// `kernel_` with the number of the kernel; and it is the one that is called for
/// the index of the kernel's placeholder.
pub proof fn every_kernel_has_its_function<V>(
    sem: Semantics<V>,
    vars: Map<Variable, usize>,
    kernels: Seq<(Variable, VmShape)>,
    p: KernelProgram,
)
    requires
        kernels.len() <= usize::MAX,
        builds(candidates(vars, kernels), Ok::<Option<KernelProgram>, RenderShapeError>(Some(p))),
        forall|i: int|
            0 <= i < kernels.len() ==> shape_words((#[trigger] kernels[i]).1).len() <= usize::MAX,
    ensures
        read_shader(p.source@) matches Some(shader) && exists|numbers: Seq<int>| #[trigger]
            are_used(vars, kernels, numbers) && {
                &&& shader.functions.len() == numbers.len()
                &&& shader.cases.len() == numbers.len()
                &&& p.inputs@.len() == numbers.len()
                &&& forall|j: int|
                    0 <= j < numbers.len() ==> {
                        let (name, code) = #[trigger] shader.functions[j];
                        let (v, shape) = kernels[numbers[j]];
                        &&& after(name, "kernel_"@) matches Some(digits) && denotes(
                            digits,
                            numbers[j],
                        )
                        &&& interpret(sem, axes_of(shape_indices(shape)), shape_words(shape))
                            == Ok::<V, KernelError>(evaluate(sem, code))
                        &&& shader.cases[j] == (vars[v] as nat, name)
                        &&& p.inputs@[j] == vars[v] as u32
                    }
            },
{
    let all = candidates(vars, kernels);
    let used = used_kernels(all);
    let shader = shader_of(all);
    let numbers = Seq::new(used.len(), |j: int| used[j].number as int);
    exactly_the_used_kernels_are_built(all);
    built_program_reads(sem, vars, kernels, p);
    used_numbers(vars, kernels);
    assert forall|j: int| 0 <= j < numbers.len() implies {
        let (name, code) = #[trigger] shader.functions[j];
        let (v, shape) = kernels[numbers[j]];
        &&& after(name, "kernel_"@) matches Some(digits) && denotes(digits, numbers[j])
        &&& interpret(sem, axes_of(shape_indices(shape)), shape_words(shape)) == Ok::<
            V,
            KernelError,
        >(evaluate(sem, code))
        &&& shader.cases[j] == (vars[v] as nat, name)
        &&& p.inputs@[j] == vars[v] as u32
    } by {
        let n = used[j].number;
        used_kernel(sem, vars, kernels, p, j);
        after_reads("kernel_"@, decimal(n as nat));
        decimal_reads_back(n as nat);
    }
}

/// The numbers of the used kernels are those of the kernels that are used.
proof fn used_numbers(vars: Map<Variable, usize>, kernels: Seq<(Variable, VmShape)>)
    requires
        kernels.len() <= usize::MAX,
    ensures
        ({
            let used = used_kernels(candidates(vars, kernels));
            are_used(vars, kernels, Seq::new(used.len(), |j: int| used[j].number as int))
        }),
{
    let all = candidates(vars, kernels);
    let used = used_kernels(all);
    let numbers = Seq::new(used.len(), |j: int| used[j].number as int);
    exactly_the_used_kernels_are_built(all);
    assert forall|j: int, k: int| 0 <= j < k < numbers.len() implies #[trigger] numbers[j]
        < #[trigger] numbers[k] by {
        assert(used[j].number < used[k].number);
    }
    assert forall|i: int| #[trigger] numbers.contains(i) <==> 0 <= i < kernels.len()
        && vars.contains_key(kernels[i].0) by {
        if numbers.contains(i) {
            let j = choose|j: int| 0 <= j < numbers.len() && numbers[j] == i;
            assert(used[j].number == i);
            assert(all[i].index is Some);
        }
        if 0 <= i < kernels.len() && vars.contains_key(kernels[i].0) {
            assert(all[i].index is Some);
            let j = choose|j: int| 0 <= j < used.len() && (#[trigger] used[j]).number == i;
            assert(numbers[j] == i);
        }
    }
}

/// Where the function `k` starts, if functions follow each other.
pub open spec fn function_start(kernels: Seq<KernelText>, k: int) -> int
    decreases k,
{
    if k <= 0 {
        0
    } else {
        function_start(kernels, k - 1) + kernels[k - 1].function.len()
    }
}

proof fn functions_follow_each_other(kernels: Seq<KernelText>, n: int)
    requires
        0 <= n <= kernels.len(),
    ensures
        functions_text(kernels.take(n)).len() == function_start(kernels, n),
        forall|k: int|
            0 <= k < n ==> {
                let from = #[trigger] function_start(kernels, k);
                let to = from + kernels[k].function.len();
                0 <= from <= to <= function_start(kernels, n) && functions_text(
                    kernels.take(n),
                ).subrange(from, to) == kernels[k].function
            },
    decreases n,
{
    if n > 0 {
        let last = kernels[n - 1].function;
        let before = functions_text(kernels.take(n - 1));
        let all = functions_text(kernels.take(n));
        functions_follow_each_other(kernels, n - 1);
        assert(kernels.take(n).drop_last() =~= kernels.take(n - 1));
        assert(all == before + last);
        assert forall|k: int| 0 <= k < n implies {
            let from = #[trigger] function_start(kernels, k);
            let to = from + kernels[k].function.len();
            0 <= from <= to <= function_start(kernels, n) && all.subrange(from, to)
                == kernels[k].function
        } by {
            let from = function_start(kernels, k);
            let to = from + kernels[k].function.len();
            if k < n - 1 {
                assert(all.subrange(from, to) =~= before.subrange(from, to));
            } else {
                assert(all.subrange(from, to) =~= last);
            }
        }
    } else {
        assert(kernels.take(0) =~= Seq::<KernelText>::empty());
    }
}

/// Putting kernels together keeps what they hold, whatever that is: their functions
/// follow each other from the start of the source on; behind them, `kernel_input`
/// has a case for each kernel, in order, with the index of its placeholder and the
/// name that its number gives; and the inputs are these indexes.
pub proof fn assembled_programs_hold_their_kernels(kernels: Seq<KernelText>, p: KernelProgram)
    requires
        p.is_made_of(kernels),
    ensures
        forall|k: int|
            0 <= k < kernels.len() ==> {
                let from = #[trigger] function_start(kernels, k);
                let to = from + kernels[k].function.len();
                0 <= from <= to <= p.source@.len() && p.source@.subrange(from, to)
                    == kernels[k].function
            },
        0 <= function_start(kernels, kernels.len() as int) <= p.source@.len(),
        read_shader_end(p.source@.skip(function_start(kernels, kernels.len() as int))) matches Some(
            cases,
        ) && cases.len() == kernels.len() && p.inputs@.len() == kernels.len() && forall|k: int|
            0 <= k < cases.len() ==> {
                &&& (#[trigger] cases[k]).0 == kernels[k].index
                &&& after(cases[k].1, "kernel_"@) matches Some(digits) && denotes(
                    digits,
                    kernels[k].number as int,
                )
                &&& p.inputs@[k] == kernels[k].index as u32
            },
{
    let n = kernels.len() as int;
    let text = functions_text(kernels);
    let start = function_start(kernels, n);
    let source = p.source@;
    let head = opening();
    let open = "    switch index {\n"@;
    let end = "        default: { return false; }\n    }\n}\n"@;
    let body = cases_text(kernels) + end;
    let rest = head + (open + body);
    functions_follow_each_other(kernels, n);
    assert(kernels.take(n) =~= kernels);
    opening_is_in_two_parts();
    assert(source =~= text + rest);
    assert(source.skip(start) =~= rest);
    assert forall|k: int| 0 <= k < n implies {
        let from = #[trigger] function_start(kernels, k);
        let to = from + kernels[k].function.len();
        0 <= from <= to <= source.len() && source.subrange(from, to) == kernels[k].function
    } by {
        let from = function_start(kernels, k);
        let to = from + kernels[k].function.len();
        assert(source.subrange(from, to) =~= text.subrange(from, to));
    }
    after_reads(head, open + body);
    after_reads(open, body);
    assert(after(end, "        case "@) is None) by {
        reveal_strlit("        case ");
        reveal_strlit("        default: { return false; }\n    }\n}\n");
        after_fails(end, "        case "@, 8);
    }
    cases_are_in_order(kernels, 0);
    assert(kernels.take(0) =~= Seq::<KernelText>::empty());
    assert(cases_text(kernels) =~= cases_from(kernels, 0));
    cases_read(kernels, 0, end);
    let cases = cases_of(kernels);
    assert(cases.skip(0) =~= cases);
    assert forall|k: int| 0 <= k < cases.len() implies {
        &&& (#[trigger] cases[k]).0 == kernels[k].index
        &&& after(cases[k].1, "kernel_"@) matches Some(digits) && denotes(
            digits,
            kernels[k].number as int,
        )
        &&& p.inputs@[k] == kernels[k].index as u32
    } by {
        after_reads("kernel_"@, decimal(kernels[k].number as nat));
        decimal_reads_back(kernels[k].number as nat);
    }
}

/// The key of a program is what hashing its source gives: its bytes, and the byte
/// that ends a text.
pub proof fn keys_are_hashes_of_sources(kernels: Seq<KernelText>, p: KernelProgram)
    requires
        p.is_made_of(kernels),
    ensures
        p.key == DefaultHasher::spec_finish(seq![encode_utf8(p.source@), seq![0xFFu8]]),
{
}

/// A tape with the given inputs can be compiled: interpreting it gives a value,
/// and its inputs are axes.
pub open spec fn is_sound<V>(
    sem: Semantics<V>,
    words: Seq<u32>,
    indices: Map<Variable, usize>,
) -> bool {
    &&& forall|v: Variable| #[trigger] indices.contains_key(v) ==> v is X || v is Y || v is Z
    &&& interpret(sem, axes_of(indices), words) is Ok
}

/// A kernel fails exactly where it is used and its tape cannot be compiled, and
/// its error says why.
proof fn failures_are_real<V>(
    sem: Semantics<V>,
    c: Candidate,
    number: nat,
    e: RenderShapeError,
)
    requires
        c.words.len() <= usize::MAX,
    ensures
        fails(c, number) <==> c.index is Some && !is_sound(sem, c.words, c.inputs),
        fails_with(c, number, e) ==> {
            &&& e matches RenderShapeError::KernelError(why)
            &&& is_reason(sem, c.words, c.inputs, why)
        },
{
    axis_table_lists_the_axes(c.inputs);
    compiled_and_interpreted_agree(sem, axes_of(c.inputs), c.words);
    if has_free(c.inputs) {
        let v = choose|v: Variable| #[trigger] c.inputs.contains_key(v) && v is V;
        assert(c.inputs.contains_key(v) && !(v is X || v is Y || v is Z));
    } else {
        assert forall|v: Variable| #[trigger] c.inputs.contains_key(v) implies v is X || v is Y
            || v is Z by {}
    }
}

/// Building fails exactly where a kernel that is used cannot be compiled, and
/// then with the error of the first one: it names a variable of the kernel that
/// is no axis, or is the error of interpreting the kernel's tape.  Otherwise
/// there is a program exactly where a kernel is used.
pub proof fn the_first_bad_kernel_is_reported<V>(
    sem: Semantics<V>,
    vars: Map<Variable, usize>,
    kernels: Seq<(Variable, VmShape)>,
    result: Result<Option<KernelProgram>, RenderShapeError>,
)
    requires
        kernels.len() <= usize::MAX,
        builds(candidates(vars, kernels), result),
        forall|i: int|
            0 <= i < kernels.len() ==> shape_words((#[trigger] kernels[i]).1).len() <= usize::MAX,
    ensures
        match result {
            Ok(program) => {
                &&& forall|i: int|
                    0 <= i < kernels.len() && vars.contains_key((#[trigger] kernels[i]).0)
                        ==> is_sound(
                        sem,
                        shape_words(kernels[i].1),
                        shape_indices(kernels[i].1),
                    )
                &&& program is Some <==> exists|i: int|
                    0 <= i < kernels.len() && vars.contains_key((#[trigger] kernels[i]).0)
            },
            Err(e) => exists|p: int|
                {
                    let words = shape_words((#[trigger] kernels[p]).1);
                    let inputs = shape_indices(kernels[p].1);
                    &&& 0 <= p < kernels.len()
                    &&& vars.contains_key(kernels[p].0)
                    &&& !is_sound(sem, words, inputs)
                    &&& e matches RenderShapeError::KernelError(why)
                    &&& is_reason(sem, words, inputs, why)
                    &&& forall|i: int|
                        0 <= i < p && vars.contains_key((#[trigger] kernels[i]).0) ==> is_sound(
                            sem,
                            shape_words(kernels[i].1),
                            shape_indices(kernels[i].1),
                        )
                },
        },
{
    let all = candidates(vars, kernels);
    assert forall|i: int| 0 <= i < kernels.len() && vars.contains_key((#[trigger] kernels[i]).0)
        && !fails(all[i], i as nat) implies is_sound(
        sem,
        shape_words(kernels[i].1),
        shape_indices(kernels[i].1),
    ) by {
        failures_are_real(sem, all[i], i as nat, arbitrary());
    }
    match result {
        Ok(program) => {
            exactly_the_used_kernels_are_built(all);
            assert forall|i: int| 0 <= i < kernels.len() implies (all[i].index is Some
                <==> vars.contains_key((#[trigger] kernels[i]).0)) by {}
            if forall|i: int|
                0 <= i < kernels.len() ==> !vars.contains_key((#[trigger] kernels[i]).0) {
                assert forall|i: int| 0 <= i < all.len() implies (#[trigger] all[i]).index is None by {
                    assert(!vars.contains_key(kernels[i].0));
                }
            }
            assert forall|i: int| 0 <= i < kernels.len() && vars.contains_key(
                (#[trigger] kernels[i]).0,
            ) implies is_sound(sem, shape_words(kernels[i].1), shape_indices(kernels[i].1)) by {
                assert(!fails(all[i], i as nat));
            }
        },
        Err(e) => {
            let p = choose|p: int| #[trigger]
                is_first_failure(all, p) && fails_with(all[p], p as nat, e);
            assert(shape_words(kernels[p].1).len() <= usize::MAX);
            failures_are_real(sem, all[p], p as nat, e);
            assert forall|i: int| 0 <= i < p && vars.contains_key(
                (#[trigger] kernels[i]).0,
            ) implies is_sound(sem, shape_words(kernels[i].1), shape_indices(kernels[i].1)) by {
                assert(!fails(all[i], i as nat));
            }
        },
    }
}

/// The default source refuses every input.
pub proof fn default_source_refuses_every_input<V>(sem: Semantics<V>, index: nat)
    ensures
        read_shader(KERNEL_STUB@) matches Some(shader) && shader.functions.len() == 0
            && kernel_input(sem, shader, index) is None,
{
    let head = opening();
    let end = "    return false;\n}\n"@;
    reveal_strlit("\nfn kernel_input(\n    index: u32, xyz: array<Value, 3>, out: ptr<function, Value>,\n) -> bool {\n");
    reveal_strlit("    return false;\n}\n");
    reveal_strlit("    switch index {\n");
    reveal_strlit("fn ");
    reveal_strlit("
fn kernel_input(
    index: u32, xyz: array<Value, 3>, out: ptr<function, Value>,
) -> bool {
    return false;
}
");
    assert(KERNEL_STUB@ =~= head + end);
    assert(KERNEL_STUB@[0] == '\n');
    after_fails(KERNEL_STUB@, "fn "@, 0);
    after_reads(head, end);
    after_fails(end, "    switch index {\n"@, 4);
}

} // verus!
