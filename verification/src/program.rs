//! The kernels of a shape as one WGSL program.

use crate::error::{RenderShapeError, Variable};
use crate::outside::{
    axis_entries, has_its_own_index, shape_bytecode, shape_indices, shape_vars, shape_words,
    var_index, var_indices,
};
use crate::text::{decimal, decimal_is_injective, push_decimal};
use crate::wgsl::{compile_function, compiled, compiles_to, has_free};
use fidget_core::var::VarMap;
use fidget_core::vm::VmShape;
use std::collections::hash_map::DefaultHasher;
use std::hash::Hasher;
use vstd::prelude::*;
use vstd::std_specs::hash::DefaultHasherAdditionalSpecFns;
use vstd::string::StringExecFns;
use vstd::utf8::encode_utf8;

verus! {

/// Compiled kernel code for a particular shape.
///
/// The WGSL source defines `kernel_input`, which the tape interpreter calls for
/// input variables which aren't axes.  Pipelines are cached by `key`, a hash of
/// the source.
pub struct KernelProgram {
    /// A hash of the source
    pub key: u64,
    /// The WGSL source
    pub source: String,
    /// Indexes (in the shape's variable map) of kernel placeholders
    pub inputs: Vec<u32>,
}

/// Default `kernel_input` for shaders without kernels.
pub const KERNEL_STUB: &'static str = "
fn kernel_input(
    index: u32, xyz: array<Value, 3>, out: ptr<function, Value>,
) -> bool {
    return false;
}
";

/// Returns the `kernel_input` source for a (possibly absent) program.
pub fn kernel_source(program: Option<&KernelProgram>) -> (source: &str)
    ensures
        source@ == match program {
            Some(p) => p.source@,
            None => KERNEL_STUB@,
        },
{
    match program {
        Some(p) => p.source.as_str(),
        None => KERNEL_STUB,
    }
}

// ---------------------------------------------------------------------------
// The text of a program
// ---------------------------------------------------------------------------

/// A kernel that a shape uses, compiled to a function.
pub struct CompiledKernel {
    /// The number of the kernel, which its name ends in
    pub number: usize,
    /// The index of its placeholder
    pub index: usize,
    /// The WGSL function
    pub function: String,
}

/// What a compiled kernel holds.
pub struct KernelText {
    /// The number of the kernel, which its name ends in
    pub number: usize,
    /// The index of its placeholder
    pub index: usize,
    /// The WGSL function
    pub function: Seq<char>,
}

impl View for CompiledKernel {
    type V = KernelText;

    open spec fn view(&self) -> KernelText {
        KernelText { number: self.number, index: self.index, function: self.function@ }
    }
}

/// The name of a kernel's function.
pub open spec fn kernel_name(number: nat) -> Seq<char> {
    "kernel_"@ + decimal(number)
}

/// The functions, in order.
pub open spec fn functions_text(kernels: Seq<KernelText>) -> Seq<char>
    decreases kernels.len(),
{
    if kernels.len() == 0 {
        Seq::empty()
    } else {
        functions_text(kernels.drop_last()) + kernels.last().function
    }
}

/// The case that calls a kernel for the index of its placeholder.
pub open spec fn case_text(k: KernelText) -> Seq<char> {
    "        case "@ + decimal(k.index as nat) + "u: { *out = "@ + kernel_name(k.number as nat)
        + "(xyz); return true; }\n"@
}

/// The cases, in order.
pub open spec fn cases_text(kernels: Seq<KernelText>) -> Seq<char>
    decreases kernels.len(),
{
    if kernels.len() == 0 {
        Seq::empty()
    } else {
        cases_text(kernels.drop_last()) + case_text(kernels.last())
    }
}

/// The functions, and `kernel_input`, which picks one by the index of an input.
pub open spec fn program_text(kernels: Seq<KernelText>) -> Seq<char> {
    functions_text(kernels)
        + "\nfn kernel_input(\n    index: u32, xyz: array<Value, 3>, out: ptr<function, Value>,\n) -> bool {\n    switch index {\n"@
        + cases_text(kernels) + "        default: { return false; }\n    }\n}\n"@
}

/// The hash that a source is known by: that of its bytes, and the byte that
/// ends a string.
pub open spec fn source_key(source: Seq<char>) -> u64 {
    DefaultHasher::spec_finish(seq![encode_utf8(source), seq![0xFFu8]])
}

/// The indexes of the placeholders, in order.
pub open spec fn placeholder_indexes(kernels: Seq<KernelText>) -> Seq<u32> {
    Seq::new(kernels.len(), |j: int| kernels[j].index as u32)
}

/// The views of compiled kernels.
pub open spec fn kernel_texts(kernels: Seq<CompiledKernel>) -> Seq<KernelText> {
    Seq::new(kernels.len(), |j: int| kernels[j]@)
}

fn push_kernel_name(out: &mut String, number: usize)
    ensures
        final(out)@ == old(out)@ + kernel_name(number as nat),
{
    out.append("kernel_");
    push_decimal(out, number);
    assert(out@ =~= old(out)@ + kernel_name(number as nat));
}

/// Hashes a source.
fn hash_source(source: &str) -> (key: u64)
    ensures
        key == source_key(source@),
{
    let end: [u8; 1] = [0xFF];
    let mut h = DefaultHasher::new();
    h.write(source.as_bytes());
    h.write(end.as_slice());
    assert(end@ == seq![0xFFu8]);
    assert(h@ == seq![encode_utf8(source@), seq![0xFFu8]]);
    h.finish()
}

impl KernelProgram {
    /// The key is that of the source.
    pub open spec fn well_formed(self) -> bool {
        self.key == source_key(self.source@)
    }

    /// The program of the given kernels.
    pub open spec fn is_made_of(self, kernels: Seq<KernelText>) -> bool {
        &&& self.source@ == program_text(kernels)
        &&& self.inputs@ == placeholder_indexes(kernels)
        &&& self.well_formed()
    }

    /// Puts compiled kernels together.
    pub fn assemble(kernels: &[CompiledKernel]) -> (program: KernelProgram)
        ensures
            program.is_made_of(kernel_texts(kernels@)),
    {
        let ghost all = kernel_texts(kernels@);
        let mut source = String::new();
        let mut cases = String::new();
        let mut inputs: Vec<u32> = Vec::new();
        let mut i: usize = 0;
        assert(all.take(0) == Seq::<KernelText>::empty());
        while i < kernels.len()
            invariant
                i <= kernels@.len() == all.len(),
                all == kernel_texts(kernels@),
                source@ == functions_text(all.take(i as int)),
                cases@ == cases_text(all.take(i as int)),
                inputs@ == placeholder_indexes(all.take(i as int)),
            decreases kernels@.len() - i,
        {
            let k = &kernels[i];
            assert(all.take(i + 1).drop_last() == all.take(i as int));
            assert(all.take(i + 1).last() == k@);
            source.append(k.function.as_str());
            let ghost before = cases@;
            cases.append("        case ");
            push_decimal(&mut cases, k.index);
            cases.append("u: { *out = ");
            push_kernel_name(&mut cases, k.number);
            cases.append("(xyz); return true; }\n");
            assert(cases@ =~= before + case_text(k@));
            inputs.push(k.index as u32);
            i += 1;
        }
        assert(all.take(i as int) == all);
        source.append(
            "\nfn kernel_input(\n    index: u32, xyz: array<Value, 3>, out: ptr<function, Value>,\n) -> bool {\n    switch index {\n",
        );
        source.append(cases.as_str());
        source.append("        default: { return false; }\n    }\n}\n");
        assert(source@ =~= program_text(all));
        let key = hash_source(source.as_str());
        KernelProgram { key, source, inputs }
    }
}

// ---------------------------------------------------------------------------
// Building a program
// ---------------------------------------------------------------------------

/// A kernel, as far as the shape around it is concerned.
pub struct Candidate {
    /// The index of its placeholder, if the shape uses it
    pub index: Option<usize>,
    /// The words of its tape
    pub words: Seq<u32>,
    /// The indexes of the variables of its tape
    pub inputs: Map<Variable, usize>,
}

/// The kernels of a shape with the given variables.
pub open spec fn candidates(
    vars: Map<Variable, usize>,
    kernels: Seq<(Variable, VmShape)>,
) -> Seq<Candidate> {
    Seq::new(
        kernels.len(),
        |i: int|
            Candidate {
                index: if vars.contains_key(kernels[i].0) {
                    Some(vars[kernels[i].0])
                } else {
                    None
                },
                words: shape_words(kernels[i].1),
                inputs: shape_indices(kernels[i].1),
            },
    )
}

/// The kernel is used, and cannot be compiled.
pub open spec fn fails(c: Candidate, number: nat) -> bool {
    c.index is Some && (has_free(c.inputs) || compiled(
        c.words,
        axis_entries(c.inputs),
        kernel_name(number),
    ) is Err)
}

/// The error of a kernel that cannot be compiled.
pub open spec fn fails_with(c: Candidate, number: nat, e: RenderShapeError) -> bool {
    e matches RenderShapeError::KernelError(e) && compiles_to(
        c.words,
        c.inputs,
        kernel_name(number),
        Err(e),
    )
}

/// The first kernel that is used and cannot be compiled.
pub open spec fn is_first_failure(kernels: Seq<Candidate>, p: int) -> bool {
    &&& 0 <= p < kernels.len()
    &&& fails(kernels[p], p as nat)
    &&& forall|i: int| 0 <= i < p ==> !fails(#[trigger] kernels[i], i as nat)
}

/// The kernels that are used, compiled, in order.
pub open spec fn used_kernels(kernels: Seq<Candidate>) -> Seq<KernelText>
    decreases kernels.len(),
{
    if kernels.len() == 0 {
        Seq::empty()
    } else {
        let used = used_kernels(kernels.drop_last());
        let k = kernels.last();
        let number = (kernels.len() - 1) as nat;
        match k.index {
            None => used,
            Some(index) => used.push(
                KernelText {
                    number: number as usize,
                    index,
                    function: compiled(
                        k.words,
                        axis_entries(k.inputs),
                        kernel_name(number),
                    )->Ok_0,
                },
            ),
        }
    }
}

/// Every placeholder that a shape uses has an index of its own there.
pub open spec fn have_their_own_indexes(
    vars: Map<Variable, usize>,
    kernels: Seq<(Variable, VmShape)>,
) -> bool {
    forall|i: int|
        0 <= i < kernels.len() && vars.contains_key((#[trigger] kernels[i]).0)
            ==> has_its_own_index(vars, kernels[i].0)
}

/// What building a program from kernels gives: the first error, if there is
/// one; or else the program of the kernels that are used, if there are any.
pub open spec fn builds(
    kernels: Seq<Candidate>,
    program: Result<Option<KernelProgram>, RenderShapeError>,
) -> bool {
    match program {
        Err(e) => exists|p: int| #[trigger]
            is_first_failure(kernels, p) && fails_with(kernels[p], p as nat, e),
        Ok(built) => {
            &&& forall|i: int| 0 <= i < kernels.len() ==> !fails(#[trigger] kernels[i], i as nat)
            &&& match built {
                None => used_kernels(kernels).len() == 0,
                Some(p) => used_kernels(kernels).len() > 0 && p.is_made_of(used_kernels(kernels)),
            }
        },
    }
}

impl KernelProgram {
    /// Builds kernel code for a shape with the given variable map.
    ///
    /// Kernels whose placeholders don't appear in `vars` are skipped.  Returns
    /// `None` if no kernels are used.
    pub fn build(vars: &VarMap, kernels: &[(Variable, VmShape)]) -> (program: Result<
        Option<KernelProgram>,
        RenderShapeError,
    >)
        ensures
            builds(candidates(var_indices(*vars), kernels@), program),
            program is Ok ==> have_their_own_indexes(var_indices(*vars), kernels@),
    {
        let ghost all = candidates(var_indices(*vars), kernels@);
        let mut used: Vec<CompiledKernel> = Vec::new();
        let mut i: usize = 0;
        assert(all.take(0) == Seq::<Candidate>::empty());
        assert(kernel_texts(used@) == used_kernels(all.take(0)));
        while i < kernels.len()
            invariant
                i <= kernels@.len() == all.len(),
                all == candidates(var_indices(*vars), kernels@),
                forall|j: int| 0 <= j < i ==> !fails(#[trigger] all[j], j as nat),
                kernel_texts(used@) == used_kernels(all.take(i as int)),
                forall|j: int|
                    0 <= j < i && var_indices(*vars).contains_key((#[trigger] kernels@[j]).0)
                        ==> has_its_own_index(var_indices(*vars), kernels@[j].0),
            decreases kernels@.len() - i,
        {
            let ghost candidate = all[i as int];
            assert(all.take(i + 1).drop_last() == all.take(i as int));
            assert(all.take(i + 1).last() == candidate);
            if let Some(index) = var_index(vars, kernels[i].0) {
                let shape = &kernels[i].1;
                let bytecode = match shape_bytecode(shape) {
                    Ok(bytecode) => bytecode,
                    Err(e) => return Err(RenderShapeError::RegisterError(e)),
                };
                let mut name = String::new();
                push_kernel_name(&mut name, i);
                assert(name@ =~= kernel_name(i as nat));
                let function = match compile_function(&bytecode, shape_vars(shape), name.as_str()) {
                    Ok(function) => function,
                    Err(e) => {
                        assert(is_first_failure(all, i as int));
                        return Err(RenderShapeError::KernelError(e));
                    },
                };
                let ghost before = used@;
                used.push(CompiledKernel { number: i, index, function });
                assert(kernel_texts(used@) =~= kernel_texts(before).push(used@.last()@));
            }
            i += 1;
        }
        assert(all.take(i as int) == all);
        if used.len() == 0 {
            return Ok(None);
        }
        Ok(Some(KernelProgram::assemble(used.as_slice())))
    }
}

// ---------------------------------------------------------------------------
// Laws
// ---------------------------------------------------------------------------

/// Kernels with different numbers have different names.
pub proof fn kernel_names_are_distinct(m: nat, n: nat)
    requires
        kernel_name(m) == kernel_name(n),
    ensures
        m == n,
{
    let prefix = "kernel_"@.len() as int;
    assert(kernel_name(m).skip(prefix) == decimal(m));
    assert(kernel_name(n).skip(prefix) == decimal(n));
    decimal_is_injective(m, n);
}

/// The kernels of a program are those whose placeholders the shape uses, each
/// once, in order; the others are skipped.
pub proof fn exactly_the_used_kernels_are_built(kernels: Seq<Candidate>)
    requires
        kernels.len() <= usize::MAX,
    ensures
        forall|j: int|
            0 <= j < used_kernels(kernels).len() ==> {
                let k = #[trigger] used_kernels(kernels)[j];
                k.number < kernels.len() && kernels[k.number as int].index == Some(k.index)
            },
        forall|j: int, k: int|
            0 <= j < k < used_kernels(kernels).len() ==> #[trigger] used_kernels(kernels)[j].number
                < #[trigger] used_kernels(kernels)[k].number,
        forall|i: int|
            0 <= i < kernels.len() && (#[trigger] kernels[i]).index is Some ==> exists|j: int|
                0 <= j < used_kernels(kernels).len() && (#[trigger] used_kernels(kernels)[j]).number
                    == i,
        used_kernels(kernels).len() == 0 <==> forall|i: int|
            0 <= i < kernels.len() ==> (#[trigger] kernels[i]).index is None,
    decreases kernels.len(),
{
    let used = used_kernels(kernels);
    if kernels.len() > 0 {
        let rest = kernels.drop_last();
        let earlier = used_kernels(rest);
        exactly_the_used_kernels_are_built(rest);
        assert forall|j: int| 0 <= j < used.len() implies {
            let k = #[trigger] used[j];
            k.number < kernels.len() && kernels[k.number as int].index == Some(k.index)
        } by {
            if j < earlier.len() {
                assert(used[j] == earlier[j]);
                assert(rest[earlier[j].number as int] == kernels[earlier[j].number as int]);
            }
        }
        assert forall|j: int, k: int| 0 <= j < k < used.len() implies #[trigger] used[j].number
            < #[trigger] used[k].number by {
            assert(used[j] == earlier[j]);
            if k < earlier.len() {
                assert(used[k] == earlier[k]);
            }
        }
        assert forall|i: int|
            0 <= i < kernels.len() && (#[trigger] kernels[i]).index is Some implies exists|j: int|
            0 <= j < used.len() && (#[trigger] used[j]).number == i by {
            if i < rest.len() {
                assert(rest[i] == kernels[i]);
                let j = choose|j: int|
                    0 <= j < earlier.len() && (#[trigger] earlier[j]).number == i;
                assert(used[j] == earlier[j]);
            } else {
                assert(used[used.len() - 1].number == i);
            }
        }
        if used.len() > 0 {
            let k = used[0];
            assert(kernels[k.number as int].index is Some);
        }
    }
}

/// Programs with the same source have the same key.
pub proof fn identical_programs_share_a_key(p: KernelProgram, q: KernelProgram)
    requires
        p.well_formed(),
        q.well_formed(),
        p.source@ == q.source@,
    ensures
        p.key == q.key,
{
}

/// Any two kernels of a program are functions with different names, and if their
/// placeholders have different indexes, the labels of their cases differ too.
pub proof fn kernels_are_told_apart(kernels: Seq<Candidate>, j: int, k: int)
    requires
        kernels.len() <= usize::MAX,
        0 <= j < k < used_kernels(kernels).len(),
    ensures
        kernel_name(used_kernels(kernels)[j].number as nat) != kernel_name(
            used_kernels(kernels)[k].number as nat,
        ),
        used_kernels(kernels)[j].index != used_kernels(kernels)[k].index ==> decimal(
            used_kernels(kernels)[j].index as nat,
        ) != decimal(used_kernels(kernels)[k].index as nat),
{
    let one = used_kernels(kernels)[j];
    let other = used_kernels(kernels)[k];
    exactly_the_used_kernels_are_built(kernels);
    if kernel_name(one.number as nat) == kernel_name(other.number as nat) {
        kernel_names_are_distinct(one.number as nat, other.number as nat);
    }
    if decimal(one.index as nat) == decimal(other.index as nat) {
        decimal_is_injective(one.index as nat, other.index as nat);
    }
}

/// Different placeholders have different indexes, so that the cases of a program
/// have different labels, and its inputs are distinct, as far as the shape has no
/// more variables than there are 32-bit numbers.
pub proof fn placeholders_are_told_apart(
    vars: Map<Variable, usize>,
    kernels: Seq<(Variable, VmShape)>,
    p: KernelProgram,
)
    requires
        kernels.len() <= usize::MAX,
        builds(candidates(vars, kernels), Ok::<Option<KernelProgram>, RenderShapeError>(Some(p))),
        have_their_own_indexes(vars, kernels),
        forall|i: int, j: int|
            0 <= i < j < kernels.len() ==> (#[trigger] kernels[i]).0 != (#[trigger] kernels[j]).0,
    ensures
        forall|j: int, k: int|
            0 <= j < k < used_kernels(candidates(vars, kernels)).len() ==> decimal(
                (#[trigger] used_kernels(candidates(vars, kernels))[j]).index as nat,
            ) != decimal((#[trigger] used_kernels(candidates(vars, kernels))[k]).index as nat),
        vars.dom().len() <= 0x1_0000_0000 ==> p.inputs@.no_duplicates(),
{
    let all = candidates(vars, kernels);
    let used = used_kernels(all);
    exactly_the_used_kernels_are_built(all);
    assert forall|j: int, k: int| 0 <= j < k < used.len() implies (#[trigger] used[j]).index != (
    #[trigger] used[k]).index && used[j].index < vars.dom().len() && used[k].index
        < vars.dom().len() by {
        let one = used[j].number as int;
        let other = used[k].number as int;
        assert(all[one].index == Some(used[j].index) && all[other].index == Some(used[k].index));
        assert(kernels[one].0 != kernels[other].0);
    }
    assert forall|j: int, k: int| 0 <= j < k < used.len() implies decimal(
        (#[trigger] used[j]).index as nat,
    ) != decimal((#[trigger] used[k]).index as nat) by {
        if decimal(used[j].index as nat) == decimal(used[k].index as nat) {
            decimal_is_injective(used[j].index as nat, used[k].index as nat);
        }
    }
    if vars.dom().len() <= 0x1_0000_0000 {
        let inputs = p.inputs@;
        assert forall|j: int, k: int| 0 <= j < k < inputs.len() implies inputs[j] != inputs[k] by {
            assert(used[j].index != used[k].index);
            assert(inputs[j] == used[j].index as u32 && inputs[k] == used[k].index as u32);
        }
    }
}

/// Kernels that are not used change nothing.
proof fn unused_kernels_are_skipped(kernels: Seq<Candidate>, extra: Seq<Candidate>)
    requires
        forall|i: int| 0 <= i < extra.len() ==> (#[trigger] extra[i]).index is None,
    ensures
        used_kernels(kernels + extra) == used_kernels(kernels),
    decreases extra.len(),
{
    if extra.len() == 0 {
        assert(kernels + extra =~= kernels);
    } else {
        assert((kernels + extra).drop_last() =~= kernels + extra.drop_last());
        assert((kernels + extra).last() == extra[extra.len() - 1]);
        unused_kernels_are_skipped(kernels, extra.drop_last());
    }
}

/// Kernels whose placeholders are not used change nothing when they are added at
/// the end, whatever they hold: neither the error, nor whether there is a
/// program, nor the program.
pub proof fn unused_kernels_change_nothing(
    kernels: Seq<Candidate>,
    extra: Seq<Candidate>,
    program: Result<Option<KernelProgram>, RenderShapeError>,
)
    requires
        forall|i: int| 0 <= i < extra.len() ==> (#[trigger] extra[i]).index is None,
    ensures
        builds(kernels + extra, program) == builds(kernels, program),
{
    let all = kernels + extra;
    unused_kernels_are_skipped(kernels, extra);
    assert forall|i: int| 0 <= i < kernels.len() implies #[trigger] all[i] == kernels[i] by {}
    assert forall|i: int| kernels.len() <= i < all.len() implies (#[trigger] all[i]).index is None by {
        assert(all[i] == extra[i - kernels.len()]);
    }
    assert forall|p: int| #[trigger] is_first_failure(all, p) == is_first_failure(kernels, p) by {
        if is_first_failure(all, p) {
            assert(p < kernels.len());
            assert forall|i: int| 0 <= i < p implies !fails(#[trigger] kernels[i], i as nat) by {
                assert(all[i] == kernels[i]);
            }
        }
    }
    match program {
        Err(e) => {
            if builds(kernels, program) {
                let p = choose|p: int| #[trigger]
                    is_first_failure(kernels, p) && fails_with(kernels[p], p as nat, e);
                assert(is_first_failure(all, p));
            }
            if builds(all, program) {
                let p = choose|p: int| #[trigger]
                    is_first_failure(all, p) && fails_with(all[p], p as nat, e);
                assert(is_first_failure(kernels, p));
            }
        },
        Ok(_) => {
            if builds(all, program) {
                assert forall|i: int| 0 <= i < kernels.len() implies !fails(
                    #[trigger] kernels[i],
                    i as nat,
                ) by {
                    assert(all[i] == kernels[i]);
                }
            }
        },
    }
}

/// A program depends on content only: on the tapes of the kernels, and on the
/// indexes of their placeholders, but not on the placeholders themselves.
pub proof fn program_depends_on_content_only(
    vars: Map<Variable, usize>,
    kernels: Seq<(Variable, VmShape)>,
    p: KernelProgram,
    other_vars: Map<Variable, usize>,
    other_kernels: Seq<(Variable, VmShape)>,
    q: KernelProgram,
)
    requires
        kernels.len() == other_kernels.len(),
        forall|i: int|
            0 <= i < kernels.len() ==> {
                let v = (#[trigger] kernels[i]).0;
                let w = other_kernels[i].0;
                &&& vars.contains_key(v) == other_vars.contains_key(w)
                &&& vars.contains_key(v) ==> vars[v] == other_vars[w]
                &&& shape_words(kernels[i].1) == shape_words(other_kernels[i].1)
                &&& shape_indices(kernels[i].1) == shape_indices(other_kernels[i].1)
            },
        builds(candidates(vars, kernels), Ok(Some(p))),
        builds(candidates(other_vars, other_kernels), Ok(Some(q))),
    ensures
        p.source@ == q.source@,
        p.inputs@ == q.inputs@,
        p.key == q.key,
{
    assert(candidates(vars, kernels) =~= candidates(other_vars, other_kernels)) by {
        assert forall|i: int| 0 <= i < kernels.len() implies candidates(vars, kernels)[i]
            == candidates(other_vars, other_kernels)[i] by {
            assert(kernels[i] == kernels[i]);
        }
    }
}

} // verus!
