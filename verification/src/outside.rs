//! The outside crates: their types, and what is taken as given of each of
//! their functions that the library calls.

use crate::context::imports_as;
use crate::error::Variable;
use crate::expr::Expr;
use crate::leaves::occurs;
use crate::opcode::{opcode_of_code, Opcode};
use crate::tape::{lowered, Instruction};
use crate::wgsl::{axis_table, has_free};
use fidget_bytecode::{Bytecode, BytecodeOp, ReservedRegister};
use fidget_core::context::Tree;
use fidget_core::eval::Function;
use fidget_core::var::{Var, VarMap};
use fidget_core::vm::VmShape;
use vstd::prelude::*;

verus! {

/// The index of a free variable, a random number that stays hidden.
#[verifier::external_type_specification]
#[verifier::external_body]
pub struct ExVarIndex(fidget_core::var::VarIndex);

/// The error of a tape that uses the reserved register.
#[verifier::external_type_specification]
#[verifier::external_body]
pub struct ExReservedRegister(fidget_bytecode::ReservedRegister);

/// A serialized tape.
#[verifier::external_type_specification]
#[verifier::external_body]
pub struct ExBytecode(fidget_bytecode::Bytecode);

/// The index of each variable of a tape.
#[verifier::external_type_specification]
#[verifier::external_body]
pub struct ExVarMap(fidget_core::var::VarMap);

/// Calls [`BytecodeOp::from_repr`], and hands the operation on as its number.
///
/// Taken as given: the operations are numbered from 0 (`Output`) to 33 (`Mem`)
/// in the order of their declaration, and no other number is one.
#[verifier::external_body]
pub(crate) fn opcode_repr(code: u8) -> (number: Option<u8>)
    ensures
        number == (if code <= 33 {
            Some(code)
        } else {
            None
        }),
{
    BytecodeOp::from_repr(code).map(|op| op as u8)
}

/// Calls [`Var::new`].
///
/// Taken as given: it is not an axis.  Its index is random, so nothing more is
/// said of it.
#[verifier::external_body]
pub(crate) fn new_variable() -> (v: Variable)
    ensures
        v is V,
{
    Variable::V(Var::new().index().unwrap())
}

/// The text that [`Var`] displays as.
pub uninterp spec fn variable_display(v: Variable) -> Seq<char>;

/// Calls `to_string` on a [`Var`].
///
/// Taken as given: the text is a function of the variable, and an axis
/// displays as its capital letter.
#[verifier::external_body]
pub(crate) fn variable_text(v: Variable) -> (text: String)
    ensures
        text@ == variable_display(v),
        v is X ==> text@ == "X"@,
        v is Y ==> text@ == "Y"@,
        v is Z ==> text@ == "Z"@,
{
    let v = match v {
        Variable::X => Var::X,
        Variable::Y => Var::Y,
        Variable::Z => Var::Z,
        Variable::V(i) => Var::V(i),
    };
    v.to_string()
}

/// Calls `to_string` on a [`ReservedRegister`].
///
/// Taken as given: the error is displayed with these words.
#[verifier::external_body]
pub(crate) fn register_text(e: &ReservedRegister) -> (text: String)
    ensures
        text@ == "register 255 is reserved"@,
{
    e.to_string()
}

/// The words of a serialized tape.
pub uninterp spec fn bytecode_words(bytecode: Bytecode) -> Seq<u32>;

/// Calls [`Bytecode::data`].
///
/// Taken as given: it borrows the words of the tape.
#[verifier::external_body]
pub(crate) fn bytecode_data(bytecode: &Bytecode) -> (words: &[u32])
    ensures
        words@ == bytecode_words(*bytecode),
{
    bytecode.data()
}

/// The operation `k` of a tape moves a value to or from a memory slot.
pub open spec fn moves_slot(words: Seq<u32>, k: int, slot: u32) -> bool {
    &&& 0 <= k
    &&& 2 * k + 1 < words.len()
    &&& opcode_of_code(Instruction::of(words[2 * k], slot).opcode) == Some(Opcode::Mem)
    &&& words[2 * k + 1] == slot
}

/// `count` is one more than the last memory slot that a tape uses, or 0 if it
/// uses none.
pub open spec fn counts_slots(words: Seq<u32>, count: u32) -> bool {
    &&& forall|k: int, slot: u32| #[trigger] moves_slot(words, k, slot) ==> slot < count
    &&& count > 0 ==> exists|k: int| #[trigger] moves_slot(words, k, (count - 1) as u32)
}

/// Calls [`Bytecode::mem_count`].
///
/// Taken as given: it is the number of memory slots that the operations of the
/// tape use, counted up to the last one.
#[verifier::external_body]
pub(crate) fn bytecode_mem_count(bytecode: &Bytecode) -> (count: u32)
    ensures
        counts_slots(bytecode_words(*bytecode), count),
{
    bytecode.mem_count()
}

/// The indexes that a variable map holds.
pub uninterp spec fn var_indices(vars: VarMap) -> Map<Variable, usize>;

/// The entry of a variable, if there is one.
pub open spec fn entry(indices: Map<Variable, usize>, v: Variable) -> Seq<(Variable, usize)> {
    if indices.contains_key(v) {
        seq![(v, indices[v])]
    } else {
        Seq::empty()
    }
}

/// The entries of the axes, in the order X, Y, Z.
pub open spec fn axis_entries(indices: Map<Variable, usize>) -> Seq<(Variable, usize)> {
    entry(indices, Variable::X) + entry(indices, Variable::Y) + entry(indices, Variable::Z)
}

/// The entries of the free variables, each once, in some order.
pub open spec fn lists_free(indices: Map<Variable, usize>, free: Seq<(Variable, usize)>) -> bool {
    &&& forall|k: int| #![auto]
        0 <= k < free.len() ==> free[k].0 is V && indices.contains_key(free[k].0)
            && indices[free[k].0] == free[k].1
    &&& forall|v: Variable| #[trigger]
        indices.contains_key(v) && v is V ==> exists|k: int|
            0 <= k < free.len() && (#[trigger] free[k]).0 == v
    &&& forall|j: int, k: int| 0 <= j < k < free.len() ==> #[trigger] free[j].0
        != #[trigger] free[k].0
}

/// Calls [`VarMap::iter`].
///
/// Taken as given: it hands out every entry once, first those of the axes in
/// the order X, Y, Z, then those of the free variables in an order that is left
/// open.
#[verifier::external_body]
pub(crate) fn var_entries(vars: &VarMap) -> (entries: Vec<(Variable, usize)>)
    ensures
        axis_entries(var_indices(*vars)).is_prefix_of(entries@),
        lists_free(
            var_indices(*vars),
            entries@.skip(axis_entries(var_indices(*vars)).len() as int),
        ),
{
    vars.iter().map(|(v, index)| match v {
        Var::X => (Variable::X, index),
        Var::Y => (Variable::Y, index),
        Var::Z => (Variable::Z, index),
        Var::V(i) => (Variable::V(i), index),
    }).collect()
}

/// The indexes are packed from 0 on, and the one of `v` is that of no other
/// variable.
pub open spec fn has_its_own_index(indices: Map<Variable, usize>, v: Variable) -> bool {
    &&& indices.dom().finite()
    &&& indices[v] < indices.dom().len()
    &&& forall|w: Variable| #[trigger]
        indices.contains_key(w) && indices[w] == indices[v] ==> w == v
}

/// Calls [`VarMap::get`].
///
/// Taken as given: it looks the variable up.  The indexes of a map are packed
/// tightly from 0 on, so that no two variables share one.
#[verifier::external_body]
pub(crate) fn var_index(vars: &VarMap, v: Variable) -> (index: Option<usize>)
    ensures
        index == (if var_indices(*vars).contains_key(v) {
            Some(var_indices(*vars)[v])
        } else {
            None
        }),
        index is Some ==> has_its_own_index(var_indices(*vars), v),
{
    vars.get(&match v {
        Variable::X => Var::X,
        Variable::Y => Var::Y,
        Variable::Z => Var::Z,
        Variable::V(i) => Var::V(i),
    })
}

/// A function of an evaluation point, with some backend for evaluation.
#[verifier::external_type_specification]
#[verifier::external_body]
#[verifier::reject_recursive_types(F)]
pub struct ExShape<F>(fidget_core::shape::Shape<F>);

/// The backend that evaluates a tape for a virtual machine with `N` registers.
#[verifier::external_type_specification]
#[verifier::external_body]
pub struct ExGenericVmFunction<const N: usize>(fidget_core::vm::GenericVmFunction<N>);

/// Turning a tree into a shape can give this one: the tree is imported into an
/// empty context and flattened into a tape.
pub uninterp spec fn is_shape_of(tree: Tree, shape: VmShape) -> bool;

/// The variables of a shape are those of an expression that the tree can be
/// imported as.
pub open spec fn shows_variables(tree: Tree, shape: VmShape) -> bool {
    exists|e: Expr| #[trigger]
        imports_as(tree, e) && forall|v: Variable| #[trigger]
            shape_indices(shape).contains_key(v) <==> occurs(e, v)
}

/// The tape of a shape of the axes alone runs to its end: it reads nothing but
/// its inputs and what it wrote before, and hands out a value.
pub open spec fn tape_runs(shape: VmShape) -> bool {
    !has_free(shape_indices(shape)) ==> (axis_table(axis_entries(shape_indices(shape))) matches Ok(
        axes,
    ) ==> lowered(axes, shape_words(shape)) is Ok)
}

/// Calls [`VmShape::from`] on a copy of a tree.
///
/// Taken as given: the shape is one that the tree can be turned into.  Which
/// one is only named: its tape holds constants that were folded, and those
/// depend on the math functions of the machine.  The variables of the shape are
/// those of what the tree was imported as.
///
/// Also taken as given: the tape of the shape runs.  The tape is written from its
/// last operation to its first.  A value gets a register or a memory slot at the
/// operations that read it, and gives it back at the one that computes it, which
/// comes earlier in the tape; when all is written, no value still has one, so that
/// nothing is read before it is written.
#[verifier::external_body]
pub(crate) fn shape_of_tree(tree: &Tree) -> (shape: VmShape)
    ensures
        is_shape_of(*tree, shape),
        shows_variables(*tree, shape),
        tape_runs(shape),
{
    VmShape::from(tree.clone())
}

/// The words of the serialized tape of a shape.
pub uninterp spec fn shape_words(shape: VmShape) -> Seq<u32>;

/// Calls [`Bytecode::new`] on the tape of a shape.
///
/// Taken as given: the words are a function of the tape.  It fails only on a tape
/// with 256 registers in use, and the tape of a [`VmShape`] has no more than 255.
#[verifier::external_body]
pub(crate) fn shape_bytecode(shape: &VmShape) -> (bytecode: Result<Bytecode, ReservedRegister>)
    ensures
        bytecode is Ok,
        bytecode matches Ok(b) ==> bytecode_words(b) == shape_words(*shape),
{
    Bytecode::new(shape.inner().data())
}

/// The indexes of the variables of a shape.
pub uninterp spec fn shape_indices(shape: VmShape) -> Map<Variable, usize>;

/// Calls `vars` of [`Function`] on the inside of a shape.
///
/// Taken as given: it borrows the variable map of the shape.
#[verifier::external_body]
pub(crate) fn shape_vars(shape: &VmShape) -> (vars: &VarMap)
    ensures
        var_indices(*vars) == shape_indices(*shape),
{
    shape.inner().vars()
}

} // verus!
