//! The context of the outside crate, an arena of shared operations, and what
//! is taken as given of each of its methods.

use crate::error::Variable;
use crate::expr::{
    built_add, built_and, built_div, built_extreme, built_mul, built_or, built_plain, built_sub,
    built_unary, inserted, Arena, Expr, Operation,
};
use crate::model::{is_model_text, names_are_known};
use crate::opcode::{binary_of_code, unary_of_code, BinaryOp, UnaryOp};
use crate::split::same_but_for_order;
use fidget_core::context::{Context, Node, Op, Tree};
use fidget_core::var::Var;
use std::collections::HashMap;
use vstd::prelude::*;

verus! {

/// An arena of shared operations.
#[verifier::external_type_specification]
#[verifier::external_body]
pub struct ExContext(fidget_core::context::Context);

/// The handle of an operation in a context.
#[verifier::external_type_specification]
#[verifier::external_body]
pub struct ExNode(fidget_core::context::Node);

/// A standalone expression.
#[verifier::external_type_specification]
#[verifier::external_body]
pub struct ExTree(fidget_core::context::Tree);

/// The operation under each handle of a context.
pub uninterp spec fn context_ops(ctx: Context) -> Map<Node, Operation<Node>>;

/// How many handles a context gave out before each of its handles.
pub uninterp spec fn context_rank(ctx: Context) -> Map<Node, nat>;

/// What a context holds.
pub open spec fn arena(ctx: Context) -> Arena {
    Arena { ops: context_ops(ctx), rank: context_rank(ctx) }
}

/// The operations that a tree is made of.
pub uninterp spec fn tree_expr(tree: Tree) -> Expr;

/// Importing a tree into an empty context can give this expression: the tree
/// with its axes remapped, its constants folded, and its sums, products and
/// choices simplified.
pub uninterp spec fn imports_as(tree: Tree, e: Expr) -> bool;

/// Whatever importing a tree into an empty context gives is what the tree is made
/// of, but for the order of the arguments of sums, products, minima and maxima.
pub open spec fn reads_back(tree: Tree) -> bool {
    forall|e: Expr| #[trigger] imports_as(tree, e) ==> same_but_for_order(e, tree_expr(tree))
}

/// Calls [`Context::new`].
///
/// Taken as given: a new context is empty.
#[verifier::external_body]
pub(crate) fn context_new() -> (ctx: Context)
    ensures
        context_ops(ctx) == Arena::empty().ops,
        context_rank(ctx) == Arena::empty().rank,
{
    Context::new()
}

/// An operation of a context, with the math operations given by their numbers.
pub(crate) enum CodedOp {
    /// An input variable
    Input(Variable),
    /// A constant, given by its bits
    Const(u32),
    /// A one-argument operation
    Unary(u8, Node),
    /// A two-argument operation
    Binary(u8, Node, Node),
}

/// `coded` stands for `op`.
pub(crate) open spec fn codes(coded: CodedOp, op: Operation<Node>) -> bool {
    match (coded, op) {
        (CodedOp::Input(v), Operation::Input(w)) => v == w,
        (CodedOp::Const(c), Operation::Const(d)) => c == d,
        (CodedOp::Unary(code, a), Operation::Unary(op, c)) => unary_of_code(code) == Some(op) && a
            == c,
        (CodedOp::Binary(code, a, b), Operation::Binary(op, c, d)) => binary_of_code(code) == Some(
            op,
        ) && a == c && b == d,
        _ => false,
    }
}

/// Calls [`Context::get_op`].
///
/// Taken as given: it looks the handle up.  The math operations are handed on
/// by their numbers, in the order of their declaration.
#[verifier::external_body]
fn context_get_op(ctx: &Context, n: Node) -> (coded: Option<CodedOp>)
    ensures
        coded is Some <==> context_ops(*ctx).contains_key(n),
        coded matches Some(c) ==> codes(c, context_ops(*ctx)[n]),
{
    Some(match ctx.get_op(n)? {
        Op::Input(Var::X) => CodedOp::Input(Variable::X),
        Op::Input(Var::Y) => CodedOp::Input(Variable::Y),
        Op::Input(Var::Z) => CodedOp::Input(Variable::Z),
        Op::Input(Var::V(i)) => CodedOp::Input(Variable::V(*i)),
        Op::Const(c) => CodedOp::Const(c.0.to_bits()),
        Op::Unary(op, a) => CodedOp::Unary(*op as u8, *a),
        Op::Binary(op, a, b) => CodedOp::Binary(*op as u8, *a, *b),
    })
}

/// Looks up an operation by its handle.
pub(crate) fn get_op(ctx: &Context, n: Node) -> (op: Option<Operation<Node>>)
    ensures
        op == (if arena(*ctx).has(n) {
            Some(arena(*ctx).ops[n])
        } else {
            None
        }),
{
    match context_get_op(ctx, n)? {
        CodedOp::Input(v) => Some(Operation::Input(v)),
        CodedOp::Const(c) => Some(Operation::Const(c)),
        CodedOp::Unary(code, a) => Some(Operation::Unary(UnaryOp::from_code(code)?, a)),
        CodedOp::Binary(code, a, b) => Some(Operation::Binary(BinaryOp::from_code(code)?, a, b)),
    }
}

/// A variable, found in or added to an arena that first got the three axes.
pub open spec fn imported_variable(before: Arena, after: Arena, v: Variable, r: Node) -> bool {
    exists|a: Arena, b: Arena, c: Arena, x: Node, y: Node, z: Node|
        {
            &&& #[trigger] inserted(before, a, Operation::Input(Variable::X), x)
            &&& #[trigger] inserted(a, b, Operation::Input(Variable::Y), y)
            &&& #[trigger] inserted(b, c, Operation::Input(Variable::Z), z)
            &&& inserted(c, after, Operation::Input(v), r)
        }
}

/// Calls [`Context::import`].
///
/// Taken as given: it adds operations to the context, keeping it well formed,
/// and returns the handle of the imported tree.  A tree that is a variable is
/// found or added after the three axes.  Of other trees, what they are imported
/// as is only named, for an empty context.
#[verifier::external_body]
pub(crate) fn context_import(ctx: &mut Context, tree: &Tree) -> (r: Node)
    requires
        arena(*old(ctx)).well_formed(),
    ensures
        arena(*final(ctx)).well_formed(),
        arena(*final(ctx)).extends(arena(*old(ctx))),
        arena(*final(ctx)).has(r),
        tree_expr(*tree) matches Expr::Input(v) ==> imported_variable(
            arena(*old(ctx)),
            arena(*final(ctx)),
            v,
            r,
        ),
        arena(*old(ctx)) == Arena::empty() ==> imports_as(*tree, arena(*final(ctx)).expr(r)),
{
    ctx.import(tree)
}

/// Reading a model can give this expression: its last operation, with the others
/// as its arguments, folded and simplified.
pub uninterp spec fn reads_as(text: Seq<char>, e: Expr) -> bool;

/// Calls [`Context::from_text`].
///
/// Taken as given: of a text whose operations are all complete, it reads a model
/// exactly if there is an operation, and each is known and has earlier ones as its
/// arguments.  The handle is that of the last operation.  What the model is read
/// as is only named, since the constants in it are folded.
#[verifier::external_body]
pub(crate) fn context_from_text(text: &str) -> (model: Option<(Context, Node)>)
    requires
        is_model_text(text@),
    ensures
        model is Some <==> names_are_known(text@),
        model matches Some(m) ==> arena(m.0).well_formed() && arena(m.0).has(m.1) && reads_as(
            text@,
            arena(m.0).expr(m.1),
        ),
{
    Context::from_text(text.as_bytes()).ok()
}

/// Calls [`Context::export`].
///
/// Taken as given: the tree is made of the operations under the handle.  A context
/// holds nothing that its methods would simplify, so that importing the tree into
/// an empty one gives the same operations back; only the order of the arguments of
/// sums, products, minima and maxima is that of their new handles.
#[verifier::external_body]
pub(crate) fn context_export(ctx: &Context, n: Node) -> (tree: Tree)
    requires
        arena(*ctx).well_formed(),
        arena(*ctx).has(n),
    ensures
        tree_expr(tree) == arena(*ctx).expr(n),
        reads_back(tree),
{
    ctx.export(n).unwrap()
}

/// Calls [`Context::var`].
///
/// Taken as given: the variable is found or added.
#[verifier::external_body]
pub(crate) fn context_var(ctx: &mut Context, v: Variable) -> (r: Node)
    ensures
        inserted(arena(*old(ctx)), arena(*final(ctx)), Operation::Input(v), r),
{
    ctx.var(match v {
        Variable::X => Var::X,
        Variable::Y => Var::Y,
        Variable::Z => Var::Z,
        Variable::V(i) => Var::V(i),
    })
}

/// Calls [`Context::constant`] on what [`Context::get_const`] returns for the
/// handle of a constant in another context.
///
/// Taken as given: the constant is found or added.
#[verifier::external_body]
pub(crate) fn context_constant(ctx: &mut Context, from: &Context, n: Node) -> (r: Node)
    requires
        arena(*from).has(n),
        arena(*from).is_const(n),
    ensures
        inserted(arena(*old(ctx)), arena(*final(ctx)), arena(*from).ops[n], r),
{
    ctx.constant(from.get_const(n).unwrap())
}

/// Calls [`Context::neg`].
///
/// Taken as given: the operation is found or added, and folded on a constant.
#[verifier::external_body]
pub(crate) fn context_neg(ctx: &mut Context, a: Node) -> (r: Node)
    requires
        arena(*old(ctx)).has(a),
    ensures
        built_unary(arena(*old(ctx)), arena(*final(ctx)), UnaryOp::Neg, a, r),
{
    ctx.neg(a).unwrap()
}

/// Calls [`Context::abs`].
///
/// Taken as given: the operation is found or added, and folded on a constant.
#[verifier::external_body]
pub(crate) fn context_abs(ctx: &mut Context, a: Node) -> (r: Node)
    requires
        arena(*old(ctx)).has(a),
    ensures
        built_unary(arena(*old(ctx)), arena(*final(ctx)), UnaryOp::Abs, a, r),
{
    ctx.abs(a).unwrap()
}

/// Calls [`Context::recip`].
///
/// Taken as given: the operation is found or added, and folded on a constant.
#[verifier::external_body]
pub(crate) fn context_recip(ctx: &mut Context, a: Node) -> (r: Node)
    requires
        arena(*old(ctx)).has(a),
    ensures
        built_unary(arena(*old(ctx)), arena(*final(ctx)), UnaryOp::Recip, a, r),
{
    ctx.recip(a).unwrap()
}

/// Calls [`Context::sqrt`].
///
/// Taken as given: the operation is found or added, and folded on a constant.
#[verifier::external_body]
pub(crate) fn context_sqrt(ctx: &mut Context, a: Node) -> (r: Node)
    requires
        arena(*old(ctx)).has(a),
    ensures
        built_unary(arena(*old(ctx)), arena(*final(ctx)), UnaryOp::Sqrt, a, r),
{
    ctx.sqrt(a).unwrap()
}

/// Calls [`Context::square`].
///
/// Taken as given: the operation is found or added, and folded on a constant.
#[verifier::external_body]
pub(crate) fn context_square(ctx: &mut Context, a: Node) -> (r: Node)
    requires
        arena(*old(ctx)).has(a),
    ensures
        built_unary(arena(*old(ctx)), arena(*final(ctx)), UnaryOp::Square, a, r),
{
    ctx.square(a).unwrap()
}

/// Calls [`Context::floor`].
///
/// Taken as given: the operation is found or added, and folded on a constant.
#[verifier::external_body]
pub(crate) fn context_floor(ctx: &mut Context, a: Node) -> (r: Node)
    requires
        arena(*old(ctx)).has(a),
    ensures
        built_unary(arena(*old(ctx)), arena(*final(ctx)), UnaryOp::Floor, a, r),
{
    ctx.floor(a).unwrap()
}

/// Calls [`Context::ceil`].
///
/// Taken as given: the operation is found or added, and folded on a constant.
#[verifier::external_body]
pub(crate) fn context_ceil(ctx: &mut Context, a: Node) -> (r: Node)
    requires
        arena(*old(ctx)).has(a),
    ensures
        built_unary(arena(*old(ctx)), arena(*final(ctx)), UnaryOp::Ceil, a, r),
{
    ctx.ceil(a).unwrap()
}

/// Calls [`Context::round`].
///
/// Taken as given: the operation is found or added, and folded on a constant.
#[verifier::external_body]
pub(crate) fn context_round(ctx: &mut Context, a: Node) -> (r: Node)
    requires
        arena(*old(ctx)).has(a),
    ensures
        built_unary(arena(*old(ctx)), arena(*final(ctx)), UnaryOp::Round, a, r),
{
    ctx.round(a).unwrap()
}

/// Calls [`Context::sin`].
///
/// Taken as given: the operation is found or added, and folded on a constant.
#[verifier::external_body]
pub(crate) fn context_sin(ctx: &mut Context, a: Node) -> (r: Node)
    requires
        arena(*old(ctx)).has(a),
    ensures
        built_unary(arena(*old(ctx)), arena(*final(ctx)), UnaryOp::Sin, a, r),
{
    ctx.sin(a).unwrap()
}

/// Calls [`Context::cos`].
///
/// Taken as given: the operation is found or added, and folded on a constant.
#[verifier::external_body]
pub(crate) fn context_cos(ctx: &mut Context, a: Node) -> (r: Node)
    requires
        arena(*old(ctx)).has(a),
    ensures
        built_unary(arena(*old(ctx)), arena(*final(ctx)), UnaryOp::Cos, a, r),
{
    ctx.cos(a).unwrap()
}

/// Calls [`Context::tan`].
///
/// Taken as given: the operation is found or added, and folded on a constant.
#[verifier::external_body]
pub(crate) fn context_tan(ctx: &mut Context, a: Node) -> (r: Node)
    requires
        arena(*old(ctx)).has(a),
    ensures
        built_unary(arena(*old(ctx)), arena(*final(ctx)), UnaryOp::Tan, a, r),
{
    ctx.tan(a).unwrap()
}

/// Calls [`Context::asin`].
///
/// Taken as given: the operation is found or added, and folded on a constant.
#[verifier::external_body]
pub(crate) fn context_asin(ctx: &mut Context, a: Node) -> (r: Node)
    requires
        arena(*old(ctx)).has(a),
    ensures
        built_unary(arena(*old(ctx)), arena(*final(ctx)), UnaryOp::Asin, a, r),
{
    ctx.asin(a).unwrap()
}

/// Calls [`Context::acos`].
///
/// Taken as given: the operation is found or added, and folded on a constant.
#[verifier::external_body]
pub(crate) fn context_acos(ctx: &mut Context, a: Node) -> (r: Node)
    requires
        arena(*old(ctx)).has(a),
    ensures
        built_unary(arena(*old(ctx)), arena(*final(ctx)), UnaryOp::Acos, a, r),
{
    ctx.acos(a).unwrap()
}

/// Calls [`Context::atan`].
///
/// Taken as given: the operation is found or added, and folded on a constant.
#[verifier::external_body]
pub(crate) fn context_atan(ctx: &mut Context, a: Node) -> (r: Node)
    requires
        arena(*old(ctx)).has(a),
    ensures
        built_unary(arena(*old(ctx)), arena(*final(ctx)), UnaryOp::Atan, a, r),
{
    ctx.atan(a).unwrap()
}

/// Calls [`Context::exp`].
///
/// Taken as given: the operation is found or added, and folded on a constant.
#[verifier::external_body]
pub(crate) fn context_exp(ctx: &mut Context, a: Node) -> (r: Node)
    requires
        arena(*old(ctx)).has(a),
    ensures
        built_unary(arena(*old(ctx)), arena(*final(ctx)), UnaryOp::Exp, a, r),
{
    ctx.exp(a).unwrap()
}

/// Calls [`Context::ln`].
///
/// Taken as given: the operation is found or added, and folded on a constant.
#[verifier::external_body]
pub(crate) fn context_ln(ctx: &mut Context, a: Node) -> (r: Node)
    requires
        arena(*old(ctx)).has(a),
    ensures
        built_unary(arena(*old(ctx)), arena(*final(ctx)), UnaryOp::Ln, a, r),
{
    ctx.ln(a).unwrap()
}

/// Calls [`Context::not`].
///
/// Taken as given: the operation is found or added, and folded on a constant.
#[verifier::external_body]
pub(crate) fn context_not(ctx: &mut Context, a: Node) -> (r: Node)
    requires
        arena(*old(ctx)).has(a),
    ensures
        built_unary(arena(*old(ctx)), arena(*final(ctx)), UnaryOp::Not, a, r),
{
    ctx.not(a).unwrap()
}

/// Calls [`Context::rand`].
///
/// Taken as given: the operation is found or added, and folded on a constant.
#[verifier::external_body]
pub(crate) fn context_rand(ctx: &mut Context, a: Node) -> (r: Node)
    requires
        arena(*old(ctx)).has(a),
    ensures
        built_unary(arena(*old(ctx)), arena(*final(ctx)), UnaryOp::Rand, a, r),
{
    ctx.rand(a).unwrap()
}

/// Calls [`Context::add`].
///
/// Taken as given: a sum, with doubles and zero terms simplified,
/// is found or added, with the earlier argument first, and folded on constants.
#[verifier::external_body]
pub(crate) fn context_add(ctx: &mut Context, a: Node, b: Node) -> (r: Node)
    requires
        arena(*old(ctx)).has(a),
        arena(*old(ctx)).has(b),
    ensures
        built_add(arena(*old(ctx)), arena(*final(ctx)), a, b, r),
{
    ctx.add(a, b).unwrap()
}

/// Calls [`Context::sub`].
///
/// Taken as given: a difference, with zero terms simplified,
/// is found or added, and folded on constants.
#[verifier::external_body]
pub(crate) fn context_sub(ctx: &mut Context, a: Node, b: Node) -> (r: Node)
    requires
        arena(*old(ctx)).has(a),
        arena(*old(ctx)).has(b),
    ensures
        built_sub(arena(*old(ctx)), arena(*final(ctx)), a, b, r),
{
    ctx.sub(a, b).unwrap()
}

/// Calls [`Context::mul`].
///
/// Taken as given: a product, with squares and the factors 0 and 1 simplified,
/// is found or added, with the earlier argument first, and folded on constants.
#[verifier::external_body]
pub(crate) fn context_mul(ctx: &mut Context, a: Node, b: Node) -> (r: Node)
    requires
        arena(*old(ctx)).has(a),
        arena(*old(ctx)).has(b),
    ensures
        built_mul(arena(*old(ctx)), arena(*final(ctx)), a, b, r),
{
    ctx.mul(a, b).unwrap()
}

/// Calls [`Context::div`].
///
/// Taken as given: a quotient, with a dividend 0 and a divisor 1 simplified,
/// is found or added, and folded on constants.
#[verifier::external_body]
pub(crate) fn context_div(ctx: &mut Context, a: Node, b: Node) -> (r: Node)
    requires
        arena(*old(ctx)).has(a),
        arena(*old(ctx)).has(b),
    ensures
        built_div(arena(*old(ctx)), arena(*final(ctx)), a, b, r),
{
    ctx.div(a, b).unwrap()
}

/// Calls [`Context::atan2`].
///
/// Taken as given: the operation is found or added, and folded on constants.
#[verifier::external_body]
pub(crate) fn context_atan2(ctx: &mut Context, a: Node, b: Node) -> (r: Node)
    requires
        arena(*old(ctx)).has(a),
        arena(*old(ctx)).has(b),
    ensures
        built_plain(arena(*old(ctx)), arena(*final(ctx)), BinaryOp::Atan2, a, b, r),
{
    ctx.atan2(a, b).unwrap()
}

/// Calls [`Context::min`].
///
/// Taken as given: a minimum, unless both arguments are one,
/// is found or added, with the earlier argument first, and folded on constants.
#[verifier::external_body]
pub(crate) fn context_min(ctx: &mut Context, a: Node, b: Node) -> (r: Node)
    requires
        arena(*old(ctx)).has(a),
        arena(*old(ctx)).has(b),
    ensures
        built_extreme(arena(*old(ctx)), arena(*final(ctx)), BinaryOp::Min, a, b, r),
{
    ctx.min(a, b).unwrap()
}

/// Calls [`Context::max`].
///
/// Taken as given: a maximum, unless both arguments are one,
/// is found or added, with the earlier argument first, and folded on constants.
#[verifier::external_body]
pub(crate) fn context_max(ctx: &mut Context, a: Node, b: Node) -> (r: Node)
    requires
        arena(*old(ctx)).has(a),
        arena(*old(ctx)).has(b),
    ensures
        built_extreme(arena(*old(ctx)), arena(*final(ctx)), BinaryOp::Max, a, b, r),
{
    ctx.max(a, b).unwrap()
}

/// Calls [`Context::compare`].
///
/// Taken as given: the operation is found or added, and folded on constants.
#[verifier::external_body]
pub(crate) fn context_compare(ctx: &mut Context, a: Node, b: Node) -> (r: Node)
    requires
        arena(*old(ctx)).has(a),
        arena(*old(ctx)).has(b),
    ensures
        built_plain(arena(*old(ctx)), arena(*final(ctx)), BinaryOp::Compare, a, b, r),
{
    ctx.compare(a, b).unwrap()
}

/// Calls [`Context::modulo`].
///
/// Taken as given: the operation is found or added, and folded on constants.
#[verifier::external_body]
pub(crate) fn context_modulo(ctx: &mut Context, a: Node, b: Node) -> (r: Node)
    requires
        arena(*old(ctx)).has(a),
        arena(*old(ctx)).has(b),
    ensures
        built_plain(arena(*old(ctx)), arena(*final(ctx)), BinaryOp::Mod, a, b, r),
{
    ctx.modulo(a, b).unwrap()
}

/// Calls [`Context::and`].
///
/// Taken as given: a conjunction, with a constant left argument simplified,
/// is found or added, and folded on constants.
#[verifier::external_body]
pub(crate) fn context_and(ctx: &mut Context, a: Node, b: Node) -> (r: Node)
    requires
        arena(*old(ctx)).has(a),
        arena(*old(ctx)).has(b),
    ensures
        built_and(arena(*old(ctx)), arena(*final(ctx)), a, b, r),
{
    ctx.and(a, b).unwrap()
}

/// Calls [`Context::or`].
///
/// Taken as given: a disjunction, with a constant left and a zero right argument simplified,
/// is found or added, and folded on constants.
#[verifier::external_body]
pub(crate) fn context_or(ctx: &mut Context, a: Node, b: Node) -> (r: Node)
    requires
        arena(*old(ctx)).has(a),
        arena(*old(ctx)).has(b),
    ensures
        built_or(arena(*old(ctx)), arena(*final(ctx)), a, b, r),
{
    ctx.or(a, b).unwrap()
}

/// Calls [`Context::mix`].
///
/// Taken as given: the operation is found or added, and folded on constants.
#[verifier::external_body]
pub(crate) fn context_mix(ctx: &mut Context, a: Node, b: Node) -> (r: Node)
    requires
        arena(*old(ctx)).has(a),
        arena(*old(ctx)).has(b),
    ensures
        built_plain(arena(*old(ctx)), arena(*final(ctx)), BinaryOp::Mix, a, b, r),
{
    ctx.mix(a, b).unwrap()
}

/// Calls [`Tree::from`] on a variable.
///
/// Taken as given: the tree is that variable.
#[verifier::external_body]
pub(crate) fn tree_of_variable(v: Variable) -> (tree: Tree)
    ensures
        tree_expr(tree) == Expr::Input(v),
{
    Tree::from(match v {
        Variable::X => Var::X,
        Variable::Y => Var::Y,
        Variable::Z => Var::Z,
        Variable::V(i) => Var::V(i),
    })
}

/// Calls [`HashMap::get`] on a map with handles as its keys.
///
/// Taken as given: it looks the handle up.
#[verifier::external_body]
pub(crate) fn node_map_get(map: &HashMap<Node, Option<usize>>, n: Node) -> (value: Option<
    Option<usize>,
>)
    ensures
        value == (if map@.contains_key(n) {
            Some(map@[n])
        } else {
            None
        }),
{
    map.get(&n).copied()
}

/// Calls [`HashMap::insert`] on a map with handles as its keys.
///
/// Taken as given: it sets the value of the handle, and no other.
#[verifier::external_body]
pub(crate) fn node_map_insert(map: &mut HashMap<Node, Option<usize>>, n: Node, value: Option<usize>)
    ensures
        final(map)@ == old(map)@.insert(n, value),
{
    map.insert(n, value);
}

} // verus!
