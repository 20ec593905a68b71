//! Rebuilding the operations of one context in another.

use crate::context::{
    arena, context_abs, context_acos, context_add, context_and, context_asin, context_atan,
    context_atan2, context_ceil, context_compare, context_constant, context_cos, context_div,
    context_exp, context_floor, context_ln, context_max, context_min, context_mix, context_modulo,
    context_mul, context_neg, context_not, context_or, context_rand, context_recip, context_round,
    context_sin, context_sqrt, context_square, context_sub, context_tan, context_var,
};
use crate::error::Variable;
use crate::expr::{
    built_binary, built_mul, built_plain, built_unary, folded, inserted, insertion_is_well_formed,
    Arena, Operation,
};
use crate::leaves::occurs;
use crate::opcode::{BinaryOp, UnaryOp};
use crate::trace::at_nodes;
use fidget_core::context::{Context, Node};
use vstd::prelude::*;

verus! {

/// An operation is built.
pub open spec fn built(before: Arena, after: Arena, op: Operation<Node>, r: Node) -> bool {
    match op {
        Operation::Input(_) => inserted(before, after, op, r),
        Operation::Const(_) => inserted(before, after, op, r),
        Operation::Unary(op, a) => built_unary(before, after, op, a, r),
        Operation::Binary(op, a, b) => built_binary(before, after, op, a, b, r),
    }
}

/// The arguments of an operation are in an arena.
pub open spec fn can_build(before: Arena, op: Operation<Node>) -> bool {
    match op {
        Operation::Input(_) => true,
        Operation::Const(_) => true,
        Operation::Unary(_, a) => before.has(a),
        Operation::Binary(_, a, b) => before.has(a) && before.has(b),
    }
}

/// A variable occurs in the operation or in one of its arguments.
pub open spec fn op_occurs(before: Arena, op: Operation<Node>, v: Variable) -> bool {
    match op {
        Operation::Input(w) => v == w,
        Operation::Const(_) => false,
        Operation::Unary(_, a) => occurs(before.expr(a), v),
        Operation::Binary(_, a, b) => occurs(before.expr(a), v) || occurs(before.expr(b), v),
    }
}

/// Adding an operation keeps an arena well formed, and the operation has the
/// variables of its arguments.
proof fn insertion_has_its_variables(
    before: Arena,
    after: Arena,
    op: Operation<Node>,
    r: Node,
)
    requires
        before.well_formed(),
        inserted(before, after, op, r),
        before.is_simple(op),
        can_build(before, op),
    ensures
        after.well_formed(),
        after.extends(before),
        after.has(r),
        forall|v: Variable| #[trigger] occurs(after.expr(r), v) ==> op_occurs(before, op, v),
{
    insertion_is_well_formed(before, after, op, r);
    assert(after.comes_after(r, after.ops[r]));
    match op {
        Operation::Unary(_, a) => before.extension_keeps_expr(after, a),
        Operation::Binary(_, a, b) => {
            before.extension_keeps_expr(after, a);
            before.extension_keeps_expr(after, b);
        },
        _ => {},
    }
}

/// Folding a constant keeps an arena well formed.
proof fn folding_is_well_formed(before: Arena, after: Arena, r: Node)
    requires
        before.well_formed(),
        folded(before, after, r),
    ensures
        after.well_formed(),
        after.extends(before),
        after.has(r),
        forall|v: Variable| !#[trigger] occurs(after.expr(r), v),
{
    let c = choose|c: u32| inserted(before, after, Operation::Const(c), r);
    insertion_has_its_variables(before, after, Operation::Const(c), r);
}

/// Building a one-argument operation keeps an arena well formed.
proof fn unary_is_well_formed(before: Arena, after: Arena, op: UnaryOp, a: Node, r: Node)
    requires
        before.well_formed(),
        before.has(a),
        built_unary(before, after, op, a, r),
    ensures
        after.well_formed(),
        after.extends(before),
        after.has(r),
        forall|v: Variable| #[trigger]
            occurs(after.expr(r), v) ==> occurs(before.expr(a), v),
{
    if before.is_const(a) {
        folding_is_well_formed(before, after, r);
    } else {
        insertion_has_its_variables(before, after, Operation::Unary(op, a), r);
    }
}

/// Building a two-argument operation as it stands keeps an arena well formed.
proof fn plain_is_well_formed(
    before: Arena,
    after: Arena,
    op: BinaryOp,
    a: Node,
    b: Node,
    r: Node,
)
    requires
        before.well_formed(),
        before.has(a),
        before.has(b),
        built_plain(before, after, op, a, b, r),
        before.is_const(a) && before.is_const(b) || before.is_simple(Operation::Binary(op, a, b)),
    ensures
        after.well_formed(),
        after.extends(before),
        after.has(r),
        forall|v: Variable| #[trigger]
            occurs(after.expr(r), v) ==> occurs(before.expr(a), v) || occurs(before.expr(b), v),
{
    if before.is_const(a) && before.is_const(b) {
        folding_is_well_formed(before, after, r);
    } else {
        insertion_has_its_variables(before, after, Operation::Binary(op, a, b), r);
    }
}

/// Building a product keeps an arena well formed.
proof fn mul_is_well_formed(before: Arena, after: Arena, a: Node, b: Node, r: Node)
    requires
        before.well_formed(),
        before.has(a),
        before.has(b),
        built_mul(before, after, a, b, r),
    ensures
        after.well_formed(),
        after.extends(before),
        after.has(r),
        forall|v: Variable| #[trigger]
            occurs(after.expr(r), v) ==> occurs(before.expr(a), v) || occurs(before.expr(b), v),
{
    if a == b {
        unary_is_well_formed(before, after, UnaryOp::Square, a, r);
    } else if !before.one(a) && !before.one(b) && !before.zero(a) && !before.zero(b) {
        if before.rank[a] <= before.rank[b] {
            plain_is_well_formed(before, after, BinaryOp::Mul, a, b, r);
        } else {
            plain_is_well_formed(before, after, BinaryOp::Mul, b, a, r);
        }
    }
}

/// Building an operation keeps an arena well formed, and brings in no variables
/// but those of its arguments.
pub(crate) proof fn building_is_well_formed(
    before: Arena,
    after: Arena,
    op: Operation<Node>,
    r: Node,
)
    requires
        before.well_formed(),
        can_build(before, op),
        built(before, after, op, r),
    ensures
        after.well_formed(),
        after.extends(before),
        after.has(r),
        forall|v: Variable| #[trigger] occurs(after.expr(r), v) ==> op_occurs(before, op, v),
{
    match op {
        Operation::Input(_) => insertion_has_its_variables(before, after, op, r),
        Operation::Const(_) => insertion_has_its_variables(before, after, op, r),
        Operation::Unary(o, a) => unary_is_well_formed(before, after, o, a, r),
        Operation::Binary(o, a, b) => match o {
            BinaryOp::Add => {
                if a == b {
                    let two_bits = Operation::<Node>::Const(0x4000_0000);
                    let (middle, two) = choose|middle: Arena, two: Node|
                        inserted(before, middle, two_bits, two) && #[trigger] built_mul(
                            middle,
                            after,
                            a,
                            two,
                            r,
                        );
                    insertion_has_its_variables(before, middle, two_bits, two);
                    before.extension_keeps_expr(middle, a);
                    mul_is_well_formed(middle, after, a, two, r);
                } else if !before.zero(a) && !before.zero(b) {
                    if before.rank[a] <= before.rank[b] {
                        plain_is_well_formed(before, after, o, a, b, r);
                    } else {
                        plain_is_well_formed(before, after, o, b, a, r);
                    }
                }
            },
            BinaryOp::Mul => mul_is_well_formed(before, after, a, b, r),
            BinaryOp::Min | BinaryOp::Max => {
                if a != b {
                    if before.rank[a] <= before.rank[b] {
                        plain_is_well_formed(before, after, o, a, b, r);
                    } else {
                        plain_is_well_formed(before, after, o, b, a, r);
                    }
                }
            },
            BinaryOp::Sub => {
                if before.zero(a) {
                    unary_is_well_formed(before, after, UnaryOp::Neg, b, r);
                } else if !before.zero(b) {
                    plain_is_well_formed(before, after, o, a, b, r);
                }
            },
            BinaryOp::Div => {
                if !before.zero(a) && !before.one(b) {
                    plain_is_well_formed(before, after, o, a, b, r);
                }
            },
            BinaryOp::And => {
                if !before.is_const(a) {
                    plain_is_well_formed(before, after, o, a, b, r);
                }
            },
            BinaryOp::Or => {
                if !before.is_const(a) && !before.zero(b) {
                    plain_is_well_formed(before, after, o, a, b, r);
                }
            },
            _ => plain_is_well_formed(before, after, o, a, b, r),
        },
    }
}

/// Rebuilds a single operation of the context `ctx`, which is there under the
/// handle `n`, in the context `out`, given the handles of its arguments there.
pub(crate) fn rebuild_node(
    out: &mut Context,
    ctx: &Context,
    n: Node,
    op: Operation<usize>,
    rebuilt: &Vec<Node>,
) -> (r: Node)
    requires
        arena(*ctx).has(n),
        op matches Operation::Const(c) ==> arena(*ctx).ops[n] == Operation::<Node>::Const(c),
        op matches Operation::Unary(_, a) ==> a < rebuilt@.len(),
        op matches Operation::Binary(_, a, b) ==> a < rebuilt@.len() && b < rebuilt@.len(),
        can_build(arena(*old(out)), at_nodes(op, rebuilt@)),
    ensures
        built(arena(*old(out)), arena(*final(out)), at_nodes(op, rebuilt@), r),
{
    match op {
        Operation::Input(v) => context_var(out, v),
        Operation::Const(_) => context_constant(out, ctx, n),
        Operation::Unary(op, a) => {
            let a = rebuilt[a];
            match op {
                UnaryOp::Neg => context_neg(out, a),
                UnaryOp::Abs => context_abs(out, a),
                UnaryOp::Recip => context_recip(out, a),
                UnaryOp::Sqrt => context_sqrt(out, a),
                UnaryOp::Square => context_square(out, a),
                UnaryOp::Floor => context_floor(out, a),
                UnaryOp::Ceil => context_ceil(out, a),
                UnaryOp::Round => context_round(out, a),
                UnaryOp::Sin => context_sin(out, a),
                UnaryOp::Cos => context_cos(out, a),
                UnaryOp::Tan => context_tan(out, a),
                UnaryOp::Asin => context_asin(out, a),
                UnaryOp::Acos => context_acos(out, a),
                UnaryOp::Atan => context_atan(out, a),
                UnaryOp::Exp => context_exp(out, a),
                UnaryOp::Ln => context_ln(out, a),
                UnaryOp::Not => context_not(out, a),
                UnaryOp::Rand => context_rand(out, a),
            }
        },
        Operation::Binary(op, a, b) => {
            let a = rebuilt[a];
            let b = rebuilt[b];
            match op {
                BinaryOp::Add => context_add(out, a, b),
                BinaryOp::Sub => context_sub(out, a, b),
                BinaryOp::Mul => context_mul(out, a, b),
                BinaryOp::Div => context_div(out, a, b),
                BinaryOp::Atan2 => context_atan2(out, a, b),
                BinaryOp::Min => context_min(out, a, b),
                BinaryOp::Max => context_max(out, a, b),
                BinaryOp::Compare => context_compare(out, a, b),
                BinaryOp::Mod => context_modulo(out, a, b),
                BinaryOp::And => context_and(out, a, b),
                BinaryOp::Or => context_or(out, a, b),
                BinaryOp::Mix => context_mix(out, a, b),
            }
        },
    }
}

} // verus!
