//! From a tree that was split to the program of its kernels.

use crate::context::{imports_as, reads_back, tree_expr};
use crate::error::{RenderShapeError, Variable};
use crate::expr::Expr;
use crate::kernels::{is_split, placeholders_of};
use crate::leaves::{
    compilable, filter_keeps_distinct, is_argument, is_leaf, is_part, kernels_are_worth_compiling,
    kernels_use_only_axes, leaf_test, leaves, occurs, part_is_no_larger, part_is_within, parts,
    parts_are_distinct, worth_compiling,
};
use crate::outside::{shape_indices, shows_variables, tape_runs};
use crate::program::{
    builds, candidates, fails_with, is_first_failure, used_kernels, Candidate, KernelProgram,
};
use crate::split::{fresh, is_left_of, order_keeps_variables, rearranged};
use crate::wgsl::{axes_have_a_table, has_free};
use fidget_core::context::Tree;
use fidget_core::vm::VmShape;
use vstd::prelude::*;

verus! {

/// What does not lie within a kernel is still there after rearranging.
proof fn outside_is_kept(
    e: Expr,
    kernels: Seq<Expr>,
    names: Seq<Variable>,
    swap: spec_fn(Expr) -> bool,
    q: Expr,
)
    requires
        is_part(e, q),
        forall|k: Expr| #[trigger] kernels.contains(k) ==> !is_part(k, q),
    ensures
        is_part(rearranged(e, kernels, names, swap), rearranged(q, kernels, names, swap)),
    decreases e,
{
    if q != e {
        match e {
            Expr::Unary(_, a) => outside_is_kept(*a, kernels, names, swap, q),
            Expr::Binary(_, a, b) => {
                if is_part(*a, q) {
                    outside_is_kept(*a, kernels, names, swap, q);
                } else {
                    outside_is_kept(*b, kernels, names, swap, q);
                }
            },
            _ => {},
        }
    }
}

/// Every placeholder is used in what is left.
pub proof fn every_placeholder_is_used(
    e: Expr,
    min_ops: nat,
    names: Seq<Variable>,
    swap: spec_fn(Expr) -> bool,
    j: int,
)
    requires
        names.len() == leaves(e, min_ops).len(),
        0 <= j < names.len(),
    ensures
        occurs(rearranged(e, leaves(e, min_ops), names, swap), names[j]),
{
    let all = parts(e);
    let kernels = leaves(e, min_ops);
    let k = kernels[j];
    let outer = rearranged(e, kernels, names, swap);
    parts_are_distinct(e);
    filter_keeps_distinct(all, leaf_test(e, min_ops));
    kernels_are_worth_compiling(e, min_ops);
    assert(kernels.contains(k));
    assert(kernels[kernels.index_of(k)] == k);
    assert(kernels.index_of(k) == j);
    assert(rearranged(k, kernels, names, swap) == Expr::Input(names[j]));
    assert(is_leaf(all, k, min_ops));
    if k != e {
        let p = choose|p: int|
            0 <= p < all.len() && !worth_compiling(#[trigger] all[p], min_ops) && is_argument(
                all[p],
                k,
            );
        let q = all[p];
        assert(all.contains(q));
        assert forall|l: Expr| #[trigger] kernels.contains(l) implies !is_part(l, q) by {
            if is_part(l, q) {
                let i = choose|i: int| 0 <= i < kernels.len() && kernels[i] == l;
                assert(compilable(kernels[i]));
                part_is_no_larger(l, q);
                assert(worth_compiling(q, min_ops));
            }
        }
        outside_is_kept(e, kernels, names, swap, q);
        if kernels.contains(q) {
            assert(is_part(q, q));
        }
        let r = rearranged(q, kernels, names, swap);
        part_is_within(outer, r);
        assert(occurs(Expr::Input(names[j]), names[j]));
        assert(occurs(r, names[j]));
    }
}

/// The shape of a kernel has no free variables.
proof fn kernel_shapes_have_no_free_variables(
    added: Seq<(Variable, Tree)>,
    outer: Tree,
    e: Expr,
    min_ops: nat,
    j: int,
    shape: VmShape,
)
    requires
        is_split(added, outer, e, min_ops),
        0 <= j < added.len(),
        shows_variables(added[j].1, shape),
    ensures
        !has_free(shape_indices(shape)),
{
    let tree = added[j].1;
    kernels_are_worth_compiling(e, min_ops);
    assert(added[j].0 is V && reads_back(tree));
    let k = leaves(e, min_ops)[j];
    let d = choose|d: Expr| #[trigger]
        imports_as(tree, d) && forall|v: Variable| #[trigger]
            shape_indices(shape).contains_key(v) <==> occurs(d, v);
    if has_free(shape_indices(shape)) {
        let v = choose|v: Variable| #[trigger] shape_indices(shape).contains_key(v) && v is V;
        order_keeps_variables(d, tree_expr(tree), v);
        kernels_use_only_axes(k, v);
    }
}

/// If all kernels are used, there is one function for each.
proof fn all_are_used(kernels: Seq<Candidate>)
    requires
        forall|i: int| 0 <= i < kernels.len() ==> (#[trigger] kernels[i]).index is Some,
    ensures
        used_kernels(kernels).len() == kernels.len(),
    decreases kernels.len(),
{
    if kernels.len() > 0 {
        let rest = kernels.drop_last();
        assert forall|i: int| 0 <= i < rest.len() implies (#[trigger] rest[i]).index is Some by {
            assert(rest[i] == kernels[i]);
        }
        all_are_used(rest);
        assert(kernels[kernels.len() - 1].index is Some);
    }
}

/// Splitting a tree and building the program of its kernels succeeds.  If the
/// placeholders are new, every kernel is used, and there is no program exactly when
/// there are no kernels.
pub proof fn split_trees_build(
    added: Seq<(Variable, Tree)>,
    outer: Tree,
    e: Expr,
    min_ops: nat,
    shape: VmShape,
    shapes: Seq<(Variable, VmShape)>,
    program: Result<Option<KernelProgram>, RenderShapeError>,
)
    requires
        is_split(added, outer, e, min_ops),
        shows_variables(outer, shape),
        shapes.len() == added.len(),
        forall|j: int|
            0 <= j < added.len() ==> {
                &&& (#[trigger] shapes[j]).0 == added[j].0
                &&& shows_variables(added[j].1, shapes[j].1)
                &&& tape_runs(shapes[j].1)
            },
        builds(candidates(shape_indices(shape), shapes), program),
    ensures
        program is Ok,
        fresh(e, placeholders_of(added)) ==> match program {
            Ok(Some(p)) => added.len() > 0 && p.inputs@.len() == added.len(),
            Ok(None) => added.len() == 0,
            Err(_) => false,
        },
{
    let kernels = candidates(shape_indices(shape), shapes);
    let names = placeholders_of(added);
    assert(program is Ok) by {
        if let Err(d) = program {
            let p = choose|p: int| #[trigger]
                is_first_failure(kernels, p) && fails_with(kernels[p], p as nat, d);
            assert(tape_runs(shapes[p].1));
            kernel_shapes_have_no_free_variables(added, outer, e, min_ops, p, shapes[p].1);
            axes_have_a_table(shape_indices(shapes[p].1));
        }
    }
    if fresh(e, names) {
        let swap = choose|swap: spec_fn(Expr) -> bool| #[trigger]
            is_left_of(e, leaves(e, min_ops), names, swap, tree_expr(outer));
        let d = choose|d: Expr| #[trigger]
            imports_as(outer, d) && forall|v: Variable| #[trigger]
                shape_indices(shape).contains_key(v) <==> occurs(d, v);
        assert forall|j: int| 0 <= j < kernels.len() implies (
        #[trigger] kernels[j]).index is Some by {
            every_placeholder_is_used(e, min_ops, names, swap, j);
            order_keeps_variables(d, tree_expr(outer), names[j]);
            assert(names[j] == shapes[j].0);
            assert(shape_indices(shape).contains_key(names[j]));
        }
        all_are_used(kernels);
    }
}

} // verus!
