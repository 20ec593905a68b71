//! Putting placeholders in the place of the parts that become kernels, and why
//! that does not change the expression.

use crate::error::Variable;
use crate::expr::{commutes, Expr};
use crate::leaves::{
    argument_is_part, compilable, filter_keeps_distinct, is_argument, is_part,
    kernels_are_worth_compiling, leaf_test, leaves, occurs, part_is_no_larger, parts,
    parts_are_complete, parts_are_distinct, size, uses_axis, whole_expression_is_one_kernel,
    worth_compiling,
};
use crate::opcode::{BinaryOp, UnaryOp};
use vstd::prelude::*;
use vstd::relations::injective_on;
use vstd::seq_lib::seq_to_set_is_finite;
use vstd::set_lib::lemma_map_size;

verus! {

/// `e` with the placeholder `names[j]` in place of each `kernels[j]`.
pub open spec fn replaced(e: Expr, kernels: Seq<Expr>, names: Seq<Variable>) -> Expr
    decreases e,
{
    if kernels.contains(e) {
        Expr::Input(names[kernels.index_of(e)])
    } else {
        match e {
            Expr::Unary(op, a) => Expr::Unary(op, Box::new(replaced(*a, kernels, names))),
            Expr::Binary(op, a, b) => Expr::Binary(
                op,
                Box::new(replaced(*a, kernels, names)),
                Box::new(replaced(*b, kernels, names)),
            ),
            _ => e,
        }
    }
}

/// The placeholders are distinct, and none is a variable of `e`.
pub open spec fn fresh(e: Expr, names: Seq<Variable>) -> bool {
    names.no_duplicates() && forall|j: int|
        0 <= j < names.len() ==> !occurs(e, #[trigger] names[j])
}

/// `e` with the placeholder `names[j]` in place of each `kernels[j]`, and with
/// the arguments of a sum, product, minimum or maximum the other way round where
/// `swap` holds.  One and the same part has one and the same order everywhere.
pub open spec fn rearranged(
    e: Expr,
    kernels: Seq<Expr>,
    names: Seq<Variable>,
    swap: spec_fn(Expr) -> bool,
) -> Expr
    decreases e,
{
    if kernels.contains(e) {
        Expr::Input(names[kernels.index_of(e)])
    } else {
        match e {
            Expr::Unary(op, a) => Expr::Unary(op, Box::new(rearranged(*a, kernels, names, swap))),
            Expr::Binary(op, a, b) => {
                let c = rearranged(*a, kernels, names, swap);
                let d = rearranged(*b, kernels, names, swap);
                if commutes(op) && swap(e) {
                    Expr::Binary(op, Box::new(d), Box::new(c))
                } else {
                    Expr::Binary(op, Box::new(c), Box::new(d))
                }
            },
            _ => e,
        }
    }
}

/// Rearranging keeps distinct parts of `e` apart.
pub open spec fn keeps_parts_apart(
    e: Expr,
    kernels: Seq<Expr>,
    names: Seq<Variable>,
    swap: spec_fn(Expr) -> bool,
) -> bool {
    forall|p: Expr, q: Expr| #[trigger]
        parts(e).contains(p) && #[trigger] parts(e).contains(q) && p != q ==> rearranged(
            p,
            kernels,
            names,
            swap,
        ) != rearranged(q, kernels, names, swap)
}

/// `outer` is what is left of `e`: the placeholders stand in the place of the
/// kernels, and the other parts are there as they were, each in one order.
pub open spec fn is_left_of(
    e: Expr,
    kernels: Seq<Expr>,
    names: Seq<Variable>,
    swap: spec_fn(Expr) -> bool,
    outer: Expr,
) -> bool {
    &&& outer == rearranged(e, kernels, names, swap)
    &&& keeps_parts_apart(e, kernels, names, swap)
}

/// An `op` of two arguments.
pub open spec fn is_op(p: Expr, op: BinaryOp) -> bool {
    p matches Expr::Binary(o, _, _) && o == op
}

/// The number of distinct parts that are an `op`.
pub open spec fn count_ops(e: Expr, op: BinaryOp) -> nat {
    parts(e).filter(|p: Expr| is_op(p, op)).len()
}

/// A choice within `e` is still there after rearranging.
proof fn choice_is_kept(
    e: Expr,
    kernels: Seq<Expr>,
    names: Seq<Variable>,
    swap: spec_fn(Expr) -> bool,
    op: BinaryOp,
    p: Expr,
)
    requires
        op.choice(),
        forall|k: Expr| #[trigger] kernels.contains(k) ==> compilable(k),
        is_part(e, p),
        is_op(p, op),
    ensures
        is_part(rearranged(e, kernels, names, swap), rearranged(p, kernels, names, swap)),
        is_op(rearranged(p, kernels, names, swap), op),
    decreases e,
{
    if kernels.contains(e) {
        part_is_no_larger(e, p);
    }
    if kernels.contains(p) {
        assert(compilable(p));
    }
    if p != e {
        match e {
            Expr::Unary(_, a) => choice_is_kept(*a, kernels, names, swap, op, p),
            Expr::Binary(_, a, b) => {
                if is_part(*a, p) {
                    choice_is_kept(*a, kernels, names, swap, op, p);
                } else {
                    choice_is_kept(*b, kernels, names, swap, op, p);
                }
            },
            _ => {},
        }
    }
}

/// A choice that is there after rearranging comes from one within `e`.
proof fn choice_comes_from(
    e: Expr,
    kernels: Seq<Expr>,
    names: Seq<Variable>,
    swap: spec_fn(Expr) -> bool,
    op: BinaryOp,
    q: Expr,
) -> (p: Expr)
    requires
        is_part(rearranged(e, kernels, names, swap), q),
        is_op(q, op),
    ensures
        is_part(e, p),
        is_op(p, op),
        rearranged(p, kernels, names, swap) == q,
    decreases e,
{
    if q == rearranged(e, kernels, names, swap) {
        e
    } else {
        match e {
            Expr::Unary(_, a) => choice_comes_from(*a, kernels, names, swap, op, q),
            Expr::Binary(_, a, b) => {
                if is_part(rearranged(*a, kernels, names, swap), q) {
                    choice_comes_from(*a, kernels, names, swap, op, q)
                } else {
                    choice_comes_from(*b, kernels, names, swap, op, q)
                }
            },
            _ => e,
        }
    }
}

/// The structure of choices stays outside the kernels: what is left has as many
/// distinct minima, maxima, conjunctions and disjunctions, of each kind, as the
/// expression that was split, and the kernels have none.
pub proof fn choices_stay_outside(
    e: Expr,
    min_ops: nat,
    names: Seq<Variable>,
    swap: spec_fn(Expr) -> bool,
    outer: Expr,
    op: BinaryOp,
)
    requires
        is_left_of(e, leaves(e, min_ops), names, swap, outer),
        op.choice(),
    ensures
        count_ops(outer, op) == count_ops(e, op),
        forall|j: int|
            0 <= j < leaves(e, min_ops).len() ==> count_ops(#[trigger] leaves(e, min_ops)[j], op)
                == 0,
{
    let kernels = leaves(e, min_ops);
    let test = |p: Expr| is_op(p, op);
    let f = |p: Expr| rearranged(p, kernels, names, swap);
    let xs = parts(e).filter(test);
    let ys = parts(outer).filter(test);
    kernels_are_worth_compiling(e, min_ops);
    parts_are_distinct(e);
    parts_are_distinct(outer);
    filter_keeps_distinct(parts(e), test);
    filter_keeps_distinct(parts(outer), test);
    assert forall|k: Expr| #[trigger] kernels.contains(k) implies compilable(k) by {
        let j = choose|j: int| 0 <= j < kernels.len() && kernels[j] == k;
        assert(compilable(kernels[j]));
    }
    assert forall|p: Expr| #[trigger] xs.contains(p) implies ys.contains(f(p)) by {
        parts_are_complete(e, p);
        choice_is_kept(e, kernels, names, swap, op, p);
        parts_are_complete(outer, f(p));
    }
    assert forall|q: Expr| #[trigger] ys.contains(q) implies exists|p: Expr|
        xs.contains(p) && #[trigger] f(p) == q by {
        parts_are_complete(outer, q);
        let p = choice_comes_from(e, kernels, names, swap, op, q);
        parts_are_complete(e, p);
        assert(xs.contains(p) && f(p) == q);
    }
    assert(xs.to_set().map(f) =~= ys.to_set()) by {
        assert forall|q: Expr| xs.to_set().map(f).contains(q) == ys.to_set().contains(q) by {
            if ys.contains(q) {
                let p = choose|p: Expr| xs.contains(p) && #[trigger] f(p) == q;
                assert(xs.to_set().contains(p) && f(p) == q);
            }
            if xs.to_set().map(f).contains(q) {
                let p = choose|p: Expr| xs.to_set().contains(p) && q == f(p);
                assert(xs.contains(p));
                assert(ys.contains(f(p)));
            }
        }
    }
    assert(injective_on(f, xs.to_set())) by {
        assert forall|p: Expr, q: Expr|
            xs.to_set().contains(p) && xs.to_set().contains(q) && #[trigger] f(p)
                == #[trigger] f(q) implies p == q by {
            assert(parts(e).contains(p) && parts(e).contains(q));
        }
    }
    xs.unique_seq_to_set();
    ys.unique_seq_to_set();
    seq_to_set_is_finite(xs);
    lemma_map_size(xs.to_set(), ys.to_set(), f);
    assert forall|j: int| 0 <= j < kernels.len() implies count_ops(#[trigger] kernels[j], op)
        == 0 by {
        let k = kernels[j];
        let zs = parts(k).filter(test);
        parts_are_distinct(k);
        filter_keeps_distinct(parts(k), test);
        if zs.len() > 0 {
            assert(zs.contains(zs[0]));
            part_is_no_larger(k, zs[0]);
        }
    }
}

/// The same expression, but for the order of the arguments of sums, products,
/// minima and maxima.
pub open spec fn same_but_for_order(d: Expr, e: Expr) -> bool
    decreases e,
{
    match e {
        Expr::Unary(op, a) => d matches Expr::Unary(o, c) && o == op && same_but_for_order(*c, *a),
        Expr::Binary(op, a, b) => d matches Expr::Binary(o, c, f) && o == op && ({
            ||| same_but_for_order(*c, *a) && same_but_for_order(*f, *b)
            ||| commutes(op) && same_but_for_order(*c, *b) && same_but_for_order(*f, *a)
        }),
        _ => d == e,
    }
}

/// The order of arguments has no effect on which variables there are.
pub proof fn order_keeps_variables(d: Expr, e: Expr, v: Variable)
    requires
        same_but_for_order(d, e),
    ensures
        occurs(d, v) == occurs(e, v),
    decreases e,
{
    match e {
        Expr::Unary(_, a) => {
            if let Expr::Unary(_, c) = d {
                order_keeps_variables(*c, *a, v);
            }
        },
        Expr::Binary(_, a, b) => {
            if let Expr::Binary(_, c, f) = d {
                if same_but_for_order(*c, *a) && same_but_for_order(*f, *b) {
                    order_keeps_variables(*c, *a, v);
                    order_keeps_variables(*f, *b, v);
                } else {
                    order_keeps_variables(*c, *b, v);
                    order_keeps_variables(*f, *a, v);
                }
            }
        },
        _ => {},
    }
}

/// A kind of value that expressions can be evaluated in, with a value for every
/// variable.
#[verifier::reject_recursive_types(V)]
pub struct Valuation<V> {
    /// The value of a variable
    pub input: spec_fn(Variable) -> V,
    /// The value of a constant, given by its bits
    pub constant: spec_fn(u32) -> V,
    /// The one-argument operations
    pub unary: spec_fn(UnaryOp, V) -> V,
    /// The two-argument operations
    pub binary: spec_fn(BinaryOp, V, V) -> V,
}

/// The value of an expression.
pub open spec fn value<V>(val: Valuation<V>, e: Expr) -> V
    decreases e,
{
    match e {
        Expr::Input(v) => (val.input)(v),
        Expr::Const(c) => (val.constant)(c),
        Expr::Unary(op, a) => (val.unary)(op, value(val, *a)),
        Expr::Binary(op, a, b) => (val.binary)(op, value(val, *a), value(val, *b)),
    }
}

/// None of the sums, products, minima and maxima in `e` depends on the order of
/// its two arguments, at the values that those have.
pub open spec fn order_is_free<V>(val: Valuation<V>, e: Expr) -> bool
    decreases e,
{
    match e {
        Expr::Unary(_, a) => order_is_free(val, *a),
        Expr::Binary(op, a, b) => {
            &&& order_is_free(val, *a)
            &&& order_is_free(val, *b)
            &&& commutes(op) ==> (val.binary)(op, value(val, *a), value(val, *b)) == (val.binary)(
                op,
                value(val, *b),
                value(val, *a),
            )
        },
        _ => true,
    }
}

/// Where the order of arguments is free, rearranging does not change the value.
proof fn order_does_not_matter<V>(
    val: Valuation<V>,
    e: Expr,
    kernels: Seq<Expr>,
    names: Seq<Variable>,
    swap: spec_fn(Expr) -> bool,
)
    requires
        order_is_free(val, replaced(e, kernels, names)),
    ensures
        value(val, rearranged(e, kernels, names, swap)) == value(val, replaced(e, kernels, names)),
    decreases e,
{
    if !kernels.contains(e) {
        match e {
            Expr::Unary(_, a) => order_does_not_matter(val, *a, kernels, names, swap),
            Expr::Binary(_, a, b) => {
                order_does_not_matter(val, *a, kernels, names, swap);
                order_does_not_matter(val, *b, kernels, names, swap);
            },
            _ => {},
        }
    }
}

/// Where the order of arguments is free, it is so after rearranging too.
pub(crate) proof fn order_stays_free<V>(
    val: Valuation<V>,
    e: Expr,
    kernels: Seq<Expr>,
    names: Seq<Variable>,
    swap: spec_fn(Expr) -> bool,
)
    requires
        order_is_free(val, replaced(e, kernels, names)),
    ensures
        order_is_free(val, rearranged(e, kernels, names, swap)),
    decreases e,
{
    if !kernels.contains(e) {
        match e {
            Expr::Unary(_, a) => order_stays_free(val, *a, kernels, names, swap),
            Expr::Binary(_, a, b) => {
                order_stays_free(val, *a, kernels, names, swap);
                order_stays_free(val, *b, kernels, names, swap);
                order_does_not_matter(val, *a, kernels, names, swap);
                order_does_not_matter(val, *b, kernels, names, swap);
            },
            _ => {},
        }
    }
}

/// Where the order of arguments is free, it has no effect on the value.
pub proof fn order_keeps_value<V>(val: Valuation<V>, d: Expr, e: Expr)
    requires
        same_but_for_order(d, e),
        order_is_free(val, e),
    ensures
        value(val, d) == value(val, e),
    decreases e,
{
    match e {
        Expr::Unary(_, a) => {
            if let Expr::Unary(_, c) = d {
                order_keeps_value(val, *c, *a);
            }
        },
        Expr::Binary(_, a, b) => {
            if let Expr::Binary(_, c, f) = d {
                if same_but_for_order(*c, *a) && same_but_for_order(*f, *b) {
                    order_keeps_value(val, *c, *a);
                    order_keeps_value(val, *f, *b);
                } else {
                    order_keeps_value(val, *c, *b);
                    order_keeps_value(val, *f, *a);
                }
            }
        },
        _ => {},
    }
}

/// A placeholder with the value of its kernel stands for it.
proof fn placeholders_stand_in<V>(
    val: Valuation<V>,
    e: Expr,
    kernels: Seq<Expr>,
    names: Seq<Variable>,
)
    requires
        names.len() == kernels.len(),
        forall|j: int|
            0 <= j < kernels.len() ==> (val.input)(#[trigger] names[j]) == value(val, kernels[j]),
    ensures
        value(val, replaced(e, kernels, names)) == value(val, e),
    decreases e,
{
    if kernels.contains(e) {
        let j = kernels.index_of(e);
        assert(0 <= j < kernels.len() && kernels[j] == e);
        assert((val.input)(names[j]) == value(val, kernels[j]));
    } else {
        match e {
            Expr::Unary(_, a) => placeholders_stand_in(val, *a, kernels, names),
            Expr::Binary(_, a, b) => {
                placeholders_stand_in(val, *a, kernels, names);
                placeholders_stand_in(val, *b, kernels, names);
            },
            _ => {},
        }
    }
}

/// Splitting into kernels does not change the function: once every placeholder
/// has the value of its kernel, what is left evaluates to the value of the
/// undivided expression.
///
/// Only the order of the arguments of sums, products, minima and maxima may have
/// changed, so that must not matter where they are evaluated.
pub proof fn splitting_is_exact<V>(
    val: Valuation<V>,
    e: Expr,
    min_ops: nat,
    names: Seq<Variable>,
    swap: spec_fn(Expr) -> bool,
)
    requires
        order_is_free(val, replaced(e, leaves(e, min_ops), names)),
        names.len() == leaves(e, min_ops).len(),
        forall|j: int|
            0 <= j < names.len() ==> (val.input)(#[trigger] names[j]) == value(
                val,
                leaves(e, min_ops)[j],
            ),
    ensures
        value(val, rearranged(e, leaves(e, min_ops), names, swap)) == value(val, e),
{
    let kernels = leaves(e, min_ops);
    placeholders_stand_in(val, e, kernels, names);
    order_does_not_matter(val, e, kernels, names, swap);
}

/// What can be compiled after rearranging could be compiled before, and is as
/// large.
proof fn rearranging_compiles_nothing(
    p: Expr,
    kernels: Seq<Expr>,
    names: Seq<Variable>,
    swap: spec_fn(Expr) -> bool,
)
    requires
        names.len() == kernels.len(),
        forall|j: int| 0 <= j < names.len() ==> (#[trigger] names[j]) is V,
        compilable(rearranged(p, kernels, names, swap)),
    ensures
        compilable(p),
        size(p) == size(rearranged(p, kernels, names, swap)),
        uses_axis(p) == uses_axis(rearranged(p, kernels, names, swap)),
    decreases p,
{
    if kernels.contains(p) {
        assert(names[kernels.index_of(p)] is V);
    } else {
        match p {
            Expr::Unary(_, a) => rearranging_compiles_nothing(*a, kernels, names, swap),
            Expr::Binary(_, a, b) => {
                rearranging_compiles_nothing(*a, kernels, names, swap);
                rearranging_compiles_nothing(*b, kernels, names, swap);
            },
            _ => {},
        }
    }
}

/// What is left of a part that is not worth compiling holds nothing that is.
proof fn rest_is_not_worth_compiling(
    e: Expr,
    min_ops: nat,
    names: Seq<Variable>,
    swap: spec_fn(Expr) -> bool,
    q: Expr,
    p: Expr,
)
    requires
        names.len() == leaves(e, min_ops).len(),
        forall|j: int| 0 <= j < names.len() ==> (#[trigger] names[j]) is V,
        is_part(e, q),
        !worth_compiling(q, min_ops),
        is_part(rearranged(q, leaves(e, min_ops), names, swap), p),
    ensures
        !worth_compiling(p, min_ops),
    decreases q,
{
    let all = parts(e);
    let kernels = leaves(e, min_ops);
    let r = rearranged(q, kernels, names, swap);
    parts_are_distinct(e);
    filter_keeps_distinct(all, leaf_test(e, min_ops));
    assert(!kernels.contains(q));
    if p == r {
        if worth_compiling(r, min_ops) {
            rearranging_compiles_nothing(q, kernels, names, swap);
        }
    } else {
        match q {
            Expr::Unary(_, a) => {
                argument_is_left(e, min_ops, names, swap, q, *a, p);
                if !kernels.contains(*a) {
                    rest_is_not_worth_compiling(e, min_ops, names, swap, *a, p);
                }
            },
            Expr::Binary(_, a, b) => {
                if is_part(rearranged(*a, kernels, names, swap), p) {
                    argument_is_left(e, min_ops, names, swap, q, *a, p);
                    if !kernels.contains(*a) {
                        rest_is_not_worth_compiling(e, min_ops, names, swap, *a, p);
                    }
                } else {
                    argument_is_left(e, min_ops, names, swap, q, *b, p);
                    if !kernels.contains(*b) {
                        rest_is_not_worth_compiling(e, min_ops, names, swap, *b, p);
                    }
                }
            },
            _ => {},
        }
    }
}

/// An argument of a part that is not worth compiling is a kernel, and then its
/// placeholder is left, or is not worth compiling either.
proof fn argument_is_left(
    e: Expr,
    min_ops: nat,
    names: Seq<Variable>,
    swap: spec_fn(Expr) -> bool,
    q: Expr,
    c: Expr,
    p: Expr,
)
    requires
        names.len() == leaves(e, min_ops).len(),
        forall|j: int| 0 <= j < names.len() ==> (#[trigger] names[j]) is V,
        is_part(e, q),
        !worth_compiling(q, min_ops),
        is_argument(q, c),
        is_part(rearranged(c, leaves(e, min_ops), names, swap), p),
    ensures
        is_part(e, c),
        if leaves(e, min_ops).contains(c) {
            !worth_compiling(p, min_ops)
        } else {
            !worth_compiling(c, min_ops)
        },
{
    let all = parts(e);
    let kernels = leaves(e, min_ops);
    argument_is_part(e, q, c);
    parts_are_distinct(e);
    parts_are_complete(e, q);
    parts_are_complete(e, c);
    filter_keeps_distinct(all, leaf_test(e, min_ops));
    let i = choose|i: int| 0 <= i < all.len() && all[i] == q;
    assert(!worth_compiling(all[i], min_ops) && is_argument(all[i], c));
    if kernels.contains(c) {
        assert(names[kernels.index_of(c)] is V);
        assert(p == Expr::Input(names[kernels.index_of(c)]));
    }
}

/// Splitting what is left of an expression again adds nothing: it holds no part
/// that would become a kernel.
pub proof fn nothing_is_left_to_compile(
    e: Expr,
    min_ops: nat,
    names: Seq<Variable>,
    swap: spec_fn(Expr) -> bool,
    outer: Expr,
)
    requires
        names.len() == leaves(e, min_ops).len(),
        forall|j: int| 0 <= j < names.len() ==> (#[trigger] names[j]) is V,
        is_left_of(e, leaves(e, min_ops), names, swap, outer),
    ensures
        leaves(outer, min_ops).len() == 0,
{
    let kernels = leaves(e, min_ops);
    let again = leaves(outer, min_ops);
    if again.len() > 0 {
        let p = again[0];
        kernels_are_worth_compiling(outer, min_ops);
        assert(is_part(outer, p) && worth_compiling(p, min_ops));
        if worth_compiling(e, min_ops) {
            whole_expression_is_one_kernel(e, min_ops);
            assert(kernels[0] == e);
            assert(names[kernels.index_of(e)] is V);
            assert(p == outer);
        } else {
            rest_is_not_worth_compiling(e, min_ops, names, swap, e, p);
        }
    }
}

} // verus!
