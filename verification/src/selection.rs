//! Which parts of an expression become kernels, told by what stands in it.

use crate::context::tree_expr;
use crate::error::Variable;
use crate::expr::Expr;
use crate::kernels::{is_split, placeholders_of};
use crate::leaves::{
    compilable, filter_keeps_distinct, filter_position, filter_step, is_argument, is_leaf, is_part,
    kernels_are_maximal, leaf_test, leaves, occurs, parts, parts_are_complete, parts_are_distinct,
    size, uses_axis, worth_compiling,
};
use crate::opcode::BinaryOp;
use crate::split::{fresh, is_left_of, nothing_is_left_to_compile};
use fidget_core::context::Tree;
use vstd::prelude::*;

verus! {

/// All that stands in an expression, from the left, once per use: the expression
/// itself, and then what stands in its arguments.
pub open spec fn nodes(e: Expr) -> Seq<Expr>
    decreases e,
{
    match e {
        Expr::Unary(_, a) => seq![e] + nodes(*a),
        Expr::Binary(_, a, b) => seq![e] + nodes(*a) + nodes(*b),
        _ => seq![e],
    }
}

/// One of the axes.
pub open spec fn is_axis(v: Variable) -> bool {
    v == Variable::X || v == Variable::Y || v == Variable::Z
}

/// A use of an axis.
pub open spec fn reads_axis(n: Expr) -> bool {
    n matches Expr::Input(v) && is_axis(v)
}

/// What cannot stand in a kernel: another variable, or a choice.
pub open spec fn is_barred(n: Expr) -> bool {
    match n {
        Expr::Input(v) => !is_axis(v),
        Expr::Binary(op, _, _) => op == BinaryOp::Min || op == BinaryOp::Max || op == BinaryOp::And
            || op == BinaryOp::Or,
        _ => false,
    }
}

/// How many operations and variables stand in an expression, once per use.
pub open spec fn operation_count(e: Expr) -> nat {
    nodes(e).filter(|n: Expr| !(n is Const)).len()
}

/// An expression that is to be a kernel, unless it stands within a larger one:
/// an axis stands in it, nothing that is barred does, and there are at least
/// `min_ops` operations.
pub open spec fn can_be_kernel(e: Expr, min_ops: nat) -> bool {
    &&& exists|i: int| 0 <= i < nodes(e).len() && reads_axis(#[trigger] nodes(e)[i])
    &&& forall|i: int| 0 <= i < nodes(e).len() ==> !is_barred(#[trigger] nodes(e)[i])
    &&& operation_count(e) >= min_ops
}

/// `q` is an operation on `p`.
pub open spec fn applies_to(q: Expr, p: Expr) -> bool {
    ||| q matches Expr::Unary(_, a) && *a == p
    ||| q matches Expr::Binary(_, a, b) && (*a == p || *b == p)
}

proof fn filter_of_sum(s: Seq<Expr>, t: Seq<Expr>, pred: spec_fn(Expr) -> bool)
    ensures
        (s + t).filter(pred) == s.filter(pred) + t.filter(pred),
    decreases t.len(),
{
    reveal(Seq::filter);
    if t.len() == 0 {
        assert(s + t =~= s);
        assert(s.filter(pred) + t.filter(pred) =~= s.filter(pred));
    } else {
        let sum = s + t;
        assert(sum.drop_last() =~= s + t.drop_last());
        assert(sum.last() == t.last());
        filter_of_sum(s, t.drop_last(), pred);
        assert(sum.filter(pred) =~= s.filter(pred) + t.filter(pred));
    }
}

proof fn filter_of_one(e: Expr, pred: spec_fn(Expr) -> bool)
    ensures
        seq![e].filter(pred) == if pred(e) {
            seq![e]
        } else {
            Seq::empty()
        },
{
    reveal(Seq::filter);
    reveal_with_fuel(Seq::filter, 2);
    assert(seq![e].drop_last() =~= Seq::<Expr>::empty());
    assert(Seq::<Expr>::empty().push(e) =~= seq![e]);
}

/// The size of an expression is the number of operations and variables that
/// stand in it; constants do not count.
pub proof fn size_counts_operations(e: Expr)
    ensures
        size(e) == operation_count(e),
    decreases e,
{
    let pred = |n: Expr| !(n is Const);
    filter_of_one(e, pred);
    match e {
        Expr::Unary(_, a) => {
            size_counts_operations(*a);
            filter_of_sum(seq![e], nodes(*a), pred);
        },
        Expr::Binary(_, a, b) => {
            size_counts_operations(*a);
            size_counts_operations(*b);
            filter_of_sum(seq![e], nodes(*a), pred);
            filter_of_sum(seq![e] + nodes(*a), nodes(*b), pred);
        },
        _ => {},
    }
}

/// What holds of a node of an argument holds of a node of the whole.
proof fn nodes_of_arguments(e: Expr)
    ensures
        forall|n: Expr| #[trigger]
            nodes(e).contains(n) <==> n == e || (match e {
                Expr::Unary(_, a) => nodes(*a).contains(n),
                Expr::Binary(_, a, b) => nodes(*a).contains(n) || nodes(*b).contains(n),
                _ => false,
            }),
{
    let all = nodes(e);
    assert forall|n: Expr| #[trigger] all.contains(n) <==> n == e || (match e {
        Expr::Unary(_, a) => nodes(*a).contains(n),
        Expr::Binary(_, a, b) => nodes(*a).contains(n) || nodes(*b).contains(n),
        _ => false,
    }) by {
        assert(all[0] == e);
        match e {
            Expr::Unary(_, a) => {
                let s = nodes(*a);
                if all.contains(n) && n != e {
                    let i = choose|i: int| 0 <= i < all.len() && all[i] == n;
                    assert(s[i - 1] == n);
                }
                if s.contains(n) {
                    let i = choose|i: int| 0 <= i < s.len() && s[i] == n;
                    assert(all[i + 1] == n);
                }
            },
            Expr::Binary(_, a, b) => {
                let s = nodes(*a);
                let t = nodes(*b);
                if all.contains(n) && n != e {
                    let i = choose|i: int| 0 <= i < all.len() && all[i] == n;
                    if i - 1 < s.len() {
                        assert(s[i - 1] == n);
                    } else {
                        assert(t[i - 1 - s.len()] == n);
                    }
                }
                if s.contains(n) {
                    let i = choose|i: int| 0 <= i < s.len() && s[i] == n;
                    assert(all[i + 1] == n);
                }
                if t.contains(n) {
                    let i = choose|i: int| 0 <= i < t.len() && t[i] == n;
                    assert(all[i + 1 + s.len()] == n);
                }
            },
            _ => {},
        }
    }
}

/// The parts of an expression are what stands in it.
pub proof fn parts_stand_in_it(e: Expr, p: Expr)
    ensures
        is_part(e, p) <==> nodes(e).contains(p),
    decreases e,
{
    nodes_of_arguments(e);
    match e {
        Expr::Unary(_, a) => parts_stand_in_it(*a, p),
        Expr::Binary(_, a, b) => {
            parts_stand_in_it(*a, p);
            parts_stand_in_it(*b, p);
        },
        _ => {},
    }
}

/// The variables of an expression are those that stand in it.
pub proof fn variables_stand_in_it(e: Expr, v: Variable)
    ensures
        occurs(e, v) <==> nodes(e).contains(Expr::Input(v)),
    decreases e,
{
    nodes_of_arguments(e);
    match e {
        Expr::Unary(_, a) => variables_stand_in_it(*a, v),
        Expr::Binary(_, a, b) => {
            variables_stand_in_it(*a, v);
            variables_stand_in_it(*b, v);
        },
        _ => {},
    }
}

/// An expression depends on an axis exactly if `X`, `Y` or `Z` stands in it.
pub proof fn axes_are_used_where_they_stand(e: Expr)
    ensures
        uses_axis(e) <==> exists|n: Expr| #[trigger] nodes(e).contains(n) && reads_axis(n),
        uses_axis(e) <==> occurs(e, Variable::X) || occurs(e, Variable::Y) || occurs(
            e,
            Variable::Z,
        ),
    decreases e,
{
    nodes_of_arguments(e);
    match e {
        Expr::Input(v) => {
            assert(nodes(e).contains(e));
        },
        Expr::Const(_) => {},
        Expr::Unary(_, a) => {
            axes_are_used_where_they_stand(*a);
            if uses_axis(*a) {
                let n = choose|n: Expr| #[trigger] nodes(*a).contains(n) && reads_axis(n);
                assert(nodes(e).contains(n));
            }
        },
        Expr::Binary(_, a, b) => {
            axes_are_used_where_they_stand(*a);
            axes_are_used_where_they_stand(*b);
            if uses_axis(*a) {
                let n = choose|n: Expr| #[trigger] nodes(*a).contains(n) && reads_axis(n);
                assert(nodes(e).contains(n));
            }
            if uses_axis(*b) {
                let n = choose|n: Expr| #[trigger] nodes(*b).contains(n) && reads_axis(n);
                assert(nodes(e).contains(n));
            }
        },
    }
}

/// An expression can be compiled exactly if no choice stands in it, and no
/// variable but the axes.
pub proof fn nothing_barred_is_compiled(e: Expr)
    ensures
        compilable(e) <==> forall|n: Expr| #[trigger] nodes(e).contains(n) ==> !is_barred(n),
    decreases e,
{
    nodes_of_arguments(e);
    assert(nodes(e).contains(e));
    match e {
        Expr::Unary(_, a) => {
            nothing_barred_is_compiled(*a);
            if !compilable(*a) {
                let n = choose|n: Expr| #[trigger] nodes(*a).contains(n) && is_barred(n);
                assert(nodes(e).contains(n));
            }
        },
        Expr::Binary(_, a, b) => {
            nothing_barred_is_compiled(*a);
            nothing_barred_is_compiled(*b);
            if !compilable(*a) {
                let n = choose|n: Expr| #[trigger] nodes(*a).contains(n) && is_barred(n);
                assert(nodes(e).contains(n));
            }
            if !compilable(*b) {
                let n = choose|n: Expr| #[trigger] nodes(*b).contains(n) && is_barred(n);
                assert(nodes(e).contains(n));
            }
        },
        _ => {},
    }
}

/// What is worth compiling is told by what stands in it: an axis, no other
/// variable and no choice, and at least `min_ops` operations.
pub proof fn worth_is_told_by_what_stands_in_it(e: Expr, min_ops: nat)
    ensures
        worth_compiling(e, min_ops) <==> can_be_kernel(e, min_ops),
{
    let all = nodes(e);
    size_counts_operations(e);
    axes_are_used_where_they_stand(e);
    nothing_barred_is_compiled(e);
    if uses_axis(e) {
        let n = choose|n: Expr| #[trigger] all.contains(n) && reads_axis(n);
        let i = choose|i: int| 0 <= i < all.len() && all[i] == n;
        assert(reads_axis(all[i]));
    }
    if exists|i: int| 0 <= i < all.len() && reads_axis(#[trigger] all[i]) {
        let i = choose|i: int| 0 <= i < all.len() && reads_axis(#[trigger] all[i]);
        assert(all.contains(all[i]));
    }
    if compilable(e) {
        assert forall|i: int| 0 <= i < all.len() implies !is_barred(#[trigger] all[i]) by {
            assert(all.contains(all[i]));
        }
    } else {
        let n = choose|n: Expr| #[trigger] all.contains(n) && is_barred(n);
        let i = choose|i: int| 0 <= i < all.len() && all[i] == n;
        assert(is_barred(all[i]));
    }
}

/// Which of the parts in a list become kernels, where the last is the whole:
/// those that can be, and are the whole or the argument of a part that cannot.
pub proof fn kernels_are_where_others_end(all: Seq<Expr>, e: Expr, min_ops: nat)
    ensures
        is_leaf(all, e, min_ops) <==> can_be_kernel(e, min_ops) && (e == all.last() || exists|
            q: int,
        |
            0 <= q < all.len() && !can_be_kernel(#[trigger] all[q], min_ops) && applies_to(
                all[q],
                e,
            )),
{
    worth_is_told_by_what_stands_in_it(e, min_ops);
    assert forall|q: int| 0 <= q < all.len() implies (worth_compiling(#[trigger] all[q], min_ops)
        <==> can_be_kernel(all[q], min_ops)) && (is_argument(all[q], e) <==> applies_to(
        all[q],
        e,
    )) by {
        worth_is_told_by_what_stands_in_it(all[q], min_ops);
    }
    if is_leaf(all, e, min_ops) && e != all.last() {
        let q = choose|q: int|
            0 <= q < all.len() && !worth_compiling(#[trigger] all[q], min_ops) && is_argument(
                all[q],
                e,
            );
        assert(!can_be_kernel(all[q], min_ops));
    }
    if can_be_kernel(e, min_ops) && exists|q: int|
        0 <= q < all.len() && !can_be_kernel(#[trigger] all[q], min_ops) && applies_to(all[q], e) {
        let q = choose|q: int|
            0 <= q < all.len() && !can_be_kernel(#[trigger] all[q], min_ops) && applies_to(
                all[q],
                e,
            );
        assert(!worth_compiling(all[q], min_ops));
    }
}

/// The kernels of an expression are told by what stands in it.  Each can be a
/// kernel, stands in the expression, and is the whole or the argument of something
/// there that cannot be one; whatever fits this is a kernel; and each is listed
/// once.
pub proof fn kernels_are_told_by_what_stands_in_it(e: Expr, min_ops: nat, k: Expr)
    ensures
        leaves(e, min_ops).no_duplicates(),
        leaves(e, min_ops).contains(k) <==> {
            &&& nodes(e).contains(k)
            &&& can_be_kernel(k, min_ops)
            &&& k == e || exists|q: Expr| #[trigger]
                nodes(e).contains(q) && !can_be_kernel(q, min_ops) && applies_to(q, k)
        },
{
    let all = parts(e);
    parts_are_distinct(e);
    parts_are_complete(e, k);
    parts_stand_in_it(e, k);
    filter_keeps_distinct(all, leaf_test(e, min_ops));
    kernels_are_where_others_end(all, k, min_ops);
    if exists|q: int|
        0 <= q < all.len() && !can_be_kernel(#[trigger] all[q], min_ops) && applies_to(all[q], k) {
        let q = choose|q: int|
            0 <= q < all.len() && !can_be_kernel(#[trigger] all[q], min_ops) && applies_to(
                all[q],
                k,
            );
        assert(all.contains(all[q]));
        parts_stand_in_it(e, all[q]);
        assert(nodes(e).contains(all[q]));
    }
    if exists|q: Expr| #[trigger]
        nodes(e).contains(q) && !can_be_kernel(q, min_ops) && applies_to(q, k) {
        let q = choose|q: Expr| #[trigger]
            nodes(e).contains(q) && !can_be_kernel(q, min_ops) && applies_to(q, k);
        parts_stand_in_it(e, q);
        parts_are_complete(e, q);
        let i = choose|i: int| 0 <= i < all.len() && all[i] == q;
        assert(!can_be_kernel(all[i], min_ops));
    }
}

proof fn filter_count_grows(s: Seq<Expr>, pred: spec_fn(Expr) -> bool, a: int, b: int)
    requires
        0 <= a <= b <= s.len(),
    ensures
        s.take(a).filter(pred).len() <= s.take(b).filter(pred).len(),
    decreases b - a,
{
    if a < b {
        filter_count_grows(s, pred, a, b - 1);
        filter_step(s, pred, b - 1);
    }
}

/// The kernels of an expression come in the order of its parts.
pub proof fn kernels_come_in_order(e: Expr, min_ops: nat, i: int, j: int)
    requires
        0 <= i < j < leaves(e, min_ops).len(),
    ensures
        exists|a: int, b: int|
            0 <= a < b < parts(e).len() && #[trigger] parts(e)[a] == leaves(e, min_ops)[i]
                && #[trigger] parts(e)[b] == leaves(e, min_ops)[j],
{
    let all = parts(e);
    let test = leaf_test(e, min_ops);
    let kernels = leaves(e, min_ops);
    parts_are_distinct(e);
    filter_keeps_distinct(all, test);
    assert(kernels.contains(kernels[i]) && kernels.contains(kernels[j]));
    let a = choose|a: int| 0 <= a < all.len() && all[a] == kernels[i];
    let b = choose|b: int| 0 <= b < all.len() && all[b] == kernels[j];
    filter_position(all, test, a);
    filter_position(all, test, b);
    assert(all.take(a).filter(test).len() == i);
    assert(all.take(b).filter(test).len() == j);
    if b <= a {
        filter_count_grows(all, test, b, a);
    }
    assert(all[a] == kernels[i] && all[b] == kernels[j]);
}

/// Nothing that can be a kernel is left out: whatever stands in an expression, has
/// an axis and at least `min_ops` operations in it, and neither a choice nor
/// another variable, stands in a kernel.
pub proof fn everything_that_can_be_compiled_is(e: Expr, min_ops: nat, p: Expr)
    requires
        nodes(e).contains(p),
        can_be_kernel(p, min_ops),
    ensures
        exists|j: int|
            0 <= j < leaves(e, min_ops).len() && nodes(#[trigger] leaves(e, min_ops)[j]).contains(
                p,
            ),
{
    parts_stand_in_it(e, p);
    worth_is_told_by_what_stands_in_it(p, min_ops);
    kernels_are_maximal(e, min_ops, p);
    let j = choose|j: int|
        0 <= j < leaves(e, min_ops).len() && is_part(#[trigger] leaves(e, min_ops)[j], p);
    parts_stand_in_it(leaves(e, min_ops)[j], p);
}

/// Splitting a tree makes a kernel of whatever stands in it and can be one, unless
/// it stands within a larger one; each has a tree of its own, and nothing else is
/// made one.  Splitting what is left again adds nothing, if the placeholders are
/// new.
pub proof fn splitting_takes_all_that_can_be_compiled(
    added: Seq<(Variable, Tree)>,
    outer: Tree,
    e: Expr,
    min_ops: nat,
    k: Expr,
)
    requires
        is_split(added, outer, e, min_ops),
    ensures
        (exists|j: int| 0 <= j < added.len() && tree_expr((#[trigger] added[j]).1) == k) <==> {
            &&& nodes(e).contains(k)
            &&& can_be_kernel(k, min_ops)
            &&& k == e || exists|q: Expr| #[trigger]
                nodes(e).contains(q) && !can_be_kernel(q, min_ops) && applies_to(q, k)
        },
        forall|i: int, j: int|
            0 <= i < j < added.len() ==> tree_expr((#[trigger] added[i]).1) != tree_expr(
                (#[trigger] added[j]).1,
            ),
        fresh(e, placeholders_of(added)) ==> forall|i: int|
            0 <= i < nodes(tree_expr(outer)).len() ==> !can_be_kernel(
                #[trigger] nodes(tree_expr(outer))[i],
                min_ops,
            ),
{
    let kernels = leaves(e, min_ops);
    let names = placeholders_of(added);
    kernels_are_told_by_what_stands_in_it(e, min_ops, k);
    if kernels.contains(k) {
        let j = choose|j: int| 0 <= j < kernels.len() && kernels[j] == k;
        assert(tree_expr(added[j].1) == kernels[j]);
    }
    if exists|j: int| 0 <= j < added.len() && tree_expr((#[trigger] added[j]).1) == k {
        let j = choose|j: int| 0 <= j < added.len() && tree_expr((#[trigger] added[j]).1) == k;
        assert(kernels[j] == k);
    }
    assert forall|i: int, j: int| 0 <= i < j < added.len() implies tree_expr(
        (#[trigger] added[i]).1,
    ) != tree_expr((#[trigger] added[j]).1) by {
        assert(kernels[i] != kernels[j]);
    }
    if fresh(e, names) {
        let left = tree_expr(outer);
        let swap = choose|swap: spec_fn(Expr) -> bool| #[trigger]
            is_left_of(e, kernels, names, swap, left);
        assert forall|j: int| 0 <= j < names.len() implies (#[trigger] names[j]) is V by {
            assert(added[j].0 is V);
        }
        nothing_is_left_to_compile(e, min_ops, names, swap, left);
        assert forall|i: int| 0 <= i < nodes(left).len() implies !can_be_kernel(
            #[trigger] nodes(left)[i],
            min_ops,
        ) by {
            if can_be_kernel(nodes(left)[i], min_ops) {
                assert(nodes(left).contains(nodes(left)[i]));
                everything_that_can_be_compiled_is(left, min_ops, nodes(left)[i]);
            }
        }
    }
}

} // verus!
