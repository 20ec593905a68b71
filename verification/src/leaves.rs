//! Splitting an expression: which parts of it are worth a kernel.

use crate::error::Variable;
use crate::expr::{Expr, Operation};
use vstd::prelude::*;

verus! {

// ---------------------------------------------------------------------------
// Expressions
// ---------------------------------------------------------------------------

/// Has no operation that makes a choice, and no variable but the axes.
pub open spec fn compilable(e: Expr) -> bool
    decreases e,
{
    match e {
        Expr::Input(v) => v.axis() is Some,
        Expr::Const(_) => true,
        Expr::Unary(_, a) => compilable(*a),
        Expr::Binary(op, a, b) => compilable(*a) && compilable(*b) && !op.choice(),
    }
}

/// The number of operations and variables, each counted once per use.
pub open spec fn size(e: Expr) -> nat
    decreases e,
{
    match e {
        Expr::Input(_) => 1,
        Expr::Const(_) => 0,
        Expr::Unary(_, a) => size(*a) + 1,
        Expr::Binary(_, a, b) => size(*a) + size(*b) + 1,
    }
}

/// Depends on an axis.
pub open spec fn uses_axis(e: Expr) -> bool
    decreases e,
{
    match e {
        Expr::Input(v) => v.axis() is Some,
        Expr::Const(_) => false,
        Expr::Unary(_, a) => uses_axis(*a),
        Expr::Binary(_, a, b) => uses_axis(*a) || uses_axis(*b),
    }
}

/// Can be a kernel, and has at least `min_ops` operations.
pub open spec fn worth_compiling(e: Expr, min_ops: nat) -> bool {
    compilable(e) && uses_axis(e) && size(e) >= min_ops
}

/// `part` is an argument of `e`.
pub open spec fn is_argument(e: Expr, part: Expr) -> bool {
    match e {
        Expr::Unary(_, a) => part == *a,
        Expr::Binary(_, a, b) => part == *a || part == *b,
        _ => false,
    }
}

/// `done`, and then the parts of `e` that are not in it, each after its
/// arguments, from left to right.
pub open spec fn collect(e: Expr, done: Seq<Expr>) -> Seq<Expr>
    decreases e,
{
    if done.contains(e) {
        done
    } else {
        match e {
            Expr::Unary(_, a) => collect(*a, done).push(e),
            Expr::Binary(_, a, b) => collect(*b, collect(*a, done)).push(e),
            _ => done.push(e),
        }
    }
}

/// The distinct parts of an expression, each after its arguments, from left to
/// right; the last is the expression itself.
pub open spec fn parts(e: Expr) -> Seq<Expr> {
    collect(e, Seq::empty())
}

/// Among `parts`, of which the last is the whole, `e` becomes a kernel: it is
/// worth compiling, and is the whole or an argument of a part that is not worth
/// compiling.
pub open spec fn is_leaf(parts: Seq<Expr>, e: Expr, min_ops: nat) -> bool {
    &&& worth_compiling(e, min_ops)
    &&& e == parts.last() || exists|p: int|
        0 <= p < parts.len() && !worth_compiling(#[trigger] parts[p], min_ops) && is_argument(
            parts[p],
            e,
        )
}

/// Which parts of an expression become kernels.
pub open spec fn leaf_test(e: Expr, min_ops: nat) -> spec_fn(Expr) -> bool {
    |p: Expr| is_leaf(parts(e), p, min_ops)
}

/// The parts of an expression that become kernels, in order.
pub open spec fn leaves(e: Expr, min_ops: nat) -> Seq<Expr> {
    parts(e).filter(leaf_test(e, min_ops))
}

/// `v` is one of the variables of `e`.
pub open spec fn occurs(e: Expr, v: Variable) -> bool
    decreases e,
{
    match e {
        Expr::Input(w) => v == w,
        Expr::Const(_) => false,
        Expr::Unary(_, a) => occurs(*a, v),
        Expr::Binary(_, a, b) => occurs(*a, v) || occurs(*b, v),
    }
}

/// `p` is `e`, or a part of one of its arguments.
pub open spec fn is_part(e: Expr, p: Expr) -> bool
    decreases e,
{
    p == e || match e {
        Expr::Unary(_, a) => is_part(*a, p),
        Expr::Binary(_, a, b) => is_part(*a, p) || is_part(*b, p),
        _ => false,
    }
}

/// The number of operations, variables and constants.
pub(crate) closed spec fn weight(e: Expr) -> nat
    decreases e,
{
    match e {
        Expr::Unary(_, a) => weight(*a) + 1,
        Expr::Binary(_, a, b) => weight(*a) + weight(*b) + 1,
        _ => 1,
    }
}

/// A part weighs no more than the whole, and has no other variables.
pub(crate) proof fn part_is_within(e: Expr, p: Expr)
    requires
        is_part(e, p),
    ensures
        weight(p) <= weight(e),
        forall|v: Variable| #[trigger] occurs(p, v) ==> occurs(e, v),
    decreases e,
{
    if p != e {
        match e {
            Expr::Unary(_, a) => part_is_within(*a, p),
            Expr::Binary(_, a, b) => {
                if is_part(*a, p) {
                    part_is_within(*a, p);
                } else {
                    part_is_within(*b, p);
                }
            },
            _ => {},
        }
    }
}

/// Every argument of an entry is an earlier entry.
spec fn is_closed(s: Seq<Expr>) -> bool {
    forall|i: int, c: Expr|
        #![trigger is_argument(s[i], c)]
        0 <= i < s.len() && is_argument(s[i], c) ==> exists|j: int|
            0 <= j < i && #[trigger] s[j] == c
}

/// One more entry, whose arguments are there.
proof fn closed_grows(s: Seq<Expr>, e: Expr)
    requires
        is_closed(s),
        forall|c: Expr| #[trigger] is_argument(e, c) ==> s.contains(c),
    ensures
        is_closed(s.push(e)),
{
    let t = s.push(e);
    assert forall|i: int, c: Expr|
        #![trigger is_argument(t[i], c)]
        0 <= i < t.len() && is_argument(t[i], c) implies exists|j: int|
        0 <= j < i && #[trigger] t[j] == c by {
        if i < s.len() {
            assert(is_argument(s[i], c));
            let j = choose|j: int| 0 <= j < i && #[trigger] s[j] == c;
            assert(t[j] == c);
        } else {
            let j = choose|j: int| 0 <= j < s.len() && s[j] == c;
            assert(t[j] == c);
        }
    }
}

/// What collecting an expression adds.
proof fn collect_adds(e: Expr, done: Seq<Expr>)
    requires
        done.no_duplicates(),
        is_closed(done),
    ensures
        collect(e, done).no_duplicates(),
        is_closed(collect(e, done)),
        done.is_prefix_of(collect(e, done)),
        collect(e, done).contains(e),
        !done.contains(e) ==> collect(e, done).last() == e && collect(e, done).len() > done.len(),
        forall|p: Expr| #[trigger]
            collect(e, done).contains(p) ==> done.contains(p) || is_part(e, p),
    decreases e,
{
    let all = collect(e, done);
    if !done.contains(e) {
        let s = match e {
            Expr::Unary(_, a) => collect(*a, done),
            Expr::Binary(_, a, b) => collect(*b, collect(*a, done)),
            _ => done,
        };
        match e {
            Expr::Unary(_, a) => {
                collect_adds(*a, done);
            },
            Expr::Binary(_, a, b) => {
                collect_adds(*a, done);
                let t = collect(*a, done);
                collect_adds(*b, t);
                let j = choose|j: int| 0 <= j < t.len() && t[j] == *a;
                assert(s[j] == *a);
            },
            _ => {},
        }
        assert(all == s.push(e));
        assert(forall|p: Expr| #[trigger]
            s.contains(p) ==> done.contains(p) || (is_part(e, p) && weight(p) < weight(e))) by {
            assert forall|p: Expr| #[trigger] s.contains(p) implies done.contains(p) || (is_part(
                e,
                p,
            ) && weight(p) < weight(e)) by {
                match e {
                    Expr::Unary(_, a) => {
                        if !done.contains(p) {
                            part_is_within(*a, p);
                        }
                    },
                    Expr::Binary(_, a, b) => {
                        if !done.contains(p) {
                            if collect(*a, done).contains(p) {
                                part_is_within(*a, p);
                            } else {
                                part_is_within(*b, p);
                            }
                        }
                    },
                    _ => {},
                }
            }
        }
        assert(!s.contains(e));
        closed_grows(s, e);
        assert(all[s.len() as int] == e);
        assert forall|p: Expr| #[trigger] all.contains(p) implies done.contains(p) || is_part(
            e,
            p,
        ) by {
            let j = choose|j: int| 0 <= j < all.len() && all[j] == p;
            if j < s.len() {
                assert(s[j] == p);
                assert(s.contains(p));
            }
        }
    }
}

/// The parts of an expression are distinct, the last is the expression itself,
/// and each comes after its arguments.
pub proof fn parts_are_distinct(e: Expr)
    ensures
        parts(e).no_duplicates(),
        parts(e).len() > 0,
        parts(e).last() == e,
        forall|p: Expr| #[trigger] parts(e).contains(p) ==> is_part(e, p),
        forall|i: int, c: Expr|
            #![trigger is_argument(parts(e)[i], c)]
            0 <= i < parts(e).len() && is_argument(parts(e)[i], c) ==> exists|j: int|
                0 <= j < i && #[trigger] parts(e)[j] == c,
{
    collect_adds(e, Seq::empty());
}

/// Every kernel is a part of the expression that makes no choice, depends on an
/// axis and on no other variable, and has at least `min_ops` operations; and
/// identical parts share a kernel.
pub proof fn kernels_are_worth_compiling(e: Expr, min_ops: nat)
    ensures
        leaves(e, min_ops).no_duplicates(),
        forall|j: int|
            0 <= j < leaves(e, min_ops).len() ==> {
                let k = #[trigger] leaves(e, min_ops)[j];
                is_part(e, k) && compilable(k) && uses_axis(k) && size(k) >= min_ops
            },
{
    let all = parts(e);
    let pred = leaf_test(e, min_ops);
    parts_are_distinct(e);
    filter_keeps_distinct(all, pred);
    let kernels = leaves(e, min_ops);
    assert forall|j: int| 0 <= j < kernels.len() implies {
        let k = #[trigger] kernels[j];
        is_part(e, k) && compilable(k) && uses_axis(k) && size(k) >= min_ops
    } by {
        assert(kernels.contains(kernels[j]));
        assert(all.contains(kernels[j]) && pred(kernels[j]));
    }
}

/// A selection from distinct entries has distinct entries, all from there.
pub(crate) proof fn filter_keeps_distinct(s: Seq<Expr>, pred: spec_fn(Expr) -> bool)
    requires
        s.no_duplicates(),
    ensures
        s.filter(pred).no_duplicates(),
        forall|p: Expr| #[trigger] s.filter(pred).contains(p) <==> s.contains(p) && pred(p),
    decreases s.len(),
{
    reveal(Seq::filter);
    if s.len() > 0 {
        let t = s.drop_last();
        filter_keeps_distinct(t, pred);
        assert forall|p: Expr| s.contains(p) == (t.contains(p) || p == s.last()) by {
            if s.contains(p) {
                let i = choose|i: int| 0 <= i < s.len() && s[i] == p;
                if i < t.len() {
                    assert(t[i] == p);
                }
            }
            if t.contains(p) {
                let i = choose|i: int| 0 <= i < t.len() && t[i] == p;
                assert(s[i] == p);
            }
            assert(s[s.len() - 1] == s.last());
        }
        assert(!t.contains(s.last())) by {
            if t.contains(s.last()) {
                let i = choose|i: int| 0 <= i < t.len() && t[i] == s.last();
                assert(s[i] == s[s.len() - 1]);
            }
        }
        let f = t.filter(pred);
        let g = s.filter(pred);
        if pred(s.last()) {
            assert(g == f.push(s.last()));
            assert(!f.contains(s.last()));
            assert forall|i: int, j: int| 0 <= i < j < g.len() implies g[i] != g[j] by {
                assert(g[i] == f[i] && f.contains(f[i]));
                if j < f.len() {
                    assert(g[j] == f[j]);
                }
            }
            assert forall|p: Expr| #[trigger] g.contains(p) <==> s.contains(p) && pred(p) by {
                if g.contains(p) {
                    let i = choose|i: int| 0 <= i < g.len() && g[i] == p;
                    if i < f.len() {
                        assert(f[i] == p);
                        assert(f.contains(p));
                    }
                }
                if s.contains(p) && pred(p) {
                    if p == s.last() {
                        assert(g[g.len() - 1] == p);
                    } else {
                        assert(f.contains(p));
                        let i = choose|i: int| 0 <= i < f.len() && f[i] == p;
                        assert(g[i] == p);
                    }
                }
            }
        } else {
            assert(g == f);
        }
    }
}

/// One more entry adds to a selection if it is selected.
pub(crate) proof fn filter_step<T>(s: Seq<T>, pred: spec_fn(T) -> bool, i: int)
    requires
        0 <= i < s.len(),
    ensures
        s.take(i + 1).filter(pred) == (if pred(s[i]) {
            s.take(i).filter(pred).push(s[i])
        } else {
            s.take(i).filter(pred)
        }),
{
    reveal(Seq::filter);
    assert(s.take(i + 1).drop_last() == s.take(i));
}

/// A selected entry comes in the selection after those selected before it.
pub(crate) proof fn filter_position(s: Seq<Expr>, pred: spec_fn(Expr) -> bool, k: int)
    requires
        0 <= k < s.len(),
        pred(s[k]),
    ensures
        s.take(k).filter(pred).len() < s.filter(pred).len(),
        s.filter(pred)[s.take(k).filter(pred).len() as int] == s[k],
    decreases s.len(),
{
    let last = s.len() - 1;
    assert(s.take(last + 1) == s);
    filter_step(s, pred, last);
    if k < last {
        let t = s.take(last);
        filter_position(t, pred, k);
        assert(t.take(k) == s.take(k));
    }
}

/// The variables among the parts of an expression are variables of it.
pub(crate) proof fn variables_occur(e: Expr, v: Variable)
    requires
        parts(e).contains(Expr::Input(v)),
    ensures
        occurs(e, v),
{
    parts_are_distinct(e);
    part_is_within(e, Expr::Input(v));
    assert(occurs(Expr::Input(v), v));
}

/// What holds an expression, and every argument after it, holds its parts.
proof fn closed_holds_parts(s: Seq<Expr>, e: Expr, p: Expr)
    requires
        is_closed(s),
        s.contains(e),
        is_part(e, p),
    ensures
        s.contains(p),
    decreases e,
{
    if p != e {
        let i = choose|i: int| 0 <= i < s.len() && s[i] == e;
        match e {
            Expr::Unary(_, a) => {
                assert(is_argument(s[i], *a));
                closed_holds_parts(s, *a, p);
            },
            Expr::Binary(_, a, b) => {
                assert(is_argument(s[i], *a));
                assert(is_argument(s[i], *b));
                if is_part(*a, p) {
                    closed_holds_parts(s, *a, p);
                } else {
                    closed_holds_parts(s, *b, p);
                }
            },
            _ => {},
        }
    }
}

/// A part that is not the whole is an argument of some part.
proof fn part_has_a_user(e: Expr, p: Expr) -> (q: Expr)
    requires
        is_part(e, p),
        p != e,
    ensures
        is_part(e, q),
        is_argument(q, p),
    decreases e,
{
    match e {
        Expr::Unary(_, a) => if p == *a {
            e
        } else {
            part_has_a_user(*a, p)
        },
        Expr::Binary(_, a, b) => if p == *a || p == *b {
            e
        } else if is_part(*a, p) {
            part_has_a_user(*a, p)
        } else {
            part_has_a_user(*b, p)
        },
        _ => e,
    }
}

/// An argument of a part is a part.
pub(crate) proof fn argument_is_part(e: Expr, q: Expr, p: Expr)
    requires
        is_part(e, q),
        is_argument(q, p),
    ensures
        is_part(e, p),
    decreases e,
{
    if q == e {
        assert(is_part(p, p));
    } else {
        match e {
            Expr::Unary(_, a) => argument_is_part(*a, q, p),
            Expr::Binary(_, a, b) => {
                if is_part(*a, q) {
                    argument_is_part(*a, q, p);
                } else {
                    argument_is_part(*b, q, p);
                }
            },
            _ => {},
        }
    }
}

/// From a part that is worth compiling, up to a kernel.
proof fn kernel_above(e: Expr, min_ops: nat, i: int) -> (k: Expr)
    requires
        0 <= i < parts(e).len(),
        worth_compiling(parts(e)[i], min_ops),
    ensures
        leaves(e, min_ops).contains(k),
        is_part(k, parts(e)[i]),
    decreases parts(e).len() - i,
{
    let all = parts(e);
    let p = all[i];
    collect_adds(e, Seq::empty());
    filter_keeps_distinct(all, |p: Expr| is_leaf(all, p, min_ops));
    assert(all.contains(p));
    if is_leaf(all, p, min_ops) {
        p
    } else {
        let q = part_has_a_user(e, p);
        closed_holds_parts(all, e, q);
        let m = choose|m: int| 0 <= m < all.len() && all[m] == q;
        assert(is_argument(all[m], p));
        let j = choose|j: int| 0 <= j < m && #[trigger] all[j] == p;
        assert(i == j);
        let k = kernel_above(e, min_ops, m);
        argument_is_part(k, q, p);
        k
    }
}

/// Every part of an expression is listed among its parts.
pub proof fn parts_are_complete(e: Expr, p: Expr)
    ensures
        parts(e).contains(p) <==> is_part(e, p),
{
    collect_adds(e, Seq::empty());
    if is_part(e, p) {
        closed_holds_parts(parts(e), e, p);
    }
}

/// Nothing worth compiling is left out: every part that is worth compiling is
/// a kernel, or a part of one.
pub proof fn kernels_are_maximal(e: Expr, min_ops: nat, p: Expr)
    requires
        is_part(e, p),
        worth_compiling(p, min_ops),
    ensures
        exists|j: int|
            0 <= j < leaves(e, min_ops).len() && is_part(#[trigger] leaves(e, min_ops)[j], p),
{
    collect_adds(e, Seq::empty());
    closed_holds_parts(parts(e), e, p);
    let i = choose|i: int| 0 <= i < parts(e).len() && parts(e)[i] == p;
    let k = kernel_above(e, min_ops, i);
    let j = choose|j: int| 0 <= j < leaves(e, min_ops).len() && leaves(e, min_ops)[j] == k;
    assert(is_part(leaves(e, min_ops)[j], p));
}

/// A part is no larger than the whole, and makes no choice if the whole makes
/// none.
pub(crate) proof fn part_is_no_larger(e: Expr, p: Expr)
    requires
        is_part(e, p),
    ensures
        size(p) <= size(e),
        compilable(e) ==> compilable(p),
    decreases e,
{
    if p != e {
        match e {
            Expr::Unary(_, a) => part_is_no_larger(*a, p),
            Expr::Binary(_, a, b) => {
                if is_part(*a, p) {
                    part_is_no_larger(*a, p);
                } else {
                    part_is_no_larger(*b, p);
                }
            },
            _ => {},
        }
    }
}

/// An expression that is worth compiling as a whole becomes a single kernel.
pub proof fn whole_expression_is_one_kernel(e: Expr, min_ops: nat)
    requires
        worth_compiling(e, min_ops),
    ensures
        leaves(e, min_ops) == seq![e],
{
    let all = parts(e);
    let test = leaf_test(e, min_ops);
    let kernels = leaves(e, min_ops);
    parts_are_distinct(e);
    filter_keeps_distinct(all, test);
    assert(all.contains(e)) by {
        assert(all[all.len() - 1] == e);
    }
    assert(kernels.contains(e));
    assert forall|p: Expr| #[trigger] kernels.contains(p) implies p == e by {
        if p != e {
            let q = choose|q: int|
                0 <= q < all.len() && !worth_compiling(#[trigger] all[q], min_ops) && is_argument(
                    all[q],
                    p,
                );
            assert(all.contains(all[q]));
            part_is_no_larger(e, all[q]);
            assert(worth_compiling(all[q], min_ops));
        }
    }
    assert(kernels.len() == 1) by {
        if kernels.len() > 1 {
            assert(kernels.contains(kernels[0]) && kernels.contains(kernels[1]));
        }
    }
    assert(kernels.contains(kernels[0]));
}

/// An expression with fewer than `min_ops` operations has no kernels.
pub proof fn small_expressions_have_no_kernels(e: Expr, min_ops: nat)
    requires
        size(e) < min_ops,
    ensures
        leaves(e, min_ops).len() == 0,
{
    if leaves(e, min_ops).len() > 0 {
        kernels_are_worth_compiling(e, min_ops);
        let k = leaves(e, min_ops)[0];
        part_is_no_larger(e, k);
    }
}

/// A kernel depends on the evaluation point only: all its variables are axes.
pub proof fn kernels_use_only_axes(e: Expr, v: Variable)
    requires
        compilable(e),
        occurs(e, v),
    ensures
        v.axis() is Some,
    decreases e,
{
    match e {
        Expr::Unary(_, a) => kernels_use_only_axes(*a, v),
        Expr::Binary(_, a, b) => {
            if occurs(*a, v) {
                kernels_use_only_axes(*a, v);
            } else {
                kernels_use_only_axes(*b, v);
            }
        },
        _ => {},
    }
}

/// The entries of `s` that are not in `done`.
pub open spec fn without(s: Seq<Expr>, done: Seq<Expr>) -> Seq<Expr> {
    s.filter(|p: Expr| !done.contains(p))
}

proof fn without_all(s: Seq<Expr>, done: Seq<Expr>)
    requires
        forall|p: Expr| #[trigger] s.contains(p) ==> done.contains(p),
    ensures
        without(s, done) == Seq::<Expr>::empty(),
    decreases s.len(),
{
    reveal(Seq::filter);
    if s.len() > 0 {
        let t = s.drop_last();
        assert(s.contains(s.last())) by {
            assert(s[s.len() - 1] == s.last());
        }
        assert forall|p: Expr| #[trigger] t.contains(p) implies done.contains(p) by {
            let i = choose|i: int| 0 <= i < t.len() && t[i] == p;
            assert(s[i] == p);
            assert(s.contains(p));
        }
        without_all(t, done);
    }
}

/// Leaving out in two steps, the second time from what is left.
proof fn without_both(s: Seq<Expr>, done: Seq<Expr>, more: Seq<Expr>, both: Seq<Expr>)
    requires
        forall|p: Expr| #[trigger] both.contains(p) <==> done.contains(p) || more.contains(p),
    ensures
        without(without(s, more), done) == without(s, both),
    decreases s.len(),
{
    reveal(Seq::filter);
    if s.len() > 0 {
        let t = s.drop_last();
        without_both(t, done, more, both);
        if !more.contains(s.last()) {
            assert(without(s, more) == without(t, more).push(s.last()));
            assert(without(s, more).drop_last() =~= without(t, more));
        }
    }
}

/// Leaving out from a sum.
proof fn without_sum(s: Seq<Expr>, t: Seq<Expr>, done: Seq<Expr>)
    ensures
        without(s + t, done) == without(s, done) + without(t, done),
    decreases t.len(),
{
    reveal(Seq::filter);
    let sum = s + t;
    if t.len() == 0 {
        assert(sum =~= s);
        assert(without(s, done) + without(t, done) =~= without(s, done));
    } else {
        assert(sum.drop_last() =~= s + t.drop_last());
        assert(sum.last() == t.last());
        without_sum(s, t.drop_last(), done);
        assert(without(sum, done) =~= without(s, done) + without(t, done));
    }
}

/// Collecting adds the parts that are not there yet, in their order.
proof fn collect_adds_the_rest(e: Expr, done: Seq<Expr>)
    requires
        done.no_duplicates(),
        is_closed(done),
    ensures
        collect(e, done) == done + without(parts(e), done),
    decreases e,
{
    reveal(Seq::filter);
    let none = Seq::<Expr>::empty();
    collect_adds(e, none);
    if done.contains(e) {
        assert forall|p: Expr| #[trigger] parts(e).contains(p) implies done.contains(p) by {
            closed_holds_parts(done, e, p);
        }
        without_all(parts(e), done);
        assert(done + none =~= done);
    } else {
        match e {
            Expr::Unary(_, a) => {
                collect_adds_the_rest(*a, done);
                assert(parts(e).drop_last() =~= parts(*a));
                assert(collect(e, done) =~= done + without(parts(e), done));
            },
            Expr::Binary(_, a, b) => {
                let first = collect(*a, done);
                let left = parts(*a);
                collect_adds(*a, done);
                collect_adds(*a, none);
                collect_adds_the_rest(*a, done);
                collect_adds_the_rest(*b, first);
                collect_adds_the_rest(*b, left);
                let right = without(parts(*b), left);
                assert(parts(e) == (left + right).push(e));
                assert(parts(e).drop_last() =~= left + right);
                without_sum(left, right, done);
                assert forall|p: Expr| #[trigger] first.contains(p) <==> done.contains(p)
                    || left.contains(p) by {
                    if first.contains(p) && !done.contains(p) {
                        closed_holds_parts(left, *a, p);
                    }
                    if done.contains(p) {
                        let i = choose|i: int| 0 <= i < done.len() && done[i] == p;
                        assert(first[i] == p);
                    }
                    if left.contains(p) {
                        closed_holds_parts(first, *a, p);
                    }
                }
                without_both(parts(*b), done, left, first);
                assert(collect(e, done) =~= done + without(parts(e), done));
            },
            _ => {
                assert(parts(e) =~= seq![e]);
                assert(parts(e).drop_last() =~= none);
                assert(collect(e, done) =~= done + without(parts(e), done));
            },
        }
    }
}

/// The parts of an operation are those of its arguments, from left to right, each
/// where it first occurs, and then the operation itself.
pub proof fn parts_go_from_left_to_right(e: Expr)
    ensures
        parts(e) == match e {
            Expr::Unary(_, a) => parts(*a).push(e),
            Expr::Binary(_, a, b) => (parts(*a) + without(parts(*b), parts(*a))).push(e),
            _ => seq![e],
        },
{
    match e {
        Expr::Binary(_, a, b) => {
            collect_adds(*a, Seq::empty());
            collect_adds_the_rest(*b, parts(*a));
        },
        Expr::Unary(_, a) => {},
        _ => {
            assert(parts(e) =~= seq![e]);
        },
    }
}

/// The part `i` becomes a kernel, as far as the first `p` parts tell.
spec fn leaf_so_far(parts: Seq<Expr>, i: int, p: int, min_ops: nat) -> bool {
    &&& worth_compiling(parts[i], min_ops)
    &&& i == parts.len() - 1 || exists|q: int|
        0 <= q < p && !worth_compiling(#[trigger] parts[q], min_ops) && is_argument(
            parts[q],
            parts[i],
        )
}

// ---------------------------------------------------------------------------
// Graphs
// ---------------------------------------------------------------------------

/// An expression with its shared parts held once: a list of operations whose
/// arguments are earlier ones.
pub struct Graph {
    /// The operations, each after its arguments
    pub ops: Vec<Operation<usize>>,
}

/// The arguments of the operation `i` are earlier ones.
pub open spec fn arguments_below(op: Operation<usize>, i: int) -> bool {
    match op {
        Operation::Input(_) => true,
        Operation::Const(_) => true,
        Operation::Unary(_, a) => a < i,
        Operation::Binary(_, a, b) => a < i && b < i,
    }
}

/// Every operation comes after its arguments.
pub open spec fn is_graph(ops: Seq<Operation<usize>>) -> bool {
    forall|i: int| 0 <= i < ops.len() ==> arguments_below(#[trigger] ops[i], i)
}

/// The expression that ends with the operation `i`.
pub open spec fn graph_expr(ops: Seq<Operation<usize>>, i: int) -> Expr
    decreases i,
{
    match ops[i] {
        Operation::Input(v) => Expr::Input(v),
        Operation::Const(c) => Expr::Const(c),
        Operation::Unary(op, a) => if a < i {
            Expr::Unary(op, Box::new(graph_expr(ops, a as int)))
        } else {
            Expr::Const(0)
        },
        Operation::Binary(op, a, b) => if a < i && b < i {
            Expr::Binary(
                op,
                Box::new(graph_expr(ops, a as int)),
                Box::new(graph_expr(ops, b as int)),
            )
        } else {
            Expr::Const(0)
        },
    }
}

/// The expressions of the operations, in order.
pub open spec fn graph_exprs(ops: Seq<Operation<usize>>) -> Seq<Expr> {
    Seq::new(ops.len(), |i: int| graph_expr(ops, i))
}

impl View for Graph {
    type V = Seq<Expr>;

    open spec fn view(&self) -> Seq<Expr> {
        graph_exprs(self.ops@)
    }
}

impl Graph {
    /// Every operation comes after its arguments, and no part is held twice.
    pub open spec fn well_formed(self) -> bool {
        is_graph(self.ops@) && self@.no_duplicates()
    }

    /// For each part, whether it is worth compiling.
    fn worth(&self, min_ops: usize) -> (worth: Vec<bool>)
        requires
            is_graph(self.ops@),
        ensures
            worth@.len() == self@.len(),
            forall|i: int|
                0 <= i < worth@.len() ==> worth@[i] == worth_compiling(
                    #[trigger] self@[i],
                    min_ops as nat,
                ),
    {
        // Per-part properties: compilable (choice-free, and only using axes),
        // size (as far as it can be counted), and whether it uses any axis
        let mut info: Vec<(bool, usize, bool)> = Vec::new();
        let mut worth: Vec<bool> = Vec::new();
        let mut i: usize = 0;
        while i < self.ops.len()
            invariant
                i <= self.ops@.len(),
                is_graph(self.ops@),
                info@.len() == i,
                worth@.len() == i,
                forall|k: int|
                    0 <= k < i ==> {
                        let e = #[trigger] self@[k];
                        &&& info@[k].0 == compilable(e)
                        &&& info@[k].1 == size(e) || (info@[k].1 == usize::MAX && size(e)
                            > usize::MAX)
                        &&& info@[k].2 == uses_axis(e)
                        &&& worth@[k] == worth_compiling(e, min_ops as nat)
                    },
            decreases self.ops@.len() - i,
        {
            assert(arguments_below(self.ops@[i as int], i as int));
            let ghost e = self@[i as int];
            let entry: (bool, usize, bool) = match self.ops[i] {
                Operation::Input(v) => {
                    let axis = v.axis_number().is_some();
                    (axis, 1, axis)
                },
                Operation::Const(_) => (true, 0, false),
                Operation::Unary(_, a) => {
                    assert(e == Expr::Unary(self.ops@[i as int]->Unary_0, Box::new(self@[a as int])));
                    let (c, s, x) = info[a];
                    (c, s.saturating_add(1), x)
                },
                Operation::Binary(op, a, b) => {
                    assert(e == Expr::Binary(
                        op,
                        Box::new(self@[a as int]),
                        Box::new(self@[b as int]),
                    ));
                    let (ca, sa, xa) = info[a];
                    let (cb, sb, xb) = info[b];
                    (ca && cb && !op.is_choice(), sa.saturating_add(sb).saturating_add(1), xa || xb)
                },
            };
            worth.push(entry.0 && entry.2 && entry.1 >= min_ops);
            info.push(entry);
            i += 1;
        }
        worth
    }

    /// For each part, whether it becomes a kernel.
    ///
    /// Those are the maximal parts that make no choice, use an axis and no
    /// other variable, and have at least `min_ops` operations.
    pub fn leaves(&self, min_ops: usize) -> (leaves: Vec<bool>)
        requires
            self.well_formed(),
        ensures
            leaves@.len() == self@.len(),
            forall|i: int|
                0 <= i < leaves@.len() ==> leaves@[i] == is_leaf(
                    self@,
                    #[trigger] self@[i],
                    min_ops as nat,
                ),
    {
        let worth = self.worth(min_ops);
        let n: usize = self.ops.len();
        let mut leaves: Vec<bool> = Vec::new();
        while leaves.len() < n
            invariant
                leaves@.len() <= n,
                n == self.ops@.len(),
                worth@.len() == n,
                forall|i: int|
                    0 <= i < leaves@.len() ==> #[trigger] leaves@[i] == (worth@[i] && i == n - 1),
            decreases n - leaves@.len(),
        {
            leaves.push(worth[leaves.len()] && leaves.len() == n - 1);
        }
        let mut p: usize = 0;
        while p < n
            invariant
                p <= n,
                n == self.ops@.len(),
                self.well_formed(),
                leaves@.len() == n,
                worth@.len() == n,
                forall|i: int|
                    0 <= i < n ==> worth@[i] == worth_compiling(
                        #[trigger] self@[i],
                        min_ops as nat,
                    ),
                forall|i: int|
                    0 <= i < n ==> #[trigger] leaves@[i] == leaf_so_far(
                        self@,
                        i,
                        p as int,
                        min_ops as nat,
                    ),
            decreases n - p,
        {
            assert(arguments_below(self.ops@[p as int], p as int));
            let ghost before = leaves@;
            if !worth[p] {
                match self.ops[p] {
                    Operation::Unary(_, a) => {
                        if worth[a] {
                            leaves.set(a, true);
                        }
                    },
                    Operation::Binary(_, a, b) => {
                        if worth[a] {
                            leaves.set(a, true);
                        }
                        if worth[b] {
                            leaves.set(b, true);
                        }
                    },
                    _ => {},
                }
            }
            proof {
                self.marked(min_ops as nat, p as int, before, leaves@, worth@);
            }
            p += 1;
        }
        proof {
            let exprs = self@;
            assert forall|i: int| 0 <= i < n implies leaves@[i] == is_leaf(
                exprs,
                #[trigger] exprs[i],
                min_ops as nat,
            ) by {
                assert(exprs[i] == exprs.last() <==> i == n - 1);
            }
        }
        leaves
    }

    /// Marking the arguments of a part that is not worth compiling.
    proof fn marked(
        &self,
        min_ops: nat,
        p: int,
        before: Seq<bool>,
        after: Seq<bool>,
        worth: Seq<bool>,
    )
        requires
            self.well_formed(),
            0 <= p < self.ops@.len(),
            before.len() == self.ops@.len(),
            after.len() == before.len(),
            worth.len() == before.len(),
            forall|i: int|
                0 <= i < worth.len() ==> worth[i] == worth_compiling(#[trigger] self@[i], min_ops),
            forall|i: int|
                0 <= i < before.len() ==> #[trigger] before[i] == leaf_so_far(self@, i, p, min_ops),
            forall|i: int|
                0 <= i < after.len() ==> #[trigger] after[i] == (before[i] || (!worth[p] && worth[i]
                    && (match self.ops@[p] {
                    Operation::Unary(_, a) => i == a,
                    Operation::Binary(_, a, b) => i == a || i == b,
                    _ => false,
                }))),
        ensures
            forall|i: int|
                0 <= i < after.len() ==> #[trigger] after[i] == leaf_so_far(
                    self@,
                    i,
                    p + 1,
                    min_ops,
                ),
    {
        let exprs = self@;
        assert(arguments_below(self.ops@[p], p));
        assert forall|i: int| 0 <= i < after.len() implies #[trigger] after[i] == leaf_so_far(
            exprs,
            i,
            p + 1,
            min_ops,
        ) by {
            let named = match self.ops@[p] {
                Operation::Unary(_, a) => i == a,
                Operation::Binary(_, a, b) => i == a || i == b,
                _ => false,
            };
            assert(is_argument(exprs[p], exprs[i]) == named) by {
                match self.ops@[p] {
                    Operation::Unary(_, a) => {
                        assert(exprs[a as int] == graph_expr(self.ops@, a as int));
                    },
                    Operation::Binary(_, a, b) => {
                        assert(exprs[a as int] == graph_expr(self.ops@, a as int));
                        assert(exprs[b as int] == graph_expr(self.ops@, b as int));
                    },
                    _ => {},
                }
            }
            if leaf_so_far(exprs, i, p, min_ops) && i != exprs.len() - 1 {
                let q = choose|q: int|
                    0 <= q < p && !worth_compiling(#[trigger] exprs[q], min_ops) && is_argument(
                        exprs[q],
                        exprs[i],
                    );
                assert(0 <= q < p + 1 && !worth_compiling(exprs[q], min_ops));
            }
        }
    }
}

} // verus!
