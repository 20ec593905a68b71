//! Why rebuilding an expression in another context rebuilds it faithfully.

use crate::context::imported_variable;
use crate::error::Variable;
use crate::expr::{
    commutes, inserted, insertion_is_well_formed, is_one, is_zero, same_op, Arena, Expr, Operation,
};
use crate::leaves::{
    arguments_below, graph_expr, graph_exprs, is_graph, parts, parts_are_distinct,
};
use crate::opcode::BinaryOp;
use crate::rebuild::{built, building_is_well_formed, can_build};
use crate::split::{is_left_of, rearranged};
use crate::trace::{at_nodes, trace_spells, traces};
use fidget_core::context::Node;
use vstd::prelude::*;

verus! {

/// The same operation on the same arguments the other way round, where that
/// makes no difference.
pub open spec fn swapped<N>(x: Operation<N>, y: Operation<N>) -> bool {
    x matches Operation::Binary(o, a, b) && commutes(o) && y == Operation::Binary(o, b, a)
}

/// The position of a zero.
spec fn zero_at(ops: Seq<Operation<usize>>, i: usize) -> bool {
    ops[i as int] matches Operation::Const(c) && is_zero(c)
}

/// The position of the number one.
spec fn one_at(ops: Seq<Operation<usize>>, i: usize) -> bool {
    ops[i as int] matches Operation::Const(c) && is_one(c)
}

/// The operation at a position cannot be simplified.
spec fn irreducible_at(ops: Seq<Operation<usize>>, i: int) -> bool {
    match ops[i] {
        Operation::Input(_) => true,
        Operation::Const(_) => true,
        Operation::Unary(_, a) => ops[a as int] !is Const,
        Operation::Binary(op, a, b) => {
            &&& !(ops[a as int] is Const && ops[b as int] is Const)
            &&& commutes(op) ==> a != b
            &&& match op {
                BinaryOp::Add => !zero_at(ops, a) && !zero_at(ops, b),
                BinaryOp::Sub => !zero_at(ops, a) && !zero_at(ops, b),
                BinaryOp::Mul => !zero_at(ops, a) && !zero_at(ops, b) && !one_at(ops, a) && !one_at(
                    ops,
                    b,
                ),
                BinaryOp::Div => !zero_at(ops, a) && !one_at(ops, b),
                BinaryOp::And => ops[a as int] !is Const,
                BinaryOp::Or => ops[a as int] !is Const && !zero_at(ops, b),
                _ => true,
            }
        },
    }
}

/// Operations as they come out of a context: none can be simplified, and none
/// is there twice, not even the other way round.
pub closed spec fn is_canonical(ops: Seq<Operation<usize>>) -> bool {
    &&& is_graph(ops)
    &&& forall|i: int| 0 <= i < ops.len() ==> #[trigger] irreducible_at(ops, i)
    &&& forall|i: int, j: int|
        0 <= i < ops.len() && 0 <= j < ops.len() && i != j ==> !same_op(
            #[trigger] ops[i],
            #[trigger] ops[j],
        ) && !swapped(ops[i], ops[j])
}

/// What is traced in a context is canonical.
pub proof fn traces_are_canonical(a: Arena, nodes: Seq<Node>, ops: Seq<Operation<usize>>)
    requires
        a.well_formed(),
        traces(a, nodes, ops),
        graph_exprs(ops).no_duplicates(),
    ensures
        is_canonical(ops),
{
    assert forall|i: int, j: int|
        0 <= i < nodes.len() && 0 <= j < nodes.len() && i != j implies #[trigger] nodes[i]
        != #[trigger] nodes[j] by {
        trace_spells(a, nodes, ops, i);
        trace_spells(a, nodes, ops, j);
        assert(graph_exprs(ops)[i] != graph_exprs(ops)[j]);
    }
    assert forall|i: int| 0 <= i < ops.len() implies #[trigger] irreducible_at(ops, i) by {
        assert(arguments_below(ops[i], i));
        assert(a.has(nodes[i]) && a.is_simple(a.ops[nodes[i]]));
        match ops[i] {
            Operation::Unary(_, c) => {
                assert(a.has(nodes[c as int]));
            },
            Operation::Binary(_, c, d) => {
                assert(a.has(nodes[c as int]) && a.has(nodes[d as int]));
            },
            _ => {},
        }
    }
    assert forall|i: int, j: int|
        0 <= i < ops.len() && 0 <= j < ops.len() && i != j implies !same_op(
        #[trigger] ops[i],
        #[trigger] ops[j],
    ) && !swapped(ops[i], ops[j]) by {
        assert(a.has(nodes[i]) && a.has(nodes[j]));
        assert(nodes[i] != nodes[j]);
        assert(arguments_below(ops[i], i));
        assert(!same_op(a.ops[nodes[i]], a.ops[nodes[j]]));
        if swapped(ops[i], ops[j]) {
            assert(a.is_simple(a.ops[nodes[i]]) && a.is_simple(a.ops[nodes[j]]));
            if let Operation::Binary(_, c, d) = ops[i] {
                assert(a.has(nodes[c as int]) && a.has(nodes[d as int]));
                assert(a.rank[nodes[c as int]] == a.rank[nodes[d as int]]);
            }
        }
    }
}

/// The operation under a handle is what stands at a position: its placeholder,
/// or else the operation there, maybe the other way round.
spec fn stands_for(
    out: Arena,
    n: Node,
    op: Operation<Node>,
    placeholder: Option<Variable>,
) -> bool {
    match placeholder {
        Some(v) => out.ops[n] == Operation::<Node>::Input(v),
        None => out.ops[n] == op || swapped(op, out.ops[n]),
    }
}

/// The operations up to some position have been rebuilt under the handles
/// `nodes`, with placeholders where there are any.
pub closed spec fn is_faithful(
    out: Arena,
    ops: Seq<Operation<usize>>,
    placeholders: Seq<Option<Variable>>,
    nodes: Seq<Node>,
) -> bool {
    &&& nodes.len() == placeholders.len()
    &&& nodes.len() <= ops.len()
    &&& forall|k: int|
        0 <= k < nodes.len() ==> out.has(#[trigger] nodes[k]) && stands_for(
            out,
            nodes[k],
            at_nodes(ops[k], nodes),
            placeholders[k],
        )
    &&& nodes.no_duplicates()
    &&& forall|n: Node| #[trigger] out.has(n) && out.is_const(n) ==> nodes.contains(n)
}

/// Nothing has been rebuilt in an empty context.
pub proof fn starts_faithful(ops: Seq<Operation<usize>>)
    ensures
        is_faithful(Arena::empty(), ops, Seq::empty(), Seq::empty()),
{
}

/// One more operation has been rebuilt.
proof fn faithful_grows(
    before: Arena,
    after: Arena,
    ops: Seq<Operation<usize>>,
    placeholders: Seq<Option<Variable>>,
    nodes: Seq<Node>,
    placeholder: Option<Variable>,
    r: Node,
)
    requires
        is_graph(ops),
        is_faithful(before, ops, placeholders, nodes),
        nodes.len() < ops.len(),
        after.extends(before),
        after.has(r),
        stands_for(after, r, at_nodes(ops[nodes.len() as int], nodes), placeholder),
        !nodes.contains(r),
        forall|n: Node| #[trigger] after.has(n) && after.is_const(n) && n != r ==> before.has(n),
    ensures
        is_faithful(after, ops, placeholders.push(placeholder), nodes.push(r)),
{
    let i = nodes.len() as int;
    let grown = nodes.push(r);
    assert forall|k: int| 0 <= k < grown.len() implies after.has(#[trigger] grown[k]) && stands_for(
        after,
        grown[k],
        at_nodes(ops[k], grown),
        placeholders.push(placeholder)[k],
    ) by {
        assert(arguments_below(ops[k], k));
        assert(at_nodes(ops[k], grown) == at_nodes(ops[k], nodes));
        if k < i {
            assert(before.has(nodes[k]));
        }
    }
    assert forall|n: Node| #[trigger] after.has(n) && after.is_const(n) implies grown.contains(
        n,
    ) by {
        if n == r {
            assert(grown[i] == r);
        } else {
            assert(before.has(n));
            let k = choose|k: int| 0 <= k < nodes.len() && nodes[k] == n;
            assert(grown[k] == n);
        }
    }
}

/// A variable that was imported is under its handle.
pub proof fn variable_is_imported(before: Arena, after: Arena, v: Variable, r: Node)
    requires
        before.well_formed(),
        imported_variable(before, after, v, r),
    ensures
        after.expr(r) == Expr::Input(v),
{
    let (a, b, c, x, y, z) = choose|a: Arena, b: Arena, c: Arena, x: Node, y: Node, z: Node|
        {
            &&& #[trigger] inserted(before, a, Operation::Input(Variable::X), x)
            &&& #[trigger] inserted(a, b, Operation::Input(Variable::Y), y)
            &&& #[trigger] inserted(b, c, Operation::Input(Variable::Z), z)
            &&& inserted(c, after, Operation::Input(v), r)
        };
    insertion_is_well_formed(before, a, Operation::Input(Variable::X), x);
    insertion_is_well_formed(a, b, Operation::Input(Variable::Y), y);
    insertion_is_well_formed(b, c, Operation::Input(Variable::Z), z);
    insertion_is_well_formed(c, after, Operation::Input(v), r);
}

/// A placeholder has been imported.
pub proof fn placeholder_is_faithful(
    before: Arena,
    after: Arena,
    ops: Seq<Operation<usize>>,
    placeholders: Seq<Option<Variable>>,
    nodes: Seq<Node>,
    v: Variable,
    r: Node,
)
    requires
        is_canonical(ops),
        before.well_formed(),
        is_faithful(before, ops, placeholders, nodes),
        nodes.len() < ops.len(),
        imported_variable(before, after, v, r),
        !placeholders.contains(Some(v)),
        forall|k: int| 0 <= k < ops.len() ==> #[trigger] ops[k] != Operation::<usize>::Input(v),
    ensures
        is_faithful(after, ops, placeholders.push(Some(v)), nodes.push(r)),
{
    let (a, b, c, x, y, z) = choose|a: Arena, b: Arena, c: Arena, x: Node, y: Node, z: Node|
        {
            &&& #[trigger] inserted(before, a, Operation::Input(Variable::X), x)
            &&& #[trigger] inserted(a, b, Operation::Input(Variable::Y), y)
            &&& #[trigger] inserted(b, c, Operation::Input(Variable::Z), z)
            &&& inserted(c, after, Operation::Input(v), r)
        };
    insertion_is_well_formed(before, a, Operation::Input(Variable::X), x);
    insertion_is_well_formed(a, b, Operation::Input(Variable::Y), y);
    insertion_is_well_formed(b, c, Operation::Input(Variable::Z), z);
    insertion_is_well_formed(c, after, Operation::Input(v), r);
    assert forall|n: Node| #[trigger] before.has(n) implies after.has(n) && after.ops[n]
        == before.ops[n] && after.rank[n] == before.rank[n] by {
        assert(a.has(n) && b.has(n) && c.has(n));
    }
    assert(!nodes.contains(r)) by {
        if nodes.contains(r) {
            let k = choose|k: int| 0 <= k < nodes.len() && nodes[k] == r;
            assert(before.has(nodes[k]));
            assert(stands_for(before, nodes[k], at_nodes(ops[k], nodes), placeholders[k]));
            assert(placeholders[k] != Some(v));
            assert(ops[k] != Operation::<usize>::Input(v));
        }
    }
    assert forall|n: Node| #[trigger] after.has(n) && after.is_const(n) && n != r implies before.has(
        n,
    ) by {
        assert(c.has(n));
        assert(b.has(n));
        assert(a.has(n));
    }
    faithful_grows(before, after, ops, placeholders, nodes, Some(v), r);
}

/// An operation as it is added: with the earlier argument first where the order
/// makes no difference.
spec fn in_order(out: Arena, op: Operation<Node>) -> Operation<Node> {
    match op {
        Operation::Binary(o, a, b) => if commutes(o) && out.rank[a] > out.rank[b] {
            Operation::Binary(o, b, a)
        } else {
            op
        },
        _ => op,
    }
}

/// What stands for an operation is a constant only if that is one.
proof fn constants_are_kept(
    out: Arena,
    ops: Seq<Operation<usize>>,
    placeholders: Seq<Option<Variable>>,
    nodes: Seq<Node>,
    a: usize,
)
    requires
        is_faithful(out, ops, placeholders, nodes),
        a < nodes.len(),
    ensures
        out.has(nodes[a as int]),
        out.ops[nodes[a as int]] matches Operation::Const(c) ==> ops[a as int]
            == Operation::<usize>::Const(c),
{
    assert(stands_for(out, nodes[a as int], at_nodes(ops[a as int], nodes), placeholders[a as int]));
}

/// Building the next operation does not simplify it.
proof fn next_is_inserted(
    before: Arena,
    after: Arena,
    ops: Seq<Operation<usize>>,
    placeholders: Seq<Option<Variable>>,
    nodes: Seq<Node>,
    r: Node,
)
    requires
        is_canonical(ops),
        is_faithful(before, ops, placeholders, nodes),
        nodes.len() < ops.len(),
        built(before, after, at_nodes(ops[nodes.len() as int], nodes), r),
    ensures
        can_build(before, at_nodes(ops[nodes.len() as int], nodes)),
        inserted(
            before,
            after,
            in_order(before, at_nodes(ops[nodes.len() as int], nodes)),
            r,
        ),
{
    let i = nodes.len() as int;
    assert(irreducible_at(ops, i));
    assert(arguments_below(ops[i], i));
    match ops[i] {
        Operation::Unary(_, a) => {
            constants_are_kept(before, ops, placeholders, nodes, a);
        },
        Operation::Binary(_, a, b) => {
            constants_are_kept(before, ops, placeholders, nodes, a);
            constants_are_kept(before, ops, placeholders, nodes, b);
            assert(a != b ==> nodes[a as int] != nodes[b as int]);
        },
        _ => {},
    }
}

/// An operation has been rebuilt.
pub proof fn operation_is_faithful(
    before: Arena,
    after: Arena,
    ops: Seq<Operation<usize>>,
    placeholders: Seq<Option<Variable>>,
    nodes: Seq<Node>,
    r: Node,
)
    requires
        is_canonical(ops),
        before.well_formed(),
        is_faithful(before, ops, placeholders, nodes),
        nodes.len() < ops.len(),
        built(before, after, at_nodes(ops[nodes.len() as int], nodes), r),
        ops[nodes.len() as int] matches Operation::Input(v) ==> !placeholders.contains(Some(v)),
    ensures
        is_faithful(after, ops, placeholders.push(None), nodes.push(r)),
{
    let i = nodes.len() as int;
    let op = at_nodes(ops[i], nodes);
    let added = in_order(before, op);
    next_is_inserted(before, after, ops, placeholders, nodes, r);
    building_is_well_formed(before, after, op, r);
    assert(arguments_below(ops[i], i));
    assert(!nodes.contains(r)) by {
        if nodes.contains(r) {
            let k = choose|k: int| 0 <= k < nodes.len() && nodes[k] == r;
            assert(before.has(nodes[k]));
            assert(stands_for(before, nodes[k], at_nodes(ops[k], nodes), placeholders[k]));
            assert(arguments_below(ops[k], k));
            assert(same_op(before.ops[r], added));
            assert(!same_op(ops[k], ops[i]) && !swapped(ops[k], ops[i]) && !swapped(
                ops[i],
                ops[k],
            ));
            if placeholders[k] is Some {
                assert(placeholders.contains(placeholders[k]));
            }
        }
    }
    if before.has(r) && op is Const {
        assert(nodes.contains(r));
    }
    assert(stands_for(after, r, op, None));
    faithful_grows(before, after, ops, placeholders, nodes, None, r);
}

/// The placeholder at each position, if any: that of the kernel there.
pub open spec fn are_placeholders(
    ops: Seq<Operation<usize>>,
    kernels: Seq<Expr>,
    names: Seq<Variable>,
    placeholders: Seq<Option<Variable>>,
) -> bool {
    forall|k: int|
        0 <= k < placeholders.len() ==> #[trigger] placeholders[k] == (if kernels.contains(
            graph_expr(ops, k),
        ) {
            Some(names[kernels.index_of(graph_expr(ops, k))])
        } else {
            None
        })
}

/// The parts that were rebuilt with their arguments the other way round.
pub closed spec fn swaps(
    out: Arena,
    ops: Seq<Operation<usize>>,
    nodes: Seq<Node>,
) -> spec_fn(Expr) -> bool {
    |p: Expr|
        exists|k: int|
            0 <= k < nodes.len() && graph_expr(ops, k) == p && swapped(
                at_nodes(ops[k], nodes),
                out.ops[#[trigger] nodes[k]],
            )
}

/// What was rebuilt at a position is the expression there, with the
/// placeholders in place of the kernels.
pub proof fn faithful_is_rearranged(
    out: Arena,
    ops: Seq<Operation<usize>>,
    placeholders: Seq<Option<Variable>>,
    nodes: Seq<Node>,
    kernels: Seq<Expr>,
    names: Seq<Variable>,
    k: int,
)
    requires
        out.well_formed(),
        is_graph(ops),
        graph_exprs(ops).no_duplicates(),
        is_faithful(out, ops, placeholders, nodes),
        are_placeholders(ops, kernels, names, placeholders),
        0 <= k < nodes.len(),
    ensures
        out.has(nodes[k]),
        out.expr(nodes[k]) == rearranged(
            graph_expr(ops, k),
            kernels,
            names,
            swaps(out, ops, nodes),
        ),
    decreases k,
{
    let n = nodes[k];
    let swap = swaps(out, ops, nodes);
    let e = graph_expr(ops, k);
    assert(arguments_below(ops[k], k));
    assert(out.has(n) && stands_for(out, n, at_nodes(ops[k], nodes), placeholders[k]));
    assert(out.comes_after(n, out.ops[n]));
    assert(swap(e) == swapped(at_nodes(ops[k], nodes), out.ops[n])) by {
        if swap(e) {
            let j = choose|j: int|
                0 <= j < nodes.len() && graph_expr(ops, j) == e && swapped(
                    at_nodes(ops[j], nodes),
                    out.ops[#[trigger] nodes[j]],
                );
            assert(graph_exprs(ops)[j] == graph_exprs(ops)[k]);
        }
    }
    match ops[k] {
        Operation::Unary(_, a) => {
            faithful_is_rearranged(out, ops, placeholders, nodes, kernels, names, a as int);
        },
        Operation::Binary(_, a, b) => {
            faithful_is_rearranged(out, ops, placeholders, nodes, kernels, names, a as int);
            faithful_is_rearranged(out, ops, placeholders, nodes, kernels, names, b as int);
        },
        _ => {},
    }
}

/// Once all of an expression has been rebuilt, that is what is left of it.
pub proof fn faithful_is_left(
    out: Arena,
    e: Expr,
    ops: Seq<Operation<usize>>,
    placeholders: Seq<Option<Variable>>,
    nodes: Seq<Node>,
    kernels: Seq<Expr>,
    names: Seq<Variable>,
)
    requires
        out.well_formed(),
        is_graph(ops),
        graph_exprs(ops) == parts(e),
        nodes.len() == ops.len(),
        is_faithful(out, ops, placeholders, nodes),
        are_placeholders(ops, kernels, names, placeholders),
    ensures
        is_left_of(e, kernels, names, swaps(out, ops, nodes), out.expr(nodes.last())),
{
    let swap = swaps(out, ops, nodes);
    parts_are_distinct(e);
    assert(graph_exprs(ops)[ops.len() - 1] == e);
    faithful_is_rearranged(out, ops, placeholders, nodes, kernels, names, ops.len() - 1);
    assert forall|p: Expr, q: Expr| #[trigger]
        parts(e).contains(p) && #[trigger] parts(e).contains(q) && p != q implies rearranged(
        p,
        kernels,
        names,
        swap,
    ) != rearranged(q, kernels, names, swap) by {
        let j = choose|j: int| 0 <= j < parts(e).len() && parts(e)[j] == p;
        let k = choose|k: int| 0 <= k < parts(e).len() && parts(e)[k] == q;
        assert(graph_exprs(ops)[j] == p && graph_exprs(ops)[k] == q);
        faithful_is_rearranged(out, ops, placeholders, nodes, kernels, names, j);
        faithful_is_rearranged(out, ops, placeholders, nodes, kernels, names, k);
        assert(nodes[j] != nodes[k]);
        if out.expr(nodes[j]) == out.expr(nodes[k]) {
            out.expr_is_injective(nodes[j], nodes[k]);
        }
    }
}

} // verus!
