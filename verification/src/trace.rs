//! Reading an expression out of a context.

use crate::context::{arena, get_op, node_map_get, node_map_insert};
use crate::expr::{Arena, Expr, Operation};
use crate::leaves::{arguments_below, collect, graph_expr, graph_exprs, is_graph, parts, Graph};
use fidget_core::context::{Context, Node};
use std::collections::HashMap;
use vstd::prelude::*;

verus! {

/// `op` with its arguments looked up in `nodes`.
pub open spec fn at_nodes(op: Operation<usize>, nodes: Seq<Node>) -> Operation<Node> {
    match op {
        Operation::Input(v) => Operation::Input(v),
        Operation::Const(c) => Operation::Const(c),
        Operation::Unary(op, a) => Operation::Unary(op, nodes[a as int]),
        Operation::Binary(op, a, b) => Operation::Binary(op, nodes[a as int], nodes[b as int]),
    }
}

/// `ops` are the operations of an arena under the handles `nodes`, with
/// positions in `nodes` in place of handles.
pub open spec fn traces(a: Arena, nodes: Seq<Node>, ops: Seq<Operation<usize>>) -> bool {
    &&& ops.len() == nodes.len()
    &&& is_graph(ops)
    &&& forall|i: int|
        0 <= i < nodes.len() ==> a.has(#[trigger] nodes[i]) && a.ops[nodes[i]] == at_nodes(
            ops[i],
            nodes,
        )
}

/// The expressions under the handles.
spec fn exprs_at(a: Arena, nodes: Seq<Node>) -> Seq<Expr> {
    Seq::new(nodes.len(), |i: int| a.expr(nodes[i]))
}

/// `n` is an argument of `op`.
spec fn names(op: Operation<Node>, n: Node) -> bool {
    match op {
        Operation::Unary(_, a) => n == a,
        Operation::Binary(_, a, b) => n == a || n == b,
        _ => false,
    }
}

/// What will be read when the work on the stack `todo` is done, from the top
/// down: an entry is a part to collect, or one whose arguments are collected.
spec fn finish(a: Arena, todo: Seq<(Node, bool)>, done: Seq<Expr>) -> Seq<Expr>
    decreases todo.len(),
{
    if todo.len() == 0 {
        done
    } else {
        let (n, expanded) = todo.last();
        if expanded {
            finish(a, todo.drop_last(), done.push(a.expr(n)))
        } else {
            finish(a, todo.drop_last(), collect(a.expr(n), done))
        }
    }
}

/// The place of a handle: `None` while its arguments are being read.
spec fn placed(place: Map<Node, Option<usize>>, n: Node) -> bool {
    place.contains_key(n) && place[n] is Some
}

/// What holds between the steps of a traversal.
spec fn underway(
    a: Arena,
    todo: Seq<(Node, bool)>,
    place: Map<Node, Option<usize>>,
    nodes: Seq<Node>,
) -> bool {
    &&& forall|i: int| 0 <= i < todo.len() ==> a.has((#[trigger] todo[i]).0)
    // Above an expanded handle, there are only handles that came before it
    &&& forall|i: int, j: int|
        0 <= i < j < todo.len() && (#[trigger] todo[i]).1 ==> a.rank[(#[trigger] todo[j]).0]
            < a.rank[todo[i].0]
    // An expanded handle has no place yet, and its arguments have one, or are
    // still above it
    &&& forall|i: int|
        0 <= i < todo.len() && (#[trigger] todo[i]).1 ==> place.contains_key(todo[i].0)
            && place[todo[i].0] is None
    &&& forall|i: int, c: Node|
        #![trigger todo[i], names(a.ops[todo[i].0], c)]
        0 <= i < todo.len() && todo[i].1 && names(a.ops[todo[i].0], c) ==> placed(place, c)
            || exists|j: int| i < j < todo.len() && (#[trigger] todo[j]).0 == c
    // Every handle that was met is expanded on the stack, or has its place
    &&& forall|n: Node| #[trigger]
        place.contains_key(n) ==> a.has(n) && match place[n] {
            Some(k) => k < nodes.len() && nodes[k as int] == n,
            None => exists|i: int| 0 <= i < todo.len() && #[trigger] todo[i] == (n, true),
        }
    &&& forall|k: int|
        0 <= k < nodes.len() ==> place.contains_key(#[trigger] nodes[k]) && place[nodes[k]] == Some(
            k as usize,
        )
}

/// The positions of a graph spell the expressions under its handles.
pub proof fn trace_spells(a: Arena, nodes: Seq<Node>, ops: Seq<Operation<usize>>, i: int)
    requires
        a.well_formed(),
        traces(a, nodes, ops),
        0 <= i < nodes.len(),
    ensures
        graph_expr(ops, i) == a.expr(nodes[i]),
    decreases i,
{
    assert(arguments_below(ops[i], i));
    assert(a.has(nodes[i]));
    assert(a.comes_after(nodes[i], a.ops[nodes[i]]));
    match ops[i] {
        Operation::Unary(_, c) => {
            trace_spells(a, nodes, ops, c as int);
        },
        Operation::Binary(_, c, d) => {
            trace_spells(a, nodes, ops, c as int);
            trace_spells(a, nodes, ops, d as int);
        },
        _ => {},
    }
}

/// Giving the top of the stack its place.
proof fn place_given(
    a: Arena,
    todo: Seq<(Node, bool)>,
    place: Map<Node, Option<usize>>,
    nodes: Seq<Node>,
)
    requires
        a.well_formed(),
        todo.len() > 0,
        todo.last().1,
        underway(a, todo, place, nodes),
        nodes.len() <= usize::MAX,
    ensures
        underway(
            a,
            todo.drop_last(),
            place.insert(todo.last().0, Some(nodes.len() as usize)),
            nodes.push(todo.last().0),
        ),
        forall|c: Node| #[trigger]
            names(a.ops[todo.last().0], c) ==> placed(place, c),
        !place.contains_key(todo.last().0) || place[todo.last().0] is None,
{
    let (n, _) = todo.last();
    let rest = todo.drop_last();
    let place2 = place.insert(n, Some(nodes.len() as usize));
    let nodes2 = nodes.push(n);
    let top = todo.len() - 1;
    assert(todo[top] == (n, true));
    assert forall|c: Node| #[trigger] names(a.ops[n], c) implies placed(place, c) by {
        assert(names(a.ops[todo[top].0], c));
    }
    assert forall|i: int, c: Node|
        #![trigger rest[i], names(a.ops[rest[i].0], c)]
        0 <= i < rest.len() && rest[i].1 && names(a.ops[rest[i].0], c) implies placed(place2, c)
        || exists|j: int| i < j < rest.len() && (#[trigger] rest[j]).0 == c by {
        assert(rest[i] == todo[i]);
        assert(names(a.ops[todo[i].0], c));
        if !placed(place2, c) {
            assert(!placed(place, c));
            let j = choose|j: int| i < j < todo.len() && (#[trigger] todo[j]).0 == c;
            assert(j != top);
            assert(rest[j].0 == c);
        }
    }
    assert forall|i: int| 0 <= i < rest.len() && (#[trigger] rest[i]).1 implies place2.contains_key(
        rest[i].0,
    ) && place2[rest[i].0] is None by {
        assert(rest[i] == todo[i]);
        assert(a.rank[todo[top].0] < a.rank[todo[i].0]);
    }
    assert forall|i: int, j: int|
        0 <= i < j < rest.len() && (#[trigger] rest[i]).1 implies a.rank[(#[trigger] rest[j]).0]
        < a.rank[rest[i].0] by {
        assert(rest[i] == todo[i] && rest[j] == todo[j]);
    }
    assert forall|m: Node| #[trigger] place2.contains_key(m) implies a.has(m) && match place2[m] {
        Some(k) => k < nodes2.len() && nodes2[k as int] == m,
        None => exists|i: int| 0 <= i < rest.len() && #[trigger] rest[i] == (m, true),
    } by {
        if m != n {
            assert(place.contains_key(m));
            if place[m] is None {
                let i = choose|i: int| 0 <= i < todo.len() && #[trigger] todo[i] == (m, true);
                assert(i != top);
                assert(rest[i] == (m, true));
            }
        } else {
            assert(a.has(todo[top].0));
        }
    }
    assert forall|k: int| 0 <= k < nodes2.len() implies place2.contains_key(#[trigger] nodes2[k])
        && place2[nodes2[k]] == Some(k as usize) by {
        if k < nodes.len() {
            assert(nodes2[k] == nodes[k]);
            assert(place[nodes[k]] is Some);
            assert(place[todo[top].0] is None);
        }
    }
    assert forall|i: int| 0 <= i < rest.len() implies a.has((#[trigger] rest[i]).0) by {
        assert(rest[i] == todo[i]);
    }
}

/// Passing over a handle that was met before: it has its place.
proof fn passed_over(
    a: Arena,
    todo: Seq<(Node, bool)>,
    place: Map<Node, Option<usize>>,
    nodes: Seq<Node>,
)
    requires
        a.well_formed(),
        todo.len() > 0,
        !todo.last().1,
        underway(a, todo, place, nodes),
        place.contains_key(todo.last().0),
    ensures
        underway(a, todo.drop_last(), place, nodes),
        exprs_at(a, nodes).contains(a.expr(todo.last().0)),
{
    let (n, _) = todo.last();
    let rest = todo.drop_last();
    let top = todo.len() - 1;
    assert(todo[top] == (n, false));
    if place[n] is None {
        let i = choose|i: int| 0 <= i < todo.len() && #[trigger] todo[i] == (n, true);
        assert(i < top);
        assert(a.rank[todo[top].0] < a.rank[todo[i].0]);
    }
    let k = place[n]->0;
    assert(exprs_at(a, nodes)[k as int] == a.expr(n));
    assert forall|i: int, c: Node|
        #![trigger rest[i], names(a.ops[rest[i].0], c)]
        0 <= i < rest.len() && rest[i].1 && names(a.ops[rest[i].0], c) implies placed(place, c)
        || exists|j: int| i < j < rest.len() && (#[trigger] rest[j]).0 == c by {
        assert(rest[i] == todo[i]);
        assert(names(a.ops[todo[i].0], c));
        if !placed(place, c) {
            let j = choose|j: int| i < j < todo.len() && (#[trigger] todo[j]).0 == c;
            assert(j != top);
            assert(rest[j].0 == c);
        }
    }
    assert forall|i: int| 0 <= i < rest.len() && (#[trigger] rest[i]).1 implies place.contains_key(
        rest[i].0,
    ) && place[rest[i].0] is None by {
        assert(rest[i] == todo[i]);
    }
    assert forall|i: int, j: int|
        0 <= i < j < rest.len() && (#[trigger] rest[i]).1 implies a.rank[(#[trigger] rest[j]).0]
        < a.rank[rest[i].0] by {
        assert(rest[i] == todo[i] && rest[j] == todo[j]);
    }
    assert forall|m: Node| #[trigger] place.contains_key(m) implies a.has(m) && match place[m] {
        Some(k) => k < nodes.len() && nodes[k as int] == m,
        None => exists|i: int| 0 <= i < rest.len() && #[trigger] rest[i] == (m, true),
    } by {
        if place[m] is None {
            let i = choose|i: int| 0 <= i < todo.len() && #[trigger] todo[i] == (m, true);
            assert(i != top);
            assert(rest[i] == (m, true));
        }
    }
    assert forall|i: int| 0 <= i < rest.len() implies a.has((#[trigger] rest[i]).0) by {
        assert(rest[i] == todo[i]);
    }
}

/// The stack with the entry on top expanded: its arguments above it, the first
/// one on top.
spec fn expanded(a: Arena, rest: Seq<(Node, bool)>, n: Node) -> Seq<(Node, bool)> {
    match a.ops[n] {
        Operation::Unary(_, c) => rest.push((n, true)).push((c, false)),
        Operation::Binary(_, c, d) => rest.push((n, true)).push((d, false)).push((c, false)),
        _ => rest.push((n, true)),
    }
}

/// Expanding a handle that is met for the first time.
proof fn expansion(
    a: Arena,
    todo: Seq<(Node, bool)>,
    place: Map<Node, Option<usize>>,
    nodes: Seq<Node>,
)
    requires
        a.well_formed(),
        todo.len() > 0,
        !todo.last().1,
        underway(a, todo, place, nodes),
        !place.contains_key(todo.last().0),
    ensures
        underway(
            a,
            expanded(a, todo.drop_last(), todo.last().0),
            place.insert(todo.last().0, None),
            nodes,
        ),
        finish(a, expanded(a, todo.drop_last(), todo.last().0), exprs_at(a, nodes)) == finish(
            a,
            todo,
            exprs_at(a, nodes),
        ),
{
    let (n, _) = todo.last();
    let rest = todo.drop_last();
    let todo2 = expanded(a, rest, n);
    let place2 = place.insert(n, None);
    let top = todo.len() - 1;
    assert(todo[top] == (n, false));
    assert(a.has(n));
    assert(a.comes_after(n, a.ops[n]));
    assert(todo2[top] == (n, true));
    assert forall|i: int| 0 <= i < top implies #[trigger] todo2[i] == todo[i] by {}
    assert forall|i: int| top < i < todo2.len() implies !(#[trigger] todo2[i]).1 && names(
        a.ops[n],
        todo2[i].0,
    ) by {}
    assert forall|i: int| 0 <= i < todo2.len() implies a.has((#[trigger] todo2[i]).0) by {}
    assert forall|i: int, j: int|
        0 <= i < j < todo2.len() && (#[trigger] todo2[i]).1 implies a.rank[(#[trigger] todo2[j]).0]
        < a.rank[todo2[i].0] by {
        if i < top {
            assert(todo[i] == todo2[i]);
            assert(a.rank[todo[top].0] < a.rank[todo[i].0]);
            if j < top {
                assert(todo[j] == todo2[j]);
            }
        }
    }
    assert forall|i: int, c: Node|
        #![trigger todo2[i], names(a.ops[todo2[i].0], c)]
        0 <= i < todo2.len() && todo2[i].1 && names(a.ops[todo2[i].0], c) implies placed(place2, c)
        || exists|j: int| i < j < todo2.len() && (#[trigger] todo2[j]).0 == c by {
        if i < top {
            assert(todo[i] == todo2[i]);
            assert(names(a.ops[todo[i].0], c));
            if placed(place, c) {
                assert(placed(place2, c));
            } else {
                let j = choose|j: int| i < j < todo.len() && (#[trigger] todo[j]).0 == c;
                assert(todo2[j].0 == c);
            }
        } else {
            match a.ops[n] {
                Operation::Unary(_, p) => {
                    assert(todo2[top + 1].0 == p);
                },
                Operation::Binary(_, p, q) => {
                    assert(todo2[top + 1].0 == q);
                    assert(todo2[top + 2].0 == p);
                },
                _ => {},
            }
        }
    }
    assert forall|i: int| 0 <= i < todo2.len() && (#[trigger] todo2[i]).1 implies place2.contains_key(
        todo2[i].0,
    ) && place2[todo2[i].0] is None by {
        if i < top {
            assert(todo[i] == todo2[i]);
        }
    }
    assert forall|m: Node| #[trigger] place2.contains_key(m) implies a.has(m) && match place2[m] {
        Some(k) => k < nodes.len() && nodes[k as int] == m,
        None => exists|i: int| 0 <= i < todo2.len() && #[trigger] todo2[i] == (m, true),
    } by {
        if m != n {
            assert(place.contains_key(m));
            if place[m] is None {
                let i = choose|i: int| 0 <= i < todo.len() && #[trigger] todo[i] == (m, true);
                assert(i != top);
                assert(todo2[i] == (m, true));
            }
        }
    }
    assert forall|k: int| 0 <= k < nodes.len() implies place2.contains_key(#[trigger] nodes[k])
        && place2[nodes[k]] == Some(k as usize) by {
        assert(place.contains_key(nodes[k]));
    }
    // The parts of `n` are collected next
    let done = exprs_at(a, nodes);
    let e = a.expr(n);
    assert(!done.contains(e)) by {
        if done.contains(e) {
            let k = choose|k: int| 0 <= k < done.len() && done[k] == e;
            assert(place.contains_key(nodes[k]));
            a.expr_is_injective(nodes[k], n);
        }
    }
    match a.ops[n] {
        Operation::Unary(_, c) => {
            let mid = rest.push((n, true));
            assert(todo2.drop_last() == mid);
            assert(mid.drop_last() == rest);
            let done1 = collect(a.expr(c), done);
            assert(finish(a, todo2, done) == finish(a, mid, done1));
            assert(finish(a, mid, done1) == finish(a, rest, done1.push(e)));
        },
        Operation::Binary(_, c, d) => {
            let mid = rest.push((n, true));
            let mid2 = mid.push((d, false));
            assert(todo2.drop_last() == mid2);
            assert(mid2.drop_last() == mid);
            assert(mid.drop_last() == rest);
            let done1 = collect(a.expr(c), done);
            let done2 = collect(a.expr(d), done1);
            assert(finish(a, todo2, done) == finish(a, mid2, done1));
            assert(finish(a, mid2, done1) == finish(a, mid, done2));
            assert(finish(a, mid, done2) == finish(a, rest, done2.push(e)));
        },
        _ => {
            assert(todo2.drop_last() == rest);
        },
    }
}

/// The handle `c` is at the position that its place says.
fn position(place: &HashMap<Node, Option<usize>>, c: Node) -> (k: usize)
    requires
        placed(place@, c),
    ensures
        place@[c] == Some(k),
{
    match node_map_get(place, c) {
        Some(Some(k)) => k,
        _ => 0,
    }
}

/// Puts positions in place of the handles of an operation.
fn relocate(op: Operation<Node>, place: &HashMap<Node, Option<usize>>, Ghost(nodes): Ghost<Seq<Node>>) -> (moved:
    Operation<usize>)
    requires
        forall|c: Node| #[trigger] names(op, c) ==> placed(place@, c),
        forall|c: Node| #[trigger]
            place@.contains_key(c) ==> (place@[c] matches Some(k) ==> k < nodes.len()
                && nodes[k as int] == c),
    ensures
        at_nodes(moved, nodes) == op,
        arguments_below(moved, nodes.len() as int),
{
    match op {
        Operation::Input(v) => Operation::Input(v),
        Operation::Const(c) => Operation::Const(c),
        Operation::Unary(o, c) => {
            assert(names(op, c));
            Operation::Unary(o, position(place, c))
        },
        Operation::Binary(o, c, d) => {
            assert(names(op, c) && names(op, d));
            Operation::Binary(o, position(place, c), position(place, d))
        },
    }
}

/// One more handle, and its operation.
proof fn trace_grows(
    a: Arena,
    nodes: Seq<Node>,
    ops: Seq<Operation<usize>>,
    n: Node,
    op: Operation<usize>,
)
    requires
        traces(a, nodes, ops),
        a.has(n),
        a.ops[n] == at_nodes(op, nodes),
        arguments_below(op, nodes.len() as int),
    ensures
        traces(a, nodes.push(n), ops.push(op)),
{
    let nodes2 = nodes.push(n);
    let ops2 = ops.push(op);
    assert forall|i: int| 0 <= i < ops2.len() implies arguments_below(#[trigger] ops2[i], i) by {
        if i < ops.len() {
            assert(arguments_below(ops[i], i));
        }
    }
    assert forall|i: int| 0 <= i < nodes2.len() implies a.has(#[trigger] nodes2[i])
        && a.ops[nodes2[i]] == at_nodes(ops2[i], nodes2) by {
        assert(arguments_below(ops2[i], i));
        if i < nodes.len() {
            assert(nodes2[i] == nodes[i]);
        }
    }
}

/// Before the first step, there is the whole expression to collect.
proof fn started(a: Arena, root: Node)
    requires
        a.has(root),
    ensures
        underway(a, seq![(root, false)], Map::empty(), Seq::empty()),
        finish(a, seq![(root, false)], exprs_at(a, Seq::empty())) == parts(a.expr(root)),
{
    let todo = seq![(root, false)];
    assert(todo.drop_last() == Seq::<(Node, bool)>::empty());
    assert(exprs_at(a, Seq::empty()) == Seq::<Expr>::empty());
    assert(finish(a, Seq::empty(), parts(a.expr(root))) == parts(a.expr(root)));
}

/// The graph holds the expressions under the handles.
proof fn trace_is_read(a: Arena, nodes: Seq<Node>, ops: Seq<Operation<usize>>)
    requires
        a.well_formed(),
        traces(a, nodes, ops),
    ensures
        graph_exprs(ops) == exprs_at(a, nodes),
{
    assert forall|i: int| 0 <= i < nodes.len() implies graph_exprs(ops)[i] == exprs_at(
        a,
        nodes,
    )[i] by {
        trace_spells(a, nodes, ops, i);
    }
}

/// Reads the expression under a handle: the handles of its parts, each after
/// its arguments, and the graph that they form.
pub(crate) fn trace(ctx: &Context, root: Node) -> (traced: (Vec<Node>, Graph))
    requires
        arena(*ctx).well_formed(),
        arena(*ctx).has(root),
    ensures
        traces(arena(*ctx), traced.0@, traced.1.ops@),
        traced.1@ == parts(arena(*ctx).expr(root)),
{
    let ghost a = arena(*ctx);
    let mut nodes: Vec<Node> = Vec::new();
    let mut ops: Vec<Operation<usize>> = Vec::new();
    let mut place: HashMap<Node, Option<usize>> = HashMap::new();
    let mut todo: Vec<(Node, bool)> = Vec::new();
    // Post-order traversal (iterative, since expressions may be deep)
    todo.push((root, false));
    proof {
        started(a, root);
        assert(todo@ =~= seq![(root, false)]);
        assert(place@ =~= Map::<Node, Option<usize>>::empty());
        assert(nodes@ =~= Seq::<Node>::empty());
    }
    while todo.len() > 0
        invariant
            a == arena(*ctx),
            a.well_formed(),
            underway(a, todo@, place@, nodes@),
            traces(a, nodes@, ops@),
            finish(a, todo@, exprs_at(a, nodes@)) == parts(a.expr(root)),
        ensures
            todo@.len() == 0,
        decreases a.ops.dom().difference(place@.dom()).len(), todo@.len(),
    {
        let ghost todo0 = todo@;
        let ghost place0 = place@;
        let ghost nodes0 = nodes@;
        let ghost done0 = exprs_at(a, nodes@);
        let (n, ready) = match todo.pop() {
            Some(entry) => entry,
            None => break,
        };
        assert(todo@ == todo0.drop_last());
        assert(todo0[todo0.len() - 1] == (n, ready));
        let op = match get_op(ctx, n) {
            Some(op) => op,
            None => break,
        };
        if ready {
            let here: usize = nodes.len();
            proof {
                place_given(a, todo0, place0, nodes0);
            }
            let moved = relocate(op, &place, Ghost(nodes0));
            proof {
                trace_grows(a, nodes@, ops@, n, moved);
            }
            node_map_insert(&mut place, n, Some(here));
            nodes.push(n);
            ops.push(moved);
            proof {
                assert(exprs_at(a, nodes@) == done0.push(a.expr(n)));
                assert(place0.contains_key(todo0[todo0.len() - 1].0));
                assert(place@.dom() == place0.dom());
            }
            continue;
        }
        if node_map_get(&place, n).is_some() {
            proof {
                passed_over(a, todo0, place0, nodes0);
            }
            continue;
        }
        proof {
            expansion(a, todo0, place0, nodes0);
        }
        node_map_insert(&mut place, n, None);
        todo.push((n, true));
        match op {
            Operation::Binary(_, c, d) => {
                todo.push((d, false));
                todo.push((c, false));
            },
            Operation::Unary(_, c) => todo.push((c, false)),
            _ => {},
        }
        proof {
            let unmet = a.ops.dom().difference(place0.dom());
            assert(a.ops.dom().difference(place@.dom()) == unmet.remove(n));
            assert(unmet.contains(n));
            assert(unmet.finite());
        }
    }
    proof {
        trace_is_read(a, nodes@, ops@);
    }
    (nodes, Graph { ops })
}

} // verus!
