//! Sets of kernels, and splitting a tree into kernels and the rest.

use crate::context::{
    arena, context_export, context_import, context_new, imported_variable, imports_as, reads_back,
    tree_expr, tree_of_variable,
};
use crate::error::Variable;
use crate::expr::{Arena, Expr, Operation};
use crate::faithful::{
    are_placeholders, faithful_is_left, is_canonical, is_faithful, operation_is_faithful,
    placeholder_is_faithful, starts_faithful, traces_are_canonical, variable_is_imported,
};
use crate::leaves::{
    arguments_below, filter_keeps_distinct, filter_position, filter_step, graph_expr, graph_exprs,
    is_graph, is_leaf, leaf_test, leaves, occurs, parts, parts_are_distinct, variables_occur,
};
use crate::opcode::BinaryOp;
use crate::outside::{is_shape_of, new_variable, shape_of_tree, shows_variables, tape_runs};
use crate::rebuild::{built, building_is_well_formed, rebuild_node};
use crate::split::{
    choices_stay_outside, count_ops, fresh, is_left_of, order_is_free, order_keeps_value,
    order_stays_free, replaced, splitting_is_exact, value, Valuation,
};
use crate::trace::{at_nodes, trace, trace_spells, traces};
use fidget_core::context::{Context, Node, Tree};
use fidget_core::vm::VmShape;
use vstd::prelude::*;

verus! {

/// A set of compiled kernels.
#[derive(Clone)]
pub struct Kernels {
    kernels: Vec<(Variable, Tree)>,
}

impl View for Kernels {
    type V = Seq<(Variable, Tree)>;

    closed spec fn view(&self) -> Seq<(Variable, Tree)> {
        self.kernels@
    }
}

/// The placeholders of kernels.
pub open spec fn placeholders_of(kernels: Seq<(Variable, Tree)>) -> Seq<Variable> {
    Seq::new(kernels.len(), |j: int| kernels[j].0)
}

/// Every variable of `d` is one of `e`, or one of `names`.
pub open spec fn draws_on(d: Expr, e: Expr, names: Seq<Variable>) -> bool {
    forall|v: Variable| #[trigger] occurs(d, v) ==> occurs(e, v) || names.contains(v)
}

/// The operation of a part, with its arguments looked up among the handles of all
/// parts.
pub open spec fn operation_of(all: Seq<Expr>, p: Expr, nodes: Seq<Node>) -> Operation<Node> {
    match p {
        Expr::Input(v) => Operation::Input(v),
        Expr::Const(c) => Operation::Const(c),
        Expr::Unary(op, a) => Operation::Unary(op, nodes[all.index_of(*a)]),
        Expr::Binary(op, a, b) => Operation::Binary(
            op,
            nodes[all.index_of(*a)],
            nodes[all.index_of(*b)],
        ),
    }
}

/// From one arena to the next, the part `i` is put under its handle: a kernel as
/// its placeholder, which is imported, and any other part as its operation, which
/// is built.
pub open spec fn is_step(
    e: Expr,
    kernels: Seq<Expr>,
    names: Seq<Variable>,
    arenas: Seq<Arena>,
    nodes: Seq<Node>,
    i: int,
) -> bool {
    let p = parts(e)[i];
    if kernels.contains(p) {
        imported_variable(arenas[i], arenas[i + 1], names[kernels.index_of(p)], nodes[i])
    } else {
        built(arenas[i], arenas[i + 1], operation_of(parts(e), p, nodes), nodes[i])
    }
}

/// Starting from nothing, the parts of `e` are put under the handles `nodes`, one
/// after the other, and `outer` is the last of them.
pub open spec fn is_rebuilt(
    e: Expr,
    kernels: Seq<Expr>,
    names: Seq<Variable>,
    arenas: Seq<Arena>,
    nodes: Seq<Node>,
    outer: Expr,
) -> bool {
    &&& nodes.len() == parts(e).len()
    &&& arenas.len() == parts(e).len() + 1
    &&& arenas[0] == Arena::empty()
    &&& forall|i: int| 0 <= i < nodes.len() ==> #[trigger] is_step(
        e,
        kernels,
        names,
        arenas,
        nodes,
        i,
    )
    &&& outer == arenas.last().expr(nodes.last())
}

/// Splitting the expression `e` adds the kernels `added` and leaves `outer`: the
/// kernels are its leaves, in order, under free variables.  What is left is built
/// part by part, with the placeholders in the place of the leaves, and has no other
/// variables than `e` and the placeholders.  If those are new, the other parts are
/// there as they were.
pub open spec fn is_split(
    added: Seq<(Variable, Tree)>,
    outer: Tree,
    e: Expr,
    min_ops: nat,
) -> bool {
    let kernels = leaves(e, min_ops);
    let names = placeholders_of(added);
    &&& added.len() == kernels.len()
    &&& forall|j: int|
        0 <= j < added.len() ==> (#[trigger] added[j]).0 is V && tree_expr(added[j].1)
            == kernels[j] && reads_back(added[j].1)
    &&& reads_back(outer)
    &&& exists|arenas: Seq<Arena>, nodes: Seq<Node>| #[trigger]
        is_rebuilt(e, kernels, names, arenas, nodes, tree_expr(outer))
    &&& draws_on(tree_expr(outer), e, names)
    &&& fresh(e, names) ==> exists|swap: spec_fn(Expr) -> bool| #[trigger]
        is_left_of(e, kernels, names, swap, tree_expr(outer))
}

/// Splitting a tree is exact: with every placeholder at the value of its kernel,
/// the tree that is left has the value of the expression that was split, also
/// once it is imported again.  This holds as long as the order of arguments makes
/// no difference where sums, products, minima and maxima are evaluated.
pub proof fn compile_leaves_is_exact<V>(
    val: Valuation<V>,
    added: Seq<(Variable, Tree)>,
    outer: Tree,
    e: Expr,
    min_ops: nat,
)
    requires
        is_split(added, outer, e, min_ops),
        fresh(e, placeholders_of(added)),
        order_is_free(val, replaced(e, leaves(e, min_ops), placeholders_of(added))),
        forall|j: int|
            0 <= j < added.len() ==> (val.input)((#[trigger] added[j]).0) == value(
                val,
                tree_expr(added[j].1),
            ),
    ensures
        value(val, tree_expr(outer)) == value(val, e),
        forall|d: Expr| #[trigger] imports_as(outer, d) ==> value(val, d) == value(val, e),
{
    let names = placeholders_of(added);
    let kernels = leaves(e, min_ops);
    assert forall|j: int| 0 <= j < names.len() implies (val.input)(#[trigger] names[j]) == value(
        val,
        leaves(e, min_ops)[j],
    ) by {
        assert(names[j] == added[j].0);
    }
    let swap = choose|swap: spec_fn(Expr) -> bool| #[trigger]
        is_left_of(e, kernels, names, swap, tree_expr(outer));
    splitting_is_exact(val, e, min_ops, names, swap);
    order_stays_free(val, e, kernels, names, swap);
    assert forall|d: Expr| #[trigger] imports_as(outer, d) implies value(val, d) == value(
        val,
        e,
    ) by {
        order_keeps_value(val, d, tree_expr(outer));
    }
}

/// The same with the kernels imported as well: with every placeholder at the value
/// of what its kernel is imported as, whatever is left is imported as has the
/// value of the expression that was split.
pub proof fn imported_trees_are_exact<V>(
    val: Valuation<V>,
    added: Seq<(Variable, Tree)>,
    outer: Tree,
    e: Expr,
    min_ops: nat,
    kernels: Seq<Expr>,
    left: Expr,
)
    requires
        is_split(added, outer, e, min_ops),
        fresh(e, placeholders_of(added)),
        imports_as(outer, left),
        kernels.len() == added.len(),
        forall|j: int|
            0 <= j < added.len() ==> {
                &&& imports_as((#[trigger] added[j]).1, kernels[j])
                &&& (val.input)(added[j].0) == value(val, kernels[j])
                &&& order_is_free(val, tree_expr(added[j].1))
            },
        order_is_free(val, replaced(e, leaves(e, min_ops), placeholders_of(added))),
    ensures
        value(val, left) == value(val, e),
{
    assert forall|j: int| 0 <= j < added.len() implies (val.input)((#[trigger] added[j]).0)
        == value(val, tree_expr(added[j].1)) by {
        assert(reads_back(added[j].1));
        order_keeps_value(val, kernels[j], tree_expr(added[j].1));
    }
    compile_leaves_is_exact(val, added, outer, e, min_ops);
}

/// The structure of choices stays in the tree that is left: it has as many distinct
/// minima, maxima, conjunctions and disjunctions, of each kind, as the expression
/// that was split, and the kernels have none.
pub proof fn compile_leaves_keeps_choices(
    added: Seq<(Variable, Tree)>,
    outer: Tree,
    e: Expr,
    min_ops: nat,
    op: BinaryOp,
)
    requires
        is_split(added, outer, e, min_ops),
        fresh(e, placeholders_of(added)),
        op.choice(),
    ensures
        count_ops(tree_expr(outer), op) == count_ops(e, op),
        forall|j: int|
            0 <= j < added.len() ==> count_ops(tree_expr((#[trigger] added[j]).1), op) == 0,
{
    let kernels = leaves(e, min_ops);
    let names = placeholders_of(added);
    let swap = choose|swap: spec_fn(Expr) -> bool| #[trigger]
        is_left_of(e, kernels, names, swap, tree_expr(outer));
    choices_stay_outside(e, min_ops, names, swap, tree_expr(outer), op);
    assert forall|j: int| 0 <= j < added.len() implies count_ops(
        tree_expr((#[trigger] added[j]).1),
        op,
    ) == 0 by {
        assert(tree_expr(added[j].1) == kernels[j]);
    }
}

/// The first `i` parts of `e` have been gone through: `added` are the kernels
/// so far, and `placeholders` are those of the parts, where they have one.
spec fn is_split_up_to(
    e: Expr,
    min_ops: nat,
    i: int,
    added: Seq<(Variable, Tree)>,
    placeholders: Seq<Option<Variable>>,
) -> bool {
    let all = parts(e);
    let test = leaf_test(e, min_ops);
    let kernels = all.take(i).filter(test);
    &&& 0 <= i <= all.len()
    &&& added.len() == kernels.len()
    &&& forall|j: int|
        0 <= j < added.len() ==> (#[trigger] added[j]).0 is V && tree_expr(added[j].1)
            == kernels[j] && reads_back(added[j].1)
    &&& placeholders.len() == i
    &&& forall|k: int|
        0 <= k < i ==> #[trigger] placeholders[k] == (if test(all[k]) {
            Some(added[all.take(k).filter(test).len() as int].0)
        } else {
            None
        })
}

/// Where placeholders are new, what they name does not occur elsewhere.
proof fn placeholders_are_new(
    e: Expr,
    min_ops: nat,
    i: int,
    added: Seq<(Variable, Tree)>,
    placeholders: Seq<Option<Variable>>,
    v: Variable,
)
    requires
        is_split_up_to(e, min_ops, i, added, placeholders),
        placeholders.contains(Some(v)),
    ensures
        placeholders_of(added).contains(v),
{
    let all = parts(e);
    let test = leaf_test(e, min_ops);
    let k = choose|k: int| 0 <= k < placeholders.len() && placeholders[k] == Some(v);
    let shown = all.take(i);
    assert(shown[k] == all[k]);
    filter_position(shown, test, k);
    assert(shown.take(k) == all.take(k));
    let j = all.take(k).filter(test).len() as int;
    assert(placeholders_of(added)[j] == v);
}

/// A part that becomes a kernel has been gone through.
proof fn split_grows(
    e: Expr,
    min_ops: nat,
    i: int,
    added: Seq<(Variable, Tree)>,
    placeholders: Seq<Option<Variable>>,
    v: Variable,
    tree: Tree,
)
    requires
        is_split_up_to(e, min_ops, i, added, placeholders),
        i < parts(e).len(),
        leaf_test(e, min_ops)(parts(e)[i]),
        v is V,
        tree_expr(tree) == parts(e)[i],
        reads_back(tree),
    ensures
        is_split_up_to(e, min_ops, i + 1, added.push((v, tree)), placeholders.push(Some(v))),
        placeholders_of(added.push((v, tree))) == placeholders_of(added).push(v),
{
    let all = parts(e);
    let test = leaf_test(e, min_ops);
    let grown = added.push((v, tree));
    filter_step(all, test, i);
    assert forall|k: int| 0 <= k < i + 1 implies #[trigger] placeholders.push(Some(v))[k] == (
    if test(all[k]) {
        Some(grown[all.take(k).filter(test).len() as int].0)
    } else {
        None
    }) by {
        if k < i {
            assert(placeholders[k] == placeholders.push(Some(v))[k]);
            if test(all[k]) {
                let shown = all.take(i);
                filter_position(shown, test, k);
                assert(shown.take(k) == all.take(k));
            }
        }
    }
}

/// All parts have been gone through.
proof fn split_is_complete(
    e: Expr,
    min_ops: nat,
    ops: Seq<Operation<usize>>,
    added: Seq<(Variable, Tree)>,
    placeholders: Seq<Option<Variable>>,
)
    requires
        is_split_up_to(e, min_ops, parts(e).len() as int, added, placeholders),
        graph_exprs(ops) == parts(e),
    ensures
        added.len() == leaves(e, min_ops).len(),
        forall|j: int|
            0 <= j < added.len() ==> (#[trigger] added[j]).0 is V && tree_expr(added[j].1)
                == leaves(e, min_ops)[j] && reads_back(added[j].1),
        are_placeholders(ops, leaves(e, min_ops), placeholders_of(added), placeholders),
{
    let all = parts(e);
    let test = leaf_test(e, min_ops);
    let kernels = leaves(e, min_ops);
    assert(all.take(all.len() as int) == all);
    parts_are_distinct(e);
    filter_keeps_distinct(all, test);
    assert forall|k: int| 0 <= k < placeholders.len() implies #[trigger] placeholders[k] == (
    if kernels.contains(graph_expr(ops, k)) {
        Some(placeholders_of(added)[kernels.index_of(graph_expr(ops, k))])
    } else {
        None
    }) by {
        assert(graph_exprs(ops)[k] == graph_expr(ops, k));
        assert(all.contains(all[k]));
        if test(all[k]) {
            filter_position(all, test, k);
            let j = all.take(k).filter(test).len() as int;
            assert(kernels[j] == all[k]);
            assert(kernels[kernels.index_of(all[k])] == all[k]);
            assert(kernels.index_of(all[k]) == j);
        }
    }
}

/// Importing a placeholder that is new is faithful.
proof fn placeholder_keeps_faith(
    before: Arena,
    after: Arena,
    e: Expr,
    min_ops: nat,
    ops: Seq<Operation<usize>>,
    added: Seq<(Variable, Tree)>,
    placeholders: Seq<Option<Variable>>,
    nodes: Seq<Node>,
    v: Variable,
    r: Node,
)
    requires
        is_canonical(ops),
        graph_exprs(ops) == parts(e),
        before.well_formed(),
        is_split_up_to(e, min_ops, nodes.len() as int, added, placeholders),
        nodes.len() < ops.len(),
        imported_variable(before, after, v, r),
        fresh(e, placeholders_of(added)) ==> is_faithful(before, ops, placeholders, nodes),
    ensures
        fresh(e, placeholders_of(added).push(v)) ==> is_faithful(
            after,
            ops,
            placeholders.push(Some(v)),
            nodes.push(r),
        ),
{
    let names = placeholders_of(added);
    if fresh(e, names.push(v)) {
        assert forall|j: int| 0 <= j < names.len() implies !occurs(e, #[trigger] names[j])
            && names[j] != v by {
            assert(names.push(v)[j] == names[j]);
            assert(names.push(v)[names.len() as int] == v);
        }
        assert(names.no_duplicates()) by {
            assert forall|i: int, j: int|
                0 <= i < names.len() && 0 <= j < names.len() && i != j implies names[i]
                != names[j] by {
                assert(names.push(v)[i] == names[i] && names.push(v)[j] == names[j]);
            }
        }
        assert(!occurs(e, v)) by {
            assert(names.push(v)[names.len() as int] == v);
        }
        assert(!placeholders.contains(Some(v))) by {
            if placeholders.contains(Some(v)) {
                placeholders_are_new(e, min_ops, nodes.len() as int, added, placeholders, v);
            }
        }
        assert forall|k: int| 0 <= k < ops.len() implies #[trigger] ops[k] != Operation::<
            usize,
        >::Input(v) by {
            if ops[k] == Operation::<usize>::Input(v) {
                assert(graph_exprs(ops)[k] == Expr::Input(v));
                variables_occur(e, v);
            }
        }
        placeholder_is_faithful(before, after, ops, placeholders, nodes, v, r);
    }
}

/// Rebuilding an operation beside new placeholders is faithful.
proof fn operation_keeps_faith(
    before: Arena,
    after: Arena,
    e: Expr,
    min_ops: nat,
    ops: Seq<Operation<usize>>,
    added: Seq<(Variable, Tree)>,
    placeholders: Seq<Option<Variable>>,
    nodes: Seq<Node>,
    r: Node,
)
    requires
        is_canonical(ops),
        graph_exprs(ops) == parts(e),
        before.well_formed(),
        is_split_up_to(e, min_ops, nodes.len() as int, added, placeholders),
        nodes.len() < ops.len(),
        built(before, after, at_nodes(ops[nodes.len() as int], nodes), r),
        fresh(e, placeholders_of(added)) ==> is_faithful(before, ops, placeholders, nodes),
    ensures
        fresh(e, placeholders_of(added)) ==> is_faithful(
            after,
            ops,
            placeholders.push(None),
            nodes.push(r),
        ),
{
    let names = placeholders_of(added);
    let i = nodes.len() as int;
    if fresh(e, names) {
        if let Operation::Input(v) = ops[i] {
            if placeholders.contains(Some(v)) {
                placeholders_are_new(e, min_ops, i, added, placeholders, v);
                assert(graph_exprs(ops)[i] == Expr::Input(v));
                variables_occur(e, v);
                let j = choose|j: int| 0 <= j < names.len() && names[j] == v;
                assert(!occurs(e, names[j]));
            }
        }
        operation_is_faithful(before, after, ops, placeholders, nodes, r);
    }
}

/// Every variable of what was rebuilt is one of `e`, or one of `names`.
spec fn all_draw_on(out: Arena, nodes: Seq<Node>, e: Expr, names: Seq<Variable>) -> bool {
    forall|k: int| 0 <= k < nodes.len() ==> draws_on(out.expr(#[trigger] nodes[k]), e, names)
}

/// A placeholder has been imported.
proof fn placeholder_draws_on_itself(
    before: Arena,
    after: Arena,
    nodes: Seq<Node>,
    e: Expr,
    names: Seq<Variable>,
    v: Variable,
    r: Node,
)
    requires
        before.well_formed(),
        after.extends(before),
        forall|k: int| 0 <= k < nodes.len() ==> before.has(#[trigger] nodes[k]),
        all_draw_on(before, nodes, e, names),
        imported_variable(before, after, v, r),
    ensures
        all_draw_on(after, nodes.push(r), e, names.push(v)),
{
    let grown = names.push(v);
    assert(grown[names.len() as int] == v);
    assert(after.expr(r) == Expr::Input(v)) by {
        variable_is_imported(before, after, v, r);
    }
    assert forall|k: int| 0 <= k < nodes.push(r).len() implies draws_on(
        after.expr(#[trigger] nodes.push(r)[k]),
        e,
        grown,
    ) by {
        if k < nodes.len() {
            before.extension_keeps_expr(after, nodes[k]);
            assert(draws_on(before.expr(nodes[k]), e, names));
            assert forall|w: Variable| names.contains(w) implies grown.contains(w) by {
                let j = choose|j: int| 0 <= j < names.len() && names[j] == w;
                assert(grown[j] == w);
            }
        }
    }
}

/// An operation has been rebuilt.
proof fn operation_draws_on_its_arguments(
    before: Arena,
    after: Arena,
    nodes: Seq<Node>,
    e: Expr,
    op: Operation<usize>,
    names: Seq<Variable>,
    r: Node,
)
    requires
        before.well_formed(),
        forall|k: int| 0 <= k < nodes.len() ==> before.has(#[trigger] nodes[k]),
        all_draw_on(before, nodes, e, names),
        arguments_below(op, nodes.len() as int),
        built(before, after, at_nodes(op, nodes), r),
        op matches Operation::Input(v) ==> occurs(e, v),
    ensures
        all_draw_on(after, nodes.push(r), e, names),
{
    building_is_well_formed(before, after, at_nodes(op, nodes), r);
    assert forall|k: int| 0 <= k < nodes.push(r).len() implies draws_on(
        after.expr(#[trigger] nodes.push(r)[k]),
        e,
        names,
    ) by {
        if k < nodes.len() {
            before.extension_keeps_expr(after, nodes[k]);
            assert(draws_on(before.expr(nodes[k]), e, names));
        } else {
            match op {
                Operation::Unary(_, a) => {
                    assert(draws_on(before.expr(nodes[a as int]), e, names));
                },
                Operation::Binary(_, a, b) => {
                    assert(draws_on(before.expr(nodes[a as int]), e, names));
                    assert(draws_on(before.expr(nodes[b as int]), e, names));
                },
                _ => {},
            }
        }
    }
}

/// The first parts of `e` have been rebuilt under the handles `nodes`, with
/// placeholders in the place of the kernels `added`.
#[verifier::opaque]
spec fn is_under_way(
    out: Arena,
    e: Expr,
    min_ops: nat,
    ops: Seq<Operation<usize>>,
    added: Seq<(Variable, Tree)>,
    placeholders: Seq<Option<Variable>>,
    nodes: Seq<Node>,
) -> bool {
    &&& out.well_formed()
    &&& forall|k: int| 0 <= k < nodes.len() ==> out.has(#[trigger] nodes[k])
    &&& is_split_up_to(e, min_ops, nodes.len() as int, added, placeholders)
    &&& all_draw_on(out, nodes, e, placeholders_of(added))
    &&& fresh(e, placeholders_of(added)) ==> is_faithful(out, ops, placeholders, nodes)
}

/// Nothing has been rebuilt yet.
proof fn nothing_is_under_way(e: Expr, min_ops: nat, ops: Seq<Operation<usize>>)
    ensures
        is_under_way(
            Arena::empty(),
            e,
            min_ops,
            ops,
            Seq::empty(),
            Seq::empty(),
            Seq::empty(),
        ),
{
    reveal(is_under_way);
    starts_faithful(ops);
    assert(parts(e).take(0).filter(leaf_test(e, min_ops)).len() == 0) by {
        reveal(Seq::filter);
    }
    assert(Arena::empty().ops.dom() =~= Set::empty());
    assert(Arena::empty().rank.dom() =~= Arena::empty().ops.dom());
}

/// What holds of the handles so far.
proof fn what_is_under_way(
    out: Arena,
    e: Expr,
    min_ops: nat,
    ops: Seq<Operation<usize>>,
    added: Seq<(Variable, Tree)>,
    placeholders: Seq<Option<Variable>>,
    nodes: Seq<Node>,
)
    requires
        is_under_way(out, e, min_ops, ops, added, placeholders, nodes),
    ensures
        out.well_formed(),
        forall|k: int| 0 <= k < nodes.len() ==> out.has(#[trigger] nodes[k]),
        added.len() == parts(e).take(nodes.len() as int).filter(leaf_test(e, min_ops)).len(),
{
    reveal(is_under_way);
}

/// One more part has been replaced by its placeholder.
proof fn placeholder_step(
    before: Arena,
    after: Arena,
    e: Expr,
    min_ops: nat,
    ops: Seq<Operation<usize>>,
    added: Seq<(Variable, Tree)>,
    placeholders: Seq<Option<Variable>>,
    nodes: Seq<Node>,
    v: Variable,
    tree: Tree,
    r: Node,
)
    requires
        is_under_way(before, e, min_ops, ops, added, placeholders, nodes),
        is_canonical(ops),
        graph_exprs(ops) == parts(e),
        nodes.len() < ops.len(),
        leaf_test(e, min_ops)(parts(e)[nodes.len() as int]),
        v is V,
        tree_expr(tree) == parts(e)[nodes.len() as int],
        reads_back(tree),
        after.well_formed(),
        after.extends(before),
        after.has(r),
        imported_variable(before, after, v, r),
    ensures
        is_under_way(
            after,
            e,
            min_ops,
            ops,
            added.push((v, tree)),
            placeholders.push(Some(v)),
            nodes.push(r),
        ),
        placeholders_of(added.push((v, tree))) == placeholders_of(added).push(v),
{
    reveal(is_under_way);
    split_grows(e, min_ops, nodes.len() as int, added, placeholders, v, tree);
    placeholder_draws_on_itself(before, after, nodes, e, placeholders_of(added), v, r);
    placeholder_keeps_faith(before, after, e, min_ops, ops, added, placeholders, nodes, v, r);
}

/// One more part has been rebuilt.
proof fn operation_step(
    before: Arena,
    after: Arena,
    e: Expr,
    min_ops: nat,
    ops: Seq<Operation<usize>>,
    added: Seq<(Variable, Tree)>,
    placeholders: Seq<Option<Variable>>,
    nodes: Seq<Node>,
    r: Node,
)
    requires
        is_under_way(before, e, min_ops, ops, added, placeholders, nodes),
        is_canonical(ops),
        is_graph(ops),
        graph_exprs(ops) == parts(e),
        nodes.len() < ops.len(),
        !leaf_test(e, min_ops)(parts(e)[nodes.len() as int]),
        built(before, after, at_nodes(ops[nodes.len() as int], nodes), r),
    ensures
        is_under_way(after, e, min_ops, ops, added, placeholders.push(None), nodes.push(r)),
{
    reveal(is_under_way);
    let i = nodes.len() as int;
    assert(arguments_below(ops[i], i));
    building_is_well_formed(before, after, at_nodes(ops[i], nodes), r);
    filter_step(parts(e), leaf_test(e, min_ops), i);
    if let Operation::Input(v) = ops[i] {
        assert(graph_exprs(ops)[i] == Expr::Input(v));
        assert(parts(e)[i] == Expr::Input(v));
        variables_occur(e, v);
    }
    operation_draws_on_its_arguments(
        before,
        after,
        nodes,
        e,
        ops[i],
        placeholders_of(added),
        r,
    );
    operation_keeps_faith(before, after, e, min_ops, ops, added, placeholders, nodes, r);
}

/// All parts have been rebuilt.
proof fn all_is_done(
    out: Arena,
    e: Expr,
    min_ops: nat,
    ops: Seq<Operation<usize>>,
    added: Seq<(Variable, Tree)>,
    placeholders: Seq<Option<Variable>>,
    arenas: Seq<Arena>,
    nodes: Seq<Node>,
    outer: Tree,
)
    requires
        is_under_way(out, e, min_ops, ops, added, placeholders, nodes),
        steps_so_far(e, leaves(e, min_ops), placeholders_of(added), arenas, nodes),
        arenas.last() == out,
        is_graph(ops),
        graph_exprs(ops) == parts(e),
        nodes.len() == ops.len(),
        tree_expr(outer) == out.expr(nodes.last()),
        reads_back(outer),
    ensures
        is_split(added, outer, e, min_ops),
{
    reveal(is_under_way);
    let names = placeholders_of(added);
    let kernels = leaves(e, min_ops);
    parts_are_distinct(e);
    split_is_complete(e, min_ops, ops, added, placeholders);
    assert(draws_on(out.expr(nodes[nodes.len() - 1]), e, names));
    assert(is_rebuilt(e, kernels, names, arenas, nodes, tree_expr(outer)));
    if fresh(e, names) {
        faithful_is_left(out, e, ops, placeholders, nodes, kernels, names);
    }
}

/// The first parts of `e` have been put under the handles `nodes`, one after the
/// other.
spec fn steps_so_far(
    e: Expr,
    kernels: Seq<Expr>,
    names: Seq<Variable>,
    arenas: Seq<Arena>,
    nodes: Seq<Node>,
) -> bool {
    &&& nodes.len() <= parts(e).len()
    &&& arenas.len() == nodes.len() + 1
    &&& arenas[0] == Arena::empty()
    &&& forall|i: int| 0 <= i < nodes.len() ==> #[trigger] is_step(
        e,
        kernels,
        names,
        arenas,
        nodes,
        i,
    )
}

/// The arguments of an operation of a graph are those of its part.
proof fn operation_is_of_its_part(
    e: Expr,
    ops: Seq<Operation<usize>>,
    nodes: Seq<Node>,
    i: int,
)
    requires
        is_graph(ops),
        graph_exprs(ops) == parts(e),
        0 <= i < ops.len(),
    ensures
        at_nodes(ops[i], nodes) == operation_of(parts(e), parts(e)[i], nodes),
{
    let all = parts(e);
    parts_are_distinct(e);
    assert(arguments_below(ops[i], i));
    assert(all[i] == graph_expr(ops, i));
    match ops[i] {
        Operation::Unary(_, a) => index_is_unique(all, a as int, ops),
        Operation::Binary(_, a, b) => {
            index_is_unique(all, a as int, ops);
            index_is_unique(all, b as int, ops);
        },
        _ => {},
    }
}

/// A part stands at one position only.
proof fn index_is_unique(all: Seq<Expr>, a: int, ops: Seq<Operation<usize>>)
    requires
        all.no_duplicates(),
        graph_exprs(ops) == all,
        0 <= a < all.len(),
    ensures
        all[a] == graph_expr(ops, a),
        all.index_of(graph_expr(ops, a)) == a,
{
    assert(all[a] == graph_expr(ops, a));
    assert(all.contains(all[a]));
    assert(all[all.index_of(all[a])] == all[a]);
}

/// An earlier step is the same with one more part.
proof fn steps_grow(
    e: Expr,
    kernels: Seq<Expr>,
    names: Seq<Variable>,
    arenas: Seq<Arena>,
    nodes: Seq<Node>,
    ops: Seq<Operation<usize>>,
    after: Arena,
    r: Node,
)
    requires
        steps_so_far(e, kernels, names, arenas, nodes),
        is_graph(ops),
        graph_exprs(ops) == parts(e),
        nodes.len() < ops.len(),
        ({
            let i = nodes.len() as int;
            let p = parts(e)[i];
            if kernels.contains(p) {
                imported_variable(arenas.last(), after, names[kernels.index_of(p)], r)
            } else {
                built(arenas.last(), after, at_nodes(ops[i], nodes), r)
            }
        }),
    ensures
        steps_so_far(e, kernels, names, arenas.push(after), nodes.push(r)),
        arenas.push(after).last() == after,
{
    let n = nodes.len() as int;
    let longer = arenas.push(after);
    let grown = nodes.push(r);
    assert forall|i: int| 0 <= i < grown.len() implies #[trigger] is_step(
        e,
        kernels,
        names,
        longer,
        grown,
        i,
    ) by {
        assert(longer[i] == arenas[i]);
        assert(arguments_below(ops[i], i));
        operation_is_of_its_part(e, ops, nodes, i);
        operation_is_of_its_part(e, ops, grown, i);
        assert(at_nodes(ops[i], grown) == at_nodes(ops[i], nodes));
        if i < n {
            assert(is_step(e, kernels, names, arenas, nodes, i));
            assert(longer[i + 1] == arenas[i + 1]);
        } else {
            assert(longer[i + 1] == after && arenas[i] == arenas.last());
        }
    }
}

/// A part is a kernel exactly if it is a leaf, and comes among the kernels after
/// the leaves before it.
proof fn kernel_at(e: Expr, min_ops: nat, i: int)
    requires
        0 <= i < parts(e).len(),
    ensures
        leaves(e, min_ops).contains(parts(e)[i]) == leaf_test(e, min_ops)(parts(e)[i]),
        leaf_test(e, min_ops)(parts(e)[i]) ==> {
            let j = parts(e).take(i).filter(leaf_test(e, min_ops)).len() as int;
            j < leaves(e, min_ops).len() && leaves(e, min_ops).index_of(parts(e)[i]) == j
        },
{
    let all = parts(e);
    let test = leaf_test(e, min_ops);
    let kernels = leaves(e, min_ops);
    parts_are_distinct(e);
    filter_keeps_distinct(all, test);
    assert(all.contains(all[i]));
    if test(all[i]) {
        filter_position(all, test, i);
        assert(kernels.contains(all[i]));
        assert(kernels[kernels.index_of(all[i])] == all[i]);
    }
}

/// Counts the choice-free leaves of the expression under a handle: as many
/// placeholders are needed to split it.
pub fn count_leaves(ctx: &Context, root: Node, min_ops: usize) -> (n: usize)
    requires
        arena(*ctx).well_formed(),
        arena(*ctx).has(root),
    ensures
        n == leaves(arena(*ctx).expr(root), min_ops as nat).len(),
{
    let ghost e = arena(*ctx).expr(root);
    let ghost test = leaf_test(e, min_ops as nat);
    let (_, graph) = trace(ctx, root);
    proof {
        parts_are_distinct(e);
    }
    let roots = graph.leaves(min_ops);
    let mut n: usize = 0;
    let mut i: usize = 0;
    assert(parts(e).take(0).filter(test).len() == 0) by {
        reveal(Seq::filter);
    }
    while i < roots.len()
        invariant
            n <= i <= roots@.len() == parts(e).len(),
            test == leaf_test(e, min_ops as nat),
            graph@ == parts(e),
            forall|k: int|
                0 <= k < roots@.len() ==> roots@[k] == is_leaf(
                    graph@,
                    #[trigger] graph@[k],
                    min_ops as nat,
                ),
            n == parts(e).take(i as int).filter(test).len(),
        decreases roots@.len() - i,
    {
        proof {
            filter_step(parts(e), test, i as int);
            assert(roots@[i as int] == is_leaf(graph@, graph@[i as int], min_ops as nat));
        }
        if roots[i] {
            n = n + 1;
        }
        i = i + 1;
    }
    assert(parts(e).take(i as int) == parts(e));
    n
}

impl Default for Kernels {
    fn default() -> (kernels: Self)
        ensures
            kernels@ == Seq::<(Variable, Tree)>::empty(),
    {
        Kernels { kernels: Vec::new() }
    }
}

impl Kernels {
    /// Builds an empty kernel set.
    pub fn new() -> (kernels: Self)
        ensures
            kernels@ == Seq::<(Variable, Tree)>::empty(),
    {
        Self::default()
    }

    /// Marks `tree` to be compiled, returning a placeholder tree.
    ///
    /// The placeholder, a new variable, should be used in place of `tree` when
    /// building the enclosing shape.
    pub fn compile(&mut self, tree: Tree) -> (placeholder: Tree)
        ensures
            final(self)@.len() == old(self)@.len() + 1,
            final(self)@ == old(self)@.push((final(self)@.last().0, tree)),
            final(self)@.last().0 is V,
            tree_expr(placeholder) == Expr::Input(final(self)@.last().0),
    {
        let v = new_variable();
        self.compile_as(v, tree)
    }

    /// Marks `tree` to be compiled with the given variable as its placeholder,
    /// returning that as a tree.
    pub fn compile_as(&mut self, v: Variable, tree: Tree) -> (placeholder: Tree)
        ensures
            final(self)@ == old(self)@.push((v, tree)),
            tree_expr(placeholder) == Expr::Input(v),
    {
        self.kernels.push((v, tree));
        tree_of_variable(v)
    }

    /// Returns the number of kernels in the set.
    pub fn len(&self) -> (len: usize)
        ensures
            len == self@.len(),
    {
        self.kernels.len()
    }

    /// Checks whether the set is empty.
    pub fn is_empty(&self) -> (empty: bool)
        ensures
            empty == (self@.len() == 0),
    {
        self.kernels.len() == 0
    }

    /// The `(placeholder, tree)` pairs, in order.
    pub fn iter(&self) -> (pairs: Vec<(Variable, &Tree)>)
        ensures
            pairs@.len() == self@.len(),
            forall|j: int|
                0 <= j < pairs@.len() ==> (#[trigger] pairs@[j]).0 == self@[j].0 && *pairs@[j].1
                    == self@[j].1,
    {
        let mut pairs: Vec<(Variable, &Tree)> = Vec::new();
        let mut i: usize = 0;
        while i < self.kernels.len()
            invariant
                i <= self.kernels@.len(),
                pairs@.len() == i,
                forall|j: int|
                    0 <= j < i ==> (#[trigger] pairs@[j]).0 == self.kernels@[j].0 && *pairs@[j].1
                        == self.kernels@[j].1,
            decreases self.kernels@.len() - i,
        {
            pairs.push((self.kernels[i].0, &self.kernels[i].1));
            i = i + 1;
        }
        pairs
    }

    /// Converts each kernel's tree into a shape.
    pub fn shapes(&self) -> (shapes: Vec<(Variable, VmShape)>)
        ensures
            shapes@.len() == self@.len(),
            forall|j: int|
                0 <= j < shapes@.len() ==> {
                    &&& (#[trigger] shapes@[j]).0 == self@[j].0
                    &&& is_shape_of(self@[j].1, shapes@[j].1)
                    &&& shows_variables(self@[j].1, shapes@[j].1)
                    &&& tape_runs(shapes@[j].1)
                },
    {
        let mut shapes: Vec<(Variable, VmShape)> = Vec::new();
        let mut i: usize = 0;
        while i < self.kernels.len()
            invariant
                i <= self.kernels@.len(),
                shapes@.len() == i,
                forall|j: int|
                    0 <= j < i ==> {
                        &&& (#[trigger] shapes@[j]).0 == self.kernels@[j].0
                        &&& is_shape_of(self.kernels@[j].1, shapes@[j].1)
                        &&& shows_variables(self.kernels@[j].1, shapes@[j].1)
                        &&& tape_runs(shapes@[j].1)
                    },
            decreases self.kernels@.len() - i,
        {
            shapes.push((self.kernels[i].0, shape_of_tree(&self.kernels[i].1)));
            i = i + 1;
        }
        shapes
    }

    /// Compiles the choice-free leaves of a tree, returning the new tree.
    ///
    /// This is a simple policy for splitting a shape into interpreted and
    /// compiled parts: CSG structure (`min`, `max`, `and`, `or`) stays in the
    /// interpreted tape, while each maximal subexpression without those
    /// operations, with at least `min_ops` operations, becomes a kernel.
    /// Identical subexpressions share a kernel.
    pub fn compile_leaves(&mut self, tree: &Tree, min_ops: usize) -> (outer: Tree)
        ensures
            old(self)@.is_prefix_of(final(self)@),
            exists|e: Expr| #[trigger]
                imports_as(*tree, e) && is_split(
                    final(self)@.skip(old(self)@.len() as int),
                    outer,
                    e,
                    min_ops as nat,
                ),
    {
        let mut ctx = context_new();
        assert(arena(ctx) == Arena::empty());
        let root = context_import(&mut ctx, tree);
        let outer = self.compile_nodes(&ctx, root, min_ops);
        assert(imports_as(*tree, arena(ctx).expr(root)));
        outer
    }

    /// Compiles the choice-free leaves of the expression under a handle,
    /// returning the tree that is left.
    pub fn compile_nodes(&mut self, ctx: &Context, root: Node, min_ops: usize) -> (outer: Tree)
        requires
            arena(*ctx).well_formed(),
            arena(*ctx).has(root),
        ensures
            old(self)@.is_prefix_of(final(self)@),
            is_split(
                final(self)@.skip(old(self)@.len() as int),
                outer,
                arena(*ctx).expr(root),
                min_ops as nat,
            ),
    {
        let n: usize = count_leaves(ctx, root, min_ops);
        let mut names: Vec<Variable> = Vec::new();
        while names.len() < n
            invariant
                names@.len() <= n,
                forall|j: int| 0 <= j < names@.len() ==> (#[trigger] names@[j]) is V,
            decreases n - names@.len(),
        {
            names.push(new_variable());
        }
        self.split_nodes(ctx, root, min_ops, names.as_slice())
    }

    /// Compiles the choice-free leaves of the expression under a handle, with the
    /// given variables as their placeholders, returning the tree that is left.
    pub fn split_nodes(
        &mut self,
        ctx: &Context,
        root: Node,
        min_ops: usize,
        names: &[Variable],
    ) -> (outer: Tree)
        requires
            arena(*ctx).well_formed(),
            arena(*ctx).has(root),
            names@.len() == leaves(arena(*ctx).expr(root), min_ops as nat).len(),
            forall|j: int| 0 <= j < names@.len() ==> (#[trigger] names@[j]) is V,
        ensures
            old(self)@.is_prefix_of(final(self)@),
            placeholders_of(final(self)@.skip(old(self)@.len() as int)) == names@,
            is_split(
                final(self)@.skip(old(self)@.len() as int),
                outer,
                arena(*ctx).expr(root),
                min_ops as nat,
            ),
    {
        let ghost a = arena(*ctx);
        let ghost e = a.expr(root);
        let ghost before = self@;
        let ghost min = min_ops as nat;
        let (nodes, graph) = trace(ctx, root);
        let ghost ops = graph.ops@;
        proof {
            parts_are_distinct(e);
            traces_are_canonical(a, nodes@, ops);
            nothing_is_under_way(e, min, ops);
        }
        let roots = graph.leaves(min_ops);
        let mut out = context_new();
        let mut rebuilt: Vec<Node> = Vec::new();
        let ghost mut added: Seq<(Variable, Tree)> = Seq::empty();
        let ghost mut placeholders: Seq<Option<Variable>> = Seq::empty();
        let ghost mut arenas: Seq<Arena> = seq![Arena::empty()];
        let n: usize = nodes.len();
        let mut next: usize = 0;
        let mut i: usize = 0;
        assert(arena(out) == Arena::empty());
        assert(self@ =~= before + added);
        while i < n
            invariant
                i <= n == nodes@.len(),
                a == arena(*ctx),
                a.well_formed(),
                e == a.expr(root),
                min == min_ops as nat,
                ops == graph.ops@,
                traces(a, nodes@, ops),
                graph@ == parts(e),
                is_canonical(ops),
                roots@.len() == n,
                forall|k: int|
                    0 <= k < n ==> roots@[k] == is_leaf(
                        graph@,
                        #[trigger] graph@[k],
                        min_ops as nat,
                    ),
                names@.len() == leaves(e, min).len(),
                forall|j: int| 0 <= j < names@.len() ==> (#[trigger] names@[j]) is V,
                rebuilt@.len() == i,
                next == added.len() <= names@.len(),
                self@ == before + added,
                placeholders_of(added) == names@.take(next as int),
                is_under_way(arena(out), e, min, ops, added, placeholders, rebuilt@),
                steps_so_far(e, leaves(e, min), names@, arenas, rebuilt@),
                arenas.last() == arena(out),
            decreases n - i,
        {
            let ghost held = arena(out);
            let node = nodes[i];
            proof {
                assert(graph@[i as int] == graph_expr(ops, i as int));
                assert(a.has(nodes@[i as int]));
                assert(arguments_below(ops[i as int], i as int));
                what_is_under_way(held, e, min, ops, added, placeholders, rebuilt@);
                trace_spells(a, nodes@, ops, i as int);
                kernel_at(e, min, i as int);
            }
            let new = if roots[i] {
                let v = names[next];
                let kernel = context_export(ctx, node);
                let placeholder = self.compile_as(v, kernel);
                let new = context_import(&mut out, &placeholder);
                proof {
                    placeholder_step(
                        held,
                        arena(out),
                        e,
                        min,
                        ops,
                        added,
                        placeholders,
                        rebuilt@,
                        v,
                        kernel,
                        new,
                    );
                    added = added.push((v, kernel));
                    placeholders = placeholders.push(Some(v));
                    assert(self@ =~= before + added);
                    assert(names@.take(next + 1) =~= names@.take(next as int).push(v));
                }
                next = next + 1;
                new
            } else {
                let new = rebuild_node(&mut out, ctx, node, graph.ops[i], &rebuilt);
                proof {
                    operation_step(
                        held,
                        arena(out),
                        e,
                        min,
                        ops,
                        added,
                        placeholders,
                        rebuilt@,
                        new,
                    );
                    placeholders = placeholders.push(None);
                }
                new
            };
            proof {
                steps_grow(e, leaves(e, min), names@, arenas, rebuilt@, ops, arena(out), new);
                arenas = arenas.push(arena(out));
            }
            rebuilt.push(new);
            i = i + 1;
        }
        proof {
            what_is_under_way(arena(out), e, min, ops, added, placeholders, rebuilt@);
            assert(parts(e).take(n as int) == parts(e));
            assert(names@.take(next as int) =~= names@);
            assert(self@.skip(before.len() as int) =~= added);
        }
        let outer = context_export(&out, rebuilt[n - 1]);
        proof {
            all_is_done(
                arena(out),
                e,
                min,
                ops,
                added,
                placeholders,
                arenas,
                rebuilt@,
                outer,
            );
        }
        outer
    }
}

} // verus!
