//! Expressions, and the arenas of shared operations that hold them.

use crate::error::Variable;
use crate::opcode::{BinaryOp, UnaryOp};
use fidget_core::context::Node;
use vstd::prelude::*;

verus! {

/// A math expression.
pub enum Expr {
    /// An input variable
    Input(Variable),
    /// A constant, given by its bits
    Const(u32),
    /// A one-argument operation
    Unary(UnaryOp, Box<Expr>),
    /// A two-argument operation
    Binary(BinaryOp, Box<Expr>, Box<Expr>),
}

/// An operation whose arguments are elsewhere, under handles of type `N`.
#[derive(Clone, Copy, Debug, PartialEq, Eq)]
pub enum Operation<N> {
    /// An input variable
    Input(Variable),
    /// A constant, given by its bits
    Const(u32),
    /// A one-argument operation
    Unary(UnaryOp, N),
    /// A two-argument operation
    Binary(BinaryOp, N, N),
}

/// The bits of a zero, of either sign.
pub open spec fn is_zero(bits: u32) -> bool {
    bits == 0 || bits == 0x8000_0000
}

/// The bits of the number one.
pub open spec fn is_one(bits: u32) -> bool {
    bits == 0x3F80_0000
}

/// Bits that are not a number.
pub open spec fn is_nan(bits: u32) -> bool {
    bits % 0x8000_0000 > 0x7F80_0000
}

/// Constants that are one and the same in an arena: both zeros count as one,
/// and so does whatever is not a number.
pub open spec fn same_const(c: u32, d: u32) -> bool {
    c == d || (is_zero(c) && is_zero(d)) || (is_nan(c) && is_nan(d))
}

/// Operations that are one and the same in an arena.
pub open spec fn same_op<N>(x: Operation<N>, y: Operation<N>) -> bool {
    match (x, y) {
        (Operation::Const(c), Operation::Const(d)) => same_const(c, d),
        _ => x == y,
    }
}

/// The operations whose arguments an arena puts in order.
pub open spec fn commutes(op: BinaryOp) -> bool {
    op == BinaryOp::Add || op == BinaryOp::Mul || op == BinaryOp::Min || op == BinaryOp::Max
}

/// What a context holds: the operation under each handle, and the order in
/// which the handles were given out.
pub struct Arena {
    /// The operation under each handle
    pub ops: Map<Node, Operation<Node>>,
    /// How many handles were given out before
    pub rank: Map<Node, nat>,
}

impl Arena {
    /// Holds nothing.
    pub open spec fn empty() -> Arena {
        Arena { ops: Map::empty(), rank: Map::empty() }
    }

    /// A handle that was given out.
    pub open spec fn has(self, n: Node) -> bool {
        self.ops.contains_key(n)
    }

    /// The handle of a constant.
    pub open spec fn is_const(self, n: Node) -> bool {
        self.ops[n] is Const
    }

    /// The handle of a zero.
    pub open spec fn zero(self, n: Node) -> bool {
        self.ops[n] matches Operation::Const(c) && is_zero(c)
    }

    /// The handle of the number one.
    pub open spec fn one(self, n: Node) -> bool {
        self.ops[n] matches Operation::Const(c) && is_one(c)
    }

    /// The arguments were given out before.
    pub open spec fn comes_after(self, n: Node, op: Operation<Node>) -> bool {
        match op {
            Operation::Input(_) => true,
            Operation::Const(_) => true,
            Operation::Unary(_, a) => self.has(a) && self.rank[a] < self.rank[n],
            Operation::Binary(_, a, b) => {
                &&& self.has(a) && self.rank[a] < self.rank[n]
                &&& self.has(b) && self.rank[b] < self.rank[n]
            },
        }
    }

    /// An operation that building it would not simplify any further.
    pub open spec fn is_simple(self, op: Operation<Node>) -> bool {
        match op {
            Operation::Input(_) => true,
            Operation::Const(_) => true,
            Operation::Unary(_, a) => !self.is_const(a),
            Operation::Binary(op, a, b) => {
                &&& !(self.is_const(a) && self.is_const(b))
                &&& commutes(op) ==> a != b && self.rank[a] <= self.rank[b]
                &&& match op {
                    BinaryOp::Add => !self.zero(a) && !self.zero(b),
                    BinaryOp::Sub => !self.zero(a) && !self.zero(b),
                    BinaryOp::Mul => !self.zero(a) && !self.zero(b) && !self.one(a) && !self.one(b),
                    BinaryOp::Div => !self.zero(a) && !self.one(b),
                    BinaryOp::And => !self.is_const(a),
                    BinaryOp::Or => !self.is_const(a) && !self.zero(b),
                    _ => true,
                }
            },
        }
    }

    /// What holds of every context: arguments come before the operations that
    /// use them, no operation is held twice, and none can be simplified.
    pub open spec fn well_formed(self) -> bool {
        &&& self.ops.dom().finite()
        &&& self.rank.dom() == self.ops.dom()
        &&& forall|n: Node| #[trigger]
            self.has(n) ==> {
                &&& self.rank[n] < self.ops.dom().len()
                &&& self.comes_after(n, self.ops[n])
                &&& self.is_simple(self.ops[n])
            }
        &&& forall|m: Node, n: Node| #[trigger]
            self.has(m) && #[trigger] self.has(n) && m != n ==> self.rank[m] != self.rank[n]
        &&& forall|m: Node, n: Node| #[trigger]
            self.has(m) && #[trigger] self.has(n) && same_op(self.ops[m], self.ops[n]) ==> m == n
    }

    /// The expression under a handle.
    pub open spec fn expr(self, n: Node) -> Expr
        decreases self.rank[n],
    {
        match self.ops[n] {
            Operation::Input(v) => Expr::Input(v),
            Operation::Const(c) => Expr::Const(c),
            Operation::Unary(op, a) => if self.rank[a] < self.rank[n] {
                Expr::Unary(op, Box::new(self.expr(a)))
            } else {
                Expr::Const(0)
            },
            Operation::Binary(op, a, b) => if self.rank[a] < self.rank[n] && self.rank[b]
                < self.rank[n] {
                Expr::Binary(op, Box::new(self.expr(a)), Box::new(self.expr(b)))
            } else {
                Expr::Const(0)
            },
        }
    }

    /// `self` and what was added since.
    pub open spec fn extends(self, earlier: Arena) -> bool {
        &&& forall|n: Node| #[trigger]
            earlier.has(n) ==> self.has(n) && self.ops[n] == earlier.ops[n] && self.rank[n]
                == earlier.rank[n]
    }

    /// Handles of the same expression are one and the same.
    pub proof fn expr_is_injective(self, m: Node, n: Node)
        requires
            self.well_formed(),
            self.has(m),
            self.has(n),
            self.expr(m) == self.expr(n),
        ensures
            m == n,
        decreases self.rank[m],
    {
        assert(self.comes_after(m, self.ops[m]) && self.comes_after(n, self.ops[n]));
        match (self.ops[m], self.ops[n]) {
            (Operation::Unary(_, a), Operation::Unary(_, c)) => {
                self.expr_is_injective(a, c);
            },
            (Operation::Binary(_, a, b), Operation::Binary(_, c, d)) => {
                self.expr_is_injective(a, c);
                self.expr_is_injective(b, d);
            },
            _ => {},
        }
        assert(same_op(self.ops[m], self.ops[n]));
    }

    /// What is added leaves the earlier expressions as they were.
    pub proof fn extension_keeps_expr(self, later: Arena, n: Node)
        requires
            self.well_formed(),
            later.extends(self),
            self.has(n),
        ensures
            later.expr(n) == self.expr(n),
        decreases self.rank[n],
    {
        assert(self.comes_after(n, self.ops[n]));
        match self.ops[n] {
            Operation::Unary(_, a) => {
                self.extension_keeps_expr(later, a);
            },
            Operation::Binary(_, a, b) => {
                self.extension_keeps_expr(later, a);
                self.extension_keeps_expr(later, b);
            },
            _ => {},
        }
    }
}

// ---------------------------------------------------------------------------
// Building operations
// ---------------------------------------------------------------------------

/// The operation is found, or else added under a new handle.
pub open spec fn inserted(before: Arena, after: Arena, op: Operation<Node>, r: Node) -> bool {
    ||| {
        &&& before.has(r)
        &&& same_op(before.ops[r], op)
        &&& after == before
    }
    ||| {
        &&& !before.has(r)
        &&& forall|n: Node| #[trigger] before.has(n) ==> !same_op(before.ops[n], op)
        &&& after.ops == before.ops.insert(r, op)
        &&& after.rank == before.rank.insert(r, before.ops.dom().len())
    }
}

/// Some constant is found or added.
pub open spec fn folded(before: Arena, after: Arena, r: Node) -> bool {
    exists|c: u32| inserted(before, after, Operation::Const(c), r)
}

/// A one-argument operation is built: on a constant it is carried out.
pub open spec fn built_unary(before: Arena, after: Arena, op: UnaryOp, a: Node, r: Node) -> bool {
    if before.is_const(a) {
        folded(before, after, r)
    } else {
        inserted(before, after, Operation::Unary(op, a), r)
    }
}

/// A two-argument operation is built as it stands: on constants it is carried
/// out.
pub open spec fn built_plain(
    before: Arena,
    after: Arena,
    op: BinaryOp,
    a: Node,
    b: Node,
    r: Node,
) -> bool {
    if before.is_const(a) && before.is_const(b) {
        folded(before, after, r)
    } else {
        inserted(before, after, Operation::Binary(op, a, b), r)
    }
}

/// A two-argument operation is built with the earlier argument first.
pub open spec fn built_ordered(
    before: Arena,
    after: Arena,
    op: BinaryOp,
    a: Node,
    b: Node,
    r: Node,
) -> bool {
    if before.rank[a] <= before.rank[b] {
        built_plain(before, after, op, a, b, r)
    } else {
        built_plain(before, after, op, b, a, r)
    }
}

/// A product is built: a square is one, a factor 1 drops out, and a factor 0 is
/// the result.
pub open spec fn built_mul(before: Arena, after: Arena, a: Node, b: Node, r: Node) -> bool {
    if a == b {
        built_unary(before, after, UnaryOp::Square, a, r)
    } else if before.one(a) {
        after == before && r == b
    } else if before.one(b) {
        after == before && r == a
    } else if before.zero(a) {
        after == before && r == a
    } else if before.zero(b) {
        after == before && r == b
    } else {
        built_ordered(before, after, BinaryOp::Mul, a, b, r)
    }
}

/// A sum is built: a double is a product with 2, and a term 0 drops out.
pub open spec fn built_add(before: Arena, after: Arena, a: Node, b: Node, r: Node) -> bool {
    if a == b {
        exists|middle: Arena, two: Node|
            inserted(before, middle, Operation::Const(0x4000_0000), two) && #[trigger] built_mul(
                middle,
                after,
                a,
                two,
                r,
            )
    } else if before.zero(a) {
        after == before && r == b
    } else if before.zero(b) {
        after == before && r == a
    } else {
        built_ordered(before, after, BinaryOp::Add, a, b, r)
    }
}

/// A minimum or maximum is built: of one value, it is that value.
pub open spec fn built_extreme(
    before: Arena,
    after: Arena,
    op: BinaryOp,
    a: Node,
    b: Node,
    r: Node,
) -> bool {
    if a == b {
        after == before && r == a
    } else {
        built_ordered(before, after, op, a, b, r)
    }
}

/// A difference is built: from 0 it is a negation, and a subtrahend 0 drops out.
pub open spec fn built_sub(before: Arena, after: Arena, a: Node, b: Node, r: Node) -> bool {
    if before.zero(a) {
        built_unary(before, after, UnaryOp::Neg, b, r)
    } else if before.zero(b) {
        after == before && r == a
    } else {
        built_plain(before, after, BinaryOp::Sub, a, b, r)
    }
}

/// A quotient is built: of 0 it is 0, and a divisor 1 drops out.
pub open spec fn built_div(before: Arena, after: Arena, a: Node, b: Node, r: Node) -> bool {
    if before.zero(a) || before.one(b) {
        after == before && r == a
    } else {
        built_plain(before, after, BinaryOp::Div, a, b, r)
    }
}

/// A conjunction is built: with a constant on the left, the choice is made.
pub open spec fn built_and(before: Arena, after: Arena, a: Node, b: Node, r: Node) -> bool {
    if before.is_const(a) {
        after == before && r == (if before.zero(a) {
            a
        } else {
            b
        })
    } else {
        built_plain(before, after, BinaryOp::And, a, b, r)
    }
}

/// A disjunction is built: with a constant on the left, the choice is made, and
/// 0 on the right drops out.
pub open spec fn built_or(before: Arena, after: Arena, a: Node, b: Node, r: Node) -> bool {
    if before.is_const(a) {
        after == before && r == (if before.zero(a) {
            b
        } else {
            a
        })
    } else if before.zero(b) {
        after == before && r == a
    } else {
        built_plain(before, after, BinaryOp::Or, a, b, r)
    }
}

/// A two-argument operation is built.
pub open spec fn built_binary(
    before: Arena,
    after: Arena,
    op: BinaryOp,
    a: Node,
    b: Node,
    r: Node,
) -> bool {
    match op {
        BinaryOp::Add => built_add(before, after, a, b, r),
        BinaryOp::Sub => built_sub(before, after, a, b, r),
        BinaryOp::Mul => built_mul(before, after, a, b, r),
        BinaryOp::Div => built_div(before, after, a, b, r),
        BinaryOp::Min => built_extreme(before, after, BinaryOp::Min, a, b, r),
        BinaryOp::Max => built_extreme(before, after, BinaryOp::Max, a, b, r),
        BinaryOp::And => built_and(before, after, a, b, r),
        BinaryOp::Or => built_or(before, after, a, b, r),
        _ => built_plain(before, after, op, a, b, r),
    }
}

/// Adding an operation keeps an arena well formed.
pub proof fn insertion_is_well_formed(
    before: Arena,
    after: Arena,
    op: Operation<Node>,
    r: Node,
)
    requires
        before.well_formed(),
        inserted(before, after, op, r),
        before.is_simple(op),
        op matches Operation::Unary(_, a) ==> before.has(a),
        op matches Operation::Binary(_, a, b) ==> before.has(a) && before.has(b),
    ensures
        after.well_formed(),
        after.extends(before),
        after.has(r),
        same_op(after.ops[r], op),
{
    if after != before {
        assert(after.ops.dom() == before.ops.dom().insert(r));
        assert(after.rank.dom() == after.ops.dom());
        assert forall|n: Node| #[trigger] after.has(n) implies {
            &&& after.rank[n] < after.ops.dom().len()
            &&& after.comes_after(n, after.ops[n])
            &&& after.is_simple(after.ops[n])
        } by {
            if n != r {
                assert(before.has(n));
                assert(before.comes_after(n, before.ops[n]));
                assert(before.is_simple(before.ops[n]));
            }
        }
        assert forall|m: Node, n: Node| #[trigger]
            after.has(m) && #[trigger] after.has(n) && m != n implies after.rank[m]
            != after.rank[n] by {
            if m != r {
                assert(before.has(m));
            }
            if n != r {
                assert(before.has(n));
            }
        }
        assert forall|m: Node, n: Node| #[trigger]
            after.has(m) && #[trigger] after.has(n) && same_op(
            after.ops[m],
            after.ops[n],
        ) implies m == n by {
            if m != r {
                assert(before.has(m));
            }
            if n != r {
                assert(before.has(n));
            }
        }
    }
}

} // verus!
