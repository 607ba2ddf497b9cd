//! What an expression tree means: the value each node evaluates to (or the
//! error evaluation raises) and the bytecode it compiles to, and the proof that
//! running the bytecode yields the value.

use vstd::prelude::*;
use crate::ast::{Expr, Literal, Node, NodeId, Op};
use crate::bytecode::{Opcode, opcode_byte, i32_le_bytes, lemma_i32_roundtrip};
use crate::value::{Value, ValueType};
use crate::vm::{VMError, Step, step, exec_from, binary_result, neg_result};

verus! {

/// The opcode that carries out a binary operator.
pub open spec fn op_opcode(op: Op) -> Opcode {
    match op {
        Op::Add => Opcode::Add,
        Op::Sub => Opcode::Sub,
        Op::Mul => Opcode::Mul,
        Op::Div => Opcode::Div,
        Op::Rem => Opcode::Rem,
    }
}

/// Whether an index names a node of the tree.
pub open spec fn in_tree(t: Seq<Node>, id: NodeId) -> bool {
    (id.0 as int) < t.len()
}

/// Every chain of operands that starts at `id` stays inside the tree and has
/// fewer than `n` nodes.
pub open spec fn bounded(t: Seq<Node>, id: NodeId, n: nat) -> bool
    decreases n,
{
    &&& n > 0
    &&& in_tree(t, id)
    &&& match t[id.0 as int].expr {
        Expr::Literal(_) => true,
        Expr::BinaryOp { op, left, right } => bounded(t, left, (n - 1) as nat) && bounded(
            t,
            right,
            (n - 1) as nat,
        ),
        Expr::UnaryOp { op, operand } => bounded(t, operand, (n - 1) as nat),
        Expr::Block { statements, tail } => {
            &&& forall|i: int|
                0 <= i < statements@.len() ==> bounded(t, #[trigger] statements@[i], (n - 1) as nat)
            &&& match tail {
                Some(x) => bounded(t, x, (n - 1) as nat),
                None => true,
            }
        },
    }
}

/// The node at `id` has no chain of operands that loops or leaves the tree.
pub open spec fn finite_depth(t: Seq<Node>, id: NodeId) -> bool {
    exists|n: nat| bounded(t, id, n)
}

/// A depth bound for a node of finite depth.
pub open spec fn depth_bound(t: Seq<Node>, id: NodeId) -> nat {
    choose|n: nat| bounded(t, id, n)
}

/// The bytecode of the node at `id`, given a depth bound.
pub open spec fn code(t: Seq<Node>, id: NodeId, n: nat) -> Seq<u8>
    decreases n, 0nat,
{
    if n == 0 || !in_tree(t, id) {
        Seq::empty()
    } else {
        match t[id.0 as int].expr {
            Expr::Literal(Literal::Int(i)) => seq![opcode_byte(Opcode::PushInt)] + i32_le_bytes(
                i as i32,
            ),
            Expr::BinaryOp { op, left, right } => code(t, left, (n - 1) as nat) + code(
                t,
                right,
                (n - 1) as nat,
            ) + seq![opcode_byte(op_opcode(op))],
            Expr::UnaryOp { op, operand } => code(t, operand, (n - 1) as nat) + seq![
                opcode_byte(Opcode::Neg),
            ],
            Expr::Block { statements, tail } => stmts_code(t, statements@, (n - 1) as nat) + match tail {
                Some(x) => code(t, x, (n - 1) as nat),
                None => seq![opcode_byte(Opcode::PushUnit)],
            },
        }
    }
}

/// The bytecode of block statements: each one's code followed by `Pop`.
pub open spec fn stmts_code(t: Seq<Node>, s: Seq<NodeId>, n: nat) -> Seq<u8>
    decreases n, s.len() + 1,
{
    if s.len() == 0 {
        Seq::empty()
    } else {
        stmts_code(t, s.drop_last(), n) + code(t, s.last(), n) + seq![opcode_byte(Opcode::Pop)]
    }
}

/// The value of a binary operator applied to two evaluated operands, with the
/// machine's checks in the machine's order: the right operand's type, the
/// left operand's type, then the arithmetic.
pub open spec fn binary_value(op: Op, l: Value, r: Value) -> Result<Value, VMError> {
    match (l, r) {
        (_, Value::Unit) => Err(VMError::InvalidOperandType(ValueType::Unit, ValueType::I32)),
        (Value::Unit, _) => Err(VMError::InvalidOperandType(ValueType::Unit, ValueType::I32)),
        (Value::I32(a), Value::I32(b)) => match binary_result(op_opcode(op), a, b) {
            Ok(x) => Ok(Value::I32(x)),
            Err(e) => Err(e),
        },
    }
}

/// The value of negation applied to an evaluated operand.
pub open spec fn neg_value(v: Value) -> Result<Value, VMError> {
    match v {
        Value::Unit => Err(VMError::InvalidOperandType(ValueType::Unit, ValueType::I32)),
        Value::I32(i) => match neg_result(i) {
            Ok(x) => Ok(Value::I32(x)),
            Err(e) => Err(e),
        },
    }
}

/// The value of the node at `id`, or the error its evaluation raises.
/// Operands are evaluated left to right; a literal is taken modulo 2^32 as an
/// `i32`; a block evaluates its statements in order, discards their values and
/// yields its tail's value, or unit when it has none.
pub open spec fn eval(t: Seq<Node>, id: NodeId, n: nat) -> Result<Value, VMError>
    decreases n, 0nat,
{
    if n == 0 || !in_tree(t, id) {
        Ok(Value::Unit)
    } else {
        match t[id.0 as int].expr {
            Expr::Literal(Literal::Int(i)) => Ok(Value::I32(i as i32)),
            Expr::BinaryOp { op, left, right } => match eval(t, left, (n - 1) as nat) {
                Err(e) => Err(e),
                Ok(l) => match eval(t, right, (n - 1) as nat) {
                    Err(e) => Err(e),
                    Ok(r) => binary_value(op, l, r),
                },
            },
            Expr::UnaryOp { op, operand } => match eval(t, operand, (n - 1) as nat) {
                Err(e) => Err(e),
                Ok(v) => neg_value(v),
            },
            Expr::Block { statements, tail } => match stmts_eval(t, statements@, (n - 1) as nat) {
                Err(e) => Err(e),
                Ok(_) => match tail {
                    Some(x) => eval(t, x, (n - 1) as nat),
                    None => Ok(Value::Unit),
                },
            },
        }
    }
}

/// Evaluates block statements in order, discarding their values.
pub open spec fn stmts_eval(t: Seq<Node>, s: Seq<NodeId>, n: nat) -> Result<(), VMError>
    decreases n, s.len() + 1,
{
    if s.len() == 0 {
        Ok(())
    } else {
        match stmts_eval(t, s.drop_last(), n) {
            Err(e) => Err(e),
            Ok(_) => match eval(t, s.last(), n) {
                Err(e) => Err(e),
                Ok(_) => Ok(()),
            },
        }
    }
}

/// The bytecode of a node of finite depth.
pub open spec fn expr_code(t: Seq<Node>, id: NodeId) -> Seq<u8> {
    code(t, id, depth_bound(t, id))
}

/// The value of a node of finite depth.
pub open spec fn expr_value(t: Seq<Node>, id: NodeId) -> Result<Value, VMError> {
    eval(t, id, depth_bound(t, id))
}

/// The bytecode of a module's top-level expressions, in order.
pub open spec fn roots_code(t: Seq<Node>, roots: Seq<NodeId>) -> Seq<u8>
    decreases roots.len(),
{
    if roots.len() == 0 {
        Seq::empty()
    } else {
        roots_code(t, roots.drop_last()) + expr_code(t, roots.last())
    }
}

/// The chunk a module compiles to: its top-level expressions, then `Halt`.
pub open spec fn module_code(t: Seq<Node>, roots: Seq<NodeId>) -> Seq<u8> {
    roots_code(t, roots) + seq![opcode_byte(Opcode::Halt)]
}

/// The values of a module's top-level expressions in order, or the first
/// error raised.
pub open spec fn roots_values(t: Seq<Node>, roots: Seq<NodeId>) -> Result<Seq<Value>, VMError>
    decreases roots.len(),
{
    if roots.len() == 0 {
        Ok(Seq::empty())
    } else {
        match roots_values(t, roots.drop_last()) {
            Err(e) => Err(e),
            Ok(vs) => match expr_value(t, roots.last()) {
                Err(e) => Err(e),
                Ok(v) => Ok(vs.push(v)),
            },
        }
    }
}

/// The operands of `node`, standing at position `i`, stand before it.
pub open spec fn operands_before(node: Node, i: int) -> bool {
    match node.expr {
        Expr::Literal(_) => true,
        Expr::BinaryOp { op, left, right } => left.0 < i && right.0 < i,
        Expr::UnaryOp { op, operand } => operand.0 < i,
        Expr::Block { statements, tail } => {
            &&& forall|k: int| 0 <= k < statements@.len() ==> (#[trigger] statements@[k]).0 < i
            &&& match tail {
                Some(x) => x.0 < i,
                None => true,
            }
        },
    }
}

/// Every node's operands were allocated before it.
pub open spec fn tree_wf(t: Seq<Node>) -> bool {
    forall|i: int| 0 <= i < t.len() ==> operands_before(#[trigger] t[i], i)
}

/// The span of the node at `i` covers its operands' spans: a binary
/// operation's span runs from the start of its left operand to the end of
/// its right operand, and the left operand ends before the right one starts;
/// a negation's span starts before its operand's and ends where it ends.
pub open spec fn span_covers(t: Seq<Node>, i: int) -> bool {
    match t[i].expr {
        Expr::BinaryOp { op, left, right } => {
            &&& t[i].span.start() == t[left.0 as int].span.start()
            &&& t[i].span.end() == t[right.0 as int].span.end()
            &&& t[left.0 as int].span.end() <= t[right.0 as int].span.start()
        },
        Expr::UnaryOp { op, operand } => {
            &&& t[i].span.start() < t[operand.0 as int].span.start()
            &&& t[i].span.end() == t[operand.0 as int].span.end()
        },
        _ => true,
    }
}

/// Every node's span covers the spans of its operands.
pub open spec fn spans_nested(t: Seq<Node>) -> bool {
    forall|i: int| 0 <= i < t.len() ==> #[trigger] span_covers(t, i)
}

/// `t1` keeps the nodes of `t0` and may add more after them.
pub open spec fn tree_extends(t0: Seq<Node>, t1: Seq<Node>) -> bool {
    &&& t0.len() <= t1.len()
    &&& forall|i: int| 0 <= i < t0.len() ==> #[trigger] t1[i] == t0[i]
}

/// How tightly a node binds: `+` and `-` loosest, then `*`, `/` and `%`,
/// then negation, then literals and blocks.
pub open spec fn level(node: Node) -> int {
    match node.expr {
        Expr::BinaryOp { op, left, right } => if op == Op::Add || op == Op::Sub {
            1
        } else {
            2
        },
        Expr::UnaryOp { op, operand } => 3,
        _ => 4,
    }
}

/// The byte `b` stands somewhere in `src` from `lo` up to `hi`.
pub open spec fn byte_between(src: Seq<u8>, lo: int, hi: int, b: u8) -> bool {
    exists|p: int| lo <= p < hi && 0 <= p < src.len() && #[trigger] src[p] == b
}

/// The node at `i` respects how operators group in the text `src`: an
/// operand that binds more loosely than its operator, or as loosely on the
/// right (operators associate to the left), or a binary operation under a
/// negation, is set off by parentheses: a `)` lies between a left operand and
/// the right one, a `(` before the right operand or the negated one.
pub open spec fn grouping_ok(src: Seq<u8>, t: Seq<Node>, i: int) -> bool {
    match t[i].expr {
        Expr::BinaryOp { op, left, right } => {
            let l = t[left.0 as int];
            let r = t[right.0 as int];
            &&& level(l) < level(t[i]) ==> byte_between(
                src,
                l.span.end() as int,
                r.span.start() as int,
                0x29,
            )
            &&& level(r) <= level(t[i]) ==> byte_between(
                src,
                l.span.end() as int,
                r.span.start() as int,
                0x28,
            )
        },
        Expr::UnaryOp { op, operand } => {
            let o = t[operand.0 as int];
            level(o) < 3 ==> byte_between(src, t[i].span.start() + 1int, o.span.start() as int, 0x28)
        },
        _ => true,
    }
}

/// Every node respects how operators group in `src`.
pub open spec fn grouped(src: Seq<u8>, t: Seq<Node>) -> bool {
    forall|i: int| 0 <= i < t.len() ==> #[trigger] grouping_ok(src, t, i)
}

/// Appending a node that respects grouping keeps the tree grouped.
pub proof fn lemma_push_grouped(src: Seq<u8>, t: Seq<Node>, node: Node)
    requires
        tree_wf(t),
        grouped(src, t),
        grouping_ok(src, t.push(node), t.len() as int),
    ensures
        grouped(src, t.push(node)),
{
    let u = t.push(node);
    assert forall|i: int| 0 <= i < u.len() implies #[trigger] grouping_ok(src, u, i) by {
        if i < t.len() {
            assert(grouping_ok(src, t, i));
            assert(operands_before(t[i], i));
            assert(u[i] == t[i]);
            match t[i].expr {
                Expr::BinaryOp { op, left, right } => {
                    assert(u[left.0 as int] == t[left.0 as int]);
                    assert(u[right.0 as int] == t[right.0 as int]);
                },
                Expr::UnaryOp { op, operand } => {
                    assert(u[operand.0 as int] == t[operand.0 as int]);
                },
                _ => {},
            }
        }
    }
}

/// Appending a node whose span covers its operands' keeps every span
/// covering its operands'.
pub proof fn lemma_push_nested(t: Seq<Node>, node: Node)
    requires
        tree_wf(t),
        spans_nested(t),
        span_covers(t.push(node), t.len() as int),
    ensures
        spans_nested(t.push(node)),
{
    let u = t.push(node);
    assert forall|i: int| 0 <= i < u.len() implies #[trigger] span_covers(u, i) by {
        if i < t.len() {
            assert(span_covers(t, i));
            assert(operands_before(t[i], i));
            assert(u[i] == t[i]);
            match t[i].expr {
                Expr::BinaryOp { op, left, right } => {
                    assert(u[left.0 as int] == t[left.0 as int]);
                    assert(u[right.0 as int] == t[right.0 as int]);
                },
                Expr::UnaryOp { op, operand } => {
                    assert(u[operand.0 as int] == t[operand.0 as int]);
                },
                _ => {},
            }
        }
    }
}

/// The operands of a node, in order.
pub open spec fn children(node: Node) -> Seq<NodeId> {
    match node.expr {
        Expr::Literal(_) => Seq::empty(),
        Expr::BinaryOp { op, left, right } => seq![left, right],
        Expr::UnaryOp { op, operand } => seq![operand],
        Expr::Block { statements, tail } => statements@ + match tail {
            Some(x) => seq![x],
            None => Seq::empty(),
        },
    }
}

/// How many times `id` occurs in `s`.
pub open spec fn occurrences(s: Seq<NodeId>, id: NodeId) -> nat
    decreases s.len(),
{
    if s.len() == 0 {
        0
    } else {
        occurrences(s.drop_last(), id) + if s.last() == id {
            1nat
        } else {
            0nat
        }
    }
}

/// How many times `id` stands as an operand of a node of `t`.
pub open spec fn operand_count(t: Seq<Node>, id: NodeId) -> nat
    decreases t.len(),
{
    if t.len() == 0 {
        0
    } else {
        operand_count(t.drop_last(), id) + occurrences(children(t.last()), id)
    }
}

/// The tree is a forest whose roots are `roots`: operands come before their
/// nodes, the roots are nodes of the tree, and each node is either an operand
/// of exactly one node, at exactly one place, or exactly one of the roots and
/// no operand. Going from a node to the node it is an operand of therefore
/// leads, along one path, to exactly one root.
pub open spec fn is_forest(t: Seq<Node>, roots: Seq<NodeId>) -> bool {
    &&& tree_wf(t)
    &&& forall|i: int| 0 <= i < roots.len() ==> ((#[trigger] roots[i]).0 as int) < t.len()
    &&& forall|id: NodeId|
        (id.0 as int) < t.len() ==> #[trigger] operand_count(t, id) + occurrences(roots, id) == 1
}

/// Appending to a sequence adds one occurrence of what is appended.
pub proof fn lemma_occurrences_push(s: Seq<NodeId>, a: NodeId, id: NodeId)
    ensures
        occurrences(s.push(a), id) == occurrences(s, id) + if a == id {
            1nat
        } else {
            0nat
        },
{
    assert(s.push(a).drop_last() =~= s);
}

/// The occurrences in the operands of a binary or unary node.
pub proof fn lemma_occurrences_small(a: NodeId, b: NodeId, id: NodeId)
    ensures
        occurrences(seq![a], id) == if a == id {
            1nat
        } else {
            0nat
        },
        occurrences(seq![a, b], id) == (if a == id {
            1nat
        } else {
            0nat
        }) + (if b == id {
            1nat
        } else {
            0nat
        }),
        occurrences(Seq::<NodeId>::empty(), id) == 0,
{
    lemma_occurrences_push(Seq::empty(), a, id);
    assert(Seq::<NodeId>::empty().push(a) =~= seq![a]);
    lemma_occurrences_push(seq![a], b, id);
    assert(seq![a].push(b) =~= seq![a, b]);
}

/// A value that does not occur in a sequence occurs zero times.
proof fn lemma_occurrences_absent(s: Seq<NodeId>, id: NodeId)
    requires
        forall|i: int| 0 <= i < s.len() ==> s[i] != id,
    ensures
        occurrences(s, id) == 0,
    decreases s.len(),
{
    if s.len() > 0 {
        lemma_occurrences_absent(s.drop_last(), id);
    }
}

/// Appending a node adds the occurrences among its operands.
pub proof fn lemma_operand_count_push(t: Seq<Node>, node: Node, id: NodeId)
    ensures
        operand_count(t.push(node), id) == operand_count(t, id) + occurrences(children(node), id),
{
    assert(t.push(node).drop_last() =~= t);
}

/// In a tree whose operands come before their nodes, a node not yet in the
/// tree is no operand.
pub proof fn lemma_operand_count_fresh(t: Seq<Node>, id: NodeId)
    requires
        tree_wf(t),
        (id.0 as int) >= t.len(),
    ensures
        operand_count(t, id) == 0,
    decreases t.len(),
{
    if t.len() > 0 {
        let u = t.drop_last();
        assert(tree_wf(u)) by {
            assert forall|i: int| 0 <= i < u.len() implies operands_before(#[trigger] u[i], i) by {
                assert(u[i] == t[i]);
            }
        }
        lemma_operand_count_fresh(u, id);
        let n = t.last();
        let k = t.len() - 1;
        assert(operands_before(t[k], k));
        let c = children(n);
        assert forall|i: int| 0 <= i < c.len() implies c[i] != id by {
            match n.expr {
                Expr::Block { statements, tail } => {
                    if i < statements@.len() {
                        assert(c[i] == statements@[i]);
                    }
                },
                _ => {},
            }
        }
        lemma_occurrences_absent(c, id);
    }
}

/// In a tree whose operands come before their nodes, every node has finite
/// depth, bounded by its index plus one.
pub proof fn lemma_wf_bounded(t: Seq<Node>, id: NodeId)
    requires
        tree_wf(t),
        (id.0 as int) < t.len(),
    ensures
        bounded(t, id, (id.0 + 1) as nat),
        finite_depth(t, id),
    decreases id.0,
{
    let n = (id.0 + 1) as nat;
    let nn = id.0 as nat;
    assert(operands_before(t[id.0 as int], id.0 as int));
    match t[id.0 as int].expr {
        Expr::Literal(_) => {},
        Expr::BinaryOp { op, left, right } => {
            lemma_wf_bounded(t, left);
            lemma_bound_mono(t, left, (left.0 + 1) as nat, nn);
            lemma_wf_bounded(t, right);
            lemma_bound_mono(t, right, (right.0 + 1) as nat, nn);
        },
        Expr::UnaryOp { op, operand } => {
            lemma_wf_bounded(t, operand);
            lemma_bound_mono(t, operand, (operand.0 + 1) as nat, nn);
        },
        Expr::Block { statements, tail } => {
            assert forall|k: int| 0 <= k < statements@.len() implies bounded(
                t,
                #[trigger] statements@[k],
                nn,
            ) by {
                let x = statements@[k];
                lemma_wf_bounded(t, x);
                lemma_bound_mono(t, x, (x.0 + 1) as nat, nn);
            }
            match tail {
                Some(x) => {
                    lemma_wf_bounded(t, x);
                    lemma_bound_mono(t, x, (x.0 + 1) as nat, nn);
                },
                None => {},
            }
        },
    }
    assert(bounded(t, id, n));
}

/// A larger depth bound changes nothing.
proof fn lemma_bound_mono(t: Seq<Node>, id: NodeId, n: nat, m: nat)
    requires
        bounded(t, id, n),
        n <= m,
    ensures
        bounded(t, id, m),
        code(t, id, n) == code(t, id, m),
        eval(t, id, n) == eval(t, id, m),
    decreases n, 0nat,
{
    let nn = (n - 1) as nat;
    let mm = (m - 1) as nat;
    match t[id.0 as int].expr {
        Expr::Literal(_) => {},
        Expr::BinaryOp { op, left, right } => {
            lemma_bound_mono(t, left, nn, mm);
            lemma_bound_mono(t, right, nn, mm);
        },
        Expr::UnaryOp { op, operand } => {
            lemma_bound_mono(t, operand, nn, mm);
        },
        Expr::Block { statements, tail } => {
            lemma_stmts_mono(t, statements@, nn, mm);
            match tail {
                Some(x) => {
                    lemma_bound_mono(t, x, nn, mm);
                },
                None => {},
            }
        },
    }
}

/// A larger depth bound changes nothing for block statements.
proof fn lemma_stmts_mono(t: Seq<Node>, s: Seq<NodeId>, n: nat, m: nat)
    requires
        forall|i: int| 0 <= i < s.len() ==> bounded(t, #[trigger] s[i], n),
        n <= m,
    ensures
        forall|i: int| 0 <= i < s.len() ==> bounded(t, #[trigger] s[i], m),
        stmts_code(t, s, n) == stmts_code(t, s, m),
        stmts_eval(t, s, n) == stmts_eval(t, s, m),
    decreases n, s.len() + 1,
{
    if s.len() > 0 {
        lemma_stmts_mono(t, s.drop_last(), n, m);
        lemma_bound_mono(t, s.last(), n, m);
        assert forall|i: int| 0 <= i < s.len() implies bounded(t, #[trigger] s[i], m) by {
            if i < s.len() - 1 {
                assert(s[i] == s.drop_last()[i]);
            }
        }
    }
}

/// Running the code of a node, wherever it stands in a chunk, pushes the
/// node's value and goes on after it, or stops with the node's error.
pub proof fn lemma_exec_code(
    t: Seq<Node>,
    id: NodeId,
    n: nat,
    chunk: Seq<u8>,
    ptr: int,
    stack: Seq<Value>,
)
    requires
        bounded(t, id, n),
        0 <= ptr,
        ptr + code(t, id, n).len() <= chunk.len(),
        chunk.subrange(ptr, ptr + code(t, id, n).len()) == code(t, id, n),
    ensures
        exec_from(chunk, ptr, stack) == match eval(t, id, n) {
            Ok(v) => exec_from(chunk, ptr + code(t, id, n).len(), stack.push(v)),
            Err(e) => Err(e),
        },
    decreases n, 0nat,
{
    let nn = (n - 1) as nat;
    let c = code(t, id, n);
    let end = ptr + c.len();
    assert(forall|k: int| 0 <= k < c.len() ==> chunk[ptr + k] == #[trigger] c[k]) by {
        assert forall|k: int| 0 <= k < c.len() implies chunk[ptr + k] == #[trigger] c[k] by {
            assert(chunk.subrange(ptr, end)[k] == chunk[ptr + k]);
        }
    }
    match t[id.0 as int].expr {
        Expr::Literal(Literal::Int(i)) => {
            let v = i as i32;
            lemma_i32_roundtrip(v);
            assert(c[0] == opcode_byte(Opcode::PushInt));
            assert(chunk[ptr] == 0);
            assert(chunk.subrange(ptr + 1, ptr + 5) == i32_le_bytes(v)) by {
                assert(chunk.subrange(ptr + 1, ptr + 5) =~= c.subrange(1, 5));
                assert(c.subrange(1, 5) =~= i32_le_bytes(v));
            }
            assert(step(chunk, ptr, stack) == Step::Next(ptr + 5, stack.push(Value::I32(v))));
        },
        Expr::BinaryOp { op, left, right } => {
            let cl = code(t, left, nn);
            let cr = code(t, right, nn);
            assert(c == cl + cr + seq![opcode_byte(op_opcode(op))]);
            assert(chunk.subrange(ptr, ptr + cl.len()) =~= cl) by {
                assert(chunk.subrange(ptr, ptr + cl.len()) =~= c.subrange(0, cl.len() as int));
            }
            lemma_exec_code(t, left, nn, chunk, ptr, stack);
            match eval(t, left, nn) {
                Err(e) => {},
                Ok(l) => {
                    let p1 = ptr + cl.len();
                    assert(chunk.subrange(p1, p1 + cr.len()) =~= cr) by {
                        assert(chunk.subrange(p1, p1 + cr.len()) =~= c.subrange(
                            cl.len() as int,
                            (cl.len() + cr.len()) as int,
                        ));
                    }
                    lemma_exec_code(t, right, nn, chunk, p1, stack.push(l));
                    match eval(t, right, nn) {
                        Err(e) => {},
                        Ok(r) => {
                            let p2 = p1 + cr.len();
                            let s2 = stack.push(l).push(r);
                            assert(chunk[p2] == c[(cl.len() + cr.len()) as int]);
                            assert(s2.take(s2.len() - 2) =~= stack);
                            assert(s2[s2.len() - 2] == l);
                            assert(s2[s2.len() - 1] == r);
                            match binary_value(op, l, r) {
                                Ok(x) => {
                                    assert(step(chunk, p2, s2) == Step::Next(p2 + 1, stack.push(x)));
                                },
                                Err(e) => {
                                    assert(step(chunk, p2, s2) == Step::Trap(e));
                                },
                            }
                        },
                    }
                },
            }
        },
        Expr::UnaryOp { op, operand } => {
            let co = code(t, operand, nn);
            assert(c == co + seq![opcode_byte(Opcode::Neg)]);
            assert(chunk.subrange(ptr, ptr + co.len()) =~= co) by {
                assert(chunk.subrange(ptr, ptr + co.len()) =~= c.subrange(0, co.len() as int));
            }
            lemma_exec_code(t, operand, nn, chunk, ptr, stack);
            match eval(t, operand, nn) {
                Err(e) => {},
                Ok(v) => {
                    let p1 = ptr + co.len();
                    let s1 = stack.push(v);
                    assert(chunk[p1] == c[co.len() as int]);
                    assert(s1.drop_last() =~= stack);
                    assert(s1[s1.len() - 1] == v);
                    match neg_value(v) {
                        Ok(x) => {
                            assert(step(chunk, p1, s1) == Step::Next(p1 + 1, stack.push(x)));
                        },
                        Err(e) => {
                            assert(step(chunk, p1, s1) == Step::Trap(e));
                        },
                    }
                },
            }
        },
        Expr::Block { statements, tail } => {
            let cs = stmts_code(t, statements@, nn);
            let ct = match tail {
                Some(x) => code(t, x, nn),
                None => seq![opcode_byte(Opcode::PushUnit)],
            };
            assert(c == cs + ct);
            assert(chunk.subrange(ptr, ptr + cs.len()) =~= cs) by {
                assert(chunk.subrange(ptr, ptr + cs.len()) =~= c.subrange(0, cs.len() as int));
            }
            lemma_exec_stmts(t, statements@, nn, chunk, ptr, stack);
            match stmts_eval(t, statements@, nn) {
                Err(e) => {},
                Ok(_) => {
                    let p1 = ptr + cs.len();
                    assert(chunk.subrange(p1, p1 + ct.len()) =~= ct) by {
                        assert(chunk.subrange(p1, p1 + ct.len()) =~= c.subrange(
                            cs.len() as int,
                            (cs.len() + ct.len()) as int,
                        ));
                    }
                    match tail {
                        Some(x) => {
                            lemma_exec_code(t, x, nn, chunk, p1, stack);
                        },
                        None => {
                            assert(chunk[p1] == ct[0]);
                            assert(step(chunk, p1, stack) == Step::Next(p1 + 1, stack.push(Value::Unit)));
                        },
                    }
                },
            }
        },
    }
}

/// Running the code of block statements discards each statement's value and
/// goes on after them with the stack unchanged, or stops with the first error.
proof fn lemma_exec_stmts(
    t: Seq<Node>,
    s: Seq<NodeId>,
    n: nat,
    chunk: Seq<u8>,
    ptr: int,
    stack: Seq<Value>,
)
    requires
        forall|i: int| 0 <= i < s.len() ==> bounded(t, #[trigger] s[i], n),
        0 <= ptr,
        ptr + stmts_code(t, s, n).len() <= chunk.len(),
        chunk.subrange(ptr, ptr + stmts_code(t, s, n).len()) == stmts_code(t, s, n),
    ensures
        exec_from(chunk, ptr, stack) == match stmts_eval(t, s, n) {
            Ok(_) => exec_from(chunk, ptr + stmts_code(t, s, n).len(), stack),
            Err(e) => Err(e),
        },
    decreases n, s.len() + 1,
{
    if s.len() > 0 {
        let c = stmts_code(t, s, n);
        let c0 = stmts_code(t, s.drop_last(), n);
        let cl = code(t, s.last(), n);
        assert(c == c0 + cl + seq![opcode_byte(Opcode::Pop)]);
        assert forall|i: int| 0 <= i < s.drop_last().len() implies bounded(
            t,
            #[trigger] s.drop_last()[i],
            n,
        ) by {
            assert(s.drop_last()[i] == s[i]);
        }
        assert(chunk.subrange(ptr, ptr + c0.len()) =~= c0) by {
            assert(chunk.subrange(ptr, ptr + c0.len()) =~= chunk.subrange(ptr, ptr + c.len()).subrange(0, c0.len() as int));
        }
        lemma_exec_stmts(t, s.drop_last(), n, chunk, ptr, stack);
        match stmts_eval(t, s.drop_last(), n) {
            Err(e) => {},
            Ok(_) => {
                let p1 = ptr + c0.len();
                assert(chunk.subrange(p1, p1 + cl.len()) =~= cl) by {
                    assert(chunk.subrange(p1, p1 + cl.len()) =~= chunk.subrange(ptr, ptr + c.len()).subrange(
                        c0.len() as int,
                        (c0.len() + cl.len()) as int,
                    ));
                }
                assert(bounded(t, s[s.len() - 1], n));
                lemma_exec_code(t, s.last(), n, chunk, p1, stack);
                match eval(t, s.last(), n) {
                    Err(e) => {},
                    Ok(v) => {
                        let p2 = p1 + cl.len();
                        assert(chunk[p2] == chunk.subrange(ptr, ptr + c.len())[(c0.len() + cl.len()) as int]);
                        assert(chunk[p2] == c[(c0.len() + cl.len()) as int]);
                        assert(stack.push(v).drop_last() =~= stack);
                        assert(step(chunk, p2, stack.push(v)) == Step::Next(p2 + 1, stack));
                    },
                }
            },
        }
    }
}

} // verus!
