//! The translator from the statement tree to flat instructions.
//!
//! Compilation is one linear pass with no fix-up phase: the output is purely
//! additive, with no jumps.  A literal becomes `PushLit` (strings get heap
//! storage at compile time), an identifier `PushGlobal`, an assignment
//! compiles its right-hand side and then `SetGlobal`, and a call compiles
//! the receiver, then each argument left to right, then `SendMessage`.  A
//! block compiles its statements into an independent instruction buffer,
//! stored as a heap object and pushed as a pointer literal.
//!
//! The `*_compiled` relations state exactly which instruction sequence a
//! tree compiles to, against the heap in which its string and block objects
//! were allocated.

use vstd::prelude::*;

use crate::ast::{Execution, Expr, Stmt};
use crate::bytecode::{block_at, encode_op, op_a, op_b, op_tag, OpCode};
use crate::errors::VmError;
use crate::heap::{round_up_align, Heap};
use crate::heapmap::{heap_extended, lemma_map_offsets};
use crate::value::{lit_value_ok, Value, TypeId};

verus! {

/// A call's message must be an identifier, at every nesting depth;
/// anything else is a front-end fault that never reaches the compiler.
pub open spec fn wf_expr(e: Expr) -> bool
    decreases e,
{
    match e {
        Expr::Ident(_) => true,
        Expr::Lit(_) => true,
        Expr::Block(b) => forall|i: int| 0 <= i < b@.len() ==> wf_stmt(#[trigger] b@[i]),
    }
}

pub open spec fn wf_execution(e: Execution) -> bool
    decreases e,
{
    match e {
        Execution::Single(x) => wf_expr(x),
        Execution::Called(inst, msg, args) => {
            &&& msg is Ident
            &&& wf_expr(inst)
            &&& forall|i: int| 0 <= i < args@.len() ==> wf_expr(#[trigger] args@[i])
        },
    }
}

pub open spec fn wf_stmt(s: Stmt) -> bool
    decreases s,
{
    match s {
        Stmt::Exe(e) => wf_execution(e),
        Stmt::Assignment { dst, rhs } => wf_execution(rhs),
    }
}

/// `ops` is the compilation of expression `e`, with every object it refers
/// to present in heap `h`.
pub open spec fn expr_compiled(h: Heap, e: Expr, ops: Seq<OpCode>) -> bool
    decreases e,
{
    match e {
        Expr::Ident(i) => ops.len() == 1 && ops[0] == OpCode::PushGlobal(i.id),
        Expr::Lit(l) => ops.len() == 1 && (ops[0] matches OpCode::PushLit(v) && lit_value_ok(
            h,
            l,
            v,
        )),
        Expr::Block(b) => ops.len() == 1 && (ops[0] matches OpCode::PushLit(v) && v.is_ptr_spec()
            && exists|inner: Seq<OpCode>|
            #[trigger] block_at(h, v.as_ptr_spec() as int, inner) && stmts_compiled(h, b@, inner)),
    }
}

/// `ops` is the concatenation of compilations of the expressions `es`.
pub open spec fn exprs_compiled(h: Heap, es: Seq<Expr>, ops: Seq<OpCode>) -> bool
    decreases es,
{
    if es.len() == 0 {
        ops.len() == 0
    } else {
        exists|k: int|
            #![trigger ops.take(k), ops.skip(k)]
            0 <= k <= ops.len() && expr_compiled(h, es[0], ops.take(k)) && exprs_compiled(
                h,
                es.skip(1),
                ops.skip(k),
            )
    }
}

pub open spec fn execution_compiled(h: Heap, e: Execution, ops: Seq<OpCode>) -> bool
    decreases e,
{
    match e {
        Execution::Single(x) => expr_compiled(h, x, ops),
        Execution::Called(inst, msg, args) => {
            &&& msg matches Expr::Ident(m)
            &&& ops.len() >= 1
            &&& ops.last() == (OpCode::SendMessage { id: m.id, arg_count: args@.len() as u64 })
            &&& exists|k: int|
                #![trigger ops.drop_last().take(k), ops.drop_last().skip(k)]
                0 <= k <= ops.len() - 1 && expr_compiled(h, inst, ops.drop_last().take(k))
                    && exprs_compiled(h, args@, ops.drop_last().skip(k))
        },
    }
}

pub open spec fn stmt_compiled(h: Heap, s: Stmt, ops: Seq<OpCode>) -> bool
    decreases s,
{
    match s {
        Stmt::Exe(e) => execution_compiled(h, e, ops),
        Stmt::Assignment { dst, rhs } => {
            &&& ops.len() >= 1
            &&& ops.last() == OpCode::SetGlobal(dst.id)
            &&& execution_compiled(h, rhs, ops.drop_last())
        },
    }
}

/// `ops` is the concatenation of compilations of the statements `ss`.
pub open spec fn stmts_compiled(h: Heap, ss: Seq<Stmt>, ops: Seq<OpCode>) -> bool
    decreases ss,
{
    if ss.len() == 0 {
        ops.len() == 0
    } else {
        exists|k: int|
            #![trigger ops.take(k), ops.skip(k)]
            0 <= k <= ops.len() && stmt_compiled(h, ss[0], ops.take(k)) && stmts_compiled(
                h,
                ss.skip(1),
                ops.skip(k),
            )
    }
}

/// How many instructions an execution emits into its own buffer: one for
/// a bare expression; receiver, arguments and the send for a call.
pub open spec fn execution_op_count(e: Execution) -> nat {
    match e {
        Execution::Single(_) => 1,
        Execution::Called(_, _, args) => (args@.len() + 2) as nat,
    }
}

/// How many instructions a statement emits into its own buffer (a block's
/// inner instructions go to the block's independent buffer).
pub open spec fn stmt_op_count(s: Stmt) -> nat {
    match s {
        Stmt::Exe(e) => execution_op_count(e),
        Stmt::Assignment { dst, rhs } => execution_op_count(rhs) + 1,
    }
}

pub open spec fn stmts_op_count(ss: Seq<Stmt>) -> nat
    decreases ss,
{
    if ss.len() == 0 {
        0
    } else {
        stmt_op_count(ss[0]) + stmts_op_count(ss.skip(1))
    }
}

/// An upper bound on the heap bytes compiling an expression can consume:
/// string literals and block objects allocate, nothing else does.
pub open spec fn expr_budget(e: Expr) -> nat
    decreases e,
{
    match e {
        Expr::Ident(_) => 0,
        Expr::Lit(l) => crate::value::lit_budget(l),
        Expr::Block(b) => (40 + 24 * stmts_op_count(b@) + stmts_budget(b@)) as nat,
    }
}

pub open spec fn exprs_budget(es: Seq<Expr>) -> nat
    decreases es,
{
    if es.len() == 0 {
        0
    } else {
        expr_budget(es[0]) + exprs_budget(es.skip(1))
    }
}

pub open spec fn execution_budget(e: Execution) -> nat
    decreases e,
{
    match e {
        Execution::Single(x) => expr_budget(x),
        Execution::Called(inst, msg, args) => expr_budget(inst) + exprs_budget(args@),
    }
}

pub open spec fn stmt_budget(s: Stmt) -> nat
    decreases s,
{
    match s {
        Stmt::Exe(e) => execution_budget(e),
        Stmt::Assignment { dst, rhs } => execution_budget(rhs),
    }
}

pub open spec fn stmts_budget(ss: Seq<Stmt>) -> nat
    decreases ss,
{
    if ss.len() == 0 {
        0
    } else {
        stmt_budget(ss[0]) + stmts_budget(ss.skip(1))
    }
}

proof fn lemma_stmts_op_count_snoc(ss: Seq<Stmt>, s: Stmt)
    ensures
        stmts_op_count(ss.push(s)) == stmts_op_count(ss) + stmt_op_count(s),
    decreases ss,
{
    if ss.len() == 0 {
        assert(ss.push(s)[0] == s);
        assert(ss.push(s).skip(1) =~= Seq::<Stmt>::empty());
        assert(stmts_op_count(Seq::<Stmt>::empty()) == 0);
    } else {
        assert(ss.push(s)[0] == ss[0]);
        assert(ss.push(s).skip(1) =~= ss.skip(1).push(s));
        lemma_stmts_op_count_snoc(ss.skip(1), s);
    }
}

proof fn lemma_exprs_budget_snoc(es: Seq<Expr>, e: Expr)
    ensures
        exprs_budget(es.push(e)) == exprs_budget(es) + expr_budget(e),
    decreases es,
{
    if es.len() == 0 {
        assert(es.push(e)[0] == e);
        assert(es.push(e).skip(1) =~= Seq::<Expr>::empty());
        assert(exprs_budget(Seq::<Expr>::empty()) == 0);
    } else {
        assert(es.push(e)[0] == es[0]);
        assert(es.push(e).skip(1) =~= es.skip(1).push(e));
        lemma_exprs_budget_snoc(es.skip(1), e);
    }
}

proof fn lemma_stmts_budget_snoc(ss: Seq<Stmt>, s: Stmt)
    ensures
        stmts_budget(ss.push(s)) == stmts_budget(ss) + stmt_budget(s),
    decreases ss,
{
    if ss.len() == 0 {
        assert(ss.push(s)[0] == s);
        assert(ss.push(s).skip(1) =~= Seq::<Stmt>::empty());
        assert(stmts_budget(Seq::<Stmt>::empty()) == 0);
    } else {
        assert(ss.push(s)[0] == ss[0]);
        assert(ss.push(s).skip(1) =~= ss.skip(1).push(s));
        lemma_stmts_budget_snoc(ss.skip(1), s);
    }
}

/// A prefix never exceeds the whole sequence's budget.
proof fn lemma_exprs_budget_take_le(es: Seq<Expr>, i: int)
    requires
        0 <= i <= es.len(),
    ensures
        exprs_budget(es.take(i)) <= exprs_budget(es),
    decreases i,
{
    if i == 0 {
        assert(es.take(0) =~= Seq::<Expr>::empty());
    } else {
        lemma_exprs_budget_take_le(es, i - 1);
        assert(es.take(i) =~= es.take(i - 1).push(es[i - 1]));
        lemma_exprs_budget_snoc(es.take(i - 1), es[i - 1]);
        assert(exprs_budget(es) == exprs_budget(es.take(i)) + exprs_budget(es.skip(i))) by {
            lemma_exprs_budget_split(es, i);
        }
    }
}

proof fn lemma_exprs_budget_split(es: Seq<Expr>, i: int)
    requires
        0 <= i <= es.len(),
    ensures
        exprs_budget(es) == exprs_budget(es.take(i)) + exprs_budget(es.skip(i)),
    decreases i,
{
    if i == 0 {
        assert(es.take(0) =~= Seq::<Expr>::empty());
        assert(es.skip(0) =~= es);
    } else {
        lemma_exprs_budget_split(es, i - 1);
        assert(es.take(i) =~= es.take(i - 1).push(es[i - 1]));
        lemma_exprs_budget_snoc(es.take(i - 1), es[i - 1]);
        assert(es.skip(i - 1)[0] == es[i - 1]);
        assert(es.skip(i - 1).skip(1) =~= es.skip(i));
    }
}

proof fn lemma_stmts_budget_split(ss: Seq<Stmt>, i: int)
    requires
        0 <= i <= ss.len(),
    ensures
        stmts_budget(ss) == stmts_budget(ss.take(i)) + stmts_budget(ss.skip(i)),
    decreases i,
{
    if i == 0 {
        assert(ss.take(0) =~= Seq::<Stmt>::empty());
        assert(ss.skip(0) =~= ss);
    } else {
        lemma_stmts_budget_split(ss, i - 1);
        assert(ss.take(i) =~= ss.take(i - 1).push(ss[i - 1]));
        lemma_stmts_budget_snoc(ss.take(i - 1), ss[i - 1]);
        assert(ss.skip(i - 1)[0] == ss[i - 1]);
        assert(ss.skip(i - 1).skip(1) =~= ss.skip(i));
    }
}

// The compiled-code relations only mention objects below the cursor, so
// they survive any further heap growth.

pub proof fn lemma_expr_compiled_extended(h0: Heap, h1: Heap, e: Expr, ops: Seq<OpCode>)
    requires
        expr_compiled(h0, e, ops),
        heap_extended(h0, h1),
    ensures
        expr_compiled(h1, e, ops),
    decreases e,
{
    match e {
        Expr::Ident(_) => {},
        Expr::Lit(l) => {
            if let OpCode::PushLit(v) = ops[0] {
                if let crate::ast::Literal::Str(s) = l {
                    assert(crate::value::string_at(h1, v.as_ptr_spec() as int, s@));
                }
            }
        },
        Expr::Block(b) => {
            if let OpCode::PushLit(v) = ops[0] {
                let inner = choose|inner: Seq<OpCode>|
                    #[trigger] block_at(h0, v.as_ptr_spec() as int, inner) && stmts_compiled(
                        h0,
                        b@,
                        inner,
                    );
                assert(block_at(h1, v.as_ptr_spec() as int, inner));
                lemma_stmts_compiled_extended(h0, h1, b@, inner);
                assert(stmts_compiled(h1, b@, inner));
            }
        },
    }
}

pub proof fn lemma_exprs_compiled_extended(h0: Heap, h1: Heap, es: Seq<Expr>, ops: Seq<OpCode>)
    requires
        exprs_compiled(h0, es, ops),
        heap_extended(h0, h1),
    ensures
        exprs_compiled(h1, es, ops),
    decreases es,
{
    if es.len() > 0 {
        let k = choose|k: int|
            #![trigger ops.take(k), ops.skip(k)]
            0 <= k <= ops.len() && expr_compiled(h0, es[0], ops.take(k)) && exprs_compiled(
                h0,
                es.skip(1),
                ops.skip(k),
            );
        lemma_expr_compiled_extended(h0, h1, es[0], ops.take(k));
        lemma_exprs_compiled_extended(h0, h1, es.skip(1), ops.skip(k));
    }
}

pub proof fn lemma_execution_compiled_extended(h0: Heap, h1: Heap, e: Execution, ops: Seq<OpCode>)
    requires
        execution_compiled(h0, e, ops),
        heap_extended(h0, h1),
    ensures
        execution_compiled(h1, e, ops),
    decreases e,
{
    match e {
        Execution::Single(x) => {
            lemma_expr_compiled_extended(h0, h1, x, ops);
        },
        Execution::Called(inst, msg, args) => {
            let k = choose|k: int|
                #![trigger ops.drop_last().take(k), ops.drop_last().skip(k)]
                0 <= k <= ops.len() - 1 && expr_compiled(h0, inst, ops.drop_last().take(k))
                    && exprs_compiled(h0, args@, ops.drop_last().skip(k));
            lemma_expr_compiled_extended(h0, h1, inst, ops.drop_last().take(k));
            lemma_exprs_compiled_extended(h0, h1, args@, ops.drop_last().skip(k));
        },
    }
}

pub proof fn lemma_stmt_compiled_extended(h0: Heap, h1: Heap, s: Stmt, ops: Seq<OpCode>)
    requires
        stmt_compiled(h0, s, ops),
        heap_extended(h0, h1),
    ensures
        stmt_compiled(h1, s, ops),
    decreases s,
{
    match s {
        Stmt::Exe(e) => {
            lemma_execution_compiled_extended(h0, h1, e, ops);
        },
        Stmt::Assignment { dst, rhs } => {
            lemma_execution_compiled_extended(h0, h1, rhs, ops.drop_last());
        },
    }
}

pub proof fn lemma_stmts_compiled_extended(h0: Heap, h1: Heap, ss: Seq<Stmt>, ops: Seq<OpCode>)
    requires
        stmts_compiled(h0, ss, ops),
        heap_extended(h0, h1),
    ensures
        stmts_compiled(h1, ss, ops),
    decreases ss,
{
    if ss.len() > 0 {
        let k = choose|k: int|
            #![trigger ops.take(k), ops.skip(k)]
            0 <= k <= ops.len() && stmt_compiled(h0, ss[0], ops.take(k)) && stmts_compiled(
                h0,
                ss.skip(1),
                ops.skip(k),
            );
        lemma_stmt_compiled_extended(h0, h1, ss[0], ops.take(k));
        lemma_stmts_compiled_extended(h0, h1, ss.skip(1), ops.skip(k));
    }
}

/// Appending the compilation of one more expression extends the
/// concatenation relation.
proof fn lemma_exprs_compiled_snoc(h: Heap, es: Seq<Expr>, e: Expr, ops1: Seq<OpCode>, ops2: Seq<
    OpCode,
>)
    requires
        exprs_compiled(h, es, ops1),
        expr_compiled(h, e, ops2),
    ensures
        exprs_compiled(h, es.push(e), ops1 + ops2),
    decreases es,
{
    let all = ops1 + ops2;
    if es.len() == 0 {
        assert(es.push(e)[0] == e);
        assert(all.take(ops2.len() as int) =~= ops2);
        assert(all.skip(ops2.len() as int) =~= Seq::<OpCode>::empty());
        assert(es.push(e).skip(1) =~= Seq::<Expr>::empty());
        assert(expr_compiled(h, es.push(e)[0], all.take(ops2.len() as int)));
        assert(exprs_compiled(h, es.push(e).skip(1), all.skip(ops2.len() as int)));
    } else {
        let k = choose|k: int|
            #![trigger ops1.take(k), ops1.skip(k)]
            0 <= k <= ops1.len() && expr_compiled(h, es[0], ops1.take(k)) && exprs_compiled(
                h,
                es.skip(1),
                ops1.skip(k),
            );
        lemma_exprs_compiled_snoc(h, es.skip(1), e, ops1.skip(k), ops2);
        assert(es.push(e)[0] == es[0]);
        assert(es.push(e).skip(1) =~= es.skip(1).push(e));
        assert(all.take(k) =~= ops1.take(k));
        assert(all.skip(k) =~= ops1.skip(k) + ops2);
        assert(expr_compiled(h, es.push(e)[0], all.take(k)));
        assert(exprs_compiled(h, es.push(e).skip(1), all.skip(k)));
    }
}

/// Appending the compilation of one more statement extends the
/// concatenation relation.
proof fn lemma_stmts_compiled_snoc(h: Heap, ss: Seq<Stmt>, s: Stmt, ops1: Seq<OpCode>, ops2: Seq<
    OpCode,
>)
    requires
        stmts_compiled(h, ss, ops1),
        stmt_compiled(h, s, ops2),
    ensures
        stmts_compiled(h, ss.push(s), ops1 + ops2),
    decreases ss,
{
    let all = ops1 + ops2;
    if ss.len() == 0 {
        assert(ss.push(s)[0] == s);
        assert(all.take(ops2.len() as int) =~= ops2);
        assert(all.skip(ops2.len() as int) =~= Seq::<OpCode>::empty());
        assert(ss.push(s).skip(1) =~= Seq::<Stmt>::empty());
        assert(stmt_compiled(h, ss.push(s)[0], all.take(ops2.len() as int)));
        assert(stmts_compiled(h, ss.push(s).skip(1), all.skip(ops2.len() as int)));
    } else {
        let k = choose|k: int|
            #![trigger ops1.take(k), ops1.skip(k)]
            0 <= k <= ops1.len() && stmt_compiled(h, ss[0], ops1.take(k)) && stmts_compiled(
                h,
                ss.skip(1),
                ops1.skip(k),
            );
        lemma_stmts_compiled_snoc(h, ss.skip(1), s, ops1.skip(k), ops2);
        assert(ss.push(s)[0] == ss[0]);
        assert(ss.push(s).skip(1) =~= ss.skip(1).push(s));
        assert(all.take(k) =~= ops1.take(k));
        assert(all.skip(k) =~= ops1.skip(k) + ops2);
        assert(stmt_compiled(h, ss.push(s)[0], all.take(k)));
        assert(stmts_compiled(h, ss.push(s).skip(1), all.skip(k)));
    }
}

/// Compiles one statement, appending its instructions to `code`.
#[verifier::loop_isolation(false)]
pub fn compile_stmt(stmt: &Stmt, code: &mut Vec<OpCode>, heap: &mut Heap) -> (r: Result<
    (),
    VmError,
>)
    requires
        old(heap).wf(),
        wf_stmt(*stmt),
    ensures
        final(heap).wf(),
        final(heap).capacity() == old(heap).capacity(),
        final(heap).words().len() == old(heap).words().len(),
        heap_extended(*old(heap), *final(heap)),
        old(code)@.is_prefix_of(final(code)@),
        match r {
            Ok(()) => stmt_compiled(
                *final(heap),
                *stmt,
                final(code)@.skip(old(code)@.len() as int),
            ),
            Err(e) => e == VmError::OutOfMemory,
        },
        r is Ok ==> final(code)@.len() == old(code)@.len() + stmt_op_count(*stmt),
        r is Ok ==> final(heap).cursor() <= old(heap).cursor() + stmt_budget(*stmt),
        old(heap).cursor() + stmt_budget(*stmt) <= old(heap).capacity() ==> r is Ok,
    decreases *stmt,
{
    match stmt {
        Stmt::Exe(e) => {
            proof {
                assert(decreases_to!(*stmt => *e));
            }
            match compile_execution(e, code, heap) {
                Ok(()) => Ok(()),
                Err(e) => Err(e),
            }
        },
        Stmt::Assignment { dst, rhs } => {
            let ghost c0 = code@;
            proof {
                assert(decreases_to!(*stmt => *rhs));
            }
            match compile_execution(rhs, code, heap) {
                Ok(()) => {},
                Err(e) => {
                    return Err(e);
                },
            }
            let ghost c1 = code@;
            code.push(OpCode::SetGlobal(dst.id));
            proof {
                assert(code@.skip(c0.len() as int).drop_last() =~= c1.skip(c0.len() as int));
                assert(code@.skip(c0.len() as int).last() == OpCode::SetGlobal(dst.id));
            }
            Ok(())
        },
    }
}

/// Compiles one execution: a bare expression, or receiver, arguments and
/// `SendMessage`.
#[verifier::loop_isolation(false)]
pub fn compile_execution(exe: &Execution, code: &mut Vec<OpCode>, heap: &mut Heap) -> (r: Result<
    (),
    VmError,
>)
    requires
        old(heap).wf(),
        wf_execution(*exe),
    ensures
        final(heap).wf(),
        final(heap).capacity() == old(heap).capacity(),
        final(heap).words().len() == old(heap).words().len(),
        heap_extended(*old(heap), *final(heap)),
        old(code)@.is_prefix_of(final(code)@),
        match r {
            Ok(()) => execution_compiled(
                *final(heap),
                *exe,
                final(code)@.skip(old(code)@.len() as int),
            ),
            Err(e) => e == VmError::OutOfMemory,
        },
        r is Ok ==> final(code)@.len() == old(code)@.len() + execution_op_count(*exe),
        r is Ok ==> final(heap).cursor() <= old(heap).cursor() + execution_budget(*exe),
        old(heap).cursor() + execution_budget(*exe) <= old(heap).capacity() ==> r is Ok,
    decreases *exe,
{
    match exe {
        Execution::Single(e) => {
            proof {
                assert(decreases_to!(*exe => *e));
            }
            match compile_expr(e, code, heap) {
                Ok(()) => Ok(()),
                Err(e) => Err(e),
            }
        },
        Execution::Called(instance, message, args) => {
            let m = match message {
                Expr::Ident(m) => m,
                _ => {
                    proof {
                        assert(false);
                    }
                    return Err(VmError::OutOfMemory);
                },
            };
            let ghost c0 = code@;
            let ghost h0 = *heap;
            proof {
                assert(decreases_to!(*exe => *instance));
            }
            match compile_expr(instance, code, heap) {
                Ok(()) => {},
                Err(e) => {
                    return Err(e);
                },
            }
            let ghost c_inst = code@.skip(c0.len() as int);
            let ghost h_inst = *heap;
            let arg_count = args.len() as u64;
            let mut i: usize = 0;
            while i < args.len()
                invariant
                    heap.wf(),
                    heap.capacity() == h0.capacity(),
                    heap.words().len() == h0.words().len(),
                    heap_extended(h0, *heap),
                    i <= args.len(),
                    c0.is_prefix_of(code@),
                    (c0 + c_inst).is_prefix_of(code@),
                    code@.len() == c0.len() + 1 + i,
                    heap.cursor() <= h0.cursor() + expr_budget(*instance) + exprs_budget(
                        args@.take(i as int),
                    ),
                    expr_compiled(*heap, *instance, c_inst),
                    exprs_compiled(*heap, args@.map_values(|a: Expr| a).take(i as int), code@.skip(
                        (c0.len() + c_inst.len()) as int,
                    )),
                decreases args.len() - i,
            {
                let ghost h_pre = *heap;
                let ghost c_pre = code@;
                proof {
                    assert(wf_expr(args@[i as int]));
                    assert(decreases_to!(*exe => *args));
                    assert(decreases_to!(*args => args@));
                    assert(decreases_to!(args@ => args@[i as int]));
                }
                match compile_expr(&args[i], code, heap) {
                    Ok(()) => {},
                    Err(e) => {
                        proof {
                            assert(args@.take(i as int).push(args@[i as int]) =~= args@.take(
                                i as int + 1,
                            ));
                            lemma_exprs_budget_snoc(args@.take(i as int), args@[i as int]);
                            lemma_exprs_budget_split(args@, i as int + 1);
                        }
                        return Err(e);
                    },
                }
                proof {
                    assert(args@.take(i as int).push(args@[i as int]) =~= args@.take(
                        i as int + 1,
                    ));
                    lemma_exprs_budget_snoc(args@.take(i as int), args@[i as int]);
                    lemma_exprs_budget_split(args@, i as int + 1);
                    lemma_expr_compiled_extended(h_pre, *heap, *instance, c_inst);
                    lemma_exprs_compiled_extended(
                        h_pre,
                        *heap,
                        args@.map_values(|a: Expr| a).take(i as int),
                        c_pre.skip((c0.len() + c_inst.len()) as int),
                    );
                    lemma_exprs_compiled_snoc(
                        *heap,
                        args@.map_values(|a: Expr| a).take(i as int),
                        args@[i as int],
                        c_pre.skip((c0.len() + c_inst.len()) as int),
                        code@.skip(c_pre.len() as int),
                    );
                    assert(args@.map_values(|a: Expr| a).take(i as int).push(args@[i as int])
                        =~= args@.map_values(|a: Expr| a).take(i as int + 1));
                    assert(c_pre.skip((c0.len() + c_inst.len()) as int) + code@.skip(
                        c_pre.len() as int,
                    ) =~= code@.skip((c0.len() + c_inst.len()) as int));
                }
                i = i + 1;
            }
            let ghost c_end = code@;
            code.push(OpCode::SendMessage { id: m.id, arg_count });
            proof {
                let seg = code@.skip(c0.len() as int);
                let k = c_inst.len() as int;
                assert(args@.map_values(|a: Expr| a).take(args@.len() as int) =~= args@);
                assert(args@.take(args@.len() as int) =~= args@);
                assert(seg.drop_last() =~= c_end.skip(c0.len() as int));
                assert(c_end.take((c0.len() + c_inst.len()) as int) == c0 + c_inst);
                assert forall|t: int| 0 <= t < k implies seg.drop_last().take(k)[t]
                    == c_inst[t] by {
                    assert(c_end[c0.len() + t] == (c0 + c_inst)[c0.len() + t]);
                }
                assert(seg.drop_last().take(k) =~= c_inst);
                assert(seg.drop_last().skip(k) =~= c_end.skip((c0.len() + c_inst.len()) as int));
                assert(expr_compiled(*heap, *instance, seg.drop_last().take(k)));
                assert(exprs_compiled(*heap, args@, seg.drop_last().skip(k)));
                assert(seg.last() == (OpCode::SendMessage {
                    id: m.id,
                    arg_count: args@.len() as u64,
                }));
                assert(execution_compiled(*heap, *exe, seg));
            }
            Ok(())
        },
    }
}

/// Compiles one expression: a literal push, a global read, or a block
/// object.
#[verifier::loop_isolation(false)]
pub fn compile_expr(expr: &Expr, code: &mut Vec<OpCode>, heap: &mut Heap) -> (r: Result<
    (),
    VmError,
>)
    requires
        old(heap).wf(),
        wf_expr(*expr),
    ensures
        final(heap).wf(),
        final(heap).capacity() == old(heap).capacity(),
        final(heap).words().len() == old(heap).words().len(),
        heap_extended(*old(heap), *final(heap)),
        old(code)@.is_prefix_of(final(code)@),
        match r {
            Ok(()) => expr_compiled(
                *final(heap),
                *expr,
                final(code)@.skip(old(code)@.len() as int),
            ),
            Err(e) => e == VmError::OutOfMemory,
        },
        r is Ok ==> final(code)@.len() == old(code)@.len() + 1,
        r is Ok ==> final(heap).cursor() <= old(heap).cursor() + expr_budget(*expr),
        old(heap).cursor() + expr_budget(*expr) <= old(heap).capacity() ==> r is Ok,
    decreases *expr,
{
    match expr {
        Expr::Lit(l) => {
            let v = match Value::from_literal(l, heap) {
                Ok(v) => v,
                Err(e) => {
                    return Err(e);
                },
            };
            code.push(OpCode::PushLit(v));
            proof {
                let seg = code@.skip(old(code)@.len() as int);
                assert(seg.len() == 1);
                assert(seg[0] == OpCode::PushLit(v));
                assert(expr_compiled(*heap, *expr, seg));
            }
            Ok(())
        },
        Expr::Ident(i) => {
            code.push(OpCode::PushGlobal(i.id));
            proof {
                let seg = code@.skip(old(code)@.len() as int);
                assert(seg.len() == 1);
                assert(seg[0] == OpCode::PushGlobal(i.id));
                assert(expr_compiled(*heap, *expr, seg));
            }
            Ok(())
        },
        Expr::Block(b) => {
            let mut ops: Vec<OpCode> = Vec::new();
            let ghost h0 = *heap;
            let mut i: usize = 0;
            while i < b.len()
                invariant
                    heap.wf(),
                    heap.capacity() == h0.capacity(),
                    heap.words().len() == h0.words().len(),
                    heap_extended(h0, *heap),
                    i <= b.len(),
                    ops@.len() == stmts_op_count(b@.take(i as int)),
                    heap.cursor() <= h0.cursor() + stmts_budget(b@.take(i as int)),
                    stmts_compiled(*heap, b@.map_values(|s: Stmt| s).take(i as int), ops@),
                decreases b.len() - i,
            {
                let ghost h_pre = *heap;
                let ghost o_pre = ops@;
                proof {
                    assert(wf_stmt(b@[i as int]));
                    assert(decreases_to!(*expr => *b));
                    assert(decreases_to!(*b => b@));
                    assert(decreases_to!(b@ => b@[i as int]));
                }
                match compile_stmt(&b[i], &mut ops, heap) {
                    Ok(()) => {},
                    Err(e) => {
                        proof {
                            assert(b@.take(i as int).push(b@[i as int]) =~= b@.take(i as int + 1));
                            lemma_stmts_budget_snoc(b@.take(i as int), b@[i as int]);
                            lemma_stmts_budget_split(b@, i as int + 1);
                        }
                        return Err(e);
                    },
                }
                proof {
                    assert(b@.take(i as int).push(b@[i as int]) =~= b@.take(i as int + 1));
                    lemma_stmts_op_count_snoc(b@.take(i as int), b@[i as int]);
                    lemma_stmts_budget_snoc(b@.take(i as int), b@[i as int]);
                    lemma_stmts_compiled_extended(
                        h_pre,
                        *heap,
                        b@.map_values(|s: Stmt| s).take(i as int),
                        o_pre,
                    );
                    lemma_stmts_compiled_snoc(
                        *heap,
                        b@.map_values(|s: Stmt| s).take(i as int),
                        b@[i as int],
                        o_pre,
                        ops@.skip(o_pre.len() as int),
                    );
                    assert(b@.map_values(|s: Stmt| s).take(i as int).push(b@[i as int])
                        =~= b@.map_values(|s: Stmt| s).take(i as int + 1));
                    assert(o_pre + ops@.skip(o_pre.len() as int) =~= ops@);
                }
                i = i + 1;
            }
            let ghost h_comp = *heap;
            proof {
                assert(b@.take(b@.len() as int) =~= b@);
            }
            // Store the finished buffer as a heap object: a length word,
            // then three words per instruction.
            let n = ops.len();
            if n as u64 > crate::heap::MAX_CAPACITY / 24 {
                // An instruction array this large cannot fit any heap.
                proof {
                    assert(24 * (n as int) > crate::heap::MAX_CAPACITY);
                }
                return Err(VmError::OutOfMemory);
            }
            let size = 8 + 24 * (n as u64);
            let p = match heap.allocate(size, TypeId::CompiledBytecode) {
                Some(p) => p,
                None => {
                    proof {
                        crate::heap::lemma_round_up_bounds(h_comp.cursor() as int);
                        lemma_stmts_compiled_extended(
                            h_comp,
                            *heap,
                            b@.map_values(|s: Stmt| s).take(b@.len() as int),
                            ops@,
                        );
                    }
                    return Err(VmError::OutOfMemory);
                },
            };
            let ghost h_alloc = *heap;
            proof {
                crate::heap::lemma_round_up_bounds(h_comp.cursor() as int);
            }
            proof {
                lemma_map_offsets(p, 0);
            }
            heap.store(p, n as u64);
            let mut j: usize = 0;
            while j < n
                invariant
                    heap.wf(),
                    heap.capacity() == h_alloc.capacity(),
                    heap.cursor() == h_alloc.cursor(),
                    heap.cursor() == p + size,
                    heap.words().len() == h_alloc.words().len(),
                    j <= n,
                    n == ops@.len(),
                    heap.words()[p as int / 8] == n as u64,
                    heap.type_code_at(p as int) == crate::value::type_id_code_spec(
                        TypeId::CompiledBytecode,
                    ),
                    forall|t: int|
                        0 <= t < j ==> {
                            &&& heap.words()[p as int / 8 + 1 + 3 * t] == op_tag(#[trigger] ops@[t])
                            &&& heap.words()[p as int / 8 + 2 + 3 * t] == op_a(ops@[t])
                            &&& heap.words()[p as int / 8 + 3 + 3 * t] == op_b(ops@[t])
                        },
                    forall|w: int|
                        0 <= w && 8 * w + 8 <= h_comp.cursor() ==> heap.words()[w]
                            == h_comp.words()[w],
                decreases n - j,
            {
                let (t, a, bb) = encode_op(&ops[j]);
                let base = p + 8 + 24 * (j as u64);
                proof {
                    lemma_block_offsets(p, j as int);
                }
                heap.store(base, t);
                heap.store(base + 8, a);
                heap.store(base + 16, bb);
                proof {
                    assert forall|tt: int| 0 <= tt < j + 1 implies {
                        &&& heap.words()[p as int / 8 + 1 + 3 * tt] == op_tag(
                            #[trigger] ops@[tt],
                        )
                        &&& heap.words()[p as int / 8 + 2 + 3 * tt] == op_a(ops@[tt])
                        &&& heap.words()[p as int / 8 + 3 + 3 * tt] == op_b(ops@[tt])
                    } by {
                        lemma_block_offsets(p, tt);
                    }
                }
                j = j + 1;
            }
            let v = Value::from_ptr(p);
            code.push(OpCode::PushLit(v));
            proof {
                assert(block_at(*heap, p as int, ops@));
                lemma_stmts_compiled_extended(
                    h_comp,
                    *heap,
                    b@.map_values(|s: Stmt| s).take(b@.len() as int),
                    ops@,
                );
                assert(b@.map_values(|s: Stmt| s).take(b@.len() as int) =~= b@.map_values(
                    |s: Stmt| s,
                ));
                lemma_stmts_compiled_map_id(*heap, b@, ops@);
                assert(stmts_compiled(*heap, b@, ops@));
            }
            Ok(())
        },
    }
}

/// The identity mapping over a statement sequence changes nothing.
proof fn lemma_stmts_compiled_map_id(h: Heap, ss: Seq<Stmt>, ops: Seq<OpCode>)
    requires
        stmts_compiled(h, ss.map_values(|s: Stmt| s), ops),
    ensures
        stmts_compiled(h, ss, ops),
{
    assert(ss.map_values(|s: Stmt| s) =~= ss);
}

/// Word indices of the three words of instruction `j` in a block object at
/// `p`.
proof fn lemma_block_offsets(p: u64, j: int)
    requires
        p % 16 == 0,
        0 <= j,
    ensures
        (p as int + 8 + 24 * j) % 8 == 0,
        (p as int + 8 + 24 * j) / 8 == p as int / 8 + 1 + 3 * j,
        (p as int + 16 + 24 * j) % 8 == 0,
        (p as int + 16 + 24 * j) / 8 == p as int / 8 + 2 + 3 * j,
        (p as int + 24 + 24 * j) % 8 == 0,
        (p as int + 24 + 24 * j) / 8 == p as int / 8 + 3 + 3 * j,
        8 * (p as int / 8 + 1 + 3 * j) == p + 8 + 24 * j,
        8 * (p as int / 8 + 2 + 3 * j) == p + 16 + 24 * j,
        8 * (p as int / 8 + 3 + 3 * j) == p + 24 + 24 * j,
{
    let pi = p as int;
    assert(pi % 8 == 0) by (nonlinear_arith)
        requires pi % 16 == 0, pi >= 0;
    vstd::arithmetic::div_mod::lemma_fundamental_div_mod(pi, 8);
    let q = pi / 8;
    assert(pi == 8 * q);
    vstd::arithmetic::div_mod::lemma_div_multiples_vanish(q + 1 + 3 * j, 8);
    assert((8 * (q + 1 + 3 * j)) % 8 == 0) by (nonlinear_arith);
    assert(pi + 8 + 24 * j == 8 * (q + 1 + 3 * j));
    vstd::arithmetic::div_mod::lemma_div_multiples_vanish(q + 2 + 3 * j, 8);
    assert((8 * (q + 2 + 3 * j)) % 8 == 0) by (nonlinear_arith);
    assert(pi + 16 + 24 * j == 8 * (q + 2 + 3 * j));
    vstd::arithmetic::div_mod::lemma_div_multiples_vanish(q + 3 + 3 * j, 8);
    assert((8 * (q + 3 + 3 * j)) % 8 == 0) by (nonlinear_arith);
    assert(pi + 24 + 24 * j == 8 * (q + 3 + 3 * j));
}


} // verus!
