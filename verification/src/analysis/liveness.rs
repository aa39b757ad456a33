//! Liveness analysis: a backward dataflow fixed point over the CFG.
//!
//! For each block `B`, the result satisfies
//! `live_in(B) = (live_out(B) - defs(B)) + uses(B)` and
//! `live_out(B) =` the union of `live_in(S)` over the successors `S` named by
//! `B`'s terminator, and it is the least such solution.

use vstd::prelude::*;
use crate::mir::{
    BasicBlock, Function, LValue, RValue, Statement, Terminator, cfg_well_formed,
    terminator_targets_ok,
};

verus! {

// ---------------------------------------------------------------------------
// Which slots a statement reads and writes.
// ---------------------------------------------------------------------------

/// Slots read when an l-value is used as a value.
pub open spec fn lvalue_value_reads(lv: LValue) -> Set<int>
    decreases lv,
{
    match lv {
        LValue::Variable(v) => Set::empty().insert(v as int),
        LValue::Deref(rv) => rvalue_reads(*rv),
    }
}

/// Slots read while evaluating an r-value. Taking the address of a variable
/// counts as a read: it keeps the variable observable.
pub open spec fn rvalue_reads(rv: RValue) -> Set<int>
    decreases rv,
{
    match rv {
        RValue::Use(lv) => lvalue_value_reads(*lv),
        RValue::Constant(_) => Set::empty(),
        RValue::BinaryOp(_, l, r) => rvalue_reads(*l).union(rvalue_reads(*r)),
        RValue::UnaryOp(_, o) => rvalue_reads(*o),
        RValue::AddressOf(lv) => lvalue_value_reads(*lv),
    }
}

/// Slots read while evaluating an l-value used as an assignment target:
/// storing through a dereference reads the address operand.
pub open spec fn lvalue_target_reads(lv: LValue) -> Set<int> {
    match lv {
        LValue::Variable(_) => Set::empty(),
        LValue::Deref(rv) => rvalue_reads(*rv),
    }
}

/// The slot written by an assignment target, if it is a plain variable.
pub open spec fn lvalue_target_writes(lv: LValue) -> Set<int> {
    match lv {
        LValue::Variable(v) => Set::empty().insert(v as int),
        LValue::Deref(_) => Set::empty(),
    }
}

/// Union of the reads of a list of argument r-values.
pub open spec fn args_reads(args: Seq<RValue>) -> Set<int>
    decreases args.len(),
{
    if args.len() == 0 {
        Set::empty()
    } else {
        args_reads(args.drop_last()).union(rvalue_reads(args.last()))
    }
}

/// Slots read by one statement.
pub open spec fn stmt_reads(s: Statement) -> Set<int>
    decreases s,
{
    match s {
        Statement::Assign(lv, rv) => lvalue_target_reads(lv).union(rvalue_reads(rv)),
        Statement::Call(lv, _, args) => lvalue_target_reads(lv).union(args_reads(args@)),
        Statement::Annotated { stmt, annotations: _ } => stmt_reads(*stmt),
    }
}

/// Slots written by one statement.
pub open spec fn stmt_writes(s: Statement) -> Set<int>
    decreases s,
{
    match s {
        Statement::Assign(lv, _) => lvalue_target_writes(lv),
        Statement::Call(lv, _, _) => lvalue_target_writes(lv),
        Statement::Annotated { stmt, annotations: _ } => stmt_writes(*stmt),
    }
}

/// Slots read by the operand of a terminator.
pub open spec fn term_reads(t: Terminator) -> Set<int> {
    match t {
        Terminator::Goto(_) => Set::empty(),
        Terminator::Return(None) => Set::empty(),
        Terminator::Return(Some(rv)) => rvalue_reads(rv),
        Terminator::If { condition, then_block: _, else_block: _ } => rvalue_reads(condition),
    }
}

/// Upward-exposed uses and definitions of a statement list, accumulated in
/// per-statement order: a read only counts as a use while the slot has not
/// been defined earlier in the block.
pub open spec fn seq_uses_defs(stmts: Seq<Statement>) -> (Set<int>, Set<int>)
    decreases stmts.len(),
{
    if stmts.len() == 0 {
        (Set::empty(), Set::empty())
    } else {
        let (u, d) = seq_uses_defs(stmts.drop_last());
        let s = stmts.last();
        (u.union(stmt_reads(s).difference(d)), d.union(stmt_writes(s)))
    }
}

/// `uses(B)`: slots that may be read before being overwritten in `B`,
/// the terminator operand included.
pub open spec fn block_uses(b: BasicBlock) -> Set<int> {
    let (u, d) = seq_uses_defs(b.statements@);
    u.union(term_reads(b.terminator).difference(d))
}

/// `defs(B)`: slots assigned to in `B`.
pub open spec fn block_defs(b: BasicBlock) -> Set<int> {
    seq_uses_defs(b.statements@).1
}

// ---------------------------------------------------------------------------
// Slot bounds.
// ---------------------------------------------------------------------------

/// Every member of the set is a slot id below `n`.
pub open spec fn set_below(s: Set<int>, n: int) -> bool {
    forall|v: int| s.contains(v) ==> 0 <= v < n
}

/// Every slot that the statements or the terminator of this block read or
/// write lies below `ns`.
pub open spec fn block_slots_below(bb: BasicBlock, ns: int) -> bool {
    &&& forall|i: int|
        0 <= i < bb.statements@.len() ==> set_below(
            stmt_reads(#[trigger] bb.statements@[i]),
            ns,
        ) && set_below(stmt_writes(bb.statements@[i]), ns)
    &&& set_below(term_reads(bb.terminator), ns)
}

/// Every slot the function mentions (parameters included) lies below `ns`.
pub open spec fn fn_slots_below(f: Function, ns: int) -> bool {
    &&& forall|b: int|
        0 <= b < f.basic_blocks@.len() ==> block_slots_below(#[trigger] f.basic_blocks@[b], ns)
    &&& forall|i: int| 0 <= i < f.parameters@.len() ==> (#[trigger] f.parameters@[i].var_id) < ns
}

proof fn lemma_union_below(a: Set<int>, b: Set<int>, n: int)
    requires
        set_below(a.union(b), n),
    ensures
        set_below(a, n),
        set_below(b, n),
{
    assert forall|v: int| a.contains(v) implies 0 <= v < n by {
        assert(a.union(b).contains(v));
    }
    assert forall|v: int| b.contains(v) implies 0 <= v < n by {
        assert(a.union(b).contains(v));
    }
}

proof fn lemma_args_elem_below(args: Seq<RValue>, i: int, n: int)
    requires
        0 <= i < args.len(),
        set_below(args_reads(args), n),
    ensures
        set_below(rvalue_reads(args[i]), n),
    decreases args.len(),
{
    lemma_union_below(args_reads(args.drop_last()), rvalue_reads(args.last()), n);
    if i == args.len() - 1 {
        assert(args.last() == args[i]);
    } else {
        lemma_args_elem_below(args.drop_last(), i, n);
        assert(args.drop_last()[i] == args[i]);
    }
}

proof fn lemma_seq_uses_defs_below(stmts: Seq<Statement>, ns: int)
    requires
        forall|i: int|
            0 <= i < stmts.len() ==> set_below(stmt_reads(#[trigger] stmts[i]), ns) && set_below(
                stmt_writes(stmts[i]),
                ns,
            ),
    ensures
        set_below(seq_uses_defs(stmts).0, ns),
        set_below(seq_uses_defs(stmts).1, ns),
    decreases stmts.len(),
{
    if stmts.len() > 0 {
        let pre = stmts.drop_last();
        assert forall|i: int|
            0 <= i < pre.len() implies set_below(stmt_reads(#[trigger] pre[i]), ns) && set_below(
            stmt_writes(pre[i]),
            ns,
        ) by {
            assert(pre[i] == stmts[i]);
        }
        lemma_seq_uses_defs_below(pre, ns);
        assert(stmts.last() == stmts[stmts.len() - 1]);
        let u = seq_uses_defs(pre).0;
        let d = seq_uses_defs(pre).1;
        assert forall|v: int| seq_uses_defs(stmts).0.contains(v) implies 0 <= v < ns by {
            if u.contains(v) {
            } else {
                assert(stmt_reads(stmts.last()).contains(v));
            }
        }
        assert forall|v: int| seq_uses_defs(stmts).1.contains(v) implies 0 <= v < ns by {
            if d.contains(v) {
            } else {
                assert(stmt_writes(stmts.last()).contains(v));
            }
        }
    }
}

proof fn lemma_block_uses_below(bb: BasicBlock, ns: int)
    requires
        block_slots_below(bb, ns),
    ensures
        set_below(block_uses(bb), ns),
        set_below(block_defs(bb), ns),
{
    lemma_seq_uses_defs_below(bb.statements@, ns);
    let u = seq_uses_defs(bb.statements@).0;
    let d = seq_uses_defs(bb.statements@).1;
    assert forall|v: int| block_uses(bb).contains(v) implies 0 <= v < ns by {
        if u.contains(v) {
        } else {
            assert(term_reads(bb.terminator).contains(v));
        }
    }
}

// ---------------------------------------------------------------------------
// Tables of bit rows, the dataflow equations, and the bit-level transfer.
// ---------------------------------------------------------------------------

/// The rows of a table, as a sequence of character-independent bit rows.
pub open spec fn tbl(v: Vec<Vec<bool>>) -> Seq<Seq<bool>> {
    Seq::new(v@.len() as nat, |i: int| v@[i]@)
}

/// The set of slots a bit row holds.
pub open spec fn row_set(row: Seq<bool>) -> Set<int> {
    Set::new(|v: int| 0 <= v < row.len() && row[v])
}

/// The sets described by a table of bit rows.
pub open spec fn rows_sets(rows: Seq<Seq<bool>>) -> Seq<Set<int>> {
    rows.map(|i: int, row: Seq<bool>| row_set(row))
}

/// `live_out(B)` induced by per-block live-in sets `t`.
pub open spec fn t_out(f: Function, t: Seq<Set<int>>, b: int) -> Set<int> {
    match f.basic_blocks@[b].terminator {
        Terminator::Goto(g) => t[g as int],
        Terminator::Return(_) => Set::empty(),
        Terminator::If { condition: _, then_block, else_block } => t[then_block as int].union(
            t[else_block as int],
        ),
    }
}

/// The backward transfer of block `b` applied to live-in sets `t`.
pub open spec fn t_in(f: Function, t: Seq<Set<int>>, b: int) -> Set<int> {
    t_out(f, t, b).difference(block_defs(f.basic_blocks@[b])).union(
        block_uses(f.basic_blocks@[b]),
    )
}

/// `t` solves the liveness equations of `f`.
pub open spec fn is_liveness_solution(f: Function, t: Seq<Set<int>>) -> bool {
    &&& t.len() == f.basic_blocks@.len()
    &&& forall|b: int| 0 <= b < t.len() ==> #[trigger] t[b] == t_in(f, t, b)
}

/// `t1` is pointwise contained in `t2`.
pub open spec fn pointwise_subset(t1: Seq<Set<int>>, t2: Seq<Set<int>>) -> bool {
    &&& t1.len() == t2.len()
    &&& forall|b: int| 0 <= b < t1.len() ==> (#[trigger] t1[b]).subset_of(t2[b])
}

pub open spec fn dims_ok(rows: Seq<Seq<bool>>, nb: nat, ns: nat) -> bool {
    &&& rows.len() == nb
    &&& forall|b: int| 0 <= b < rows.len() ==> (#[trigger] rows[b]).len() == ns
}

pub open spec fn out_bit(f: Function, cur: Seq<Seq<bool>>, b: int, v: int) -> bool {
    match f.basic_blocks@[b].terminator {
        Terminator::Goto(g) => cur[g as int][v],
        Terminator::Return(_) => false,
        Terminator::If { condition: _, then_block, else_block } => cur[then_block as int][v]
            || cur[else_block as int][v],
    }
}

pub open spec fn in_bit(f: Function, cur: Seq<Seq<bool>>, b: int, v: int) -> bool {
    (out_bit(f, cur, b, v) && !block_defs(f.basic_blocks@[b]).contains(v)) || block_uses(
        f.basic_blocks@[b],
    ).contains(v)
}

/// One whole sweep of the transfer, recomputing every block's live-in row.
pub open spec fn step_bits(f: Function, cur: Seq<Seq<bool>>, ns: nat) -> Seq<Seq<bool>> {
    Seq::new(f.basic_blocks@.len(), |b: int| Seq::new(ns, |v: int| in_bit(f, cur, b, v)))
}

pub open spec fn pointwise_le(a: Seq<Seq<bool>>, b: Seq<Seq<bool>>) -> bool {
    forall|i: int, v: int|
        0 <= i < a.len() && 0 <= v < a[i].len() && (#[trigger] a[i][v]) ==> 0 <= i < b.len() && 0
            <= v < b[i].len() && b[i][v]
}

// ---------------------------------------------------------------------------
// Counting bits, for termination.
// ---------------------------------------------------------------------------

pub closed spec fn count_row(s: Seq<bool>) -> int
    decreases s.len(),
{
    if s.len() == 0 {
        0
    } else {
        count_row(s.drop_last()) + if s.last() {
            1int
        } else {
            0int
        }
    }
}

pub closed spec fn count_all(ss: Seq<Seq<bool>>) -> int
    decreases ss.len(),
{
    if ss.len() == 0 {
        0
    } else {
        count_all(ss.drop_last()) + count_row(ss.last())
    }
}

proof fn lemma_count_row_le(a: Seq<bool>, b: Seq<bool>)
    requires
        a.len() == b.len(),
        forall|v: int| 0 <= v < a.len() && (#[trigger] a[v]) ==> b[v],
    ensures
        count_row(a) <= count_row(b),
        count_row(a) >= 0,
        count_row(b) <= b.len(),
    decreases a.len(),
{
    if a.len() > 0 {
        lemma_count_row_le(a.drop_last(), b.drop_last());
    }
}

proof fn lemma_count_row_lt(a: Seq<bool>, b: Seq<bool>, w: int)
    requires
        a.len() == b.len(),
        forall|v: int| 0 <= v < a.len() && (#[trigger] a[v]) ==> b[v],
        0 <= w < a.len(),
        a[w] != b[w],
    ensures
        count_row(a) < count_row(b),
    decreases a.len(),
{
    lemma_count_row_le(a.drop_last(), b.drop_last());
    if w == a.len() - 1 {
    } else {
        lemma_count_row_lt(a.drop_last(), b.drop_last(), w);
    }
}

proof fn lemma_count_all_le(a: Seq<Seq<bool>>, b: Seq<Seq<bool>>, ns: nat)
    requires
        a.len() == b.len(),
        forall|i: int| 0 <= i < a.len() ==> (#[trigger] a[i]).len() == ns,
        forall|i: int| 0 <= i < b.len() ==> (#[trigger] b[i]).len() == ns,
        forall|i: int, v: int| 0 <= i < a.len() && 0 <= v < ns && (#[trigger] a[i][v]) ==> b[i][v],
    ensures
        count_all(a) <= count_all(b),
        count_all(a) >= 0,
        count_all(b) <= b.len() * ns,
    decreases a.len(),
{
    if a.len() == 0 {
        assert(b.len() * ns == 0) by (nonlinear_arith)
            requires
                b.len() == 0,
        ;
    } else {
        lemma_count_all_le(a.drop_last(), b.drop_last(), ns);
        lemma_count_row_le(a.last(), b.last());
        assert((b.len() - 1) * ns + ns == b.len() * ns) by (nonlinear_arith);
    }
}

proof fn lemma_count_all_lt(a: Seq<Seq<bool>>, b: Seq<Seq<bool>>, ns: nat, wi: int, wv: int)
    requires
        a.len() == b.len(),
        forall|i: int| 0 <= i < a.len() ==> (#[trigger] a[i]).len() == ns,
        forall|i: int| 0 <= i < b.len() ==> (#[trigger] b[i]).len() == ns,
        forall|i: int, v: int| 0 <= i < a.len() && 0 <= v < ns && (#[trigger] a[i][v]) ==> b[i][v],
        0 <= wi < a.len(),
        0 <= wv < ns,
        a[wi][wv] != b[wi][wv],
    ensures
        count_all(a) < count_all(b),
    decreases a.len(),
{
    if wi == a.len() - 1 {
        lemma_count_all_le(a.drop_last(), b.drop_last(), ns);
        lemma_count_row_lt(a.last(), b.last(), wv);
    } else {
        lemma_count_all_lt(a.drop_last(), b.drop_last(), ns, wi, wv);
        lemma_count_row_le(a.last(), b.last());
    }
}

// ---------------------------------------------------------------------------
// Bridging bits and sets, and monotonicity.
// ---------------------------------------------------------------------------

proof fn lemma_step_bits_sets(f: Function, cur: Seq<Seq<bool>>, ns: nat, b: int)
    requires
        cfg_well_formed(f),
        fn_slots_below(f, ns as int),
        dims_ok(cur, f.basic_blocks@.len(), ns),
        0 <= b < f.basic_blocks@.len(),
    ensures
        row_set(step_bits(f, cur, ns)[b]) == t_in(f, rows_sets(cur), b),
{
    let nb = f.basic_blocks@.len();
    let row = step_bits(f, cur, ns)[b];
    let t = rows_sets(cur);
    let bb = f.basic_blocks@[b];
    lemma_block_uses_below(bb, ns as int);
    assert(terminator_targets_ok(bb.terminator, nb));
    assert(t.len() == nb);
    assert forall|g: int| 0 <= g < nb implies #[trigger] t[g] == row_set(cur[g]) by {}
    assert forall|v: int| row_set(row).contains(v) implies t_in(f, t, b).contains(v) by {
        assert(0 <= v < ns && row[v]);
        assert(in_bit(f, cur, b, v));
        if block_uses(bb).contains(v) {
        } else {
            assert(out_bit(f, cur, b, v) && !block_defs(bb).contains(v));
            match bb.terminator {
                Terminator::Goto(g) => {
                    assert(cur[g as int][v]);
                    assert(cur[g as int].len() == ns);
                    assert(t[g as int].contains(v));
                },
                Terminator::Return(_) => {
                    assert(false);
                },
                Terminator::If { condition: _, then_block, else_block } => {
                    if cur[then_block as int][v] {
                        assert(t[then_block as int].contains(v));
                    } else {
                        assert(cur[else_block as int][v]);
                        assert(t[else_block as int].contains(v));
                    }
                },
            }
            assert(t_out(f, t, b).contains(v));
        }
    }
    assert forall|v: int| t_in(f, t, b).contains(v) implies row_set(row).contains(v) by {
        if block_uses(bb).contains(v) {
            assert(0 <= v < ns);
            assert(in_bit(f, cur, b, v));
        } else {
            assert(t_out(f, t, b).contains(v) && !block_defs(bb).contains(v));
            match bb.terminator {
                Terminator::Goto(g) => {
                    assert(t[g as int].contains(v));
                    assert(0 <= v < ns && cur[g as int][v]);
                },
                Terminator::Return(_) => {
                    assert(false);
                },
                Terminator::If { condition: _, then_block, else_block } => {
                    if t[then_block as int].contains(v) {
                        assert(0 <= v < ns && cur[then_block as int][v]);
                    } else {
                        assert(t[else_block as int].contains(v));
                        assert(0 <= v < ns && cur[else_block as int][v]);
                    }
                },
            }
            assert(out_bit(f, cur, b, v));
            assert(in_bit(f, cur, b, v));
        }
        assert(row[v]);
    }
    assert(row_set(row) =~= t_in(f, t, b));
}

proof fn lemma_step_bits_monotone(f: Function, a: Seq<Seq<bool>>, b: Seq<Seq<bool>>, ns: nat)
    requires
        cfg_well_formed(f),
        dims_ok(a, f.basic_blocks@.len(), ns),
        dims_ok(b, f.basic_blocks@.len(), ns),
        pointwise_le(a, b),
    ensures
        pointwise_le(step_bits(f, a, ns), step_bits(f, b, ns)),
{
    let nb = f.basic_blocks@.len();
    let sa = step_bits(f, a, ns);
    let sb = step_bits(f, b, ns);
    assert forall|i: int, v: int|
        0 <= i < sa.len() && 0 <= v < sa[i].len() && (#[trigger] sa[i][v]) implies 0 <= i < sb.len()
        && 0 <= v < sb[i].len() && sb[i][v] by {
        assert(terminator_targets_ok(f.basic_blocks@[i].terminator, nb));
        assert(in_bit(f, a, i, v));
        if out_bit(f, a, i, v) && !block_defs(f.basic_blocks@[i]).contains(v) {
            match f.basic_blocks@[i].terminator {
                Terminator::Goto(g) => {
                    assert(a[g as int][v]);
                    assert(b[g as int][v]);
                },
                Terminator::Return(_) => {
                    assert(false);
                },
                Terminator::If { condition: _, then_block, else_block } => {
                    if a[then_block as int][v] {
                        assert(b[then_block as int][v]);
                    } else {
                        assert(a[else_block as int][v]);
                        assert(b[else_block as int][v]);
                    }
                },
            }
            assert(out_bit(f, b, i, v));
        }
        assert(in_bit(f, b, i, v));
    }
}

proof fn lemma_t_in_monotone(f: Function, t1: Seq<Set<int>>, t2: Seq<Set<int>>, b: int)
    requires
        cfg_well_formed(f),
        t1.len() == f.basic_blocks@.len(),
        t2.len() == f.basic_blocks@.len(),
        forall|i: int| 0 <= i < t1.len() ==> (#[trigger] t1[i]).subset_of(t2[i]),
        0 <= b < f.basic_blocks@.len(),
    ensures
        t_in(f, t1, b).subset_of(t_in(f, t2, b)),
{
    let nb = f.basic_blocks@.len();
    assert(terminator_targets_ok(f.basic_blocks@[b].terminator, nb));
    assert forall|v: int| t_in(f, t1, b).contains(v) implies t_in(f, t2, b).contains(v) by {
        if t_out(f, t1, b).contains(v) && !block_defs(f.basic_blocks@[b]).contains(v) {
            match f.basic_blocks@[b].terminator {
                Terminator::Goto(g) => {
                    assert(t1[g as int].contains(v));
                    assert(t2[g as int].contains(v));
                },
                Terminator::Return(_) => {
                    assert(false);
                },
                Terminator::If { condition: _, then_block, else_block } => {
                    if t1[then_block as int].contains(v) {
                        assert(t2[then_block as int].contains(v));
                    } else {
                        assert(t1[else_block as int].contains(v));
                        assert(t2[else_block as int].contains(v));
                    }
                },
            }
            assert(t_out(f, t2, b).contains(v));
        }
    }
}

// ---------------------------------------------------------------------------
// Exec helpers on bit rows.
// ---------------------------------------------------------------------------

fn zero_row(ns: usize) -> (r: Vec<bool>)
    ensures
        r@.len() == ns,
        forall|v: int| 0 <= v < ns ==> !(#[trigger] r@[v]),
{
    let mut r: Vec<bool> = Vec::new();
    let mut i: usize = 0;
    while i < ns
        invariant
            i <= ns,
            r@.len() == i,
            forall|v: int| 0 <= v < i ==> !(#[trigger] r@[v]),
        decreases ns - i,
    {
        r.push(false);
        i += 1;
    }
    r
}

fn copy_row(src: &Vec<bool>) -> (r: Vec<bool>)
    ensures
        r@ == src@,
{
    let mut r: Vec<bool> = Vec::new();
    let n = src.len();
    let mut i: usize = 0;
    while i < n
        invariant
            i <= n,
            n == src@.len(),
            r@ =~= src@.subrange(0, i as int),
        decreases n - i,
    {
        r.push(src[i]);
        proof {
            assert(r@ =~= src@.subrange(0, i + 1));
        }
        i += 1;
    }
    proof {
        assert(src@.subrange(0, n as int) =~= src@);
    }
    r
}

fn row_or(dst: &mut Vec<bool>, src: &Vec<bool>)
    requires
        old(dst)@.len() == src@.len(),
    ensures
        final(dst)@.len() == old(dst)@.len(),
        forall|v: int|
            0 <= v < final(dst)@.len() ==> (#[trigger] final(dst)@[v]) == (old(dst)@[v] || src@[v]),
{
    let n = dst.len();
    let mut i: usize = 0;
    while i < n
        invariant
            i <= n,
            n == dst@.len(),
            n == src@.len(),
            n == old(dst)@.len(),
            forall|v: int| i <= v < n ==> (#[trigger] dst@[v]) == old(dst)@[v],
            forall|v: int| 0 <= v < i ==> (#[trigger] dst@[v]) == (old(dst)@[v] || src@[v]),
        decreases n - i,
    {
        let x = dst[i] || src[i];
        dst.set(i, x);
        i += 1;
    }
}

fn row_eq(a: &Vec<bool>, b: &Vec<bool>) -> (r: bool)
    requires
        a@.len() == b@.len(),
    ensures
        r == (a@ == b@),
{
    let n = a.len();
    let mut i: usize = 0;
    while i < n
        invariant
            i <= n,
            n == a@.len(),
            n == b@.len(),
            forall|v: int| 0 <= v < i ==> (#[trigger] a@[v]) == b@[v],
        decreases n - i,
    {
        if a[i] != b[i] {
            return false;
        }
        i += 1;
    }
    proof {
        assert(a@ =~= b@);
    }
    true
}

// ---------------------------------------------------------------------------
// Exec computation of uses/defs bitmaps.
// ---------------------------------------------------------------------------

fn mark_use(u: &mut Vec<bool>, d: &Vec<bool>, v: usize)
    requires
        v < old(u)@.len(),
        d@.len() == old(u)@.len(),
    ensures
        final(u)@.len() == old(u)@.len(),
        row_set(final(u)@) == row_set(old(u)@).union(
            Set::empty().insert(v as int).difference(row_set(d@)),
        ),
{
    if !d[v] {
        u.set(v, true);
        proof {
            assert(row_set(final(u)@) =~= row_set(old(u)@).union(
                Set::empty().insert(v as int).difference(row_set(d@)),
            ));
        }
    } else {
        proof {
            assert(row_set(final(u)@) =~= row_set(old(u)@).union(
                Set::empty().insert(v as int).difference(row_set(d@)),
            ));
        }
    }
}

fn add_lv_value_reads(lv: &LValue, u: &mut Vec<bool>, d: &Vec<bool>)
    requires
        d@.len() == old(u)@.len(),
        set_below(lvalue_value_reads(*lv), old(u)@.len() as int),
    ensures
        final(u)@.len() == old(u)@.len(),
        row_set(final(u)@) == row_set(old(u)@).union(
            lvalue_value_reads(*lv).difference(row_set(d@)),
        ),
    decreases *lv,
{
    match lv {
        LValue::Variable(v) => {
            assert(lvalue_value_reads(*lv).contains(*v as int));
            mark_use(u, d, *v);
        },
        LValue::Deref(rv) => {
            add_rv_reads(rv, u, d);
        },
    }
}

fn add_rv_reads(rv: &RValue, u: &mut Vec<bool>, d: &Vec<bool>)
    requires
        d@.len() == old(u)@.len(),
        set_below(rvalue_reads(*rv), old(u)@.len() as int),
    ensures
        final(u)@.len() == old(u)@.len(),
        row_set(final(u)@) == row_set(old(u)@).union(rvalue_reads(*rv).difference(row_set(d@))),
    decreases *rv,
{
    match rv {
        RValue::Use(lv) => {
            add_lv_value_reads(lv, u, d);
        },
        RValue::Constant(_) => {
            proof {
                assert(row_set(u@) =~= row_set(u@).union(
                    rvalue_reads(*rv).difference(row_set(d@)),
                ));
            }
        },
        RValue::BinaryOp(_, l, r) => {
            proof {
                lemma_union_below(rvalue_reads(**l), rvalue_reads(**r), u@.len() as int);
            }
            add_rv_reads(l, u, d);
            add_rv_reads(r, u, d);
            proof {
                assert(row_set(final(u)@) =~= row_set(old(u)@).union(
                    rvalue_reads(*rv).difference(row_set(d@)),
                ));
            }
        },
        RValue::UnaryOp(_, o) => {
            add_rv_reads(o, u, d);
        },
        RValue::AddressOf(lv) => {
            add_lv_value_reads(lv, u, d);
        },
    }
}

fn add_stmt_reads(s: &Statement, u: &mut Vec<bool>, d: &Vec<bool>)
    requires
        d@.len() == old(u)@.len(),
        set_below(stmt_reads(*s), old(u)@.len() as int),
    ensures
        final(u)@.len() == old(u)@.len(),
        row_set(final(u)@) == row_set(old(u)@).union(stmt_reads(*s).difference(row_set(d@))),
    decreases *s,
{
    match s {
        Statement::Assign(lv, rv) => {
            proof {
                lemma_union_below(lvalue_target_reads(*lv), rvalue_reads(*rv), u@.len() as int);
            }
            match lv {
                LValue::Variable(_) => {},
                LValue::Deref(addr) => {
                    add_rv_reads(addr, u, d);
                },
            }
            add_rv_reads(rv, u, d);
            proof {
                assert(row_set(final(u)@) =~= row_set(old(u)@).union(
                    stmt_reads(*s).difference(row_set(d@)),
                ));
            }
        },
        Statement::Call(lv, _, args) => {
            proof {
                lemma_union_below(lvalue_target_reads(*lv), args_reads(args@), u@.len() as int);
            }
            match lv {
                LValue::Variable(_) => {},
                LValue::Deref(addr) => {
                    add_rv_reads(addr, u, d);
                },
            }
            proof {
                assert(row_set(u@) =~= row_set(old(u)@).union(
                    lvalue_target_reads(*lv).union(args_reads(args@.take(0))).difference(
                        row_set(d@),
                    ),
                ));
            }
            let n = args.len();
            let mut i: usize = 0;
            while i < n
                invariant
                    i <= n,
                    n == args@.len(),
                    d@.len() == u@.len(),
                    u@.len() == old(u)@.len(),
                    set_below(args_reads(args@), u@.len() as int),
                    stmt_reads(*s) == lvalue_target_reads(*lv).union(args_reads(args@)),
                    row_set(u@) == row_set(old(u)@).union(
                        lvalue_target_reads(*lv).union(args_reads(args@.take(i as int))).difference(
                            row_set(d@),
                        ),
                    ),
                decreases n - i,
            {
                proof {
                    lemma_args_elem_below(args@, i as int, u@.len() as int);
                }
                add_rv_reads(&args[i], u, d);
                proof {
                    assert(args@.take(i + 1).drop_last() =~= args@.take(i as int));
                    assert(args@.take(i + 1).last() == args@[i as int]);
                    assert(row_set(u@) =~= row_set(old(u)@).union(
                        lvalue_target_reads(*lv).union(args_reads(args@.take(i + 1))).difference(
                            row_set(d@),
                        ),
                    ));
                }
                i += 1;
            }
            proof {
                assert(args@.take(n as int) =~= args@);
                assert(row_set(u@) =~= row_set(old(u)@).union(
                    stmt_reads(*s).difference(row_set(d@)),
                ));
            }
        },
        Statement::Annotated { stmt, annotations: _ } => {
            add_stmt_reads(stmt, u, d);
        },
    }
}

fn add_stmt_writes(s: &Statement, d: &mut Vec<bool>)
    requires
        set_below(stmt_writes(*s), old(d)@.len() as int),
    ensures
        final(d)@.len() == old(d)@.len(),
        row_set(final(d)@) == row_set(old(d)@).union(stmt_writes(*s)),
    decreases *s,
{
    match s {
        Statement::Assign(lv, _) => {
            match lv {
                LValue::Variable(v) => {
                    assert(stmt_writes(*s).contains(*v as int));
                    d.set(*v, true);
                    proof {
                        assert(row_set(final(d)@) =~= row_set(old(d)@).union(stmt_writes(*s)));
                    }
                },
                LValue::Deref(_) => {
                    proof {
                        assert(row_set(d@) =~= row_set(d@).union(stmt_writes(*s)));
                    }
                },
            }
        },
        Statement::Call(lv, _, _) => {
            match lv {
                LValue::Variable(v) => {
                    assert(stmt_writes(*s).contains(*v as int));
                    d.set(*v, true);
                    proof {
                        assert(row_set(final(d)@) =~= row_set(old(d)@).union(stmt_writes(*s)));
                    }
                },
                LValue::Deref(_) => {
                    proof {
                        assert(row_set(d@) =~= row_set(d@).union(stmt_writes(*s)));
                    }
                },
            }
        },
        Statement::Annotated { stmt, annotations: _ } => {
            add_stmt_writes(stmt, d);
        },
    }
}

fn add_term_reads(t: &Terminator, u: &mut Vec<bool>, d: &Vec<bool>)
    requires
        d@.len() == old(u)@.len(),
        set_below(term_reads(*t), old(u)@.len() as int),
    ensures
        final(u)@.len() == old(u)@.len(),
        row_set(final(u)@) == row_set(old(u)@).union(term_reads(*t).difference(row_set(d@))),
{
    match t {
        Terminator::Goto(_) => {
            proof {
                assert(row_set(u@) =~= row_set(u@).union(term_reads(*t).difference(row_set(d@))));
            }
        },
        Terminator::Return(orv) => {
            match orv {
                None => {
                    proof {
                        assert(row_set(u@) =~= row_set(u@).union(
                            term_reads(*t).difference(row_set(d@)),
                        ));
                    }
                },
                Some(rv) => {
                    add_rv_reads(rv, u, d);
                },
            }
        },
        Terminator::If { condition, then_block: _, else_block: _ } => {
            add_rv_reads(condition, u, d);
        },
    }
}

/// Computes the `uses` and `defs` bitmaps of one block.
fn block_gen_kill(bb: &BasicBlock, ns: usize) -> (r: (Vec<bool>, Vec<bool>))
    requires
        block_slots_below(*bb, ns as int),
    ensures
        r.0@.len() == ns,
        r.1@.len() == ns,
        row_set(r.0@) == block_uses(*bb),
        row_set(r.1@) == block_defs(*bb),
{
    let mut u = zero_row(ns);
    let mut d = zero_row(ns);
    proof {
        assert(bb.statements@.take(0) =~= Seq::<Statement>::empty());
        assert(row_set(u@) =~= seq_uses_defs(bb.statements@.take(0)).0);
        assert(row_set(d@) =~= seq_uses_defs(bb.statements@.take(0)).1);
    }
    let n = bb.statements.len();
    let mut i: usize = 0;
    while i < n
        invariant
            i <= n,
            n == bb.statements@.len(),
            u@.len() == ns,
            d@.len() == ns,
            block_slots_below(*bb, ns as int),
            row_set(u@) == seq_uses_defs(bb.statements@.take(i as int)).0,
            row_set(d@) == seq_uses_defs(bb.statements@.take(i as int)).1,
        decreases n - i,
    {
        assert(set_below(stmt_reads(bb.statements@[i as int]), ns as int));
        add_stmt_reads(&bb.statements[i], &mut u, &d);
        add_stmt_writes(&bb.statements[i], &mut d);
        proof {
            assert(bb.statements@.take(i + 1).drop_last() =~= bb.statements@.take(i as int));
            assert(bb.statements@.take(i + 1).last() == bb.statements@[i as int]);
        }
        i += 1;
    }
    proof {
        assert(bb.statements@.take(n as int) =~= bb.statements@);
    }
    add_term_reads(&bb.terminator, &mut u, &d);
    (u, d)
}

// ---------------------------------------------------------------------------
// The result and the solver.
// ---------------------------------------------------------------------------

/// Per-block live-variable sets, encoded as bit rows over slot ids. Use
/// `is_live_in` / `is_live_out` to query a single slot.
#[derive(Debug)]
pub struct LivenessResult {
    pub live_in: Vec<Vec<bool>>,
    pub live_out: Vec<Vec<bool>>,
}

impl LivenessResult {
    /// The live-in sets of the result, one per block.
    pub open spec fn live_in_sets(self) -> Seq<Set<int>> {
        rows_sets(tbl(self.live_in))
    }

    /// The live-out sets of the result, one per block.
    pub open spec fn live_out_sets(self) -> Seq<Set<int>> {
        rows_sets(tbl(self.live_out))
    }

    /// An empty result.
    pub fn new() -> (r: LivenessResult)
        ensures
            r.live_in@.len() == 0,
            r.live_out@.len() == 0,
    {
        LivenessResult { live_in: Vec::new(), live_out: Vec::new() }
    }

    /// Is slot `v` live on entry to block `b`?
    pub fn is_live_in(&self, b: usize, v: usize) -> (r: bool)
        requires
            b < self.live_in@.len(),
        ensures
            r == self.live_in_sets()[b as int].contains(v as int),
    {
        let row = &self.live_in[b];
        if v < row.len() {
            row[v]
        } else {
            false
        }
    }

    /// Is slot `v` live on exit from block `b`?
    pub fn is_live_out(&self, b: usize, v: usize) -> (r: bool)
        requires
            b < self.live_out@.len(),
        ensures
            r == self.live_out_sets()[b as int].contains(v as int),
    {
        let row = &self.live_out[b];
        if v < row.len() {
            row[v]
        } else {
            false
        }
    }
}

/// What the analysis promises of its result: the live-in sets are the least
/// solution of the dataflow equations, and the live-out sets are the
/// successor unions the equations name.
pub open spec fn liveness_result_ok(f: Function, r: LivenessResult) -> bool {
    &&& r.live_in@.len() == f.basic_blocks@.len()
    &&& r.live_out@.len() == f.basic_blocks@.len()
    &&& is_liveness_solution(f, r.live_in_sets())
    &&& forall|t: Seq<Set<int>>|
        is_liveness_solution(f, t) ==> pointwise_subset(r.live_in_sets(), t)
    &&& forall|b: int|
        0 <= b < f.basic_blocks@.len() ==> r.live_out_sets()[b] == t_out(f, r.live_in_sets(), b)
}

/// One sweep: recomputes every block's live-in row from the current table.
fn sweep(
    f: &Function,
    cur: &Vec<Vec<bool>>,
    ns: usize,
    uses_bm: &Vec<Vec<bool>>,
    defs_bm: &Vec<Vec<bool>>,
) -> (r: (Vec<Vec<bool>>, bool))
    requires
        cfg_well_formed(*f),
        dims_ok(tbl(*cur), f.basic_blocks@.len(), ns as nat),
        uses_bm@.len() == f.basic_blocks@.len(),
        defs_bm@.len() == f.basic_blocks@.len(),
        forall|b: int|
            0 <= b < f.basic_blocks@.len() ==> row_set(#[trigger] uses_bm@[b]@) == block_uses(
                f.basic_blocks@[b],
            ) && uses_bm@[b]@.len() == ns,
        forall|b: int|
            0 <= b < f.basic_blocks@.len() ==> row_set(#[trigger] defs_bm@[b]@) == block_defs(
                f.basic_blocks@[b],
            ) && defs_bm@[b]@.len() == ns,
    ensures
        tbl(r.0) == step_bits(*f, tbl(*cur), ns as nat),
        r.1 == (tbl(r.0) != tbl(*cur)),
{
    let nb = f.basic_blocks.len();
    let mut next: Vec<Vec<bool>> = Vec::new();
    let mut changed = false;
    let ghost target = step_bits(*f, tbl(*cur), ns as nat);
    proof {
        assert(tbl(next) =~= target.take(0));
        assert(tbl(next) =~= tbl(*cur).take(0));
    }
    let mut b: usize = 0;
    while b < nb
        invariant
            b <= nb,
            nb == f.basic_blocks@.len(),
            cfg_well_formed(*f),
            dims_ok(tbl(*cur), nb as nat, ns as nat),
            uses_bm@.len() == nb,
            defs_bm@.len() == nb,
            forall|i: int|
                0 <= i < nb ==> row_set(#[trigger] uses_bm@[i]@) == block_uses(f.basic_blocks@[i])
                    && uses_bm@[i]@.len() == ns,
            forall|i: int|
                0 <= i < nb ==> row_set(#[trigger] defs_bm@[i]@) == block_defs(f.basic_blocks@[i])
                    && defs_bm@[i]@.len() == ns,
            target == step_bits(*f, tbl(*cur), ns as nat),
            tbl(next) == target.take(b as int),
            changed == (tbl(next) != tbl(*cur).take(b as int)),
        decreases nb - b,
    {
        proof {
            assert(terminator_targets_ok(f.basic_blocks@[b as int].terminator, nb as nat));
            assert(cur@.len() == nb);
            assert forall|i: int|
                0 <= i < nb implies (#[trigger] cur@[i]@).len() == ns && tbl(*cur)[i]
                == cur@[i]@ by {
                assert(tbl(*cur)[i] == cur@[i]@);
                assert(tbl(*cur)[i].len() == ns);
            }
        }
        let mut out_row: Vec<bool>;
        match &f.basic_blocks[b].terminator {
            Terminator::Goto(g) => {
                out_row = copy_row(&cur[*g]);
            },
            Terminator::Return(_) => {
                out_row = zero_row(ns);
            },
            Terminator::If { condition: _, then_block, else_block } => {
                out_row = copy_row(&cur[*then_block]);
                row_or(&mut out_row, &cur[*else_block]);
            },
        }
        proof {
            assert forall|v: int| 0 <= v < ns implies (#[trigger] out_row@[v]) == out_bit(
                *f,
                tbl(*cur),
                b as int,
                v,
            ) by {
                match f.basic_blocks@[b as int].terminator {
                    Terminator::Goto(g) => {
                        assert(out_row@[v] == cur@[g as int]@[v]);
                    },
                    Terminator::Return(_) => {},
                    Terminator::If { condition: _, then_block, else_block } => {
                        assert(out_row@[v] == (cur@[then_block as int]@[v]
                            || cur@[else_block as int]@[v]));
                    },
                }
            }
        }
        let urow = &uses_bm[b];
        let drow = &defs_bm[b];
        let mut in_row: Vec<bool> = Vec::new();
        let mut v: usize = 0;
        while v < ns
            invariant
                v <= ns,
                out_row@.len() == ns,
                urow@.len() == ns,
                drow@.len() == ns,
                in_row@.len() == v,
                forall|w: int|
                    0 <= w < v ==> (#[trigger] in_row@[w]) == ((out_row@[w] && !drow@[w])
                        || urow@[w]),
            decreases ns - v,
        {
            let bit = (out_row[v] && !drow[v]) || urow[v];
            in_row.push(bit);
            v += 1;
        }
        proof {
            assert forall|w: int| 0 <= w < ns implies (#[trigger] in_row@[w]) == in_bit(
                *f,
                tbl(*cur),
                b as int,
                w,
            ) by {
                assert(out_row@[w] == out_bit(*f, tbl(*cur), b as int, w));
                assert(drow@[w] == row_set(defs_bm@[b as int]@).contains(w));
                assert(urow@[w] == row_set(uses_bm@[b as int]@).contains(w));
            }
            assert(in_row@ =~= target[b as int]);
        }
        proof {
            assert(tbl(*cur)[b as int] == cur@[b as int]@);
        }
        let same = row_eq(&in_row, &cur[b]);
        if !same {
            changed = true;
        }
        let ghost prev_next = tbl(next);
        let ghost prev_changed_prefix = tbl(*cur).take(b as int);
        next.push(in_row);
        proof {
            assert(tbl(next) =~= prev_next.push(in_row@));
            assert(tbl(next) =~= target.take(b + 1));
            assert(tbl(*cur).take(b + 1).drop_last() =~= tbl(*cur).take(b as int));
            assert(tbl(*cur).take(b + 1).last() == tbl(*cur)[b as int]);
            if same && !changed {
                assert(prev_next == prev_changed_prefix);
                assert(in_row@ == tbl(*cur)[b as int]);
                assert(tbl(next) =~= tbl(*cur).take(b + 1));
            } else if !same {
                assert(tbl(next)[b as int] == in_row@);
                assert(tbl(next) != tbl(*cur).take(b + 1));
            } else {
                // same but a previous row already differed
                assert(prev_next != prev_changed_prefix);
                if tbl(next) == tbl(*cur).take(b + 1) {
                    assert(tbl(next).drop_last() =~= prev_next);
                    assert(prev_next == prev_changed_prefix);
                }
                assert(tbl(next) != tbl(*cur).take(b + 1));
            }
        }
        b += 1;
    }
    proof {
        assert(target.take(nb as int) =~= target);
        assert(tbl(*cur).take(nb as int) =~= tbl(*cur));
    }
    (next, changed)
}

/// Runs the liveness fixed point on one function.
///
/// Requires a well-formed CFG: a terminator that references a nonexistent
/// block is a programming-invariant failure, not an input to analyze. The
/// slot limit is a machine bound: slot ids must stay representable.
pub fn run_liveness_analysis(func: &Function) -> (r: LivenessResult)
    requires
        cfg_well_formed(*func),
        fn_slots_below(*func, usize::MAX as int),
    ensures
        liveness_result_ok(*func, r),
{
    let nb = func.basic_blocks.len();
    let ns = fn_slot_limit(func);
    let mut uses_bm: Vec<Vec<bool>> = Vec::new();
    let mut defs_bm: Vec<Vec<bool>> = Vec::new();
    let mut b: usize = 0;
    while b < nb
        invariant
            b <= nb,
            nb == func.basic_blocks@.len(),
            fn_slots_below(*func, ns as int),
            uses_bm@.len() == b,
            defs_bm@.len() == b,
            forall|i: int|
                0 <= i < b ==> row_set(#[trigger] uses_bm@[i]@) == block_uses(
                    func.basic_blocks@[i],
                ) && uses_bm@[i]@.len() == ns,
            forall|i: int|
                0 <= i < b ==> row_set(#[trigger] defs_bm@[i]@) == block_defs(
                    func.basic_blocks@[i],
                ) && defs_bm@[i]@.len() == ns,
        decreases nb - b,
    {
        let (u, d) = block_gen_kill(&func.basic_blocks[b], ns);
        uses_bm.push(u);
        defs_bm.push(d);
        b += 1;
    }

    // Kleene iteration from the empty table
    let mut cur: Vec<Vec<bool>> = Vec::new();
    let mut i: usize = 0;
    while i < nb
        invariant
            i <= nb,
            cur@.len() == i,
            forall|j: int| 0 <= j < i ==> (#[trigger] cur@[j]@).len() == ns,
            forall|j: int, v: int| 0 <= j < i && 0 <= v < ns ==> !(#[trigger] cur@[j]@[v]),
        decreases nb - i,
    {
        cur.push(zero_row(ns));
        i += 1;
    }
    proof {
        lemma_ascent_initial(*func, tbl(cur), ns as nat);
    }
    let mut done = false;
    while !done
        invariant
            nb == func.basic_blocks@.len(),
            cfg_well_formed(*func),
            fn_slots_below(*func, ns as int),
            uses_bm@.len() == nb,
            defs_bm@.len() == nb,
            forall|i: int|
                0 <= i < nb ==> row_set(#[trigger] uses_bm@[i]@) == block_uses(
                    func.basic_blocks@[i],
                ) && uses_bm@[i]@.len() == ns,
            forall|i: int|
                0 <= i < nb ==> row_set(#[trigger] defs_bm@[i]@) == block_defs(
                    func.basic_blocks@[i],
                ) && defs_bm@[i]@.len() == ns,
            dims_ok(tbl(cur), nb as nat, ns as nat),
            pointwise_le(tbl(cur), step_bits(*func, tbl(cur), ns as nat)),
            forall|t: Seq<Set<int>>|
                is_liveness_solution(*func, t) ==> pointwise_subset(rows_sets(tbl(cur)), t),
            count_all(tbl(cur)) >= 0,
            count_all(tbl(cur)) <= nb * ns,
            done ==> tbl(cur) == step_bits(*func, tbl(cur), ns as nat),
        decreases (if done {
            0int
        } else {
            2 * ((nb * ns) - count_all(tbl(cur))) + 1
        }),
    {
        let (next, changed) = sweep(func, &cur, ns, &uses_bm, &defs_bm);
        if !changed {
            done = true;
        } else {
            proof {
                lemma_ascent_step(*func, tbl(cur), tbl(next), ns as nat);
                lemma_leastness_step(*func, tbl(cur), tbl(next), ns as nat);
                lemma_strict_progress(*func, tbl(cur), tbl(next), ns as nat);
            }
            cur = next;
        }
    }
    // final live-out rows from the fixed point
    let mut outs: Vec<Vec<bool>> = Vec::new();
    let mut b2: usize = 0;
    while b2 < nb
        invariant
            b2 <= nb,
            nb == func.basic_blocks@.len(),
            cfg_well_formed(*func),
            dims_ok(tbl(cur), nb as nat, ns as nat),
            outs@.len() == b2,
            forall|i: int| 0 <= i < b2 ==> (#[trigger] outs@[i]@).len() == ns,
            forall|i: int, v: int|
                0 <= i < b2 && 0 <= v < ns ==> (#[trigger] outs@[i]@[v]) == out_bit(
                    *func,
                    tbl(cur),
                    i,
                    v,
                ),
        decreases nb - b2,
    {
        proof {
            assert(terminator_targets_ok(func.basic_blocks@[b2 as int].terminator, nb as nat));
            assert(cur@.len() == nb);
            assert forall|i: int|
                0 <= i < nb implies (#[trigger] cur@[i]@).len() == ns && tbl(cur)[i]
                == cur@[i]@ by {
                assert(tbl(cur)[i] == cur@[i]@);
                assert(tbl(cur)[i].len() == ns);
            }
        }
        let mut out_row: Vec<bool>;
        match &func.basic_blocks[b2].terminator {
            Terminator::Goto(g) => {
                out_row = copy_row(&cur[*g]);
            },
            Terminator::Return(_) => {
                out_row = zero_row(ns);
            },
            Terminator::If { condition: _, then_block, else_block } => {
                out_row = copy_row(&cur[*then_block]);
                row_or(&mut out_row, &cur[*else_block]);
            },
        }
        proof {
            assert forall|v: int| 0 <= v < ns implies (#[trigger] out_row@[v]) == out_bit(
                *func,
                tbl(cur),
                b2 as int,
                v,
            ) by {
                match func.basic_blocks@[b2 as int].terminator {
                    Terminator::Goto(g) => {
                        assert(out_row@[v] == cur@[g as int]@[v]);
                    },
                    Terminator::Return(_) => {},
                    Terminator::If { condition: _, then_block, else_block } => {
                        assert(out_row@[v] == (cur@[then_block as int]@[v]
                            || cur@[else_block as int]@[v]));
                    },
                }
            }
        }
        outs.push(out_row);
        b2 += 1;
    }
    let r = LivenessResult { live_in: cur, live_out: outs };
    proof {
        lemma_result_ok(*func, r, ns as nat);
    }
    r
}

proof fn lemma_ascent_initial(f: Function, zeros: Seq<Seq<bool>>, ns: nat)
    requires
        zeros.len() == f.basic_blocks@.len(),
        forall|j: int| 0 <= j < zeros.len() ==> (#[trigger] zeros[j]).len() == ns,
        forall|j: int, v: int| 0 <= j < zeros.len() && 0 <= v < ns ==> !(#[trigger] zeros[j][v]),
    ensures
        pointwise_le(zeros, step_bits(f, zeros, ns)),
        forall|t: Seq<Set<int>>|
            is_liveness_solution(f, t) ==> pointwise_subset(rows_sets(zeros), t),
        count_all(zeros) >= 0,
        count_all(zeros) <= zeros.len() * ns,
{
    assert forall|t: Seq<Set<int>>|
        is_liveness_solution(f, t) implies pointwise_subset(rows_sets(zeros), t) by {
        assert forall|b: int|
            0 <= b < rows_sets(zeros).len() implies (#[trigger] rows_sets(zeros)[b]).subset_of(
            t[b],
        ) by {
            assert forall|v: int| rows_sets(zeros)[b].contains(v) implies t[b].contains(v) by {
                assert(zeros[b][v]);
            }
        }
    }
    lemma_count_all_le(zeros, zeros, ns);
}

proof fn lemma_ascent_step(f: Function, cur: Seq<Seq<bool>>, next: Seq<Seq<bool>>, ns: nat)
    requires
        cfg_well_formed(f),
        dims_ok(cur, f.basic_blocks@.len(), ns),
        next == step_bits(f, cur, ns),
        pointwise_le(cur, next),
    ensures
        dims_ok(next, f.basic_blocks@.len(), ns),
        pointwise_le(next, step_bits(f, next, ns)),
{
    lemma_step_bits_monotone(f, cur, next, ns);
}

proof fn lemma_leastness_step(f: Function, cur: Seq<Seq<bool>>, next: Seq<Seq<bool>>, ns: nat)
    requires
        cfg_well_formed(f),
        fn_slots_below(f, ns as int),
        dims_ok(cur, f.basic_blocks@.len(), ns),
        next == step_bits(f, cur, ns),
        forall|t: Seq<Set<int>>|
            is_liveness_solution(f, t) ==> pointwise_subset(rows_sets(cur), t),
    ensures
        forall|t: Seq<Set<int>>|
            is_liveness_solution(f, t) ==> pointwise_subset(rows_sets(next), t),
{
    let nb = f.basic_blocks@.len();
    assert forall|t: Seq<Set<int>>|
        is_liveness_solution(f, t) implies pointwise_subset(rows_sets(next), t) by {
        assert(pointwise_subset(rows_sets(cur), t));
        assert forall|b: int|
            0 <= b < rows_sets(next).len() implies (#[trigger] rows_sets(next)[b]).subset_of(
            t[b],
        ) by {
            lemma_step_bits_sets(f, cur, ns, b);
            assert forall|i: int|
                0 <= i < nb implies (#[trigger] rows_sets(cur)[i]).subset_of(t[i]) by {}
            lemma_t_in_monotone(f, rows_sets(cur), t, b);
            assert(t[b] == t_in(f, t, b));
            assert(rows_sets(next)[b] == row_set(next[b]));
            assert(row_set(next[b]) == t_in(f, rows_sets(cur), b));
        }
    }
}

proof fn lemma_strict_progress(f: Function, cur: Seq<Seq<bool>>, next: Seq<Seq<bool>>, ns: nat)
    requires
        cfg_well_formed(f),
        dims_ok(cur, f.basic_blocks@.len(), ns),
        next == step_bits(f, cur, ns),
        pointwise_le(cur, next),
        next != cur,
    ensures
        count_all(cur) < count_all(next),
        count_all(next) >= 0,
        count_all(next) <= f.basic_blocks@.len() * ns,
{
    let nb = f.basic_blocks@.len();
    assert(exists|b: int, v: int|
        0 <= b < nb && 0 <= v < ns && (#[trigger] cur[b][v]) != next[b][v]) by {
        if forall|b: int, v: int|
            0 <= b < nb && 0 <= v < ns ==> (#[trigger] cur[b][v]) == next[b][v] {
            assert forall|b: int| 0 <= b < nb implies cur[b] == next[b] by {
                assert(cur[b] =~= next[b]);
            }
            assert(cur =~= next);
        }
    }
    let (b, v) = choose|b: int, v: int|
        0 <= b < nb && 0 <= v < ns && (#[trigger] cur[b][v]) != next[b][v];
    lemma_count_all_lt(cur, next, ns, b, v);
    lemma_count_all_le(next, next, ns);
}

proof fn lemma_result_ok(f: Function, r: LivenessResult, ns: nat)
    requires
        cfg_well_formed(f),
        fn_slots_below(f, ns as int),
        dims_ok(tbl(r.live_in), f.basic_blocks@.len(), ns),
        tbl(r.live_in) == step_bits(f, tbl(r.live_in), ns),
        forall|t: Seq<Set<int>>|
            is_liveness_solution(f, t) ==> pointwise_subset(rows_sets(tbl(r.live_in)), t),
        r.live_out@.len() == f.basic_blocks@.len(),
        forall|i: int| 0 <= i < r.live_out@.len() ==> (#[trigger] r.live_out@[i]@).len() == ns,
        forall|i: int, v: int|
            0 <= i < r.live_out@.len() && 0 <= v < ns ==> (#[trigger] r.live_out@[i]@[v])
                == out_bit(f, tbl(r.live_in), i, v),
    ensures
        liveness_result_ok(f, r),
{
    let nb = f.basic_blocks@.len();
    let ins = tbl(r.live_in);
    let t = r.live_in_sets();
    assert forall|b: int| 0 <= b < t.len() implies (#[trigger] t[b]) == t_in(f, t, b) by {
        lemma_step_bits_sets(f, ins, ns, b);
        assert(t[b] == row_set(ins[b]));
        assert(row_set(ins[b]) == row_set(step_bits(f, ins, ns)[b]));
    }
    assert(is_liveness_solution(f, t));
    assert forall|b: int|
        0 <= b < nb implies (#[trigger] r.live_out_sets()[b]) == t_out(f, t, b) by {
        assert(terminator_targets_ok(f.basic_blocks@[b].terminator, nb));
        let orow = tbl(r.live_out)[b];
        assert(orow == r.live_out@[b]@);
        assert forall|v: int| row_set(orow).contains(v) implies t_out(f, t, b).contains(v) by {
            assert(0 <= v < ns && orow[v]);
            assert(out_bit(f, ins, b, v));
            match f.basic_blocks@[b].terminator {
                Terminator::Goto(g) => {
                    assert(ins[g as int][v]);
                    assert(t[g as int].contains(v));
                },
                Terminator::Return(_) => {
                    assert(false);
                },
                Terminator::If { condition: _, then_block, else_block } => {
                    if ins[then_block as int][v] {
                        assert(t[then_block as int].contains(v));
                    } else {
                        assert(ins[else_block as int][v]);
                        assert(t[else_block as int].contains(v));
                    }
                },
            }
        }
        assert forall|v: int| t_out(f, t, b).contains(v) implies row_set(orow).contains(v) by {
            match f.basic_blocks@[b].terminator {
                Terminator::Goto(g) => {
                    assert(t[g as int].contains(v));
                    assert(0 <= v < ns && ins[g as int][v]);
                },
                Terminator::Return(_) => {
                    assert(false);
                },
                Terminator::If { condition: _, then_block, else_block } => {
                    if t[then_block as int].contains(v) {
                        assert(0 <= v < ns && ins[then_block as int][v]);
                    } else {
                        assert(t[else_block as int].contains(v));
                        assert(0 <= v < ns && ins[else_block as int][v]);
                    }
                },
            }
            assert(out_bit(f, ins, b, v));
            assert(orow[v]);
        }
        assert(row_set(orow) =~= t_out(f, t, b));
        assert(r.live_out_sets()[b] == row_set(orow));
    }
}

// ---------------------------------------------------------------------------
// Exec computation of the slot limit.
// ---------------------------------------------------------------------------

fn lv_value_limit(lv: &LValue) -> (r: usize)
    requires
        set_below(lvalue_value_reads(*lv), usize::MAX as int),
    ensures
        set_below(lvalue_value_reads(*lv), r as int),
    decreases *lv,
{
    match lv {
        LValue::Variable(v) => {
            assert(lvalue_value_reads(*lv).contains(*v as int));
            *v + 1
        },
        LValue::Deref(rv) => rv_limit(rv),
    }
}

fn rv_limit(rv: &RValue) -> (r: usize)
    requires
        set_below(rvalue_reads(*rv), usize::MAX as int),
    ensures
        set_below(rvalue_reads(*rv), r as int),
    decreases *rv,
{
    match rv {
        RValue::Use(lv) => lv_value_limit(lv),
        RValue::Constant(_) => 0,
        RValue::BinaryOp(_, l, r) => {
            proof {
                lemma_union_below(rvalue_reads(**l), rvalue_reads(**r), usize::MAX as int);
            }
            let a = rv_limit(l);
            let b = rv_limit(r);
            let m = if a > b {
                a
            } else {
                b
            };
            assert forall|v: int| rvalue_reads(*rv).contains(v) implies 0 <= v < m as int by {
                if rvalue_reads(**l).contains(v) {
                } else {
                    assert(rvalue_reads(**r).contains(v));
                }
            }
            m
        },
        RValue::UnaryOp(_, o) => rv_limit(o),
        RValue::AddressOf(lv) => lv_value_limit(lv),
    }
}

fn stmt_limit(s: &Statement) -> (r: usize)
    requires
        set_below(stmt_reads(*s), usize::MAX as int),
        set_below(stmt_writes(*s), usize::MAX as int),
    ensures
        set_below(stmt_reads(*s), r as int),
        set_below(stmt_writes(*s), r as int),
    decreases *s,
{
    match s {
        Statement::Assign(lv, rv) => {
            proof {
                lemma_union_below(lvalue_target_reads(*lv), rvalue_reads(*rv), usize::MAX as int);
            }
            let a: usize = match lv {
                LValue::Variable(v) => {
                    assert(stmt_writes(*s).contains(*v as int));
                    *v + 1
                },
                LValue::Deref(addr) => rv_limit(addr),
            };
            let b = rv_limit(rv);
            let m = if a > b {
                a
            } else {
                b
            };
            assert forall|v: int| stmt_reads(*s).contains(v) implies 0 <= v < m as int by {
                if lvalue_target_reads(*lv).contains(v) {
                } else {
                    assert(rvalue_reads(*rv).contains(v));
                }
            }
            assert forall|v: int| stmt_writes(*s).contains(v) implies 0 <= v < m as int by {}
            m
        },
        Statement::Call(lv, _, args) => {
            proof {
                lemma_union_below(lvalue_target_reads(*lv), args_reads(args@), usize::MAX as int);
            }
            let mut m: usize = match lv {
                LValue::Variable(v) => {
                    assert(stmt_writes(*s).contains(*v as int));
                    *v + 1
                },
                LValue::Deref(addr) => rv_limit(addr),
            };
            let ghost m0 = m;
            let n = args.len();
            let mut i: usize = 0;
            while i < n
                invariant
                    i <= n,
                    n == args@.len(),
                    m >= m0,
                    set_below(args_reads(args@), usize::MAX as int),
                    set_below(lvalue_target_reads(*lv), m0 as int),
                    set_below(stmt_writes(*s), m0 as int),
                    forall|j: int|
                        0 <= j < i ==> set_below(rvalue_reads(#[trigger] args@[j]), m as int),
                decreases n - i,
            {
                proof {
                    lemma_args_elem_below(args@, i as int, usize::MAX as int);
                }
                let ghost mp = m;
                let a = rv_limit(&args[i]);
                if a > m {
                    m = a;
                }
                assert forall|j: int|
                    0 <= j <= i implies set_below(rvalue_reads(#[trigger] args@[j]), m as int) by {
                    if j < i {
                        assert(set_below(rvalue_reads(args@[j]), mp as int));
                    }
                }
                i += 1;
            }
            assert forall|v: int| stmt_reads(*s).contains(v) implies 0 <= v < m as int by {
                if lvalue_target_reads(*lv).contains(v) {
                } else {
                    assert(args_reads(args@).contains(v));
                    lemma_args_reads_member(args@, v, m as int);
                }
            }
            m
        },
        Statement::Annotated { stmt, annotations: _ } => stmt_limit(stmt),
    }
}

proof fn lemma_args_reads_member(args: Seq<RValue>, v: int, n: int)
    requires
        args_reads(args).contains(v),
        forall|j: int| 0 <= j < args.len() ==> set_below(rvalue_reads(#[trigger] args[j]), n),
    ensures
        0 <= v < n,
    decreases args.len(),
{
    if args.len() > 0 {
        if args_reads(args.drop_last()).contains(v) {
            let pre = args.drop_last();
            assert forall|j: int|
                0 <= j < pre.len() implies set_below(rvalue_reads(#[trigger] pre[j]), n) by {
                assert(pre[j] == args[j]);
            }
            lemma_args_reads_member(pre, v, n);
        } else {
            assert(rvalue_reads(args.last()).contains(v));
            assert(args.last() == args[args.len() - 1]);
        }
    }
}

fn term_limit(t: &Terminator) -> (r: usize)
    requires
        set_below(term_reads(*t), usize::MAX as int),
    ensures
        set_below(term_reads(*t), r as int),
{
    match t {
        Terminator::Goto(_) => 0,
        Terminator::Return(orv) => match orv {
            None => 0,
            Some(rv) => rv_limit(rv),
        },
        Terminator::If { condition, then_block: _, else_block: _ } => rv_limit(condition),
    }
}

/// A slot limit covering every slot this function mentions.
fn fn_slot_limit(f: &Function) -> (r: usize)
    requires
        fn_slots_below(*f, usize::MAX as int),
    ensures
        fn_slots_below(*f, r as int),
{
    let mut m: usize = 0;
    let np = f.parameters.len();
    let mut i: usize = 0;
    while i < np
        invariant
            i <= np,
            np == f.parameters@.len(),
            fn_slots_below(*f, usize::MAX as int),
            forall|j: int| 0 <= j < i ==> (#[trigger] f.parameters@[j].var_id) < m,
        decreases np - i,
    {
        let vid = f.parameters[i].var_id;
        assert(f.parameters@[i as int].var_id < usize::MAX);
        if vid + 1 > m {
            m = vid + 1;
        }
        i += 1;
    }
    let nb = f.basic_blocks.len();
    let mut b: usize = 0;
    while b < nb
        invariant
            b <= nb,
            nb == f.basic_blocks@.len(),
            fn_slots_below(*f, usize::MAX as int),
            forall|j: int| 0 <= j < f.parameters@.len() ==> (#[trigger] f.parameters@[j].var_id)
                < m,
            forall|j: int| 0 <= j < b ==> block_slots_below(#[trigger] f.basic_blocks@[j], m as int),
        decreases nb - b,
    {
        let bb = &f.basic_blocks[b];
        let nst = bb.statements.len();
        let mut s: usize = 0;
        while s < nst
            invariant
                s <= nst,
                nst == bb.statements@.len(),
                bb == f.basic_blocks@[b as int],
                fn_slots_below(*f, usize::MAX as int),
                b < f.basic_blocks@.len(),
                forall|j: int| 0 <= j < f.parameters@.len() ==> (#[trigger] f.parameters@[j].var_id)
                    < m,
                forall|j: int|
                    0 <= j < b ==> block_slots_below(#[trigger] f.basic_blocks@[j], m as int),
                forall|j: int|
                    0 <= j < s ==> set_below(stmt_reads(#[trigger] bb.statements@[j]), m as int)
                        && set_below(stmt_writes(bb.statements@[j]), m as int),
            decreases nst - s,
        {
            assert(block_slots_below(f.basic_blocks@[b as int], usize::MAX as int));
            let ghost mp = m;
            let a = stmt_limit(&bb.statements[s]);
            if a > m {
                m = a;
            }
            proof {
                lemma_limit_grow(*f, b as int, mp as int, m as int);
            }
            assert forall|j: int|
                0 <= j <= s implies set_below(
                stmt_reads(#[trigger] bb.statements@[j]),
                m as int,
            ) && set_below(stmt_writes(bb.statements@[j]), m as int) by {
                if j < s {
                    assert(set_below(stmt_reads(bb.statements@[j]), mp as int));
                    assert(set_below(stmt_writes(bb.statements@[j]), mp as int));
                }
            }
            s += 1;
        }
        assert(block_slots_below(f.basic_blocks@[b as int], usize::MAX as int));
        let a = term_limit(&bb.terminator);
        let ghost mp2 = m;
        if a > m {
            m = a;
        }
        proof {
            lemma_limit_grow(*f, b as int, mp2 as int, m as int);
        }
        assert forall|j: int|
            0 <= j <= b implies block_slots_below(#[trigger] f.basic_blocks@[j], m as int) by {
            if j == b {
                assert forall|k: int|
                    0 <= k < bb.statements@.len() implies set_below(
                    stmt_reads(#[trigger] bb.statements@[k]),
                    m as int,
                ) && set_below(stmt_writes(bb.statements@[k]), m as int) by {
                    assert(set_below(stmt_reads(bb.statements@[k]), mp2 as int));
                    assert(set_below(stmt_writes(bb.statements@[k]), mp2 as int));
                }
            }
        }
        b += 1;
    }
    m
}

/// Bounds established with a smaller limit still hold after it grows.
proof fn lemma_limit_grow(f: Function, b: int, m1: int, m2: int)
    requires
        m1 <= m2,
        forall|j: int| 0 <= j < f.parameters@.len() ==> (#[trigger] f.parameters@[j].var_id) < m1,
        forall|j: int| 0 <= j < b ==> block_slots_below(#[trigger] f.basic_blocks@[j], m1),
        b <= f.basic_blocks@.len(),
    ensures
        forall|j: int| 0 <= j < f.parameters@.len() ==> (#[trigger] f.parameters@[j].var_id) < m2,
        forall|j: int| 0 <= j < b ==> block_slots_below(#[trigger] f.basic_blocks@[j], m2),
{
    assert forall|j: int|
        0 <= j < b implies block_slots_below(#[trigger] f.basic_blocks@[j], m2) by {
        let bb = f.basic_blocks@[j];
        assert(block_slots_below(bb, m1));
        assert forall|k: int|
            0 <= k < bb.statements@.len() implies set_below(
            stmt_reads(#[trigger] bb.statements@[k]),
            m2,
        ) && set_below(stmt_writes(bb.statements@[k]), m2) by {
            assert(set_below(stmt_reads(bb.statements@[k]), m1));
            assert(set_below(stmt_writes(bb.statements@[k]), m1));
        }
    }
}

// ---------------------------------------------------------------------------
// Laws of the fixed point.
// ---------------------------------------------------------------------------

/// Applying the transfer to a solution of the equations changes nothing:
/// re-running the pass on its own output is idempotent.
pub proof fn lemma_solution_idempotent(f: Function, t: Seq<Set<int>>, b: int)
    requires
        is_liveness_solution(f, t),
        0 <= b < t.len(),
    ensures
        t_in(f, t, b) == t[b],
{
}

/// The least solution is unique: any two tables that solve the equations and
/// lie below every solution hold the same live-in sets. Together with
/// `liveness_result_ok` this pins the result of the pass: re-running it on
/// the same function yields the same sets.
pub proof fn lemma_least_solution_unique(f: Function, t1: Seq<Set<int>>, t2: Seq<Set<int>>)
    requires
        is_liveness_solution(f, t1),
        is_liveness_solution(f, t2),
        forall|t: Seq<Set<int>>| is_liveness_solution(f, t) ==> pointwise_subset(t1, t),
        forall|t: Seq<Set<int>>| is_liveness_solution(f, t) ==> pointwise_subset(t2, t),
    ensures
        t1 =~~= t2,
{
    assert(pointwise_subset(t1, t2));
    assert(pointwise_subset(t2, t1));
    assert forall|b: int| 0 <= b < t1.len() implies t1[b] =~= t2[b] by {
        assert(t1[b].subset_of(t2[b]));
        assert(t2[b].subset_of(t1[b]));
    }
}

} // verus!
