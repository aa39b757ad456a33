use c2rust_agent::analysis::{run_liveness_analysis, AnalysisManager};
use c2rust_agent::mir::{
    BasicBlock, BinOp, Function, LValue, ProjectMIR, RValue, Statement, Terminator, Type,
};

fn use_of(v: usize) -> RValue {
    RValue::Use(Box::new(LValue::Variable(v)))
}

#[test]
fn test_liveness_straight_line() {
    // f(): { v0 = 1; return v1; }  — v1 is live in, v0 is not
    let mut func = Function::new("f".to_string(), Some(Type::Int));
    let mut bb = BasicBlock::new(0, Terminator::Return(Some(use_of(1))));
    bb.add_statement(Statement::Assign(LValue::Variable(0), RValue::Constant(1)));
    func.add_basic_block(bb);

    let r = run_liveness_analysis(&func);
    assert!(r.is_live_in(0, 1));
    assert!(!r.is_live_in(0, 0));
    // a return has no successors: nothing is live out
    assert!(!r.is_live_out(0, 0));
    assert!(!r.is_live_out(0, 1));
}

#[test]
fn test_liveness_kill_before_use() {
    // { v0 = 1; v1 = v0; return v1; } — nothing is live on entry
    let mut func = Function::new("g".to_string(), Some(Type::Int));
    let mut bb = BasicBlock::new(0, Terminator::Return(Some(use_of(1))));
    bb.add_statement(Statement::Assign(LValue::Variable(0), RValue::Constant(1)));
    bb.add_statement(Statement::Assign(LValue::Variable(1), use_of(0)));
    func.add_basic_block(bb);

    let r = run_liveness_analysis(&func);
    assert!(!r.is_live_in(0, 0));
    assert!(!r.is_live_in(0, 1));
}

#[test]
fn test_liveness_through_branch() {
    // block 0: if v0 goto 1 else 2; block 1: return v1; block 2: return v2
    let mut func = Function::new("h".to_string(), Some(Type::Int));
    func.add_basic_block(BasicBlock::new(
        0,
        Terminator::If { condition: use_of(0), then_block: 1, else_block: 2 },
    ));
    func.add_basic_block(BasicBlock::new(1, Terminator::Return(Some(use_of(1)))));
    func.add_basic_block(BasicBlock::new(2, Terminator::Return(Some(use_of(2)))));

    let r = run_liveness_analysis(&func);
    // entry: the condition and both branch operands are live
    assert!(r.is_live_in(0, 0));
    assert!(r.is_live_in(0, 1));
    assert!(r.is_live_in(0, 2));
    // live out of the entry: union of both branches' live-in sets
    assert!(!r.is_live_out(0, 0));
    assert!(r.is_live_out(0, 1));
    assert!(r.is_live_out(0, 2));
    // each branch keeps only its own operand
    assert!(r.is_live_in(1, 1));
    assert!(!r.is_live_in(1, 2));
    assert!(r.is_live_in(2, 2));
    assert!(!r.is_live_in(2, 1));
}

#[test]
fn test_liveness_loop_fixed_point() {
    // block 0: goto 1; block 1: if v0 goto 2 else 3;
    // block 2: v1 = v1 + v0; goto 1; block 3: return v1
    let mut func = Function::new("looped".to_string(), Some(Type::Int));
    func.add_basic_block(BasicBlock::new(0, Terminator::Goto(1)));
    func.add_basic_block(BasicBlock::new(
        1,
        Terminator::If { condition: use_of(0), then_block: 2, else_block: 3 },
    ));
    let mut body = BasicBlock::new(2, Terminator::Goto(1));
    body.add_statement(Statement::Assign(
        LValue::Variable(1),
        RValue::BinaryOp(BinOp::Add, Box::new(use_of(1)), Box::new(use_of(0))),
    ));
    func.add_basic_block(body);
    func.add_basic_block(BasicBlock::new(3, Terminator::Return(Some(use_of(1)))));

    let r = run_liveness_analysis(&func);
    // both the counter and the condition stay live around the back edge
    assert!(r.is_live_in(0, 0));
    assert!(r.is_live_in(0, 1));
    assert!(r.is_live_in(1, 0));
    assert!(r.is_live_in(1, 1));
    assert!(r.is_live_in(2, 0));
    assert!(r.is_live_in(2, 1));
    // after the loop only the result matters
    assert!(r.is_live_in(3, 1));
    assert!(!r.is_live_in(3, 0));
}

#[test]
fn test_liveness_rerun_is_identical() {
    // the least solution is unique: running the pass twice gives the same sets
    let mut func = Function::new("again".to_string(), Some(Type::Int));
    func.add_basic_block(BasicBlock::new(
        0,
        Terminator::If { condition: use_of(0), then_block: 1, else_block: 1 },
    ));
    func.add_basic_block(BasicBlock::new(1, Terminator::Return(Some(use_of(1)))));
    let r1 = run_liveness_analysis(&func);
    let r2 = run_liveness_analysis(&func);
    for b in 0..2 {
        for v in 0..4 {
            assert_eq!(r1.is_live_in(b, v), r2.is_live_in(b, v));
            assert_eq!(r1.is_live_out(b, v), r2.is_live_out(b, v));
        }
    }
}

#[test]
fn test_analysis_manager_runs_all_passes() {
    let mut p = ProjectMIR::new();
    let mut f = Function::new("one".to_string(), Some(Type::Int));
    f.add_basic_block(BasicBlock::new(0, Terminator::Return(Some(use_of(0)))));
    p.add_function(f);
    p.add_function(Function::new("two".to_string(), None));

    let manager = AnalysisManager::new(&p);
    let results = manager.run_all_passes();
    assert_eq!(results.results.len(), 2);
    assert!(results.results[0].liveness.is_live_in(0, 0));
    // results are reachable by function name as well
    let bundle = results.result_for(&p, "one").unwrap();
    assert!(bundle.liveness.is_live_in(0, 0));
    assert!(results.result_for(&p, "three").is_none());
}
