use c2rust_agent::mir::{
    BasicBlock, BinOp, Function, GlobalVar, LValue, ProjectMIR, RValue, Statement, Terminator,
    Type,
};

#[test]
fn test_create_simple_function() {
    // a simple function: int add(int a, int b) { return a + b; }
    let mut func = Function::new("add".to_string(), Some(Type::Int));

    func.add_parameter("a".to_string(), Type::Int, 0);
    func.add_parameter("b".to_string(), Type::Int, 1);

    let bb = BasicBlock::new(
        0,
        Terminator::Return(Some(RValue::BinaryOp(
            BinOp::Add,
            Box::new(RValue::Use(Box::new(LValue::Variable(0)))),
            Box::new(RValue::Use(Box::new(LValue::Variable(1)))),
        ))),
    );

    func.add_basic_block(bb);

    assert_eq!(func.name, "add");
    assert_eq!(func.parameters.len(), 2);
    assert_eq!(func.basic_blocks.len(), 1);
}

#[test]
fn test_statement_with_annotations() {
    let stmt = Statement::Assign(LValue::Variable(0), RValue::Constant(42));

    let annotated =
        stmt.with_annotations(vec!["This is an LLM-generated annotation".to_string()]);

    match annotated {
        Statement::Annotated { annotations, .. } => {
            assert_eq!(annotations.len(), 1);
        }
        _ => panic!("Expected annotated statement"),
    }
}

#[test]
fn test_project_insert_if_absent() {
    let mut p = ProjectMIR::new();
    let first = Function::new("f".to_string(), Some(Type::Int));
    let second = Function::new("f".to_string(), None);
    assert!(p.add_function(first));
    // a later re-declaration never overwrites an existing signature
    assert!(!p.add_function(second));
    assert_eq!(p.functions.len(), 1);
    assert!(matches!(p.functions[0].return_type, Some(Type::Int)));

    let g1 = GlobalVar {
        name: "counter".to_string(),
        var_type: Type::Int,
        is_static: true,
        is_public: false,
    };
    let g2 = GlobalVar {
        name: "counter".to_string(),
        var_type: Type::Float,
        is_static: false,
        is_public: true,
    };
    assert!(p.add_global(g1));
    assert!(!p.add_global(g2));
    assert_eq!(p.globals.len(), 1);
    assert!(matches!(p.globals[0].var_type, Type::Int));
}

#[test]
fn test_find_function_by_name() {
    let mut p = ProjectMIR::new();
    p.add_function(Function::new("alpha".to_string(), None));
    p.add_function(Function::new("beta".to_string(), Some(Type::Void)));
    assert_eq!(p.find_function("beta"), Some(1));
    assert_eq!(p.find_function("alpha"), Some(0));
    assert_eq!(p.find_function("gamma"), None);
}
