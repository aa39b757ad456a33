use c2rust_agent::ast_to_mir::{
    Converter, SrcDecl, SrcExpr, SrcFunctionDecl, SrcParam, SrcStmt, SrcType, SrcUnit,
};
use c2rust_agent::mir::{BinOp, LValue, RValue, Statement, Terminator, Type};

fn int_param(name: &str) -> SrcParam {
    SrcParam { name: Some(name.to_string()), ty: Some(SrcType::Int) }
}

fn add_decl() -> SrcFunctionDecl {
    // int add(int a, int b) { return a + b; }
    SrcFunctionDecl {
        name: Some("add".to_string()),
        return_type: Some(SrcType::Int),
        params: vec![int_param("a"), int_param("b")],
        body: Some(vec![SrcStmt::Return(Some(SrcExpr::Binary(
            BinOp::Add,
            Box::new(SrcExpr::Name("a".to_string())),
            Box::new(SrcExpr::Name("b".to_string())),
        )))]),
        is_static: false,
    }
}

#[test]
fn test_convert_simple_function() {
    let result = Converter::convert_function(&add_decl());
    assert!(result.is_ok());
    let func = result.unwrap();
    assert_eq!(func.name, "add");
    assert_eq!(func.parameters.len(), 2);
    assert_eq!(func.parameters[0].name, "a");
    assert_eq!(func.parameters[1].name, "b");
    assert_eq!(func.parameters[0].var_id, 0);
    assert_eq!(func.parameters[1].var_id, 1);
    // the entry block returns a + b on the parameter slots
    assert!(!func.basic_blocks.is_empty());
    match &func.basic_blocks[0].terminator {
        Terminator::Return(Some(RValue::BinaryOp(BinOp::Add, l, r))) => {
            assert!(matches!(**l, RValue::Use(ref lv) if matches!(**lv, LValue::Variable(0))));
            assert!(matches!(**r, RValue::Use(ref lv) if matches!(**lv, LValue::Variable(1))));
        }
        other => panic!("unexpected terminator: {:?}", other),
    }
}

#[test]
fn test_convert_void_function() {
    // void hello() { }
    let decl = SrcFunctionDecl {
        name: Some("hello".to_string()),
        return_type: Some(SrcType::Void),
        params: vec![],
        body: Some(vec![]),
        is_static: false,
    };
    let result = Converter::convert_function(&decl);
    assert!(result.is_ok(), "conversion should succeed: {:?}", result.err());
    let func = result.unwrap();
    assert_eq!(func.name, "hello");
    assert_eq!(func.parameters.len(), 0);
    assert!(matches!(func.return_type, Some(Type::Void)));
    // the empty body closes as a void return
    assert!(matches!(func.basic_blocks[0].terminator, Terminator::Return(None)));
}

#[test]
fn test_unnamed_function_fails_alone() {
    let decl = SrcFunctionDecl {
        name: None,
        return_type: None,
        params: vec![],
        body: Some(vec![]),
        is_static: false,
    };
    assert!(Converter::convert_function(&decl).is_err());
}

#[test]
fn test_unresolved_name_fails() {
    let decl = SrcFunctionDecl {
        name: Some("broken".to_string()),
        return_type: Some(SrcType::Int),
        params: vec![],
        body: Some(vec![SrcStmt::Return(Some(SrcExpr::Name("nowhere".to_string())))]),
        is_static: false,
    };
    assert!(Converter::convert_function(&decl).is_err());
}

#[test]
fn test_if_lowering_builds_branches() {
    // int pick(int c, int a, int b) { if (c) { return a; } else { return b; } }
    let decl = SrcFunctionDecl {
        name: Some("pick".to_string()),
        return_type: Some(SrcType::Int),
        params: vec![int_param("c"), int_param("a"), int_param("b")],
        body: Some(vec![SrcStmt::If {
            cond: SrcExpr::Name("c".to_string()),
            then_body: vec![SrcStmt::Return(Some(SrcExpr::Name("a".to_string())))],
            else_body: vec![SrcStmt::Return(Some(SrcExpr::Name("b".to_string())))],
        }]),
        is_static: false,
    };
    let func = Converter::convert_function(&decl).unwrap();
    // entry branches to the two fresh blocks
    match &func.basic_blocks[0].terminator {
        Terminator::If { condition, then_block, else_block } => {
            assert!(matches!(condition, RValue::Use(lv) if matches!(**lv, LValue::Variable(0))));
            assert_eq!(*then_block, 1);
            assert_eq!(*else_block, 2);
        }
        other => panic!("unexpected terminator: {:?}", other),
    }
    // each branch returns its own operand
    assert!(matches!(
        &func.basic_blocks[1].terminator,
        Terminator::Return(Some(RValue::Use(lv))) if matches!(**lv, LValue::Variable(1))
    ));
    assert!(matches!(
        &func.basic_blocks[2].terminator,
        Terminator::Return(Some(RValue::Use(lv))) if matches!(**lv, LValue::Variable(2))
    ));
    // every block id matches its position, every target resolves
    let n = func.basic_blocks.len();
    for (i, bb) in func.basic_blocks.iter().enumerate() {
        assert_eq!(bb.id, i);
        match &bb.terminator {
            Terminator::Goto(t) => assert!(*t < n),
            Terminator::If { then_block, else_block, .. } => {
                assert!(*then_block < n && *else_block < n)
            }
            Terminator::Return(_) => {}
        }
    }
}

#[test]
fn test_while_lowering_builds_loop() {
    // void spin(int c) { while (c) { c = c; } }
    let decl = SrcFunctionDecl {
        name: Some("spin".to_string()),
        return_type: Some(SrcType::Void),
        params: vec![int_param("c")],
        body: Some(vec![SrcStmt::While {
            cond: SrcExpr::Name("c".to_string()),
            body: vec![SrcStmt::Assign {
                target: c2rust_agent::ast_to_mir::SrcPlace::Name("c".to_string()),
                value: SrcExpr::Name("c".to_string()),
            }],
        }]),
        is_static: false,
    };
    let func = Converter::convert_function(&decl).unwrap();
    // entry jumps to the header; the header branches to body and exit;
    // the body jumps back to the header
    assert!(matches!(func.basic_blocks[0].terminator, Terminator::Goto(1)));
    match &func.basic_blocks[1].terminator {
        Terminator::If { then_block, else_block, .. } => {
            assert_eq!(*then_block, 2);
            assert_eq!(*else_block, 3);
        }
        other => panic!("unexpected header terminator: {:?}", other),
    }
    assert!(matches!(func.basic_blocks[2].terminator, Terminator::Goto(1)));
}

#[test]
fn test_shadowing_resolves_innermost() {
    // int f(int x) { int y = x; { int x = 1; y = x; } return y; }
    let decl = SrcFunctionDecl {
        name: Some("f".to_string()),
        return_type: Some(SrcType::Int),
        params: vec![int_param("x")],
        body: Some(vec![
            SrcStmt::Decl {
                name: "y".to_string(),
                ty: SrcType::Int,
                init: Some(SrcExpr::Name("x".to_string())),
            },
            SrcStmt::Block(vec![
                SrcStmt::Decl {
                    name: "x".to_string(),
                    ty: SrcType::Int,
                    init: Some(SrcExpr::Constant(1)),
                },
                SrcStmt::Assign {
                    target: c2rust_agent::ast_to_mir::SrcPlace::Name("y".to_string()),
                    value: SrcExpr::Name("x".to_string()),
                },
            ]),
            SrcStmt::Return(Some(SrcExpr::Name("y".to_string()))),
        ]),
        is_static: false,
    };
    let func = Converter::convert_function(&decl).unwrap();
    let stmts = &func.basic_blocks[0].statements;
    // slot 0 = parameter x, slot 1 = y, slot 2 = inner x
    assert!(matches!(
        &stmts[0],
        Statement::Assign(LValue::Variable(1), RValue::Use(lv))
            if matches!(**lv, LValue::Variable(0))
    ));
    assert!(matches!(&stmts[1], Statement::Assign(LValue::Variable(2), RValue::Constant(1))));
    // the assignment inside the block reads the inner x (slot 2)
    assert!(matches!(
        &stmts[2],
        Statement::Assign(LValue::Variable(1), RValue::Use(lv))
            if matches!(**lv, LValue::Variable(2))
    ));
}

#[test]
fn test_convert_project_two_phase() {
    // a declaration in one unit, the definition in another, plus a global
    let unit1 = SrcUnit {
        file: "decls.c".to_string(),
        decls: vec![
            SrcDecl::Function(SrcFunctionDecl {
                name: Some("add".to_string()),
                return_type: Some(SrcType::Int),
                params: vec![int_param("a"), int_param("b")],
                body: None,
                is_static: false,
            }),
            SrcDecl::Global(c2rust_agent::ast_to_mir::SrcGlobalDecl {
                name: Some("counter".to_string()),
                ty: Some(SrcType::Int),
                is_static: true,
                is_public: true,
            }),
        ],
    };
    let unit2 = SrcUnit { file: "impl.c".to_string(), decls: vec![SrcDecl::Function(add_decl())] };
    let (mir, warnings) = Converter::convert_project(&vec![unit1, unit2]);
    assert_eq!(mir.functions.len(), 1);
    assert_eq!(mir.globals.len(), 1);
    assert_eq!(mir.functions[0].name, "add");
    // phase 2 replaced the placeholder with a lowered body
    assert!(!mir.functions[0].basic_blocks.is_empty());
    assert!(warnings.is_empty());
}

#[test]
fn test_failed_function_is_isolated() {
    // one convertible function and one with an unresolved name: the broken
    // one keeps its placeholder and is reported; the rest still converts
    let unit = SrcUnit {
        file: "mixed.c".to_string(),
        decls: vec![
            SrcDecl::Function(add_decl()),
            SrcDecl::Function(SrcFunctionDecl {
                name: Some("broken".to_string()),
                return_type: Some(SrcType::Int),
                params: vec![],
                body: Some(vec![SrcStmt::Return(Some(SrcExpr::Name("nowhere".to_string())))]),
                is_static: false,
            }),
        ],
    };
    let (mir, warnings) = Converter::convert_project(&vec![unit]);
    assert_eq!(mir.functions.len(), 2);
    assert!(!mir.functions[0].basic_blocks.is_empty());
    assert!(mir.functions[1].basic_blocks.is_empty());
    assert_eq!(warnings.len(), 1);
}

#[test]
fn test_unknown_type_is_lossy_not_fatal() {
    // an unrecognized parameter type maps to Unknown with a warning
    let decl = SrcFunctionDecl {
        name: Some("use_handle".to_string()),
        return_type: Some(SrcType::Named("FILE".to_string())),
        params: vec![SrcParam {
            name: Some("h".to_string()),
            ty: Some(SrcType::Pointer(Box::new(SrcType::Named("FILE".to_string())))),
        }],
        body: Some(vec![]),
        is_static: false,
    };
    let func = Converter::convert_function(&decl).unwrap();
    assert!(matches!(func.return_type, Some(Type::Unknown)));
    match &func.parameters[0].param_type {
        Type::Pointer(inner) => assert!(matches!(**inner, Type::Unknown)),
        other => panic!("unexpected type: {:?}", other),
    }
}
