use slang::{Atom, Block, Declaration, FunctionCall, FunctionData, If, Op, RunError, Scope, State, Stmt, While, S};

fn num(i: isize) -> S {
    S::Atom(Atom::Int(i))
}

fn var(n: &str) -> S {
    S::Atom(Atom::Identifier(n.to_string()))
}

fn text(s: &str) -> S {
    S::Atom(Atom::Str(s.to_string()))
}

fn bin(op: Op, l: S, r: S) -> S {
    S::Binary(op, Box::new(l), Box::new(r))
}

fn dec(lhs: &str, rhs: S, alias: bool, plus_or_minus: Option<bool>) -> Stmt {
    Stmt::Dec(Declaration { lhs: lhs.to_string(), rhs, alias, plus_or_minus })
}

fn block(statements: Vec<Stmt>) -> Block {
    Block { statements }
}

fn run(stmts: Vec<Stmt>) -> (Result<Option<Atom>, RunError>, State, Vec<Atom>) {
    let mut state = State::new();
    let mut out = Vec::new();
    let r = block(stmts).run(&mut state, &mut out, 10_000);
    (r, state, out)
}

#[test]
fn counting_loop_leaves_three() {
    let (r, state, _) = run(vec![
        dec("x", num(0), true, None),
        Stmt::WhileStmt(While {
            cond: bin(Op::Lt, var("x"), num(3)),
            loop_block: block(vec![dec("x", num(1), false, Some(true))]),
        }),
    ]);
    assert!(matches!(r, Ok(None)));
    assert_eq!(state.get_variable("x"), Some(&Atom::Int(3)));
}

#[test]
fn if_selects_then_branch() {
    let (r, _, _) = run(vec![
        dec("x", num(1), true, None),
        Stmt::IfStmt(If {
            cond: bin(Op::Eq, var("x"), num(1)),
            then_block: block(vec![Stmt::ExprStmt(text("yes"))]),
            else_block: block(vec![Stmt::ExprStmt(text("no"))]),
        }),
    ]);
    assert_eq!(r.unwrap(), Some(Atom::Str("yes".to_string())));
}

#[test]
fn if_selects_else_branch() {
    let (r, _, _) = run(vec![
        dec("x", num(2), true, None),
        Stmt::IfStmt(If {
            cond: bin(Op::Eq, var("x"), num(1)),
            then_block: block(vec![Stmt::ExprStmt(text("yes"))]),
            else_block: block(vec![Stmt::ExprStmt(text("no"))]),
        }),
    ]);
    assert_eq!(r.unwrap(), Some(Atom::Str("no".to_string())));
}

#[test]
fn alias_shadows_inside_block_only() {
    let (r, state, _) = run(vec![
        dec("x", num(1), true, None),
        Stmt::Block(block(vec![dec("x", num(2), true, None), Stmt::ExprStmt(var("x"))])),
    ]);
    assert_eq!(r.unwrap(), Some(Atom::Int(2)));
    assert_eq!(state.get_variable("x"), Some(&Atom::Int(1)));
    assert_eq!(state.scopes.len(), 1);
}

#[test]
fn assignment_in_block_reaches_outer_frame() {
    let (r, state, _) = run(vec![
        dec("x", num(1), true, None),
        Stmt::Block(block(vec![dec("x", num(5), false, None)])),
    ]);
    assert!(matches!(r, Ok(None)));
    assert_eq!(state.get_variable("x"), Some(&Atom::Int(5)));
    assert_eq!(state.scopes[0].vars.len(), 1);
}

#[test]
fn string_over_int_is_type_mismatch() {
    let (r, state, _) = run(vec![dec("x", num(1), true, None), dec("x", text("s"), false, None)]);
    assert!(matches!(r, Err(RunError::TypeMismatch)));
    assert_eq!(state.get_variable("x"), Some(&Atom::Int(1)));
}

#[test]
fn alias_may_change_variant() {
    let (r, state, _) = run(vec![dec("x", num(1), true, None), dec("x", text("s"), true, None)]);
    assert!(matches!(r, Ok(None)));
    assert_eq!(state.get_variable("x"), Some(&Atom::Str("s".to_string())));
}

#[test]
fn plus_equals_adds() {
    let (_, state, _) = run(vec![dec("x", num(7), true, None), dec("x", num(5), false, Some(true))]);
    assert_eq!(state.get_variable("x"), Some(&Atom::Int(12)));
}

#[test]
fn minus_equals_subtracts() {
    let (_, state, _) = run(vec![dec("x", num(7), true, None), dec("x", num(10), false, Some(false))]);
    assert_eq!(state.get_variable("x"), Some(&Atom::Int(-3)));
}

#[test]
fn plus_equals_overflow_is_an_error() {
    let (r, state, _) = run(vec![
        dec("x", num(isize::MAX), true, None),
        dec("x", num(1), false, Some(true)),
    ]);
    assert!(matches!(r, Err(RunError::Overflow)));
    assert_eq!(state.get_variable("x"), Some(&Atom::Int(isize::MAX)));
}

#[test]
fn assignment_without_binding_is_uninitialized() {
    let (r, _, _) = run(vec![dec("y", num(1), false, None)]);
    match r {
        Err(RunError::Uninitialized(n)) => assert_eq!(n, "y"),
        other => panic!("unexpected {:?}", other),
    }
}

#[test]
fn reading_unbound_name_fails() {
    let (r, _, _) = run(vec![Stmt::ExprStmt(var("z"))]);
    match r {
        Err(RunError::UnknownVariable(n)) => assert_eq!(n, "z"),
        other => panic!("unexpected {:?}", other),
    }
}

#[test]
fn comparing_int_with_string_is_type_mismatch() {
    let (r, _, _) = run(vec![Stmt::ExprStmt(bin(Op::Eq, num(1), text("1")))]);
    assert!(matches!(r, Err(RunError::TypeMismatch)));
}

#[test]
fn adding_strings_is_unsupported() {
    let (r, _, _) = run(vec![Stmt::ExprStmt(bin(Op::Add, text("a"), text("b")))]);
    assert!(matches!(r, Err(RunError::Unsupported)));
}

#[test]
fn endless_loop_runs_out_of_fuel() {
    let (r, _, _) = run(vec![Stmt::WhileStmt(While {
        cond: S::Atom(Atom::Bool(true)),
        loop_block: block(vec![]),
    })]);
    assert!(matches!(r, Err(RunError::OutOfFuel)));
}

#[test]
fn break_ends_loop_with_no_result() {
    let (r, state, _) = run(vec![
        dec("x", num(0), true, None),
        Stmt::WhileStmt(While {
            cond: S::Atom(Atom::Bool(true)),
            loop_block: block(vec![
                dec("x", num(1), false, Some(true)),
                Stmt::IfStmt(If {
                    cond: bin(Op::Eq, var("x"), num(5)),
                    then_block: block(vec![Stmt::Break]),
                    else_block: block(vec![]),
                }),
                Stmt::ExprStmt(var("x")),
            ]),
        }),
    ]);
    assert!(matches!(r, Ok(None)));
    assert_eq!(state.get_variable("x"), Some(&Atom::Int(5)));
}

#[test]
fn break_leaves_only_inner_loop() {
    // for i in 0..5 { for j in 0..5 { if j == 2 { break } ; n += 1 } }
    let inner = Stmt::WhileStmt(While {
        cond: bin(Op::Lt, var("j"), num(5)),
        loop_block: block(vec![
            Stmt::IfStmt(If {
                cond: bin(Op::Eq, var("j"), num(2)),
                then_block: block(vec![Stmt::Break]),
                else_block: block(vec![]),
            }),
            dec("n", num(1), false, Some(true)),
            dec("j", num(1), false, Some(true)),
        ]),
    });
    let (r, state, _) = run(vec![
        dec("i", num(0), true, None),
        dec("n", num(0), true, None),
        Stmt::WhileStmt(While {
            cond: bin(Op::Lt, var("i"), num(5)),
            loop_block: block(vec![
                dec("j", num(0), true, None),
                inner,
                dec("i", num(1), false, Some(true)),
            ]),
        }),
    ]);
    assert!(matches!(r, Ok(None)));
    assert_eq!(state.get_variable("n"), Some(&Atom::Int(10)));
    assert_eq!(state.get_variable("i"), Some(&Atom::Int(5)));
}

#[test]
fn loop_never_entered_has_no_result() {
    let (r, _, _) = run(vec![Stmt::WhileStmt(While {
        cond: S::Atom(Atom::Bool(false)),
        loop_block: block(vec![Stmt::Break]),
    })]);
    assert!(matches!(r, Ok(None)));
}

#[test]
fn loop_result_is_last_body_result() {
    let (r, _, _) = run(vec![
        dec("x", num(0), true, None),
        Stmt::WhileStmt(While {
            cond: bin(Op::Lt, var("x"), num(4)),
            loop_block: block(vec![dec("x", num(1), false, Some(true)), Stmt::ExprStmt(var("x"))]),
        }),
    ]);
    assert_eq!(r.unwrap(), Some(Atom::Int(4)));
}

#[test]
fn break_outside_loop_is_the_result() {
    let (r, _, _) = run(vec![Stmt::Break, Stmt::ExprStmt(num(1))]);
    assert_eq!(r.unwrap(), Some(Atom::Break));
}

#[test]
fn print_appends_values() {
    let (r, _, out) = run(vec![
        Stmt::PrintStmt(num(4)),
        Stmt::PrintStmt(bin(Op::Sub, num(4), num(6))),
        Stmt::PrintStmt(bin(Op::Ge, num(4), num(6))),
    ]);
    assert!(matches!(r, Ok(None)));
    assert_eq!(out, vec![Atom::Int(4), Atom::Int(-2), Atom::Bool(false)]);
}

#[test]
fn comparisons() {
    let cases = vec![
        (Op::Lt, 1, 2, true),
        (Op::Le, 2, 2, true),
        (Op::Gt, 1, 2, false),
        (Op::Ge, 3, 2, true),
        (Op::Ne, 3, 2, true),
        (Op::Eq, 3, 2, false),
    ];
    for (op, a, b, want) in cases {
        let (r, _, _) = run(vec![Stmt::ExprStmt(bin(op, num(a), num(b)))]);
        assert_eq!(r.unwrap(), Some(Atom::Bool(want)));
    }
}

#[test]
fn modify_variable_targets_innermost_owner() {
    let mut state = State::new();
    state.scopes[0].insert("x".to_string(), Atom::Int(1));
    let mut inner = Scope::new();
    inner.insert("x".to_string(), Atom::Int(2));
    state.scopes.push(inner);
    state.scopes.push(Scope::new());
    state.modify_variable("x", Atom::Int(9));
    assert_eq!(state.scopes[0].get(&"x".to_string()), Some(&Atom::Int(1)));
    assert_eq!(state.scopes[1].get(&"x".to_string()), Some(&Atom::Int(9)));
    assert_eq!(state.scopes[2].vars.len(), 0);
    state.modify_variable("nobody", Atom::Int(3));
    assert_eq!(state.get_variable("nobody"), None);
}

#[test]
fn declare_directly() {
    let mut state = State::new();
    let d = Declaration { lhs: "a".to_string(), rhs: num(3), alias: true, plus_or_minus: None };
    assert!(state.declare(&d).is_ok());
    let d2 = Declaration { lhs: "a".to_string(), rhs: num(4), alias: false, plus_or_minus: Some(true) };
    assert!(state.declare(&d2).is_ok());
    assert_eq!(state.get_variable("a"), Some(&Atom::Int(7)));
}

#[test]
fn function_payloads_never_compare_equal() {
    let c = FunctionCall { name: "f".to_string(), args: vec![] };
    let d = FunctionCall { name: "f".to_string(), args: vec![] };
    assert!(c != d);
    assert!(!c.eq(&c));
    let f = FunctionData { arg_names: vec!["a".to_string()], fn_block: block(vec![]) };
    assert!(!f.eq(&f));
    assert!(Atom::Function(f) != Atom::Function(FunctionData { arg_names: vec![], fn_block: block(vec![]) }));
}

#[test]
fn shadowing_block_leaves_outer_binding() {
    let (r, state, _) = run(vec![
        dec("x", num(1), true, None),
        dec("y", num(0), true, None),
        Stmt::Block(block(vec![
            dec("x", text("inner"), true, None),
            Stmt::Block(block(vec![dec("x", num(7), true, None), dec("y", num(3), false, None)])),
            dec("y", num(1), false, Some(true)),
        ])),
    ]);
    assert!(matches!(r, Ok(None)));
    assert_eq!(state.get_variable("x"), Some(&Atom::Int(1)));
    assert_eq!(state.get_variable("y"), Some(&Atom::Int(4)));
    assert_eq!(state.scopes.len(), 1);
}

#[test]
fn default_state_has_one_empty_frame() {
    let state = State::default();
    assert_eq!(state.scopes.len(), 1);
    assert!(state.scopes[0].vars.is_empty());
    assert!(state.is_well_formed());
}

#[test]
fn duplicate_binding_is_not_well_formed() {
    let mut state = State::new();
    state.scopes[0].vars.push(("a".to_string(), Atom::Int(1)));
    state.scopes[0].vars.push(("a".to_string(), Atom::Int(2)));
    assert!(!state.is_well_formed());
    assert!(!State { scopes: vec![] }.is_well_formed());
}
