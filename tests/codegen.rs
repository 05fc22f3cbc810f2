use slang::{Atom, Block, CompileScope, Declaration, If, Instr, Op, State, Stmt, While, S};

fn num(i: isize) -> S {
    S::Atom(Atom::Int(i))
}

fn var(n: &str) -> S {
    S::Atom(Atom::Identifier(n.to_string()))
}

fn bin(op: Op, l: S, r: S) -> S {
    S::Binary(op, Box::new(l), Box::new(r))
}

fn dec(lhs: &str, rhs: S, alias: bool, plus_or_minus: Option<bool>) -> Stmt {
    Stmt::Dec(Declaration { lhs: lhs.to_string(), rhs, alias, plus_or_minus })
}

fn compile(stmts: &[Stmt]) -> (CompileScope, Vec<Instr>) {
    let mut scope = CompileScope::new();
    let mut out = Vec::new();
    for s in stmts {
        s.compile(&mut scope, &mut out).unwrap();
    }
    (scope, out)
}

fn labels(code: &[Instr]) -> Vec<usize> {
    code.iter()
        .filter_map(|i| match i {
            Instr::Label(l) => Some(*l),
            _ => None,
        })
        .collect()
}

#[test]
fn new_name_takes_next_slot() {
    let (scope, out) = compile(&[dec("a", num(4), true, None), dec("b", var("a"), true, None)]);
    assert_eq!(out, vec![Instr::Blank, Instr::Push(4), Instr::Blank, Instr::Blank, Instr::Load(0), Instr::Blank]);
    assert_eq!(scope.vars[0], vec![("a".to_string(), 0), ("b".to_string(), 1)]);
}

#[test]
fn known_name_is_stored() {
    let (_, out) = compile(&[dec("a", num(4), true, None), dec("a", num(6), false, None)]);
    assert_eq!(&out[3..], &[Instr::Blank, Instr::Push(6), Instr::Store(0), Instr::Pop, Instr::Blank]);
}

#[test]
fn alias_of_known_name_reuses_slot() {
    let (scope, out) = compile(&[dec("a", num(4), true, None), dec("a", num(6), true, Some(true))]);
    assert_eq!(&out[3..], &[Instr::Blank, Instr::Push(6), Instr::Store(0), Instr::Pop, Instr::Blank]);
    assert_eq!(scope.vars[0].len(), 1);
}

#[test]
fn compound_assignment_loads_first() {
    let (_, out) = compile(&[
        dec("a", num(1), true, None),
        dec("b", num(2), true, None),
        dec("b", num(3), false, Some(false)),
    ]);
    assert_eq!(
        &out[6..],
        &[Instr::Blank, Instr::Load(1), Instr::Push(3), Instr::Sub, Instr::Store(1), Instr::Pop, Instr::Blank]
    );
}

#[test]
fn print_emits_value_and_newline() {
    let (_, out) = compile(&[Stmt::PrintStmt(bin(Op::Add, num(1), num(2)))]);
    assert_eq!(
        out,
        vec![
            Instr::Blank,
            Instr::Push(1),
            Instr::Push(2),
            Instr::Add,
            Instr::Print,
            Instr::Push(10),
            Instr::PrintC,
            Instr::Pop,
            Instr::Pop,
            Instr::Blank
        ]
    );
}

#[test]
fn if_takes_two_labels() {
    let (scope, out) = compile(&[Stmt::IfStmt(If {
        cond: S::Atom(Atom::Bool(true)),
        then_block: Block { statements: vec![Stmt::ExprStmt(num(1))] },
        else_block: Block { statements: vec![Stmt::ExprStmt(num(2))] },
    })]);
    assert_eq!(scope.label_count, 2);
    assert_eq!(
        out,
        vec![
            Instr::Blank,
            Instr::Push(1),
            Instr::JumpIfFalse(0),
            Instr::Pop,
            Instr::Blank,
            Instr::Push(1),
            Instr::Blank,
            Instr::Jump(1),
            Instr::Label(0),
            Instr::Blank,
            Instr::Push(2),
            Instr::Blank,
            Instr::Label(1),
            Instr::Blank
        ]
    );
}

#[test]
fn while_with_break_jumps_to_end() {
    let (scope, out) = compile(&[Stmt::WhileStmt(While {
        cond: bin(Op::Lt, num(0), num(1)),
        loop_block: Block { statements: vec![Stmt::Break] },
    })]);
    assert_eq!(scope.label_count, 2);
    assert_eq!(scope.loop_end, None);
    assert_eq!(
        out,
        vec![
            Instr::Blank,
            Instr::Label(0),
            Instr::Push(0),
            Instr::Push(1),
            Instr::Lt,
            Instr::JumpIfFalse(1),
            Instr::Blank,
            Instr::Jump(1),
            Instr::Blank,
            Instr::Jump(0),
            Instr::Label(1),
            Instr::Blank
        ]
    );
}

#[test]
fn break_outside_loop_emits_nothing() {
    let (_, out) = compile(&[Stmt::Break]);
    assert_eq!(out, vec![Instr::Blank, Instr::Blank]);
}

#[test]
fn identifier_offset_counts_outer_frames() {
    let mut scope = CompileScope::new();
    scope.vars[0] = vec![("a".to_string(), 0), ("b".to_string(), 1)];
    scope.vars.push(vec![("c".to_string(), 0), ("a".to_string(), 1)]);
    let mut out = Vec::new();
    var("a").compile(&scope, &mut out);
    var("b").compile(&scope, &mut out);
    var("c").compile(&scope, &mut out);
    var("zz").compile(&scope, &mut out);
    assert_eq!(out, vec![Instr::Load(3), Instr::Load(1), Instr::Load(2)]);
}

#[test]
fn same_tree_through_both_paths() {
    let program = vec![
        dec("x", num(0), true, None),
        dec("s", num(0), true, None),
        Stmt::WhileStmt(While {
            cond: bin(Op::Lt, var("x"), num(3)),
            loop_block: Block {
                statements: vec![
                    Stmt::IfStmt(If {
                        cond: bin(Op::Eq, var("x"), num(1)),
                        then_block: Block {
                            statements: vec![Stmt::IfStmt(If {
                                cond: S::Atom(Atom::Bool(true)),
                                then_block: Block { statements: vec![dec("s", num(10), false, Some(true))] },
                                else_block: Block { statements: vec![] },
                            })],
                        },
                        else_block: Block { statements: vec![dec("s", num(1), false, Some(true))] },
                    }),
                    dec("x", num(1), false, Some(true)),
                ],
            },
        }),
    ];
    let (scope, code) = compile(&program);
    let ls = labels(&code);
    assert_eq!(ls.len(), 6);
    let mut sorted = ls.clone();
    sorted.sort();
    sorted.dedup();
    assert_eq!(sorted.len(), ls.len());
    assert!(ls.iter().all(|l| *l < scope.label_count));
    for i in &code {
        if let Instr::Jump(t) | Instr::JumpIfFalse(t) = i {
            assert!(ls.contains(t));
        }
        if let Instr::Load(s) | Instr::Store(s) = i {
            assert!(*s < scope.vars[0].len());
        }
    }

    let mut state = State::new();
    let mut printed = Vec::new();
    let r = Block { statements: program }.run(&mut state, &mut printed, 10_000);
    assert!(r.is_ok());
    assert_eq!(state.get_variable("s"), Some(&Atom::Int(12)));
}

#[test]
fn compile_scope_well_formedness() {
    let mut scope = CompileScope::default();
    assert!(scope.is_well_formed());
    scope.vars[0].push(("a".to_string(), 1));
    assert!(!scope.is_well_formed());
    scope.vars[0][0].1 = 0;
    scope.vars[0].push(("a".to_string(), 1));
    assert!(!scope.is_well_formed());
}
