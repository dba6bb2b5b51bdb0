use aether_vm::bytecode::{OpCode, Span};
use aether_vm::compiler::{BytecodeCompiler, CompiledFunction};
use aether_vm::expr_compiler::{AssignOp, BinaryOp, Expr, Literal, Program, Statement, UnaryOp};
use aether_vm::interpreter::{run_steps, VmAction, VmState};
use aether_vm::strmap::StrMap;
use aether_vm::value::Value;

fn done(a: &VmAction) -> &Value {
    match a {
        VmAction::Done(v) => v,
        _ => panic!("expected the run to end"),
    }
}

fn sp() -> Span {
    Span { line: 1, col: 1 }
}

fn lit_int(v: i64) -> Expr {
    Expr::Literal(Literal::Int(v), sp())
}

fn bin(l: Expr, op: BinaryOp, r: Expr) -> Expr {
    Expr::Binary(Box::new(l), op, Box::new(r), sp())
}

fn run(e: &Expr, globals: StrMap<Value>) -> (VmAction, VmState) {
    let mut c = BytecodeCompiler::new("main", 0);
    assert!(c.compile_expression(e).is_ok());
    let mut vm = VmState {
        name: "main".to_string(),
        chunk: c.function.chunk,
        ip: 0,
        stack: Vec::new(),
        stack_offset: 0,
        frames: Vec::new(),
        globals,
    };
    let a = run_steps(&mut vm, 1000);
    (a, vm)
}

#[test]
fn compile_arithmetic_and_run() {
    let e = bin(lit_int(2), BinaryOp::Mul, bin(lit_int(3), BinaryOp::Add, lit_int(4)));
    let (a, vm) = run(&e, StrMap::new());
    assert!(matches!(a, VmAction::Done(_)));
    assert!(matches!(done(&a), Value::Int(14)));
}

#[test]
fn compile_literal_code() {
    let mut c = BytecodeCompiler::new("main", 0);
    c.compile_expression(&Expr::Literal(Literal::Bool(true), sp())).unwrap();
    c.compile_expression(&lit_int(7)).unwrap();
    assert_eq!(c.function.chunk.code, vec![OpCode::True.to_byte(), OpCode::Constant.to_byte(), 0, 0]);
    assert!(matches!(c.function.chunk.constants[0], Value::Int(7)));
}

#[test]
fn compile_and_short_circuits() {
    let undefined = Expr::Ident("nowhere".to_string(), sp());
    let e = bin(Expr::Literal(Literal::Bool(false), sp()), BinaryOp::And, undefined);
    let (a, vm) = run(&e, StrMap::new());
    assert!(matches!(a, VmAction::Done(_)));
    assert!(matches!(done(&a), Value::Bool(false)));
}

#[test]
fn compile_or_takes_right_when_left_false() {
    let e = bin(Expr::Literal(Literal::Nil, sp()), BinaryOp::Or, lit_int(5));
    let (a, vm) = run(&e, StrMap::new());
    assert!(matches!(a, VmAction::Done(_)));
    assert!(vm.stack.is_empty());
    assert!(matches!(done(&a), Value::Int(5)));
}

#[test]
fn compile_global_name_and_not() {
    let mut g = StrMap::new();
    g.insert("flag".to_string(), Value::Bool(true));
    let e = Expr::Unary(UnaryOp::Not, Box::new(Expr::Ident("flag".to_string(), sp())), sp());
    let (a, vm) = run(&e, g);
    assert!(matches!(a, VmAction::Done(_)));
    assert!(matches!(done(&a), Value::Bool(false)));
}

#[test]
fn compile_local_name_uses_slot() {
    let mut c = BytecodeCompiler::new("main", 0);
    c.add_local("x".to_string(), sp()).unwrap();
    c.compile_expression(&Expr::Ident("x".to_string(), sp())).unwrap();
    assert_eq!(c.function.chunk.code, vec![OpCode::GetLocal.to_byte(), 0, 1]);
}

fn run_chunk(c: BytecodeCompiler) -> (VmAction, VmState) {
    let mut vm = VmState {
        name: "<main>".to_string(),
        chunk: c.function.chunk,
        ip: 0,
        stack: Vec::new(),
        stack_offset: 0,
        frames: Vec::new(),
        globals: StrMap::new(),
    };
    let a = run_steps(&mut vm, 1000);
    (a, vm)
}

fn global_int(vm: &VmState, name: &str) -> Option<i64> {
    match vm.globals.get(&name.to_string()) {
        Some(Value::Int(v)) => Some(*v),
        _ => None,
    }
}

#[test]
fn compile_statements_at_top_level() {
    let mut c = BytecodeCompiler::new("<main>", 0);
    let prog = vec![
        Statement::Let { name: "x".to_string(), initializer: Some(bin(lit_int(1), BinaryOp::Add, lit_int(2))), span: sp() },
        Statement::Assign {
            target: "x".to_string(),
            target_span: sp(),
            op: AssignOp::MulAssign,
            value: lit_int(5),
            span: sp(),
        },
        Statement::Expr(Expr::Ident("x".to_string(), sp())),
        Statement::Pass(sp()),
    ];
    assert!(c.compile_block(&prog).is_ok());
    let (a, vm) = run_chunk(c);
    assert!(matches!(a, VmAction::Done(_)));
    assert_eq!(global_int(&vm, "x"), Some(15));
    assert!(vm.stack.is_empty());
}

#[test]
fn compile_let_in_function_scope_is_local() {
    let mut c = BytecodeCompiler::new("f", 1);
    c.begin_scope();
    let st = Statement::Let { name: "y".to_string(), initializer: None, span: sp() };
    c.compile_statement(&st).unwrap();
    assert_eq!(c.function.chunk.code, vec![OpCode::Nil.to_byte()]);
    assert_eq!(c.locals.len(), 2);
    assert_eq!(c.locals[1].name, "y");
}

#[test]
fn compile_global_declaration_and_return() {
    let mut c = BytecodeCompiler::new("f", 0);
    c.compile_statement(&Statement::Global(vec!["g".to_string(), "g".to_string()], sp())).unwrap();
    assert_eq!(c.global_vars, vec!["g".to_string()]);
    c.compile_statement(&Statement::Return { value: None, span: sp() }).unwrap();
    assert_eq!(c.function.chunk.code, vec![OpCode::Nil.to_byte(), OpCode::Return.to_byte()]);
}

#[test]
fn compile_list_literal_and_run() {
    let e = Expr::Array(vec![lit_int(1), bin(lit_int(2), BinaryOp::Add, lit_int(3))], sp());
    let (a, vm) = run(&e, StrMap::new());
    assert!(matches!(a, VmAction::Done(_)));
    match done(&a) {
        Value::Array(items) => {
            assert_eq!(items.len(), 2);
            assert!(matches!(items[1], Value::Int(5)));
        }
        _ => panic!("expected a list"),
    }
}

#[test]
fn compile_index_of_a_tuple_runs() {
    let e = Expr::Index(Box::new(Expr::Tuple(vec![lit_int(7)], sp())), Box::new(lit_int(0)), sp());
    let (a, vm) = run(&e, StrMap::new());
    assert!(matches!(a, VmAction::Done(_)));
    assert!(vm.stack.is_empty());
    assert!(matches!(done(&a), Value::Int(7)));
}

#[test]
fn compile_index_of_a_string_is_left_to_the_caller() {
    let e = Expr::Index(
        Box::new(Expr::Literal(Literal::String("ab".to_string()), sp())),
        Box::new(lit_int(0)),
        sp(),
    );
    let (a, _) = run(&e, StrMap::new());
    assert!(matches!(a, VmAction::Delegate(OpCode::IndexGet)));
}

#[test]
fn compile_program_returns_last_expression() {
    let c = BytecodeCompiler::new("<main>", 0);
    let prog = Program {
        statements: vec![
            Statement::Let { name: "x".to_string(), initializer: Some(lit_int(4)), span: sp() },
            Statement::Expr(bin(Expr::Ident("x".to_string(), sp()), BinaryOp::Mul, lit_int(10))),
        ],
        span: sp(),
    };
    let f = c.compile(&prog).unwrap();
    assert_eq!(f.name, "<main>");
    assert_eq!(*f.chunk.code.last().unwrap(), OpCode::Return.to_byte());
    assert_ne!(f.chunk.code[f.chunk.code.len() - 2], OpCode::Pop.to_byte());
    let mut vm = VmState {
        name: "<main>".to_string(),
        chunk: f.chunk,
        ip: 0,
        stack: Vec::new(),
        stack_offset: 0,
        frames: Vec::new(),
        globals: StrMap::new(),
    };
    let a = run_steps(&mut vm, 1000);
    assert!(matches!(a, VmAction::Done(_)));
    assert!(vm.stack.is_empty());
    assert!(matches!(done(&a), Value::Int(40)));
}

#[test]
fn compile_program_without_final_expression_returns_nil() {
    let c = BytecodeCompiler::new("<main>", 0);
    let prog = Program {
        statements: vec![Statement::Let { name: "y".to_string(), initializer: Some(lit_int(1)), span: sp() }],
        span: sp(),
    };
    let f = c.compile(&prog).unwrap();
    let n = f.chunk.code.len();
    assert_eq!(f.chunk.code[n - 2..].to_vec(), vec![OpCode::Nil.to_byte(), OpCode::Return.to_byte()]);
}

#[test]
fn compile_empty_program_returns_nil() {
    let c = BytecodeCompiler::new("<main>", 0);
    let f = c.compile(&Program { statements: Vec::new(), span: sp() }).unwrap();
    assert_eq!(f.chunk.code, vec![OpCode::Nil.to_byte(), OpCode::Return.to_byte()]);
}

#[test]
fn compile_negation_and_comparison_run() {
    let e = bin(
        Expr::Unary(UnaryOp::Negate, Box::new(bin(lit_int(3), BinaryOp::Sub, lit_int(10))), sp()),
        BinaryOp::Equal,
        lit_int(7),
    );
    let (a, vm) = run(&e, StrMap::new());
    assert!(matches!(a, VmAction::Done(_)));
    assert!(vm.stack.is_empty());
    assert!(matches!(done(&a), Value::Bool(true)));
}

#[test]
fn compile_keeps_name_and_arity() {
    let c = BytecodeCompiler::new("f", 2);
    let f = c.compile(&Program { statements: vec![Statement::Pass(sp())], span: sp() }).unwrap();
    assert_eq!(f.name, "f");
    assert_eq!(f.arity, 2);
    assert_eq!(f.chunk.code.len(), f.chunk.spans.len());
}

#[test]
fn compile_while_loop_and_run() {
    let c = BytecodeCompiler::new("<main>", 0);
    let x = || Expr::Ident("x".to_string(), sp());
    let prog = Program {
        statements: vec![
            Statement::Let { name: "x".to_string(), initializer: Some(lit_int(3)), span: sp() },
            Statement::Let { name: "n".to_string(), initializer: Some(lit_int(0)), span: sp() },
            Statement::While {
                condition: bin(x(), BinaryOp::Greater, lit_int(0)),
                body: vec![
                    Statement::Assign {
                        target: "x".to_string(),
                        target_span: sp(),
                        op: AssignOp::SubAssign,
                        value: lit_int(1),
                        span: sp(),
                    },
                    Statement::Assign {
                        target: "n".to_string(),
                        target_span: sp(),
                        op: AssignOp::AddAssign,
                        value: lit_int(10),
                        span: sp(),
                    },
                ],
                span: sp(),
            },
        ],
        span: sp(),
    };
    let f = c.compile(&prog).unwrap();
    let mut vm = VmState {
        name: "<main>".to_string(),
        chunk: f.chunk,
        ip: 0,
        stack: Vec::new(),
        stack_offset: 0,
        frames: Vec::new(),
        globals: StrMap::new(),
    };
    let a = run_steps(&mut vm, 10_000);
    assert!(matches!(a, VmAction::Done(Value::Nil)));
    assert_eq!(global_int(&vm, "x"), Some(0));
    assert_eq!(global_int(&vm, "n"), Some(30));
}

#[test]
fn compile_while_drops_its_locals() {
    let mut c = BytecodeCompiler::new("f", 0);
    c.begin_scope();
    let st = Statement::While {
        condition: Expr::Literal(Literal::Bool(false), sp()),
        body: vec![Statement::Let { name: "t".to_string(), initializer: None, span: sp() }],
        span: sp(),
    };
    c.compile_statement(&st).unwrap();
    assert_eq!(c.scope_depth, 1);
    assert_eq!(c.locals.len(), 1);
    assert_eq!(
        c.function.chunk.code,
        vec![
            OpCode::False.to_byte(),
            OpCode::JumpIfFalse.to_byte(),
            0,
            6,
            OpCode::Pop.to_byte(),
            OpCode::Nil.to_byte(),
            OpCode::Pop.to_byte(),
            OpCode::Loop.to_byte(),
            0,
            10,
            OpCode::Pop.to_byte(),
        ]
    );
}

fn assign(target: &str, op: AssignOp, value: Expr) -> Statement {
    Statement::Assign { target: target.to_string(), target_span: sp(), op, value, span: sp() }
}

fn run_program(statements: Vec<Statement>) -> (VmAction, VmState) {
    let c = BytecodeCompiler::new("<main>", 0);
    let f = c.compile(&Program { statements, span: sp() }).unwrap();
    let mut vm = VmState {
        name: "<main>".to_string(),
        chunk: f.chunk,
        ip: 0,
        stack: Vec::new(),
        stack_offset: 0,
        frames: Vec::new(),
        globals: StrMap::new(),
    };
    let a = run_steps(&mut vm, 100_000);
    (a, vm)
}

#[test]
fn compile_break_leaves_the_loop() {
    let i = || Expr::Ident("i".to_string(), sp());
    let (a, vm) = run_program(vec![
        Statement::Let { name: "i".to_string(), initializer: Some(lit_int(0)), span: sp() },
        Statement::While {
            condition: Expr::Literal(Literal::Bool(true), sp()),
            body: vec![
                assign("i", AssignOp::AddAssign, lit_int(1)),
                Statement::While {
                    condition: bin(i(), BinaryOp::Less, lit_int(5)),
                    body: vec![assign("i", AssignOp::AddAssign, lit_int(1))],
                    span: sp(),
                },
                Statement::Break(sp()),
                assign("i", AssignOp::AddAssign, lit_int(100)),
            ],
            span: sp(),
        },
    ]);
    assert!(matches!(a, VmAction::Done(Value::Nil)));
    assert_eq!(global_int(&vm, "i"), Some(5));
}

#[test]
fn compile_continue_skips_the_rest_of_the_body() {
    let i = || Expr::Ident("i".to_string(), sp());
    let (a, vm) = run_program(vec![
        Statement::Let { name: "i".to_string(), initializer: Some(lit_int(0)), span: sp() },
        Statement::Let { name: "n".to_string(), initializer: Some(lit_int(0)), span: sp() },
        Statement::While {
            condition: bin(i(), BinaryOp::Less, lit_int(6)),
            body: vec![
                assign("i", AssignOp::AddAssign, lit_int(1)),
                assign("n", AssignOp::AddAssign, lit_int(1)),
                Statement::Continue(sp()),
                assign("n", AssignOp::AddAssign, lit_int(100)),
            ],
            span: sp(),
        },
    ]);
    assert!(matches!(a, VmAction::Done(Value::Nil)));
    assert_eq!(global_int(&vm, "i"), Some(6));
    assert_eq!(global_int(&vm, "n"), Some(6));
}

#[test]
fn break_and_continue_outside_a_loop_are_refused() {
    let c = BytecodeCompiler::new("<main>", 0);
    let prog = Program { statements: vec![Statement::Pass(sp()), Statement::Break(sp())], span: sp() };
    assert_eq!(c.compile(&prog).err(), Some("Cannot use 'break' outside of a loop".to_string()));
    let mut c2 = BytecodeCompiler::new("f", 0);
    assert_eq!(
        c2.compile_statement(&Statement::Continue(sp())).err(),
        Some("Cannot use 'continue' outside of a loop".to_string())
    );
}

#[test]
fn break_pops_the_loop_locals() {
    let mut c = BytecodeCompiler::new("f", 0);
    c.begin_scope();
    let st = Statement::While {
        condition: Expr::Literal(Literal::Bool(true), sp()),
        body: vec![
            Statement::Let { name: "t".to_string(), initializer: None, span: sp() },
            Statement::Break(sp()),
        ],
        span: sp(),
    };
    c.compile_statement(&st).unwrap();
    assert_eq!(
        c.function.chunk.code,
        vec![
            OpCode::True.to_byte(),
            OpCode::JumpIfFalse.to_byte(),
            0,
            10,
            OpCode::Pop.to_byte(),
            OpCode::Nil.to_byte(),
            OpCode::Pop.to_byte(),
            OpCode::Jump.to_byte(),
            0,
            5,
            OpCode::Pop.to_byte(),
            OpCode::Loop.to_byte(),
            0,
            14,
            OpCode::Pop.to_byte(),
        ]
    );
}

#[test]
fn compile_for_loop_over_a_list() {
    let mut c = BytecodeCompiler::new("f", 0);
    c.begin_scope();
    let st = Statement::For {
        item: "x".to_string(),
        iter: Expr::Literal(Literal::Bool(false), sp()),
        body: vec![Statement::Pass(sp())],
        span: sp(),
    };
    c.compile_statement(&st).unwrap();
    assert_eq!(c.scope_depth, 1);
    assert_eq!(c.locals.len(), 1);
    let get_local = OpCode::GetLocal.to_byte();
    assert_eq!(
        c.function.chunk.code,
        vec![
            OpCode::False.to_byte(),
            OpCode::Constant.to_byte(), 0, 0,
            OpCode::Nil.to_byte(),
            get_local, 0, 2,
            OpCode::GetGlobal.to_byte(), 0, 1,
            get_local, 0, 1,
            OpCode::Call.to_byte(), 1,
            OpCode::Less.to_byte(),
            OpCode::JumpIfFalse.to_byte(), 0, 26,
            OpCode::Pop.to_byte(),
            get_local, 0, 1,
            get_local, 0, 2,
            OpCode::IndexGet.to_byte(),
            OpCode::SetLocal.to_byte(), 0, 3,
            OpCode::Pop.to_byte(),
            get_local, 0, 2,
            OpCode::Constant.to_byte(), 0, 2,
            OpCode::Add.to_byte(),
            OpCode::SetLocal.to_byte(), 0, 2,
            OpCode::Pop.to_byte(),
            OpCode::Loop.to_byte(), 0, 41,
            OpCode::Pop.to_byte(),
            OpCode::Pop.to_byte(),
            OpCode::Pop.to_byte(),
            OpCode::Pop.to_byte(),
        ]
    );
    assert!(matches!(c.function.chunk.constants[0], Value::Int(0)));
    assert!(matches!(&c.function.chunk.constants[1], Value::String(s) if s == "len"));
    assert!(matches!(c.function.chunk.constants[2], Value::Int(1)));
}

#[test]
fn break_in_a_for_loop_jumps_past_it() {
    let mut c = BytecodeCompiler::new("f", 0);
    c.begin_scope();
    let st = Statement::For {
        item: "x".to_string(),
        iter: Expr::Literal(Literal::Bool(false), sp()),
        body: vec![Statement::Break(sp())],
        span: sp(),
    };
    c.compile_statement(&st).unwrap();
    let code = &c.function.chunk.code;
    // The break sits right after the element is stored: it pops nothing (the body made no
    // local) and jumps to the end of the loop, where its three locals are popped.
    assert_eq!(code[32], OpCode::Jump.to_byte());
    let target = 35 + ((code[33] as usize) << 8 | code[34] as usize);
    assert_eq!(target, code.len() - 3);
    assert!(code[target..].iter().all(|b| *b == OpCode::Pop.to_byte()));
}

#[test]
fn compiled_call_runs_the_function() {
    let mut double = CompiledFunction::new("double", 1);
    double.chunk.write_op(OpCode::GetLocal, sp());
    double.chunk.write_u16(1, sp());
    double.chunk.write_op(OpCode::GetLocal, sp());
    double.chunk.write_u16(1, sp());
    double.chunk.write_op(OpCode::Add, sp());
    double.chunk.write_op(OpCode::Return, sp());
    let c = BytecodeCompiler::new("<main>", 0);
    let prog = Program {
        statements: vec![Statement::Let {
            name: "r".to_string(),
            initializer: Some(Expr::Call(
                Box::new(Expr::Ident("double".to_string(), sp())),
                vec![lit_int(21)],
                sp(),
            )),
            span: sp(),
        }],
        span: sp(),
    };
    let f = c.compile(&prog).unwrap();
    // The callee, the argument, then the call with its argument count.
    assert_eq!(f.chunk.code[0], OpCode::GetGlobal.to_byte());
    assert_eq!(f.chunk.code[3], OpCode::Constant.to_byte());
    assert_eq!(&f.chunk.code[6..8], &[OpCode::Call.to_byte(), 1]);
    let mut globals = StrMap::new();
    globals.insert("double".to_string(), Value::Function(Box::new(double)));
    let mut vm = VmState {
        name: "<main>".to_string(),
        chunk: f.chunk,
        ip: 0,
        stack: Vec::new(),
        stack_offset: 0,
        frames: Vec::new(),
        globals,
    };
    let a = run_steps(&mut vm, 100);
    assert!(matches!(a, VmAction::Done(Value::Nil)));
    assert_eq!(global_int(&vm, "r"), Some(42));
    assert!(vm.frames.is_empty());
}
