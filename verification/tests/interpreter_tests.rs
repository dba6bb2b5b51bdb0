use aether_vm::bytecode::{Chunk, OpCode, Span};
use aether_vm::interpreter::{resume, run_steps, step, Frame, VmAction, VmState};
use aether_vm::strmap::StrMap;
use aether_vm::compiler::CompiledFunction;
use aether_vm::value::Value;

fn sp() -> Span {
    Span { line: 1, col: 1 }
}

fn machine(chunk: Chunk) -> VmState {
    VmState {
        name: "main".to_string(),
        chunk,
        ip: 0,
        stack: Vec::new(),
        stack_offset: 0,
        frames: Vec::new(),
        globals: StrMap::new(),
    }
}

fn konst(c: &mut Chunk, v: Value) {
    let i = c.add_constant(v);
    c.write_op(OpCode::Constant, sp());
    c.write_u16(i as u16, sp());
}

fn done_int(a: &VmAction) -> i64 {
    match a {
        VmAction::Done(Value::Int(x)) => *x,
        _ => panic!("expected the run to end with an integer"),
    }
}

fn int_at(vm: &VmState, i: usize) -> i64 {
    match &vm.stack[i] {
        Value::Int(x) => *x,
        _ => panic!("expected an integer"),
    }
}

#[test]
fn vm_adds_and_defines_a_global() {
    let mut c = Chunk::new();
    konst(&mut c, Value::Int(2));
    konst(&mut c, Value::Int(3));
    c.write_op(OpCode::Add, sp());
    let name = c.add_constant(Value::String("x".to_string()));
    c.write_op(OpCode::DefineGlobal, sp());
    c.write_u16(name as u16, sp());
    let mut vm = machine(c);
    assert!(matches!(run_steps(&mut vm, 100), VmAction::Done(Value::Nil)));
    assert!(vm.stack.is_empty());
    match vm.globals.get(&"x".to_string()) {
        Some(Value::Int(5)) => {}
        _ => panic!("x should be 5"),
    }
}

#[test]
fn vm_undefined_global_fails() {
    let mut c = Chunk::new();
    let name = c.add_constant(Value::String("y".to_string()));
    c.write_op(OpCode::GetGlobal, sp());
    c.write_u16(name as u16, sp());
    let mut vm = machine(c);
    match step(&mut vm) {
        VmAction::Fail(m) => assert_eq!(m, "Undefined variable 'y'"),
        _ => panic!("expected a failure"),
    }
}

#[test]
fn vm_overflow_and_floats_are_delegated() {
    let mut c = Chunk::new();
    konst(&mut c, Value::Int(i64::MAX));
    konst(&mut c, Value::Int(1));
    c.write_op(OpCode::Add, sp());
    let mut vm = machine(c);
    step(&mut vm);
    step(&mut vm);
    assert!(matches!(step(&mut vm), VmAction::Delegate(OpCode::Add)));
    assert_eq!(vm.ip, 6);
    assert_eq!(vm.stack.len(), 2);
    resume(&mut vm, 2, Value::Int(i64::MIN), 1);
    assert_eq!(vm.ip, 7);
    assert_eq!(int_at(&vm, 0), i64::MIN);
    assert_eq!(done_int(&step(&mut vm)), i64::MIN);
    assert!(vm.stack.is_empty());
}

#[test]
fn vm_comparisons_and_not() {
    let mut c = Chunk::new();
    konst(&mut c, Value::String("apple".to_string()));
    konst(&mut c, Value::String("pear".to_string()));
    c.write_op(OpCode::Less, sp());
    c.write_op(OpCode::Not, sp());
    let mut vm = machine(c);
    assert!(matches!(run_steps(&mut vm, 10), VmAction::Done(Value::Bool(false))));
}

#[test]
fn vm_jump_if_false_and_loop() {
    // x = 3; while x != 0 { x = x - 1 }  using locals on the stack
    let mut c = Chunk::new();
    konst(&mut c, Value::Int(3)); // slot 0; ip 0..3
    let top = c.code.len(); // 3
    c.write_op(OpCode::GetLocal, sp());
    c.write_u16(0, sp()); // 3..6
    konst(&mut c, Value::Int(0)); // 6..9
    c.write_op(OpCode::NotEqual, sp()); // 9
    c.write_op(OpCode::JumpIfFalse, sp());
    c.write_u16(15, sp()); // 10..13, after = 13, target 28
    c.write_op(OpCode::Pop, sp()); // 13
    c.write_op(OpCode::GetLocal, sp());
    c.write_u16(0, sp()); // 14..17
    konst(&mut c, Value::Int(1)); // 17..20
    c.write_op(OpCode::Sub, sp()); // 20
    c.write_op(OpCode::SetLocal, sp());
    c.write_u16(0, sp()); // 21..24
    c.write_op(OpCode::Pop, sp()); // 24
    c.write_op(OpCode::Loop, sp());
    let back = (c.code.len() + 2 - top) as u16;
    c.write_u16(back, sp()); // 25..28
    c.write_op(OpCode::Pop, sp()); // 28
    let mut vm = machine(c);
    assert_eq!(done_int(&run_steps(&mut vm, 1000)), 0);
    assert!(vm.stack.is_empty());
}

#[test]
fn vm_local_out_of_bounds_message() {
    let mut c = Chunk::new();
    c.write_op(OpCode::GetLocal, sp());
    c.write_u16(2, sp());
    let mut vm = machine(c);
    match step(&mut vm) {
        VmAction::Fail(m) => assert_eq!(
            m,
            "GetLocal out of bounds in 'main': slot=2, stack_offset=0, idx=2, stack_len=0"
        ),
        _ => panic!("expected a failure"),
    }
}

#[test]
fn vm_invalid_byte_fails() {
    let mut c = Chunk::new();
    c.write_byte(200, sp());
    let mut vm = machine(c);
    match step(&mut vm) {
        VmAction::Fail(m) => assert_eq!(m, "Invalid instruction byte 200"),
        _ => panic!("expected a failure"),
    }
}

#[test]
fn vm_calls_are_delegated() {
    let mut c = Chunk::new();
    c.write_op(OpCode::Call, sp());
    c.write_byte(0, sp());
    let mut vm = machine(c);
    assert!(matches!(step(&mut vm), VmAction::Delegate(OpCode::Call)));
    assert_eq!(vm.ip, 0);
}

#[test]
fn vm_builds_and_unpacks_sequences() {
    let mut c = Chunk::new();
    konst(&mut c, Value::Int(1));
    konst(&mut c, Value::Int(2));
    c.write_op(OpCode::BuildTuple, sp());
    c.write_u16(2, sp());
    c.write_op(OpCode::UnpackSequence, sp());
    c.write_u16(2, sp());
    let mut vm = machine(c);
    assert_eq!(done_int(&run_steps(&mut vm, 10)), 1);
    assert_eq!(vm.stack.len(), 1);
    assert_eq!(int_at(&vm, 0), 2);
}

#[test]
fn vm_unpack_count_mismatch() {
    let mut c = Chunk::new();
    konst(&mut c, Value::Int(1));
    c.write_op(OpCode::BuildArray, sp());
    c.write_u16(1, sp());
    c.write_op(OpCode::UnpackSequence, sp());
    c.write_u16(3, sp());
    let mut vm = machine(c);
    match run_steps(&mut vm, 10) {
        VmAction::Fail(m) => assert_eq!(m, "Not enough values to unpack (expected 3, got 1)"),
        _ => panic!("expected a failure"),
    }
}

fn index_run(target: Value, idx: i64) -> (VmAction, VmState) {
    let mut c = Chunk::new();
    konst(&mut c, target);
    konst(&mut c, Value::Int(idx));
    c.write_op(OpCode::IndexGet, sp());
    let mut vm = machine(c);
    let a = run_steps(&mut vm, 10);
    (a, vm)
}

#[test]
fn vm_indexes_lists_tuples_and_sets() {
    let list = Value::Array(vec![Value::Int(10), Value::Int(20), Value::Int(30)]);
    let (a, vm) = index_run(list.copy(), 1);
    assert_eq!(done_int(&a), 20);
    assert!(vm.stack.is_empty());
    let (a, _) = index_run(list.copy(), -1);
    assert_eq!(done_int(&a), 30);
    let (a, vm) = index_run(list, 3);
    assert!(matches!(a, VmAction::Delegate(OpCode::IndexGet)));
    assert_eq!(vm.stack.len(), 2);
    let tuple = Value::Tuple(vec![Value::Int(1), Value::Int(2)]);
    let (a, _) = index_run(tuple.copy(), -2);
    assert_eq!(done_int(&a), 1);
    match index_run(tuple, -3).0 {
        VmAction::Fail(m) => assert_eq!(m, "Tuple index out of bounds: -3"),
        _ => panic!("expected a failure"),
    }
    match index_run(Value::SetItems(vec![Value::Int(5)]), 4).0 {
        VmAction::Fail(m) => assert_eq!(m, "Set index out of bounds: 4"),
        _ => panic!("expected a failure"),
    }
}

#[test]
fn vm_leaves_other_indexing_to_the_caller() {
    let (a, _) = index_run(Value::String("abc".to_string()), 0);
    assert!(matches!(a, VmAction::Delegate(OpCode::IndexGet)));
}

fn arith_run(x: i64, op: OpCode, y: i64) -> VmAction {
    let mut c = Chunk::new();
    konst(&mut c, Value::Int(x));
    konst(&mut c, Value::Int(y));
    c.write_op(op, sp());
    let mut vm = machine(c);
    run_steps(&mut vm, 10)
}

#[test]
fn vm_integer_division_remainder_and_power() {
    assert_eq!(done_int(&arith_run(7, OpCode::Div, 2)), 3);
    assert_eq!(done_int(&arith_run(-7, OpCode::Div, 2)), -3);
    assert_eq!(done_int(&arith_run(7, OpCode::Div, -2)), -3);
    assert_eq!(done_int(&arith_run(i64::MIN, OpCode::Div, 1)), i64::MIN);
    assert_eq!(done_int(&arith_run(-7, OpCode::Mod, 2)), -1);
    assert_eq!(done_int(&arith_run(7, OpCode::Mod, -2)), 1);
    assert_eq!(done_int(&arith_run(2, OpCode::Pow, 10)), 1024);
    assert_eq!(done_int(&arith_run(-2, OpCode::Pow, 63)), i64::MIN);
    assert_eq!(done_int(&arith_run(-1, OpCode::Pow, 4_000_000_001)), -1);
    assert_eq!(done_int(&arith_run(5, OpCode::Pow, 0)), 1);
    match arith_run(1, OpCode::Mod, 0) {
        VmAction::Fail(m) => assert_eq!(m, "Modulo by zero"),
        _ => panic!("expected a failure"),
    }
    assert!(matches!(arith_run(1, OpCode::Div, 0), VmAction::Delegate(OpCode::Div)));
    assert!(matches!(arith_run(i64::MIN, OpCode::Div, -1), VmAction::Delegate(OpCode::Div)));
    assert!(matches!(arith_run(2, OpCode::Pow, 64), VmAction::Delegate(OpCode::Pow)));
    assert!(matches!(arith_run(2, OpCode::Pow, -1), VmAction::Delegate(OpCode::Pow)));
}

#[test]
fn vm_return_ends_the_run_with_the_value() {
    let mut c = Chunk::new();
    konst(&mut c, Value::Int(10));
    konst(&mut c, Value::Int(3));
    c.write_op(OpCode::Sub, sp());
    c.write_op(OpCode::Return, sp());
    let mut vm = machine(c);
    vm.stack.push(Value::Nil);
    assert_eq!(done_int(&run_steps(&mut vm, 10)), 7);
    assert!(vm.stack.is_empty());
    assert!(vm.frames.is_empty());
}

#[test]
fn vm_return_goes_back_to_the_calling_frame() {
    let mut callee = Chunk::new();
    konst(&mut callee, Value::Int(42));
    callee.write_op(OpCode::Return, sp());
    let mut caller = Chunk::new();
    caller.write_op(OpCode::Nil, sp());
    caller.write_op(OpCode::Pop, sp());
    konst(&mut caller, Value::Int(1));
    caller.write_op(OpCode::Add, sp());
    let mut vm = machine(callee);
    vm.name = "f".to_string();
    vm.stack = vec![Value::Int(5), Value::Nil];
    vm.stack_offset = 1;
    vm.frames.push(Frame { name: "main".to_string(), chunk: caller, ip: 2, stack_offset: 0 });
    assert!(matches!(step(&mut vm), VmAction::Continue));
    assert!(matches!(step(&mut vm), VmAction::Continue));
    assert_eq!(vm.name, "main");
    assert_eq!(vm.ip, 2);
    assert!(vm.frames.is_empty());
    assert_eq!(vm.stack.len(), 2);
    assert_eq!(int_at(&vm, 1), 42);
    assert_eq!(done_int(&run_steps(&mut vm, 10)), 43);
    assert_eq!(vm.stack.len(), 1);
}

#[test]
fn vm_end_of_a_called_frame_goes_back_without_touching_the_stack() {
    let callee = Chunk::new();
    let mut caller = Chunk::new();
    caller.write_op(OpCode::True, sp());
    let mut vm = machine(callee);
    vm.stack = vec![Value::Int(9)];
    vm.frames.push(Frame { name: "main".to_string(), chunk: caller, ip: 0, stack_offset: 0 });
    assert!(matches!(step(&mut vm), VmAction::Continue));
    assert_eq!(vm.stack.len(), 1);
    assert!(matches!(run_steps(&mut vm, 10), VmAction::Done(Value::Bool(true))));
    assert_eq!(int_at(&vm, 0), 9);
}

fn doubler() -> CompiledFunction {
    let mut f = CompiledFunction::new("double", 1);
    f.chunk.write_op(OpCode::GetLocal, sp());
    f.chunk.write_u16(1, sp());
    f.chunk.write_op(OpCode::GetLocal, sp());
    f.chunk.write_u16(1, sp());
    f.chunk.write_op(OpCode::Add, sp());
    f.chunk.write_op(OpCode::Return, sp());
    f
}

fn call_with(args: &[i64]) -> VmState {
    let mut c = Chunk::new();
    konst(&mut c, Value::Function(Box::new(doubler())));
    for a in args {
        konst(&mut c, Value::Int(*a));
    }
    c.write_op(OpCode::Call, sp());
    c.write_byte(args.len() as u8, sp());
    c.write_op(OpCode::Return, sp());
    machine(c)
}

#[test]
fn vm_call_enters_the_function_and_returns_its_value() {
    let mut vm = call_with(&[5]);
    assert!(matches!(step(&mut vm), VmAction::Continue));
    assert!(matches!(step(&mut vm), VmAction::Continue));
    assert!(matches!(step(&mut vm), VmAction::Continue));
    // Inside the function: its locals start at the callee, the caller waits after the operand.
    assert_eq!(vm.name, "double");
    assert_eq!(vm.ip, 0);
    assert_eq!(vm.stack_offset, 0);
    assert_eq!(vm.frames.len(), 1);
    assert_eq!(vm.frames[0].name, "main");
    assert_eq!(vm.frames[0].ip, 8);
    assert_eq!(done_int(&run_steps(&mut vm, 20)), 10);
    assert!(vm.stack.is_empty());
    assert!(vm.frames.is_empty());
}

#[test]
fn vm_call_with_too_few_arguments_fails() {
    let mut vm = call_with(&[]);
    let a = run_steps(&mut vm, 20);
    match a {
        VmAction::Fail(m) => assert_eq!(m, "Function 'double' expects at least 1 arguments but got 0"),
        _ => panic!("expected a failure"),
    }
}

#[test]
fn vm_call_with_too_many_arguments_fails() {
    let mut vm = call_with(&[1, 2]);
    let a = run_steps(&mut vm, 20);
    match a {
        VmAction::Fail(m) => assert_eq!(m, "Function 'double' expects at most 1 arguments but got 2"),
        _ => panic!("expected a failure"),
    }
}

#[test]
fn vm_call_of_a_non_function_is_delegated() {
    let mut c = Chunk::new();
    konst(&mut c, Value::Int(3));
    c.write_op(OpCode::Call, sp());
    c.write_byte(0, sp());
    let mut vm = machine(c);
    assert!(matches!(step(&mut vm), VmAction::Continue));
    assert!(matches!(step(&mut vm), VmAction::Delegate(OpCode::Call)));
    assert_eq!(vm.ip, 3);
}

#[test]
fn vm_build_map_keeps_the_last_value_of_a_key() {
    let mut c = Chunk::new();
    for (k, v) in [("a", 1), ("b", 2), ("a", 3)] {
        konst(&mut c, Value::String(k.to_string()));
        konst(&mut c, Value::Int(v));
    }
    c.write_op(OpCode::BuildMap, sp());
    c.write_u16(3, sp());
    let mut vm = machine(c);
    vm.stack.push(Value::Nil);
    for _ in 0..7 {
        assert!(matches!(step(&mut vm), VmAction::Continue));
    }
    assert_eq!(vm.stack.len(), 2);
    match &vm.stack[1] {
        Value::MapEntries(es) => {
            assert_eq!(es.len(), 2);
            assert_eq!(es[0].0, "a");
            assert!(matches!(es[0].1, Value::Int(3)));
            assert_eq!(es[1].0, "b");
            assert!(matches!(es[1].1, Value::Int(2)));
        }
        _ => panic!("expected a map"),
    }
}

#[test]
fn vm_build_map_with_a_non_text_key_is_delegated() {
    let mut c = Chunk::new();
    konst(&mut c, Value::Int(1));
    konst(&mut c, Value::Int(2));
    c.write_op(OpCode::BuildMap, sp());
    c.write_u16(1, sp());
    let mut vm = machine(c);
    assert!(matches!(step(&mut vm), VmAction::Continue));
    assert!(matches!(step(&mut vm), VmAction::Continue));
    assert!(matches!(step(&mut vm), VmAction::Delegate(OpCode::BuildMap)));
    assert_eq!(vm.stack.len(), 2);
}
