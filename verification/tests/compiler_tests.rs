use aether_vm::bytecode::{Chunk, OpCode, Span, OPCODE_COUNT};
use aether_vm::compiler::{BytecodeCompiler, CompiledFunction, Local};
use aether_vm::value::Value;

fn sp() -> Span {
    Span { line: 3, col: 7 }
}

#[test]
fn opcodes_encode_by_position() {
    assert_eq!(OpCode::Constant.to_byte(), 0);
    assert_eq!(OpCode::Return.to_byte(), 30);
    assert_eq!(OpCode::MapInsert.to_byte(), 53);
    assert_eq!(OPCODE_COUNT, 54);
    for b in 0..OPCODE_COUNT {
        assert_eq!(OpCode::from_byte(b).to_byte(), b);
    }
    assert!(OpCode::from_byte(27) == OpCode::Loop);
}

#[test]
fn chunk_writes_bytes_with_spans() {
    let mut c = Chunk::new();
    c.write_op(OpCode::Nil, sp());
    c.write_u16(0x1234, sp());
    c.write_byte(9, Span { line: 4, col: 1 });
    assert_eq!(c.code, vec![1, 0x12, 0x34, 9]);
    assert_eq!(c.spans.len(), 4);
    assert_eq!(c.spans[3], Span { line: 4, col: 1 });
    assert_eq!(c.read_u16(1), 0x1234);
}

#[test]
fn constants_are_indexed_in_order() {
    let mut c = Chunk::new();
    assert_eq!(c.add_constant(Value::Int(5)), 0);
    assert_eq!(c.add_constant(Value::Nil), 1);
    assert_eq!(c.constants.len(), 2);
}

#[test]
fn compiled_function_starts_empty() {
    let f = CompiledFunction::new("main", 2);
    assert_eq!(f.name, "main");
    assert_eq!(f.arity, 2);
    assert!(f.chunk.code.is_empty());
}

#[test]
fn new_compiler_reserves_slot_zero() {
    let c = BytecodeCompiler::new("<main>", 0);
    assert_eq!(c.locals.len(), 1);
    assert_eq!(c.locals[0].name, "");
    assert_eq!(c.scope_depth, 0);
    assert_eq!(c.function.name, "<main>");
}

#[test]
fn jumps_are_patched_to_the_end() {
    let mut c = BytecodeCompiler::new("f", 0);
    let at = c.emit_jump(OpCode::JumpIfFalse, sp());
    assert_eq!(at, 1);
    assert_eq!(c.function.chunk.code, vec![26, 0xFF, 0xFF]);
    c.emit_op(OpCode::Pop, sp());
    c.emit_op(OpCode::Pop, sp());
    c.patch_jump(at);
    assert_eq!(c.function.chunk.read_u16(at), 2);
}

#[test]
fn loops_jump_back_to_their_start() {
    let mut c = BytecodeCompiler::new("f", 0);
    c.emit_op(OpCode::Nil, sp());
    let start = c.function.chunk.code.len();
    c.emit_op(OpCode::Pop, sp());
    c.emit_op(OpCode::Pop, sp());
    c.emit_loop(start, sp());
    let len = c.function.chunk.code.len();
    let back = c.function.chunk.read_u16(len - 2) as usize;
    assert_eq!(len - back, start);
    assert_eq!(c.function.chunk.code[len - 3], OpCode::Loop.to_byte());
}

#[test]
fn scopes_pop_their_locals() {
    let mut c = BytecodeCompiler::new("f", 0);
    c.begin_scope();
    assert!(c.add_local("a".to_string(), sp()).is_ok());
    c.begin_scope();
    assert!(c.add_local("b".to_string(), sp()).is_ok());
    assert!(c.add_local("c".to_string(), sp()).is_ok());
    c.end_scope(sp());
    assert_eq!(c.locals.len(), 2);
    assert_eq!(c.function.chunk.code, vec![4, 4]);
    c.end_scope(sp());
    assert_eq!(c.locals.len(), 1);
    assert_eq!(c.scope_depth, 0);
}

#[test]
fn locals_resolve_innermost_first() {
    let mut c = BytecodeCompiler::new("f", 0);
    c.add_local("x".to_string(), sp()).unwrap();
    c.add_local("y".to_string(), sp()).unwrap();
    c.add_local("x".to_string(), sp()).unwrap();
    assert_eq!(c.resolve_local("x"), Some(3));
    assert_eq!(c.resolve_local("y"), Some(2));
    assert_eq!(c.resolve_local("z"), None);
}

#[test]
fn parent_locals_are_captured_once() {
    let mut c = BytecodeCompiler::new("inner", 0);
    c.parent_locals = Some(vec![
        Local { name: String::new(), depth: 0, is_captured: false },
        Local { name: "outer".to_string(), depth: 0, is_captured: false },
    ]);
    assert_eq!(c.resolve_local("outer"), Some(1));
    assert_eq!(c.captured, vec!["outer".to_string()]);
    assert!(c.locals[1].is_captured);
    assert_eq!(c.resolve_local("outer"), Some(1));
    assert_eq!(c.captured.len(), 1);
    assert_eq!(c.resolve_local(""), Some(0));
    assert_eq!(c.resolve_local("nope"), None);
}
