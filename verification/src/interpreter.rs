//! The bytecode interpreter's core: one instruction at a time, on the instruction pointer, the
//! value stack, the locals of the running frame, the frames that called it, and the globals.
//! Calling a function value with as many arguments as it has parameters pushes a frame;
//! returning pops back to the calling frame, or ends the run with the returned value. An
//! instruction whose effect lies beyond this core (float arithmetic, other calls, exceptions,
//! fibers, channels, modules, printing) is handed back to the caller, with the machine
//! unchanged.
use vstd::prelude::*;
use crate::bytecode::{lemma_op_byte_roundtrip, op_byte, op_of_byte, u16_be, Chunk, OpCode, OPCODE_COUNT};
use crate::rpc::{entry_put, keys_unique, map_of_pairs, put_entry};
use crate::strmap::StrMap;
use crate::strsort::{lex_lt, string_lt};
use crate::text::{decimal, push_decimal, push_str, string_of};
use crate::compiler::CompiledFunction;
use crate::value::{copy_function, entry_models, lemma_entry_models, lemma_models, lemma_models_push, models, FunctionView, Value, ValueView};

verus! {

/// A calling frame, waiting for the frame it called to return.
pub struct Frame {
    pub name: String,
    pub chunk: Chunk,
    /// Where it goes on after the call.
    pub ip: usize,
    pub stack_offset: usize,
}

/// The content of a calling frame.
pub struct FrameView {
    pub name: Seq<char>,
    pub code: Seq<u8>,
    pub constants: Seq<ValueView>,
    pub ip: int,
    pub stack_offset: int,
}

impl View for Frame {
    type V = FrameView;

    open spec fn view(&self) -> FrameView {
        FrameView {
            name: self.name@,
            code: self.chunk.code@,
            constants: models(self.chunk.constants@),
            ip: self.ip as int,
            stack_offset: self.stack_offset as int,
        }
    }
}

pub open spec fn frame_views(fs: Seq<Frame>) -> Seq<FrameView> {
    fs.map_values(|f: Frame| f@)
}

/// Positions in a frame stay far from the end of `usize`.
pub open spec fn frame_fits(ip: usize, code_len: nat, stack_offset: usize) -> bool {
    &&& ip <= code_len + 0x10003
    &&& code_len + 0x20010 <= usize::MAX
    &&& stack_offset + 0x10000 <= usize::MAX
}

/// The running frame and the machine state it works on.
pub struct VmState {
    /// The name of the running function.
    pub name: String,
    pub chunk: Chunk,
    pub ip: usize,
    pub stack: Vec<Value>,
    /// Where the frame's locals start on the stack.
    pub stack_offset: usize,
    /// The frames that called the running one, the innermost last.
    pub frames: Vec<Frame>,
    pub globals: StrMap<Value>,
}

/// The content of a machine state.
pub struct VmView {
    pub name: Seq<char>,
    pub code: Seq<u8>,
    pub constants: Seq<ValueView>,
    pub ip: int,
    pub stack: Seq<ValueView>,
    pub stack_offset: int,
    pub frames: Seq<FrameView>,
    pub globals: Map<Seq<char>, ValueView>,
}

impl View for VmState {
    type V = VmView;

    open spec fn view(&self) -> VmView {
        VmView {
            name: self.name@,
            code: self.chunk.code@,
            constants: models(self.chunk.constants@),
            ip: self.ip as int,
            stack: models(self.stack@),
            stack_offset: self.stack_offset as int,
            frames: frame_views(self.frames@),
            globals: self.globals@,
        }
    }
}

impl VmState {
    /// The globals map is well formed, and positions stay far from the end of `usize` (a jump may
    /// leave the instruction pointer past the end of the code, which ends the frame).
    pub open spec fn wf(&self) -> bool {
        &&& self.globals.wf()
        &&& frame_fits(self.ip, self.chunk.code@.len(), self.stack_offset)
        &&& forall|i: int|
            0 <= i < self.frames@.len() ==> frame_fits(
                #[trigger] self.frames@[i].ip,
                self.frames@[i].chunk.code@.len(),
                self.frames@[i].stack_offset,
            )
    }
}

/// What the caller does after a step.
pub enum VmAction {
    /// Go on stepping.
    Continue,
    /// The run has ended, with this value: the outermost frame returned it or ran to the end
    /// of its code (the value then is the top of the stack, or nil).
    Done(Value),
    /// The program failed with this message.
    Fail(String),
    /// Perform this instruction, which stands at the instruction pointer; the machine is
    /// unchanged.
    Delegate(OpCode),
}

pub enum ActionView {
    Continue,
    Done(ValueView),
    Fail(Seq<char>),
    Delegate(OpCode),
}

impl View for VmAction {
    type V = ActionView;

    open spec fn view(&self) -> ActionView {
        match self {
            VmAction::Continue => ActionView::Continue,
            VmAction::Done(v) => ActionView::Done(v@),
            VmAction::Fail(m) => ActionView::Fail(m@),
            VmAction::Delegate(op) => ActionView::Delegate(*op),
        }
    }
}

/// The 16-bit operand after the instruction at `ip`.
pub open spec fn operand(s: VmView) -> int {
    u16_be(s.code[s.ip + 1], s.code[s.ip + 2]) as int
}

/// The instruction at `ip` has its 16-bit operand.
pub open spec fn has_operand(s: VmView) -> bool {
    s.ip + 2 < s.code.len()
}

/// The machine moved on to `ip` with `stack`.
pub open spec fn moved(s: VmView, ip: int, stack: Seq<ValueView>) -> (VmView, ActionView) {
    (VmView { ip, stack, ..s }, ActionView::Continue)
}

/// The instruction is left to the caller.
pub open spec fn delegated(s: VmView, op: OpCode) -> (VmView, ActionView) {
    (s, ActionView::Delegate(op))
}

/// The result of an integer instruction on two integers, if it fits in an `i64`.
pub open spec fn int_result(op: OpCode, x: i64, y: i64) -> Option<ValueView> {
    match op {
        OpCode::Add => if i64::MIN <= x + y <= i64::MAX { Some(ValueView::Int((x + y) as i64)) } else { None },
        OpCode::Sub => if i64::MIN <= x - y <= i64::MAX { Some(ValueView::Int((x - y) as i64)) } else { None },
        OpCode::Mul => if i64::MIN <= x * y <= i64::MAX { Some(ValueView::Int((x * y) as i64)) } else { None },
        OpCode::Equal => Some(ValueView::Bool(x == y)),
        OpCode::NotEqual => Some(ValueView::Bool(x != y)),
        OpCode::Less => Some(ValueView::Bool(x < y)),
        OpCode::LessEqual => Some(ValueView::Bool(x <= y)),
        OpCode::Greater => Some(ValueView::Bool(x > y)),
        OpCode::GreaterEqual => Some(ValueView::Bool(x >= y)),
        _ => None,
    }
}

/// The result of a comparison of two texts.
pub open spec fn text_result(op: OpCode, a: Seq<char>, b: Seq<char>) -> Option<ValueView> {
    match op {
        OpCode::Equal => Some(ValueView::Bool(a == b)),
        OpCode::NotEqual => Some(ValueView::Bool(a != b)),
        OpCode::Less => Some(ValueView::Bool(lex_lt(a, b))),
        OpCode::LessEqual => Some(ValueView::Bool(!lex_lt(b, a))),
        OpCode::Greater => Some(ValueView::Bool(lex_lt(b, a))),
        OpCode::GreaterEqual => Some(ValueView::Bool(!lex_lt(a, b))),
        _ => None,
    }
}

/// The result of a binary instruction on these operands, where this core computes it: integer
/// arithmetic that fits, integer and text comparisons, and equality of booleans and of nils.
pub open spec fn binary_result(op: OpCode, a: ValueView, b: ValueView) -> Option<ValueView> {
    match (a, b) {
        (ValueView::Int(x), ValueView::Int(y)) => int_result(op, x, y),
        (ValueView::String(x), ValueView::String(y)) => text_result(op, x, y),
        (ValueView::Bool(x), ValueView::Bool(y)) => match op {
            OpCode::Equal => Some(ValueView::Bool(x == y)),
            OpCode::NotEqual => Some(ValueView::Bool(x != y)),
            _ => None,
        },
        (ValueView::Nil, ValueView::Nil) => match op {
            OpCode::Equal => Some(ValueView::Bool(true)),
            OpCode::NotEqual => Some(ValueView::Bool(false)),
            _ => None,
        },
        _ => None,
    }
}

/// The negation of an integer other than `i64::MIN`.
pub open spec fn negated(v: ValueView) -> Option<ValueView> {
    match v {
        ValueView::Int(i) => if i != i64::MIN { Some(ValueView::Int((-i) as i64)) } else { None },
        _ => None,
    }
}

/// Whether a value counts as false where this core decides it: `Some` for booleans and nil.
pub open spec fn known_falsy(v: ValueView) -> Option<bool> {
    match v {
        ValueView::Bool(b) => Some(!b),
        ValueView::Nil => Some(true),
        _ => None,
    }
}

/// The message for a local slot beyond the stack.
pub open spec fn local_error(which: Seq<char>, s: VmView, slot: int) -> Seq<char> {
    which + " out of bounds in '"@ + s.name + "': slot="@ + decimal(slot as nat) + ", stack_offset="@
        + decimal(s.stack_offset as nat) + ", idx="@ + decimal((s.stack_offset + slot) as nat)
        + ", stack_len="@ + decimal(s.stack.len())
}

/// The top of the stack, or nil when it is empty.
pub open spec fn top_or_nil(stack: Seq<ValueView>) -> ValueView {
    if stack.len() > 0 { stack.last() } else { ValueView::Nil }
}

/// The items of a list or tuple value.
pub open spec fn seq_items(v: ValueView) -> Option<Seq<ValueView>> {
    match v {
        ValueView::Array(items) => Some(items),
        ValueView::Tuple(items) => Some(items),
        _ => None,
    }
}

pub open spec fn unpack_error(count: int, got: int) -> Seq<char> {
    if got < count {
        "Not enough values to unpack (expected "@ + decimal(count as nat) + ", got "@ + decimal(got as nat) + ")"@
    } else {
        "Too many values to unpack (expected "@ + decimal(count as nat) + ", got "@ + decimal(got as nat) + ")"@
    }
}

/// The message for a byte that encodes no instruction.
pub open spec fn invalid_byte_message(b: u8) -> Seq<char> {
    "Invalid instruction byte "@ + decimal(b as nat)
}

/// The magnitude of an integer.
pub open spec fn magnitude(x: int) -> nat {
    (if x < 0 { -x } else { x }) as nat
}

/// Integer division rounded toward zero, as Rust's `/` divides.
pub open spec fn trunc_quot(x: int, y: int) -> int {
    let q = magnitude(x) / magnitude(y);
    if (x < 0) == (y < 0) { q as int } else { -q }
}

/// The remainder of division rounded toward zero, with the sign of `x`, as Rust's `%` gives it.
pub open spec fn trunc_rem(x: int, y: int) -> int {
    let r = magnitude(x) % magnitude(y);
    if x < 0 { -r } else { r as int }
}

/// `x` to the power `n`.
pub open spec fn int_pow(x: int, n: nat) -> int
    decreases n,
{
    if n == 0 { 1 } else { x * int_pow(x, (n - 1) as nat) }
}

/// The result of integer division, remainder or power where this core computes it: a division
/// by zero raises an exception and a power with a negative exponent is a float, both left to
/// the caller, as are the quotient and remainder of `i64::MIN` by `-1` and a power beyond
/// `i64`, which overflow. The exponent is taken modulo 2^32, as `as u32` does.
pub open spec fn int_arith(op: OpCode, a: ValueView, b: ValueView) -> Option<Result<ValueView, Seq<char>>> {
    match (a, b) {
        (ValueView::Int(x), ValueView::Int(y)) => match op {
            OpCode::Div => if y != 0 && !(x == i64::MIN && y == -1) {
                Some(Ok(ValueView::Int(trunc_quot(x as int, y as int) as i64)))
            } else {
                None
            },
            OpCode::Mod => if y == 0 {
                Some(Err("Modulo by zero"@))
            } else if x == i64::MIN && y == -1 {
                None
            } else {
                Some(Ok(ValueView::Int(trunc_rem(x as int, y as int) as i64)))
            },
            OpCode::Pow => {
                let p = int_pow(x as int, (y as int % 0x1_0000_0000) as nat);
                if y >= 0 && i64::MIN <= p <= i64::MAX {
                    Some(Ok(ValueView::Int(p as i64)))
                } else {
                    None
                }
            },
            _ => None,
        },
        _ => None,
    }
}

/// The decimal text of an integer, with a minus sign when negative.
pub open spec fn signed_text(i: i64) -> Seq<char> {
    if i < 0 { "-"@ + decimal((-(i as int)) as nat) } else { decimal(i as nat) }
}

/// The position that index `i` names in a sequence of length `len`, counted from the end when
/// negative; `None` when it falls outside.
pub open spec fn index_position(len: int, i: i64) -> Option<int> {
    let p = if i < 0 { len + i } else { i as int };
    if 0 <= p < len { Some(p) } else { None }
}

/// What indexing a list, tuple or set by an integer gives, where this core decides it: the
/// item, or the error for a tuple or set index out of range. `None` for anything else; a list
/// index out of range raises an exception, which the caller handles.
pub open spec fn index_outcome(target: ValueView, idx: ValueView) -> Option<Result<ValueView, Seq<char>>> {
    match (target, idx) {
        (ValueView::Array(items), ValueView::Int(i)) => match index_position(items.len() as int, i) {
            Some(p) => Some(Ok(items[p])),
            None => None,
        },
        (ValueView::Tuple(items), ValueView::Int(i)) => match index_position(items.len() as int, i) {
            Some(p) => Some(Ok(items[p])),
            None => Some(Err("Tuple index out of bounds: "@ + signed_text(i))),
        },
        (ValueView::SetItems(items), ValueView::Int(i)) => match index_position(items.len() as int, i) {
            Some(p) => Some(Ok(items[p])),
            None => Some(Err("Set index out of bounds: "@ + signed_text(i))),
        },
        _ => None,
    }
}

/// Back in the innermost calling frame, with the stack `stack`.
pub open spec fn returned_to(s: VmView, stack: Seq<ValueView>) -> VmView {
    let f = s.frames.last();
    VmView {
        name: f.name,
        code: f.code,
        constants: f.constants,
        ip: f.ip,
        stack,
        stack_offset: f.stack_offset,
        frames: s.frames.drop_last(),
        globals: s.globals,
    }
}

/// The stack without its top (unchanged when empty).
pub open spec fn popped(stack: Seq<ValueView>) -> Seq<ValueView> {
    if stack.len() > 0 { stack.drop_last() } else { stack }
}

/// The stack cut back to `len` entries (unchanged when shorter).
pub open spec fn truncated(stack: Seq<ValueView>, len: int) -> Seq<ValueView> {
    if len < stack.len() { stack.take(len) } else { stack }
}

/// Inside the function `f`, called with its callee at `ci`: the caller waits as a frame that
/// goes on after the call's operand.
pub open spec fn called(s: VmView, f: FunctionView, ci: int) -> VmView {
    VmView {
        name: f.name,
        code: f.code,
        constants: f.constants,
        ip: 0,
        stack: s.stack,
        stack_offset: ci,
        frames: s.frames.push(
            FrameView { name: s.name, code: s.code, constants: s.constants, ip: s.ip + 2, stack_offset: s.stack_offset },
        ),
        globals: s.globals,
    }
}

/// The complaint about calling `f` with `argc` arguments, if it takes fewer or (without a
/// rest parameter) more.
pub open spec fn arity_error(f: FunctionView, argc: int) -> Option<Seq<char>> {
    if argc < f.arity {
        Some(
            "Function '"@ + f.name + "' expects at least "@ + decimal(f.arity as nat) + " arguments but got "@
                + decimal(argc as nat),
        )
    } else if argc > f.max_arity && !f.has_varargs {
        Some(
            "Function '"@ + f.name + "' expects at most "@ + decimal(f.max_arity as nat) + " arguments but got "@
                + decimal(argc as nat),
        )
    } else {
        None
    }
}

/// `Call` with its argument count as operand: a function given exactly as many arguments as it
/// has parameters (no defaults, rest or keyword parameters) is entered; a wrong count fails;
/// any other callee is left to the caller.
pub open spec fn call_step(s: VmView) -> (VmView, ActionView) {
    let n = s.stack.len();
    if s.ip + 1 < s.code.len() && (s.code[s.ip + 1] as int) < n {
        let argc = s.code[s.ip + 1] as int;
        let ci = n - 1 - argc;
        match s.stack[ci] {
            ValueView::Function(f) => match arity_error(f, argc) {
                Some(m) => (VmView { ip: s.ip + 2, ..s }, ActionView::Fail(m)),
                None => if argc == f.max_arity && !f.has_varargs && !f.has_kwargs && frame_fits(
                    0usize,
                    f.code.len(),
                    ci as usize,
                ) {
                    (called(s, f, ci), ActionView::Continue)
                } else {
                    delegated(s, OpCode::Call)
                },
            },
            _ => delegated(s, OpCode::Call),
        }
    } else {
        delegated(s, OpCode::Call)
    }
}

/// Whether the `count` pairs laid out as key, value, key, value, ... have text keys.
pub open spec fn text_keys(items: Seq<ValueView>, count: int) -> bool {
    forall|i: int| 0 <= i < count ==> #[trigger] items[2 * i] is String
}

/// The `count` pairs laid out as key, value, key, value, ...
pub open spec fn stack_pairs(items: Seq<ValueView>, count: int) -> Seq<(Seq<char>, ValueView)> {
    Seq::new(count as nat, |i: int| (items[2 * i]->String_0, items[2 * i + 1]))
}

/// One step of the machine: the new state and what the caller does next.
pub open spec fn step_spec(s: VmView) -> (VmView, ActionView) {
    if s.ip >= s.code.len() {
        if s.frames.len() == 0 {
            (VmView { stack: popped(s.stack), ..s }, ActionView::Done(top_or_nil(s.stack)))
        } else {
            (returned_to(s, s.stack), ActionView::Continue)
        }
    } else if s.code[s.ip] >= OPCODE_COUNT {
        (s, ActionView::Fail(invalid_byte_message(s.code[s.ip])))
    } else {
        let op = op_of_byte(s.code[s.ip]);
        let next = s.ip + 1;
        let after = s.ip + 3;
        let n = s.stack.len();
        match op {
            OpCode::Constant => if has_operand(s) && operand(s) < s.constants.len() {
                moved(s, after, s.stack.push(s.constants[operand(s)]))
            } else {
                delegated(s, op)
            },
            OpCode::Nil => moved(s, next, s.stack.push(ValueView::Nil)),
            OpCode::True => moved(s, next, s.stack.push(ValueView::Bool(true))),
            OpCode::False => moved(s, next, s.stack.push(ValueView::Bool(false))),
            OpCode::Pop => moved(s, next, if n > 0 { s.stack.drop_last() } else { s.stack }),
            OpCode::Dup => moved(s, next, if n > 0 { s.stack.push(s.stack.last()) } else { s.stack }),
            OpCode::Add | OpCode::Sub | OpCode::Mul | OpCode::Equal | OpCode::NotEqual
            | OpCode::Less | OpCode::LessEqual | OpCode::Greater | OpCode::GreaterEqual => if n >= 2
                && binary_result(op, s.stack[n - 2], s.stack[n - 1]) is Some {
                moved(
                    s,
                    next,
                    s.stack.take(n - 2).push(binary_result(op, s.stack[n - 2], s.stack[n - 1])->0),
                )
            } else {
                delegated(s, op)
            },
            OpCode::Call => call_step(s),
            OpCode::Return => {
                let kept = truncated(popped(s.stack), s.stack_offset);
                if s.frames.len() == 0 {
                    (VmView { ip: next, stack: kept, ..s }, ActionView::Done(top_or_nil(s.stack)))
                } else {
                    (returned_to(s, kept.push(top_or_nil(s.stack))), ActionView::Continue)
                }
            },
            OpCode::Div | OpCode::Mod | OpCode::Pow => if n >= 2 && int_arith(op, s.stack[n - 2], s.stack[n - 1]) is Some {
                match int_arith(op, s.stack[n - 2], s.stack[n - 1])->0 {
                    Ok(v) => moved(s, next, s.stack.take(n - 2).push(v)),
                    Err(m) => (VmView { ip: next, stack: s.stack.take(n - 2), ..s }, ActionView::Fail(m)),
                }
            } else {
                delegated(s, op)
            },
            OpCode::Negate => if n >= 1 && negated(s.stack[n - 1]) is Some {
                moved(s, next, s.stack.drop_last().push(negated(s.stack[n - 1])->0))
            } else {
                delegated(s, op)
            },
            OpCode::Not => if n >= 1 && known_falsy(s.stack[n - 1]) is Some {
                moved(
                    s,
                    next,
                    s.stack.drop_last().push(ValueView::Bool(known_falsy(s.stack[n - 1])->0)),
                )
            } else {
                delegated(s, op)
            },
            OpCode::DefineGlobal | OpCode::GetGlobal | OpCode::SetGlobal => if has_operand(s)
                && operand(s) < s.constants.len() {
                match s.constants[operand(s)] {
                    ValueView::String(name) => match op {
                        OpCode::DefineGlobal => (
                            VmView {
                                ip: after,
                                stack: if n > 0 { s.stack.drop_last() } else { s.stack },
                                globals: s.globals.insert(name, top_or_nil(s.stack)),
                                ..s
                            },
                            ActionView::Continue,
                        ),
                        OpCode::GetGlobal => if s.globals.dom().contains(name) {
                            moved(s, after, s.stack.push(s.globals[name]))
                        } else {
                            (
                                VmView { ip: after, ..s },
                                ActionView::Fail("Undefined variable '"@ + name + "'"@),
                            )
                        },
                        _ => (
                            VmView { ip: after, globals: s.globals.insert(name, top_or_nil(s.stack)), ..s },
                            ActionView::Continue,
                        ),
                    },
                    _ => moved(s, after, s.stack),
                }
            } else {
                delegated(s, op)
            },
            OpCode::GetLocal => if has_operand(s) {
                let idx = s.stack_offset + operand(s);
                if idx >= n {
                    (
                        VmView { ip: after, ..s },
                        ActionView::Fail(local_error("GetLocal"@, s, operand(s))),
                    )
                } else {
                    moved(s, after, s.stack.push(s.stack[idx]))
                }
            } else {
                delegated(s, op)
            },
            OpCode::SetLocal => if has_operand(s) {
                let idx = s.stack_offset + operand(s);
                if idx >= n {
                    (
                        VmView { ip: after, ..s },
                        ActionView::Fail(local_error("SetLocal"@, s, operand(s))),
                    )
                } else {
                    moved(s, after, s.stack.update(idx, top_or_nil(s.stack)))
                }
            } else {
                delegated(s, op)
            },
            OpCode::Jump => if has_operand(s) {
                moved(s, after + operand(s), s.stack)
            } else {
                delegated(s, op)
            },
            OpCode::JumpIfFalse => if !has_operand(s) {
                delegated(s, op)
            } else if n == 0 {
                moved(s, after, s.stack)
            } else {
                match known_falsy(s.stack[n - 1]) {
                    Some(f) => moved(s, if f { after + operand(s) } else { after }, s.stack),
                    None => delegated(s, op),
                }
            },
            OpCode::BuildArray | OpCode::BuildTuple => if has_operand(s) && operand(s) <= n {
                let k = n - operand(s);
                let items = s.stack.subrange(k, n as int);
                moved(
                    s,
                    after,
                    s.stack.take(k).push(
                        if op is BuildArray { ValueView::Array(items) } else { ValueView::Tuple(items) },
                    ),
                )
            } else {
                delegated(s, op)
            },
            OpCode::BuildMap => if has_operand(s) && 2 * operand(s) <= n && text_keys(
                s.stack.subrange(n - 2 * operand(s), n as int),
                operand(s),
            ) {
                let k = n - 2 * operand(s);
                moved(
                    s,
                    after,
                    s.stack.take(k).push(
                        ValueView::MapEntries(map_of_pairs(stack_pairs(s.stack.subrange(k, n as int), operand(s)))),
                    ),
                )
            } else {
                delegated(s, op)
            },
            OpCode::UnpackSequence => if has_operand(s) && n >= 1 && seq_items(s.stack[n - 1]) is Some {
                let items = seq_items(s.stack[n - 1])->0;
                let popped = s.stack.drop_last();
                if items.len() != operand(s) {
                    (
                        VmView { ip: after, stack: popped, ..s },
                        ActionView::Fail(unpack_error(operand(s), items.len() as int)),
                    )
                } else {
                    moved(s, after, popped + items.reverse())
                }
            } else {
                delegated(s, op)
            },
            OpCode::Loop => if has_operand(s) && operand(s) <= after {
                moved(s, after - operand(s), s.stack)
            } else {
                delegated(s, op)
            },
            OpCode::IndexGet => if n >= 2 && index_outcome(s.stack[n - 2], s.stack[n - 1]) is Some {
                match index_outcome(s.stack[n - 2], s.stack[n - 1])->0 {
                    Ok(v) => moved(s, next, s.stack.take(n - 2).push(v)),
                    Err(m) => (VmView { ip: next, stack: s.stack.take(n - 2), ..s }, ActionView::Fail(m)),
                }
            } else {
                delegated(s, op)
            },
            _ => delegated(s, op),
        }
    }
}

fn push_value(stack: &mut Vec<Value>, v: Value)
    ensures
        models(final(stack)@) == models(old(stack)@).push(v@),
        final(stack)@.len() == old(stack)@.len() + 1,
{
    proof {
        lemma_models_push(stack@, v);
    }
    stack.push(v);
}

fn pop_value(stack: &mut Vec<Value>) -> (r: Value)
    requires
        old(stack)@.len() > 0,
    ensures
        models(final(stack)@) == models(old(stack)@).drop_last(),
        final(stack)@.len() == old(stack)@.len() - 1,
        r@ == models(old(stack)@).last(),
{
    proof {
        lemma_models(stack@);
        lemma_models_push(stack@.drop_last(), stack@.last());
        assert(stack@.drop_last().push(stack@.last()) =~= stack@);
    }
    let r = stack.pop().unwrap();
    r
}

fn top_value(stack: &Vec<Value>) -> (r: Value)
    ensures
        r@ == top_or_nil(models(stack@)),
{
    proof {
        lemma_models(stack@);
    }
    if stack.len() > 0 {
        stack[stack.len() - 1].copy()
    } else {
        Value::Nil
    }
}

fn binary(op: OpCode, a: &Value, b: &Value) -> (r: Option<Value>)
    ensures
        match r {
            Some(v) => binary_result(op, a@, b@) == Some(v@),
            None => binary_result(op, a@, b@) is None,
        },
{
    match (a, b) {
        (Value::Int(x), Value::Int(y)) => {
            let (x, y) = (*x, *y);
            match op {
                OpCode::Add => match x.checked_add(y) {
                    Some(z) => Some(Value::Int(z)),
                    None => None,
                },
                OpCode::Sub => match x.checked_sub(y) {
                    Some(z) => Some(Value::Int(z)),
                    None => None,
                },
                OpCode::Mul => match x.checked_mul(y) {
                    Some(z) => Some(Value::Int(z)),
                    None => None,
                },
                OpCode::Equal => Some(Value::Bool(x == y)),
                OpCode::NotEqual => Some(Value::Bool(x != y)),
                OpCode::Less => Some(Value::Bool(x < y)),
                OpCode::LessEqual => Some(Value::Bool(x <= y)),
                OpCode::Greater => Some(Value::Bool(x > y)),
                OpCode::GreaterEqual => Some(Value::Bool(x >= y)),
                _ => None,
            }
        },
        (Value::String(x), Value::String(y)) => match op {
            OpCode::Equal => Some(Value::Bool(*x == *y)),
            OpCode::NotEqual => Some(Value::Bool(!(*x == *y))),
            OpCode::Less => Some(Value::Bool(string_lt(x, y))),
            OpCode::LessEqual => Some(Value::Bool(!string_lt(y, x))),
            OpCode::Greater => Some(Value::Bool(string_lt(y, x))),
            OpCode::GreaterEqual => Some(Value::Bool(!string_lt(x, y))),
            _ => None,
        },
        (Value::Bool(x), Value::Bool(y)) => match op {
            OpCode::Equal => Some(Value::Bool(*x == *y)),
            OpCode::NotEqual => Some(Value::Bool(*x != *y)),
            _ => None,
        },
        (Value::Nil, Value::Nil) => match op {
            OpCode::Equal => Some(Value::Bool(true)),
            OpCode::NotEqual => Some(Value::Bool(false)),
            _ => None,
        },
        _ => None,
    }
}

fn falsy(v: &Value) -> (r: Option<bool>)
    ensures
        r == known_falsy(v@),
{
    match v {
        Value::Bool(b) => Some(!*b),
        Value::Nil => Some(true),
        _ => None,
    }
}

fn local_message(which: &str, name: &String, slot: usize, offset: usize, len: usize) -> (m: String)
    requires
        offset + slot <= usize::MAX,
    ensures
        m@ == which@ + " out of bounds in '"@ + name@ + "': slot="@ + decimal(slot as nat)
            + ", stack_offset="@ + decimal(offset as nat) + ", idx="@ + decimal((offset + slot) as nat)
            + ", stack_len="@ + decimal(len as nat),
{
    let mut m = string_of(which);
    push_str(&mut m, " out of bounds in '");
    push_str(&mut m, name.as_str());
    push_str(&mut m, "': slot=");
    push_decimal(&mut m, slot as u64);
    push_str(&mut m, ", stack_offset=");
    push_decimal(&mut m, offset as u64);
    push_str(&mut m, ", idx=");
    push_decimal(&mut m, (offset + slot) as u64);
    push_str(&mut m, ", stack_len=");
    push_decimal(&mut m, len as u64);
    m
}

fn push_reversed(stack: &mut Vec<Value>, items: &Vec<Value>)
    ensures
        models(final(stack)@) == models(old(stack)@) + models(items@).reverse(),
{
    proof {
        lemma_models(items@);
    }
    let ghost base = models(stack@);
    let ghost iv = models(items@);
    let got = items.len();
    let mut j = got;
    assert(base + iv.reverse().take(0) =~= base);
    while j > 0
        invariant
            j <= got == items@.len(),
            iv == models(items@),
            iv.len() == got,
            models(stack@) == base + iv.reverse().take((got - j) as int),
        decreases j,
    {
        j = j - 1;
        let v = items[j].copy();
        push_value(stack, v);
        proof {
            lemma_models(items@);
            assert(iv.reverse()[(got - j - 1) as int] == iv[j as int]);
            assert(base + iv.reverse().take((got - j) as int) =~= (base + iv.reverse().take(
                (got - j - 1) as int,
            )).push(iv[j as int]));
        }
    }
    assert(iv.reverse().take(got as int) =~= iv.reverse());
}

fn magnitude_of(x: i64) -> (m: u64)
    ensures
        m == magnitude(x as int),
{
    if x < 0 {
        (0i128 - x as i128) as u64
    } else {
        x as u64
    }
}

proof fn lemma_pow_step(x: int, n: nat)
    ensures
        int_pow(x, n + 1) == x * int_pow(x, n),
{
    assert(int_pow(x, n + 1) == x * int_pow(x, ((n + 1) - 1) as nat));
}

/// Once the magnitude of a power of an integer other than -1, 0 and 1 exceeds `i64`, higher
/// powers exceed it too.
proof fn lemma_pow_grows(x: int, n: nat, m: nat)
    requires
        x < -1 || x > 1,
        n <= m,
    ensures
        magnitude(int_pow(x, n)) <= magnitude(int_pow(x, m)),
    decreases m - n,
{
    if n < m {
        lemma_pow_grows(x, n, (m - 1) as nat);
        lemma_pow_step(x, (m - 1) as nat);
        let p = int_pow(x, (m - 1) as nat);
        assert(magnitude(x * p) == magnitude(x) * magnitude(p)) by (nonlinear_arith);
        assert(magnitude(x) * magnitude(p) >= magnitude(p)) by (nonlinear_arith)
            requires
                magnitude(x) >= 2,
        ;
    }
}

proof fn lemma_pow_unit(x: int, n: nat)
    requires
        -1 <= x <= 1,
    ensures
        x == 0 ==> int_pow(x, n) == if n == 0 { 1int } else { 0int },
        x == 1 ==> int_pow(x, n) == 1,
        x == -1 ==> int_pow(x, n) == if n % 2 == 0 { 1int } else { -1int },
    decreases n,
{
    if n > 0 {
        lemma_pow_unit(x, (n - 1) as nat);
    }
}

fn pow_checked(x: i64, n: u32) -> (r: Option<i64>)
    ensures
        match r {
            Some(p) => p == int_pow(x as int, n as nat),
            None => !(i64::MIN <= int_pow(x as int, n as nat) <= i64::MAX),
        },
{
    if x == 0 || x == 1 || x == -1 {
        proof {
            lemma_pow_unit(x as int, n as nat);
        }
        if x == 0 {
            return if n == 0 { Some(1) } else { Some(0) };
        }
        if x == 1 {
            return Some(1);
        }
        return if n % 2 == 0 { Some(1) } else { Some(-1) };
    }
    let mut acc: i64 = 1;
    let mut i: u32 = 0;
    while i < n
        invariant
            i <= n,
            x < -1 || x > 1,
            acc == int_pow(x as int, i as nat),
        decreases n - i,
    {
        proof {
            lemma_pow_step(x as int, i as nat);
        }
        match acc.checked_mul(x) {
            Some(p) => {
                acc = p;
            },
            None => {
                proof {
                    let p1 = int_pow(x as int, (i + 1) as nat);
                    assert(p1 == acc * x);
                    assert(!(i64::MIN <= p1 <= i64::MAX));
                    assert(magnitude(p1) >= 0x8000000000000000);
                    if i + 1 < n {
                        lemma_pow_step(x as int, (i + 1) as nat);
                        let p2 = int_pow(x as int, (i + 2) as nat);
                        assert(magnitude(x as int * p1) == magnitude(x as int) * magnitude(p1)) by (nonlinear_arith);
                        assert(magnitude(x as int) * magnitude(p1) >= 2 * magnitude(p1)) by (nonlinear_arith)
                            requires
                                magnitude(x as int) >= 2,
                        ;
                        lemma_pow_grows(x as int, (i + 2) as nat, n as nat);
                        assert(magnitude(int_pow(x as int, n as nat)) >= 0x10000000000000000);
                    }
                }
                return None;
            },
        }
        i = i + 1;
    }
    Some(acc)
}

fn int_arith_of(op: OpCode, a: &Value, b: &Value) -> (r: Option<Result<Value, String>>)
    ensures
        match int_arith(op, a@, b@) {
            Some(Ok(v)) => r matches Some(Ok(x)) && x@ == v,
            Some(Err(m)) => r matches Some(Err(e)) && e@ == m,
            None => r is None,
        },
{
    match (a, b) {
        (Value::Int(x), Value::Int(y)) => {
            let x = *x;
            let y = *y;
            match op {
                OpCode::Div => {
                    if y == 0 || (x == i64::MIN && y == -1) {
                        return None;
                    }
                    let q: u64 = magnitude_of(x) / magnitude_of(y);
                    let v: i128 = if (x < 0) == (y < 0) { q as i128 } else { 0i128 - q as i128 };
                    proof {
                        assert(q <= magnitude(x as int)) by {
                            vstd::arithmetic::div_mod::lemma_div_is_ordered_by_denominator(
                                magnitude(x as int) as int,
                                1,
                                magnitude(y as int) as int,
                            );
                        }
                        if (x < 0) == (y < 0) && q == 0x8000000000000000u64 {
                            assert(magnitude(y as int) == 1) by {
                                if magnitude(y as int) >= 2 {
                                    vstd::arithmetic::div_mod::lemma_div_is_ordered_by_denominator(
                                        magnitude(x as int) as int,
                                        2,
                                        magnitude(y as int) as int,
                                    );
                                }
                            }
                        }
                    }
                    Some(Ok(Value::Int(v as i64)))
                },
                OpCode::Mod => {
                    if y == 0 {
                        return Some(Err(string_of("Modulo by zero")));
                    }
                    if x == i64::MIN && y == -1 {
                        return None;
                    }
                    let r: u64 = magnitude_of(x) % magnitude_of(y);
                    let v: i64 = if x < 0 { 0i64 - r as i64 } else { r as i64 };
                    Some(Ok(Value::Int(v)))
                },
                OpCode::Pow => {
                    if y < 0 {
                        return None;
                    }
                    let e: u32 = (y % 0x1_0000_0000i64) as u32;
                    match pow_checked(x, e) {
                        Some(p) => Some(Ok(Value::Int(p))),
                        None => None,
                    }
                },
                _ => None,
            }
        },
        _ => None,
    }
}

fn signed_string(prefix: &str, i: i64) -> (m: String)
    ensures
        m@ == prefix@ + signed_text(i),
{
    let mut m = string_of(prefix);
    if i < 0 {
        push_str(&mut m, "-");
        let mag: u64 = (-(i as i128)) as u64;
        push_decimal(&mut m, mag);
        proof {
            reveal_strlit("-");
            assert(m@ =~= prefix@ + ("-"@ + decimal((-(i as int)) as nat)));
        }
    } else {
        push_decimal(&mut m, i as u64);
    }
    m
}

fn position(len: usize, i: i64) -> (r: Option<usize>)
    ensures
        match index_position(len as int, i) {
            Some(p) => r == Some(p as usize),
            None => r is None,
        },
{
    let p: i128 = if i < 0 { len as i128 + i as i128 } else { i as i128 };
    if 0 <= p && p < len as i128 {
        Some(p as usize)
    } else {
        None
    }
}

fn index_get(target: &Value, idx: &Value) -> (r: Option<Result<Value, String>>)
    ensures
        match index_outcome(target@, idx@) {
            Some(Ok(v)) => r matches Some(Ok(x)) && x@ == v,
            Some(Err(m)) => r matches Some(Err(e)) && e@ == m,
            None => r is None,
        },
{
    match (target, idx) {
        (Value::Array(items), Value::Int(i)) => {
            proof {
                lemma_models(items@);
            }
            match position(items.len(), *i) {
                Some(p) => Some(Ok(items[p].copy())),
                None => None,
            }
        },
        (Value::Tuple(items), Value::Int(i)) => {
            proof {
                lemma_models(items@);
            }
            match position(items.len(), *i) {
                Some(p) => Some(Ok(items[p].copy())),
                None => Some(Err(signed_string("Tuple index out of bounds: ", *i))),
            }
        },
        (Value::SetItems(items), Value::Int(i)) => {
            proof {
                lemma_models(items@);
            }
            match position(items.len(), *i) {
                Some(p) => Some(Ok(items[p].copy())),
                None => Some(Err(signed_string("Set index out of bounds: ", *i))),
            }
        },
        _ => None,
    }
}

/// Makes the innermost calling frame the running one, keeping the stack.
fn return_to_caller(vm: &mut VmState)
    requires
        old(vm).wf(),
        old(vm).frames@.len() > 0,
    ensures
        final(vm).wf(),
        final(vm)@ == returned_to(old(vm)@, old(vm)@.stack),
{
    let ghost fs = vm.frames@;
    let f = vm.frames.pop().unwrap();
    proof {
        assert(frame_views(vm.frames@) =~= frame_views(fs).drop_last());
        assert(f == fs[fs.len() - 1]);
        assert(frame_fits(fs[fs.len() - 1].ip, fs[fs.len() - 1].chunk.code@.len(), fs[fs.len() - 1].stack_offset));
        assert forall|i: int| 0 <= i < vm.frames@.len() implies frame_fits(
            #[trigger] vm.frames@[i].ip,
            vm.frames@[i].chunk.code@.len(),
            vm.frames@[i].stack_offset,
        ) by {
            assert(vm.frames@[i] == fs[i]);
        }
    }
    vm.name = f.name;
    vm.chunk = f.chunk;
    vm.ip = f.ip;
    vm.stack_offset = f.stack_offset;
}

/// Performs `Return` at the instruction pointer, as `step_spec` states.
fn do_return(vm: &mut VmState) -> (a: VmAction)
    requires
        old(vm).wf(),
        old(vm).ip < old(vm).chunk.code@.len(),
    ensures
        final(vm).wf(),
        ({
            let s = old(vm)@;
            let kept = truncated(popped(s.stack), s.stack_offset);
            if s.frames.len() == 0 {
                final(vm)@ == VmView { ip: s.ip + 1, stack: kept, ..s } && a@ == ActionView::Done(
                    top_or_nil(s.stack),
                )
            } else {
                final(vm)@ == returned_to(s, kept.push(top_or_nil(s.stack))) && a@
                    == ActionView::Continue
            }
        }),
{
    let ghost s = vm@;
    let result = top_value(&vm.stack);
    if vm.stack.len() > 0 {
        pop_value(&mut vm.stack);
    }
    assert(models(vm.stack@) == popped(s.stack));
    let ghost before = vm.stack@;
    proof {
        lemma_models(before);
    }
    if vm.stack_offset < vm.stack.len() {
        vm.stack.truncate(vm.stack_offset);
        proof {
            lemma_models(before);
            lemma_models(vm.stack@);
            assert(vm.stack@ =~= before.take(s.stack_offset));
            assert(models(vm.stack@) =~= models(before).take(s.stack_offset));
        }
    }
    assert(models(vm.stack@) == truncated(popped(s.stack), s.stack_offset));
    assert(vm.frames@ == old(vm).frames@);
    assert(vm.globals == old(vm).globals);
    if vm.frames.len() == 0 {
        vm.ip = vm.ip + 1;
        assert(vm@.stack == truncated(popped(s.stack), s.stack_offset));
        assert(result@ == top_or_nil(s.stack));
        return VmAction::Done(result);
    }
    push_value(&mut vm.stack, result);
    return_to_caller(vm);
    VmAction::Continue
}

fn arity_message(name: &String, bound: &str, expected: usize, argc: usize) -> (m: String)
    ensures
        m@ == "Function '"@ + name@ + bound@ + decimal(expected as nat) + " arguments but got "@ + decimal(
            argc as nat,
        ),
{
    let mut m = string_of("Function '");
    push_str(&mut m, name.as_str());
    push_str(&mut m, bound);
    push_decimal(&mut m, expected as u64);
    push_str(&mut m, " arguments but got ");
    push_decimal(&mut m, argc as u64);
    m
}

/// The map of the `count` pairs that start at `start` on the stack, later keys replacing
/// earlier ones; `None` when a key is not a text.
fn pairs_map(stack: &Vec<Value>, start: usize, count: usize) -> (r: Option<Vec<(String, Value)>>)
    requires
        start + 2 * count == stack@.len(),
    ensures
        r is Some <==> text_keys(models(stack@).subrange(start as int, stack@.len() as int), count as int),
        r matches Some(m) ==> entry_models(m@) == map_of_pairs(
            stack_pairs(models(stack@).subrange(start as int, stack@.len() as int), count as int),
        ),
{
    proof {
        lemma_models(stack@);
    }
    let ghost items = models(stack@).subrange(start as int, stack@.len() as int);
    let total = stack.len();
    let mut j: usize = 0;
    while j < count
        invariant
            j <= count,
            start + 2 * count == stack@.len(),
            total == stack@.len(),
            items == models(stack@).subrange(start as int, stack@.len() as int),
            models(stack@).len() == stack@.len(),
            forall|t: int| 0 <= t < stack@.len() ==> #[trigger] models(stack@)[t] == stack@[t]@,
            forall|t: int| 0 <= t < j ==> #[trigger] items[2 * t] is String,
        decreases count - j,
    {
        let at: usize = start + j + j;
        match &stack[at] {
            Value::String(_) => {},
            _ => {
                assert(!(items[2 * j] is String));
                return None;
            },
        }
        j = j + 1;
    }
    let ghost pairs = stack_pairs(items, count as int);
    let mut map: Vec<(String, Value)> = Vec::new();
    let mut i: usize = 0;
    assert(pairs.take(0) =~= Seq::<(Seq<char>, ValueView)>::empty());
    while i < count
        invariant
            i <= count,
            start + 2 * count == stack@.len(),
            total == stack@.len(),
            items == models(stack@).subrange(start as int, stack@.len() as int),
            models(stack@).len() == stack@.len(),
            forall|t: int| 0 <= t < stack@.len() ==> #[trigger] models(stack@)[t] == stack@[t]@,
            text_keys(items, count as int),
            pairs == stack_pairs(items, count as int),
            keys_unique(entry_models(map@)),
            entry_models(map@) == map_of_pairs(pairs.take(i as int)),
        decreases count - i,
    {
        assert(items[2 * i] is String);
        let at: usize = start + i + i;
        let key = match &stack[at] {
            Value::String(t) => t.clone(),
            _ => String::new(),
        };
        let v = stack[at + 1].copy();
        proof {
            assert(key@ == pairs[i as int].0);
            assert(v@ == pairs[i as int].1);
            assert(pairs.take(i + 1).drop_last() =~= pairs.take(i as int));
            assert(pairs.take(i + 1).last() == pairs[i as int]);
        }
        put_entry(&mut map, key, v);
        i = i + 1;
    }
    assert(pairs.take(count as int) =~= pairs);
    Some(map)
}

/// Performs `BuildMap` with `count` pairs on the stack, as `step_spec` states.
fn build_map(vm: &mut VmState, count: usize) -> (a: VmAction)
    requires
        old(vm).wf(),
        old(vm).ip + 2 < old(vm).chunk.code@.len(),
        count == operand(old(vm)@),
        2 * count <= old(vm).stack@.len(),
    ensures
        final(vm).wf(),
        ({
            let s = old(vm)@;
            let n = s.stack.len();
            let k = n - 2 * count;
            if text_keys(s.stack.subrange(k, n as int), count as int) {
                (final(vm)@, a@) == moved(
                    s,
                    s.ip + 3,
                    s.stack.take(k).push(
                        ValueView::MapEntries(map_of_pairs(stack_pairs(s.stack.subrange(k, n as int), count as int))),
                    ),
                )
            } else {
                (final(vm)@, a@) == delegated(s, OpCode::BuildMap)
            }
        }),
{
    let ghost s = vm@;
    let n = vm.stack.len();
    let k = n - 2 * count;
    proof {
        lemma_models(vm.stack@);
    }
    assert(models(vm.stack@) == s.stack);
    match pairs_map(&vm.stack, k, count) {
        None => {
            assert(!text_keys(s.stack.subrange(k as int, n as int), count as int));
            VmAction::Delegate(OpCode::BuildMap)
        },
        Some(map) => {
            let ghost before = vm.stack@;
            vm.stack.truncate(k);
            proof {
                lemma_models(before);
                lemma_models(vm.stack@);
                assert(models(vm.stack@) =~= s.stack.take(k as int));
            }
            let ghost mv = entry_models(map@);
            push_value(&mut vm.stack, Value::MapEntries(map));
            vm.ip = vm.ip + 3;
            proof {
                let items = s.stack.subrange(k as int, n as int);
                assert(models(before).subrange(k as int, before.len() as int) == items);
                assert(mv == map_of_pairs(stack_pairs(items, count as int)));
                assert(vm@.stack == s.stack.take(k as int).push(ValueView::MapEntries(mv)));
                assert(vm@ == moved(s, s.ip + 3, s.stack.take(k as int).push(ValueView::MapEntries(mv))).0);
                assert(text_keys(s.stack.subrange(k as int, n as int), count as int));
            }
            VmAction::Continue
        },
    }
}

/// Performs `Call` at the instruction pointer, as `call_step` states.
fn do_call(vm: &mut VmState) -> (a: VmAction)
    requires
        old(vm).wf(),
        old(vm).ip < old(vm).chunk.code@.len(),
    ensures
        final(vm).wf(),
        (final(vm)@, a@) == call_step(old(vm)@),
{
    proof {
        lemma_models(vm.stack@);
    }
    let ghost s = vm@;
    let ip = vm.ip;
    let n = vm.stack.len();
    if ip + 1 >= vm.chunk.code.len() {
        return VmAction::Delegate(OpCode::Call);
    }
    let argc = vm.chunk.code[ip + 1] as usize;
    if argc >= n {
        return VmAction::Delegate(OpCode::Call);
    }
    let ci = n - 1 - argc;
    let fc: CompiledFunction = match &vm.stack[ci] {
        Value::Function(f) => copy_function(f),
        _ => {
            return VmAction::Delegate(OpCode::Call);
        },
    };
    let ghost fv = FunctionView {
        name: fc.name@,
        arity: fc.arity,
        max_arity: fc.max_arity,
        has_varargs: fc.has_varargs,
        has_kwargs: fc.has_kwargs,
        code: fc.chunk.code@,
        constants: models(fc.chunk.constants@),
    };
    assert(s.stack[ci as int] == ValueView::Function(fv));
    if argc < fc.arity {
        let m = arity_message(&fc.name, "' expects at least ", fc.arity, argc);
        vm.ip = ip + 2;
        return VmAction::Fail(m);
    }
    if argc > fc.max_arity && !fc.has_varargs {
        let m = arity_message(&fc.name, "' expects at most ", fc.max_arity, argc);
        vm.ip = ip + 2;
        return VmAction::Fail(m);
    }
    if argc != fc.max_arity || fc.has_varargs || fc.has_kwargs || fc.chunk.code.len() > usize::MAX - 0x20010
        || ci > usize::MAX - 0x10000 {
        return VmAction::Delegate(OpCode::Call);
    }
    let CompiledFunction { name: mut fname, chunk: mut fchunk, .. } = fc;
    std::mem::swap(&mut vm.name, &mut fname);
    std::mem::swap(&mut vm.chunk, &mut fchunk);
    let caller = Frame { name: fname, chunk: fchunk, ip: ip + 2, stack_offset: vm.stack_offset };
    let ghost fs = vm.frames@;
    vm.frames.push(caller);
    vm.stack_offset = ci;
    vm.ip = 0;
    proof {
        assert(frame_views(vm.frames@) =~= frame_views(fs).push(caller@));
        assert forall|i: int| 0 <= i < vm.frames@.len() implies frame_fits(
            #[trigger] vm.frames@[i].ip,
            vm.frames@[i].chunk.code@.len(),
            vm.frames@[i].stack_offset,
        ) by {
            if i < fs.len() {
                assert(vm.frames@[i] == old(vm).frames@[i]);
            }
        }
        assert(vm@ == called(s, fv, ci as int));
    }
    VmAction::Continue
}

/// Executes the instruction at the instruction pointer, as `step_spec` states.
pub fn step(vm: &mut VmState) -> (a: VmAction)
    requires
        old(vm).wf(),
    ensures
        final(vm).wf(),
        (final(vm)@, a@) == step_spec(old(vm)@),
{
    proof {
        lemma_models(vm.stack@);
        lemma_models(vm.chunk.constants@);
    }
    let ghost s = vm@;
    let len = vm.chunk.code.len();
    if vm.ip >= len {
        if vm.frames.len() == 0 {
            let top = top_value(&vm.stack);
            if vm.stack.len() > 0 {
                pop_value(&mut vm.stack);
            }
            return VmAction::Done(top);
        }
        return_to_caller(vm);
        return VmAction::Continue;
    }
    let ip = vm.ip;
    let byte = vm.chunk.code[ip];
    if byte >= OPCODE_COUNT {
        let mut m = string_of("Invalid instruction byte ");
        push_decimal(&mut m, byte as u64);
        return VmAction::Fail(m);
    }
    let op = OpCode::from_byte(byte);
    let has16 = ip + 2 < len;
    let arg: usize = if has16 {
        vm.chunk.read_u16(ip + 1) as usize
    } else {
        0
    };
    assert(has16 ==> arg == operand(s));
    let n = vm.stack.len();
    match op {
        OpCode::Constant => {
            if has16 && arg < vm.chunk.constants.len() {
                let v = vm.chunk.constants[arg].copy();
                push_value(&mut vm.stack, v);
                vm.ip = ip + 3;
                VmAction::Continue
            } else {
                VmAction::Delegate(op)
            }
        },
        OpCode::Nil => {
            push_value(&mut vm.stack, Value::Nil);
            vm.ip = ip + 1;
            VmAction::Continue
        },
        OpCode::True => {
            push_value(&mut vm.stack, Value::Bool(true));
            vm.ip = ip + 1;
            VmAction::Continue
        },
        OpCode::False => {
            push_value(&mut vm.stack, Value::Bool(false));
            vm.ip = ip + 1;
            VmAction::Continue
        },
        OpCode::Pop => {
            if n > 0 {
                pop_value(&mut vm.stack);
            }
            vm.ip = ip + 1;
            VmAction::Continue
        },
        OpCode::Dup => {
            if n > 0 {
                let t = vm.stack[n - 1].copy();
                push_value(&mut vm.stack, t);
            }
            vm.ip = ip + 1;
            VmAction::Continue
        },
        OpCode::Add | OpCode::Sub | OpCode::Mul | OpCode::Equal | OpCode::NotEqual | OpCode::Less
        | OpCode::LessEqual | OpCode::Greater | OpCode::GreaterEqual => {
            if n < 2 {
                return VmAction::Delegate(op);
            }
            match binary(op, &vm.stack[n - 2], &vm.stack[n - 1]) {
                Some(v) => {
                    pop_value(&mut vm.stack);
                    pop_value(&mut vm.stack);
                    push_value(&mut vm.stack, v);
                    proof {
                        assert(s.stack.drop_last().drop_last() =~= s.stack.take(n - 2));
                    }
                    vm.ip = ip + 1;
                    VmAction::Continue
                },
                None => VmAction::Delegate(op),
            }
        },
        OpCode::Negate => {
            if n >= 1 {
                match &vm.stack[n - 1] {
                    Value::Int(i) => {
                        let i = *i;
                        if i != i64::MIN {
                            pop_value(&mut vm.stack);
                            push_value(&mut vm.stack, Value::Int(-i));
                            vm.ip = ip + 1;
                            return VmAction::Continue;
                        }
                    },
                    _ => {},
                }
            }
            VmAction::Delegate(op)
        },
        OpCode::Not => {
            if n >= 1 {
                match falsy(&vm.stack[n - 1]) {
                    Some(f) => {
                        pop_value(&mut vm.stack);
                        push_value(&mut vm.stack, Value::Bool(f));
                        vm.ip = ip + 1;
                        return VmAction::Continue;
                    },
                    None => {},
                }
            }
            VmAction::Delegate(op)
        },
        OpCode::DefineGlobal | OpCode::GetGlobal | OpCode::SetGlobal => {
            if !(has16 && arg < vm.chunk.constants.len()) {
                return VmAction::Delegate(op);
            }
            let name = match &vm.chunk.constants[arg] {
                Value::String(name) => name.clone(),
                _ => {
                    vm.ip = ip + 3;
                    return VmAction::Continue;
                },
            };
            match op {
                OpCode::DefineGlobal => {
                    let v = top_value(&vm.stack);
                    if n > 0 {
                        pop_value(&mut vm.stack);
                    }
                    vm.globals.insert(name, v);
                    vm.ip = ip + 3;
                    VmAction::Continue
                },
                OpCode::GetGlobal => {
                    vm.ip = ip + 3;
                    match vm.globals.get(&name) {
                        Some(v) => {
                            let v = v.copy();
                            push_value(&mut vm.stack, v);
                            VmAction::Continue
                        },
                        None => {
                            let mut m = string_of("Undefined variable '");
                            push_str(&mut m, name.as_str());
                            push_str(&mut m, "'");
                            VmAction::Fail(m)
                        },
                    }
                },
                _ => {
                    let v = top_value(&vm.stack);
                    vm.globals.insert(name, v);
                    vm.ip = ip + 3;
                    VmAction::Continue
                },
            }
        },
        OpCode::GetLocal | OpCode::SetLocal => {
            if !has16 {
                return VmAction::Delegate(op);
            }
            let idx = vm.stack_offset + arg;
            if idx >= n {
                let which = match op {
                    OpCode::GetLocal => "GetLocal",
                    _ => "SetLocal",
                };
                let m = local_message(which, &vm.name, arg, vm.stack_offset, n);
                vm.ip = ip + 3;
                proof {
                    reveal_strlit("GetLocal");
                    reveal_strlit("SetLocal");
                }
                return VmAction::Fail(m);
            }
            match op {
                OpCode::GetLocal => {
                    let v = vm.stack[idx].copy();
                    push_value(&mut vm.stack, v);
                },
                _ => {
                    let v = top_value(&vm.stack);
                    proof {
                        lemma_models(vm.stack@.update(idx as int, v));
                    }
                    vm.stack.set(idx, v);
                    assert(models(vm.stack@) =~= s.stack.update(idx as int, top_or_nil(s.stack)));
                },
            }
            vm.ip = ip + 3;
            VmAction::Continue
        },
        OpCode::Jump => {
            if !has16 {
                return VmAction::Delegate(op);
            }
            vm.ip = ip + 3 + arg;
            VmAction::Continue
        },
        OpCode::JumpIfFalse => {
            if !has16 {
                return VmAction::Delegate(op);
            }
            if n == 0 {
                vm.ip = ip + 3;
                return VmAction::Continue;
            }
            match falsy(&vm.stack[n - 1]) {
                Some(f) => {
                    vm.ip = if f { ip + 3 + arg } else { ip + 3 };
                    VmAction::Continue
                },
                None => VmAction::Delegate(op),
            }
        },
        OpCode::BuildArray | OpCode::BuildTuple => {
            if !(has16 && arg <= n) {
                return VmAction::Delegate(op);
            }
            let items = vm.stack.split_off(n - arg);
            proof {
                lemma_models(items@);
                lemma_models(vm.stack@);
                assert(models(items@) =~= s.stack.subrange((n - arg) as int, n as int));
                assert(models(vm.stack@) =~= s.stack.take((n - arg) as int));
            }
            let v = match op {
                OpCode::BuildArray => Value::Array(items),
                _ => Value::Tuple(items),
            };
            push_value(&mut vm.stack, v);
            vm.ip = ip + 3;
            VmAction::Continue
        },
        OpCode::BuildMap => {
            if !(has16 && arg <= n / 2) {
                return VmAction::Delegate(op);
            }
            build_map(vm, arg)
        },
        OpCode::UnpackSequence => {
            if !(has16 && n >= 1) {
                return VmAction::Delegate(op);
            }
            let is_seq = match &vm.stack[n - 1] {
                Value::Array(_) => true,
                Value::Tuple(_) => true,
                _ => false,
            };
            if !is_seq {
                return VmAction::Delegate(op);
            }
            let top = pop_value(&mut vm.stack);
            let items = match top {
                Value::Array(items) => items,
                Value::Tuple(items) => items,
                _ => Vec::new(),
            };
            proof {
                lemma_models(items@);
            }
            vm.ip = ip + 3;
            let got = items.len();
            if got != arg {
                let mut m = if got < arg {
                    string_of("Not enough values to unpack (expected ")
                } else {
                    string_of("Too many values to unpack (expected ")
                };
                push_decimal(&mut m, arg as u64);
                push_str(&mut m, ", got ");
                push_decimal(&mut m, got as u64);
                push_str(&mut m, ")");
                return VmAction::Fail(m);
            }
            push_reversed(&mut vm.stack, &items);
            VmAction::Continue
        },
        OpCode::Loop => {
            if has16 && arg <= ip + 3 {
                vm.ip = ip + 3 - arg;
                VmAction::Continue
            } else {
                VmAction::Delegate(op)
            }
        },
        OpCode::Return => do_return(vm),
        OpCode::Call => do_call(vm),
        OpCode::Div | OpCode::Mod | OpCode::Pow => {
            if n < 2 {
                return VmAction::Delegate(op);
            }
            match int_arith_of(op, &vm.stack[n - 2], &vm.stack[n - 1]) {
                Some(Ok(v)) => {
                    pop_value(&mut vm.stack);
                    pop_value(&mut vm.stack);
                    push_value(&mut vm.stack, v);
                    proof {
                        assert(s.stack.drop_last().drop_last() =~= s.stack.take(n - 2));
                    }
                    vm.ip = ip + 1;
                    VmAction::Continue
                },
                Some(Err(m)) => {
                    pop_value(&mut vm.stack);
                    pop_value(&mut vm.stack);
                    proof {
                        assert(s.stack.drop_last().drop_last() =~= s.stack.take(n - 2));
                    }
                    vm.ip = ip + 1;
                    VmAction::Fail(m)
                },
                None => VmAction::Delegate(op),
            }
        },
        OpCode::IndexGet => {
            if n < 2 {
                return VmAction::Delegate(op);
            }
            match index_get(&vm.stack[n - 2], &vm.stack[n - 1]) {
                Some(Ok(v)) => {
                    pop_value(&mut vm.stack);
                    pop_value(&mut vm.stack);
                    push_value(&mut vm.stack, v);
                    proof {
                        assert(s.stack.drop_last().drop_last() =~= s.stack.take(n - 2));
                    }
                    vm.ip = ip + 1;
                    VmAction::Continue
                },
                Some(Err(m)) => {
                    pop_value(&mut vm.stack);
                    pop_value(&mut vm.stack);
                    proof {
                        assert(s.stack.drop_last().drop_last() =~= s.stack.take(n - 2));
                    }
                    vm.ip = ip + 1;
                    VmAction::Fail(m)
                },
                None => VmAction::Delegate(op),
            }
        },
        _ => VmAction::Delegate(op),
    }
}

/// The machine after the caller performed the instruction at `ip`: its `pops` operands are
/// removed, its result pushed, and the instruction pointer moves past its `width` bytes.
pub open spec fn resume_spec(s: VmView, pops: int, result: ValueView, width: int) -> VmView {
    VmView { ip: s.ip + width, stack: s.stack.take(s.stack.len() - pops).push(result), ..s }
}

/// Completes an instruction that `step` delegated and the caller performed.
pub fn resume(vm: &mut VmState, pops: usize, result: Value, width: usize)
    requires
        old(vm).wf(),
        pops <= old(vm).stack@.len(),
        width <= 3,
        old(vm).ip < old(vm).chunk.code@.len(),
    ensures
        final(vm).wf(),
        final(vm)@ == resume_spec(old(vm)@, pops as int, result@, width as int),
{
    let ghost s = vm@;
    proof {
        lemma_models(vm.stack@);
    }
    let keep = vm.stack.len() - pops;
    vm.stack.truncate(keep);
    proof {
        lemma_models(vm.stack@);
        assert(models(vm.stack@) =~= s.stack.take(keep as int));
    }
    push_value(&mut vm.stack, result);
    vm.ip = vm.ip + width;
}

/// `fuel` steps at most, stopping at the first step that does not continue.
pub open spec fn run_spec(s: VmView, fuel: nat) -> (VmView, ActionView)
    decreases fuel,
{
    let (t, a) = step_spec(s);
    if fuel <= 1 {
        (t, a)
    } else {
        match a {
            ActionView::Continue => run_spec(t, (fuel - 1) as nat),
            _ => (t, a),
        }
    }
}

/// Steps the machine until it stops continuing, at most `fuel` times (at least once); the
/// answer is that of the last step.
pub fn run_steps(vm: &mut VmState, fuel: usize) -> (a: VmAction)
    requires
        old(vm).wf(),
        fuel >= 1,
    ensures
        final(vm).wf(),
        (final(vm)@, a@) == run_spec(old(vm)@, fuel as nat),
{
    let mut left = fuel;
    loop
        invariant
            vm.wf(),
            1 <= left <= fuel,
            run_spec(old(vm)@, fuel as nat) == run_spec(vm@, left as nat),
        decreases left,
    {
        let a = step(vm);
        match a {
            VmAction::Continue => {
                if left == 1 {
                    return a;
                }
                left = left - 1;
            },
            _ => {
                return a;
            },
        }
    }
}

/// A step that neither calls nor returns never changes the program it runs: the function's
/// name, its code and constants, and where its locals start. The frames change only by a
/// return to the innermost one, or by a call that saves the running frame to go on after the
/// call's operand.
pub proof fn lemma_step_keeps_program(s: VmView)
    ensures
        step_spec(s).0.frames == s.frames ==> step_spec(s).0.name == s.name,
        step_spec(s).0.frames == s.frames ==> step_spec(s).0.code == s.code,
        step_spec(s).0.frames == s.frames ==> step_spec(s).0.constants == s.constants,
        step_spec(s).0.frames == s.frames ==> step_spec(s).0.stack_offset == s.stack_offset,
        ({
            let t = step_spec(s).0;
            ||| t.frames == s.frames
            ||| s.frames.len() > 0 && t.frames == s.frames.drop_last()
            ||| t.frames == s.frames.push(
                FrameView {
                    name: s.name,
                    code: s.code,
                    constants: s.constants,
                    ip: s.ip + 2,
                    stack_offset: s.stack_offset,
                },
            )
        }),
{
}

/// A delegated instruction leaves the machine as it was, at that instruction.
pub proof fn lemma_delegate_changes_nothing(s: VmView)
    ensures
        step_spec(s).1 is Delegate ==> step_spec(s).0 == s && s.ip < s.code.len()
            && step_spec(s).1->Delegate_0 == op_of_byte(s.code[s.ip]),
{
}

/// `q` and `r` are the quotient and remainder of `x` by `y` when the quotient is rounded toward
/// zero: `x == q * y + r`, the remainder is smaller than the divisor in size, and it is zero or
/// has the sign of `x`.
pub open spec fn divides_toward_zero(x: int, y: int, q: int, r: int) -> bool {
    &&& x == q * y + r
    &&& (if r < 0 { -r } else { r }) < (if y < 0 { -y } else { y })
    &&& (r == 0 || (r < 0) == (x < 0))
}

pub proof fn lemma_trunc_division(x: int, y: int)
    requires
        y != 0,
    ensures
        divides_toward_zero(x, y, trunc_quot(x, y), trunc_rem(x, y)),
        magnitude(trunc_quot(x, y)) <= magnitude(x),
        magnitude(y) >= 2 ==> 2 * magnitude(trunc_quot(x, y)) <= magnitude(x),
{
    let m = magnitude(x) as int;
    let d = magnitude(y) as int;
    let q0 = m / d;
    let r0 = m % d;
    vstd::arithmetic::div_mod::lemma_fundamental_div_mod(m, d);
    assert(0 <= r0 < d) by (nonlinear_arith)
        requires
            d > 0,
            r0 == m % d,
    ;
    assert(q0 >= 0) by (nonlinear_arith)
        requires
            d > 0,
            m >= 0,
            q0 == m / d,
    ;
    assert(q0 <= m) by (nonlinear_arith)
        requires
            d >= 1,
            m == d * q0 + r0,
            r0 >= 0,
            q0 >= 0,
    ;
    if d >= 2 {
        assert(2 * q0 <= m) by (nonlinear_arith)
            requires
                d >= 2,
                m == d * q0 + r0,
                r0 >= 0,
                q0 >= 0,
        ;
    }
    let q = trunc_quot(x, y);
    let r = trunc_rem(x, y);
    if x >= 0 {
        assert(m == x && r == r0);
        if y > 0 {
            assert(q == q0 && d == y);
            assert(x == q * y + r) by (nonlinear_arith)
                requires
                    m == d * q0 + r0,
                    m == x,
                    r == r0,
                    q == q0,
                    d == y,
            ;
        } else {
            assert(q == -q0 && d == -y);
            assert(x == q * y + r) by (nonlinear_arith)
                requires
                    m == d * q0 + r0,
                    m == x,
                    r == r0,
                    q == -q0,
                    d == -y,
            ;
        }
    } else {
        assert(m == -x && r == -r0);
        if y > 0 {
            assert(q == -q0 && d == y);
            assert(x == q * y + r) by (nonlinear_arith)
                requires
                    m == d * q0 + r0,
                    m == -x,
                    r == -r0,
                    q == -q0,
                    d == y,
            ;
        } else {
            assert(q == q0 && d == -y);
            assert(x == q * y + r) by (nonlinear_arith)
                requires
                    m == d * q0 + r0,
                    m == -x,
                    r == -r0,
                    q == q0,
                    d == -y,
            ;
        }
    }
}

proof fn lemma_int_pow_is_pow(x: int, n: nat)
    ensures
        int_pow(x, n) == vstd::arithmetic::power::pow(x, n),
    decreases n,
{
    reveal(vstd::arithmetic::power::pow);
    if n > 0 {
        lemma_int_pow_is_pow(x, (n - 1) as nat);
    }
}

/// The integer instructions compute what they name. With the integers `x` and `y` on top of
/// the stack (`y` on top), a step pops both and pushes: their sum, difference or product when
/// it fits in `i64` (else the instruction is left to the caller); the truth of `x == y`,
/// `x != y`, `x < y`, `x <= y`, `x > y`, `x >= y`; the quotient and remainder of `x` by `y`
/// rounded toward zero; `x` to the power `y`. Division by zero is left to the caller, and a
/// remainder by zero fails.
pub proof fn lemma_integer_instructions(s: VmView, x: i64, y: i64)
    requires
        0 <= s.ip < s.code.len(),
        s.stack.len() >= 2,
        s.stack[s.stack.len() - 2] == ValueView::Int(x),
        s.stack[s.stack.len() - 1] == ValueView::Int(y),
    ensures
        ({
            let b = s.code[s.ip];
            let rest = s.stack.take(s.stack.len() - 2);
            let gives = |v: ValueView| step_spec(s) == moved(s, s.ip + 1, rest.push(v));
            let top = step_spec(s).0.stack.last();
            &&& b == op_byte(OpCode::Add) ==> if i64::MIN <= x + y <= i64::MAX {
                gives(ValueView::Int((x + y) as i64))
            } else {
                step_spec(s) == delegated(s, OpCode::Add)
            }
            &&& b == op_byte(OpCode::Sub) ==> if i64::MIN <= x - y <= i64::MAX {
                gives(ValueView::Int((x - y) as i64))
            } else {
                step_spec(s) == delegated(s, OpCode::Sub)
            }
            &&& b == op_byte(OpCode::Mul) ==> if i64::MIN <= x * y <= i64::MAX {
                gives(ValueView::Int((x * y) as i64))
            } else {
                step_spec(s) == delegated(s, OpCode::Mul)
            }
            &&& b == op_byte(OpCode::Equal) ==> gives(ValueView::Bool(x == y))
            &&& b == op_byte(OpCode::NotEqual) ==> gives(ValueView::Bool(x != y))
            &&& b == op_byte(OpCode::Less) ==> gives(ValueView::Bool(x < y))
            &&& b == op_byte(OpCode::LessEqual) ==> gives(ValueView::Bool(x <= y))
            &&& b == op_byte(OpCode::Greater) ==> gives(ValueView::Bool(x > y))
            &&& b == op_byte(OpCode::GreaterEqual) ==> gives(ValueView::Bool(x >= y))
            &&& b == op_byte(OpCode::Div) && y != 0 && !(x == i64::MIN && y == -1) ==> (gives(top)
                && (top matches ValueView::Int(q) && divides_toward_zero(x as int, y as int, q as int, x - q * y)))
            &&& b == op_byte(OpCode::Div) && y == 0 ==> step_spec(s) == delegated(s, OpCode::Div)
            &&& b == op_byte(OpCode::Mod) && y != 0 && !(x == i64::MIN && y == -1) ==> (gives(top)
                && (top matches ValueView::Int(r) && divides_toward_zero(x as int, y as int, (x - r) / (y as int), r as int)))
            &&& b == op_byte(OpCode::Mod) && y == 0 ==> step_spec(s) == (
                VmView { ip: s.ip + 1, stack: rest, ..s },
                ActionView::Fail("Modulo by zero"@),
            )
            &&& b == op_byte(OpCode::Pow) && 0 <= y < 0x1_0000_0000 && i64::MIN
                <= vstd::arithmetic::power::pow(x as int, y as nat) <= i64::MAX ==> gives(
                ValueView::Int(vstd::arithmetic::power::pow(x as int, y as nat) as i64),
            )
        }),
{
    let b = s.code[s.ip];
    if b < OPCODE_COUNT {
        crate::bytecode::lemma_byte_op_roundtrip(b);
    }
    lemma_op_byte_roundtrip(OpCode::Add);
    lemma_op_byte_roundtrip(OpCode::Sub);
    lemma_op_byte_roundtrip(OpCode::Mul);
    lemma_op_byte_roundtrip(OpCode::Equal);
    lemma_op_byte_roundtrip(OpCode::NotEqual);
    lemma_op_byte_roundtrip(OpCode::Less);
    lemma_op_byte_roundtrip(OpCode::LessEqual);
    lemma_op_byte_roundtrip(OpCode::Greater);
    lemma_op_byte_roundtrip(OpCode::GreaterEqual);
    lemma_op_byte_roundtrip(OpCode::Div);
    lemma_op_byte_roundtrip(OpCode::Mod);
    lemma_op_byte_roundtrip(OpCode::Pow);
    let n = s.stack.len();
    let rest = s.stack.take(n - 2);
    if y != 0 {
        lemma_trunc_division(x as int, y as int);
        let q = trunc_quot(x as int, y as int);
        let r = trunc_rem(x as int, y as int);
        if !(x == i64::MIN && y == -1) {
            assert(i64::MIN <= q <= i64::MAX) by {
                if magnitude(y as int) == 1 {
                    assert(magnitude(q) <= magnitude(x as int));
                    if q == 0x8000_0000_0000_0000 {
                        assert((x < 0) == (y < 0));
                        assert(x == i64::MIN);
                    }
                }
            }
            assert(i64::MIN <= r <= i64::MAX);
            if b == op_byte(OpCode::Div) {
                assert(x - (q as i64) * y == r);
                assert(step_spec(s) == moved(s, s.ip + 1, rest.push(ValueView::Int(q as i64))));
            }
            if b == op_byte(OpCode::Mod) {
                assert(x - r == q * y);
                assert((x - r) / (y as int) == q) by (nonlinear_arith)
                    requires
                        x - r == q * y,
                        y != 0,
                ;
                assert(step_spec(s) == moved(s, s.ip + 1, rest.push(ValueView::Int(r as i64))));
            }
        }
    }
    if b == op_byte(OpCode::Pow) && 0 <= y < 0x1_0000_0000 {
        lemma_int_pow_is_pow(x as int, y as nat);
        assert((y as int % 0x1_0000_0000) == y);
    }
}

/// Text comparisons order texts by their characters (`lex_lt`): with the texts `a` and `b` on
/// top of the stack (`b` on top), a step pops both and pushes the truth of `a == b`, `a != b`,
/// `a` before `b`, `a` before or equal to `b`, `b` before `a`, `b` before or equal to `a`.
pub proof fn lemma_text_instructions(s: VmView, a: Seq<char>, b: Seq<char>)
    requires
        0 <= s.ip < s.code.len(),
        s.stack.len() >= 2,
        s.stack[s.stack.len() - 2] == ValueView::String(a),
        s.stack[s.stack.len() - 1] == ValueView::String(b),
    ensures
        ({
            let op = s.code[s.ip];
            let rest = s.stack.take(s.stack.len() - 2);
            let gives = |v: bool| step_spec(s) == moved(s, s.ip + 1, rest.push(ValueView::Bool(v)));
            &&& op == op_byte(OpCode::Equal) ==> gives(a == b)
            &&& op == op_byte(OpCode::NotEqual) ==> gives(a != b)
            &&& op == op_byte(OpCode::Less) ==> gives(lex_lt(a, b))
            &&& op == op_byte(OpCode::LessEqual) ==> gives(lex_lt(a, b) || a == b)
            &&& op == op_byte(OpCode::Greater) ==> gives(lex_lt(b, a))
            &&& op == op_byte(OpCode::GreaterEqual) ==> gives(lex_lt(b, a) || a == b)
        }),
{
    let op = s.code[s.ip];
    if op < OPCODE_COUNT {
        crate::bytecode::lemma_byte_op_roundtrip(op);
    }
    lemma_op_byte_roundtrip(OpCode::Equal);
    lemma_op_byte_roundtrip(OpCode::NotEqual);
    lemma_op_byte_roundtrip(OpCode::Less);
    lemma_op_byte_roundtrip(OpCode::LessEqual);
    lemma_op_byte_roundtrip(OpCode::Greater);
    lemma_op_byte_roundtrip(OpCode::GreaterEqual);
    crate::strsort::lemma_lex_total(a, b);
    crate::strsort::lemma_lex_asymmetric(a, b);
    crate::strsort::lemma_lex_irreflexive(a);
}

proof fn lemma_u16_value(hi: u8, lo: u8)
    ensures
        u16_be(hi, lo) as int == hi as int * 256 + lo as int,
{
    assert(u16_be(hi, lo) == hi as u16 * 256 + lo as u16) by (bit_vector);
}

/// What the stack, local and jump instructions do. `Nil`, `True`, `False` push that value;
/// `Pop` drops the top and `Dup` repeats it; `Constant k` pushes constant `k`; `GetLocal k`
/// pushes the local at `k` slots past the frame's start and `SetLocal k` stores the top there,
/// leaving it on the stack; `Jump k` goes on `k` bytes past its operand, `Loop k` goes back `k`
/// bytes from there; `JumpIfFalse k` jumps where the top is `false` or nil, goes on where it is
/// `true`, and leaves the condition on the stack; `Not` flips a boolean and `Negate` negates an
/// integer; `IndexGet` on a list and an integer index gives the item at that index, counted
/// from the end when negative. The 16-bit operand `k` is written high byte first.
pub proof fn lemma_stack_and_jump_instructions(s: VmView)
    requires
        0 <= s.ip < s.code.len(),
        0 <= s.stack_offset,
    ensures
        ({
            let op = s.code[s.ip];
            let n = s.stack.len();
            let has = s.ip + 2 < s.code.len();
            let k = if has { s.code[s.ip + 1] as int * 256 + s.code[s.ip + 2] as int } else { 0 };
            let slot = s.stack_offset + k;
            let go = |ip: int, st: Seq<ValueView>| step_spec(s) == (VmView { ip, stack: st, ..s }, ActionView::Continue);
            &&& op == op_byte(OpCode::Nil) ==> go(s.ip + 1, s.stack.push(ValueView::Nil))
            &&& op == op_byte(OpCode::True) ==> go(s.ip + 1, s.stack.push(ValueView::Bool(true)))
            &&& op == op_byte(OpCode::False) ==> go(s.ip + 1, s.stack.push(ValueView::Bool(false)))
            &&& op == op_byte(OpCode::Pop) && n > 0 ==> go(s.ip + 1, s.stack.drop_last())
            &&& op == op_byte(OpCode::Dup) && n > 0 ==> go(s.ip + 1, s.stack.push(s.stack.last()))
            &&& op == op_byte(OpCode::Constant) && has && k < s.constants.len() ==> go(
                s.ip + 3,
                s.stack.push(s.constants[k]),
            )
            &&& op == op_byte(OpCode::GetLocal) && has && slot < n ==> go(s.ip + 3, s.stack.push(s.stack[slot]))
            &&& op == op_byte(OpCode::SetLocal) && has && slot < n ==> go(
                s.ip + 3,
                s.stack.update(slot, s.stack.last()),
            )
            &&& op == op_byte(OpCode::Jump) && has ==> go(s.ip + 3 + k, s.stack)
            &&& op == op_byte(OpCode::Loop) && has && k <= s.ip + 3 ==> go(s.ip + 3 - k, s.stack)
            &&& op == op_byte(OpCode::JumpIfFalse) && has && n > 0 && (s.stack.last() == ValueView::Bool(false)
                || s.stack.last() == ValueView::Nil) ==> go(s.ip + 3 + k, s.stack)
            &&& op == op_byte(OpCode::JumpIfFalse) && has && n > 0 && s.stack.last() == ValueView::Bool(true)
                ==> go(s.ip + 3, s.stack)
            &&& op == op_byte(OpCode::Not) && n > 0 && s.stack.last() is Bool ==> go(
                s.ip + 1,
                s.stack.drop_last().push(ValueView::Bool(!s.stack.last()->Bool_0)),
            )
            &&& op == op_byte(OpCode::Negate) && n > 0 && s.stack.last() is Int && s.stack.last()->Int_0
                != i64::MIN ==> go(
                s.ip + 1,
                s.stack.drop_last().push(ValueView::Int((-s.stack.last()->Int_0) as i64)),
            )
            &&& op == op_byte(OpCode::IndexGet) && n >= 2 && s.stack[n - 2] is Array && s.stack[n - 1] is Int
                ==> ({
                let items = s.stack[n - 2]->Array_0;
                let i = s.stack[n - 1]->Int_0;
                &&& 0 <= i < items.len() ==> go(s.ip + 1, s.stack.take(n - 2).push(items[i as int]))
                &&& -items.len() <= i < 0 ==> go(s.ip + 1, s.stack.take(n - 2).push(items[items.len() + i]))
            })
        }),
{
    let op = s.code[s.ip];
    if op < OPCODE_COUNT {
        crate::bytecode::lemma_byte_op_roundtrip(op);
    }
    if s.ip + 2 < s.code.len() {
        lemma_u16_value(s.code[s.ip + 1], s.code[s.ip + 2]);
    }
    lemma_op_byte_roundtrip(OpCode::Nil);
    lemma_op_byte_roundtrip(OpCode::True);
    lemma_op_byte_roundtrip(OpCode::False);
    lemma_op_byte_roundtrip(OpCode::Pop);
    lemma_op_byte_roundtrip(OpCode::Dup);
    lemma_op_byte_roundtrip(OpCode::Constant);
    lemma_op_byte_roundtrip(OpCode::GetLocal);
    lemma_op_byte_roundtrip(OpCode::SetLocal);
    lemma_op_byte_roundtrip(OpCode::Jump);
    lemma_op_byte_roundtrip(OpCode::Loop);
    lemma_op_byte_roundtrip(OpCode::JumpIfFalse);
    lemma_op_byte_roundtrip(OpCode::Not);
    lemma_op_byte_roundtrip(OpCode::Negate);
    lemma_op_byte_roundtrip(OpCode::IndexGet);
}

/// What `Return` does: the value on top of the stack (nil when it is empty) is the result; the
/// frame's stack, from the slot where its locals start, is dropped. With no caller the run ends
/// with the result; else the caller goes on where it stopped, with the result on top of the
/// stack it had below the frame's start.
pub proof fn lemma_return_instruction(s: VmView)
    requires
        0 <= s.ip < s.code.len(),
        0 <= s.stack_offset < s.stack.len(),
        s.code[s.ip] == op_byte(OpCode::Return),
    ensures
        ({
            let result = s.stack.last();
            let below = s.stack.take(s.stack_offset);
            let (t, a) = step_spec(s);
            &&& s.frames.len() == 0 ==> a == ActionView::Done(result) && t.stack == below
            &&& s.frames.len() > 0 ==> ({
                let caller = s.frames.last();
                &&& a == ActionView::Continue
                &&& t.stack == below.push(result)
                &&& t.name == caller.name && t.code == caller.code && t.constants == caller.constants
                &&& t.ip == caller.ip && t.stack_offset == caller.stack_offset
                &&& t.frames == s.frames.drop_last()
                &&& t.globals == s.globals
            })
        }),
{
    lemma_op_byte_roundtrip(OpCode::Return);
    assert(s.stack.drop_last().take(s.stack_offset) =~= s.stack.take(s.stack_offset));
}

/// Booleans and nils compare by equality: with two booleans, or two nils, on top of the stack,
/// `Equal` pushes whether they are equal and `NotEqual` whether they differ.
pub proof fn lemma_equality_of_booleans_and_nil(s: VmView)
    requires
        0 <= s.ip < s.code.len(),
        s.stack.len() >= 2,
        (s.stack[s.stack.len() - 2] is Bool && s.stack[s.stack.len() - 1] is Bool) || (s.stack[s.stack.len() - 2]
            is Nil && s.stack[s.stack.len() - 1] is Nil),
    ensures
        ({
            let n = s.stack.len();
            let same = s.stack[n - 2] == s.stack[n - 1];
            let rest = s.stack.take(n - 2);
            &&& s.code[s.ip] == op_byte(OpCode::Equal) ==> step_spec(s) == moved(s, s.ip + 1, rest.push(ValueView::Bool(same)))
            &&& s.code[s.ip] == op_byte(OpCode::NotEqual) ==> step_spec(s) == moved(s, s.ip + 1, rest.push(ValueView::Bool(!same)))
        }),
{
    let op = s.code[s.ip];
    if op < OPCODE_COUNT {
        crate::bytecode::lemma_byte_op_roundtrip(op);
    }
    lemma_op_byte_roundtrip(OpCode::Equal);
    lemma_op_byte_roundtrip(OpCode::NotEqual);
}

/// What the container, global and call instructions do, for an operand `k` written high byte
/// first. `BuildArray k` and `BuildTuple k` replace the top `k` values by one list or tuple of
/// them, in stack order. `UnpackSequence k` replaces a list or tuple of `k` items by the items,
/// the first on top. `DefineGlobal` and `SetGlobal` with a name constant bind the name to the
/// top value (`DefineGlobal` pops it); `GetGlobal` pushes the value bound to the name, and fails
/// with "Undefined variable" when there is none. `Call` with `m` arguments of a function that
/// takes exactly `m` enters it: its code runs from the start, its locals start at the callee,
/// and the caller waits to go on after the call's operand.
pub proof fn lemma_container_global_call_instructions(s: VmView)
    requires
        0 <= s.ip < s.code.len(),
    ensures
        ({
            let op = s.code[s.ip];
            let n = s.stack.len() as int;
            let has = s.ip + 2 < s.code.len();
            let k = if has { s.code[s.ip + 1] as int * 256 + s.code[s.ip + 2] as int } else { 0 };
            let go = |ip: int, st: Seq<ValueView>| step_spec(s) == (VmView { ip, stack: st, ..s }, ActionView::Continue);
            let name_const = has && k < s.constants.len() && s.constants[k] is String;
            let name = s.constants[k]->String_0;
            &&& op == op_byte(OpCode::BuildArray) && has && k <= n ==> go(
                s.ip + 3,
                s.stack.take(n - k).push(ValueView::Array(s.stack.subrange(n - k, n))),
            )
            &&& op == op_byte(OpCode::BuildTuple) && has && k <= n ==> go(
                s.ip + 3,
                s.stack.take(n - k).push(ValueView::Tuple(s.stack.subrange(n - k, n))),
            )
            &&& op == op_byte(OpCode::UnpackSequence) && has && n >= 1 && (s.stack.last() is Array || s.stack.last() is Tuple)
                ==> ({
                let items = if s.stack.last() is Array { s.stack.last()->Array_0 } else { s.stack.last()->Tuple_0 };
                items.len() == k ==> ({
                    let t = step_spec(s).0;
                    &&& step_spec(s).1 == ActionView::Continue
                    &&& t.ip == s.ip + 3
                    &&& t.stack.len() == n - 1 + k
                    &&& t.stack.take(n - 1) == s.stack.drop_last()
                    &&& forall|j: int| 0 <= j < k ==> #[trigger] t.stack[n - 1 + j] == items[k - 1 - j]
                })
            })
            &&& op == op_byte(OpCode::DefineGlobal) && name_const && n >= 1 ==> step_spec(s) == (
                VmView { ip: s.ip + 3, stack: s.stack.drop_last(), globals: s.globals.insert(name, s.stack.last()), ..s },
                ActionView::Continue,
            )
            &&& op == op_byte(OpCode::SetGlobal) && name_const && n >= 1 ==> step_spec(s) == (
                VmView { ip: s.ip + 3, globals: s.globals.insert(name, s.stack.last()), ..s },
                ActionView::Continue,
            )
            &&& op == op_byte(OpCode::GetGlobal) && name_const && s.globals.dom().contains(name) ==> go(
                s.ip + 3,
                s.stack.push(s.globals[name]),
            )
            &&& op == op_byte(OpCode::GetGlobal) && name_const && !s.globals.dom().contains(name) ==> step_spec(s)
                == (VmView { ip: s.ip + 3, ..s }, ActionView::Fail("Undefined variable '"@ + name + "'"@))
            &&& op == op_byte(OpCode::Call) && s.ip + 1 < s.code.len() && (s.code[s.ip + 1] as int) < n
                ==> ({
                let m = s.code[s.ip + 1] as int;
                let callee = s.stack[n - 1 - m];
                callee is Function && callee->Function_0.arity == m && callee->Function_0.max_arity == m
                    && !callee->Function_0.has_varargs && !callee->Function_0.has_kwargs && callee->Function_0.code.len()
                    + 0x20010 <= usize::MAX && n - 1 - m + 0x10000 <= usize::MAX ==> ({
                    let f = callee->Function_0;
                    let t = step_spec(s).0;
                    &&& step_spec(s).1 == ActionView::Continue
                    &&& t.name == f.name && t.code == f.code && t.constants == f.constants
                    &&& t.ip == 0 && t.stack == s.stack && t.stack_offset == n - 1 - m
                    &&& t.frames == s.frames.push(
                        FrameView { name: s.name, code: s.code, constants: s.constants, ip: s.ip + 2, stack_offset: s.stack_offset },
                    )
                    &&& t.globals == s.globals
                })
            })
        }),
{
    let op = s.code[s.ip];
    if op < OPCODE_COUNT {
        crate::bytecode::lemma_byte_op_roundtrip(op);
    }
    if s.ip + 2 < s.code.len() {
        lemma_u16_value(s.code[s.ip + 1], s.code[s.ip + 2]);
    }
    lemma_op_byte_roundtrip(OpCode::BuildArray);
    lemma_op_byte_roundtrip(OpCode::BuildTuple);
    lemma_op_byte_roundtrip(OpCode::UnpackSequence);
    lemma_op_byte_roundtrip(OpCode::DefineGlobal);
    lemma_op_byte_roundtrip(OpCode::SetGlobal);
    lemma_op_byte_roundtrip(OpCode::GetGlobal);
    lemma_op_byte_roundtrip(OpCode::Call);
}

} // verus!
