use vstd::prelude::*;

use crate::ast::names_model;
use crate::bytecode::{chunk_well_formed, first_index, function_ok, jump_ok, operands_ok, Scope, Chunk, ChunkModel, Constant, ConstantModel, OpCode};

verus! {

/// An error raised while running a chunk.
#[derive(Debug, PartialEq, Eq)]
pub struct VmError {
    pub message: String,
}

impl View for VmError {
    type V = Seq<char>;

    open spec fn view(&self) -> Seq<char> {
        self.message@
    }
}

/// A number at run time: the bits of its IEEE 754 binary64 encoding and the
/// text it prints as. The machine only moves numbers around; whoever computes
/// with them (see `Action`) makes both parts.
#[derive(Debug)]
pub struct Number {
    pub bits: u64,
    pub text: String,
}

pub struct NumberView {
    pub bits: u64,
    pub text: Seq<char>,
}

impl View for Number {
    type V = NumberView;

    open spec fn view(&self) -> NumberView {
        NumberView { bits: self.bits, text: self.text@ }
    }
}

/// A value on the stack, in a variable or in a frame.
#[derive(Debug)]
pub enum Value {
    Number(Number),
    String(String),
    Boolean(bool),
    Void,
}

pub enum ValueModel {
    Number(NumberView),
    Str(Seq<char>),
    Boolean(bool),
    Void,
}

impl View for Value {
    type V = ValueModel;

    open spec fn view(&self) -> ValueModel {
        match self {
            Value::Number(n) => ValueModel::Number(n@),
            Value::String(s) => ValueModel::Str(s@),
            Value::Boolean(b) => ValueModel::Boolean(*b),
            Value::Void => ValueModel::Void,
        }
    }
}

pub open spec fn values_view(vs: Seq<Value>) -> Seq<ValueModel> {
    vs.map_values(|v: Value| v@)
}

/// How a value is printed.
pub open spec fn value_text(v: ValueModel) -> Seq<char> {
    match v {
        ValueModel::Number(n) => n.text,
        ValueModel::Str(s) => s,
        ValueModel::Boolean(b) => if b {
            "true"@
        } else {
            "false"@
        },
        ValueModel::Void => "void"@,
    }
}

impl Number {
    pub fn duplicate(&self) -> (n: Number)
        ensures
            n@ == self@,
    {
        Number { bits: self.bits, text: self.text.clone() }
    }
}

impl Value {
    /// The text the value prints as.
    pub fn text(&self) -> (s: String)
        ensures
            s@ == value_text(self@),
    {
        match self {
            Value::Number(n) => n.text.clone(),
            Value::String(s) => s.clone(),
            Value::Boolean(b) => if *b {
                String::from_str("true")
            } else {
                String::from_str("false")
            },
            Value::Void => String::from_str("void"),
        }
    }

    /// A copy of the value.
    pub fn duplicate(&self) -> (v: Value)
        ensures
            v@ == self@,
    {
        match self {
            Value::Number(n) => Value::Number(n.duplicate()),
            Value::String(s) => Value::String(s.clone()),
            Value::Boolean(b) => Value::Boolean(*b),
            Value::Void => Value::Void,
        }
    }
}

// ---------------------------------------------------------------------------
// The machine, as a function from a state to the next state and what the
// step asks of the driver.
// ---------------------------------------------------------------------------

/// A call in progress: the function, the position of its next instruction,
/// and its local variables (parameters first).
pub struct FrameModel {
    pub function_index: nat,
    pub ip: nat,
    pub locals: Seq<ValueModel>,
}

/// The machine state: the value stack, the global variables (each name once,
/// in the order they were first stored), the position of the next top-level
/// instruction, the calls in progress (innermost last), the lines printed so
/// far, and whether the program has finished.
pub struct VmModel {
    pub stack: Seq<ValueModel>,
    pub globals: Seq<(Seq<char>, ValueModel)>,
    pub ip: nat,
    pub frames: Seq<FrameModel>,
    pub output: Seq<Seq<char>>,
    pub halted: bool,
}

/// What a step leaves to the driver. After `ReadNumber`, `Negate` and
/// `Numeric` the driver computes with numbers and pushes the result: the
/// number the digits denote, the negated number, or for `Numeric` the
/// number (arithmetic) or bool (comparison, equality) that the operation
/// gives on the left and right operands.
pub enum ActionModel {
    Continue,
    Finished,
    Failed(Seq<char>),
    Printed(Seq<char>),
    ReadNumber(Seq<char>),
    Negate(NumberView),
    Numeric(OpCode, NumberView, NumberView),
}

pub open spec fn initial_state() -> VmModel {
    VmModel {
        stack: Seq::empty(),
        globals: Seq::empty(),
        ip: 0,
        frames: Seq::empty(),
        output: Seq::empty(),
        halted: false,
    }
}

/// A chunk the machine can run: no function has more parameters than locals.
pub open spec fn runnable(chunk: ChunkModel) -> bool {
    forall|i: int|
        0 <= i < chunk.functions.len() ==> #[trigger] chunk.functions[i].arity
            <= chunk.functions[i].local_names.len()
}

/// The function called by `op`, when it is a call to an existing function,
/// has at least as many locals as parameters.
pub open spec fn call_fits(chunk: ChunkModel, op: OpCode) -> bool {
    match op {
        OpCode::Call(i) => i < chunk.functions.len() ==> chunk.functions[i as int].arity
            <= chunk.functions[i as int].local_names.len(),
        _ => true,
    }
}

/// The next instruction, if the program goes on, is not a call of a function
/// with more parameters than locals (such a call would index past the
/// callee's locals).
pub open spec fn next_call_fits(vm: VmModel, chunk: ChunkModel) -> bool {
    (vm.halted || (vm.ip >= chunk.code.len() && vm.frames.len() == 0)) || match fetch(vm, chunk) {
        Ok((_, op)) => call_fits(chunk, op),
        Err(_) => true,
    }
}

pub open spec fn global_names(gs: Seq<(Seq<char>, ValueModel)>) -> Seq<Seq<char>> {
    gs.map_values(|g: (Seq<char>, ValueModel)| g.0)
}

pub open spec fn lookup_global(gs: Seq<(Seq<char>, ValueModel)>, name: Seq<char>) -> Option<ValueModel> {
    match first_index(global_names(gs), name) {
        Some(i) => Some(gs[i as int].1),
        None => None,
    }
}

/// The globals after storing `v` under `name`: replaced where the name is
/// already there, else added at the end.
pub open spec fn store_global(gs: Seq<(Seq<char>, ValueModel)>, name: Seq<char>, v: ValueModel) -> Seq<
    (Seq<char>, ValueModel),
> {
    match first_index(global_names(gs), name) {
        Some(i) => gs.update(i as int, (name, v)),
        None => gs.push((name, v)),
    }
}

pub open spec fn proceed(vm: VmModel) -> (VmModel, ActionModel) {
    (vm, ActionModel::Continue)
}

pub open spec fn failed(vm: VmModel, message: Seq<char>) -> (VmModel, ActionModel) {
    (vm, ActionModel::Failed(message))
}

pub open spec fn push_value(vm: VmModel, v: ValueModel) -> VmModel {
    VmModel { stack: vm.stack.push(v), ..vm }
}

/// The top of the stack, and the state without it.
pub open spec fn pop_value(vm: VmModel) -> Option<(ValueModel, VmModel)> {
    if vm.stack.len() > 0 {
        Some((vm.stack.last(), VmModel { stack: vm.stack.drop_last(), ..vm }))
    } else {
        None
    }
}

/// The two operands of a binary instruction (left, right) and the state
/// without them; with fewer than two values the stack is left empty.
pub open spec fn operands(vm: VmModel) -> Result<(ValueModel, ValueModel, VmModel), VmModel> {
    let n = vm.stack.len();
    if n >= 2 {
        Ok((vm.stack[n - 2], vm.stack[n - 1], VmModel { stack: vm.stack.subrange(0, n - 2), ..vm }))
    } else {
        Err(VmModel { stack: Seq::empty(), ..vm })
    }
}

/// The state with the innermost frame replaced.
pub open spec fn set_frame(vm: VmModel, f: FrameModel) -> VmModel {
    VmModel { frames: vm.frames.update(vm.frames.len() - 1, f), ..vm }
}

/// The next instruction, and the state with its position advanced.
pub open spec fn fetch(vm: VmModel, chunk: ChunkModel) -> Result<(VmModel, OpCode), Seq<char>> {
    if vm.frames.len() == 0 {
        if vm.ip < chunk.code.len() {
            Ok((VmModel { ip: vm.ip + 1, ..vm }, chunk.code[vm.ip as int]))
        } else {
            Err("instruction pointer escaped program"@)
        }
    } else {
        let f = vm.frames.last();
        if f.function_index >= chunk.functions.len() {
            Err("invalid function index"@)
        } else if f.ip >= chunk.functions[f.function_index as int].code.len() {
            Err("instruction pointer escaped function"@)
        } else {
            Ok(
                (
                    set_frame(vm, FrameModel { ip: f.ip + 1, ..f }),
                    chunk.functions[f.function_index as int].code[f.ip as int],
                ),
            )
        }
    }
}

/// The constant `i` of the code being run.
pub open spec fn current_constant(vm: VmModel, chunk: ChunkModel, i: nat) -> Result<ConstantModel, Seq<char>> {
    if vm.frames.len() > 0 {
        let fi = vm.frames.last().function_index;
        if fi < chunk.functions.len() && i < chunk.functions[fi as int].constants.len() {
            Ok(chunk.functions[fi as int].constants[i as int])
        } else {
            Err("invalid function constant index"@)
        }
    } else if i < chunk.constants.len() {
        Ok(chunk.constants[i as int])
    } else {
        Err("invalid constant index"@)
    }
}

/// The length of the code being run.
pub open spec fn code_len(vm: VmModel, chunk: ChunkModel) -> nat {
    if vm.frames.len() > 0 && vm.frames.last().function_index < chunk.functions.len() {
        chunk.functions[vm.frames.last().function_index as int].code.len()
    } else {
        chunk.code.len()
    }
}

pub open spec fn jump(vm: VmModel, chunk: ChunkModel, target: nat) -> (VmModel, ActionModel) {
    if target >= code_len(vm, chunk) {
        failed(vm, "jump target is outside bytecode"@)
    } else if vm.frames.len() > 0 {
        proceed(set_frame(vm, FrameModel { ip: target, ..vm.frames.last() }))
    } else {
        proceed(VmModel { ip: target, ..vm })
    }
}

/// A call: the arguments leave the stack and start the locals of a new frame;
/// the other locals start as void.
pub open spec fn call(vm: VmModel, chunk: ChunkModel, i: nat) -> (VmModel, ActionModel) {
    if i >= chunk.functions.len() {
        failed(vm, "invalid function index"@)
    } else {
        let f = chunk.functions[i as int];
        let n = vm.stack.len();
        if n < f.arity {
            failed(vm, "not enough arguments for function call"@)
        } else {
            let k = n - f.arity;
            let locals = vm.stack.subrange(k, n as int) + Seq::new(
                (f.local_names.len() - f.arity) as nat,
                |j: int| ValueModel::Void,
            );
            proceed(
                VmModel {
                    stack: vm.stack.subrange(0, k),
                    frames: vm.frames.push(FrameModel { function_index: i, ip: 0, locals }),
                    ..vm
                },
            )
        }
    }
}

pub open spec fn numeric(vm: VmModel, op: OpCode, message: Seq<char>) -> (VmModel, ActionModel) {
    match operands(vm) {
        Ok((ValueModel::Number(a), ValueModel::Number(b), v1)) => (v1, ActionModel::Numeric(op, a, b)),
        Ok((l, r, v1)) => failed(v1, message + value_text(l) + " and "@ + value_text(r)),
        Err(v1) => failed(v1, "stack underflow"@),
    }
}

/// Whether two values other than two numbers are equal.
pub open spec fn same_value(l: ValueModel, r: ValueModel) -> bool {
    match (l, r) {
        (ValueModel::Str(a), ValueModel::Str(b)) => a == b,
        (ValueModel::Boolean(a), ValueModel::Boolean(b)) => a == b,
        (ValueModel::Void, ValueModel::Void) => true,
        _ => false,
    }
}

pub open spec fn equality(vm: VmModel, op: OpCode) -> (VmModel, ActionModel) {
    match operands(vm) {
        Ok((ValueModel::Number(a), ValueModel::Number(b), v1)) => (v1, ActionModel::Numeric(op, a, b)),
        Ok((l, r, v1)) => proceed(
            push_value(
                v1,
                ValueModel::Boolean(
                    if op == OpCode::Equal {
                        same_value(l, r)
                    } else {
                        !same_value(l, r)
                    },
                ),
            ),
        ),
        Err(v1) => failed(v1, "stack underflow"@),
    }
}

pub open spec fn logical(vm: VmModel, op: OpCode) -> (VmModel, ActionModel) {
    match operands(vm) {
        Ok((ValueModel::Boolean(a), ValueModel::Boolean(b), v1)) => proceed(
            push_value(
                v1,
                ValueModel::Boolean(
                    if op == OpCode::And {
                        a && b
                    } else {
                        a || b
                    },
                ),
            ),
        ),
        Ok((l, r, v1)) => failed(
            v1,
            "logical operators require bools, got "@ + value_text(l) + " and "@ + value_text(r),
        ),
        Err(v1) => failed(v1, "stack underflow"@),
    }
}

pub open spec fn load_global(vm: VmModel, chunk: ChunkModel, i: nat) -> (VmModel, ActionModel) {
    if i < chunk.names.len() {
        let name = chunk.names[i as int];
        match lookup_global(vm.globals, name) {
            Some(v) => proceed(push_value(vm, v)),
            None => failed(vm, "undefined runtime variable '"@ + name + "'"@),
        }
    } else {
        failed(vm, "invalid global name index"@)
    }
}

pub open spec fn store_global_op(vm: VmModel, chunk: ChunkModel, i: nat) -> (VmModel, ActionModel) {
    if i < chunk.names.len() {
        match pop_value(vm) {
            Some((v, v1)) => proceed(VmModel { globals: store_global(v1.globals, chunk.names[i as int], v), ..v1 }),
            None => failed(vm, "stack underflow"@),
        }
    } else {
        failed(vm, "invalid global name index"@)
    }
}

pub open spec fn load_local(vm: VmModel, i: nat) -> (VmModel, ActionModel) {
    if vm.frames.len() > 0 && i < vm.frames.last().locals.len() {
        proceed(push_value(vm, vm.frames.last().locals[i as int]))
    } else {
        failed(vm, "invalid local variable index"@)
    }
}

pub open spec fn store_local(vm: VmModel, i: nat) -> (VmModel, ActionModel) {
    match pop_value(vm) {
        Some((v, v1)) => if v1.frames.len() == 0 {
            failed(v1, "local variable outside function"@)
        } else if i < v1.frames.last().locals.len() {
            let f = v1.frames.last();
            proceed(set_frame(v1, FrameModel { locals: f.locals.update(i as int, v), ..f }))
        } else {
            failed(v1, "invalid local variable index"@)
        },
        None => failed(vm, "stack underflow"@),
    }
}

pub open spec fn load_constant(vm: VmModel, chunk: ChunkModel, i: nat) -> (VmModel, ActionModel) {
    match current_constant(vm, chunk, i) {
        Ok(ConstantModel::Number(digits)) => (vm, ActionModel::ReadNumber(digits)),
        Ok(ConstantModel::Str(s)) => proceed(push_value(vm, ValueModel::Str(s))),
        Ok(ConstantModel::Boolean(b)) => proceed(push_value(vm, ValueModel::Boolean(b))),
        Ok(ConstantModel::Void) => proceed(push_value(vm, ValueModel::Void)),
        Err(m) => failed(vm, m),
    }
}

/// Instructions that take one value off the stack.
pub open spec fn unary(vm: VmModel, chunk: ChunkModel, op: OpCode) -> (VmModel, ActionModel) {
    match pop_value(vm) {
        None => failed(vm, "stack underflow"@),
        Some((v, v1)) => match op {
            OpCode::Negate => match v {
                ValueModel::Number(n) => (v1, ActionModel::Negate(n)),
                _ => failed(v1, "cannot negate "@ + value_text(v)),
            },
            OpCode::Not => match v {
                ValueModel::Boolean(b) => proceed(push_value(v1, ValueModel::Boolean(!b))),
                _ => failed(v1, "cannot apply '!' to "@ + value_text(v)),
            },
            OpCode::JumpIfFalse(t) => match v {
                ValueModel::Boolean(false) => jump(v1, chunk, t as nat),
                ValueModel::Boolean(true) => proceed(v1),
                _ => failed(v1, "expected bool in conditional, got "@ + value_text(v)),
            },
            OpCode::Print => (
                VmModel { output: v1.output.push(value_text(v)), ..v1 },
                ActionModel::Printed(value_text(v)),
            ),
            OpCode::Return => if v1.frames.len() == 0 {
                failed(v1, "return executed outside function"@)
            } else {
                proceed(VmModel { frames: v1.frames.drop_last(), stack: v1.stack.push(v), ..v1 })
            },
            _ => proceed(v1),
        },
    }
}

/// Executing one fetched instruction.
pub open spec fn execute(vm: VmModel, chunk: ChunkModel, op: OpCode) -> (VmModel, ActionModel) {
    match op {
        OpCode::Constant(i) => load_constant(vm, chunk, i as nat),
        OpCode::LoadGlobal(i) => load_global(vm, chunk, i as nat),
        OpCode::StoreGlobal(i) => store_global_op(vm, chunk, i as nat),
        OpCode::LoadLocal(i) => load_local(vm, i as nat),
        OpCode::StoreLocal(i) => store_local(vm, i as nat),
        OpCode::Add | OpCode::Subtract | OpCode::Multiply | OpCode::Divide | OpCode::Modulo => numeric(
            vm,
            op,
            "arithmetic requires numbers, got "@,
        ),
        OpCode::Less | OpCode::LessEqual | OpCode::Greater | OpCode::GreaterEqual => numeric(
            vm,
            op,
            "comparison requires numbers, got "@,
        ),
        OpCode::Equal | OpCode::NotEqual => equality(vm, op),
        OpCode::And | OpCode::Or => logical(vm, op),
        OpCode::Jump(t) => jump(vm, chunk, t as nat),
        OpCode::Call(i) => call(vm, chunk, i as nat),
        OpCode::Halt => (VmModel { halted: true, ..vm }, ActionModel::Finished),
        _ => unary(vm, chunk, op),
    }
}

/// One step: the program has finished once it halted or ran off the end of
/// the top-level code with no call in progress; otherwise the next
/// instruction is fetched and executed.
pub open spec fn step(vm: VmModel, chunk: ChunkModel) -> (VmModel, ActionModel) {
    if vm.halted || (vm.ip >= chunk.code.len() && vm.frames.len() == 0) {
        (VmModel { halted: true, ..vm }, ActionModel::Finished)
    } else {
        match fetch(vm, chunk) {
            Ok((v1, op)) => execute(v1, chunk, op),
            Err(m) => failed(vm, m),
        }
    }
}

// ---------------------------------------------------------------------------
// The machine.
// ---------------------------------------------------------------------------

/// What a step leaves to the driver (see `ActionModel`).
#[derive(Debug)]
pub enum Action {
    Continue,
    Finished,
    Failed(VmError),
    Printed(String),
    ReadNumber(String),
    Negate(Number),
    Numeric(OpCode, Number, Number),
}

impl View for Action {
    type V = ActionModel;

    open spec fn view(&self) -> ActionModel {
        match self {
            Action::Continue => ActionModel::Continue,
            Action::Finished => ActionModel::Finished,
            Action::Failed(e) => ActionModel::Failed(e@),
            Action::Printed(s) => ActionModel::Printed(s@),
            Action::ReadNumber(d) => ActionModel::ReadNumber(d@),
            Action::Negate(n) => ActionModel::Negate(n@),
            Action::Numeric(op, a, b) => ActionModel::Numeric(*op, a@, b@),
        }
    }
}

struct Frame {
    function_index: usize,
    ip: usize,
    locals: Vec<Value>,
}

struct Global {
    name: String,
    value: Value,
}

spec fn frame_view(f: Frame) -> FrameModel {
    FrameModel { function_index: f.function_index as nat, ip: f.ip as nat, locals: values_view(f.locals@) }
}

spec fn frames_view(fs: Seq<Frame>) -> Seq<FrameModel> {
    fs.map_values(|f: Frame| frame_view(f))
}

spec fn globals_view(gs: Seq<Global>) -> Seq<(Seq<char>, ValueModel)> {
    gs.map_values(|g: Global| (g.name@, g.value@))
}

/// The bytecode machine: a value stack, global variables, call frames and
/// the lines printed so far.
pub struct Vm {
    stack: Vec<Value>,
    globals: Vec<Global>,
    ip: usize,
    frames: Vec<Frame>,
    output: Vec<String>,
    halted: bool,
}

impl View for Vm {
    type V = VmModel;

    closed spec fn view(&self) -> VmModel {
        VmModel {
            stack: values_view(self.stack@),
            globals: globals_view(self.globals@),
            ip: self.ip as nat,
            frames: frames_view(self.frames@),
            output: names_model(self.output@),
            halted: self.halted,
        }
    }
}

impl Default for Vm {
    fn default() -> (vm: Vm)
        ensures
            vm@ == initial_state(),
    {
        Vm::new()
    }
}

fn vm_error(message: &str) -> (e: VmError)
    ensures
        e@ == message@,
{
    VmError { message: String::from_str(message) }
}

fn failure(message: &str) -> (a: Action)
    ensures
        a@ == ActionModel::Failed(message@),
{
    Action::Failed(vm_error(message))
}

/// `message`, then the texts of both operands joined by ` and `.
fn operands_failure(message: &str, l: &Value, r: &Value) -> (a: Action)
    ensures
        a@ == ActionModel::Failed(message@ + value_text(l@) + " and "@ + value_text(r@)),
{
    let mut m = String::from_str(message);
    m.append(l.text().as_str());
    m.append(" and ");
    m.append(r.text().as_str());
    Action::Failed(VmError { message: m })
}

/// `message`, then the text of the value.
fn value_failure(message: &str, v: &Value) -> (a: Action)
    ensures
        a@ == ActionModel::Failed(message@ + value_text(v@)),
{
    let mut m = String::from_str(message);
    m.append(v.text().as_str());
    Action::Failed(VmError { message: m })
}

fn same(l: &Value, r: &Value) -> (b: bool)
    ensures
        b == same_value(l@, r@),
{
    match l {
        Value::String(a) => match r {
            Value::String(b) => a.eq(b),
            _ => false,
        },
        Value::Boolean(a) => match r {
            Value::Boolean(b) => *a == *b,
            _ => false,
        },
        Value::Void => match r {
            Value::Void => true,
            _ => false,
        },
        Value::Number(_) => false,
    }
}

impl Vm {
    /// A machine about to run a chunk from its first instruction.
    pub fn new() -> (vm: Vm)
        ensures
            vm@ == initial_state(),
    {
        let vm = Vm {
            stack: Vec::new(),
            globals: Vec::new(),
            ip: 0,
            frames: Vec::new(),
            output: Vec::new(),
            halted: false,
        };
        proof {
            assert(vm@.stack =~= Seq::<ValueModel>::empty());
            assert(vm@.globals =~= Seq::<(Seq<char>, ValueModel)>::empty());
            assert(vm@.frames =~= Seq::<FrameModel>::empty());
            assert(vm@.output =~= Seq::<Seq<char>>::empty());
        }
        vm
    }

    /// Puts a value on the stack; this is how the driver hands back a number
    /// or bool that it computed.
    pub fn push(&mut self, value: Value)
        ensures
            final(self)@ == push_value(old(self)@, value@),
    {
        let ghost before = self@;
        self.stack.push(value);
        proof {
            assert(self@.stack =~= before.stack.push(value@));
        }
    }

    /// The lines printed, in order.
    pub fn into_output(self) -> (lines: Vec<String>)
        ensures
            names_model(lines@) == self@.output,
    {
        self.output
    }

    fn pop(&mut self) -> (r: Option<Value>)
        ensures
            match pop_value(old(self)@) {
                Some((v, v1)) => r matches Some(x) && x@ == v && final(self)@ == v1,
                None => r is None && final(self)@ == old(self)@,
            },
    {
        let ghost before = self@;
        let r = self.stack.pop();
        proof {
            if before.stack.len() > 0 {
                assert(self@.stack =~= before.stack.drop_last());
            }
        }
        r
    }

    fn operands(&mut self) -> (r: Option<(Value, Value)>)
        ensures
            match operands(old(self)@) {
                Ok((l, rv, v1)) => r matches Some((a, b)) && a@ == l && b@ == rv && final(self)@ == v1,
                Err(v1) => r is None && final(self)@ == v1,
            },
    {
        let ghost before = self@;
        match self.pop() {
            None => {
                proof {
                    assert(self@.stack =~= Seq::<ValueModel>::empty());
                }
                None
            },
            Some(right) => match self.pop() {
                None => {
                    proof {
                        assert(self@.stack =~= Seq::<ValueModel>::empty());
                    }
                    None
                },
                Some(left) => {
                    proof {
                        let n = before.stack.len();
                        assert(self@.stack =~= before.stack.subrange(0, n - 2));
                    }
                    Some((left, right))
                },
            },
        }
    }

    /// Where the global `name` is stored.
    fn find_global(&self, name: &String) -> (r: Option<usize>)
        ensures
            match first_index(global_names(self@.globals), name@) {
                Some(k) => r matches Some(j) && j == k && k < self@.globals.len(),
                None => r is None,
            },
    {
        let ghost ns = global_names(self@.globals);
        let mut i: usize = 0;
        while i < self.globals.len()
            invariant
                i <= self.globals@.len(),
                ns == global_names(self@.globals),
                ns.len() == self.globals@.len(),
                forall|j: int| 0 <= j < i ==> ns[j] != name@,
            decreases self.globals@.len() - i,
        {
            if self.globals[i].name.eq(name) {
                proof {
                    crate::bytecode::lemma_first_index_found(ns, name@, i as int);
                }
                return Some(i);
            }
            i = i + 1;
        }
        proof {
            crate::bytecode::lemma_first_index_absent(ns, name@);
        }
        None
    }

    fn store_global(&mut self, name: &String, value: Value)
        ensures
            final(self)@ == (VmModel { globals: store_global(old(self)@.globals, name@, value@), ..old(self)@ }),
    {
        let ghost before = self@;
        let ghost v = value@;
        let global = Global { name: name.clone(), value };
        assert(global.name@ == name@ && global.value@ == v);
        match self.find_global(name) {
            Some(k) => {
                self.globals.set(k, global);
                proof {
                    assert(self@.globals =~= before.globals.update(k as int, (name@, v)));
                    assert(first_index(global_names(before.globals), name@) == Some(k as nat));
                }
            },
            None => {
                self.globals.push(global);
                proof {
                    assert(self@.globals =~= before.globals.push((name@, v)));
                }
            },
        }
    }

    fn set_frame_ip(&mut self, ip: usize)
        requires
            old(self)@.frames.len() > 0,
        ensures
            final(self)@ == set_frame(old(self)@, FrameModel { ip: ip as nat, ..old(self)@.frames.last() }),
    {
        let ghost before = self@;
        match self.frames.pop() {
            Some(mut frame) => {
                frame.ip = ip;
                self.frames.push(frame);
                proof {
                    assert(self@.frames =~= before.frames.update(
                        before.frames.len() - 1,
                        FrameModel { ip: ip as nat, ..before.frames.last() },
                    ));
                }
            },
            None => {},
        }
    }

    fn set_local(&mut self, i: usize, value: Value)
        requires
            old(self)@.frames.len() > 0,
            i < old(self)@.frames.last().locals.len(),
        ensures
            final(self)@ == set_frame(
                old(self)@,
                FrameModel {
                    locals: old(self)@.frames.last().locals.update(i as int, value@),
                    ..old(self)@.frames.last()
                },
            ),
    {
        let ghost before = self@;
        let ghost f = before.frames.last();
        match self.frames.pop() {
            Some(mut frame) => {
                let ghost v = value@;
                frame.locals.set(i, value);
                proof {
                    assert(values_view(frame.locals@) =~= f.locals.update(i as int, v));
                }
                self.frames.push(frame);
                proof {
                    assert(self@.frames =~= before.frames.update(
                        before.frames.len() - 1,
                        FrameModel { locals: f.locals.update(i as int, v), ..f },
                    ));
                }
            },
            None => {},
        }
    }

    fn code_len(&self, chunk: &Chunk) -> (n: usize)
        ensures
            n == code_len(self@, chunk@),
    {
        if self.frames.len() > 0 {
            let fi = self.frames[self.frames.len() - 1].function_index;
            if fi < chunk.functions.len() {
                return chunk.functions[fi].code.len();
            }
        }
        chunk.code.len()
    }
}

impl Vm {
    fn load_constant(&mut self, chunk: &Chunk, i: usize) -> (a: Action)
        ensures
            (final(self)@, a@) == load_constant(old(self)@, chunk@, i as nat),
    {
        let constant: &Constant = if self.frames.len() > 0 {
            let fi = self.frames[self.frames.len() - 1].function_index;
            if fi < chunk.functions.len() && i < chunk.functions[fi].constants.len() {
                &chunk.functions[fi].constants[i]
            } else {
                return failure("invalid function constant index");
            }
        } else if i < chunk.constants.len() {
            &chunk.constants[i]
        } else {
            return failure("invalid constant index");
        };
        match constant {
            Constant::Number(digits) => Action::ReadNumber(digits.clone()),
            Constant::String(s) => {
                self.push(Value::String(s.clone()));
                Action::Continue
            },
            Constant::Boolean(b) => {
                self.push(Value::Boolean(*b));
                Action::Continue
            },
            Constant::Void => {
                self.push(Value::Void);
                Action::Continue
            },
        }
    }

    fn load_global(&mut self, chunk: &Chunk, i: usize) -> (a: Action)
        ensures
            (final(self)@, a@) == load_global(old(self)@, chunk@, i as nat),
    {
        if i < chunk.names.len() {
            assert(chunk@.names[i as int] == chunk.names@[i as int]@);
            match self.find_global(&chunk.names[i]) {
                Some(k) => {
                    assert(self@.globals[k as int].1 == self.globals@[k as int].value@);
                    let value = self.globals[k].value.duplicate();
                    self.push(value);
                    Action::Continue
                },
                None => {
                    let mut m = String::from_str("undefined runtime variable '");
                    m.append(chunk.names[i].as_str());
                    m.append("'");
                    Action::Failed(VmError { message: m })
                },
            }
        } else {
            failure("invalid global name index")
        }
    }

    fn store_global_op(&mut self, chunk: &Chunk, i: usize) -> (a: Action)
        ensures
            (final(self)@, a@) == store_global_op(old(self)@, chunk@, i as nat),
    {
        if i < chunk.names.len() {
            assert(chunk@.names[i as int] == chunk.names@[i as int]@);
            match self.pop() {
                Some(value) => {
                    self.store_global(&chunk.names[i], value);
                    Action::Continue
                },
                None => failure("stack underflow"),
            }
        } else {
            failure("invalid global name index")
        }
    }

    fn load_local(&mut self, i: usize) -> (a: Action)
        ensures
            (final(self)@, a@) == load_local(old(self)@, i as nat),
    {
        if self.frames.len() > 0 {
            let last = self.frames.len() - 1;
            if i < self.frames[last].locals.len() {
                let value = self.frames[last].locals[i].duplicate();
                self.push(value);
                return Action::Continue;
            }
        }
        failure("invalid local variable index")
    }

    fn store_local(&mut self, i: usize) -> (a: Action)
        ensures
            (final(self)@, a@) == store_local(old(self)@, i as nat),
    {
        match self.pop() {
            None => failure("stack underflow"),
            Some(value) => {
                if self.frames.len() == 0 {
                    failure("local variable outside function")
                } else if i < self.frames[self.frames.len() - 1].locals.len() {
                    self.set_local(i, value);
                    Action::Continue
                } else {
                    failure("invalid local variable index")
                }
            },
        }
    }

    fn numeric(&mut self, op: OpCode, message: &str) -> (a: Action)
        ensures
            (final(self)@, a@) == numeric(old(self)@, op, message@),
    {
        match self.operands() {
            None => failure("stack underflow"),
            Some((left, right)) => match left {
                Value::Number(a) => match right {
                    Value::Number(b) => Action::Numeric(op, a, b),
                    right => operands_failure(message, &Value::Number(a), &right),
                },
                left => operands_failure(message, &left, &right),
            },
        }
    }

    fn equality(&mut self, op: OpCode) -> (a: Action)
        ensures
            (final(self)@, a@) == equality(old(self)@, op),
    {
        match self.operands() {
            None => failure("stack underflow"),
            Some((left, right)) => {
                if let Value::Number(a) = &left {
                    if let Value::Number(b) = &right {
                        return Action::Numeric(op, a.duplicate(), b.duplicate());
                    }
                }
                let equal = same(&left, &right);
                if op == OpCode::Equal {
                    self.push(Value::Boolean(equal));
                } else {
                    self.push(Value::Boolean(!equal));
                }
                Action::Continue
            },
        }
    }

    fn logical(&mut self, op: OpCode) -> (a: Action)
        ensures
            (final(self)@, a@) == logical(old(self)@, op),
    {
        match self.operands() {
            None => failure("stack underflow"),
            Some((left, right)) => {
                if let Value::Boolean(a) = left {
                    if let Value::Boolean(b) = right {
                        if op == OpCode::And {
                            self.push(Value::Boolean(a && b));
                        } else {
                            self.push(Value::Boolean(a || b));
                        }
                        return Action::Continue;
                    }
                }
                operands_failure("logical operators require bools, got ", &left, &right)
            },
        }
    }

    fn jump(&mut self, chunk: &Chunk, target: usize) -> (a: Action)
        ensures
            (final(self)@, a@) == jump(old(self)@, chunk@, target as nat),
    {
        if target >= self.code_len(chunk) {
            failure("jump target is outside bytecode")
        } else if self.frames.len() > 0 {
            self.set_frame_ip(target);
            Action::Continue
        } else {
            self.ip = target;
            Action::Continue
        }
    }
}

impl Vm {
    fn call(&mut self, chunk: &Chunk, i: usize) -> (a: Action)
        requires
            call_fits(chunk@, OpCode::Call(i)),
        ensures
            (final(self)@, a@) == call(old(self)@, chunk@, i as nat),
    {
        if i >= chunk.functions.len() {
            return failure("invalid function index");
        }
        let arity = chunk.functions[i].arity;
        let count = chunk.functions[i].local_names.len();
        assert(chunk@.functions[i as int].arity == arity);
        assert(chunk@.functions[i as int].local_names.len() == count);
        if self.stack.len() < arity {
            return failure("not enough arguments for function call");
        }
        let ghost before = self@;
        let k = self.stack.len() - arity;
        let mut locals = self.stack.split_off(k);
        let ghost args = values_view(locals@);
        assert(args =~= before.stack.subrange(k as int, before.stack.len() as int));
        let mut j = arity;
        while j < count
            invariant
                arity <= j <= count,
                values_view(locals@) =~= args + Seq::new((j - arity) as nat, |x: int| ValueModel::Void),
            decreases count - j,
        {
            let ghost old_locals = values_view(locals@);
            locals.push(Value::Void);
            proof {
                assert(values_view(locals@) =~= old_locals.push(ValueModel::Void));
                assert(args + Seq::new((j + 1 - arity) as nat, |x: int| ValueModel::Void) =~= (args + Seq::new(
                    (j - arity) as nat,
                    |x: int| ValueModel::Void,
                )).push(ValueModel::Void));
            }
            j = j + 1;
        }
        let ghost locals_model = values_view(locals@);
        self.frames.push(Frame { function_index: i, ip: 0, locals });
        proof {
            assert(self@.stack =~= before.stack.subrange(0, k as int));
            assert(self@.frames =~= before.frames.push(FrameModel { function_index: i as nat, ip: 0, locals: locals_model }));
        }
        Action::Continue
    }

    /// The instructions that take one value off the stack: `Pop`, `Negate`,
    /// `Not`, `JumpIfFalse`, `Print` and `Return`.
    fn unary(&mut self, chunk: &Chunk, op: OpCode) -> (a: Action)
        ensures
            (final(self)@, a@) == unary(old(self)@, chunk@, op),
    {
        let value = match self.pop() {
            Some(value) => value,
            None => {
                return failure("stack underflow");
            },
        };
        match op {
            OpCode::Negate => match value {
                Value::Number(n) => Action::Negate(n),
                other => value_failure("cannot negate ", &other),
            },
            OpCode::Not => match value {
                Value::Boolean(b) => {
                    self.push(Value::Boolean(!b));
                    Action::Continue
                },
                other => value_failure("cannot apply '!' to ", &other),
            },
            OpCode::JumpIfFalse(target) => match value {
                Value::Boolean(b) => if b {
                    Action::Continue
                } else {
                    self.jump(chunk, target)
                },
                other => value_failure("expected bool in conditional, got ", &other),
            },
            OpCode::Print => {
                let text = value.text();
                let ghost before = self@;
                self.output.push(text.clone());
                proof {
                    assert(self@.output =~= before.output.push(text@));
                }
                Action::Printed(text)
            },
            OpCode::Return => {
                if self.frames.len() == 0 {
                    failure("return executed outside function")
                } else {
                    let ghost before = self@;
                    self.frames.pop();
                    proof {
                        assert(self@.frames =~= before.frames.drop_last());
                    }
                    self.push(value);
                    Action::Continue
                }
            },
            _ => Action::Continue,
        }
    }
}

impl Vm {
    fn fetch(&mut self, chunk: &Chunk) -> (r: Result<OpCode, VmError>)
        ensures
            match fetch(old(self)@, chunk@) {
                Ok((v1, op)) => r == Ok::<OpCode, VmError>(op) && final(self)@ == v1,
                Err(m) => r matches Err(e) && e@ == m && final(self)@ == old(self)@,
            },
    {
        if self.frames.len() == 0 {
            if self.ip < chunk.code.len() {
                let op = chunk.code[self.ip];
                self.ip = self.ip + 1;
                Ok(op)
            } else {
                Err(vm_error("instruction pointer escaped program"))
            }
        } else {
            let last = self.frames.len() - 1;
            let fi = self.frames[last].function_index;
            if fi >= chunk.functions.len() {
                return Err(vm_error("invalid function index"));
            }
            let fip = self.frames[last].ip;
            assert(chunk@.functions[fi as int].code == chunk.functions@[fi as int].code@);
            if fip >= chunk.functions[fi].code.len() {
                return Err(vm_error("instruction pointer escaped function"));
            }
            let op = chunk.functions[fi].code[fip];
            self.set_frame_ip(fip + 1);
            Ok(op)
        }
    }

    fn execute(&mut self, chunk: &Chunk, op: OpCode) -> (a: Action)
        requires
            call_fits(chunk@, op),
        ensures
            (final(self)@, a@) == execute(old(self)@, chunk@, op),
    {
        match op {
            OpCode::Constant(i) => self.load_constant(chunk, i),
            OpCode::LoadGlobal(i) => self.load_global(chunk, i),
            OpCode::StoreGlobal(i) => self.store_global_op(chunk, i),
            OpCode::LoadLocal(i) => self.load_local(i),
            OpCode::StoreLocal(i) => self.store_local(i),
            OpCode::Add | OpCode::Subtract | OpCode::Multiply | OpCode::Divide | OpCode::Modulo => self.numeric(
                op,
                "arithmetic requires numbers, got ",
            ),
            OpCode::Less | OpCode::LessEqual | OpCode::Greater | OpCode::GreaterEqual => self.numeric(
                op,
                "comparison requires numbers, got ",
            ),
            OpCode::Equal | OpCode::NotEqual => self.equality(op),
            OpCode::And | OpCode::Or => self.logical(op),
            OpCode::Jump(target) => self.jump(chunk, target),
            OpCode::Call(i) => self.call(chunk, i),
            OpCode::Halt => {
                self.halted = true;
                Action::Finished
            },
            _ => self.unary(chunk, op),
        }
    }

    /// Runs one instruction of `chunk`, or reports that the program has
    /// finished; what is left to the driver is in the returned action.
    pub fn step(&mut self, chunk: &Chunk) -> (a: Action)
        requires
            next_call_fits(old(self)@, chunk@),
        ensures
            (final(self)@, a@) == step(old(self)@, chunk@),
    {
        if self.halted || (self.ip >= chunk.code.len() && self.frames.len() == 0) {
            self.halted = true;
            return Action::Finished;
        }
        match self.fetch(chunk) {
            Ok(op) => self.execute(chunk, op),
            Err(e) => Action::Failed(e),
        }
    }
}

impl Vm {
    /// Whether the next step may be taken (see `next_call_fits`).
    pub fn next_call_fits(&self, chunk: &Chunk) -> (b: bool)
        ensures
            b == next_call_fits(self@, chunk@),
    {
        if self.halted || (self.ip >= chunk.code.len() && self.frames.len() == 0) {
            return true;
        }
        let op = if self.frames.len() == 0 {
            if self.ip < chunk.code.len() {
                chunk.code[self.ip]
            } else {
                return true;
            }
        } else {
            let last = self.frames.len() - 1;
            let fi = self.frames[last].function_index;
            if fi >= chunk.functions.len() {
                return true;
            }
            let fip = self.frames[last].ip;
            assert(chunk@.functions[fi as int].code == chunk.functions@[fi as int].code@);
            if fip >= chunk.functions[fi].code.len() {
                return true;
            }
            chunk.functions[fi].code[fip]
        };
        match op {
            OpCode::Call(i) => {
                if i < chunk.functions.len() {
                    assert(chunk@.functions[i as int].arity == chunk.functions@[i as int].arity);
                    chunk.functions[i].arity <= chunk.functions[i].local_names.len()
                } else {
                    true
                }
            },
            _ => true,
        }
    }
}

/// Whether `chunk` is runnable (see `runnable`).
pub fn is_runnable(chunk: &Chunk) -> (b: bool)
    ensures
        b == runnable(chunk@),
{
    let mut i: usize = 0;
    while i < chunk.functions.len()
        invariant
            i <= chunk.functions@.len(),
            forall|j: int| 0 <= j < i ==> #[trigger] chunk@.functions[j].arity <= chunk@.functions[j].local_names.len(),
        decreases chunk.functions@.len() - i,
    {
        assert(chunk@.functions[i as int].arity == chunk.functions@[i as int].arity);
        if chunk.functions[i].arity > chunk.functions[i].local_names.len() {
            return false;
        }
        i = i + 1;
    }
    true
}

// ---------------------------------------------------------------------------
// What running a well-formed chunk keeps.
// ---------------------------------------------------------------------------

/// A frame fits the chunk: its function exists, its next instruction is
/// inside that function's code, and it has one local per local name.
pub open spec fn frame_fits(f: FrameModel, chunk: ChunkModel) -> bool {
    &&& f.function_index < chunk.functions.len()
    &&& f.ip < chunk.functions[f.function_index as int].code.len()
    &&& f.locals.len() == chunk.functions[f.function_index as int].local_names.len()
}

/// A state fits the chunk: unless the program has finished, the next
/// top-level instruction is inside the top-level code; and every frame fits.
pub open spec fn state_fits(vm: VmModel, chunk: ChunkModel) -> bool {
    &&& vm.halted || vm.ip < chunk.code.len()
    &&& forall|k: int| 0 <= k < vm.frames.len() ==> frame_fits(#[trigger] vm.frames[k], chunk)
}

/// Every index that instruction `op` uses, in state `vm`, is valid: its
/// constant, global name, local variable, jump target or function exists,
/// and a `Return` has a call to return from.
pub open spec fn operand_valid(vm: VmModel, chunk: ChunkModel, op: OpCode) -> bool {
    match op {
        OpCode::Constant(i) => current_constant(vm, chunk, i as nat) is Ok,
        OpCode::LoadGlobal(i) => i < chunk.names.len(),
        OpCode::StoreGlobal(i) => i < chunk.names.len(),
        OpCode::LoadLocal(i) => vm.frames.len() > 0 && i < vm.frames.last().locals.len(),
        OpCode::StoreLocal(i) => vm.frames.len() > 0 && i < vm.frames.last().locals.len(),
        OpCode::Jump(t) => t < code_len(vm, chunk),
        OpCode::JumpIfFalse(t) => t < code_len(vm, chunk),
        OpCode::Call(i) => i < chunk.functions.len(),
        OpCode::Return => vm.frames.len() > 0,
        _ => true,
    }
}

pub open spec fn finished(vm: VmModel, chunk: ChunkModel) -> bool {
    vm.halted || (vm.ip >= chunk.code.len() && vm.frames.len() == 0)
}

/// The machine starts in a state that fits any well-formed chunk.
pub proof fn lemma_initial_state_fits(chunk: ChunkModel)
    requires
        chunk_well_formed(chunk),
    ensures
        state_fits(initial_state(), chunk),
{
}

/// Handing a value back to the machine keeps its state fitting the chunk.
pub proof fn lemma_push_keeps_fit(vm: VmModel, chunk: ChunkModel, v: ValueModel)
    requires
        state_fits(vm, chunk),
    ensures
        state_fits(push_value(vm, v), chunk),
{
}

/// Running a well-formed, runnable chunk from a state that fits it: fetching
/// the next instruction never fails, every index that instruction uses is
/// valid, and unless the step fails the state after it fits the chunk again.
/// So a step can fail only for a reason of the running program: too few
/// values on the stack, an undefined global, a value of the wrong kind, or
/// too few arguments for a call.
pub proof fn lemma_step_keeps_fit(vm: VmModel, chunk: ChunkModel)
    requires
        chunk_well_formed(chunk),
        runnable(chunk),
        state_fits(vm, chunk),
    ensures
        !finished(vm, chunk) ==> (fetch(vm, chunk) matches Ok((v1, op)) && operand_valid(v1, chunk, op)),
        !(step(vm, chunk).1 is Failed) ==> state_fits(step(vm, chunk).0, chunk),
{
    let nf = chunk.functions.len();
    if finished(vm, chunk) {
        return;
    }
    if vm.frames.len() == 0 {
        let p = vm.ip as int;
        let len = chunk.code.len();
        assert(jump_ok(chunk.code[p], (len - 1) as nat));
        if p < len - 1 {
            assert(operands_ok(chunk.code[p], Scope::Global, chunk.constants.len(), chunk.names.len(), nf));
        }
        if let OpCode::Call(i) = chunk.code[p] {
            let g = chunk.functions[i as int];
            assert(function_ok(g, nf));
            assert(g.arity <= g.local_names.len());
            let r = step(vm, chunk).0;
            if !(step(vm, chunk).1 is Failed) {
                assert(r.frames.len() == 1);
                assert(frame_fits(r.frames[0], chunk));
            }
        }
    } else {
        let last = vm.frames.len() - 1;
        let f = vm.frames[last];
        assert(frame_fits(f, chunk));
        let func = chunk.functions[f.function_index as int];
        assert(function_ok(func, nf));
        let op = func.code[f.ip as int];
        assert(operands_ok(op, Scope::Local, func.constants.len(), func.local_names.len(), nf));
        assert(jump_ok(op, (func.code.len() - 1) as nat));
        let (v1, op1) = fetch(vm, chunk)->Ok_0;
        assert(op1 == op);
        assert(v1.frames.last() == FrameModel { ip: f.ip + 1, ..f });
        match op {
            OpCode::Call(i) => {
                let g = chunk.functions[i as int];
                assert(function_ok(g, nf));
                assert(g.arity <= g.local_names.len());
                let r = step(vm, chunk).0;
                if !(step(vm, chunk).1 is Failed) {
                    assert forall|k: int| 0 <= k < r.frames.len() implies frame_fits(#[trigger] r.frames[k], chunk) by {
                        if k < last {
                            assert(frame_fits(vm.frames[k], chunk));
                        }
                    }
                }
            },
            _ => {
                let r = step(vm, chunk).0;
                if !(step(vm, chunk).1 is Failed) {
                    assert forall|k: int| 0 <= k < r.frames.len() implies frame_fits(#[trigger] r.frames[k], chunk) by {
                        if k < last {
                            assert(frame_fits(vm.frames[k], chunk));
                        }
                    }
                }
            },
        }
    }
}

/// Printed lines are never taken back: a step keeps every line printed so
/// far and adds one exactly when it reports `Printed`, the line it reports.
pub proof fn lemma_step_keeps_output(vm: VmModel, chunk: ChunkModel)
    ensures
        step(vm, chunk).1 matches ActionModel::Printed(line) ==> step(vm, chunk).0.output == vm.output.push(line),
        !(step(vm, chunk).1 is Printed) ==> step(vm, chunk).0.output == vm.output,
{
}

/// A finished program stays finished: stepping it again reports `Finished`
/// and changes nothing.
pub proof fn lemma_finished_is_final(vm: VmModel, chunk: ChunkModel)
    requires
        step(vm, chunk).1 is Finished,
    ensures
        step(step(vm, chunk).0, chunk) == step(vm, chunk),
{
}

/// On a runnable chunk every step may be taken.
pub proof fn lemma_runnable_next_call_fits(vm: VmModel, chunk: ChunkModel)
    requires
        runnable(chunk),
    ensures
        next_call_fits(vm, chunk),
{
    if let Ok((_, op)) = fetch(vm, chunk) {
        if let OpCode::Call(i) = op {
            if i < chunk.functions.len() {
                assert(chunk.functions[i as int].arity <= chunk.functions[i as int].local_names.len());
            }
        }
    }
}

/// `And` and `Or` on two bools: the step takes both operands off the stack
/// and leaves their conjunction (`And`) or disjunction (`Or`) on top, and the
/// program goes on.
pub proof fn lemma_logical_results(vm: VmModel, chunk: ChunkModel, v1: VmModel, op: OpCode, a: bool, b: bool)
    requires
        !finished(vm, chunk),
        fetch(vm, chunk) == Ok::<(VmModel, OpCode), Seq<char>>((v1, op)),
        op == OpCode::And || op == OpCode::Or,
        v1.stack.len() >= 2,
        v1.stack[v1.stack.len() - 2] == ValueModel::Boolean(a),
        v1.stack[v1.stack.len() - 1] == ValueModel::Boolean(b),
    ensures
        step(vm, chunk).1 == ActionModel::Continue,
        step(vm, chunk).0.stack.len() == v1.stack.len() - 1,
        step(vm, chunk).0.stack.subrange(0, v1.stack.len() - 2) == v1.stack.subrange(0, v1.stack.len() - 2),
        op == OpCode::And ==> step(vm, chunk).0.stack.last() == ValueModel::Boolean(a && b),
        op == OpCode::Or ==> step(vm, chunk).0.stack.last() == ValueModel::Boolean(a || b),
        step(vm, chunk).0.globals == v1.globals,
        step(vm, chunk).0.frames == v1.frames,
        step(vm, chunk).0.ip == v1.ip,
        step(vm, chunk).0.output == v1.output,
{
    let n = v1.stack.len();
    let rest = v1.stack.subrange(0, n - 2);
    assert(rest.push(ValueModel::Boolean(a && b)).subrange(0, n - 2) =~= rest);
    assert(rest.push(ValueModel::Boolean(a || b)).subrange(0, n - 2) =~= rest);
}

/// `Not` on a bool leaves its negation in its place, and the program goes on.
pub proof fn lemma_not_negates(vm: VmModel, chunk: ChunkModel, v1: VmModel, b: bool)
    requires
        !finished(vm, chunk),
        fetch(vm, chunk) == Ok::<(VmModel, OpCode), Seq<char>>((v1, OpCode::Not)),
        v1.stack.len() >= 1,
        v1.stack.last() == ValueModel::Boolean(b),
    ensures
        step(vm, chunk).1 == ActionModel::Continue,
        step(vm, chunk).0.stack == v1.stack.drop_last().push(ValueModel::Boolean(!b)),
        step(vm, chunk).0.globals == v1.globals,
        step(vm, chunk).0.frames == v1.frames,
        step(vm, chunk).0.ip == v1.ip,
        step(vm, chunk).0.output == v1.output,
{
}

/// `Equal` and `NotEqual` on two values that are not both numbers leave
/// whether they are equal (`Equal`) or differ (`NotEqual`) in their place:
/// strings by their text, bools by their value, void equals void, and
/// values of different kinds are never equal.
pub proof fn lemma_equality_results(
    vm: VmModel,
    chunk: ChunkModel,
    v1: VmModel,
    op: OpCode,
    l: ValueModel,
    r: ValueModel,
)
    requires
        !finished(vm, chunk),
        fetch(vm, chunk) == Ok::<(VmModel, OpCode), Seq<char>>((v1, op)),
        op == OpCode::Equal || op == OpCode::NotEqual,
        v1.stack.len() >= 2,
        v1.stack[v1.stack.len() - 2] == l,
        v1.stack[v1.stack.len() - 1] == r,
        !(l is Number && r is Number),
    ensures
        step(vm, chunk).1 == ActionModel::Continue,
        step(vm, chunk).0.stack == v1.stack.subrange(0, v1.stack.len() - 2).push(
            ValueModel::Boolean(if op == OpCode::Equal { l == r } else { l != r }),
        ),
        step(vm, chunk).0.globals == v1.globals,
        step(vm, chunk).0.frames == v1.frames,
        step(vm, chunk).0.ip == v1.ip,
        step(vm, chunk).0.output == v1.output,
{
    assert(same_value(l, r) == (l == r));
}

/// `Print` takes the top value off the stack and adds its text as a line of
/// output: a string as it is, `true` or `false` for a bool, `void` for void,
/// and a number by its text.
pub proof fn lemma_print_appends(vm: VmModel, chunk: ChunkModel, v1: VmModel, v: ValueModel)
    requires
        !finished(vm, chunk),
        fetch(vm, chunk) == Ok::<(VmModel, OpCode), Seq<char>>((v1, OpCode::Print)),
        v1.stack.len() >= 1,
        v1.stack.last() == v,
    ensures
        ({
            let line = match v {
                ValueModel::Str(s) => s,
                ValueModel::Boolean(true) => "true"@,
                ValueModel::Boolean(false) => "false"@,
                ValueModel::Void => "void"@,
                ValueModel::Number(n) => n.text,
            };
            &&& step(vm, chunk).1 == ActionModel::Printed(line)
            &&& step(vm, chunk).0.output == v1.output.push(line)
        }),
        step(vm, chunk).0.stack == v1.stack.drop_last(),
        step(vm, chunk).0.globals == v1.globals,
        step(vm, chunk).0.frames == v1.frames,
        step(vm, chunk).0.ip == v1.ip,
{
}

/// `JumpIfFalse` takes a bool off the stack: on `false` the code being run
/// goes on at the target (when it lies inside that code), on `true` with the
/// next instruction.
pub proof fn lemma_jump_if_false(vm: VmModel, chunk: ChunkModel, v1: VmModel, target: usize, b: bool)
    requires
        !finished(vm, chunk),
        fetch(vm, chunk) == Ok::<(VmModel, OpCode), Seq<char>>((v1, OpCode::JumpIfFalse(target))),
        v1.stack.len() >= 1,
        v1.stack.last() == ValueModel::Boolean(b),
        target < code_len(v1, chunk),
    ensures
        step(vm, chunk).1 == ActionModel::Continue,
        step(vm, chunk).0.stack == v1.stack.drop_last(),
        step(vm, chunk).0.globals == v1.globals,
        step(vm, chunk).0.output == v1.output,
        b ==> step(vm, chunk).0.ip == v1.ip && step(vm, chunk).0.frames == v1.frames,
        !b && v1.frames.len() == 0 ==> step(vm, chunk).0.ip == target,
        !b && v1.frames.len() > 0 ==> step(vm, chunk).0.frames.last().ip == target
            && step(vm, chunk).0.frames.len() == v1.frames.len(),
{
}

/// Reading a global gives back what was last stored under its name, and
/// storing under one name leaves every other name's value as it was.
pub proof fn lemma_global_read_after_write(
    gs: Seq<(Seq<char>, ValueModel)>,
    n: Seq<char>,
    v: ValueModel,
    m: Seq<char>,
)
    ensures
        lookup_global(store_global(gs, n, v), n) == Some(v),
        m != n ==> lookup_global(store_global(gs, n, v), m) == lookup_global(gs, m),
{
    let names = global_names(gs);
    crate::bytecode::lemma_first_index_bound(names, n);
    crate::bytecode::lemma_first_index_bound(names, m);
    match first_index(names, n) {
        Some(i) => {
            let g2 = gs.update(i as int, (n, v));
            assert(global_names(g2) =~= names);
            if m != n {
                match first_index(names, m) {
                    Some(j) => {
                        assert(j != i);
                    },
                    None => {},
                }
            }
        },
        None => {
            let g2 = gs.push((n, v));
            assert(global_names(g2) =~= names.push(n));
            crate::bytecode::lemma_first_index_push(names, n);
            if m != n {
                crate::bytecode::lemma_first_index_push_other(names, n, m);
                match first_index(names, m) {
                    Some(j) => {
                        assert(g2[j as int] == gs[j as int]);
                    },
                    None => {},
                }
            }
        },
    }
}

/// A call of a function with `k` parameters takes the top `k` values off the
/// stack and starts a new call with them as its first locals, in the order
/// they were pushed (the first argument first), its other locals void, at
/// the start of the function's code.
pub proof fn lemma_call_passes_arguments(vm: VmModel, chunk: ChunkModel, v1: VmModel, i: usize)
    requires
        !finished(vm, chunk),
        fetch(vm, chunk) == Ok::<(VmModel, OpCode), Seq<char>>((v1, OpCode::Call(i))),
        i < chunk.functions.len(),
        chunk.functions[i as int].arity <= v1.stack.len(),
        chunk.functions[i as int].arity <= chunk.functions[i as int].local_names.len(),
    ensures
        ({
            let fd = chunk.functions[i as int];
            let n = v1.stack.len();
            let (after, action) = step(vm, chunk);
            let f = after.frames.last();
            &&& action == ActionModel::Continue
            &&& after.stack == v1.stack.subrange(0, n - fd.arity)
            &&& after.frames.len() == v1.frames.len() + 1
            &&& after.frames.drop_last() == v1.frames
            &&& f.function_index == i && f.ip == 0
            &&& f.locals.len() == fd.local_names.len()
            &&& forall|k: int| 0 <= k < fd.arity ==> #[trigger] f.locals[k] == v1.stack[n - fd.arity + k]
            &&& forall|k: int| fd.arity <= k < fd.local_names.len() ==> #[trigger] f.locals[k] == ValueModel::Void
            &&& after.globals == v1.globals && after.output == v1.output
        }),
{
    let after = step(vm, chunk).0;
    assert(after.frames.drop_last() =~= v1.frames);
}

/// `Return` ends the innermost call: its frame is dropped and the returned
/// value stays on top of the stack for the caller.
pub proof fn lemma_return_resumes_caller(vm: VmModel, chunk: ChunkModel, v1: VmModel)
    requires
        !finished(vm, chunk),
        fetch(vm, chunk) == Ok::<(VmModel, OpCode), Seq<char>>((v1, OpCode::Return)),
        v1.stack.len() >= 1,
        v1.frames.len() >= 1,
    ensures
        step(vm, chunk).1 == ActionModel::Continue,
        step(vm, chunk).0.frames == v1.frames.drop_last(),
        step(vm, chunk).0.stack == v1.stack,
        step(vm, chunk).0.globals == v1.globals,
        step(vm, chunk).0.output == v1.output,
{
    assert(v1.stack.drop_last().push(v1.stack.last()) =~= v1.stack);
}

/// Loading a constant pushes the value it holds: a string, a bool or void
/// as it is; a number's digits are handed to the driver to be read, with
/// nothing pushed yet.
pub proof fn lemma_constant_loads_its_value(vm: VmModel, chunk: ChunkModel, v1: VmModel, i: usize, k: ConstantModel)
    requires
        !finished(vm, chunk),
        fetch(vm, chunk) == Ok::<(VmModel, OpCode), Seq<char>>((v1, OpCode::Constant(i))),
        current_constant(v1, chunk, i as nat) == Ok::<ConstantModel, Seq<char>>(k),
    ensures
        k matches ConstantModel::Str(s) ==> step(vm, chunk) == (push_value(v1, ValueModel::Str(s)), ActionModel::Continue),
        k matches ConstantModel::Boolean(b) ==> step(vm, chunk) == (push_value(v1, ValueModel::Boolean(b)), ActionModel::Continue),
        k matches ConstantModel::Void ==> step(vm, chunk) == (push_value(v1, ValueModel::Void), ActionModel::Continue),
        k matches ConstantModel::Number(digits) ==> step(vm, chunk) == (v1, ActionModel::ReadNumber(digits)),
{
}

} // verus!
