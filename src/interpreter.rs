//! The stack machine: three stacks of integers, an instruction pointer and two
//! file streams, driven one instruction at a time.
use vstd::prelude::*;
use vstd::arithmetic::power2::pow2;
use core::cmp::Ordering;
use crate::integer::{
    bit_and_of, bit_or_of, bit_xor_of, decimal_text, is_decimal_digit, lemma_decimal_round_trip,
    lemma_decimal_text_chars, trunc_div, trunc_rem, Integer,
};
use crate::text::{lemma_split_last, lemma_split_whole, lines_spec, split_spec, string_of};
use crate::token::{toks_of, Tok, TokenType};
use crate::parser::{command_spec, line_spec, parse, parse_spec, program_spec, Command, ParseError, ParseFault};
use crate::optimize::{collapse_spec, optimize_spec, resolve_spec};
use crate::vfs::{read_record, FileSystem, FsCall, IoError};

verus! {

/// A last-in first-out stack of integers. Popping an empty stack gives zero.
pub struct Stack {
    dat: Vec<Integer>,
}

impl View for Stack {
    type V = Seq<int>;

    closed spec fn view(&self) -> Seq<int> {
        self.dat@.map_values(|x: Integer| x@)
    }
}

/// The value that a pop gives: the top, or zero when the stack is empty.
pub open spec fn pop_value(s: Seq<int>) -> int {
    if s.len() == 0 {
        0
    } else {
        s.last()
    }
}

/// The stack left after a pop.
pub open spec fn pop_rest(s: Seq<int>) -> Seq<int> {
    if s.len() == 0 {
        s
    } else {
        s.drop_last()
    }
}

impl Stack {
    pub fn new() -> (r: Stack)
        ensures
            r@ == Seq::<int>::empty(),
    {
        let r = Stack { dat: Vec::new() };
        assert(r@ =~= Seq::<int>::empty());
        r
    }

    pub fn push(&mut self, n: Integer)
        ensures
            final(self)@ == old(self)@.push(n@),
    {
        self.dat.push(n);
        assert(self@ =~= old(self)@.push(n@));
    }

    /// Takes the top value off; an empty stack stays empty and gives zero.
    pub fn pop(&mut self) -> (r: Integer)
        ensures
            r@ == pop_value(old(self)@),
            final(self)@ == pop_rest(old(self)@),
    {
        if self.dat.len() == 0 {
            return Integer::zero();
        }
        let r = self.dat.pop().unwrap();
        assert(self@ =~= old(self)@.drop_last());
        r
    }

    pub fn len(&self) -> (r: usize)
        ensures
            r == self@.len(),
    {
        self.dat.len()
    }

    pub fn clear(&mut self)
        ensures
            final(self)@ == Seq::<int>::empty(),
    {
        self.dat.clear();
        assert(self@ =~= Seq::<int>::empty());
    }
}

/// Why a run stopped with an error.
#[derive(Clone, Copy, Debug, PartialEq, Eq, Structural)]
pub enum RuntimeError {
    /// A value that had to be a byte was outside 0..=255.
    ByteOutOfRange,
    /// Division or remainder by zero.
    DivisionByZero,
    /// A shift amount that is negative or outside the `i128` range, or a left
    /// shift of a non-zero value by more than `u32::MAX` bits, whose result
    /// would not fit in memory.
    ShiftOutOfRange,
    /// A stack other than A, B or C.
    InvalidStack,
}

/// How a run ended.
#[derive(Clone, Copy, Debug, PartialEq, Eq, Structural)]
pub enum Halt {
    /// The instruction pointer left the program.
    End,
    /// An `exit` at this index.
    Exit { index: usize },
    /// An error at this index.
    Fatal { index: usize, error: RuntimeError },
}

/// What a file system call gave back, as far as the machine is concerned.
#[derive(Clone, Copy, Debug, PartialEq, Eq, Structural)]
pub enum Io {
    /// No call was made.
    Nothing,
    /// A create, open or write call succeeded or failed.
    Done(bool),
    /// A one-byte read: the byte, or nothing at the end of the file or on an error.
    Read(Option<u8>),
}

/// What one step did.
pub enum Step {
    /// The machine moved on; `io` is what its file system call, if any, gave.
    Continue { io: Io },
    /// The machine moved on and printed this text.
    Output { text: Vec<char> },
    /// The next instruction reads a byte of input; see `Machine::give_input`.
    NeedInput,
    /// The run is over.
    Halted { halt: Halt },
}

/// The mathematical value of a `Step`.
pub enum StepView {
    Continue(Io),
    Output(Seq<char>),
    NeedInput,
    Halted(Halt),
}

impl View for Step {
    type V = StepView;

    open spec fn view(&self) -> StepView {
        match self {
            Step::Continue { io } => StepView::Continue(*io),
            Step::Output { text } => StepView::Output(text@),
            Step::NeedInput => StepView::NeedInput,
            Step::Halted { halt } => StepView::Halted(*halt),
        }
    }
}

/// The state of the machine: its three stacks and its instruction pointer.
pub struct MState {
    pub a: Seq<int>,
    pub b: Seq<int>,
    pub c: Seq<int>,
    pub ip: int,
}

pub open spec fn stack_of(m: MState, id: u8) -> Seq<int> {
    if id == 0 {
        m.a
    } else if id == 1 {
        m.b
    } else {
        m.c
    }
}

pub open spec fn with_stack(m: MState, id: u8, s: Seq<int>) -> MState {
    if id == 0 {
        MState { a: s, ..m }
    } else if id == 1 {
        MState { b: s, ..m }
    } else {
        MState { c: s, ..m }
    }
}

pub open spec fn with_c(m: MState, c: Seq<int>) -> MState {
    MState { c: c, ..m }
}

pub open spec fn advance(m: MState) -> MState {
    MState { ip: m.ip + 1, ..m }
}

/// Whether every value is a byte.
pub open spec fn all_bytes(c: Seq<int>) -> bool {
    forall|i: int| 0 <= i < c.len() ==> 0 <= #[trigger] c[i] <= 255
}

/// The values of a stack as bytes, in the order in which they are popped.
pub open spec fn popped_bytes(c: Seq<int>) -> Seq<u8> {
    Seq::new(c.len(), |i: int| c[c.len() - 1 - i] as u8)
}

/// Bytes read as characters, one each.
pub open spec fn chars_of_bytes(b: Seq<u8>) -> Seq<char> {
    b.map_values(|x: u8| x as char)
}

/// The decimal texts of the values of a stack, in the order in which they are popped.
pub open spec fn popped_decimals(c: Seq<int>) -> Seq<char>
    decreases c.len(),
{
    if c.len() == 0 {
        Seq::<char>::empty()
    } else {
        decimal_text(c.last()) + popped_decimals(c.drop_last())
    }
}

/// The path of a file instruction and stack C after it: the instruction's own
/// text if it has one, else stack C popped whole as characters.
pub open spec fn path_spec(c: Seq<int>, arg: Seq<char>) -> Option<(Seq<char>, Seq<int>)> {
    if arg.len() > 0 {
        Some((arg, c))
    } else if all_bytes(c) {
        Some((chars_of_bytes(popped_bytes(c)), Seq::<int>::empty()))
    } else {
        None
    }
}

/// Success as the value pushed on stack C: 1, or -1 for failure.
pub open spec fn flag(ok: bool) -> int {
    if ok {
        1
    } else {
        -1
    }
}

pub open spec fn bool_value(b: bool) -> int {
    if b {
        1
    } else {
        0
    }
}

/// Whether an instruction pops A and B and pushes one result on C.
pub open spec fn is_binary(t: Tok) -> bool {
    match t {
        Tok::Add | Tok::Subtract | Tok::Multiply | Tok::Divide | Tok::Modulo | Tok::Equal
        | Tok::LessThan | Tok::LessThanOrEqual | Tok::GreaterThan | Tok::GreaterThanOrEqual
        | Tok::BitAnd | Tok::BitOr | Tok::BitXor | Tok::BitRightShift | Tok::BitLeftShift => true,
        _ => false,
    }
}

/// The result of a binary instruction on `a` (from stack A) and `b` (from stack B).
pub open spec fn binary_spec(t: Tok, a: int, b: int) -> Result<int, RuntimeError> {
    match t {
        Tok::Add => Ok(a + b),
        Tok::Subtract => Ok(a - b),
        Tok::Multiply => Ok(a * b),
        Tok::Divide => if b == 0 { Err(RuntimeError::DivisionByZero) } else { Ok(trunc_div(a, b)) },
        Tok::Modulo => if b == 0 { Err(RuntimeError::DivisionByZero) } else { Ok(trunc_rem(a, b)) },
        Tok::Equal => Ok(bool_value(a == b)),
        Tok::LessThan => Ok(bool_value(a < b)),
        Tok::LessThanOrEqual => Ok(bool_value(a <= b)),
        Tok::GreaterThan => Ok(bool_value(a > b)),
        Tok::GreaterThanOrEqual => Ok(bool_value(a >= b)),
        Tok::BitAnd => Ok(bit_and_of(a, b)),
        Tok::BitOr => Ok(bit_or_of(a, b)),
        Tok::BitXor => Ok(bit_xor_of(a, b)),
        Tok::BitRightShift => if 0 <= b <= i128::MAX {
            Ok(a / (pow2(b as nat) as int))
        } else {
            Err(RuntimeError::ShiftOutOfRange)
        },
        _ => if 0 <= b <= i128::MAX && (a == 0 || b <= u32::MAX) {
            Ok(a * pow2(b as nat))
        } else {
            Err(RuntimeError::ShiftOutOfRange)
        },
    }
}

pub open spec fn fatal(m: MState, e: RuntimeError) -> (MState, StepView) {
    (m, StepView::Halted(Halt::Fatal { index: m.ip as usize, error: e }))
}

pub open spec fn go(m: MState) -> (MState, StepView) {
    (advance(m), StepView::Continue(Io::Nothing))
}

/// A file instruction: its path is resolved, then a flag for `io` is pushed.
pub open spec fn file_op_spec(m: MState, arg: Seq<char>, io: Io) -> (MState, StepView) {
    match path_spec(m.c, arg) {
        None => fatal(m, RuntimeError::ByteOutOfRange),
        Some((_, c)) => (advance(with_c(m, c.push(flag(io == Io::Done(true))))), StepView::Continue(io)),
    }
}

/// What instruction `t` does to `m`, given what its file system call gave (`io`),
/// in a program of `len` instructions.
pub open spec fn instr_spec(m: MState, t: Tok, io: Io, len: int) -> (MState, StepView) {
    match t {
        Tok::Exit => (m, StepView::Halted(Halt::Exit { index: m.ip as usize })),
        Tok::Print => if all_bytes(m.c) {
            (advance(with_c(m, Seq::<int>::empty())), StepView::Output(chars_of_bytes(popped_bytes(m.c))))
        } else {
            fatal(m, RuntimeError::ByteOutOfRange)
        },
        Tok::PrintNum => (advance(with_c(m, Seq::<int>::empty())), StepView::Output(popped_decimals(m.c))),
        Tok::GetNextIn => (m, StepView::NeedInput),
        Tok::CreateFile(arg) => file_op_spec(m, arg, io),
        Tok::CreateFileStream(arg) => file_op_spec(m, arg, io),
        Tok::OpenFileStream(arg) => file_op_spec(m, arg, io),
        Tok::ReadFileStream => (advance(with_c(m, match io {
            Io::Read(Some(b)) => m.c.push(b as int).push(1),
            _ => m.c.push(-1),
        })), StepView::Continue(io)),
        Tok::WriteFileStream => if all_bytes(m.c) {
            (advance(with_c(m, seq![flag(io == Io::Done(true))])), StepView::Continue(io))
        } else {
            fatal(m, RuntimeError::ByteOutOfRange)
        },
        Tok::Clear => go(with_c(m, Seq::<int>::empty())),
        Tok::Push(v) => go(with_c(m, m.c.push(v))),
        Tok::Pop(s) => if s > 2 {
            fatal(m, RuntimeError::InvalidStack)
        } else {
            go(with_stack(m, s, pop_rest(stack_of(m, s))))
        },
        Tok::Move(s, d) => if s > 2 || d > 2 {
            fatal(m, RuntimeError::InvalidStack)
        } else {
            let n = pop_value(stack_of(m, s));
            let m1 = with_stack(m, s, pop_rest(stack_of(m, s)));
            go(with_stack(m1, d, stack_of(m1, d).push(n)))
        },
        Tok::Copy(s, d) => if s > 2 || d > 2 {
            fatal(m, RuntimeError::InvalidStack)
        } else {
            let n = pop_value(stack_of(m, s));
            let m1 = with_stack(m, s, pop_rest(stack_of(m, s)).push(n));
            go(with_stack(m1, d, stack_of(m1, d).push(n)))
        },
        Tok::Jump(idx) => {
            let m1 = with_c(m, pop_rest(m.c));
            if pop_value(m.c) > 0 {
                if idx + 1 >= len {
                    (m1, StepView::Halted(Halt::End))
                } else {
                    (MState { ip: idx + 1, ..m1 }, StepView::Continue(Io::Nothing))
                }
            } else {
                go(m1)
            }
        },
        Tok::PreComputeJump(_) | Tok::Label(_) => go(m),
        _ => {
            let a = pop_value(m.a);
            let b = pop_value(m.b);
            match binary_spec(t, a, b) {
                Err(e) => fatal(m, e),
                Ok(v) => go(MState { a: pop_rest(m.a), b: pop_rest(m.b), c: m.c.push(v), ..m }),
            }
        },
    }
}

/// The byte that a one-byte read gave: none at the end of the file or on an error.
pub open spec fn first_byte(res: Option<Seq<u8>>) -> Option<u8> {
    match res {
        Some(v) => if v.len() > 0 {
            Some(v[0])
        } else {
            None
        },
        None => None,
    }
}

/// The file system call that instruction `t` makes from state `m`, with the
/// success that the step `s` reports: the path that it resolves, or the bytes
/// that it pops. None when the instruction fails before the call or is no
/// file instruction, and a read is left to `calls_follow`.
pub open spec fn file_call(m: MState, t: Tok, s: StepView) -> Seq<FsCall> {
    let ok = io_of(s) == Io::Done(true);
    match t {
        Tok::CreateFile(arg) => match path_spec(m.c, arg) {
            Some((p, _)) => seq![FsCall::Create(p, ok)],
            None => Seq::<FsCall>::empty(),
        },
        Tok::CreateFileStream(arg) => match path_spec(m.c, arg) {
            Some((p, _)) => seq![FsCall::Create(p, ok)],
            None => Seq::<FsCall>::empty(),
        },
        Tok::OpenFileStream(arg) => match path_spec(m.c, arg) {
            Some((p, _)) => seq![FsCall::Open(p, ok)],
            None => Seq::<FsCall>::empty(),
        },
        Tok::WriteFileStream => if all_bytes(m.c) {
            seq![FsCall::Write(popped_bytes(m.c), ok)]
        } else {
            Seq::<FsCall>::empty()
        },
        _ => Seq::<FsCall>::empty(),
    }
}

/// Whether the file system calls of one step of `prog` from `m`, which took
/// the record from `before` to `after`, are those that the instruction makes,
/// and the outcome that the step reports, `s`, is what they gave back.
pub open spec fn calls_follow(before: Seq<FsCall>, after: Seq<FsCall>, m: MState, prog: Seq<Tok>, s: StepView) -> bool {
    if 0 <= m.ip < prog.len() && prog[m.ip] is ReadFileStream {
        &&& after.len() == before.len() + 1
        &&& after.drop_last() == before
        &&& after.last() matches FsCall::Read(max, res) && max == 1 && io_of(s) == Io::Read(first_byte(res))
    } else if 0 <= m.ip < prog.len() {
        after == before + file_call(m, prog[m.ip], s)
    } else {
        after == before
    }
}

proof fn lemma_record_append(before: Seq<FsCall>)
    ensures
        forall|x: FsCall| #[trigger] before.push(x) == before + seq![x],
        before + Seq::<FsCall>::empty() == before,
        forall|x: FsCall| #[trigger] before.push(x).drop_last() == before,
{
    assert forall|x: FsCall| #[trigger] before.push(x) == before + seq![x] by {
        assert(before.push(x) =~= before + seq![x]);
    }
    assert(before + Seq::<FsCall>::empty() =~= before);
    assert forall|x: FsCall| #[trigger] before.push(x).drop_last() == before by {
        assert(before.push(x).drop_last() =~= before);
    }
}

/// Whether a step may change the write stream: a `writefilestream`, or a
/// `createfilestream` that succeeded.
pub open spec fn may_change_writer(m: MState, prog: Seq<Tok>, s: StepView) -> bool {
    0 <= m.ip < prog.len() && (prog[m.ip] is WriteFileStream || (prog[m.ip] is CreateFileStream
        && s == StepView::Continue(Io::Done(true))))
}

/// Whether a step may change the read stream: a `readfilestream`, or an
/// `openfilestream` that succeeded.
pub open spec fn may_change_reader(m: MState, prog: Seq<Tok>, s: StepView) -> bool {
    0 <= m.ip < prog.len() && (prog[m.ip] is ReadFileStream || (prog[m.ip] is OpenFileStream
        && s == StepView::Continue(Io::Done(true))))
}

/// One step of the machine on program `prog`, given what its file system call gave.
pub open spec fn step_spec(m: MState, prog: Seq<Tok>, io: Io) -> (MState, StepView) {
    if m.ip < 0 || m.ip >= prog.len() {
        (m, StepView::Halted(Halt::End))
    } else {
        instr_spec(m, prog[m.ip], io, prog.len() as int)
    }
}

/// The file system call that a step reports.
pub open spec fn io_of(s: StepView) -> Io {
    match s {
        StepView::Continue(io) => io,
        _ => Io::Nothing,
    }
}

/// Whether a step from `m` to `m2` reporting `s` is one that `step_spec` allows.
/// After an error the stacks are not described.
pub open spec fn step_follows(m: MState, prog: Seq<Tok>, m2: MState, s: StepView) -> bool {
    let (n, v) = step_spec(m, prog, io_of(s));
    &&& v == s
    &&& (!(s is Halted) ==> n == m2)
}


/// The byte of input at `k`, or `None` past its end.
pub open spec fn input_at(input: Seq<u8>, k: int) -> Option<u8> {
    if 0 <= k < input.len() {
        Some(input[k])
    } else {
        None
    }
}

/// What `give_input` does.
pub open spec fn give_spec(m: MState, byte: Option<u8>) -> MState {
    advance(with_c(m, match byte {
        Some(b) => m.c.push(b as int),
        None => m.c,
    }))
}

/// One round of a run: a step from `m`, with the next input byte (at `k`) handed
/// over when the step asks for one, leading to `m2` with `k2` bytes of input used.
pub open spec fn round_ok(
    prog: Seq<Tok>,
    input: Seq<u8>,
    m: MState,
    k: int,
    s: StepView,
    m2: MState,
    k2: int,
) -> bool {
    match s {
        StepView::NeedInput => {
            &&& step_spec(m, prog, Io::Nothing).1 == s
            &&& m2 == give_spec(m, input_at(input, k))
            &&& k2 == (if k < input.len() { k + 1 } else { k })
        },
        _ => step_follows(m, prog, m2, s) && k2 == k,
    }
}

/// Everything that the steps of a run printed, in order.
pub open spec fn outputs_of(ss: Seq<StepView>) -> Seq<char>
    decreases ss.len(),
{
    if ss.len() == 0 {
        Seq::<char>::empty()
    } else {
        outputs_of(ss.drop_last()) + match ss.last() {
            StepView::Output(t) => t,
            _ => Seq::<char>::empty(),
        }
    }
}

/// How a run of these steps ended, if it did.
pub open spec fn halt_of(ss: Seq<StepView>) -> Option<Halt> {
    if ss.len() > 0 && ss.last() is Halted {
        Some(ss.last()->Halted_0)
    } else {
        None
    }
}

/// Whether the states `ms`, input positions `ks` and steps `ss` form a run of
/// `prog` on `input`: each round follows from the one before, and only the last
/// step may halt.
pub open spec fn is_run(
    prog: Seq<Tok>,
    input: Seq<u8>,
    ms: Seq<MState>,
    ks: Seq<int>,
    ss: Seq<StepView>,
) -> bool {
    &&& ms.len() == ss.len() + 1
    &&& ks.len() == ss.len() + 1
    &&& ks[0] == 0
    &&& forall|i: int|
        0 <= i < ss.len() ==> round_ok(prog, input, ms[i], ks[i], #[trigger] ss[i], ms[i + 1], ks[i + 1])
    &&& forall|i: int| 0 <= i < ss.len() - 1 ==> !(#[trigger] ss[i] is Halted)
}

/// A step that asks for input changes nothing and stands inside the program.
pub proof fn lemma_need_input(m: MState, prog: Seq<Tok>, io: Io)
    ensures
        step_spec(m, prog, io).1 is NeedInput ==> step_spec(m, prog, io).0 == m && 0 <= m.ip < prog.len(),
{
}

/// Empty stacks at the first instruction.
pub open spec fn initial_state() -> MState {
    MState { a: Seq::<int>::empty(), b: Seq::<int>::empty(), c: Seq::<int>::empty(), ip: 0 }
}

/// The values that `n` pops of a stack give, in order.
pub open spec fn pops(s: Seq<int>, n: nat) -> Seq<int>
    decreases n,
{
    if n == 0 {
        Seq::<int>::empty()
    } else {
        seq![pop_value(s)] + pops(pop_rest(s), (n - 1) as nat)
    }
}

/// Popping an empty stack gives zero and leaves it empty, however many times
/// it is done; a `pop` of an empty stack A, B or C is no error.
pub proof fn lemma_pop_empty(m: MState, id: u8, n: nat, prog: Seq<Tok>)
    requires
        id <= 2,
        stack_of(m, id).len() == 0,
        0 <= m.ip < prog.len(),
        prog[m.ip] == Tok::Pop(id),
    ensures
        pops(stack_of(m, id), n) == Seq::new(n, |i: int| 0int),
        step_spec(m, prog, Io::Nothing) == (advance(m), StepView::Continue(Io::Nothing)),
    decreases n,
{
    assert(with_stack(m, id, pop_rest(stack_of(m, id))) == m);
    if n > 0 {
        lemma_pop_empty(m, id, (n - 1) as nat, prog);
        assert(pops(stack_of(m, id), n) =~= Seq::new(n, |i: int| 0int));
    } else {
        assert(pops(stack_of(m, id), n) =~= Seq::new(n, |i: int| 0int));
    }
}

/// The program of `n` pops of stack `s`, a move from `s` to C and a `printnum`.
pub open spec fn pops_then_print(s: u8, n: nat) -> Seq<Tok> {
    Seq::new(n, |i: int| Tok::Pop(s)) + seq![Tok::Move(s, 2), Tok::PrintNum]
}

pub open spec fn empty_at(ip: int) -> MState {
    MState { a: Seq::<int>::empty(), b: Seq::<int>::empty(), c: Seq::<int>::empty(), ip: ip }
}

proof fn lemma_pops_prefix(
    s: u8,
    n: nat,
    input: Seq<u8>,
    ms: Seq<MState>,
    ks: Seq<int>,
    ss: Seq<StepView>,
    i: int,
)
    requires
        s <= 2,
        is_run(pops_then_print(s, n), input, ms, ks, ss),
        ms[0] == initial_state(),
        ss.len() == n + 3,
        0 <= i <= n,
    ensures
        ms[i] == empty_at(i),
        forall|j: int| 0 <= j < i ==> #[trigger] ss[j] == StepView::Continue(Io::Nothing),
    decreases i,
{
    let prog = pops_then_print(s, n);
    if i > 0 {
        lemma_pops_prefix(s, n, input, ms, ks, ss, i - 1);
        let m = ms[i - 1];
        assert(prog[i - 1] == Tok::Pop(s));
        lemma_pop_empty(m, s, 0, prog);
        assert(round_ok(prog, input, ms[i - 1], ks[i - 1], ss[i - 1], ms[i], ks[i]));
        lemma_need_input(m, prog, io_of(ss[i - 1]));
        assert(with_stack(m, s, pop_rest(stack_of(m, s))) == m);
        assert(ms[i] =~= empty_at(i));
    }
}

proof fn lemma_outputs_quiet(ss: Seq<StepView>, k: int)
    requires
        0 <= k <= ss.len(),
        forall|j: int| 0 <= j < k ==> #[trigger] ss[j] == StepView::Continue(Io::Nothing),
    ensures
        outputs_of(ss.take(k)) == Seq::<char>::empty(),
    decreases k,
{
    if k > 0 {
        lemma_outputs_quiet(ss, k - 1);
        assert(ss.take(k).drop_last() =~= ss.take(k - 1));
        assert(ss.take(k).last() == ss[k - 1]);
    }
}

/// Popping an empty stack is never an error, however often it is done: a run
/// of `n` pops of stack `s`, a move from `s` to C and a `printnum`, from empty
/// stacks, prints `0` and reaches the end of the program.
pub proof fn lemma_pops_then_print(
    s: u8,
    n: nat,
    input: Seq<u8>,
    ms: Seq<MState>,
    ks: Seq<int>,
    ss: Seq<StepView>,
)
    requires
        s <= 2,
        is_run(pops_then_print(s, n), input, ms, ks, ss),
        ms[0] == initial_state(),
        ss.len() == n + 3,
    ensures
        outputs_of(ss) == seq!['0'],
        halt_of(ss) == Some(Halt::End),
{
    let prog = pops_then_print(s, n);
    let k: int = n as int;
    lemma_pops_prefix(s, n, input, ms, ks, ss, k);
    let m = ms[k];
    assert(m == empty_at(k));
    assert(prog[k] == Tok::Move(s, 2));
    assert(round_ok(prog, input, ms[k], ks[k], ss[k], ms[k + 1], ks[k + 1]));
    lemma_need_input(m, prog, io_of(ss[k]));
    assert(ss[k] == StepView::Continue(Io::Nothing));
    assert(ms[k + 1] =~= MState { c: seq![0int], ..empty_at(k + 1) }) by {
        let mm = with_stack(m, s, pop_rest(stack_of(m, s)));
        assert(mm == m);
    }
    assert(prog[k + 1] == Tok::PrintNum);
    assert(round_ok(prog, input, ms[k + 1], ks[k + 1], ss[k + 1], ms[k + 2], ks[k + 2]));
    lemma_need_input(ms[k + 1], prog, io_of(ss[k + 1]));
    let c1 = seq![0int];
    assert(c1.drop_last() =~= Seq::<int>::empty());
    assert(popped_decimals(c1) == decimal_text(0) + popped_decimals(Seq::<int>::empty()));
    assert(decimal_text(0) == seq!['0']);
    assert(seq!['0'] + Seq::<char>::empty() =~= seq!['0']);
    assert(ss[k + 1] == StepView::Output(seq!['0']));
    assert(!(ss[k + 1] is Halted));
    assert(ms[k + 2].ip == k + 2);
    assert(round_ok(prog, input, ms[k + 2], ks[k + 2], ss[k + 2], ms[k + 3], ks[k + 3]));
    lemma_need_input(ms[k + 2], prog, io_of(ss[k + 2]));
    assert(ss[k + 2] == StepView::Halted(Halt::End));
    lemma_outputs_quiet(ss, k + 1);
    assert(ss.take(k + 3).drop_last() =~= ss.take(k + 2));
    assert(ss.take(k + 2).drop_last() =~= ss.take(k + 1));
    let t2 = ss.take(k + 2);
    assert(ss.drop_last() =~= t2);
    assert(ss.last() == ss[k + 2]);
    assert(outputs_of(ss) == outputs_of(t2) + Seq::<char>::empty());
    assert(t2.drop_last() =~= ss.take(k + 1));
    assert(t2.last() == ss[k + 1]);
    assert(outputs_of(t2) == outputs_of(ss.take(k + 1)) + seq!['0']);
    assert(Seq::<char>::empty() + seq!['0'] =~= seq!['0']);
    assert(seq!['0'] + Seq::<char>::empty() =~= seq!['0']);
}

/// `push:v` then `printnum` prints the decimal text of `v` before whatever
/// stack C held, and leaves stack C empty; on an empty stack C it prints that
/// text alone.
pub proof fn lemma_push_printnum(m: MState, prog: Seq<Tok>, v: int)
    requires
        0 <= m.ip,
        m.ip + 1 < prog.len(),
        prog[m.ip] == Tok::Push(v),
        prog[m.ip + 1] == Tok::PrintNum,
    ensures
        ({
            let (m1, s1) = step_spec(m, prog, Io::Nothing);
            let (m2, s2) = step_spec(m1, prog, Io::Nothing);
            &&& s1 == StepView::Continue(Io::Nothing)
            &&& s2 == StepView::Output(decimal_text(v) + popped_decimals(m.c))
            &&& m2.c.len() == 0
            &&& m2.ip == m.ip + 2
            &&& (m.c.len() == 0 ==> s2 == StepView::Output(decimal_text(v)))
        }),
{
    let c1 = m.c.push(v);
    let m1 = advance(with_c(m, c1));
    assert(step_spec(m, prog, Io::Nothing) == (m1, StepView::Continue(Io::Nothing)));
    assert(c1.drop_last() =~= m.c);
    assert(popped_decimals(c1) == decimal_text(v) + popped_decimals(m.c));
    assert(step_spec(m1, prog, Io::Nothing) == (advance(with_c(m1, Seq::<int>::empty())), StepView::Output(
        popped_decimals(c1),
    )));
    assert(popped_decimals(Seq::<int>::empty()) == Seq::<char>::empty());
    assert(decimal_text(v) + Seq::<char>::empty() =~= decimal_text(v));
}

/// The program text `push:<v> printnum`, with `v` written in decimal.
pub open spec fn push_printnum_text(v: int) -> Seq<char> {
    seq!['p', 'u', 's', 'h', ':'] + decimal_text(v) + seq![' ', 'p', 'r', 'i', 'n', 't', 'n', 'u', 'm']
}

/// For every integer `v`, the program `push:<v> printnum` reads and resolves
/// to a push of `v`, a `printnum` and the line's clear, and its second step
/// prints the decimal text of `v`, once.
pub proof fn lemma_push_printnum_text(v: int)
    ensures
        parse_spec(push_printnum_text(v)) == Ok::<Seq<Tok>, ParseFault>(seq![Tok::Push(v), Tok::PrintNum, Tok::Clear]),
        optimize_spec(seq![Tok::Push(v), Tok::PrintNum, Tok::Clear]) == seq![Tok::Push(v), Tok::PrintNum, Tok::Clear],
        ({
            let prog = seq![Tok::Push(v), Tok::PrintNum, Tok::Clear];
            let (m1, s1) = step_spec(initial_state(), prog, Io::Nothing);
            let (m2, s2) = step_spec(m1, prog, Io::Nothing);
            s2 == StepView::Output(decimal_text(v))
        }),
{
    let d = decimal_text(v);
    let head = seq!['p', 'u', 's', 'h'];
    let word = head + seq![':'] + d;
    let name = seq!['p', 'r', 'i', 'n', 't', 'n', 'u', 'm'];
    let t = push_printnum_text(v);
    lemma_decimal_text_chars(v);
    lemma_decimal_round_trip(v);
    assert(t =~= word + seq![' '] + name);
    assert(!d.contains(' ') && !d.contains(':') && !d.contains('\n')) by {
        assert forall|i: int| 0 <= i < d.len() implies d[i] != ' ' && d[i] != ':' && d[i] != '\n' by {
            assert(is_decimal_digit(d[i]) || d[i] == '-');
        }
    }
    assert(!t.contains('\n')) by {
        assert forall|i: int| 0 <= i < t.len() implies t[i] != '\n' by {
            if 5 <= i < 5 + d.len() {
                assert(t[i] == d[i - 5]);
            }
        }
    }
    assert(!word.contains(' ')) by {
        assert forall|i: int| 0 <= i < word.len() implies word[i] != ' ' by {
            if 5 <= i {
                assert(word[i] == d[i - 5]);
            }
        }
    }
    assert(!name.contains(' ') && !name.contains(':')) by {
        assert forall|i: int| 0 <= i < name.len() implies name[i] != ' ' && name[i] != ':' by {}
    }
    assert(!head.contains(':')) by {
        assert forall|i: int| 0 <= i < head.len() implies head[i] != ':' by {}
    }
    lemma_split_whole(t, '\n');
    let p = split_spec(t, '\n');
    assert(p.drop_last() =~= Seq::<Seq<char>>::empty());
    assert(lines_spec(t) =~= seq![t]);
    lemma_split_last(word, ' ', name);
    lemma_split_whole(word, ' ');
    let ws = split_spec(t, ' ');
    assert(ws =~= seq![word, name]);
    lemma_split_last(head, ':', d);
    lemma_split_whole(head, ':');
    assert(split_spec(word, ':') =~= seq![head, d]);
    lemma_split_whole(name, ':');
    assert(command_spec(word) == Ok::<Command<Tok>, ParseFault>(Command::Emit(Tok::Push(v))));
    assert(command_spec(name) == Ok::<Command<Tok>, ParseFault>(Command::Emit(Tok::PrintNum)));
    assert(ws.drop_first() =~= seq![name]);
    assert(seq![name].drop_first() =~= Seq::<Seq<char>>::empty());
    assert(line_spec(Seq::<Seq<char>>::empty()) == Ok::<Seq<Tok>, ParseFault>(Seq::<Tok>::empty()));
    assert(line_spec(seq![name]) == Ok::<Seq<Tok>, ParseFault>(seq![Tok::PrintNum] + Seq::<Tok>::empty()));
    assert(seq![Tok::PrintNum] + Seq::<Tok>::empty() =~= seq![Tok::PrintNum]);
    assert(seq![Tok::Push(v)] + seq![Tok::PrintNum] =~= seq![Tok::Push(v), Tok::PrintNum]);
    assert(line_spec(ws) == Ok::<Seq<Tok>, ParseFault>(seq![Tok::Push(v), Tok::PrintNum]));
    assert(seq![t].drop_first() =~= Seq::<Seq<char>>::empty());
    assert(program_spec(Seq::<Seq<char>>::empty()) == Ok::<Seq<Tok>, ParseFault>(Seq::<Tok>::empty()));
    assert(seq![Tok::Push(v), Tok::PrintNum].push(Tok::Clear) + Seq::<Tok>::empty()
        =~= seq![Tok::Push(v), Tok::PrintNum, Tok::Clear]);
    let prog = seq![Tok::Push(v), Tok::PrintNum, Tok::Clear];
    reveal_with_fuel(collapse_spec, 4);
    assert(prog.drop_last() =~= seq![Tok::Push(v), Tok::PrintNum]);
    assert(prog.drop_last().drop_last() =~= seq![Tok::Push(v)]);
    assert(prog.drop_last().drop_last().drop_last() =~= Seq::<Tok>::empty());
    assert(collapse_spec(prog) =~= prog);
    assert(resolve_spec(prog) =~= prog);
    lemma_push_printnum(initial_state(), prog, v);
    assert(popped_decimals(Seq::<int>::empty()) == Seq::<char>::empty());
    assert(decimal_text(v) + Seq::<char>::empty() =~= decimal_text(v));
}

/// The machine depends on its file system only through what the calls give
/// back: two runs of one program on one input, from one state, whose steps
/// report the same outcomes of their file system calls take the same steps
/// through the same states, print the same text and end the same way.
pub proof fn lemma_runs_agree(
    prog: Seq<Tok>,
    input: Seq<u8>,
    ms1: Seq<MState>,
    ks1: Seq<int>,
    ss1: Seq<StepView>,
    ms2: Seq<MState>,
    ks2: Seq<int>,
    ss2: Seq<StepView>,
)
    requires
        is_run(prog, input, ms1, ks1, ss1),
        is_run(prog, input, ms2, ks2, ss2),
        ms1[0] == ms2[0],
        ss1.len() == ss2.len(),
        forall|i: int| 0 <= i < ss1.len() ==> io_of(#[trigger] ss1[i]) == io_of(ss2[i]),
    ensures
        ss1 == ss2,
        outputs_of(ss1) == outputs_of(ss2),
        halt_of(ss1) == halt_of(ss2),
        forall|i: int| 0 <= i <= ss1.len() && (i == 0 || !(ss1[i - 1] is Halted)) ==> ms1[i] == ms2[i],
{
    let n = ss1.len();
    assert forall|j: int| 0 <= j <= n implies (j == 0 || !(#[trigger] ss1[j - 1] is Halted)) ==> ms1[j] == ms2[j]
        && ks1[j] == ks2[j] && (forall|t: int| 0 <= t < j ==> ss1[t] == ss2[t]) by {
        lemma_runs_agree_upto(prog, input, ms1, ks1, ss1, ms2, ks2, ss2, j);
    }
    assert forall|t: int| 0 <= t < n implies ss1[t] == ss2[t] by {
        lemma_runs_agree_upto(prog, input, ms1, ks1, ss1, ms2, ks2, ss2, t);
        assert(t == 0 || !(ss1[t - 1] is Halted));
        let m = ms1[t];
        let k = ks1[t];
        assert(round_ok(prog, input, ms1[t], ks1[t], ss1[t], ms1[t + 1], ks1[t + 1]));
        assert(round_ok(prog, input, ms2[t], ks2[t], ss2[t], ms2[t + 1], ks2[t + 1]));
        lemma_need_input(m, prog, io_of(ss1[t]));
    }
    assert(ss1 =~= ss2);
}

#[verifier::rlimit(50)]
proof fn lemma_runs_agree_upto(
    prog: Seq<Tok>,
    input: Seq<u8>,
    ms1: Seq<MState>,
    ks1: Seq<int>,
    ss1: Seq<StepView>,
    ms2: Seq<MState>,
    ks2: Seq<int>,
    ss2: Seq<StepView>,
    j: int,
)
    requires
        is_run(prog, input, ms1, ks1, ss1),
        is_run(prog, input, ms2, ks2, ss2),
        ms1[0] == ms2[0],
        ss1.len() == ss2.len(),
        forall|i: int| 0 <= i < ss1.len() ==> io_of(#[trigger] ss1[i]) == io_of(ss2[i]),
        0 <= j <= ss1.len(),
    ensures
        (j == 0 || !(ss1[j - 1] is Halted)) ==> ms1[j] == ms2[j] && ks1[j] == ks2[j]
            && (forall|t: int| 0 <= t < j ==> ss1[t] == ss2[t]),
    decreases j,
{
    if j > 0 {
        let t = j - 1;
        if t == 0 || !(ss1[t - 1] is Halted) {
            lemma_runs_agree_upto(prog, input, ms1, ks1, ss1, ms2, ks2, ss2, t);
        } else {
            assert(t - 1 < ss1.len() - 1);
        }
        assert(round_ok(prog, input, ms1[t], ks1[t], ss1[t], ms1[t + 1], ks1[t + 1]));
        assert(round_ok(prog, input, ms2[t], ks2[t], ss2[t], ms2[t + 1], ks2[t + 1]));
        lemma_need_input(ms1[t], prog, io_of(ss1[t]));
    }
}

/// A finished or interrupted run: what it printed and how it ended (`None`
/// when the step budget ran out first).
pub struct Run {
    pub output: Vec<char>,
    pub halt: Option<Halt>,
}

/// The scratch file that holds the machine's first streams.
pub const SCRATCH_PATH: &'static str = "staqdump";

/// The result of a binary instruction.
fn binary(t: &TokenType, a: &Integer, b: &Integer) -> (r: Result<Integer, RuntimeError>)
    requires
        is_binary(t@),
    ensures
        match binary_spec(t@, a@, b@) {
            Ok(v) => r matches Ok(x) && x@ == v,
            Err(e) => r matches Err(x) && x == e,
        },
{
    let zero = Integer::zero();
    let one = Integer::from_i8(1);
    match t {
        TokenType::Add => Ok(a.add(b)),
        TokenType::Subtract => Ok(a.sub(b)),
        TokenType::Multiply => Ok(a.mul(b)),
        TokenType::Divide => match b.compare(&zero) {
            Ordering::Equal => Err(RuntimeError::DivisionByZero),
            _ => Ok(a.div(b)),
        },
        TokenType::Modulo => match b.compare(&zero) {
            Ordering::Equal => Err(RuntimeError::DivisionByZero),
            _ => Ok(a.rem(b)),
        },
        TokenType::Equal => match a.compare(b) {
            Ordering::Equal => Ok(one),
            _ => Ok(zero),
        },
        TokenType::LessThan => match a.compare(b) {
            Ordering::Less => Ok(one),
            _ => Ok(zero),
        },
        TokenType::LessThanOrEqual => match a.compare(b) {
            Ordering::Greater => Ok(zero),
            _ => Ok(one),
        },
        TokenType::GreaterThan => match a.compare(b) {
            Ordering::Greater => Ok(one),
            _ => Ok(zero),
        },
        TokenType::GreaterThanOrEqual => match a.compare(b) {
            Ordering::Less => Ok(zero),
            _ => Ok(one),
        },
        TokenType::BitAnd => Ok(a.bit_and(b)),
        TokenType::BitOr => Ok(a.bit_or(b)),
        TokenType::BitXor => Ok(a.bit_xor(b)),
        TokenType::BitRightShift => match b.to_i128() {
            Some(n) => if n >= 0 {
                Ok(a.shift_right(n))
            } else {
                Err(RuntimeError::ShiftOutOfRange)
            },
            None => Err(RuntimeError::ShiftOutOfRange),
        },
        _ => match b.to_i128() {
            Some(n) => if n < 0 {
                Err(RuntimeError::ShiftOutOfRange)
            } else if matches!(a.compare(&zero), Ordering::Equal) {
                Ok(zero)
            } else if n <= u32::MAX as i128 {
                Ok(a.shift_left(n as u32))
            } else {
                Err(RuntimeError::ShiftOutOfRange)
            },
            None => Err(RuntimeError::ShiftOutOfRange),
        },
    }
}

/// The three stacks, the instruction pointer and the current read and write
/// streams of one run.
pub struct Machine<F: FileSystem> {
    a: Stack,
    b: Stack,
    c: Stack,
    ip: usize,
    reader: F::Stream,
    writer: F::Stream,
}

impl<F: FileSystem> Machine<F> {
    /// The stacks and the instruction pointer.
    pub closed spec fn model(&self) -> MState {
        MState { a: self.a@, b: self.b@, c: self.c@, ip: self.ip as int }
    }

    /// The stream that `writefilestream` writes to.
    pub closed spec fn writer(&self) -> F::Stream {
        self.writer
    }

    /// The stream that `readfilestream` reads from.
    pub closed spec fn reader(&self) -> F::Stream {
        self.reader
    }

    /// A machine with empty stacks at the first instruction. Its streams write
    /// and read the scratch file, which is created here.
    pub fn new(fs: &mut F) -> (r: Result<Machine<F>, IoError>)
        ensures
            r matches Ok(m) ==> m.model() == initial_state(),
            r is Ok ==> final(fs).calls() == old(fs).calls().push(FsCall::Create(SCRATCH_PATH@, true)).push(
                FsCall::Open(SCRATCH_PATH@, true),
            ),
            r is Err ==> final(fs).calls() == old(fs).calls().push(FsCall::Create(SCRATCH_PATH@, false))
                || final(fs).calls() == old(fs).calls().push(FsCall::Create(SCRATCH_PATH@, true)).push(
                FsCall::Open(SCRATCH_PATH@, false),
            ),
    {
        let writer = match fs.create_file_stream(SCRATCH_PATH) {
            Ok(w) => w,
            Err(e) => return Err(e),
        };
        let reader = match fs.open_file_stream(SCRATCH_PATH) {
            Ok(r) => r,
            Err(e) => return Err(e),
        };
        Ok(Machine { a: Stack::new(), b: Stack::new(), c: Stack::new(), ip: 0, reader, writer })
    }

    /// Removes the scratch file.
    pub fn finish(self, fs: &mut F) -> (r: Result<(), IoError>)
        ensures
            final(fs).calls() == old(fs).calls().push(FsCall::Remove(SCRATCH_PATH@, r is Ok)),
    {
        fs.remove_file(SCRATCH_PATH)
    }

    /// The index of the next instruction.
    pub fn ip(&self) -> (r: usize)
        ensures
            r == self.model().ip,
    {
        self.ip
    }

    fn pop_from(&mut self, id: u8) -> (r: Integer)
        requires
            id <= 2,
        ensures
            final(self).writer == old(self).writer,
            final(self).reader == old(self).reader,
            r@ == pop_value(stack_of(old(self).model(), id)),
            final(self).model() == with_stack(old(self).model(), id, pop_rest(stack_of(old(self).model(), id))),
    {
        if id == 0 {
            self.a.pop()
        } else if id == 1 {
            self.b.pop()
        } else {
            self.c.pop()
        }
    }

    fn push_to(&mut self, id: u8, v: Integer)
        requires
            id <= 2,
        ensures
            final(self).writer == old(self).writer,
            final(self).reader == old(self).reader,
            final(self).model() == with_stack(old(self).model(), id, stack_of(old(self).model(), id).push(v@)),
    {
        if id == 0 {
            self.a.push(v)
        } else if id == 1 {
            self.b.push(v)
        } else {
            self.c.push(v)
        }
    }

    /// Pops all of stack C as bytes, or gives `None` at the first value that is not one.
    fn pop_all_bytes(&mut self) -> (r: Option<Vec<u8>>)
        ensures
            final(self).writer == old(self).writer,
            final(self).reader == old(self).reader,
            final(self).model().a == old(self).model().a,
            final(self).model().b == old(self).model().b,
            final(self).model().ip == old(self).model().ip,
            all_bytes(old(self).model().c) ==> (r matches Some(v) && v@ == popped_bytes(old(self).model().c)
                && final(self).model().c == Seq::<int>::empty()),
            !all_bytes(old(self).model().c) ==> r is None,
    {
        let ghost c0 = self.c@;
        let mut out: Vec<u8> = Vec::new();
        while self.c.len() > 0
            invariant
                self.a@ == old(self).a@,
                self.b@ == old(self).b@,
                self.ip == old(self).ip,
                self.writer == old(self).writer,
                self.reader == old(self).reader,
                c0 == old(self).c@,
                self.c@.len() <= c0.len(),
                self.c@ == c0.take(self.c@.len() as int),
                out@ == popped_bytes(c0).take(c0.len() - self.c@.len()),
                forall|i: int| self.c@.len() <= i < c0.len() ==> 0 <= #[trigger] c0[i] <= 255,
            decreases self.c@.len(),
        {
            let ghost k = self.c@.len();
            let v = self.c.pop();
            match v.to_u8() {
                Some(b) => {
                    out.push(b);
                    assert(self.c@ =~= c0.take(k - 1));
                    assert(out@ =~= popped_bytes(c0).take(c0.len() - (k - 1)));
                },
                None => {
                    return None;
                },
            }
        }
        assert(out@ =~= popped_bytes(c0));
        Some(out)
    }

    /// The path of a file instruction: its own text if it has one, else stack C
    /// popped whole as characters.
    fn file_path(&mut self, arg: &String) -> (r: Option<String>)
        ensures
            final(self).writer == old(self).writer,
            final(self).reader == old(self).reader,
            final(self).model().a == old(self).model().a,
            final(self).model().b == old(self).model().b,
            final(self).model().ip == old(self).model().ip,
            match path_spec(old(self).model().c, arg@) {
                None => r is None,
                Some((p, c)) => r matches Some(s) && s@ == p && final(self).model().c == c,
            },
    {
        if !arg.as_str().is_empty() {
            return Some(arg.clone());
        }
        match self.pop_all_bytes() {
            None => None,
            Some(bytes) => {
                let mut chars: Vec<char> = Vec::new();
                let mut i: usize = 0;
                while i < bytes.len()
                    invariant
                        0 <= i <= bytes@.len(),
                        chars@ == chars_of_bytes(bytes@).take(i as int),
                    decreases bytes@.len() - i,
                {
                    chars.push(bytes[i] as char);
                    assert(chars@ =~= chars_of_bytes(bytes@).take(i as int + 1));
                    i = i + 1;
                }
                assert(chars@ =~= chars_of_bytes(bytes@));
                Some(string_of(&chars))
            },
        }
    }

    /// Pops all of stack C and gives the decimal texts of its values in pop order.
    fn pop_all_decimals(&mut self) -> (r: Vec<char>)
        ensures
            final(self).writer == old(self).writer,
            final(self).reader == old(self).reader,
            final(self).model() == with_c(old(self).model(), Seq::<int>::empty()),
            r@ == popped_decimals(old(self).model().c),
    {
        let ghost c0 = self.c@;
        let mut out: Vec<char> = Vec::new();
        while self.c.len() > 0
            invariant
                self.a@ == old(self).a@,
                self.b@ == old(self).b@,
                self.ip == old(self).ip,
                self.writer == old(self).writer,
                self.reader == old(self).reader,
                c0 == old(self).c@,
                out@ + popped_decimals(self.c@) == popped_decimals(c0),
            decreases self.c@.len(),
        {
            let ghost c = self.c@;
            let v = self.c.pop();
            let mut d = v.to_decimal();
            let ghost o = out@;
            out.append(&mut d);
            assert(o + popped_decimals(c) =~= out@ + popped_decimals(self.c@));
        }
        assert(self.c@ =~= Seq::<int>::empty());
        assert(out@ + popped_decimals(self.c@) =~= out@);
        out
    }

    fn push_flag(&mut self, ok: bool)
        ensures
            final(self).writer == old(self).writer,
            final(self).reader == old(self).reader,
            final(self).model() == with_c(old(self).model(), old(self).model().c.push(flag(ok))),
    {
        let v = if ok { Integer::from_i8(1) } else { Integer::from_i8(-1) };
        self.c.push(v);
    }

    fn fatal(&self, e: RuntimeError) -> (r: Step)
        ensures
            r@ == fatal(self.model(), e).1,
    {
        Step::Halted { halt: Halt::Fatal { index: self.ip, error: e } }
    }

    /// Carries out the next instruction of `tokens`, calling `fs` for file
    /// instructions. A `getnextin` is not carried out here: the step reports
    /// `NeedInput` and `give_input` finishes it.
    #[verifier::rlimit(100)]
    pub fn step(&mut self, tokens: &Vec<TokenType>, fs: &mut F) -> (r: Step)
        ensures
            step_follows(old(self).model(), toks_of(tokens@), final(self).model(), r@),
            calls_follow(old(fs).calls(), final(fs).calls(), old(self).model(), toks_of(tokens@), r@),
            !may_change_writer(old(self).model(), toks_of(tokens@), r@) ==> final(self).writer()
                == old(self).writer(),
            !may_change_reader(old(self).model(), toks_of(tokens@), r@) ==> final(self).reader()
                == old(self).reader(),
    {
        let ghost prog = toks_of(tokens@);
        proof {
            lemma_record_append(fs.calls());
        }
        if self.ip >= tokens.len() {
            return Step::Halted { halt: Halt::End };
        }
        let ip = self.ip;
        assert(prog[ip as int] == tokens@[ip as int]@);
        let t = &tokens[ip];
        match t {
            TokenType::Exit => Step::Halted { halt: Halt::Exit { index: ip } },
            TokenType::Print => match self.pop_all_bytes() {
                None => self.fatal(RuntimeError::ByteOutOfRange),
                Some(bytes) => {
                    let mut chars: Vec<char> = Vec::new();
                    let mut i: usize = 0;
                    while i < bytes.len()
                        invariant
                            0 <= i <= bytes@.len(),
                            chars@ == chars_of_bytes(bytes@).take(i as int),
                        decreases bytes@.len() - i,
                    {
                        chars.push(bytes[i] as char);
                        assert(chars@ =~= chars_of_bytes(bytes@).take(i as int + 1));
                        i = i + 1;
                    }
                    assert(chars@ =~= chars_of_bytes(bytes@));
                    self.ip = ip + 1;
                    Step::Output { text: chars }
                },
            },
            TokenType::PrintNum => {
                let text = self.pop_all_decimals();
                self.ip = ip + 1;
                Step::Output { text }
            },
            TokenType::GetNextIn => Step::NeedInput,
            TokenType::CreateFile { arg } => match self.file_path(arg) {
                None => self.fatal(RuntimeError::ByteOutOfRange),
                Some(path) => {
                    let ok = fs.create_file_stream(path.as_str()).is_ok();
                    self.push_flag(ok);
                    self.ip = ip + 1;
                    Step::Continue { io: Io::Done(ok) }
                },
            },
            TokenType::CreateFileStream { arg } => match self.file_path(arg) {
                None => self.fatal(RuntimeError::ByteOutOfRange),
                Some(path) => {
                    let ok = match fs.create_file_stream(path.as_str()) {
                        Ok(w) => {
                            self.writer = w;
                            true
                        },
                        Err(_) => false,
                    };
                    self.push_flag(ok);
                    self.ip = ip + 1;
                    Step::Continue { io: Io::Done(ok) }
                },
            },
            TokenType::OpenFileStream { arg } => match self.file_path(arg) {
                None => self.fatal(RuntimeError::ByteOutOfRange),
                Some(path) => {
                    let ok = match fs.open_file_stream(path.as_str()) {
                        Ok(rd) => {
                            self.reader = rd;
                            true
                        },
                        Err(_) => false,
                    };
                    self.push_flag(ok);
                    self.ip = ip + 1;
                    Step::Continue { io: Io::Done(ok) }
                },
            },
            TokenType::ReadFileStream => {
                let res = fs.read(&mut self.reader, 1);
                let got: Option<u8> = match &res {
                    Ok(v) => if v.len() > 0 {
                        Some(v[0])
                    } else {
                        None
                    },
                    Err(_) => None,
                };
                assert(got == first_byte(read_record(res)));
                match got {
                    Some(b) => {
                        self.c.push(Integer::from_u8(b));
                        self.push_flag(true);
                    },
                    None => self.push_flag(false),
                }
                self.ip = ip + 1;
                Step::Continue { io: Io::Read(got) }
            },
            TokenType::WriteFileStream => match self.pop_all_bytes() {
                None => self.fatal(RuntimeError::ByteOutOfRange),
                Some(bytes) => {
                    let ok = fs.write(&mut self.writer, bytes.as_slice()).is_ok();
                    self.push_flag(ok);
                    assert(self.c@ =~= seq![flag(ok)]);
                    self.ip = ip + 1;
                    Step::Continue { io: Io::Done(ok) }
                },
            },
            TokenType::Clear => {
                self.c.clear();
                self.ip = ip + 1;
                Step::Continue { io: Io::Nothing }
            },
            TokenType::Push { arg } => {
                self.c.push(arg.duplicate());
                self.ip = ip + 1;
                Step::Continue { io: Io::Nothing }
            },
            TokenType::Pop { arg } => {
                if *arg > 2 {
                    return self.fatal(RuntimeError::InvalidStack);
                }
                self.pop_from(*arg);
                self.ip = ip + 1;
                Step::Continue { io: Io::Nothing }
            },
            TokenType::Move { arg } => {
                let s = arg[0];
                let d = arg[1];
                if s > 2 || d > 2 {
                    return self.fatal(RuntimeError::InvalidStack);
                }
                let n = self.pop_from(s);
                self.push_to(d, n);
                self.ip = ip + 1;
                Step::Continue { io: Io::Nothing }
            },
            TokenType::Copy { arg } => {
                let s = arg[0];
                let d = arg[1];
                if s > 2 || d > 2 {
                    return self.fatal(RuntimeError::InvalidStack);
                }
                let n = self.pop_from(s);
                self.push_to(s, n.duplicate());
                self.push_to(d, n);
                self.ip = ip + 1;
                Step::Continue { io: Io::Nothing }
            },
            TokenType::Jump { arg } => {
                let n = self.c.pop();
                match n.compare(&Integer::zero()) {
                    Ordering::Greater => {
                        if *arg >= tokens.len() - 1 {
                            Step::Halted { halt: Halt::End }
                        } else {
                            self.ip = *arg + 1;
                            Step::Continue { io: Io::Nothing }
                        }
                    },
                    _ => {
                        self.ip = ip + 1;
                        Step::Continue { io: Io::Nothing }
                    },
                }
            },
            TokenType::PreComputeJump { .. } | TokenType::Label { .. } => {
                self.ip = ip + 1;
                Step::Continue { io: Io::Nothing }
            },
            _ => {
                let a = self.a.pop();
                let b = self.b.pop();
                match binary(t, &a, &b) {
                    Err(e) => Step::Halted { halt: Halt::Fatal { index: ip, error: e } },
                    Ok(v) => {
                        self.c.push(v);
                        self.ip = ip + 1;
                        Step::Continue { io: Io::Nothing }
                    },
                }
            },
        }
    }

    /// Finishes a `getnextin` with the byte that was read, or with `None` at the
    /// end of the input, which pushes nothing.
    pub fn give_input(&mut self, byte: Option<u8>)
        requires
            old(self).model().ip < usize::MAX,
        ensures
            final(self).model() == advance(with_c(old(self).model(), match byte {
                Some(b) => old(self).model().c.push(b as int),
                None => old(self).model().c,
            })),
    {
        match byte {
            Some(b) => self.c.push(Integer::from_u8(b)),
            None => {},
        }
        self.ip = self.ip + 1;
    }

    /// Runs at most `max_steps` steps of `tokens`, handing over the bytes of
    /// `input` in order to the `getnextin` instructions (none once it is used up).
    pub fn run(&mut self, tokens: &Vec<TokenType>, fs: &mut F, input: &Vec<u8>, max_steps: usize) -> (r: Run)
        ensures
            exists|ms: Seq<MState>, ks: Seq<int>, ss: Seq<StepView>|
                {
                    &&& is_run(toks_of(tokens@), input@, ms, ks, ss)
                    &&& ms[0] == old(self).model()
                    &&& r.output@ == outputs_of(ss)
                    &&& r.halt == halt_of(ss)
                    &&& (r.halt is None ==> ss.len() == max_steps)
                },
    {
        let ghost prog = toks_of(tokens@);
        let ghost mut ms: Seq<MState> = seq![self.model()];
        let ghost mut ks: Seq<int> = seq![0];
        let ghost mut ss: Seq<StepView> = Seq::empty();
        let mut out: Vec<char> = Vec::new();
        let mut k: usize = 0;
        let mut count: usize = 0;
        while count < max_steps
            invariant
                prog == toks_of(tokens@),
                count <= max_steps,
                ss.len() == count,
                is_run(prog, input@, ms, ks, ss),
                ms[0] == old(self).model(),
                ms.last() == self.model(),
                ks.last() == k as int,
                k <= input@.len(),
                out@ == outputs_of(ss),
                halt_of(ss) is None,
            decreases max_steps - count,
        {
            let ghost m0 = self.model();
            let ghost ss0 = ss;
            let st = self.step(tokens, fs);
            let ghost v = st@;
            proof {
                lemma_need_input(m0, prog, io_of(v));
            }
            match st {
                Step::Halted { halt } => {
                    let ghost old_ss = ss;
                    proof {
                        ss = ss.push(v);
                        ms = ms.push(m0);
                        ks = ks.push(k as int);
                        assert(ss.drop_last() =~= old_ss);
                        assert(outputs_of(ss) =~= outputs_of(old_ss));
                        assert forall|i: int| 0 <= i < ss.len() - 1 implies !(#[trigger] ss[i] is Halted) by {
                            assert(ss[i] == old_ss[i]);
                            if i < old_ss.len() - 1 {
                            } else {
                                assert(old_ss.last() == old_ss[i]);
                            }
                        }
                        assert forall|i: int| 0 <= i < ss.len() implies round_ok(prog, input@, ms[i], ks[i], #[trigger] ss[i], ms[i + 1], ks[i + 1]) by {
                            if i < old_ss.len() {
                                assert(ss[i] == old_ss[i]);
                            }
                        }
                        assert(is_run(prog, input@, ms, ks, ss));
                    }
                    let r = Run { output: out, halt: Some(halt) };
                    assert(r.halt == halt_of(ss));
                    return r;
                },
                Step::Output { text } => {
                    let mut text = text;
                    out.append(&mut text);
                    proof {
                        ss = ss.push(v);
                        ms = ms.push(self.model());
                        ks = ks.push(k as int);
                    }
                },
                Step::NeedInput => {
                    assert(0 <= m0.ip < prog.len());
                    assert(prog.len() == tokens@.len());
                    let n = tokens.len();
                    assert(self.model() == m0);
                    let byte = if k < input.len() {
                        Some(input[k])
                    } else {
                        None
                    };
                    self.give_input(byte);
                    if k < input.len() {
                        k = k + 1;
                    }
                    proof {
                        ss = ss.push(v);
                        ms = ms.push(self.model());
                        ks = ks.push(k as int);
                    }
                },
                Step::Continue { .. } => {
                    proof {
                        ss = ss.push(v);
                        ms = ms.push(self.model());
                        ks = ks.push(k as int);
                    }
                },
            }
            assert(ss.drop_last() =~= ss0);
            count = count + 1;
        }
        Run { output: out, halt: None }
    }
}

} // verus!

verus! {

/// Why a program did not run.
pub enum RunError {
    /// The text is not a program.
    Parse(ParseError),
    /// The scratch file could not be created or opened.
    Start(IoError),
}

/// Reads, resolves and runs a program on `file_system`, for at most `max_steps`
/// steps, with `input` as what `getnextin` reads. The scratch file is removed
/// afterwards, however the run ended.
pub fn run_from_string<F: FileSystem>(
    string: String,
    file_system: &mut F,
    input: &Vec<u8>,
    max_steps: usize,
) -> (r: Result<Run, RunError>)
    ensures
        match parse_spec(string@) {
            Err(e) => r matches Err(RunError::Parse(x)) && x@ == e,
            Ok(ts) => match r {
                Ok(run) => exists|ms: Seq<MState>, ks: Seq<int>, ss: Seq<StepView>|
                    {
                        &&& is_run(optimize_spec(ts), input@, ms, ks, ss)
                        &&& ms[0] == initial_state()
                        &&& run.output@ == outputs_of(ss)
                        &&& run.halt == halt_of(ss)
                        &&& (run.halt is None ==> ss.len() == max_steps)
                    },
                Err(e) => e is Start,
            },
        },
        r matches Err(RunError::Parse(_)) ==> *final(file_system) == *old(file_system),
{
    let tokens = match parse(string.as_str()) {
        Ok(t) => t,
        Err(e) => return Err(RunError::Parse(e)),
    };
    let mut machine = match Machine::new(file_system) {
        Ok(m) => m,
        Err(e) => return Err(RunError::Start(e)),
    };
    let run = machine.run(&tokens, file_system, input, max_steps);
    let _ = machine.finish(file_system);
    Ok(run)
}

} // verus!
