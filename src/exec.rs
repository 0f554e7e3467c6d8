use vstd::prelude::*;
use crate::lexer::{Token, lemma_brackets_pair, tokens_of};

verus! {

/// Length of the tape a machine starts with.
pub const DATA_LENGTH: usize = 30_000;

/// Most operands a system call takes: one per argument register.
pub const MAX_SYSCALL_ARGS: u8 = 6;

/// Most payload bytes that a numeric operand may have: the width of a word.
pub const WORD_BYTES: u8 = 8;

/// Why a run stops before its end.
#[derive(Debug, Copy, Clone, PartialEq, Eq, Structural)]
pub enum RuntimeError {
    /// An operand descriptor with a kind tag other than 0, 1 or 2.
    InvalidSyscallArgumentType { arg_type: u8 },
    /// The data pointer would leave the tape, or a syscall block runs past its end.
    OutOfBounds,
    /// A numeric operand whose payload is wider than a word.
    SyscallArgumentTooLong { length: u8 },
    /// A syscall block that declares more operands than there are registers.
    TooManySyscallArguments { count: u8 },
}

/// One decoded operand of a system call.
#[derive(Debug, Copy, Clone, PartialEq, Eq, Structural)]
pub enum SyscallArg {
    /// A number, passed as it is.
    Value(u64),
    /// An address inside the tape: the tape's first byte plus this offset.
    TapeOffset(u64),
}

/// A system call as the tape describes it: its number and its operands.
#[derive(Debug, Clone, PartialEq, Eq)]
pub struct SyscallRequest {
    pub number: u8,
    pub args: Vec<SyscallArg>,
}

/// The big-endian number that `b` spells.
pub open spec fn be_value(b: Seq<u8>) -> nat
    decreases b.len(),
{
    if b.len() == 0 {
        0
    } else {
        be_value(b.drop_last()) * 256 + b.last() as nat
    }
}

pub open spec fn pow256(n: nat) -> nat
    decreases n,
{
    if n == 0 {
        1
    } else {
        256 * pow256((n - 1) as nat)
    }
}

/// The operands described from `cursor` on, `remaining` of them: each is a
/// kind tag, a length `l` and `l` payload bytes.
pub open spec fn decode_args(tape: Seq<u8>, cursor: int, remaining: nat) -> Result<
    Seq<SyscallArg>,
    RuntimeError,
>
    decreases remaining,
{
    if remaining == 0 {
        Ok(seq![])
    } else if cursor >= tape.len() {
        Err(RuntimeError::OutOfBounds)
    } else if tape[cursor] > 2 {
        Err(RuntimeError::InvalidSyscallArgumentType { arg_type: tape[cursor] })
    } else if cursor + 1 >= tape.len() {
        Err(RuntimeError::OutOfBounds)
    } else {
        let kind = tape[cursor];
        let l = tape[cursor + 1];
        let start = cursor + 2;
        if start + l > tape.len() {
            Err(RuntimeError::OutOfBounds)
        } else if kind != 1 && l > WORD_BYTES {
            Err(RuntimeError::SyscallArgumentTooLong { length: l })
        } else {
            let number = be_value(tape.subrange(start, start + l));
            let arg = if kind == 0 {
                SyscallArg::Value(number as u64)
            } else if kind == 1 {
                SyscallArg::TapeOffset(start as u64)
            } else {
                SyscallArg::TapeOffset(number as u64)
            };
            match decode_args(tape, start + l, (remaining - 1) as nat) {
                Ok(rest) => Ok(seq![arg] + rest),
                Err(e) => Err(e),
            }
        }
    }
}

/// The system call that the block at `dp` describes: call number, operand
/// count, then the operands.
pub open spec fn decode_spec(tape: Seq<u8>, dp: int) -> Result<(u8, Seq<SyscallArg>), RuntimeError> {
    if dp < 0 || dp + 1 >= tape.len() {
        Err(RuntimeError::OutOfBounds)
    } else if tape[dp + 1] > MAX_SYSCALL_ARGS {
        Err(RuntimeError::TooManySyscallArguments { count: tape[dp + 1] })
    } else {
        match decode_args(tape, dp + 2, tape[dp + 1] as nat) {
            Ok(args) => Ok((tape[dp], args)),
            Err(e) => Err(e),
        }
    }
}

proof fn lemma_be_value_bound(b: Seq<u8>)
    ensures
        be_value(b) < pow256(b.len()),
    decreases b.len(),
{
    if b.len() > 0 {
        let p = b.drop_last();
        lemma_be_value_bound(p);
        let v = be_value(p);
        let q = pow256(p.len());
        let x = b.last() as nat;
        assert(v * 256 + x < 256 * q) by (nonlinear_arith)
            requires
                v < q,
                x < 256,
        ;
    }
}

proof fn lemma_pow256_mono(a: nat, b: nat)
    requires
        a <= b,
    ensures
        pow256(a) <= pow256(b),
    decreases b,
{
    if a < b {
        lemma_pow256_mono(a, (b - 1) as nat);
    }
}

/// Reads `len` bytes from `start` as a big-endian number.
fn be_from_cells(tape: &Vec<u8>, start: usize, len: u8) -> (r: u64)
    requires
        start + len <= tape@.len(),
        len <= WORD_BYTES,
    ensures
        r as nat == be_value(tape@.subrange(start as int, start + len)),
{
    proof {
        reveal_with_fuel(pow256, 9);
    }
    let n = tape.len();
    let mut v: u64 = 0;
    let mut k: usize = 0;
    while k < len as usize
        invariant
            n == tape@.len(),
            start + len <= tape@.len(),
            len <= WORD_BYTES,
            k <= len,
            v as nat == be_value(tape@.subrange(start as int, start + k)),
            pow256(8) == 0x1_0000_0000_0000_0000,
        decreases len - k,
    {
        let ghost b = tape@.subrange(start as int, start + k + 1);
        proof {
            assert(b.drop_last() =~= tape@.subrange(start as int, start + k));
            lemma_be_value_bound(b);
            lemma_pow256_mono(b.len(), 8);
        }
        let x = tape[start + k];
        assert(v * 256 + x == be_value(b));
        v = v * 256 + x as u64;
        k = k + 1;
    }
    v
}

/// Decodes the system call described by the block at `dp`.
pub fn decode_syscall(tape: &Vec<u8>, dp: usize) -> (r: Result<SyscallRequest, RuntimeError>)
    ensures
        match r {
            Ok(req) => decode_spec(tape@, dp as int) == Ok::<_, RuntimeError>((req.number, req.args@)),
            Err(e) => decode_spec(tape@, dp as int) == Err::<(u8, Seq<SyscallArg>), _>(e),
        },
{
    let n = tape.len();
    if dp >= n || n - dp < 2 {
        return Err(RuntimeError::OutOfBounds);
    }
    let number = tape[dp];
    let count = tape[dp + 1];
    if count > MAX_SYSCALL_ARGS {
        return Err(RuntimeError::TooManySyscallArguments { count });
    }
    let ghost start = dp + 2;
    let mut args: Vec<SyscallArg> = Vec::new();
    let mut cursor: usize = dp + 2;
    let mut k: u8 = 0;
    while k < count
        invariant
            n == tape@.len(),
            dp + 1 < n,
            start == dp + 2,
            number == tape@[dp as int],
            count == tape@[dp + 1],
            count <= MAX_SYSCALL_ARGS,
            k <= count,
            cursor <= n,
            decode_args(tape@, start, count as nat) == match decode_args(
                tape@,
                cursor as int,
                (count - k) as nat,
            ) {
                Ok(rest) => Ok(args@ + rest),
                Err(e) => Err(e),
            },
        decreases count - k,
    {
        if cursor >= n {
            return Err(RuntimeError::OutOfBounds);
        }
        let kind = tape[cursor];
        if kind > 2 {
            return Err(RuntimeError::InvalidSyscallArgumentType { arg_type: kind });
        }
        if cursor + 1 >= n {
            return Err(RuntimeError::OutOfBounds);
        }
        let l = tape[cursor + 1];
        let payload = cursor + 2;
        if l as usize > n - payload {
            return Err(RuntimeError::OutOfBounds);
        }
        if kind != 1 && l > WORD_BYTES {
            return Err(RuntimeError::SyscallArgumentTooLong { length: l });
        }
        let arg = if kind == 0 {
            SyscallArg::Value(be_from_cells(tape, payload, l))
        } else if kind == 1 {
            SyscallArg::TapeOffset(payload as u64)
        } else {
            SyscallArg::TapeOffset(be_from_cells(tape, payload, l))
        };
        let ghost before = args@;
        args.push(arg);
        proof {
            let rem = (count - k) as nat;
            match decode_args(tape@, payload + l, (rem - 1) as nat) {
                Ok(rest) => {
                    assert(before + (seq![arg] + rest) =~= args@ + rest);
                },
                Err(e) => {},
            }
        }
        cursor = payload + l as usize;
        k = k + 1;
    }
    proof {
        assert(args@ + seq![] =~= args@);
    }
    Ok(SyscallRequest { number, args })
}

/// What a step asks of whoever drives the machine.
#[derive(Debug, Clone, PartialEq, Eq)]
pub enum Action {
    /// The instruction pointer has reached the end of the program.
    Halted,
    /// Nothing: the step was done within the machine.
    Continue,
    /// Write this byte to the output stream.
    Output(u8),
    /// Read one byte and hand it to [`Machine::store_input`].
    Input,
    /// Perform this call and hand its result to [`Machine::store_syscall_result`].
    Syscall(SyscallRequest),
}

/// What a step asks for, as a mathematical value.
pub enum Effect {
    Halted,
    Continue,
    Output(u8),
    Input,
    Syscall(u8, Seq<SyscallArg>),
}

impl View for Action {
    type V = Effect;

    open spec fn view(&self) -> Effect {
        match self {
            Action::Halted => Effect::Halted,
            Action::Continue => Effect::Continue,
            Action::Output(b) => Effect::Output(*b),
            Action::Input => Effect::Input,
            Action::Syscall(req) => Effect::Syscall(req.number, req.args@),
        }
    }
}

/// A machine's program, tape, data pointer and instruction pointer.
pub struct State {
    pub program: Seq<Token>,
    pub tape: Seq<u8>,
    pub dp: int,
    pub ip: int,
}

/// Every jump of `p` targets an index of `p`.
pub open spec fn targets_valid(p: Seq<Token>) -> bool {
    forall|i: int|
        0 <= i < p.len() ==> match #[trigger] p[i] {
            Token::Jfw { instruction_ref } => instruction_ref < p.len(),
            Token::Jbw { instruction_ref } => instruction_ref < p.len(),
            _ => true,
        }
}

pub open spec fn state_wf(s: State) -> bool {
    &&& targets_valid(s.program)
    &&& 0 <= s.dp < s.tape.len()
    &&& 0 <= s.ip <= s.program.len()
}

/// One step from state `s`: the instruction at the instruction pointer is
/// applied and the pointer moves on, or past a taken jump's target.
pub open spec fn step_spec(s: State) -> Result<(Effect, State), RuntimeError> {
    if s.ip >= s.program.len() {
        Ok((Effect::Halted, s))
    } else {
        let next = State { ip: s.ip + 1, ..s };
        let cell = s.tape[s.dp];
        match s.program[s.ip] {
            Token::Idp => if s.dp + 1 < s.tape.len() {
                Ok((Effect::Continue, State { dp: s.dp + 1, ..next }))
            } else {
                Err(RuntimeError::OutOfBounds)
            },
            Token::Ddp => if s.dp > 0 {
                Ok((Effect::Continue, State { dp: s.dp - 1, ..next }))
            } else {
                Err(RuntimeError::OutOfBounds)
            },
            Token::Inc => Ok(
                (Effect::Continue, State { tape: s.tape.update(s.dp, ((cell + 1) % 256) as u8), ..next }),
            ),
            Token::Dec => Ok(
                (Effect::Continue, State { tape: s.tape.update(s.dp, ((cell + 255) % 256) as u8), ..next }),
            ),
            Token::Out => Ok((Effect::Output(cell), next)),
            Token::Acc => Ok((Effect::Input, next)),
            Token::Jfw { instruction_ref } => if cell == 0 {
                Ok((Effect::Continue, State { ip: instruction_ref + 1, ..s }))
            } else {
                Ok((Effect::Continue, next))
            },
            Token::Jbw { instruction_ref } => if cell != 0 {
                Ok((Effect::Continue, State { ip: instruction_ref + 1, ..s }))
            } else {
                Ok((Effect::Continue, next))
            },
            Token::Sys => match decode_spec(s.tape, s.dp) {
                Ok((number, args)) => Ok((Effect::Syscall(number, args), next)),
                Err(e) => Err(e),
            },
        }
    }
}

/// A tape machine running one linked program. The tape never changes length
/// once made, so addresses into it stay valid for the whole run.
pub struct Machine {
    pub program: Vec<Token>,
    pub tape: Vec<u8>,
    pub data_pointer: usize,
    pub instruction_pointer: usize,
}

impl View for Machine {
    type V = State;

    open spec fn view(&self) -> State {
        State {
            program: self.program@,
            tape: self.tape@,
            dp: self.data_pointer as int,
            ip: self.instruction_pointer as int,
        }
    }
}

fn check_targets(program: &Vec<Token>) -> (r: bool)
    ensures
        r == targets_valid(program@),
{
    let n = program.len();
    let mut i: usize = 0;
    while i < n
        invariant
            n == program@.len(),
            i <= n,
            forall|k: int|
                0 <= k < i ==> match #[trigger] program@[k] {
                    Token::Jfw { instruction_ref } => instruction_ref < n,
                    Token::Jbw { instruction_ref } => instruction_ref < n,
                    _ => true,
                },
        decreases n - i,
    {
        match program[i] {
            Token::Jfw { instruction_ref } => if instruction_ref >= n {
                assert(!(match program@[i as int] {
                    Token::Jfw { instruction_ref } => instruction_ref < n,
                    Token::Jbw { instruction_ref } => instruction_ref < n,
                    _ => true,
                }));
                return false;
            },
            Token::Jbw { instruction_ref } => if instruction_ref >= n {
                assert(!(match program@[i as int] {
                    Token::Jfw { instruction_ref } => instruction_ref < n,
                    Token::Jbw { instruction_ref } => instruction_ref < n,
                    _ => true,
                }));
                return false;
            },
            _ => {},
        }
        i = i + 1;
    }
    true
}

/// Every program that tokenizing yields keeps its jumps inside itself, so
/// [`Machine::new`] accepts it.
pub proof fn lemma_tokenized_program_loads(s: Seq<char>)
    requires
        s.len() <= isize::MAX,
        tokens_of(s) is Ok,
    ensures
        targets_valid(tokens_of(s)->Ok_0),
{
    lemma_brackets_pair(s);
}

impl Machine {
    pub open spec fn wf(&self) -> bool {
        state_wf(self@)
    }

    /// A machine at the start of `program`, with a zeroed tape of
    /// `DATA_LENGTH` cells; `None` where a jump of `program` has no target.
    pub fn new(program: Vec<Token>) -> (r: Option<Machine>)
        ensures
            r is Some <==> targets_valid(program@),
            r matches Some(m) ==> {
                &&& m.wf()
                &&& m@.program == program@
                &&& m@.tape == Seq::new(DATA_LENGTH as nat, |i: int| 0u8)
                &&& m@.dp == 0
                &&& m@.ip == 0
            },
    {
        if !check_targets(&program) {
            return None;
        }
        let tape = vec![0u8; DATA_LENGTH];
        assert(tape@ =~= Seq::new(DATA_LENGTH as nat, |i: int| 0u8));
        Some(Machine { program, tape, data_pointer: 0, instruction_pointer: 0 })
    }

    /// Executes the instruction at the instruction pointer. Output, input and
    /// system calls are left to the caller, as the returned action says.
    pub fn step(&mut self) -> (r: Result<Action, RuntimeError>)
        requires
            old(self).wf(),
        ensures
            final(self).wf(),
            final(self)@.program == old(self)@.program,
            final(self)@.tape.len() == old(self)@.tape.len(),
            match r {
                Ok(a) => step_spec(old(self)@) == Ok::<_, RuntimeError>((a@, final(self)@)),
                Err(e) => step_spec(old(self)@) == Err::<(Effect, State), _>(e),
            },
    {
        let ip = self.instruction_pointer;
        let dp = self.data_pointer;
        if ip >= self.program.len() {
            return Ok(Action::Halted);
        }
        let n = self.tape.len();
        let cell = self.tape[dp];
        let t = self.program[ip];
        assert(targets_valid(self.program@) ==> match self.program@[ip as int] {
            Token::Jfw { instruction_ref } => instruction_ref < self.program@.len(),
            Token::Jbw { instruction_ref } => instruction_ref < self.program@.len(),
            _ => true,
        });
        let action = match t {
            Token::Idp => {
                if dp + 1 >= n {
                    return Err(RuntimeError::OutOfBounds);
                }
                self.data_pointer = dp + 1;
                Action::Continue
            },
            Token::Ddp => {
                if dp == 0 {
                    return Err(RuntimeError::OutOfBounds);
                }
                self.data_pointer = dp - 1;
                Action::Continue
            },
            Token::Inc => {
                self.tape.set(dp, cell.wrapping_add(1));
                Action::Continue
            },
            Token::Dec => {
                self.tape.set(dp, cell.wrapping_sub(1));
                Action::Continue
            },
            Token::Out => Action::Output(cell),
            Token::Acc => Action::Input,
            Token::Jfw { instruction_ref } => {
                if cell == 0 {
                    self.instruction_pointer = instruction_ref;
                }
                Action::Continue
            },
            Token::Jbw { instruction_ref } => {
                if cell != 0 {
                    self.instruction_pointer = instruction_ref;
                }
                Action::Continue
            },
            Token::Sys => {
                match decode_syscall(&self.tape, dp) {
                    Ok(req) => Action::Syscall(req),
                    Err(e) => {
                        return Err(e);
                    },
                }
            },
        };
        self.instruction_pointer = self.instruction_pointer + 1;
        Ok(action)
    }

    /// Stores a byte read for an input instruction in the current cell. At
    /// the end of the input stream (`None`) the cell keeps its value.
    pub fn store_input(&mut self, byte: Option<u8>)
        requires
            old(self).wf(),
        ensures
            final(self).wf(),
            final(self)@ == (State {
                tape: match byte {
                    Some(b) => old(self)@.tape.update(old(self)@.dp, b),
                    None => old(self)@.tape,
                },
                ..old(self)@
            }),
    {
        if let Some(b) = byte {
            let dp = self.data_pointer;
            self.tape.set(dp, b);
        }
    }

    /// Stores the low byte of a system call's result in the current cell,
    /// over the call number. A failed call (-1) is stored like any result.
    pub fn store_syscall_result(&mut self, ret: i64)
        requires
            old(self).wf(),
        ensures
            final(self).wf(),
            final(self)@ == (State { tape: old(self)@.tape.update(old(self)@.dp, ret as u8), ..old(self)@ }),
    {
        let dp = self.data_pointer;
        #[verifier::truncate]
        let b = ret as u8;
        self.tape.set(dp, b);
    }
}

} // verus!
