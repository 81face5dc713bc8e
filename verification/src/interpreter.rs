//! Executing a program on the tape, one instruction at a time.

use crate::brackets::{
    bracket_fault, lemma_close_is_opened, lemma_close_is_unique, lemma_open_is_closed,
    lemma_open_is_unique, matched, matching_close, matching_open, resolve_brackets, well_nested,
    BracketMap,
};
use crate::lexer::{all_recognized, character_fault, tokenize, tokens_of, LexError};
use crate::token::Token;
use vstd::prelude::*;

verus! {

/// The number of cells of the tape.
pub const MEMORY: usize = 30_000;

/// Why a run stopped before the end of the program.
#[derive(Clone, Copy, Debug, PartialEq, Eq, Structural)]
pub enum RuntimeError {
    /// The instruction would have moved the data pointer off the tape.
    PointerOutOfBounds,
    /// The output did not take the byte.
    IoFailure,
}

/// What the next instruction needs from outside before it can be executed.
#[derive(Clone, Copy, Debug, PartialEq, Eq, Structural)]
pub enum Action {
    /// Nothing is left to execute.
    Halt,
    /// The instruction needs nothing from outside.
    Advance,
    /// The instruction reads: one byte of input is to be fetched.
    Read,
    /// The instruction writes: this byte is to be put out.
    Write(u8),
}

/// What came of the action that the next instruction asked for.
#[derive(Clone, Copy, Debug, PartialEq, Eq, Structural)]
pub enum Event {
    /// Nothing was asked for.
    Nothing,
    /// The input gave this byte.
    Byte(u8),
    /// The input has no more bytes.
    EndOfInput,
    /// The output took the byte.
    Written,
    /// The output refused the byte.
    WriteFailed,
}

/// Whether `event` is a possible outcome of `action`.
pub open spec fn answers(action: Action, event: Event) -> bool {
    match action {
        Action::Halt => false,
        Action::Advance => event == Event::Nothing,
        Action::Read => event is Byte || event == Event::EndOfInput,
        Action::Write(_) => event == Event::Written || event == Event::WriteFailed,
    }
}

/// The state of a run: the tape and the two pointers.
pub struct Machine {
    /// The cells.
    pub tape: Seq<u8>,
    /// The data pointer: the place of the current cell.
    pub dp: int,
    /// The instruction pointer: the place of the next instruction.
    pub ip: int,
}

impl Machine {
    /// The state before the first instruction: `cells` cells that hold zero,
    /// both pointers at zero.
    pub open spec fn fresh(cells: nat) -> Machine {
        Machine { tape: Seq::new(cells, |i: int| 0u8), dp: 0, ip: 0 }
    }

    /// Whether the state fits `program`: the data pointer is on the tape and
    /// the instruction pointer is in the program or just behind it.
    pub open spec fn fits(self, program: Seq<Token>) -> bool {
        &&& 0 <= self.dp < self.tape.len()
        &&& 0 <= self.ip <= program.len()
    }

    /// Whether the run has reached the end of `program`.
    pub open spec fn halted(self, program: Seq<Token>) -> bool {
        self.ip >= program.len()
    }

    /// The current cell.
    pub open spec fn cell(self) -> u8 {
        self.tape[self.dp]
    }

    /// What the next instruction needs from outside.
    pub open spec fn action(self, program: Seq<Token>) -> Action {
        if self.halted(program) {
            Action::Halt
        } else {
            match program[self.ip] {
                Token::Input => Action::Read,
                Token::Output => Action::Write(self.cell()),
                _ => Action::Advance,
            }
        }
    }

    /// This state with `value` in the current cell.
    pub open spec fn store(self, value: u8) -> Machine {
        Machine { tape: self.tape.update(self.dp, value), ..self }
    }

    /// This state with the instruction pointer at `ip`.
    pub open spec fn jump(self, ip: int) -> Machine {
        Machine { ip, ..self }
    }

    /// This state with the instruction pointer one further.
    pub open spec fn next(self) -> Machine {
        self.jump(self.ip + 1)
    }

    /// The state after the next instruction of `program`, and the error if the
    /// instruction fails. A failed instruction leaves the state as it was.
    pub open spec fn step(self, program: Seq<Token>, event: Event) -> (
        Machine,
        Result<(), RuntimeError>,
    ) {
        match program[self.ip] {
            Token::IncPointer => if self.dp + 1 < self.tape.len() {
                (Machine { dp: self.dp + 1, ..self }.next(), Ok(()))
            } else {
                (self, Err(RuntimeError::PointerOutOfBounds))
            },
            Token::DecPointer => if self.dp > 0 {
                (Machine { dp: self.dp - 1, ..self }.next(), Ok(()))
            } else {
                (self, Err(RuntimeError::PointerOutOfBounds))
            },
            Token::Increment => (self.store(self.cell().wrapping_add(1)).next(), Ok(())),
            Token::Decrement => (self.store(self.cell().wrapping_sub(1)).next(), Ok(())),
            Token::Output => if event == Event::WriteFailed {
                (self, Err(RuntimeError::IoFailure))
            } else {
                (self.next(), Ok(()))
            },
            Token::Input => match event {
                Event::Byte(byte) => (self.store(byte).next(), Ok(())),
                _ => (self.store(0).next(), Ok(())),
            },
            Token::SquareOpen => if self.cell() == 0 {
                (self.jump(matching_close(program, self.ip) + 1), Ok(()))
            } else {
                (self.next(), Ok(()))
            },
            Token::SquareClose => if self.cell() != 0 {
                (self.jump(matching_open(program, self.ip)), Ok(()))
            } else {
                (self.next(), Ok(()))
            },
        }
    }
}

/// A run on input and output that are held in memory, as far as it has come.
pub struct Run {
    /// Tape and pointers.
    pub machine: Machine,
    /// The number of bytes of input that were read.
    pub consumed: int,
    /// The bytes that were written.
    pub output: Seq<u8>,
    /// The error of the instruction that failed, if one did.
    pub error: Option<RuntimeError>,
}

impl Run {
    /// The run of `program` that has executed nothing yet.
    pub open spec fn start(machine: Machine) -> Run {
        Run { machine, consumed: 0, output: Seq::empty(), error: None }
    }

    /// Whether nothing more will be executed: the program has ended or an
    /// instruction has failed.
    pub open spec fn over(self, program: Seq<Token>) -> bool {
        self.error is Some || self.machine.halted(program)
    }

    /// What comes of the action of the next instruction: a read gives the next
    /// byte of `input`, or the end of input behind its last byte; a write is
    /// always taken.
    pub open spec fn event(self, program: Seq<Token>, input: Seq<u8>) -> Event {
        match self.machine.action(program) {
            Action::Read => if self.consumed < input.len() {
                Event::Byte(input[self.consumed])
            } else {
                Event::EndOfInput
            },
            Action::Write(_) => Event::Written,
            _ => Event::Nothing,
        }
    }

    /// The run after the next instruction.
    pub open spec fn forward(self, program: Seq<Token>, input: Seq<u8>) -> Run {
        let (machine, result) = self.machine.step(program, self.event(program, input));
        Run {
            machine,
            consumed: if self.event(program, input) is Byte {
                self.consumed + 1
            } else {
                self.consumed
            },
            output: match self.machine.action(program) {
                Action::Write(byte) => self.output.push(byte),
                _ => self.output,
            },
            error: match result {
                Ok(()) => None,
                Err(error) => Some(error),
            },
        }
    }
}

/// The run of `program` from `start` on `input` after `steps` instructions,
/// or after fewer where the run is over before.
pub open spec fn run_for(program: Seq<Token>, start: Machine, input: Seq<u8>, steps: nat) -> Run
    decreases steps,
{
    if steps == 0 {
        Run::start(start)
    } else {
        let before = run_for(program, start, input, (steps - 1) as nat);
        if before.over(program) {
            before
        } else {
            before.forward(program, input)
        }
    }
}

/// A run that is over stays as it is, however many more steps it is given.
pub proof fn lemma_run_stays_over(
    program: Seq<Token>,
    start: Machine,
    input: Seq<u8>,
    steps: nat,
    more: nat,
)
    requires
        steps <= more,
        run_for(program, start, input, steps).over(program),
    ensures
        run_for(program, start, input, more) == run_for(program, start, input, steps),
    decreases more,
{
    if steps < more {
        lemma_run_stays_over(program, start, input, steps, (more - 1) as nat);
    }
}

/// An instruction fails only by moving the data pointer off the tape or by
/// a write that the output refused, and a failed instruction changes nothing:
/// the instruction pointer still names it.
pub proof fn lemma_failure_leaves_state(program: Seq<Token>, machine: Machine, event: Event)
    requires
        machine.fits(program),
        !machine.halted(program),
    ensures
        ({
            let (after, result) = machine.step(program, event);
            let token = program[machine.ip];
            &&& result == Err::<(), RuntimeError>(RuntimeError::PointerOutOfBounds) <==> {
                ||| token == Token::DecPointer && machine.dp == 0
                ||| token == Token::IncPointer && machine.dp == machine.tape.len() - 1
            }
            &&& result == Err::<(), RuntimeError>(RuntimeError::IoFailure) <==> {
                &&& token == Token::Output
                &&& event == Event::WriteFailed
            }
            &&& result is Err ==> after == machine
        }),
{
}

/// Cells count modulo 256: `+` takes 255 to 0 and `-` takes 0 to 255, and
/// neither touches another cell or the data pointer.
pub proof fn lemma_cells_wrap(program: Seq<Token>, machine: Machine, event: Event)
    requires
        machine.fits(program),
        !machine.halted(program),
    ensures
        ({
            let after = machine.step(program, event).0;
            let token = program[machine.ip];
            &&& token == Token::Increment ==> after.cell() == (machine.cell() + 1) % 256
            &&& token == Token::Decrement ==> after.cell() == (machine.cell() - 1) % 256
            &&& token == Token::Increment || token == Token::Decrement ==> {
                &&& after.dp == machine.dp
                &&& after.tape == machine.tape.update(machine.dp, after.cell())
            }
        }),
{
}

/// On a program whose brackets are well nested, an instruction leaves the
/// data pointer on the tape and the instruction pointer in the program or just
/// behind it, and the tape as long as it was.
pub proof fn lemma_step_fits(program: Seq<Token>, machine: Machine, event: Event)
    requires
        well_nested(program),
        machine.fits(program),
        !machine.halted(program),
    ensures
        machine.step(program, event).0.fits(program),
        machine.step(program, event).0.tape.len() == machine.tape.len(),
{
    match program[machine.ip] {
        Token::SquareOpen => {
            lemma_open_is_closed(program, machine.ip);
        },
        Token::SquareClose => {
            lemma_close_is_opened(program, machine.ip);
        },
        _ => {},
    }
}

/// On a program whose brackets are well nested, a run keeps the data pointer
/// on the tape, the instruction pointer in the program or just behind it and
/// the tape as long as it was; it reads no more bytes than the input has, and
/// reads and writes at most one byte for each instruction.
pub proof fn lemma_run_fits(program: Seq<Token>, start: Machine, input: Seq<u8>, steps: nat)
    requires
        well_nested(program),
        start.fits(program),
    ensures
        ({
            let run = run_for(program, start, input, steps);
            &&& run.machine.fits(program)
            &&& run.machine.tape.len() == start.tape.len()
            &&& 0 <= run.consumed <= input.len()
            &&& run.consumed <= steps
            &&& run.output.len() <= steps
        }),
    decreases steps,
{
    if steps > 0 {
        lemma_run_fits(program, start, input, (steps - 1) as nat);
        let before = run_for(program, start, input, (steps - 1) as nat);
        if !before.over(program) {
            lemma_step_fits(program, before.machine, before.event(program, input));
        }
    }
}

/// A run in memory fails only at an instruction that would move the data
/// pointer off the tape, and then stands at that instruction: at a `<` with
/// the data pointer on the first cell, or at a `>` with it on the last.
pub proof fn lemma_run_fails_at_the_instruction(
    program: Seq<Token>,
    start: Machine,
    input: Seq<u8>,
    steps: nat,
)
    requires
        well_nested(program),
        start.fits(program),
    ensures
        ({
            let run = run_for(program, start, input, steps);
            run.error is Some ==> {
                &&& run.error == Some(RuntimeError::PointerOutOfBounds)
                &&& !run.machine.halted(program)
                &&& {
                    ||| program[run.machine.ip] == Token::DecPointer && run.machine.dp == 0
                    ||| program[run.machine.ip] == Token::IncPointer && run.machine.dp
                        == run.machine.tape.len() - 1
                }
            }
        }),
    decreases steps,
{
    if steps > 0 {
        lemma_run_fails_at_the_instruction(program, start, input, (steps - 1) as nat);
        lemma_run_fits(program, start, input, (steps - 1) as nat);
        let before = run_for(program, start, input, (steps - 1) as nat);
        if !before.over(program) {
            lemma_failure_leaves_state(program, before.machine, before.event(program, input));
        }
    }
}

/// How a bounded run ended, where no instruction failed.
#[derive(Clone, Copy, Debug, PartialEq, Eq, Structural)]
pub struct Progress {
    /// Whether the run reached the end of the program.
    pub halted: bool,
    /// The number of bytes of input that the run read.
    pub consumed: usize,
}

/// A program together with the tape and the pointers of its run.
#[derive(Debug)]
pub struct Interpreter {
    array: [u8; MEMORY],
    data_pointer: usize,
    instruction_pointer: usize,
    instructions: Vec<Token>,
    brackets: BracketMap,
}

impl View for Interpreter {
    type V = Machine;

    closed spec fn view(&self) -> Machine {
        Machine {
            tape: self.array@,
            dp: self.data_pointer as int,
            ip: self.instruction_pointer as int,
        }
    }
}

impl Interpreter {
    /// The program that this interpreter runs.
    pub closed spec fn program(&self) -> Seq<Token> {
        self.instructions@
    }

    /// Whether the bracket map that the interpreter jumps by is that of its
    /// program.
    pub closed spec fn paired(&self) -> bool {
        self.brackets.pairs(self.instructions@)
    }

    /// What holds of every interpreter: the brackets of its program are well
    /// nested and paired, its tape has `MEMORY` cells, and its state fits the
    /// program.
    pub open spec fn wf(&self) -> bool {
        &&& well_nested(self.program())
        &&& self.paired()
        &&& self@.tape.len() == MEMORY
        &&& self@.fits(self.program())
    }

    /// An interpreter for `instructions`, ready to run from the first one on
    /// a tape of zeros.
    ///
    /// Fails where the brackets are not well nested, as [`resolve_brackets`]
    /// does.
    pub fn with_program(instructions: Vec<Token>) -> (res: Result<Interpreter, LexError>)
        ensures
            res is Ok <==> well_nested(instructions@),
            match res {
                Ok(interpreter) => {
                    &&& interpreter.wf()
                    &&& interpreter.program() == instructions@
                    &&& interpreter@ == Machine::fresh(MEMORY as nat)
                },
                Err(error) => bracket_fault(instructions@, error),
            },
    {
        match resolve_brackets(instructions.as_slice()) {
            Ok(brackets) => {
                let interpreter = Interpreter {
                    array: [0u8; MEMORY],
                    data_pointer: 0,
                    instruction_pointer: 0,
                    instructions,
                    brackets,
                };
                assert(interpreter@.tape =~= Machine::fresh(MEMORY as nat).tape);
                Ok(interpreter)
            },
            Err(error) => Err(error),
        }
    }

    /// An interpreter for the program that `source` spells, ready to run from
    /// the first instruction on a tape of zeros.
    ///
    /// Fails with the first character that may not stand in a program; where
    /// there is none, with what is wrong with the brackets.
    pub fn new(source: &str) -> (res: Result<Interpreter, LexError>)
        ensures
            res is Ok <==> all_recognized(source@) && well_nested(tokens_of(source@)),
            match res {
                Ok(interpreter) => {
                    &&& interpreter.wf()
                    &&& interpreter.program() == tokens_of(source@)
                    &&& interpreter@ == Machine::fresh(MEMORY as nat)
                },
                Err(error) => if all_recognized(source@) {
                    bracket_fault(tokens_of(source@), error)
                } else {
                    character_fault(source@, error)
                },
            },
    {
        match tokenize(source) {
            Ok(instructions) => Interpreter::with_program(instructions),
            Err(error) => Err(error),
        }
    }

    /// The place of the current cell.
    pub fn data_pointer(&self) -> (dp: usize)
        ensures
            dp == self@.dp,
    {
        self.data_pointer
    }

    /// The place of the next instruction; after a failed instruction, the
    /// place of that instruction.
    pub fn instruction_pointer(&self) -> (ip: usize)
        ensures
            ip == self@.ip,
    {
        self.instruction_pointer
    }

    /// The tape.
    pub fn tape(&self) -> (tape: &[u8; MEMORY])
        ensures
            tape@ == self@.tape,
    {
        &self.array
    }

    /// The program.
    pub fn instructions(&self) -> (instructions: &[Token])
        ensures
            instructions@ == self.program(),
    {
        self.instructions.as_slice()
    }

    /// What the next instruction needs from outside before [`Interpreter::step`]
    /// can execute it.
    pub fn action(&self) -> (action: Action)
        requires
            self.wf(),
        ensures
            action == self@.action(self.program()),
    {
        if self.instruction_pointer >= self.instructions.len() {
            Action::Halt
        } else {
            match self.instructions[self.instruction_pointer] {
                Token::Input => Action::Read,
                Token::Output => Action::Write(self.array[self.data_pointer]),
                _ => Action::Advance,
            }
        }
    }

    /// Executes the next instruction, given what came of its action.
    ///
    /// An instruction that fails leaves tape and pointers as they were, so
    /// that the instruction pointer still names it.
    pub fn step(&mut self, event: Event) -> (res: Result<(), RuntimeError>)
        requires
            old(self).wf(),
            answers(old(self)@.action(old(self).program()), event),
        ensures
            final(self).wf(),
            final(self).program() == old(self).program(),
            (final(self)@, res) == old(self)@.step(old(self).program(), event),
    {
        let ip = self.instruction_pointer;
        let dp = self.data_pointer;
        let ghost program = self.instructions@;
        assert(ip < self.instructions.len()) by {
            assert(!self@.halted(program));
        }
        match self.instructions[ip] {
            Token::IncPointer => {
                if dp + 1 >= MEMORY {
                    return Err(RuntimeError::PointerOutOfBounds);
                }
                self.data_pointer = dp + 1;
                self.instruction_pointer = ip + 1;
            },
            Token::DecPointer => {
                if dp == 0 {
                    return Err(RuntimeError::PointerOutOfBounds);
                }
                self.data_pointer = dp - 1;
                self.instruction_pointer = ip + 1;
            },
            Token::Increment => {
                self.array[dp] = self.array[dp].wrapping_add(1);
                self.instruction_pointer = ip + 1;
            },
            Token::Decrement => {
                self.array[dp] = self.array[dp].wrapping_sub(1);
                self.instruction_pointer = ip + 1;
            },
            Token::Output => {
                match event {
                    Event::WriteFailed => {
                        return Err(RuntimeError::IoFailure);
                    },
                    _ => {
                        self.instruction_pointer = ip + 1;
                    },
                }
            },
            Token::Input => {
                match event {
                    Event::Byte(byte) => {
                        self.array[dp] = byte;
                    },
                    _ => {
                        self.array[dp] = 0;
                    },
                }
                self.instruction_pointer = ip + 1;
            },
            Token::SquareOpen => {
                if self.array[dp] == 0 {
                    let close = self.brackets.get(ip).unwrap();
                    proof {
                        assert(matched(program, ip as int, self.brackets@[ip as int] as int));
                        lemma_close_is_unique(
                            program,
                            ip as int,
                            close as int,
                            matching_close(program, ip as int),
                        );
                    }
                    self.instruction_pointer = close + 1;
                } else {
                    self.instruction_pointer = ip + 1;
                }
            },
            Token::SquareClose => {
                if self.array[dp] != 0 {
                    let open = self.brackets.get(ip).unwrap();
                    proof {
                        assert(matched(program, self.brackets@[ip as int] as int, ip as int));
                        lemma_open_is_unique(
                            program,
                            open as int,
                            matching_open(program, ip as int),
                            ip as int,
                        );
                    }
                    self.instruction_pointer = open;
                } else {
                    self.instruction_pointer = ip + 1;
                }
            },
        }
        Ok(())
    }

    /// Runs the program on input and output that are held in memory, for at
    /// most `max_steps` instructions.
    ///
    /// Reads take the bytes of `input` in order, and find the end of input
    /// behind the last; writes are appended to `output`. The run goes on from
    /// the state the interpreter is in, and stops at the end of the program,
    /// at an instruction that fails, or when `max_steps` instructions have
    /// been executed.
    pub fn run(&mut self, input: &[u8], output: &mut Vec<u8>, max_steps: u64) -> (res: Result<
        Progress,
        RuntimeError,
    >)
        requires
            old(self).wf(),
        ensures
            final(self).wf(),
            final(self).program() == old(self).program(),
            ({
                let run = run_for(old(self).program(), old(self)@, input@, max_steps as nat);
                &&& final(self)@ == run.machine
                &&& final(output)@ == old(output)@ + run.output
                &&& match res {
                    Ok(progress) => {
                        &&& run.error is None
                        &&& progress.halted == run.machine.halted(old(self).program())
                        &&& progress.consumed == run.consumed
                    },
                    Err(error) => run.error == Some(error),
                }
            }),
    {
        let ghost program = self.program();
        let ghost start = self@;
        let ghost written = output@;
        let ghost mut emitted = Seq::<u8>::empty();
        let mut consumed: usize = 0;
        let mut steps: u64 = 0;
        while steps < max_steps
            invariant
                program == old(self).program(),
                start == old(self)@,
                written == old(output)@,
                self.wf(),
                self.program() == program,
                steps <= max_steps,
                consumed <= input@.len(),
                run_for(program, start, input@, steps as nat) == (Run {
                    machine: self@,
                    consumed: consumed as int,
                    output: emitted,
                    error: None,
                }),
                output@ == written + emitted,
            decreases max_steps - steps,
        {
            let ghost before = run_for(program, start, input@, steps as nat);
            let event = match self.action() {
                Action::Halt => {
                    proof {
                        lemma_run_stays_over(
                            program,
                            start,
                            input@,
                            steps as nat,
                            max_steps as nat,
                        );
                    }
                    return Ok(Progress { halted: true, consumed });
                },
                Action::Advance => Event::Nothing,
                Action::Read => {
                    if consumed < input.len() {
                        let byte = input[consumed];
                        consumed += 1;
                        Event::Byte(byte)
                    } else {
                        Event::EndOfInput
                    }
                },
                Action::Write(byte) => {
                    output.push(byte);
                    Event::Written
                },
            };
            assert(event == before.event(program, input@));
            let result = self.step(event);
            proof {
                let after = run_for(program, start, input@, (steps + 1) as nat);
                assert(after == before.forward(program, input@));
                emitted = after.output;
                assert(output@ =~= written + emitted);
            }
            match result {
                Ok(()) => {},
                Err(error) => {
                    proof {
                        lemma_run_stays_over(
                            program,
                            start,
                            input@,
                            (steps + 1) as nat,
                            max_steps as nat,
                        );
                    }
                    return Err(error);
                },
            }
            steps += 1;
        }
        Ok(Progress { halted: self.instruction_pointer >= self.instructions.len(), consumed })
    }
}

} // verus!
