//! The processor: a call stack of program counters and the fetch-execute
//! step.

use rand::Rng;
use vstd::prelude::*;
use crate::memory::{DELAY_TIMER, KEYPAD, PROGRAM_START, SOUND_TIMER};
use crate::machine::{count_down, latch_key, tick_timers};
use crate::instruction::{control_code, exec_code, exec_mem, exec_ok, execute_with, instruction_ok};

verus! {

/// The mathematical model of a `Cpu`: the sixteen stack slots, of which
/// slot `sp` holds the address of the current instruction and the slots
/// below it hold the addresses of the pending calls.
pub struct CpuState {
    pub stack: Seq<usize>,
    pub sp: int,
}

/// The state invariant: sixteen slots and a stack pointer inside them.
pub open spec fn state_wf(c: CpuState) -> bool {
    c.stack.len() == 16 && 0 <= c.sp < 16
}

/// Address of the current instruction.
pub open spec fn pc(c: CpuState) -> int {
    c.stack[c.sp] as int
}

/// The big-endian instruction word at the current address.
pub open spec fn fetch(c: CpuState, m: Seq<u8>) -> u16 {
    (m[pc(c)] * 256 + m[pc(c) + 1]) as u16
}

/// The state after an instruction with control outcome `code` (see
/// `exec_code`): a jump or a call lands on its address, a skip advances by
/// two instructions, a return resumes after the call, anything else
/// advances by one instruction.
pub open spec fn step_next(c: CpuState, code: (u16, u16)) -> CpuState {
    let op = code.0;
    let a = code.1;
    if op == 1 {
        CpuState { stack: c.stack.update(c.sp, a as usize), sp: c.sp }
    } else if op == 2 {
        CpuState { stack: c.stack.update(c.sp, (pc(c) + 4) as usize), sp: c.sp }
    } else if op == 3 {
        c
    } else if op == 4 {
        CpuState { stack: c.stack.update(c.sp - 1, (c.stack[c.sp - 1] + 2) as usize), sp: c.sp - 1 }
    } else if op == 5 {
        CpuState { stack: c.stack.update(c.sp + 1, a as usize), sp: c.sp + 1 }
    } else {
        CpuState { stack: c.stack.update(c.sp, (pc(c) + 2) as usize), sp: c.sp }
    }
}

/// Whether the stack update for control outcome `code` runs without a
/// fault: no address below 2, no return from an empty stack, no call from a
/// full one, no address overflow.
pub open spec fn step_code_ok(c: CpuState, code: (u16, u16)) -> bool {
    let op = code.0;
    let a = code.1;
    if op == 1 {
        a >= 2
    } else if op == 2 {
        pc(c) + 4 <= usize::MAX
    } else if op == 3 {
        pc(c) >= 2
    } else if op == 4 {
        c.sp >= 1 && c.stack[c.sp - 1] + 2 <= usize::MAX
    } else if op == 5 {
        c.sp + 1 < 16 && a >= 2
    } else {
        pc(c) + 2 <= usize::MAX
    }
}

/// Whether one step runs on `m` without a fault: the instruction word lies
/// inside memory, the instruction can run, is known, and its stack update
/// can run.
pub open spec fn step_ok(c: CpuState, m: Seq<u8>) -> bool {
    &&& state_wf(c)
    &&& pc(c) + 1 < m.len()
    &&& exec_ok(fetch(c, m), m)
    &&& exec_code(fetch(c, m), m) is Some
    &&& step_code_ok(c, exec_code(fetch(c, m), m)->Some_0)
}

/// The state after one step of `c` on `m`.
pub open spec fn step_state(c: CpuState, m: Seq<u8>) -> CpuState {
    step_next(c, exec_code(fetch(c, m), m)->Some_0)
}

/// The memory after one step of `c` on `m` with random byte `rnd`.
pub open spec fn step_mem(c: CpuState, m: Seq<u8>, rnd: u8) -> Seq<u8> {
    exec_mem(fetch(c, m), m, rnd)
}

/// Instructions run in each frame.
pub const STEPS_PER_FRAME: usize = 4;

/// The state and memory after `n` steps from `c` and `m`, step k taking
/// `rs[k]` as its random byte; `None` when one of them cannot run.
pub open spec fn run_steps(c: CpuState, m: Seq<u8>, rs: Seq<u8>, n: int) -> Option<(CpuState, Seq<u8>)>
    decreases n,
{
    if n <= 0 {
        Some((c, m))
    } else {
        match run_steps(c, m, rs, n - 1) {
            None => None,
            Some((c1, m1)) => if step_ok(c1, m1) {
                Some((step_state(c1, m1), step_mem(c1, m1, rs[n - 1])))
            } else {
                None
            },
        }
    }
}

/// One frame: the host's key is latched, `STEPS_PER_FRAME` steps run (with
/// random bytes `rs`), then both timers count down. The result holds the
/// state, the memory and whether the tone sounds, or `None` when a step
/// cannot run.
pub open spec fn frame(c: CpuState, m: Seq<u8>, key: u8, rs: Seq<u8>) -> Option<(CpuState, Seq<u8>, bool)> {
    match run_steps(c, m.update(KEYPAD as int, key), rs, STEPS_PER_FRAME as int) {
        None => None,
        Some((c1, m1)) => Some(
            (
                c1,
                m1.update(DELAY_TIMER as int, count_down(m1[DELAY_TIMER as int])).update(
                    SOUND_TIMER as int,
                    count_down(m1[SOUND_TIMER as int]),
                ),
                m1[SOUND_TIMER as int] > 0,
            ),
        ),
    }
}

proof fn lemma_run_steps_prefix(c: CpuState, m: Seq<u8>, rs: Seq<u8>, rs2: Seq<u8>, n: int)
    requires
        forall|k: int| 0 <= k < n ==> rs[k] == rs2[k],
    ensures
        run_steps(c, m, rs, n) == run_steps(c, m, rs2, n),
    decreases n,
{
    if n > 0 {
        lemma_run_steps_prefix(c, m, rs, rs2, n - 1);
    }
}

proof fn lemma_run_steps_stuck(c: CpuState, m: Seq<u8>, rs: Seq<u8>, i: int, n: int)
    requires
        0 <= i <= n,
        run_steps(c, m, rs, i) is None,
    ensures
        run_steps(c, m, rs, n) is None,
    decreases n - i,
{
    if i < n {
        lemma_run_steps_stuck(c, m, rs, i, n - 1);
    }
}

/// Draws a byte from `rand::thread_rng()`. Its value is left open: nothing
/// is claimed of it.
#[verifier::external_body]
fn random_byte() -> u8 {
    rand::thread_rng().gen::<u8>()
}

/// The processor.
pub struct Cpu {
    stack: [usize; 16],
    stack_pointer: usize,
}

impl View for Cpu {
    type V = CpuState;

    closed spec fn view(&self) -> CpuState {
        CpuState { stack: self.stack@, sp: self.stack_pointer as int }
    }
}

impl Cpu {
    /// A processor about to run the instruction at 0x200, with no pending call.
    pub fn new() -> (cpu: Cpu)
        ensures
            state_wf(cpu@),
            cpu@.sp == 0,
            cpu@.stack == seq![0x200usize, 0, 0, 0, 0, 0, 0, 0, 0, 0, 0, 0, 0, 0, 0, 0],
    {
        let mut stack = [0usize; 16];
        stack[0] = 0x200;
        let cpu = Cpu { stack, stack_pointer: 0 };
        assert(cpu@.stack =~= seq![0x200usize, 0, 0, 0, 0, 0, 0, 0, 0, 0, 0, 0, 0, 0, 0, 0]);
        cpu
    }

    /// Executes `command` on `memory`, drawing the random byte of CXNN from
    /// the thread's random generator. The memory after the call is that of
    /// `exec_mem` for some random byte; the outcome does not depend on it.
    pub fn execute(&self, command: u16, memory: &mut Vec<u8>) -> (r: Result<(u16, u16), &'static str>)
        requires
            exec_ok(command, old(memory)@),
        ensures
            exists|rnd: u8| final(memory)@ == exec_mem(command, old(memory)@, rnd),
            match exec_code(command, old(memory)@) {
                Some(c) => r == Ok::<(u16, u16), &'static str>(c),
                None => r == Err::<(u16, u16), &'static str>("Whoops!"),
            },
    {
        let random = if 0xC000 <= command && command < 0xD000 {
            random_byte()
        } else {
            0
        };
        execute_with(command, memory, random)
    }

    /// The instruction word at the current address.
    fn fetch_command(&self, memory: &Vec<u8>) -> (command: u16)
        requires
            state_wf(self@),
            pc(self@) + 1 < memory.len(),
        ensures
            command == fetch(self@, memory@),
    {
        let pc = self.stack[self.stack_pointer];
        let hi = memory[pc] as u16;
        let lo = memory[pc + 1] as u16;
        assert(hi << 8 == hi * 256) by (bit_vector)
            requires
                hi < 256,
        ;
        (hi << 8) + lo
    }

    /// Fetches the instruction at the current address, executes it with
    /// `random` as the byte that CXNN masks, and moves the stack as its
    /// outcome says.
    pub fn step_with(&mut self, memory: &mut Vec<u8>, random: u8)
        requires
            step_ok(old(self)@, old(memory)@),
        ensures
            state_wf(final(self)@),
            final(self)@ == step_state(old(self)@, old(memory)@),
            final(memory)@ == step_mem(old(self)@, old(memory)@, random),
            final(memory)@.len() == old(memory)@.len(),
    {
        let ghost m0 = memory@;
        let sp = self.stack_pointer;
        let command = self.fetch_command(memory);
        match execute_with(command, memory, random) {
            Ok(code) => {
                if code.0 == 1 {
                    self.stack[sp] = code.1 as usize - 2;
                } else if code.0 == 2 {
                    self.stack[sp] = self.stack[sp] + 2;
                } else if code.0 == 3 {
                    self.stack[sp] = self.stack[sp] - 2;
                } else if code.0 == 4 {
                    self.stack_pointer = self.stack_pointer - 1;
                } else if code.0 == 5 {
                    self.stack_pointer = self.stack_pointer + 1;
                    let top = self.stack_pointer;
                    self.stack[top] = code.1 as usize - 2;
                }
                let top = self.stack_pointer;
                self.stack[top] = self.stack[top] + 2;
                assert(self@.stack =~= step_state(old(self)@, m0).stack);
            },
            Err(_) => {
                assert(false);
            },
        }
    }

    /// One step, with the random byte of CXNN drawn from the thread's random
    /// generator: the memory after it is that of `step_mem` for some random
    /// byte.
    pub fn step(&mut self, memory: &mut Vec<u8>)
        requires
            step_ok(old(self)@, old(memory)@),
        ensures
            state_wf(final(self)@),
            final(self)@ == step_state(old(self)@, old(memory)@),
            exists|rnd: u8| final(memory)@ == step_mem(old(self)@, old(memory)@, rnd),
            final(memory)@.len() == old(memory)@.len(),
    {
        let command = self.fetch_command(memory);
        let random = if 0xC000 <= command && command < 0xD000 {
            random_byte()
        } else {
            0
        };
        self.step_with(memory, random);
    }

    /// Whether the next step runs on `memory` without a fault (see `step_ok`).
    pub fn can_step(&self, memory: &Vec<u8>) -> (r: bool)
        requires
            state_wf(self@),
        ensures
            r == step_ok(self@, memory@),
    {
        let sp = self.stack_pointer;
        let pc = self.stack[sp];
        if memory.len() < 2 || pc >= memory.len() - 1 {
            return false;
        }
        let command = self.fetch_command(memory);
        if !instruction_ok(command, memory) {
            return false;
        }
        match control_code(command, memory) {
            None => false,
            Some((op, a)) => {
                if op == 1 {
                    a >= 2
                } else if op == 2 {
                    pc <= usize::MAX - 4
                } else if op == 3 {
                    pc >= 2
                } else if op == 4 {
                    sp >= 1 && self.stack[sp - 1] <= usize::MAX - 2
                } else if op == 5 {
                    sp + 1 < 16 && a >= 2
                } else {
                    pc <= usize::MAX - 2
                }
            },
        }
    }

    /// Copies a program into memory from address 0x200 on.
    pub fn load_prog_into_memory(content: &[u8], memory: &mut Vec<u8>)
        requires
            PROGRAM_START + content@.len() <= old(memory).len(),
        ensures
            final(memory)@ == old(memory)@.take(PROGRAM_START as int) + content@ + old(memory)@.skip(
                PROGRAM_START + content@.len(),
            ),
    {
        let ghost m0 = memory@;
        let mut index = PROGRAM_START;
        for k in 0..content.len()
            invariant
                index == PROGRAM_START + k,
                PROGRAM_START + content@.len() <= m0.len(),
                memory.len() == m0.len(),
                forall|j: int|
                    0 <= j < m0.len() ==> memory@[j] == (if PROGRAM_START <= j < index {
                        content@[j - PROGRAM_START]
                    } else {
                        m0[j]
                    }),
        {
            memory[index] = content[k];
            index += 1;
        }
        assert(memory@ =~= m0.take(PROGRAM_START as int) + content@ + m0.skip(
            PROGRAM_START + content@.len(),
        ));
    }

    /// Address of the instruction the next step runs.
    pub fn program_counter(&self) -> (r: usize)
        requires
            state_wf(self@),
        ensures
            r == pc(self@),
    {
        self.stack[self.stack_pointer]
    }

    /// Number of pending subroutine calls.
    pub fn call_depth(&self) -> (r: usize)
        ensures
            r == self@.sp,
    {
        self.stack_pointer
    }

    /// Runs one frame (see `frame`): latches `key`, runs `STEPS_PER_FRAME`
    /// steps and counts the timers down. Returns whether the tone sounds,
    /// or `None` as soon as a step cannot run.
    pub fn run_frame(&mut self, memory: &mut Vec<u8>, key: u8) -> (r: Option<bool>)
        requires
            state_wf(old(self)@),
            old(memory).len() > KEYPAD,
        ensures
            state_wf(final(self)@),
            final(memory)@.len() == old(memory)@.len(),
            exists|rs: Seq<u8>|
                rs.len() == STEPS_PER_FRAME && match #[trigger] frame(old(self)@, old(memory)@, key, rs) {
                    Some((c, m, sound)) => r == Some(sound) && final(self)@ == c && final(memory)@ == m,
                    None => r is None,
                },
    {
        let ghost c0 = self@;
        let ghost m0 = memory@;
        latch_key(memory, key);
        let ghost m1 = memory@;
        let ghost mut rs: Seq<u8> = Seq::empty();
        let mut i: usize = 0;
        while i < STEPS_PER_FRAME
            invariant
                i <= STEPS_PER_FRAME,
                rs.len() == i,
                c0 == old(self)@,
                m0 == old(memory)@,
                m1 == m0.update(KEYPAD as int, key),
                m1.len() == m0.len(),
                m0.len() > KEYPAD,
                state_wf(self@),
                memory@.len() == m0.len(),
                run_steps(c0, m1, rs, i as int) == Some((self@, memory@)),
            decreases STEPS_PER_FRAME - i,
        {
            if !self.can_step(memory) {
                proof {
                    let rs4 = rs + Seq::new((STEPS_PER_FRAME - i) as nat, |k: int| 0u8);
                    lemma_run_steps_prefix(c0, m1, rs, rs4, i as int);
                    assert(run_steps(c0, m1, rs4, i as int + 1) is None);
                    lemma_run_steps_stuck(c0, m1, rs4, i as int + 1, STEPS_PER_FRAME as int);
                    assert(frame(c0, m0, key, rs4) is None);
                }
                return None;
            }
            let ghost cb = self@;
            let ghost mb = memory@;
            self.step(memory);
            proof {
                let rnd = choose|rnd: u8| memory@ == step_mem(cb, mb, rnd);
                let rs2 = rs.push(rnd);
                lemma_run_steps_prefix(c0, m1, rs, rs2, i as int);
                rs = rs2;
            }
            i = i + 1;
        }
        let sound = tick_timers(memory);
        assert(frame(c0, m0, key, rs) == Some((self@, memory@, sound)));
        Some(sound)
    }
}

} // verus!
