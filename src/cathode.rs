//! A two-instruction CPU that drives a cathode-ray screen.
//!
//! `noop` takes one cycle; `addx v` takes two and adds `v` to the register
//! when its second cycle ends. The signal strength samples the register during
//! cycles 20, 60, ..., 220; the screen lights a pixel when the three-pixel
//! sprite centred on the register covers the beam's column.
use vstd::prelude::*;

verus! {

/// Longest program, and largest `addx` operand, that the computer accepts.
pub const PROGRAM_LIMIT: usize = 65536;

/// One instruction.
#[derive(Debug, Clone, Copy, PartialEq, Eq, Structural)]
pub enum Command {
    Noop,
    AddX(i64),
}

/// Where the computer is in its program.
#[derive(Debug, Clone, Copy, PartialEq, Eq, Structural)]
pub enum State {
    /// About to fetch the next instruction.
    Ready,
    /// Executing an instruction; the count says how many of its cycles ended.
    InProgress(Command, u8),
    /// The program has run to its end.
    End,
}

/// The computer's state as plain values.
pub struct Cpu {
    pub program: Seq<Command>,
    pub reg_x: int,
    pub counter: int,
    pub state: State,
    pub position: int,
}

pub open spec fn operand(c: Command) -> int {
    match c {
        Command::Noop => 0,
        Command::AddX(v) => v as int,
    }
}

/// One cycle of the instruction in progress.
pub open spec fn cycle(c: Cpu) -> Cpu {
    match c.state {
        State::InProgress(Command::AddX(v), t) => if t == 1 {
            Cpu { reg_x: c.reg_x + v, counter: c.counter + 1, state: State::Ready, ..c }
        } else {
            Cpu {
                counter: c.counter + 1,
                state: State::InProgress(Command::AddX(v), (t + 1) as u8),
                ..c
            }
        },
        State::InProgress(Command::Noop, _) => Cpu {
            counter: c.counter + 1,
            state: State::Ready,
            ..c
        },
        _ => c,
    }
}

/// One tick: fetch when ready (or stop at the end of the program), then run a cycle.
pub open spec fn tick_spec(c: Cpu) -> Cpu {
    match c.state {
        State::Ready => if c.position == c.program.len() {
            Cpu { state: State::End, ..c }
        } else {
            cycle(
                Cpu {
                    state: State::InProgress(c.program[c.position], 0),
                    position: c.position + 1,
                    ..c
                },
            )
        },
        _ => cycle(c),
    }
}

/// Ticks left until the program ends.
pub open spec fn fuel(c: Cpu) -> nat {
    let rest = c.program.len() - c.position;
    match c.state {
        State::End => 0,
        State::Ready => (3 * rest + 1) as nat,
        State::InProgress(_, t) => (3 * rest + 3 - t) as nat,
    }
}

/// The cycles during which the signal is sampled.
pub open spec fn is_probe(counter: int) -> bool {
    counter == 20 || counter == 60 || counter == 100 || counter == 140 || counter == 180
        || counter == 220
}

pub open spec fn cpu_ok(c: Cpu) -> bool {
    &&& c.program.len() <= PROGRAM_LIMIT
    &&& forall|i: int|
        0 <= i < c.program.len() ==> -(PROGRAM_LIMIT as int) <= #[trigger] operand(c.program[i])
            <= PROGRAM_LIMIT
    &&& 0 <= c.position <= c.program.len()
    &&& 1 <= c.counter
    &&& match c.state {
        State::InProgress(cmd, t) => {
            &&& c.position >= 1
            &&& cmd == c.program[c.position - 1]
            &&& t <= 1
            &&& c.counter <= 2 * (c.position - 1) + 1 + t
            &&& -(1 + (c.position - 1) * PROGRAM_LIMIT) <= c.reg_x <= 1 + (c.position - 1)
                * PROGRAM_LIMIT
        },
        _ => {
            &&& c.counter <= 2 * c.position + 1
            &&& -(1 + c.position * PROGRAM_LIMIT) <= c.reg_x <= 1 + c.position * PROGRAM_LIMIT
        },
    }
}

/// Sum of `reg_x * counter` over the probe cycles from `c` to the end.
pub open spec fn strength_from(c: Cpu) -> int
    decreases fuel(c),
    via strength_from_decreases
{
    if c.state == State::End || !cpu_ok(c) {
        0
    } else {
        let n = tick_spec(c);
        (if is_probe(n.counter) {
            n.reg_x * n.counter
        } else {
            0
        }) + strength_from(n)
    }
}

/// The pixel drawn while `c` is the state at the start of a cycle, preceded by a
/// line break at the start of each row of 40.
pub open spec fn pixel(c: Cpu) -> Seq<char> {
    let x = (c.counter - 1) % 40;
    let lit = if x - 2 < c.reg_x < x + 2 {
        '\u{2588}'
    } else {
        ' '
    };
    if x == 0 {
        seq!['\n', lit]
    } else {
        seq![lit]
    }
}

/// The screen drawn from `c` to the end of the program.
pub open spec fn screen_from(c: Cpu) -> Seq<char>
    decreases fuel(c),
    via screen_from_decreases
{
    if c.state == State::End || !cpu_ok(c) {
        seq![]
    } else {
        pixel(c) + screen_from(tick_spec(c))
    }
}

/// The state in which the program ends when run from `c`.
pub open spec fn run_end(c: Cpu) -> Cpu
    decreases fuel(c),
    via run_end_decreases
{
    if c.state == State::End || !cpu_ok(c) {
        c
    } else {
        run_end(tick_spec(c))
    }
}

/// Cycles that the instructions `prog[k..]` take: one per `noop`, two per `addx`.
pub open spec fn cycles_from(prog: Seq<Command>, k: int) -> int
    decreases prog.len() - k,
{
    if k < 0 || k >= prog.len() {
        0
    } else {
        (match prog[k] {
            Command::Noop => 1int,
            Command::AddX(_) => 2int,
        }) + cycles_from(prog, k + 1)
    }
}

/// Sum of the `addx` operands of `prog[k..]`.
pub open spec fn adds_from(prog: Seq<Command>, k: int) -> int
    decreases prog.len() - k,
{
    if k < 0 || k >= prog.len() {
        0
    } else {
        operand(prog[k]) + adds_from(prog, k + 1)
    }
}

/// Run from a ready state, the program ends with the position at its end,
/// the counter advanced by the cycles of the remaining instructions and the
/// register increased by the sum of their `addx` operands.
pub proof fn lemma_run_totals(c: Cpu)
    requires
        cpu_ok(c),
        c.state == State::Ready,
    ensures
        run_end(c) == (Cpu {
            program: c.program,
            reg_x: c.reg_x + adds_from(c.program, c.position),
            counter: c.counter + cycles_from(c.program, c.position),
            state: State::End,
            position: c.program.len() as int,
        }),
    decreases c.program.len() - c.position,
{
    lemma_tick(c);
    let n1 = tick_spec(c);
    if c.position == c.program.len() {
        assert(run_end(n1) == n1);
    } else {
        match c.program[c.position] {
            Command::Noop => {
                lemma_run_totals(n1);
            },
            Command::AddX(v) => {
                lemma_tick(n1);
                let n2 = tick_spec(n1);
                assert(run_end(c) == run_end(n1));
                assert(run_end(n1) == run_end(n2));
                lemma_run_totals(n2);
            },
        }
    }
}

#[via_fn]
proof fn run_end_decreases(c: Cpu) {
    if c.state != State::End && cpu_ok(c) {
        lemma_tick(c);
    }
}

#[via_fn]
proof fn strength_from_decreases(c: Cpu) {
    if c.state != State::End && cpu_ok(c) {
        lemma_tick(c);
    }
}

#[via_fn]
proof fn screen_from_decreases(c: Cpu) {
    if c.state != State::End && cpu_ok(c) {
        lemma_tick(c);
    }
}

proof fn lemma_tick(c: Cpu)
    requires
        cpu_ok(c),
        c.state != State::End,
    ensures
        cpu_ok(tick_spec(c)),
        fuel(tick_spec(c)) < fuel(c),
        tick_spec(c).program == c.program,
        tick_spec(c).counter <= c.counter + 1,
        tick_spec(c).counter >= c.counter,
{
    if c.state == State::Ready && c.position < c.program.len() {
        assert(-(PROGRAM_LIMIT as int) <= operand(c.program[c.position]) <= PROGRAM_LIMIT);
    }
    match c.state {
        State::InProgress(cmd, t) => {
            assert(-(PROGRAM_LIMIT as int) <= operand(c.program[c.position - 1]) <= PROGRAM_LIMIT);
        },
        _ => {},
    }
}

/// The computer running a program.
#[derive(Debug, Clone)]
pub struct Computer {
    program: Vec<Command>,
    reg_x: i64,
    counter: usize,
    state: State,
    position: usize,
}

impl Computer {
    pub closed spec fn view(&self) -> Cpu {
        Cpu {
            program: self.program@,
            reg_x: self.reg_x as int,
            counter: self.counter as int,
            state: self.state,
            position: self.position as int,
        }
    }

    /// A computer about to run `program`: register 1, first cycle.
    pub fn new(program: Vec<Command>) -> (r: Computer)
        ensures
            r.view() == (Cpu { program: program@, reg_x: 1, counter: 1, state: State::Ready, position: 0 }),
    {
        Computer { program, reg_x: 1, counter: 1, state: State::Ready, position: 0 }
    }

    /// Runs one cycle of the instruction in progress.
    pub fn execute_cycle(&mut self)
        requires
            cpu_ok(old(self).view()),
            old(self).view().state is InProgress,
        ensures
            final(self).view() == cycle(old(self).view()),
    {
        proof {
            let c = self.view();
            assert(-(PROGRAM_LIMIT as int) <= operand(c.program[c.position - 1]) <= PROGRAM_LIMIT);
        }
        match self.state {
            State::InProgress(Command::AddX(v), t) => {
                if t == 1 {
                    self.reg_x = self.reg_x + v;
                    self.state = State::Ready;
                } else {
                    self.state = State::InProgress(Command::AddX(v), t + 1);
                }
            },
            State::InProgress(Command::Noop, _) => {
                self.state = State::Ready;
            },
            _ => {},
        }
        self.counter = self.counter + 1;
    }

    /// Fetches the next instruction when ready (or ends the program), then
    /// runs one cycle.
    pub fn tick(&mut self)
        requires
            cpu_ok(old(self).view()),
            old(self).view().state != State::End,
        ensures
            final(self).view() == tick_spec(old(self).view()),
    {
        match self.state {
            State::Ready => {
                if self.position == self.program.len() {
                    self.state = State::End;
                    return;
                }
                let c = self.program[self.position];
                self.state = State::InProgress(c, 0);
                self.position = self.position + 1;
                self.execute_cycle();
            },
            _ => {
                self.execute_cycle();
            },
        }
    }

    /// Runs the program to its end and sums `register * cycle` over the probe cycles.
    pub fn get_signal_strength(&mut self) -> (r: i64)
        requires
            cpu_ok(old(self).view()),
        ensures
            r as int == strength_from(old(self).view()),
            final(self).view() == run_end(old(self).view()),
            old(self).view().state == State::Ready ==> {
                let c = old(self).view();
                let f = final(self).view();
                &&& f.position == c.program.len()
                &&& f.counter == c.counter + cycles_from(c.program, c.position)
                &&& f.reg_x == c.reg_x + adds_from(c.program, c.position)
            },
            final(self).view().state == State::End,
    {
        let ghost start = self.view();
        proof {
            if start.state == State::Ready {
                lemma_run_totals(start);
            }
        }
        let mut strength: i64 = 0;
        while self.state != State::End
            invariant
                cpu_ok(self.view()),
                strength + strength_from(self.view()) == strength_from(start),
                run_end(self.view()) == run_end(start),
                -(samples(self.view()) * PROBE_BOUND) <= strength <= samples(self.view())
                    * PROBE_BOUND,
            decreases fuel(self.view()),
        {
            proof {
                lemma_tick(self.view());
            }
            let ghost before = self.counter as int;
            self.tick();
            if self.counter == 20 || self.counter == 60 || self.counter == 100 || self.counter == 140
                || self.counter == 180 || self.counter == 220 {
                proof {
                    let c = self.view();
                    assert(-(PROBE_BOUND as int) <= c.reg_x * c.counter <= PROBE_BOUND) by (nonlinear_arith)
                        requires
                            -(1 + c.position * PROGRAM_LIMIT) <= c.reg_x <= 1 + c.position * PROGRAM_LIMIT,
                            0 <= c.position <= PROGRAM_LIMIT,
                            1 <= c.counter <= 220,
                    ;
                }
                strength = strength + self.reg_x * (self.counter as i64);
            }
        }
        strength
    }

    /// Runs the program to its end and returns the screen it draws, each row
    /// of 40 pixels preceded by a line break.
    pub fn draw_crt(&mut self) -> (r: Vec<char>)
        requires
            cpu_ok(old(self).view()),
        ensures
            r@ == screen_from(old(self).view()),
            final(self).view() == run_end(old(self).view()),
            final(self).view().state == State::End,
    {
        let ghost start = self.view();
        let mut out: Vec<char> = Vec::new();
        while self.state != State::End
            invariant
                cpu_ok(self.view()),
                out@ + screen_from(self.view()) == screen_from(start),
                run_end(self.view()) == run_end(start),
            decreases fuel(self.view()),
        {
            proof {
                lemma_tick(self.view());
            }
            let ghost before = self.view();
            let x = ((self.counter - 1) % 40) as i64;
            if x == 0 {
                out.push('\n');
            }
            if self.reg_x > x - 2 && self.reg_x < x + 2 {
                out.push('\u{2588}');
            } else {
                out.push(' ');
            }
            proof {
                assert(out@ + screen_from(tick_spec(before)) =~= screen_from(start));
            }
            self.tick();
        }
        out
    }
}

/// Bound on one sample `register * cycle`.
pub const PROBE_BOUND: i64 = 0x0100_0000_0000_0000;

/// How many samples can have been taken by the time `c` is reached: one per
/// probe cycle passed, and one more when the program ends on a probe cycle.
pub open spec fn samples(c: Cpu) -> int {
    probes_upto(c.counter) + if c.state == State::End {
        1int
    } else {
        0int
    }
}

/// How many probe cycles are at most `counter`.
pub open spec fn probes_upto(counter: int) -> int {
    (if counter >= 20 { 1int } else { 0int }) + (if counter >= 60 { 1int } else { 0int }) + (if counter
        >= 100 {
        1int
    } else {
        0int
    }) + (if counter >= 140 { 1int } else { 0int }) + (if counter >= 180 { 1int } else { 0int }) + (
    if counter >= 220 {
        1int
    } else {
        0int
    })
}

} // verus!
