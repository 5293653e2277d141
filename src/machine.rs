use std::collections::HashSet;
use vstd::prelude::*;
use crate::text::{
    chars_of, lines, lines_spec, parse_i32, parse_i32_spec, split, split_on, trim, trim_spec, views,
};

verus! {

/// One instruction of the machine, with its signed operand.
#[derive(Clone, Copy, Debug, PartialEq, Eq, Structural)]
pub enum Instruction {
    Acc(i32),
    Jmp(i32),
    Nop(i32),
}

/// An ordered, zero-indexed sequence of instructions.
#[derive(Clone, Debug)]
pub struct Program(pub Vec<Instruction>);

impl View for Program {
    type V = Seq<Instruction>;

    open spec fn view(&self) -> Seq<Instruction> {
        self.0@
    }
}

/// The instruction at `index`, if there is one.
pub open spec fn fetch(p: Seq<Instruction>, index: int) -> Option<Instruction> {
    if 0 <= index < p.len() {
        Some(p[index])
    } else {
        None
    }
}

impl Program {
    pub fn new(instructions: Vec<Instruction>) -> (r: Program)
        ensures
            r@ == instructions@,
    {
        Program(instructions)
    }

    /// A separate copy of this program.
    pub fn duplicate(&self) -> (r: Program)
        ensures
            r@ == self@,
    {
        let mut out: Vec<Instruction> = Vec::with_capacity(self.0.len());
        let mut i: usize = 0;
        while i < self.0.len()
            invariant
                i <= self@.len(),
                out@ == self@.subrange(0, i as int),
            decreases self@.len() - i,
        {
            out.push(self.0[i]);
            i += 1;
        }
        assert(out@ =~= self@);
        Program(out)
    }

    pub fn len(&self) -> (r: usize)
        ensures
            r == self@.len(),
    {
        self.0.len()
    }

    /// The instruction at `index`; `None` for a negative index or one at or past the end.
    pub fn get(&self, index: i64) -> (r: Option<Instruction>)
        ensures
            r == fetch(self@, index as int),
    {
        if index < 0 || index as u64 >= self.0.len() as u64 {
            None
        } else {
            Some(self.0[index as usize])
        }
    }

    /// Replaces the instruction at `index` and returns the one it displaced;
    /// an index out of range leaves the program as it was.
    pub fn swap(&mut self, index: i64, replacement: Instruction) -> (r: Option<Instruction>)
        ensures
            r == fetch(old(self)@, index as int),
            r is Some ==> final(self)@ == old(self)@.update(index as int, replacement),
            r is None ==> final(self)@ == old(self)@,
    {
        if index < 0 || index as u64 >= self.0.len() as u64 {
            None
        } else {
            let previous = self.0[index as usize];
            self.0.set(index as usize, replacement);
            Some(previous)
        }
    }
}

/// Swapping an instruction in and then swapping the displaced one back
/// leaves the program as it was.
pub proof fn lemma_swap_round_trip(p: Seq<Instruction>, index: int, replacement: Instruction)
    requires
        fetch(p, index) is Some,
    ensures
        p.update(index, replacement).update(index, fetch(p, index)->0) == p,
        fetch(p.update(index, replacement), index) == Some(replacement),
{
    assert(p.update(index, replacement).update(index, p[index]) =~= p);
}


/// Why a line of program text was refused.
#[derive(Clone, Copy, Debug, PartialEq, Eq, Structural)]
pub enum ParseError {
    /// The line is not a known mnemonic followed by one operand.
    InvalidLine,
    /// The operand is not a 32-bit signed number.
    InvalidValue,
}

pub open spec fn word3(a: char, b: char, c: char) -> Seq<char> {
    seq![a, b, c]
}

/// An instruction from a line such as `acc +3`: a mnemonic, one space and
/// a signed operand, with surrounding whitespace ignored.
pub open spec fn parse_instruction_spec(line: Seq<char>) -> Result<Instruction, ParseError> {
    let parts = split_on(trim_spec(line), ' ');
    if parts.len() != 2 {
        Err(ParseError::InvalidLine)
    } else if parts[0] != word3('a', 'c', 'c') && parts[0] != word3('j', 'm', 'p') && parts[0]
        != word3('n', 'o', 'p') {
        Err(ParseError::InvalidLine)
    } else {
        match parse_i32_spec(parts[1]) {
            None => Err(ParseError::InvalidValue),
            Some(v) => Ok(
                if parts[0] == word3('a', 'c', 'c') {
                    Instruction::Acc(v as i32)
                } else if parts[0] == word3('j', 'm', 'p') {
                    Instruction::Jmp(v as i32)
                } else {
                    Instruction::Nop(v as i32)
                },
            ),
        }
    }
}

/// The instructions of the given lines, or the error of the first line refused.
pub open spec fn parse_lines_spec(ls: Seq<Seq<char>>) -> Result<Seq<Instruction>, ParseError>
    decreases ls.len(),
{
    if ls.len() == 0 {
        Ok(Seq::empty())
    } else {
        match parse_lines_spec(ls.drop_last()) {
            Err(e) => Err(e),
            Ok(p) => match parse_instruction_spec(ls.last()) {
                Err(e) => Err(e),
                Ok(i) => Ok(p.push(i)),
            },
        }
    }
}

/// A program from its text: one instruction per line, with surrounding
/// whitespace ignored.
pub open spec fn parse_program_spec(s: Seq<char>) -> Result<Seq<Instruction>, ParseError> {
    parse_lines_spec(lines_spec(trim_spec(s)))
}

fn is_word3(w: &Vec<char>, a: char, b: char, c: char) -> (r: bool)
    ensures
        r == (w@ == word3(a, b, c)),
{
    let r = w.len() == 3 && w[0] == a && w[1] == b && w[2] == c;
    if w.len() == 3 {
        assert(r ==> w@ =~= word3(a, b, c));
    }
    r
}

impl Instruction {
    /// Reads one line of program text.
    pub fn parse(line: &[char]) -> (r: Result<Instruction, ParseError>)
        ensures
            r == parse_instruction_spec(line@),
    {
        let parts = split(trim(line), ' ');
        assert(parts@.len() == views(parts@).len());
        if parts.len() != 2 {
            return Err(ParseError::InvalidLine);
        }
        assert(views(parts@)[0] == parts@[0]@ && views(parts@)[1] == parts@[1]@);
        let is_acc = is_word3(&parts[0], 'a', 'c', 'c');
        let is_jmp = is_word3(&parts[0], 'j', 'm', 'p');
        let is_nop = is_word3(&parts[0], 'n', 'o', 'p');
        if !is_acc && !is_jmp && !is_nop {
            return Err(ParseError::InvalidLine);
        }
        match parse_i32(parts[1].as_slice()) {
            None => Err(ParseError::InvalidValue),
            Some(v) => Ok(
                if is_acc {
                    Instruction::Acc(v)
                } else if is_jmp {
                    Instruction::Jmp(v)
                } else {
                    Instruction::Nop(v)
                },
            ),
        }
    }
}

impl Program {
    /// Reads a program from its text.
    pub fn parse(s: &str) -> (r: Result<Program, ParseError>)
        ensures
            match r {
                Ok(p) => parse_program_spec(s@) == Ok::<Seq<Instruction>, ParseError>(p@),
                Err(e) => parse_program_spec(s@) == Err::<Seq<Instruction>, ParseError>(e),
            },
    {
        let chars = chars_of(s);
        let ls = lines(trim(chars.as_slice()));
        let ghost lv = views(ls@);
        let mut out: Vec<Instruction> = Vec::new();
        let mut i: usize = 0;
        while i < ls.len()
            invariant
                i <= ls@.len(),
                lv == views(ls@),
                lv == lines_spec(trim_spec(s@)),
                parse_lines_spec(lv.subrange(0, i as int)) == Ok::<Seq<Instruction>, ParseError>(
                    out@,
                ),
            decreases ls@.len() - i,
        {
            assert(lv.subrange(0, i + 1).drop_last() =~= lv.subrange(0, i as int));
            assert(lv[i as int] == ls@[i as int]@);
            match Instruction::parse(ls[i].as_slice()) {
                Err(e) => {
                    proof {
                        lemma_parse_lines_err(lv, i as int);
                    }
                    return Err(e);
                },
                Ok(ins) => {
                    out.push(ins);
                },
            }
            i += 1;
        }
        assert(lv.subrange(0, lv.len() as int) =~= lv);
        Ok(Program(out))
    }
}

/// An error on line `i`, after good lines, is the error of the whole text.
proof fn lemma_parse_lines_err(ls: Seq<Seq<char>>, i: int)
    requires
        0 <= i < ls.len(),
        parse_lines_spec(ls.subrange(0, i)) is Ok,
        parse_instruction_spec(ls[i]) is Err,
    ensures
        parse_lines_spec(ls) == Err::<Seq<Instruction>, ParseError>(
            parse_instruction_spec(ls[i])->Err_0,
        ),
    decreases ls.len() - i,
{
    if i == ls.len() - 1 {
        assert(ls.drop_last() =~= ls.subrange(0, i));
    } else {
        assert(ls.drop_last().subrange(0, i) =~= ls.subrange(0, i));
        lemma_parse_lines_err(ls.drop_last(), i);
    }
}

impl std::str::FromStr for Program {
    type Err = ParseError;

    fn from_str(s: &str) -> Result<Program, ParseError> {
        Program::parse(s)
    }
}

/// The phase a machine is in.
#[derive(Clone, Copy, Debug, PartialEq, Eq, Structural)]
pub enum State {
    Exiting,
    Looping,
    Running,
}

/// The abstract state of a machine: accumulator, program counter, the
/// addresses reached so far, and its phase.
pub struct Config {
    pub ac: int,
    pub pc: i64,
    pub seen: Set<i64>,
    pub state: State,
}

/// Where every machine starts.
pub open spec fn init_config() -> Config {
    Config { ac: 0, pc: 0, seen: Set::empty(), state: State::Running }
}

pub open spec fn next_pc(ins: Instruction, pc: int) -> int {
    match ins {
        Instruction::Jmp(n) => pc + n,
        _ => pc + 1,
    }
}

pub open spec fn next_ac(ins: Instruction, ac: int) -> int {
    match ins {
        Instruction::Acc(n) => ac + n,
        _ => ac,
    }
}

/// One transition: with no instruction at the program counter the machine
/// exits; otherwise it executes it, records the new program counter, and
/// loops if that address had been reached before.
pub open spec fn step_spec(p: Seq<Instruction>, c: Config) -> Config {
    match fetch(p, c.pc as int) {
        None => Config { ac: c.ac, pc: c.pc, seen: c.seen, state: State::Exiting },
        Some(ins) => {
            let pc = next_pc(ins, c.pc as int) as i64;
            Config {
                ac: next_ac(ins, c.ac),
                pc,
                seen: c.seen.insert(pc),
                state: if c.seen.contains(pc) {
                    State::Looping
                } else {
                    State::Running
                },
            }
        },
    }
}

pub open spec fn abs(x: int) -> int {
    if x < 0 {
        -x
    } else {
        x
    }
}

/// What holds of every state that a machine reaches from `init_config`.
pub open spec fn reachable_inv(p: Seq<Instruction>, c: Config) -> bool {
    &&& p.len() <= i32::MAX
    &&& c.seen.finite()
    &&& c.seen.len() <= p.len()
    &&& forall|x: i64| #[trigger] c.seen.contains(x) ==> (0 <= x < p.len() || x == c.pc)
    &&& -0x8000_0000 <= c.pc <= p.len() + 0x8000_0000
    &&& c.seen.is_empty() ==> c.pc == 0
    &&& (!c.seen.is_empty() && p.len() > 0) ==> c.seen.contains(next_pc(p[0], 0) as i64)
    &&& (c.state is Running && c.seen.contains(0)) ==> c.pc == 0
    &&& abs(c.ac) <= (c.seen.len() + if c.state is Looping {
        1int
    } else {
        0int
    }) * 0x8000_0000
}

/// The state reached from `c` after at most `fuel` steps, stopping early
/// once the machine is no longer running.
pub open spec fn run_n(p: Seq<Instruction>, c: Config, fuel: nat) -> Config
    decreases fuel,
{
    if fuel == 0 || !(c.state is Running) {
        c
    } else {
        run_n(p, step_spec(p, c), (fuel - 1) as nat)
    }
}

/// How many more steps a reachable state can take at most before it stops.
pub open spec fn steps_left(p: Seq<Instruction>, c: Config) -> int {
    if c.state is Running {
        p.len() + 1 - c.seen.len()
    } else {
        0
    }
}

/// The state in which a machine stops when run from `c`.
pub open spec fn halt(p: Seq<Instruction>, c: Config) -> Config {
    run_n(p, c, (p.len() + 1) as nat)
}

/// The outcome of running `p` from the start.
pub open spec fn run_spec(p: Seq<Instruction>) -> Config {
    halt(p, init_config())
}

/// The integers `lo <= x < hi` form a finite set of `hi - lo` elements.
proof fn lemma_range_len(lo: i64, hi: i64)
    requires
        lo <= hi,
    ensures
        Set::new(|x: i64| lo <= x < hi).finite(),
        Set::new(|x: i64| lo <= x < hi).len() == hi - lo,
    decreases hi - lo,
{
    if lo == hi {
        assert(Set::new(|x: i64| lo <= x < hi) =~= Set::empty());
    } else {
        lemma_range_len(lo, (hi - 1) as i64);
        assert(Set::new(|x: i64| lo <= x < hi) =~= Set::new(|x: i64| lo <= x < (hi - 1) as i64).insert(
            (hi - 1) as i64,
        ));
    }
}

/// A step from a running, reachable state keeps the invariant.
proof fn lemma_step_inv(p: Seq<Instruction>, c: Config)
    requires
        reachable_inv(p, c),
        c.state is Running,
    ensures
        reachable_inv(p, step_spec(p, c)),
        step_spec(p, c).state is Running ==> step_spec(p, c).seen.len() == c.seen.len() + 1,
        !(step_spec(p, c).state is Running) ==> step_spec(p, c).seen == c.seen,
{
    let d = step_spec(p, c);
    if let Some(ins) = fetch(p, c.pc as int) {
        let npc = next_pc(ins, c.pc as int) as i64;
        if !c.seen.contains(npc) {
            assert(d.seen.len() == c.seen.len() + 1);
            if c.seen.contains(0) {
                assert(c.pc == 0);
                assert(npc == next_pc(p[0], 0) as i64);
                assert(false);
            }
            if d.seen.contains(0) && npc != 0 {
                assert(false);
            }
            if npc == 0 {
                let s = Set::new(|x: i64| 0 <= x < p.len() as i64);
                lemma_range_len(0, p.len() as i64);
                assert(d.seen.subset_of(s));
                vstd::set_lib::lemma_len_subset(d.seen, s);
            } else {
                let s = Set::new(|x: i64| 1 <= x < p.len() as i64);
                lemma_range_len(1, p.len() as i64);
                assert(d.seen.subset_of(s.insert(npc)));
                vstd::set_lib::lemma_len_subset(d.seen, s.insert(npc));
            }
            if c.seen.is_empty() {
                assert(d.seen.contains(next_pc(p[0], 0) as i64));
            }
        } else {
            assert(d.seen =~= c.seen);
        }
    }
}

/// From a reachable state, `steps_left` steps suffice to stop.
proof fn lemma_run_n_stops(p: Seq<Instruction>, c: Config, fuel: nat)
    requires
        reachable_inv(p, c),
        fuel >= steps_left(p, c),
    ensures
        !(run_n(p, c, fuel).state is Running),
        reachable_inv(p, run_n(p, c, fuel)),
    decreases fuel,
{
    if c.state is Running {
        lemma_step_inv(p, c);
        lemma_run_n_stops(p, step_spec(p, c), (fuel - 1) as nat);
    }
}

/// Once stopped, more fuel changes nothing.
proof fn lemma_run_n_stable(p: Seq<Instruction>, c: Config, fuel: nat, more: nat)
    requires
        !(run_n(p, c, fuel).state is Running),
        more >= fuel,
    ensures
        run_n(p, c, more) == run_n(p, c, fuel),
    decreases fuel,
{
    if fuel > 0 && c.state is Running {
        lemma_run_n_stable(p, step_spec(p, c), (fuel - 1) as nat, (more - 1) as nat);
    }
}

/// A running, reachable state stops where its successor stops.
proof fn lemma_halt_step(p: Seq<Instruction>, c: Config)
    requires
        reachable_inv(p, c),
        c.state is Running,
    ensures
        halt(p, c) == halt(p, step_spec(p, c)),
{
    let d = step_spec(p, c);
    lemma_step_inv(p, c);
    lemma_run_n_stops(p, d, p.len());
    lemma_run_n_stable(p, d, p.len(), (p.len() + 1) as nat);
}

/// A machine bound to one program: accumulator, program counter, the
/// addresses reached so far, and its phase.
#[derive(Debug)]
pub struct Machine {
    pub ac: i64,
    pub pc: i64,
    pub program: Program,
    pub seen: HashSet<i64>,
    pub state: State,
}

impl View for Machine {
    type V = Config;

    open spec fn view(&self) -> Config {
        Config { ac: self.ac as int, pc: self.pc, seen: self.seen@, state: self.state }
    }
}

impl Machine {
    pub open spec fn wf(&self) -> bool {
        reachable_inv(self.program@, self@)
    }

    /// A fresh machine at the start of `program`.
    pub fn new(program: Program) -> (r: Machine)
        requires
            program@.len() <= i32::MAX,
        ensures
            r@ == init_config(),
            r.program@ == program@,
            r.wf(),
    {
        broadcast use vstd::std_specs::hash::group_hash_axioms;

        let capacity = program.len();
        Machine {
            ac: 0,
            pc: 0,
            program,
            seen: HashSet::with_capacity(capacity),
            state: State::Running,
        }
    }

    /// Executes one instruction and reports the phase reached.
    pub fn step(&mut self) -> (r: State)
        requires
            old(self).wf(),
            old(self).state == State::Running,
        ensures
            final(self)@ == step_spec(old(self).program@, old(self)@),
            final(self).program@ == old(self).program@,
            final(self).wf(),
            r == final(self).state,
    {
        broadcast use vstd::std_specs::hash::group_hash_axioms;

        proof {
            lemma_step_inv(self.program@, self@);
        }
        let op = self.program.get(self.pc);
        match op {
            None => {
                self.state = State::Exiting;
            },
            Some(ins) => {
                assert(self.seen@.len() <= self.program@.len());
                match ins {
                    Instruction::Acc(n) => {
                        self.ac = self.ac + n as i64;
                        self.pc = self.pc + 1;
                    },
                    Instruction::Jmp(n) => {
                        self.pc = self.pc + n as i64;
                    },
                    Instruction::Nop(_) => {
                        self.pc = self.pc + 1;
                    },
                }
                if self.seen.insert(self.pc) {
                    self.state = State::Running;
                } else {
                    self.state = State::Looping;
                }
            },
        }
        self.state
    }

    /// Steps until the machine exits or loops, and reports how it stopped.
    pub fn run(&mut self) -> (r: State)
        requires
            old(self).wf(),
        ensures
            final(self)@ == halt(old(self).program@, old(self)@),
            final(self).program@ == old(self).program@,
            final(self).wf(),
            r == final(self).state,
            r != State::Running,
    {
        let ghost p = self.program@;
        let ghost start = self@;
        proof {
            lemma_run_n_stops(p, start, (p.len() + 1) as nat);
        }
        while self.state == State::Running
            invariant
                self.wf(),
                self.program@ == p,
                halt(p, self@) == halt(p, start),
            decreases steps_left(p, self@),
        {
            proof {
                lemma_halt_step(p, self@);
                lemma_step_inv(p, self@);
            }
            self.step();
        }
        proof {
            assert(halt(p, self@) == self@);
        }
        self.state
    }
}

/// The addresses a finished run reached: those inside the program in
/// ascending order, then the address it exited at, if it had reached one.
pub open spec fn visited_listing(p: Seq<Instruction>, c: Config) -> Seq<i64> {
    Seq::new(p.len(), |i: int| i as i64).filter(|x: i64| c.seen.contains(x)) + if c.seen.contains(
        c.pc,
    ) && fetch(p, c.pc as int) is None {
        seq![c.pc]
    } else {
        Seq::empty()
    }
}

/// How a complete run from the start ended.
#[derive(Clone, Debug)]
pub struct Outcome {
    pub state: State,
    pub accumulator: i64,
    pub visited: Vec<i64>,
}

/// Runs `program` from the start until it exits or loops.
pub fn run_to_completion(program: &Program) -> (r: Outcome)
    requires
        program@.len() <= i32::MAX,
    ensures
        r.state == run_spec(program@).state,
        r.accumulator == run_spec(program@).ac,
        r.visited@ == visited_listing(program@, run_spec(program@)),
        forall|x: i64| run_spec(program@).seen.contains(x) <==> r.visited@.contains(x),
{
    broadcast use vstd::std_specs::hash::group_hash_axioms;
    broadcast use vstd::seq_lib::group_filter_ensures;

    let mut machine = Machine::new(program.duplicate());
    let state = machine.run();
    let ghost p = program@;
    let ghost c = machine@;
    let ghost pred = |x: i64| c.seen.contains(x);
    let len = program.len();
    let mut visited: Vec<i64> = Vec::new();
    let mut i: usize = 0;
    while i < len
        invariant
            machine@ == c,
            machine.wf(),
            machine.program@ == p,
            len == p.len(),
            i <= len,
            pred == (|x: i64| c.seen.contains(x)),
            visited@ == Seq::new(i as nat, |j: int| j as i64).filter(pred),
        decreases len - i,
    {
        proof {
            assert(Seq::new((i + 1) as nat, |j: int| j as i64) =~= Seq::new(
                i as nat,
                |j: int| j as i64,
            ).push(i as i64));
            Seq::new(i as nat, |j: int| j as i64).lemma_filter_push(i as i64, pred);
        }
        if machine.seen.contains(&(i as i64)) {
            visited.push(i as i64);
        }
        i += 1;
    }
    let ghost inside = visited@;
    if machine.program.get(machine.pc).is_none() && machine.seen.contains(&machine.pc) {
        visited.push(machine.pc);
    }
    proof {
        assert(visited@ =~= visited_listing(p, c));
        assert forall|x: i64| c.seen.contains(x) <==> visited@.contains(x) by {
            if c.seen.contains(x) {
                if 0 <= x < p.len() {
                    assert(Seq::new(p.len(), |j: int| j as i64)[x as int] == x);
                    assert(inside.contains(x));
                    assert(visited@[inside.index_of(x)] == x);
                } else {
                    assert(x == c.pc);
                    assert(visited@[visited@.len() - 1] == x);
                }
            }
            if visited@.contains(x) {
                let k = choose|k: int| 0 <= k < visited@.len() && visited@[k] == x;
                if k < inside.len() {
                    assert(inside.contains(x));
                }
            }
        }
    }
    Outcome { state, accumulator: machine.ac, visited }
}

/// The sum of the operands of the `Acc` instructions of `p`.
pub open spec fn acc_total(p: Seq<Instruction>) -> int
    decreases p.len(),
{
    if p.len() == 0 {
        0
    } else {
        acc_total(p.drop_last()) + match p.last() {
            Instruction::Acc(n) => n as int,
            _ => 0,
        }
    }
}

/// `p` holds accumulate instructions only.
pub open spec fn straight_line(p: Seq<Instruction>) -> bool {
    forall|i: int| 0 <= i < p.len() ==> p[i] is Acc
}

/// Where a straight-line program stands after `k` steps.
pub open spec fn straight_config(p: Seq<Instruction>, k: int) -> Config {
    Config {
        ac: acc_total(p.subrange(0, k)),
        pc: k as i64,
        seen: Set::new(|x: i64| 1 <= x <= k),
        state: State::Running,
    }
}

proof fn lemma_straight_from(p: Seq<Instruction>, j: int)
    requires
        p.len() <= i32::MAX,
        straight_line(p),
        0 <= j <= p.len(),
    ensures
        run_n(p, straight_config(p, j), (p.len() - j) as nat) == straight_config(p, p.len() as int),
        run_n(p, straight_config(p, j), (p.len() - j + 1) as nat) == (Config {
            ac: acc_total(p),
            pc: p.len() as i64,
            seen: Set::new(|x: i64| 1 <= x <= p.len()),
            state: State::Exiting,
        }),
    decreases p.len() - j,
{
    if j == p.len() {
        let c = straight_config(p, j);
        assert(p.subrange(0, j) =~= p);
        assert(c.seen =~= Set::new(|x: i64| 1 <= x <= p.len()));
        assert(run_n(p, c, 1) == run_n(p, step_spec(p, c), 0));
    } else {
        let c = straight_config(p, j);
        let d = straight_config(p, j + 1);
        assert(p.subrange(0, j + 1).drop_last() =~= p.subrange(0, j));
        assert(step_spec(p, c).seen =~= d.seen);
        assert(step_spec(p, c) == d);
        lemma_straight_from(p, j + 1);
    }
}

/// A program of accumulate instructions alone runs through every
/// instruction and exits: it is still running after `len` steps and exits
/// at the next, with the sum of all operands, having reached each address
/// from 1 to `len` once.
pub proof fn lemma_straight_line_exits(p: Seq<Instruction>)
    requires
        p.len() <= i32::MAX,
        straight_line(p),
    ensures
        run_n(p, init_config(), p.len()).state == State::Running,
        run_spec(p) == (Config {
            ac: acc_total(p),
            pc: p.len() as i64,
            seen: Set::new(|x: i64| 1 <= x <= p.len()),
            state: State::Exiting,
        }),
{
    assert(straight_config(p, 0).seen =~= Set::empty());
    assert(acc_total(p.subrange(0, 0)) == 0);
    assert(straight_config(p, 0) == init_config());
    lemma_straight_from(p, 0);
}

/// Every program has stopped, by exiting or looping, within `len + 1` steps.
pub proof fn lemma_stops_within_len_plus_one(p: Seq<Instruction>)
    requires
        p.len() <= i32::MAX,
    ensures
        run_n(p, init_config(), (p.len() + 1) as nat).state != State::Running,
        run_spec(p) == run_n(p, init_config(), (p.len() + 1) as nat),
{
    lemma_run_n_stops(p, init_config(), (p.len() + 1) as nat);
}

/// Two runs of the same program end alike: same phase, accumulator and
/// reached addresses.
pub proof fn lemma_runs_agree(p: Seq<Instruction>, q: Seq<Instruction>)
    requires
        p == q,
    ensures
        run_spec(p).state == run_spec(q).state,
        run_spec(p).ac == run_spec(q).ac,
        visited_listing(p, run_spec(p)) == visited_listing(q, run_spec(q)),
{
}

/// Why no repair was reported.
#[derive(Clone, Copy, Debug, PartialEq, Eq, Structural)]
pub enum RepairError {
    /// The program does not loop; there is nothing to repair.
    NothingToRepair,
    /// No single jump/no-op swap at a reached address makes the program exit.
    NoRepairFound,
}

/// The instruction that replaces `ins` in a repair trial: a jump becomes a
/// no-op and a no-op a jump, with the same operand.
pub open spec fn flipped(ins: Instruction) -> Option<Instruction> {
    match ins {
        Instruction::Jmp(n) => Some(Instruction::Nop(n)),
        Instruction::Nop(n) => Some(Instruction::Jmp(n)),
        Instruction::Acc(_) => None,
    }
}

/// Address `a` holds a jump or a no-op and was reached by the original run.
pub open spec fn is_candidate(p: Seq<Instruction>, a: int) -> bool {
    &&& 0 <= a < p.len()
    &&& run_spec(p).seen.contains(a as i64)
    &&& flipped(p[a]) is Some
}

/// `p` with the instruction at `a` flipped.
pub open spec fn repaired(p: Seq<Instruction>, a: int) -> Seq<Instruction> {
    p.update(a, flipped(p[a])->0)
}

/// Flipping the instruction at `a` makes the program exit.
pub open spec fn repairs(p: Seq<Instruction>, a: int) -> bool {
    run_spec(repaired(p, a)).state == State::Exiting
}

fn flip(ins: Instruction) -> (r: Option<Instruction>)
    ensures
        r == flipped(ins),
{
    match ins {
        Instruction::Jmp(n) => Some(Instruction::Nop(n)),
        Instruction::Nop(n) => Some(Instruction::Jmp(n)),
        Instruction::Acc(_) => None,
    }
}

/// Searches the addresses that a looping program reached, in ascending
/// order, for the first jump/no-op whose flip makes the program exit, and
/// returns that address with the accumulator of the repaired run.
pub fn find_repair(program: &Program) -> (r: Result<(i64, i64), RepairError>)
    requires
        program@.len() <= i32::MAX,
    ensures
        r == Err::<(i64, i64), RepairError>(RepairError::NothingToRepair) <==> run_spec(
            program@,
        ).state != State::Looping,
        r == Err::<(i64, i64), RepairError>(RepairError::NoRepairFound) <==> (run_spec(
            program@,
        ).state == State::Looping && forall|a: int|
            is_candidate(program@, a) ==> !repairs(program@, a)),
        r matches Ok((a, acc)) ==> {
            &&& run_spec(program@).state == State::Looping
            &&& is_candidate(program@, a as int)
            &&& repairs(program@, a as int)
            &&& run_spec(repaired(program@, a as int)).ac == acc
            &&& forall|b: int| 0 <= b < a && is_candidate(program@, b) ==> !repairs(program@, b)
        },
{
    broadcast use vstd::std_specs::hash::group_hash_axioms;

    let ghost p = program@;
    let mut machine = Machine::new(program.duplicate());
    if machine.run() != State::Looping {
        return Err(RepairError::NothingToRepair);
    }
    let len = program.len();
    let mut i: usize = 0;
    while i < len
        invariant
            machine@ == run_spec(p),
            run_spec(p).state == State::Looping,
            program@ == p,
            p.len() <= i32::MAX,
            len == p.len(),
            i <= len,
            forall|b: int| 0 <= b < i && is_candidate(p, b) ==> !repairs(p, b),
        decreases len - i,
    {
        if machine.seen.contains(&(i as i64)) {
            if let Some(replacement) = flip(program.0[i]) {
                let mut trial = program.duplicate();
                trial.swap(i as i64, replacement);
                assert(trial@ == repaired(p, i as int));
                let mut test = Machine::new(trial);
                if test.run() == State::Exiting {
                    assert(is_candidate(p, i as int) && repairs(p, i as int));
                    return Ok((i as i64, test.ac));
                }
            }
        }
        i += 1;
    }
    Err(RepairError::NoRepairFound)
}

impl std::str::FromStr for Instruction {
    type Err = ParseError;

    fn from_str(s: &str) -> Result<Instruction, ParseError> {
        let chars = chars_of(s);
        Instruction::parse(chars.as_slice())
    }
}

} // verus!
