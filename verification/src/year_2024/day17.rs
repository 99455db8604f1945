//! A small machine with three registers runs a program of three-bit
//! numbers and writes numbers out. The puzzle asks for its output.

use crate::common::parsing::{
    decimal_text, parse_u32, parse_u8, push_decimal, read_regex_records, records_of_matches,
    regex_captures, u32_of, u8_of,
};
use crate::common::text::{split_on, split_on_char, string_of};
use vstd::prelude::*;

verus! {

pub type RegVal = u32;

pub type ThreeBit = u8;

pub type Program = Vec<ThreeBit>;

#[derive(Debug, Clone, Copy, PartialEq, Eq, Structural)]
pub enum Instruction {
    Iadv,
    Ibxl,
    Ibst,
    Ijnz,
    Ibxc,
    Iout,
    Ibdv,
    Icdv,
}

/// The instruction with a given number.
pub open spec fn instruction_of(code: u8) -> Option<Instruction> {
    if code == 0 {
        Some(Instruction::Iadv)
    } else if code == 1 {
        Some(Instruction::Ibxl)
    } else if code == 2 {
        Some(Instruction::Ibst)
    } else if code == 3 {
        Some(Instruction::Ijnz)
    } else if code == 4 {
        Some(Instruction::Ibxc)
    } else if code == 5 {
        Some(Instruction::Iout)
    } else if code == 6 {
        Some(Instruction::Ibdv)
    } else if code == 7 {
        Some(Instruction::Icdv)
    } else {
        None
    }
}

/// Finds the instruction with a given number.
pub fn decode(code: u8) -> (r: Option<Instruction>)
    ensures
        r == instruction_of(code),
{
    match code {
        0 => Some(Instruction::Iadv),
        1 => Some(Instruction::Ibxl),
        2 => Some(Instruction::Ibst),
        3 => Some(Instruction::Ijnz),
        4 => Some(Instruction::Ibxc),
        5 => Some(Instruction::Iout),
        6 => Some(Instruction::Ibdv),
        7 => Some(Instruction::Icdv),
        _ => None,
    }
}

#[derive(Debug)]
pub struct VmState {
    pub registers: [RegVal; 3],
    pub instruction_pointer: usize,
    pub program: Program,
    pub output_so_far: Vec<RegVal>,
    pub halted: bool,
}

/// The state of the machine in mathematical terms.
pub struct Vm {
    pub a: u32,
    pub b: u32,
    pub c: u32,
    pub ip: int,
    pub program: Seq<u8>,
    pub output: Seq<u32>,
    pub halted: bool,
}

impl View for VmState {
    type V = Vm;

    open spec fn view(&self) -> Vm {
        Vm {
            a: self.registers[0],
            b: self.registers[1],
            c: self.registers[2],
            ip: self.instruction_pointer as int,
            program: self.program@,
            output: self.output_so_far@,
            halted: self.halted,
        }
    }
}

/// What a combo operand stands for: itself up to 3, a register for 4 to
/// 6, and nothing beyond.
pub open spec fn combo(s: Vm, operand: u8) -> Option<u32> {
    if operand <= 3 {
        Some(operand as u32)
    } else if operand == 4 {
        Some(s.a)
    } else if operand == 5 {
        Some(s.b)
    } else if operand == 6 {
        Some(s.c)
    } else {
        None
    }
}

/// `a` divided by two to the power `pow`, where `pow` is read as a signed
/// number of 32 bits: the whole part of the quotient, and at most the
/// largest `u32`. For a power below 32 this is `a` shifted right; for a
/// larger one up to the largest positive power it is zero; for a negative
/// one it is `a` shifted left, as far as it goes.
pub open spec fn divided(a: u32, pow: u32) -> u32 {
    if pow < 32 {
        a >> pow
    } else if pow < 0x8000_0000 {
        0
    } else if a == 0 {
        0
    } else if 0x1_0000_0000 - pow >= 32 {
        u32::MAX
    } else if (a as u64) << ((0x1_0000_0000 - pow) as u64) > u32::MAX as u64 {
        u32::MAX
    } else {
        ((a as u64) << ((0x1_0000_0000 - pow) as u64)) as u32
    }
}

/// The state after one instruction. `None` if there is no instruction
/// with its operand at the pointer.
pub open spec fn advanced(s: Vm) -> Option<Vm> {
    if s.halted {
        Some(s)
    } else if !(0 <= s.ip && s.ip + 1 < s.program.len()) {
        None
    } else {
        match instruction_of(s.program[s.ip]) {
            None => None,
            Some(instruction) => {
                let operand = s.program[s.ip + 1];
                let value = combo(s, operand);
                let done = match instruction {
                    Instruction::Iadv => match value {
                        Some(pow) => Vm { a: divided(s.a, pow), ..s },
                        None => Vm { halted: true, ..s },
                    },
                    Instruction::Ibxl => Vm { b: s.b ^ (operand as u32), ..s },
                    Instruction::Ibst => match value {
                        Some(v) => Vm { b: v % 8, ..s },
                        None => Vm { halted: true, ..s },
                    },
                    Instruction::Ijnz => s,
                    Instruction::Ibxc => Vm { b: s.b ^ s.c, ..s },
                    Instruction::Iout => match value {
                        Some(v) => Vm { output: s.output.push(v % 8), ..s },
                        None => Vm { halted: true, ..s },
                    },
                    Instruction::Ibdv => match value {
                        Some(pow) => Vm { b: divided(s.a, pow), ..s },
                        None => Vm { halted: true, ..s },
                    },
                    Instruction::Icdv => match value {
                        Some(pow) => Vm { c: divided(s.a, pow), ..s },
                        None => Vm { halted: true, ..s },
                    },
                };
                let ip = if instruction == Instruction::Ijnz && s.a != 0 {
                    operand as int
                } else {
                    s.ip + 2
                };
                Some(Vm { ip, halted: done.halted || ip >= s.program.len(), ..done })
            },
        }
    }
}

/// The output of a run of at most `fuel` instructions that ends when the
/// machine halts or has put out `max_output_len` numbers. `None` if the
/// run does not end in time or comes to a place without an instruction.
pub open spec fn run(s: Vm, max_output_len: int, fuel: nat) -> Option<Seq<u32>>
    decreases fuel,
{
    if s.halted || s.output.len() >= max_output_len {
        Some(s.output)
    } else if fuel == 0 {
        None
    } else {
        match advanced(s) {
            Some(next) => run(next, max_output_len, (fuel - 1) as nat),
            None => None,
        }
    }
}

/// Whether the output of a run of at most `fuel` instructions stays a
/// beginning of `expected` after every instruction until the machine
/// halts. `None` if the run does not end in time or comes to a place
/// without an instruction.
pub open spec fn expects(s: Vm, expected: Seq<u32>, fuel: nat) -> Option<bool>
    decreases fuel,
{
    if s.halted {
        Some(true)
    } else if fuel == 0 {
        None
    } else {
        match advanced(s) {
            Some(next) => if next.output.is_prefix_of(expected) {
                expects(next, expected, (fuel - 1) as nat)
            } else {
                Some(false)
            },
            None => None,
        }
    }
}

/// The program that a text of numbers with commas between them stands
/// for.
pub open spec fn program_of(text: Seq<char>) -> Option<Seq<u8>> {
    let pieces = split_on(text, ',');
    if forall|i: int| 0 <= i < pieces.len() ==> (#[trigger] u8_of(pieces[i])) is Some {
        Some(Seq::new(pieces.len(), |i: int| u8_of(pieces[i])->0 as u8))
    } else {
        None
    }
}

/// The machine that a record stands for: the whole match, the three
/// registers and the program.
pub open spec fn machine_of(record: Seq<Seq<char>>) -> Option<Vm> {
    if record.len() < 5 {
        None
    } else {
        match (u32_of(record[1]), u32_of(record[2]), u32_of(record[3]), program_of(record[4])) {
            (Some(a), Some(b), Some(c), Some(program)) => Some(
                Vm {
                    a: a as u32,
                    b: b as u32,
                    c: c as u32,
                    ip: 0,
                    program,
                    output: Seq::empty(),
                    halted: false,
                },
            ),
            _ => None,
        }
    }
}

/// Reads a program.
pub fn parse_program(text: &str) -> (r: Option<Program>)
    ensures
        match program_of(text@) {
            Some(program) => r is Some && r->0@ == program,
            None => r is None,
        },
{
    let pieces = split_on_char(text, ',');
    let ghost texts = pieces.deep_view();
    let mut out: Vec<u8> = Vec::new();
    let mut i: usize = 0;
    while i < pieces.len()
        invariant
            texts == pieces.deep_view(),
            texts == split_on(text@, ','),
            i <= pieces@.len(),
            out@.len() == i,
            forall|k: int| 0 <= k < i ==> (#[trigger] u8_of(texts[k])) == Some(out@[k] as int),
        decreases pieces@.len() - i,
    {
        assert(texts[i as int] == pieces@[i as int]@);
        match parse_u8(pieces[i].as_str()) {
            Some(v) => {
                out.push(v);
            },
            None => {
                return None;
            },
        }
        i += 1;
    }
    assert(out@ =~= program_of(text@)->0);
    Some(out)
}

impl VmState {
    /// A copy of the state.
    pub fn copy(&self) -> (r: VmState)
        ensures
            r@ == self@,
    {
        let mut program: Program = Vec::new();
        let mut i: usize = 0;
        while i < self.program.len()
            invariant
                i <= self.program@.len(),
                program@ == self.program@.take(i as int),
            decreases self.program@.len() - i,
        {
            program.push(self.program[i]);
            i += 1;
        }
        let mut output_so_far: Vec<RegVal> = Vec::new();
        let mut k: usize = 0;
        while k < self.output_so_far.len()
            invariant
                k <= self.output_so_far@.len(),
                output_so_far@ == self.output_so_far@.take(k as int),
            decreases self.output_so_far@.len() - k,
        {
            output_so_far.push(self.output_so_far[k]);
            k += 1;
        }
        assert(program@ =~= self.program@);
        assert(output_so_far@ =~= self.output_so_far@);
        VmState {
            registers: [self.registers[0], self.registers[1], self.registers[2]],
            instruction_pointer: self.instruction_pointer,
            program,
            output_so_far,
            halted: self.halted,
        }
    }

    pub fn from_record(record: &Vec<String>) -> (r: Option<VmState>)
        ensures
            match machine_of(record.deep_view()) {
                Some(vm) => r is Some && r->0@ == vm,
                None => r is None,
            },
    {
        if record.len() < 5 {
            return None;
        }
        let ghost fields = record.deep_view();
        assert(fields[1] == record@[1]@);
        assert(fields[2] == record@[2]@);
        assert(fields[3] == record@[3]@);
        assert(fields[4] == record@[4]@);
        match (
            parse_u32(record[1].as_str()),
            parse_u32(record[2].as_str()),
            parse_u32(record[3].as_str()),
            parse_program(record[4].as_str()),
        ) {
            (Some(a), Some(b), Some(c), Some(program)) => Some(
                VmState {
                    registers: [a, b, c],
                    instruction_pointer: 0,
                    program,
                    output_so_far: Vec::new(),
                    halted: false,
                },
            ),
            _ => None,
        }
    }

    pub fn resolve_combo(&self, operand: ThreeBit) -> (r: Option<RegVal>)
        ensures
            r == combo(self@, operand),
    {
        if operand <= 3 {
            Some(operand as RegVal)
        } else if operand < 7 {
            Some(self.registers[(operand - 4) as usize])
        } else {
            None
        }
    }

    pub fn do_dv(&self, pow: RegVal) -> (r: RegVal)
        ensures
            r == divided(self@.a, pow),
    {
        let a = self.registers[0];
        if pow < 32 {
            a >> pow
        } else if pow < 0x8000_0000 {
            0
        } else if a == 0 {
            0
        } else {
            let up: u64 = 0x1_0000_0000u64 - pow as u64;
            if up >= 32 {
                u32::MAX
            } else {
                let wide: u64 = (a as u64) << up;
                if wide > u32::MAX as u64 {
                    u32::MAX
                } else {
                    wide as u32
                }
            }
        }
    }

    pub fn advance_state(&self) -> (r: Option<VmState>)
        ensures
            match advanced(self@) {
                Some(next) => r is Some && r->0@ == next,
                None => r is None,
            },
    {
        let mut new_state = self.copy();
        if self.halted {
            return Some(new_state);
        }
        if self.instruction_pointer >= self.program.len() || self.program.len()
            - self.instruction_pointer < 2 {
            return None;
        }
        let instruction = match decode(self.program[self.instruction_pointer]) {
            Some(instruction) => instruction,
            None => {
                return None;
            },
        };
        let operand = self.program[self.instruction_pointer + 1];
        let mut jumped = false;
        match instruction {
            Instruction::Iadv => {
                if let Some(pow) = self.resolve_combo(operand) {
                    new_state.registers[0] = self.do_dv(pow);
                } else {
                    new_state.halted = true;
                }
            },
            Instruction::Ibxl => {
                new_state.registers[1] = self.registers[1] ^ (operand as RegVal);
            },
            Instruction::Ibst => {
                if let Some(new) = self.resolve_combo(operand) {
                    new_state.registers[1] = new % 8;
                } else {
                    new_state.halted = true;
                }
            },
            Instruction::Ijnz => {
                if self.registers[0] != 0 {
                    jumped = true;
                    new_state.instruction_pointer = operand as usize;
                }
            },
            Instruction::Ibxc => {
                new_state.registers[1] = self.registers[1] ^ self.registers[2];
            },
            Instruction::Iout => {
                if let Some(out) = self.resolve_combo(operand) {
                    new_state.output_so_far.push(out % 8);
                } else {
                    new_state.halted = true;
                }
            },
            Instruction::Ibdv => {
                if let Some(pow) = self.resolve_combo(operand) {
                    new_state.registers[1] = self.do_dv(pow);
                } else {
                    new_state.halted = true;
                }
            },
            Instruction::Icdv => {
                if let Some(pow) = self.resolve_combo(operand) {
                    new_state.registers[2] = self.do_dv(pow);
                } else {
                    new_state.halted = true;
                }
            },
        };
        if !jumped {
            new_state.instruction_pointer = self.instruction_pointer + 2;
        }
        if new_state.instruction_pointer >= new_state.program.len() {
            new_state.halted = true;
        }
        Some(new_state)
    }

    /// Runs the machine until it halts or has put out `max_output_len`
    /// numbers, for at most `max_steps` instructions.
    pub fn run_until_halt(&self, max_output_len: usize, max_steps: usize) -> (r: Option<Vec<RegVal>>)
        ensures
            match run(self@, max_output_len as int, max_steps as nat) {
                Some(output) => r is Some && r->0@ == output,
                None => r is None,
            },
    {
        let mut vm_state = self.copy();
        let mut fuel = max_steps;
        while !vm_state.halted && vm_state.output_so_far.len() < max_output_len
            invariant
                run(vm_state@, max_output_len as int, fuel as nat) == run(
                    self@,
                    max_output_len as int,
                    max_steps as nat,
                ),
            decreases fuel,
        {
            if fuel == 0 {
                return None;
            }
            match vm_state.advance_state() {
                Some(next) => {
                    vm_state = next;
                },
                None => {
                    return None;
                },
            }
            fuel -= 1;
        }
        Some(vm_state.output_so_far)
    }

    /// Tells whether the output stays a beginning of `expected_output`
    /// until the machine halts, within `max_steps` instructions.
    pub fn expect_output(&self, expected_output: &Vec<RegVal>, max_steps: usize) -> (r: Option<bool>)
        ensures
            r == expects(self@, expected_output@, max_steps as nat),
    {
        let mut vm_state = self.copy();
        let mut fuel = max_steps;
        while !vm_state.halted
            invariant
                expects(vm_state@, expected_output@, fuel as nat) == expects(
                    self@,
                    expected_output@,
                    max_steps as nat,
                ),
            decreases fuel,
        {
            if fuel == 0 {
                return None;
            }
            match vm_state.advance_state() {
                Some(next) => {
                    vm_state = next;
                },
                None => {
                    return None;
                },
            }
            if !starts_with(expected_output, &vm_state.output_so_far) {
                return Some(false);
            }
            fuel -= 1;
        }
        Some(true)
    }
}

/// Whether `whole` begins with `start`.
pub fn starts_with(whole: &Vec<RegVal>, start: &Vec<RegVal>) -> (r: bool)
    ensures
        r == start@.is_prefix_of(whole@),
{
    if start.len() > whole.len() {
        return false;
    }
    let mut i: usize = 0;
    while i < start.len()
        invariant
            start@.len() <= whole@.len(),
            i <= start@.len(),
            forall|k: int| 0 <= k < i ==> start@[k] == whole@[k],
        decreases start@.len() - i,
    {
        if start[i] != whole[i] {
            assert(whole@.subrange(0, start@.len() as int)[i as int] != start@[i as int]);
            return false;
        }
        i += 1;
    }
    assert(start@ =~= whole@.subrange(0, start@.len() as int));
    true
}

/// The numbers in decimal notation with commas between them.
pub open spec fn comma_list(numbers: Seq<u32>) -> Seq<char>
    decreases numbers.len(),
{
    if numbers.len() == 0 {
        Seq::empty()
    } else if numbers.len() == 1 {
        decimal_text(numbers[0] as nat)
    } else {
        comma_list(numbers.drop_last()) + seq![','] + decimal_text(numbers.last() as nat)
    }
}

/// Writes the numbers with commas between them.
pub fn join_output(output: &Vec<RegVal>) -> (r: String)
    ensures
        r@ == comma_list(output@),
{
    let mut text: Vec<char> = Vec::new();
    let mut i: usize = 0;
    assert(output@.take(0) =~= Seq::<u32>::empty());
    while i < output.len()
        invariant
            i <= output@.len(),
            text@ == comma_list(output@.take(i as int)),
        decreases output@.len() - i,
    {
        let ghost before = output@.take(i as int);
        assert(output@.take(i as int + 1).drop_last() =~= before);
        assert(output@.take(i as int + 1).last() == output@[i as int]);
        if i > 0 {
            text.push(',');
        }
        push_decimal(&mut text, output[i] as u64);
        proof {
            if i == 0 {
                assert(text@ =~= decimal_text(output@[0] as nat));
            } else {
                assert(text@ =~= comma_list(before) + seq![','] + decimal_text(output@[i as int] as nat));
            }
        }
        i += 1;
    }
    assert(output@.take(output@.len() as int) =~= output@);
    string_of(&text)
}

/// The pattern of the puzzle text: three registers and a program.
pub open spec fn machine_pattern() -> Seq<char> {
    "Register A: (\\d+)\\n+Register B: (\\d+)\\n+Register C: (\\d+)\\n+Program: ([\\d,]+)\\n+"@
}

/// The number of instructions after which a run is given up.
pub const STEP_LIMIT: usize = 1000000;

/// The machine written in the puzzle text: the pattern must find it
/// exactly once.
pub open spec fn input_of(text: Seq<char>) -> Option<Vm> {
    match regex_captures(machine_pattern(), text) {
        Some(found) => if records_of_matches(found).len() == 1 {
            machine_of(records_of_matches(found)[0])
        } else {
            None
        },
        None => None,
    }
}

/// Reads the machine of the puzzle text.
pub fn read_input(input: &str) -> (r: Option<VmState>)
    ensures
        match input_of(input@) {
            Some(vm) => r is Some && r->0@ == vm,
            None => r is None,
        },
{
    match read_regex_records(
        input,
        "Register A: (\\d+)\\n+Register B: (\\d+)\\n+Register C: (\\d+)\\n+Program: ([\\d,]+)\\n+",
    ) {
        Some(records) => {
            assert(records.deep_view().len() == records@.len());
            if records.len() != 1 {
                return None;
            }
            assert(records.deep_view()[0] == records@[0].deep_view());
            VmState::from_record(&records[0])
        },
        None => None,
    }
}

/// The answer to the first part for a machine: what it puts out, up to a
/// hundred numbers, with commas between them.
pub open spec fn output_text(vm: Vm) -> Option<Seq<char>> {
    match run(vm, 100, STEP_LIMIT as nat) {
        Some(output) => Some(comma_list(output)),
        None => None,
    }
}

/// Whether `r` is the answer to the first part for the puzzle text.
pub open spec fn is_solution_a(text: Seq<char>, r: Option<String>) -> bool {
    match input_of(text) {
        Some(vm) => match output_text(vm) {
            Some(out) => r is Some && r->0@ == out,
            None => r is None,
        },
        None => r is None,
    }
}

pub fn day17(input: &str) -> (r: Option<String>)
    ensures
        is_solution_a(input@, r),
{
    match read_input(input) {
        Some(vm_state) => match vm_state.run_until_halt(100, STEP_LIMIT) {
            Some(output) => Some(join_output(&output)),
            None => None,
        },
        None => None,
    }
}

/// The program as numbers of the width of a register.
pub open spec fn widened(program: Seq<u8>) -> Seq<u32> {
    program.map_values(|code: u8| code as u32)
}

/// The answer to the second part for a machine: 0 if the machine as it is
/// keeps its output a beginning of its own program until it halts. No
/// other value of register A is ever tried with effect, so there is no
/// answer otherwise.
pub open spec fn quine_start(vm: Vm) -> Option<int> {
    match expects(vm, widened(vm.program), STEP_LIMIT as nat) {
        Some(true) => Some(0),
        _ => None,
    }
}

/// Whether `r` is the answer to the second part for the puzzle text.
pub open spec fn is_solution_b(text: Seq<char>, r: Option<i64>) -> bool {
    match input_of(text) {
        Some(vm) => match quine_start(vm) {
            Some(candidate) => r is Some && r->0 == candidate,
            None => r is None,
        },
        None => r is None,
    }
}

pub fn day17b(input: &str) -> (r: Option<i64>)
    ensures
        is_solution_b(input@, r),
{
    match read_input(input) {
        Some(vm_state) => {
            let mut program_as_regval: Vec<RegVal> = Vec::new();
            let mut i: usize = 0;
            while i < vm_state.program.len()
                invariant
                    i <= vm_state.program@.len(),
                    program_as_regval@ == widened(vm_state.program@).take(i as int),
                decreases vm_state.program@.len() - i,
            {
                program_as_regval.push(vm_state.program[i] as RegVal);
                assert(program_as_regval@ =~= widened(vm_state.program@).take(i as int + 1));
                i += 1;
            }
            assert(program_as_regval@ =~= widened(vm_state.program@));
            match vm_state.expect_output(&program_as_regval, STEP_LIMIT) {
                Some(true) => Some(0),
                _ => None,
            }
        },
        None => None,
    }
}

} // verus!
