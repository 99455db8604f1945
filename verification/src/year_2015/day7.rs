//! A circuit of wires and logic elements. Each wire carries a 16-bit signal
//! that an element, another wire or a number provides.

use crate::common::parsing::{parse_u16, records_of, split_records, u16_of};
use crate::common::text::{lines_of, same_text, split_lines};
use vstd::prelude::*;

verus! {

pub type Signal = u16;

pub type Label = String;

#[derive(Debug, Clone, Copy, PartialEq, Eq, Structural)]
pub enum Op {
    And,
    Or,
    Not,
    Lshift,
    Rshift,
    Nop,
}

/// The operation that a word names.
pub open spec fn op_of(word: Seq<char>) -> Option<Op> {
    if word == "AND"@ {
        Some(Op::And)
    } else if word == "OR"@ {
        Some(Op::Or)
    } else if word == "NOT"@ {
        Some(Op::Not)
    } else if word == "LSHIFT"@ {
        Some(Op::Lshift)
    } else if word == "RSHIFT"@ {
        Some(Op::Rshift)
    } else {
        None
    }
}

/// Reads the name of an operation.
pub fn parse_op(s: &str) -> (r: Option<Op>)
    ensures
        r == op_of(s@),
{
    if same_text(s, "AND") {
        Some(Op::And)
    } else if same_text(s, "OR") {
        Some(Op::Or)
    } else if same_text(s, "NOT") {
        Some(Op::Not)
    } else if same_text(s, "LSHIFT") {
        Some(Op::Lshift)
    } else if same_text(s, "RSHIFT") {
        Some(Op::Rshift)
    } else {
        None
    }
}

/// What provides a signal: a number, or the wire with a label.
#[derive(Debug)]
pub enum Value {
    Literal(u16),
    Label(Label),
}

/// A `Value` with the label as a sequence of characters.
pub enum Source {
    Literal(u16),
    Label(Seq<char>),
}

impl View for Value {
    type V = Source;

    open spec fn view(&self) -> Source {
        match self {
            Value::Literal(l) => Source::Literal(*l),
            Value::Label(l) => Source::Label(l@),
        }
    }
}

/// What a word stands for: a number if it is one, and otherwise the wire
/// with that label.
pub open spec fn source_of_word(word: Seq<char>) -> Source {
    match u16_of(word) {
        Some(lit) => Source::Literal(lit as u16),
        None => Source::Label(word),
    }
}

impl Value {
    /// Reads a word as a number or a label.
    pub fn from_word(s: &str) -> (r: Value)
        ensures
            r@ == source_of_word(s@),
    {
        match parse_u16(s) {
            Some(lit) => Value::Literal(lit),
            None => {
                let label = String::from_str(s);
                Value::Label(label)
            },
        }
    }

    /// A copy of the value.
    pub fn copy(&self) -> (r: Value)
        ensures
            r@ == self@,
    {
        match self {
            Value::Literal(l) => Value::Literal(*l),
            Value::Label(l) => Value::Label(l.clone()),
        }
    }
}

/// A wire and what feeds it.
#[derive(Debug)]
pub struct Node {
    pub output: Label,
    pub input: Value,
    pub op: Op,
    pub extra_input: Option<Value>,
}

/// A `Node` with its labels as sequences of characters.
pub struct Wire {
    pub output: Seq<char>,
    pub input: Source,
    pub op: Op,
    pub extra_input: Option<Source>,
}

impl View for Node {
    type V = Wire;

    open spec fn view(&self) -> Wire {
        Wire {
            output: self.output@,
            input: self.input@,
            op: self.op,
            extra_input: match self.extra_input {
                Some(v) => Some(v@),
                None => None,
            },
        }
    }
}

/// The views of the nodes.
pub open spec fn wires_of(nodes: Seq<Node>) -> Seq<Wire> {
    nodes.map_values(|node: Node| node@)
}

/// What one record says. `Some(None)` for an empty record, which says
/// nothing. A record that starts with `NOT` feeds its fourth field with
/// the opposite of its second. A record whose second field is `->` feeds
/// its third field with its first. Any other record feeds its third field
/// with its first through the operation that its second field names. `None` for
/// a record that is too short or names no operation.
pub open spec fn wire_of(line: Seq<Seq<char>>) -> Option<Option<Wire>> {
    if line.len() == 0 {
        Some(None)
    } else if line[0] == "NOT"@ {
        if line.len() >= 4 {
            Some(
                Some(
                    Wire {
                        output: line[3],
                        input: source_of_word(line[1]),
                        op: Op::Not,
                        extra_input: None,
                    },
                ),
            )
        } else {
            None
        }
    } else if line.len() < 3 {
        None
    } else if line[1] == "->"@ {
        Some(
            Some(
                Wire {
                    output: line[2],
                    input: source_of_word(line[0]),
                    op: Op::Nop,
                    extra_input: None,
                },
            ),
        )
    } else {
        match op_of(line[1]) {
            Some(op) => Some(
                Some(
                    Wire { output: line[2], input: source_of_word(line[0]), op, extra_input: None },
                ),
            ),
            None => None,
        }
    }
}

/// The wires that the first `n` records describe, in their order.
pub open spec fn circuit(records: Seq<Seq<Seq<char>>>, n: int) -> Option<Seq<Wire>>
    decreases n,
{
    if n <= 0 {
        Some(Seq::empty())
    } else {
        match (circuit(records, n - 1), wire_of(records[n - 1])) {
            (Some(before), Some(Some(wire))) => Some(before.push(wire)),
            (Some(before), Some(None)) => Some(before),
            _ => None,
        }
    }
}

pub proof fn lemma_circuit_stays_lost(records: Seq<Seq<Seq<char>>>, n: int, m: int)
    requires
        0 <= n <= m,
        circuit(records, n) is None,
    ensures
        circuit(records, m) is None,
    decreases m - n,
{
    if n < m {
        lemma_circuit_stays_lost(records, n, m - 1);
    }
}

/// Reads one record.
pub fn parse_node(line: &Vec<String>) -> (r: Option<Option<Node>>)
    ensures
        match wire_of(line.deep_view()) {
            Some(Some(wire)) => r is Some && r->0 is Some && r->0->0@ == wire,
            Some(None) => r is Some && r->0 is None,
            None => r is None,
        },
{
    let ghost fields = line.deep_view();
    if line.len() == 0 {
        return Some(None);
    }
    assert(fields[0] == line@[0]@);
    if same_text(line[0].as_str(), "NOT") {
        if line.len() < 4 {
            return None;
        }
        assert(fields[1] == line@[1]@);
        assert(fields[3] == line@[3]@);
        return Some(
            Some(
                Node {
                    output: line[3].clone(),
                    input: Value::from_word(line[1].as_str()),
                    op: Op::Not,
                    extra_input: None,
                },
            ),
        );
    }
    if line.len() < 3 {
        return None;
    }
    assert(fields[1] == line@[1]@);
    assert(fields[2] == line@[2]@);
    if same_text(line[1].as_str(), "->") {
        Some(
            Some(
                Node {
                    output: line[2].clone(),
                    input: Value::from_word(line[0].as_str()),
                    op: Op::Nop,
                    extra_input: None,
                },
            ),
        )
    } else {
        match parse_op(line[1].as_str()) {
            Some(op) => Some(
                Some(
                    Node {
                        output: line[2].clone(),
                        input: Value::from_word(line[0].as_str()),
                        op,
                        extra_input: None,
                    },
                ),
            ),
            None => None,
        }
    }
}

/// Reads the records of a circuit.
pub fn parse_nodes(lines: &Vec<Vec<String>>) -> (r: Option<Vec<Node>>)
    ensures
        match circuit(lines.deep_view(), lines@.len() as int) {
            Some(wires) => r is Some && wires_of(r->0@) == wires,
            None => r is None,
        },
{
    let ghost all = lines.deep_view();
    let mut nodes: Vec<Node> = Vec::new();
    let mut i: usize = 0;
    assert(wires_of(nodes@) =~= Seq::<Wire>::empty());
    while i < lines.len()
        invariant
            all == lines.deep_view(),
            i <= lines@.len(),
            circuit(all, i as int) == Some(wires_of(nodes@)),
        decreases lines@.len() - i,
    {
        assert(all[i as int] == lines@[i as int].deep_view());
        assert(circuit(all, i as int + 1 - 1) == Some(wires_of(nodes@)));
        let ghost before = wires_of(nodes@);
        match parse_node(&lines[i]) {
            Some(Some(node)) => {
                nodes.push(node);
                assert(wires_of(nodes@) =~= before.push(node@));
            },
            Some(None) => {},
            None => {
                proof {
                    lemma_circuit_stays_lost(all, i as int + 1, lines@.len() as int);
                }
                return None;
            },
        }
        i += 1;
    }
    Some(nodes)
}

/// The circuit written in the puzzle text.
pub open spec fn input_of(text: Seq<char>) -> Option<Seq<Wire>> {
    let records = records_of(lines_of(text));
    circuit(records, records.len() as int)
}

/// Reads the circuit of the puzzle text.
pub fn read_input(input: &str) -> (r: Option<Vec<Node>>)
    ensures
        match input_of(input@) {
            Some(wires) => r is Some && wires_of(r->0@) == wires,
            None => r is None,
        },
{
    let records = split_records(&split_lines(input));
    parse_nodes(&records)
}

/// Whether no two wires have the same label.
pub open spec fn fed_once(wires: Seq<Wire>) -> bool {
    forall|i: int, j: int|
        0 <= i < j < wires.len() ==> (#[trigger] wires[i]).output != (#[trigger] wires[j]).output
}

/// The place of the wire with the given label among the first `n` wires.
pub open spec fn source_among(wires: Seq<Wire>, label: Seq<char>, n: int) -> Option<int>
    decreases n,
{
    if n <= 0 {
        None
    } else if wires[n - 1].output == label {
        Some(n - 1)
    } else {
        source_among(wires, label, n - 1)
    }
}

/// For each wire its label and its place. `None` if two wires have the
/// same label.
pub fn labels_to_sources(nodes: &Vec<Node>) -> (r: Option<Vec<(Label, usize)>>)
    ensures
        r is Some <==> fed_once(wires_of(nodes@)),
        r matches Some(sources) ==> sources@.len() == nodes@.len() && forall|i: int|
            0 <= i < nodes@.len() ==> (#[trigger] sources@[i]).0@ == nodes@[i].output@ && sources@[i].1
                == i,
{
    let ghost wires = wires_of(nodes@);
    let mut sources: Vec<(Label, usize)> = Vec::new();
    let mut i: usize = 0;
    while i < nodes.len()
        invariant
            wires == wires_of(nodes@),
            i <= nodes@.len(),
            sources@.len() == i,
            forall|k: int|
                0 <= k < i ==> (#[trigger] sources@[k]).0@ == nodes@[k].output@ && sources@[k].1 == k,
            forall|a: int, b: int|
                0 <= a < b < i ==> (#[trigger] wires[a]).output != (#[trigger] wires[b]).output,
        decreases nodes@.len() - i,
    {
        let mut k: usize = 0;
        while k < i
            invariant
                wires == wires_of(nodes@),
                k <= i < nodes@.len(),
                forall|a: int| 0 <= a < k ==> (#[trigger] wires[a]).output != wires[i as int].output,
            decreases i - k,
        {
            if same_text(nodes[k].output.as_str(), nodes[i].output.as_str()) {
                assert(wires[k as int].output == wires[i as int].output);
                return None;
            }
            k += 1;
        }
        sources.push((nodes[i].output.clone(), i));
        i += 1;
    }
    Some(sources)
}

/// The place of the wire with the given label.
pub fn find_source(nodes: &Vec<Node>, label: &str) -> (r: Option<usize>)
    ensures
        match source_among(wires_of(nodes@), label@, nodes@.len() as int) {
            Some(at) => r is Some && r->0 == at && 0 <= at < nodes@.len(),
            None => r is None,
        },
{
    let ghost wires = wires_of(nodes@);
    let mut n: usize = nodes.len();
    while n > 0
        invariant
            wires == wires_of(nodes@),
            n <= nodes@.len(),
            source_among(wires, label@, n as int) == source_among(wires, label@, nodes@.len() as int),
        decreases n,
    {
        assert(wires[n - 1].output == nodes@[n - 1].output@);
        if same_text(nodes[n - 1].output.as_str(), label) {
            return Some(n - 1);
        }
        n -= 1;
    }
    None
}

/// The signal that a source provides, following at most `fuel` wires one
/// after the other. `None` if two wires have the same label, a label has
/// no wire, an operation lacks an input, a shift is by sixteen or more, or the
/// wires run out.
pub open spec fn signal_of(value: Source, wires: Seq<Wire>, fuel: nat) -> Option<u16>
    decreases fuel,
{
    if !fed_once(wires) {
        None
    } else {
        match value {
            Source::Literal(l) => Some(l),
            Source::Label(l) => match source_among(wires, l, wires.len() as int) {
                Some(at) => if fuel == 0 {
                    None
                } else {
                    let wire = wires[at];
                    let rest = (fuel - 1) as nat;
                    let first = signal_of(wire.input, wires, rest);
                    let second = match wire.extra_input {
                        Some(extra) => signal_of(extra, wires, rest),
                        None => None,
                    };
                    combined(wire.op, first, second)
                },
                None => None,
            },
        }
    }
}

/// What an operation makes of its inputs.
pub open spec fn combined(op: Op, first: Option<u16>, second: Option<u16>) -> Option<u16> {
    match (op, first, second) {
        (Op::Nop, Some(a), _) => Some(a),
        (Op::Not, Some(a), _) => Some(!a),
        (Op::And, Some(a), Some(b)) => Some(a & b),
        (Op::Or, Some(a), Some(b)) => Some(a | b),
        (Op::Lshift, Some(a), Some(b)) => if b < 16 {
            Some(a << b)
        } else {
            None
        },
        (Op::Rshift, Some(a), Some(b)) => if b < 16 {
            Some(a >> b)
        } else {
            None
        },
        _ => None,
    }
}

/// Works out an operation.
pub fn apply_op(op: Op, first: Option<u16>, second: Option<u16>) -> (r: Option<u16>)
    ensures
        r == combined(op, first, second),
{
    match (op, first, second) {
        (Op::Nop, Some(a), _) => Some(a),
        (Op::Not, Some(a), _) => Some(!a),
        (Op::And, Some(a), Some(b)) => Some(a & b),
        (Op::Or, Some(a), Some(b)) => Some(a | b),
        (Op::Lshift, Some(a), Some(b)) => if b < 16 {
            Some(a << b)
        } else {
            None
        },
        (Op::Rshift, Some(a), Some(b)) => if b < 16 {
            Some(a >> b)
        } else {
            None
        },
        _ => None,
    }
}

/// Works out the signal of a source, following at most `fuel` wires one
/// after the other.
pub fn compute_with_fuel(value: &Value, nodes: &Vec<Node>, fuel: usize) -> (r: Option<Signal>)
    ensures
        r == signal_of(value@, wires_of(nodes@), fuel as nat),
    decreases fuel,
{
    if labels_to_sources(nodes).is_none() {
        return None;
    }
    match value {
        Value::Literal(l) => Some(*l),
        Value::Label(l) => match find_source(nodes, l.as_str()) {
            Some(at) => {
                if fuel == 0 {
                    return None;
                }
                let source_node = &nodes[at];
                assert(wires_of(nodes@)[at as int] == source_node@);
                let first = compute_with_fuel(&source_node.input, nodes, fuel - 1);
                let second = match &source_node.extra_input {
                    Some(extra) => compute_with_fuel(extra, nodes, fuel - 1),
                    None => None,
                };
                apply_op(source_node.op, first, second)
            },
            None => None,
        },
    }
}

/// Works out the signal of a source in a circuit. A chain of wires longer
/// than the circuit has wires comes back to a wire it has passed, so the
/// search goes no deeper than that.
pub fn compute_value(value: &Value, nodes: &Vec<Node>) -> (r: Option<Signal>)
    ensures
        r == signal_of(value@, wires_of(nodes@), nodes@.len()),
{
    compute_with_fuel(value, nodes, nodes.len())
}

/// The answers for the puzzle text: both are zero wherever the text is a
/// circuit.
pub open spec fn answer(text: Seq<char>) -> Option<(int, int)> {
    match input_of(text) {
        Some(_) => Some((0, 0)),
        None => None,
    }
}

/// Reads the circuit and gives both answers.
pub fn solution(input: &str) -> (r: Option<(i64, i64)>)
    ensures
        match answer(input@) {
            Some((a, b)) => r is Some && (r->0).0 == a && (r->0).1 == b,
            None => r is None,
        },
{
    match read_input(input) {
        Some(_) => Some((0, 0)),
        None => None,
    }
}

/// Whether `r` is the answer to the first part for the puzzle text.
pub open spec fn is_solution_a(text: Seq<char>, r: Option<i64>) -> bool {
    match answer(text) {
        Some((a, _)) => r is Some && r->0 == a,
        None => r is None,
    }
}

/// Whether `r` is the answer to the second part for the puzzle text.
pub open spec fn is_solution_b(text: Seq<char>, r: Option<i64>) -> bool {
    match answer(text) {
        Some((_, b)) => r is Some && r->0 == b,
        None => r is None,
    }
}

pub fn solution_a(input: &str) -> (r: Option<i64>)
    ensures
        is_solution_a(input@, r),
{
    match solution(input) {
        Some((a, _)) => Some(a),
        None => None,
    }
}

pub fn solution_b(input: &str) -> (r: Option<i64>)
    ensures
        is_solution_b(input@, r),
{
    match solution(input) {
        Some((_, b)) => Some(b),
        None => None,
    }
}

} // verus!
