//! The stack machine: values, instructions, and the evaluator.

use vstd::prelude::*;
use crate::bytecode::{
    bytecode_as_string, decode_message, encodable, gap, instruction_at, item_code, items_code,
    lemma_instruction_advances, lemma_instruction_read_back, lemma_listing_fails, listing,
    quote_code, shown, symbol_code, ByteCode, ByteCodeBuilder, ByteCodeParser, DecodeError,
};
use crate::decimal::{decimal, digits, push_decimal, push_natural};
use crate::memory::{
    defined, lemma_newest_definition, memory_message, Memory, MemoryError, CAPACITY,
};
use crate::text::{chars_of, push_char, spells};

verus! {

/// Opcode of the instruction that pushes a one-byte literal.
pub const PUSH: u8 = 1;

/// Opcode of the instruction that names a symbol.
pub const SYMBOL: u8 = 2;

/// Opcode of the instruction that pushes a nested block of bytecode.
pub const QUOTE: u8 = 3;

/// The mathematical value of a [`StackItem`].
pub enum Item {
    Val(i64),
    Symbol(Seq<char>),
    Quote(Seq<u8>),
}

/// A value on the evaluation stack.
#[derive(Debug, PartialEq, Eq)]
pub enum StackItem {
    /// A signed integer.
    Val(i64),
    /// A name.
    Symbol(String),
    /// A block of bytecode that has not been run.
    Quote(ByteCode),
}

impl View for StackItem {
    type V = Item;

    open spec fn view(&self) -> Item {
        match self {
            StackItem::Val(v) => Item::Val(*v),
            StackItem::Symbol(s) => Item::Symbol(s@),
            StackItem::Quote(q) => Item::Quote(q@),
        }
    }
}

impl Clone for StackItem {
    fn clone(&self) -> (r: Self)
        ensures
            r@ == self@,
    {
        match self {
            StackItem::Val(v) => StackItem::Val(*v),
            StackItem::Symbol(s) => StackItem::Symbol(s.clone()),
            StackItem::Quote(q) => StackItem::Quote(q.clone()),
        }
    }
}

/// How an item is shown when it is printed on its own: an integer in decimal,
/// a symbol by its name, a quotation by its length only.
pub open spec fn item_text(item: Item) -> Seq<char> {
    match item {
        Item::Val(v) => decimal(v as int),
        Item::Symbol(s) => s,
        Item::Quote(q) => "<bytecode:"@ + digits(q.len()) + ">"@,
    }
}

impl StackItem {
    /// The text of this item as `.` prints it.
    pub fn text(&self) -> (s: String)
        ensures
            s@ == item_text(self@),
    {
        match self {
            StackItem::Val(v) => {
                let mut s = String::new();
                push_decimal(&mut s, *v);
                s
            },
            StackItem::Symbol(name) => name.clone(),
            StackItem::Quote(q) => {
                let mut s = String::from_str("<bytecode:");
                push_natural(&mut s, q.len() as u64);
                s.append(">");
                s
            },
        }
    }
}

/// The mathematical value of an [`Instruction`].
pub enum Instr {
    Push(Item),
}

/// One decoded instruction.
#[derive(Debug, PartialEq, Eq)]
pub enum Instruction {
    /// Hands an item to the evaluator: literals and quotations are pushed,
    /// symbols are applied.
    Push(StackItem),
}

impl Clone for Instruction {
    fn clone(&self) -> (r: Self)
        ensures
            r@ == self@,
    {
        match self {
            Instruction::Push(item) => Instruction::Push(item.clone()),
        }
    }
}

impl View for Instruction {
    type V = Instr;

    open spec fn view(&self) -> Instr {
        match self {
            Instruction::Push(item) => Instr::Push(item@),
        }
    }
}

/// How many evaluations may be nested inside the one that [`Vm::eval`]
/// starts. Running a quotation or a defined word nests one evaluation.
pub const MAX_DEPTH: usize = 256;

/// Why an evaluation stopped.
#[derive(Debug, Clone, Copy, PartialEq, Eq)]
pub enum VmError {
    /// The stack holds fewer items than the operation takes.
    StackUnderflow,
    /// An integer was wanted on top of the stack.
    NotAVal,
    /// A symbol was wanted on top of the stack.
    NotASymbol,
    /// A quotation was wanted on top of the stack.
    NotAQuote,
    /// A memory access failed.
    Memory(MemoryError),
    /// The divisor was zero.
    DivisionByZero,
    /// The result of an arithmetic operation is not a 64-bit signed integer.
    Overflow,
    /// The bytecode could not be read.
    Decode(DecodeError),
    /// More evaluations were nested than the depth allows.
    TooDeep,
}

/// What a machine error says.
pub open spec fn error_message(e: VmError) -> Seq<char> {
    match e {
        VmError::StackUnderflow => "Stack Underflow"@,
        VmError::NotAVal => "TOS is not a val"@,
        VmError::NotASymbol => "TOS is not a symbol"@,
        VmError::NotAQuote => "TOS is not a quote"@,
        VmError::Memory(inner) => memory_message(inner),
        VmError::DivisionByZero => "Division by zero"@,
        VmError::Overflow => "Arithmetic overflow"@,
        VmError::Decode(inner) => decode_message(inner),
        VmError::TooDeep => "Evaluation nested too deep"@,
    }
}

impl VmError {
    /// This error in words.
    pub fn message(&self) -> (s: String)
        ensures
            s@ == error_message(*self),
    {
        match self {
            VmError::StackUnderflow => String::from_str("Stack Underflow"),
            VmError::NotAVal => String::from_str("TOS is not a val"),
            VmError::NotASymbol => String::from_str("TOS is not a symbol"),
            VmError::NotAQuote => String::from_str("TOS is not a quote"),
            VmError::Memory(inner) => inner.message(),
            VmError::DivisionByZero => String::from_str("Division by zero"),
            VmError::Overflow => String::from_str("Arithmetic overflow"),
            VmError::Decode(inner) => inner.message(),
            VmError::TooDeep => String::from_str("Evaluation nested too deep"),
        }
    }
}

/// The words that the machine knows by itself.
#[derive(Debug, Clone, Copy, PartialEq, Eq)]
pub enum Primitive {
    /// `+`
    Add,
    /// `-`
    Sub,
    /// `*`
    Mul,
    /// `/`
    Div,
    /// `=`
    Equal,
    /// `<`
    Less,
    /// `@`
    Fetch,
    /// `!`
    Store,
    /// `.`
    Print,
    /// `.s`
    PrintStack,
    /// `zap`
    Zap,
    /// `dup`
    Dup,
    /// `swap`
    Swap,
    /// `rot`
    Rot,
    /// `over`
    Over,
    /// `i`
    Apply,
    /// `dip`
    Dip,
    /// `cat`
    Cat,
    /// `cons`
    Cons,
    /// `unit`
    Unit,
    /// `define`
    Define,
}

/// The primitive that `name` names, if any.
pub open spec fn primitive_of(name: Seq<char>) -> Option<Primitive> {
    if name == "+"@ {
        Some(Primitive::Add)
    } else if name == "-"@ {
        Some(Primitive::Sub)
    } else if name == "*"@ {
        Some(Primitive::Mul)
    } else if name == "/"@ {
        Some(Primitive::Div)
    } else if name == "="@ {
        Some(Primitive::Equal)
    } else if name == "<"@ {
        Some(Primitive::Less)
    } else if name == "@"@ {
        Some(Primitive::Fetch)
    } else if name == "!"@ {
        Some(Primitive::Store)
    } else if name == "."@ {
        Some(Primitive::Print)
    } else if name == ".s"@ {
        Some(Primitive::PrintStack)
    } else if name == "zap"@ {
        Some(Primitive::Zap)
    } else if name == "dup"@ {
        Some(Primitive::Dup)
    } else if name == "swap"@ {
        Some(Primitive::Swap)
    } else if name == "rot"@ {
        Some(Primitive::Rot)
    } else if name == "over"@ {
        Some(Primitive::Over)
    } else if name == "i"@ {
        Some(Primitive::Apply)
    } else if name == "dip"@ {
        Some(Primitive::Dip)
    } else if name == "cat"@ {
        Some(Primitive::Cat)
    } else if name == "cons"@ {
        Some(Primitive::Cons)
    } else if name == "unit"@ {
        Some(Primitive::Unit)
    } else if name == "define"@ {
        Some(Primitive::Define)
    } else {
        None
    }
}

/// What a primitive wants an operand to be.
pub enum Kind {
    Any,
    Val,
    Symbol,
    Quote,
}

/// Whether `item` is of the kind `kind`.
pub open spec fn fits(item: Item, kind: Kind) -> bool {
    match kind {
        Kind::Any => true,
        Kind::Val => item is Val,
        Kind::Symbol => item is Symbol,
        Kind::Quote => item is Quote,
    }
}

/// The error for an operand that is not of the kind `kind`.
pub open spec fn wrong(kind: Kind) -> VmError {
    match kind {
        Kind::Symbol => VmError::NotASymbol,
        Kind::Quote => VmError::NotAQuote,
        _ => VmError::NotAVal,
    }
}

/// The operands that `p` takes off the stack, the topmost first.
pub open spec fn operands(p: Primitive) -> Seq<Kind> {
    match p {
        Primitive::Add | Primitive::Sub | Primitive::Mul | Primitive::Div | Primitive::Equal
        | Primitive::Less | Primitive::Store => seq![Kind::Val, Kind::Val],
        Primitive::Fetch => seq![Kind::Val],
        Primitive::Print | Primitive::Zap | Primitive::Dup | Primitive::Apply => seq![Kind::Any],
        Primitive::Swap | Primitive::Over => seq![Kind::Any, Kind::Any],
        Primitive::Rot => seq![Kind::Any, Kind::Any, Kind::Any],
        Primitive::Dip | Primitive::Cat | Primitive::Cons => seq![Kind::Quote, Kind::Quote],
        Primitive::Unit => seq![Kind::Quote],
        Primitive::Define => seq![Kind::Symbol, Kind::Quote],
        Primitive::PrintStack => Seq::empty(),
    }
}

/// Whether the operand `j` places below the top of `stack` is asked for by
/// `kinds` and is not of the kind asked for.
pub open spec fn misfits(stack: Seq<Item>, kinds: Seq<Kind>, j: int) -> bool {
    0 <= j < kinds.len() && !fits(stack[stack.len() - 1 - j], kinds[j])
}

/// The topmost operand at or below distance `j` from the top that is not of
/// its kind, as its distance from the top.
pub open spec fn misfit_from(stack: Seq<Item>, kinds: Seq<Kind>, j: int) -> Option<int>
    decreases kinds.len() - j,
{
    if j < 0 || j >= kinds.len() {
        None
    } else if misfits(stack, kinds, j) {
        Some(j)
    } else {
        misfit_from(stack, kinds, j + 1)
    }
}

/// The topmost operand that is not of its kind, as its distance from the
/// top.
pub open spec fn misfit(stack: Seq<Item>, kinds: Seq<Kind>) -> Option<int> {
    misfit_from(stack, kinds, 0)
}

/// With at most three operands asked for, the topmost misfit is found by
/// looking at the three topmost items in turn.
pub proof fn lemma_misfit(stack: Seq<Item>, kinds: Seq<Kind>)
    requires
        kinds.len() <= 3,
    ensures
        misfit(stack, kinds) == if misfits(stack, kinds, 0) {
            Some(0int)
        } else if misfits(stack, kinds, 1) {
            Some(1int)
        } else if misfits(stack, kinds, 2) {
            Some(2int)
        } else {
            None
        },
{
    reveal_with_fuel(misfit_from, 4);
}

/// The state of a machine.
#[verifier::ext_equal]
pub struct Machine {
    /// The evaluation stack, the top last.
    pub stack: Seq<Item>,
    /// The bytes of memory, by address.
    pub bytes: Seq<u8>,
    /// The dictionary: each defined name with its definitions, oldest first.
    pub words: Map<Seq<char>, Seq<Seq<u8>>>,
    /// What has been printed and not yet taken.
    pub output: Seq<char>,
}

/// `m` with `item` on top of its stack.
pub open spec fn pushed(m: Machine, item: Item) -> Machine {
    Machine { stack: m.stack.push(item), ..m }
}

/// `m` without the `n` topmost items of its stack.
pub open spec fn dropped(m: Machine, n: int) -> Machine {
    Machine { stack: m.stack.take(m.stack.len() - n), ..m }
}

/// The integer quotient of `a` by `b`, rounded toward zero.
pub open spec fn quotient(a: int, b: int) -> int {
    if a == 0 {
        0
    } else if a > 0 && b > 0 {
        a / b
    } else if a < 0 && b < 0 {
        (-a) / (-b)
    } else if a < 0 {
        -((-a) / b)
    } else {
        -(a / (-b))
    }
}

/// Pushing the result `v` of an arithmetic operation, which fails if `v` is no
/// 64-bit signed integer.
pub open spec fn arithmetic(m: Machine, v: int) -> (Machine, Result<(), VmError>) {
    if i64::MIN <= v <= i64::MAX {
        (pushed(m, Item::Val(v as i64)), Ok(()))
    } else {
        (m, Err(VmError::Overflow))
    }
}

/// The name of a truth value.
pub open spec fn truth(b: bool) -> Seq<char> {
    if b {
        "true"@
    } else {
        "false"@
    }
}

/// The byte that is stored for the integer `v`: its low eight bits.
pub open spec fn low8(v: i64) -> u8 {
    (v as int % 256) as u8
}

/// The line that shows `stack`: its listing within square brackets.
pub open spec fn stack_line(stack: Seq<Item>) -> Result<Seq<char>, DecodeError> {
    match listing(stack) {
        Ok(text) => Ok(seq!['['] + text + seq![']', '\n']),
        Err(e) => Err(e),
    }
}

/// Running `code` from position `i` on, with `depth` further evaluations
/// allowed to nest inside this one.
///
/// Instructions are taken in order. A literal or a quotation is pushed. A
/// symbol is applied; one that names nothing is pushed. The first failure
/// ends the run, and what was done before it stays done.
pub open spec fn run_from(m: Machine, code: Seq<u8>, i: int, depth: nat) -> (
    Machine,
    Result<(), VmError>,
)
    decreases depth, 3int, code.len() - i,
{
    if !(0 <= i < code.len()) {
        (m, Ok(()))
    } else {
        let d = instruction_at(code, i);
        match d.result {
            Err(e) => (m, Err(VmError::Decode(e))),
            Ok(item) => {
                proof {
                    lemma_instruction_advances(code, i);
                }
                match item {
                    Item::Symbol(name) => {
                        let applied = apply(m, name, depth);
                        match applied.1 {
                            Err(e) => (applied.0, Err(e)),
                            Ok(true) => run_from(applied.0, code, d.next, depth),
                            Ok(false) => run_from(pushed(applied.0, item), code, d.next, depth),
                        }
                    },
                    _ => run_from(pushed(m, item), code, d.next, depth),
                }
            },
        }
    }
}

/// Applying the symbol `name`: as a primitive if it names one, else as a
/// defined word, by running its newest definition. The result says whether
/// the name named anything.
pub open spec fn apply(m: Machine, name: Seq<char>, depth: nat) -> (
    Machine,
    Result<bool, VmError>,
)
    decreases depth, 2int, 0int,
{
    match primitive_of(name) {
        Some(p) => {
            let done = step(m, p, depth);
            (done.0, truly(done.1))
        },
        None => {
            if m.words.contains_key(name) {
                let done = nested(m, m.words[name].last(), depth);
                (done.0, truly(done.1))
            } else {
                (m, Ok(false))
            }
        },
    }
}

/// Success as "yes", failure as it is.
pub open spec fn truly(r: Result<(), VmError>) -> Result<bool, VmError> {
    match r {
        Ok(()) => Ok(true),
        Err(e) => Err(e),
    }
}

/// One evaluation nested inside another that has `depth` left.
pub open spec fn nested(m: Machine, code: Seq<u8>, depth: nat) -> (Machine, Result<(), VmError>)
    decreases depth, 0int, 0int,
{
    if depth == 0 {
        (m, Err(VmError::TooDeep))
    } else {
        run_from(m, code, 0, (depth - 1) as nat)
    }
}

/// What the primitive `p` does.
///
/// With fewer items on the stack than `p` takes, it fails and the machine is
/// as before. Otherwise the operands are taken from the top down; at the
/// first that is not of its kind the primitive fails, and that operand and
/// those above it are gone. With every operand of its kind, the operands
/// are taken off and `p` does its work.
pub open spec fn step(m: Machine, p: Primitive, depth: nat) -> (Machine, Result<(), VmError>)
    decreases depth, 1int, 0int,
{
    let kinds = operands(p);
    let n = m.stack.len() as int;
    if n < kinds.len() {
        (m, Err(VmError::StackUnderflow))
    } else if misfit(m.stack, kinds) is Some {
        let j = misfit(m.stack, kinds)->0;
        (dropped(m, j + 1), Err(wrong(kinds[j])))
    } else {
        let a = m.stack[n - 1];
        let b = m.stack[n - 2];
        let c = m.stack[n - 3];
        let rest = dropped(m, kinds.len() as int);
        match p {
            Primitive::Add => arithmetic(rest, b->Val_0 + a->Val_0),
            Primitive::Sub => arithmetic(rest, b->Val_0 - a->Val_0),
            Primitive::Mul => arithmetic(rest, b->Val_0 * a->Val_0),
            Primitive::Div => if a->Val_0 == 0 {
                (rest, Err(VmError::DivisionByZero))
            } else {
                arithmetic(rest, quotient(b->Val_0 as int, a->Val_0 as int))
            },
            Primitive::Equal => (
                pushed(rest, Item::Quote(symbol_code(truth(b->Val_0 == a->Val_0)))),
                Ok(()),
            ),
            Primitive::Less => (pushed(rest, Item::Symbol(truth(b->Val_0 < a->Val_0))), Ok(())),
            Primitive::Fetch => if 0 <= a->Val_0 < CAPACITY {
                (pushed(rest, Item::Val(m.bytes[a->Val_0 as int] as i64)), Ok(()))
            } else {
                (rest, Err(VmError::Memory(MemoryError::OutOfRange)))
            },
            Primitive::Store => if 0 <= a->Val_0 < CAPACITY {
                (Machine { bytes: m.bytes.update(a->Val_0 as int, low8(b->Val_0)), ..rest }, Ok(()))
            } else {
                (rest, Err(VmError::Memory(MemoryError::OutOfRange)))
            },
            Primitive::Print => (
                Machine { output: m.output + item_text(a) + seq![' '], ..rest },
                Ok(()),
            ),
            Primitive::PrintStack => match stack_line(m.stack) {
                Ok(line) => (Machine { output: m.output + line, ..m }, Ok(())),
                Err(e) => (m, Err(VmError::Decode(e))),
            },
            Primitive::Zap => (rest, Ok(())),
            Primitive::Dup => (pushed(pushed(rest, a), a), Ok(())),
            Primitive::Swap => (pushed(pushed(rest, a), b), Ok(())),
            Primitive::Rot => (pushed(pushed(pushed(rest, b), a), c), Ok(())),
            Primitive::Over => (pushed(pushed(pushed(rest, b), a), b), Ok(())),
            Primitive::Apply => match a {
                Item::Quote(code) => nested(rest, code, depth),
                _ => (m, Ok(())),
            },
            Primitive::Dip => {
                let done = nested(rest, b->Quote_0, depth);
                match done.1 {
                    Ok(()) => (pushed(done.0, a), Ok(())),
                    Err(e) => (done.0, Err(e)),
                }
            },
            Primitive::Cat => (pushed(rest, Item::Quote(b->Quote_0 + a->Quote_0)), Ok(())),
            Primitive::Cons => (
                pushed(rest, Item::Quote(quote_code(b->Quote_0) + a->Quote_0)),
                Ok(()),
            ),
            Primitive::Unit => (pushed(rest, Item::Quote(quote_code(a->Quote_0))), Ok(())),
            Primitive::Define => (
                Machine { words: defined(m.words, a->Symbol_0, b->Quote_0), ..rest },
                Ok(()),
            ),
        }
    }
}

/// Running `code` from its start.
pub open spec fn run(m: Machine, code: Seq<u8>, depth: nat) -> (Machine, Result<(), VmError>) {
    run_from(m, code, 0, depth)
}

impl Primitive {
    /// The primitive that `name` names, if any.
    pub fn named(name: &str) -> (r: Option<Primitive>)
        ensures
            r == primitive_of(name@),
    {
        let v = chars_of(name);
        if spells(&v, "+") {
            Some(Primitive::Add)
        } else if spells(&v, "-") {
            Some(Primitive::Sub)
        } else if spells(&v, "*") {
            Some(Primitive::Mul)
        } else if spells(&v, "/") {
            Some(Primitive::Div)
        } else if spells(&v, "=") {
            Some(Primitive::Equal)
        } else if spells(&v, "<") {
            Some(Primitive::Less)
        } else if spells(&v, "@") {
            Some(Primitive::Fetch)
        } else if spells(&v, "!") {
            Some(Primitive::Store)
        } else if spells(&v, ".") {
            Some(Primitive::Print)
        } else if spells(&v, ".s") {
            Some(Primitive::PrintStack)
        } else if spells(&v, "zap") {
            Some(Primitive::Zap)
        } else if spells(&v, "dup") {
            Some(Primitive::Dup)
        } else if spells(&v, "swap") {
            Some(Primitive::Swap)
        } else if spells(&v, "rot") {
            Some(Primitive::Rot)
        } else if spells(&v, "over") {
            Some(Primitive::Over)
        } else if spells(&v, "i") {
            Some(Primitive::Apply)
        } else if spells(&v, "dip") {
            Some(Primitive::Dip)
        } else if spells(&v, "cat") {
            Some(Primitive::Cat)
        } else if spells(&v, "cons") {
            Some(Primitive::Cons)
        } else if spells(&v, "unit") {
            Some(Primitive::Unit)
        } else if spells(&v, "define") {
            Some(Primitive::Define)
        } else {
            None
        }
    }

    /// The number of operands that this primitive takes off the stack.
    pub fn arity(&self) -> (n: usize)
        ensures
            n == operands(*self).len(),
    {
        match self {
            Primitive::PrintStack => 0,
            Primitive::Fetch | Primitive::Print | Primitive::Zap | Primitive::Dup
            | Primitive::Apply | Primitive::Unit => 1,
            Primitive::Rot => 3,
            _ => 2,
        }
    }
}

/// The values of the items of `stack`.
pub open spec fn items(stack: Seq<StackItem>) -> Seq<Item> {
    Seq::new(stack.len(), |i: int| stack[i]@)
}

/// A machine: an evaluation stack, a memory with its dictionary, and the
/// text that has been printed and not yet taken.
pub struct Vm {
    memory: Memory,
    stack: Vec<StackItem>,
    output: String,
}

impl View for Vm {
    type V = Machine;

    closed spec fn view(&self) -> Machine {
        Machine {
            stack: items(self.stack@),
            bytes: self.memory.bytes(),
            words: self.memory.words(),
            output: self.output@,
        }
    }
}

impl Vm {
    /// A machine with an empty stack, zeroed memory, no words and no output.
    pub fn new() -> (vm: Vm)
        ensures
            vm@ == (Machine {
                stack: Seq::empty(),
                bytes: Seq::new(CAPACITY as nat, |i: int| 0u8),
                words: Map::empty(),
                output: Seq::empty(),
            }),
    {
        Vm { memory: Memory::new(), stack: Vec::new(), output: String::new() }
    }

    /// A machine's memory always holds exactly `CAPACITY` bytes.
    pub proof fn lemma_memory_size(&self)
        ensures
            self@.bytes.len() == CAPACITY,
    {
        self.memory.lemma_size();
    }

    /// The evaluation stack, the top last.
    pub fn stack(&self) -> (s: &Vec<StackItem>)
        ensures
            items(s@) == self@.stack,
    {
        &self.stack
    }

    /// The memory and the dictionary.
    pub fn memory(&self) -> (m: &Memory)
        ensures
            m.bytes() == self@.bytes,
            m.words() == self@.words,
    {
        &self.memory
    }

    /// Hands out what has been printed since the output was last taken.
    pub fn take_output(&mut self) -> (text: String)
        ensures
            text@ == old(self)@.output,
            final(self)@ == (Machine { output: Seq::empty(), ..old(self)@ }),
    {
        let mut text = String::new();
        std::mem::swap(&mut text, &mut self.output);
        text
    }

    /// Puts `item` on top of the stack.
    fn push(&mut self, item: StackItem)
        ensures
            final(self)@ == pushed(old(self)@, item@),
    {
        self.stack.push(item);
    }

    /// Takes the top item off the stack.
    pub fn pop(&mut self) -> (r: Result<StackItem, VmError>)
        ensures
            match r {
                Ok(item) => old(self)@.stack.len() > 0 && item@ == old(self)@.stack.last()
                    && final(self)@ == dropped(old(self)@, 1),
                Err(e) => old(self)@.stack.len() == 0 && e == VmError::StackUnderflow
                    && final(self)@ == old(self)@,
            },
    {
        match self.stack.pop() {
            Some(item) => Ok(item),
            None => Err(VmError::StackUnderflow),
        }
    }

    /// Takes the top item off the stack; it must be an integer.
    pub fn pop_val(&mut self) -> (r: Result<i64, VmError>)
        ensures
            old(self)@.stack.len() == 0 ==> r == Err::<i64, VmError>(VmError::StackUnderflow)
                && final(self)@ == old(self)@,
            old(self)@.stack.len() > 0 ==> final(self)@ == dropped(old(self)@, 1)
                && r == (match old(self)@.stack.last() {
                Item::Val(v) => Ok::<i64, VmError>(v),
                _ => Err(VmError::NotAVal),
            }),
    {
        match self.pop()? {
            StackItem::Val(v) => Ok(v),
            _ => Err(VmError::NotAVal),
        }
    }

    /// Takes the top item off the stack; it must be a symbol.
    pub fn pop_symbol(&mut self) -> (r: Result<String, VmError>)
        ensures
            old(self)@.stack.len() == 0 ==> r == Err::<String, VmError>(VmError::StackUnderflow)
                && final(self)@ == old(self)@,
            old(self)@.stack.len() > 0 ==> final(self)@ == dropped(old(self)@, 1) && (
            match old(self)@.stack.last() {
                Item::Symbol(name) => r is Ok && r->Ok_0@ == name,
                _ => r == Err::<String, VmError>(VmError::NotASymbol),
            }),
    {
        match self.pop()? {
            StackItem::Symbol(v) => Ok(v),
            _ => Err(VmError::NotASymbol),
        }
    }

    /// Takes the top item off the stack; it must be a quotation.
    pub fn pop_quote(&mut self) -> (r: Result<ByteCode, VmError>)
        ensures
            old(self)@.stack.len() == 0 ==> r == Err::<ByteCode, VmError>(VmError::StackUnderflow)
                && final(self)@ == old(self)@,
            old(self)@.stack.len() > 0 ==> final(self)@ == dropped(old(self)@, 1) && (
            match old(self)@.stack.last() {
                Item::Quote(code) => r is Ok && r->Ok_0@ == code,
                _ => r == Err::<ByteCode, VmError>(VmError::NotAQuote),
            }),
    {
        match self.pop()? {
            StackItem::Quote(bc) => Ok(bc),
            _ => Err(VmError::NotAQuote),
        }
    }

    /// Prints the stack as one line, bottom first, within square brackets.
    /// Nothing is printed if a quotation on the stack cannot be read.
    pub fn print(&mut self) -> (r: Result<(), VmError>)
        ensures
            match stack_line(old(self)@.stack) {
                Ok(line) => r == Ok::<(), VmError>(()) && final(self)@ == (Machine {
                    output: old(self)@.output + line,
                    ..old(self)@
                }),
                Err(e) => r == Err::<(), VmError>(VmError::Decode(e))
                    && final(self)@ == old(self)@,
            },
    {
        let mut parts = String::new();
        let mut i: usize = 0;
        while i < self.stack.len()
            invariant
                i <= self.stack.len(),
                listing(self@.stack.take(i as int)) == Ok::<Seq<char>, DecodeError>(parts@),
            decreases self.stack.len() - i,
        {
            let ghost before = self@.stack.take(i as int);
            let ghost upto = self@.stack.take(i + 1);
            proof {
                assert(upto.drop_last() == before);
                if listing(upto) is Err {
                    lemma_listing_fails(self@.stack, i + 1);
                }
            }
            let text = match show(&self.stack[i]) {
                Ok(text) => text,
                Err(e) => {
                    return Err(VmError::Decode(e));
                },
            };
            let ghost listed = parts@;
            if i > 0 {
                push_char(&mut parts, ' ');
            }
            parts.append(text.as_str());
            assert(parts@ == listed + gap(upto.len() > 1) + text@);
            i = i + 1;
        }
        assert(self@.stack.take(i as int) == self@.stack);
        push_char(&mut self.output, '[');
        self.output.append(parts.as_str());
        push_char(&mut self.output, ']');
        push_char(&mut self.output, '\n');
        Ok(())
    }

    /// Runs `code` as an evaluation nested in one that has `depth` left.
    fn nest(&mut self, code: &ByteCode, depth: usize) -> (r: Result<(), VmError>)
        ensures
            final(self)@ == nested(old(self)@, code@, depth as nat).0,
            r == nested(old(self)@, code@, depth as nat).1,
        decreases depth, 0int,
    {
        if depth == 0 {
            Err(VmError::TooDeep)
        } else {
            self.eval_within(code, depth - 1)
        }
    }

    /// Runs `bytecode`: see [`run`]. Up to [`MAX_DEPTH`] evaluations may nest
    /// inside this one.
    pub fn eval(&mut self, bytecode: &ByteCode) -> (r: Result<(), VmError>)
        ensures
            final(self)@ == run(old(self)@, bytecode@, MAX_DEPTH as nat).0,
            r == run(old(self)@, bytecode@, MAX_DEPTH as nat).1,
    {
        self.eval_within(bytecode, MAX_DEPTH)
    }

    /// Runs `bytecode` with `depth` further evaluations allowed to nest
    /// inside this one.
    pub fn eval_within(&mut self, bytecode: &ByteCode, depth: usize) -> (r: Result<(), VmError>)
        ensures
            final(self)@ == run(old(self)@, bytecode@, depth as nat).0,
            r == run(old(self)@, bytecode@, depth as nat).1,
        decreases depth, 4int,
    {
        let mut parser = ByteCodeParser::new(bytecode);
        while parser.has_bytes()
            invariant
                parser.code() == bytecode@,
                0 <= parser.position(),
                run_from(self@, bytecode@, parser.position(), depth as nat) == run(
                    old(self)@,
                    bytecode@,
                    depth as nat,
                ),
            decreases bytecode@.len() - parser.position(),
        {
            proof {
                lemma_instruction_advances(bytecode@, parser.position());
            }
            let i = match parser.read_instruction() {
                Ok(i) => i,
                Err(e) => {
                    return Err(VmError::Decode(e));
                },
            };
            match i {
                Instruction::Push(item) => match item {
                    StackItem::Symbol(s) => {
                        let name = s.clone();
                        if !self.apply_symbol_within(name, depth)? {
                            self.push(StackItem::Symbol(s));
                        }
                    },
                    other => {
                        self.push(other);
                    },
                },
            }
        }
        Ok(())
    }

    /// Applies the symbol `s`: see [`apply`]. Up to [`MAX_DEPTH`] evaluations
    /// may nest inside.
    pub fn apply_symbol(&mut self, s: String) -> (r: Result<bool, VmError>)
        ensures
            final(self)@ == apply(old(self)@, s@, MAX_DEPTH as nat).0,
            r == apply(old(self)@, s@, MAX_DEPTH as nat).1,
    {
        self.apply_symbol_within(s, MAX_DEPTH)
    }

    /// Applies the symbol `s` with `depth` evaluations allowed to nest inside.
    pub fn apply_symbol_within(&mut self, s: String, depth: usize) -> (r: Result<bool, VmError>)
        ensures
            final(self)@ == apply(old(self)@, s@, depth as nat).0,
            r == apply(old(self)@, s@, depth as nat).1,
        decreases depth, 3int,
    {
        match Primitive::named(s.as_str()) {
            Some(p) => {
                self.apply_primitive(p, depth)?;
                Ok(true)
            },
            None => match self.memory.lookup(s) {
                Some(code) => {
                    self.nest(&code, depth)?;
                    Ok(true)
                },
                None => Ok(false),
            },
        }
    }

    /// Does what the primitive `p` does: see [`step`].
    pub fn apply_primitive(&mut self, p: Primitive, depth: usize) -> (r: Result<(), VmError>)
        ensures
            final(self)@ == step(old(self)@, p, depth as nat).0,
            r == step(old(self)@, p, depth as nat).1,
        decreases depth, 2int,
    {
        if self.stack.len() < p.arity() {
            return Err(VmError::StackUnderflow);
        }
        proof {
            lemma_misfit(self@.stack, operands(p));
        }
        match p {
            Primitive::Add | Primitive::Sub | Primitive::Mul | Primitive::Div => self.calculate(p),
            Primitive::Equal | Primitive::Less => self.compare(p),
            Primitive::Fetch => self.fetch(),
            Primitive::Store => self.store(),
            Primitive::Print => self.print_top(),
            Primitive::PrintStack => self.print(),
            Primitive::Zap | Primitive::Dup | Primitive::Swap | Primitive::Rot
            | Primitive::Over => self.shuffle(p),
            Primitive::Apply | Primitive::Dip => self.unquote(p, depth),
            Primitive::Cat | Primitive::Cons | Primitive::Unit => self.combine(p),
            Primitive::Define => self.define(),
        }
    }

    /// `+`, `-`, `*` and `/`.
    fn calculate(&mut self, p: Primitive) -> (r: Result<(), VmError>)
        requires
            p is Add || p is Sub || p is Mul || p is Div,
            old(self)@.stack.len() >= 2,
        ensures
            final(self)@ == step(old(self)@, p, 0).0,
            r == step(old(self)@, p, 0).1,
    {
        proof {
            lemma_misfit(self@.stack, operands(p));
        }
        let b = self.pop_val()?;
        let a = self.pop_val()?;
        let v = match p {
            Primitive::Add => a.checked_add(b),
            Primitive::Sub => a.checked_sub(b),
            Primitive::Mul => a.checked_mul(b),
            _ => {
                if b == 0 {
                    return Err(VmError::DivisionByZero);
                }
                a.checked_div(b)
            },
        };
        match v {
            Some(v) => {
                self.push(StackItem::Val(v));
                Ok(())
            },
            None => Err(VmError::Overflow),
        }
    }

    /// `=` and `<`.
    fn compare(&mut self, p: Primitive) -> (r: Result<(), VmError>)
        requires
            p is Equal || p is Less,
            old(self)@.stack.len() >= 2,
        ensures
            final(self)@ == step(old(self)@, p, 0).0,
            r == step(old(self)@, p, 0).1,
    {
        proof {
            lemma_misfit(self@.stack, operands(p));
        }
        let b = self.pop_val()?;
        let a = self.pop_val()?;
        match p {
            Primitive::Equal => {
                let mut builder = ByteCodeBuilder::new();
                if a == b {
                    builder.push_symbol("true");
                } else {
                    builder.push_symbol("false");
                }
                self.push(StackItem::Quote(builder.bytecode().clone()));
            },
            _ => {
                let r = if a < b { "true" } else { "false" };
                self.push(StackItem::Symbol(String::from_str(r)));
            },
        }
        Ok(())
    }

    /// `@`.
    fn fetch(&mut self) -> (r: Result<(), VmError>)
        requires
            old(self)@.stack.len() >= 1,
        ensures
            final(self)@ == step(old(self)@, Primitive::Fetch, 0).0,
            r == step(old(self)@, Primitive::Fetch, 0).1,
    {
        proof {
            lemma_misfit(self@.stack, operands(Primitive::Fetch));
        }
        let ptr = self.pop_val()?;
        if ptr < 0 || ptr >= CAPACITY as i64 {
            return Err(VmError::Memory(MemoryError::OutOfRange));
        }
        proof {
            self.memory.lemma_size();
        }
        match self.memory.fetch(ptr as usize) {
            Ok(val) => {
                let v: i64 = *val as i64;
                self.push(StackItem::Val(v));
                Ok(())
            },
            Err(e) => Err(VmError::Memory(e)),
        }
    }

    /// `!`.
    fn store(&mut self) -> (r: Result<(), VmError>)
        requires
            old(self)@.stack.len() >= 2,
        ensures
            final(self)@ == step(old(self)@, Primitive::Store, 0).0,
            r == step(old(self)@, Primitive::Store, 0).1,
    {
        proof {
            lemma_misfit(self@.stack, operands(Primitive::Store));
        }
        let ptr = self.pop_val()?;
        let val = self.pop_val()?;
        if ptr < 0 || ptr >= CAPACITY as i64 {
            return Err(VmError::Memory(MemoryError::OutOfRange));
        }
        match self.memory.store(ptr as usize, low_bits(val)) {
            Ok(_) => Ok(()),
            Err(e) => Err(VmError::Memory(e)),
        }
    }

    /// `.`.
    fn print_top(&mut self) -> (r: Result<(), VmError>)
        requires
            old(self)@.stack.len() >= 1,
        ensures
            final(self)@ == step(old(self)@, Primitive::Print, 0).0,
            r == step(old(self)@, Primitive::Print, 0).1,
    {
        proof {
            lemma_misfit(self@.stack, operands(Primitive::Print));
        }
        let v = self.pop()?;
        let text = v.text();
        self.output.append(text.as_str());
        push_char(&mut self.output, ' ');
        Ok(())
    }

    /// `zap`, `dup`, `swap`, `rot` and `over`.
    fn shuffle(&mut self, p: Primitive) -> (r: Result<(), VmError>)
        requires
            p is Zap || p is Dup || p is Swap || p is Rot || p is Over,
            old(self)@.stack.len() >= operands(p).len(),
        ensures
            final(self)@ == step(old(self)@, p, 0).0,
            r == step(old(self)@, p, 0).1,
    {
        proof {
            lemma_misfit(self@.stack, operands(p));
        }
        match p {
            Primitive::Zap => {
                let _ = self.pop()?;
            },
            Primitive::Dup => {
                let v = self.pop()?;
                self.push(v.clone());
                self.push(v);
            },
            Primitive::Swap => {
                let a = self.pop()?;
                let b = self.pop()?;
                self.push(a);
                self.push(b);
            },
            Primitive::Rot => {
                let a = self.pop()?;
                let b = self.pop()?;
                let c = self.pop()?;
                self.push(b);
                self.push(a);
                self.push(c);
            },
            _ => {
                let a = self.pop()?;
                let b = self.pop()?;
                self.push(b.clone());
                self.push(a);
                self.push(b);
            },
        }
        Ok(())
    }

    /// `i` and `dip`.
    fn unquote(&mut self, p: Primitive, depth: usize) -> (r: Result<(), VmError>)
        requires
            p is Apply || p is Dip,
            old(self)@.stack.len() >= operands(p).len(),
        ensures
            final(self)@ == step(old(self)@, p, depth as nat).0,
            r == step(old(self)@, p, depth as nat).1,
        decreases depth, 1int,
    {
        proof {
            lemma_misfit(self@.stack, operands(p));
        }
        match p {
            Primitive::Apply => {
                let v = self.pop()?;
                match v {
                    StackItem::Quote(bytecode) => self.nest(&bytecode, depth),
                    other => {
                        self.push(other);
                        Ok(())
                    },
                }
            },
            _ => {
                let a = self.pop_quote()?;
                let b = self.pop_quote()?;
                assert(self@ == dropped(old(self)@, 2));
                self.nest(&b, depth)?;
                self.push(StackItem::Quote(a));
                Ok(())
            },
        }
    }

    /// `cat`, `cons` and `unit`.
    fn combine(&mut self, p: Primitive) -> (r: Result<(), VmError>)
        requires
            p is Cat || p is Cons || p is Unit,
            old(self)@.stack.len() >= operands(p).len(),
        ensures
            final(self)@ == step(old(self)@, p, 0).0,
            r == step(old(self)@, p, 0).1,
    {
        proof {
            lemma_misfit(self@.stack, operands(p));
        }
        match p {
            Primitive::Cat => {
                let mut a = self.pop_quote()?;
                let mut b = self.pop_quote()?;
                b.append(&mut a);
                self.push(StackItem::Quote(b));
            },
            Primitive::Cons => {
                let mut a = self.pop_quote()?;
                let mut b = self.pop_quote()?;
                let ghost first = a@;
                let ghost second = b@;
                let mut c: ByteCode = Vec::new();
                c.push(QUOTE);
                c.push((b.len() % 256) as u8);
                c.append(&mut b);
                c.append(&mut a);
                assert(c@ == quote_code(second) + first);
                self.push(StackItem::Quote(c));
            },
            _ => {
                let a = self.pop_quote()?;
                let mut builder = ByteCodeBuilder::new();
                builder.write_quote(&a);
                self.push(StackItem::Quote(builder.bytecode().clone()));
            },
        }
        Ok(())
    }

    /// `define`.
    fn define(&mut self) -> (r: Result<(), VmError>)
        requires
            old(self)@.stack.len() >= 2,
        ensures
            final(self)@ == step(old(self)@, Primitive::Define, 0).0,
            r == step(old(self)@, Primitive::Define, 0).1,
    {
        proof {
            lemma_misfit(self@.stack, operands(Primitive::Define));
        }
        let name = self.pop_symbol()?;
        let code = self.pop_quote()?;
        self.memory.define(name, code);
        Ok(())
    }
}

/// The text of `item` within a listing.
fn show(item: &StackItem) -> (r: Result<String, DecodeError>)
    ensures
        match r {
            Ok(text) => shown(item@) == Ok::<Seq<char>, DecodeError>(text@),
            Err(e) => shown(item@) == Err::<Seq<char>, DecodeError>(e),
        },
{
    match item {
        StackItem::Val(v) => {
            let mut s = String::new();
            push_decimal(&mut s, *v);
            Ok(s)
        },
        StackItem::Symbol(name) => Ok(name.clone()),
        StackItem::Quote(bc) => bytecode_as_string(bc.clone()),
    }
}

/// The low eight bits of `v`.
fn low_bits(v: i64) -> (b: u8)
    ensures
        b == low8(v),
{
    let r: i64 = v % 256;
    if r < 0 {
        (r + 256) as u8
    } else {
        r as u8
    }
}

/// What the evaluator does with one item: a literal or a quotation is
/// pushed; a symbol is applied, and pushed if it names nothing.
pub open spec fn receive(m: Machine, item: Item, depth: nat) -> (Machine, Result<(), VmError>) {
    match item {
        Item::Symbol(name) => {
            let applied = apply(m, name, depth);
            match applied.1 {
                Err(e) => (applied.0, Err(e)),
                Ok(true) => (applied.0, Ok(())),
                Ok(false) => (pushed(applied.0, item), Ok(())),
            }
        },
        _ => (pushed(m, item), Ok(())),
    }
}

/// Handing `items` to the evaluator one after another, up to the first
/// failure.
pub open spec fn run_items(m: Machine, items: Seq<Item>, depth: nat) -> (
    Machine,
    Result<(), VmError>,
)
    decreases items.len(),
{
    if items.len() == 0 {
        (m, Ok(()))
    } else {
        let first = receive(m, items.first(), depth);
        match first.1 {
            Err(e) => first,
            Ok(()) => run_items(first.0, items.drop_first(), depth),
        }
    }
}

/// Each primitive is found under its name.
pub proof fn lemma_primitive_names()
    ensures
        primitive_of("+"@) == Some(Primitive::Add),
        primitive_of("-"@) == Some(Primitive::Sub),
        primitive_of("*"@) == Some(Primitive::Mul),
        primitive_of("/"@) == Some(Primitive::Div),
        primitive_of("="@) == Some(Primitive::Equal),
        primitive_of("<"@) == Some(Primitive::Less),
        primitive_of("@"@) == Some(Primitive::Fetch),
        primitive_of("!"@) == Some(Primitive::Store),
        primitive_of("."@) == Some(Primitive::Print),
        primitive_of(".s"@) == Some(Primitive::PrintStack),
        primitive_of("zap"@) == Some(Primitive::Zap),
        primitive_of("dup"@) == Some(Primitive::Dup),
        primitive_of("swap"@) == Some(Primitive::Swap),
        primitive_of("rot"@) == Some(Primitive::Rot),
        primitive_of("over"@) == Some(Primitive::Over),
        primitive_of("i"@) == Some(Primitive::Apply),
        primitive_of("dip"@) == Some(Primitive::Dip),
        primitive_of("cat"@) == Some(Primitive::Cat),
        primitive_of("cons"@) == Some(Primitive::Cons),
        primitive_of("unit"@) == Some(Primitive::Unit),
        primitive_of("define"@) == Some(Primitive::Define),
{
    reveal_strlit("+");
    reveal_strlit("-");
    reveal_strlit("*");
    reveal_strlit("/");
    reveal_strlit("=");
    reveal_strlit("<");
    reveal_strlit("@");
    reveal_strlit("!");
    reveal_strlit(".");
    reveal_strlit(".s");
    reveal_strlit("zap");
    reveal_strlit("dup");
    reveal_strlit("swap");
    reveal_strlit("rot");
    reveal_strlit("over");
    reveal_strlit("i");
    reveal_strlit("dip");
    reveal_strlit("cat");
    reveal_strlit("cons");
    reveal_strlit("unit");
    reveal_strlit("define");
    assert("-"@.len() == 1 && "-"@[0] == '-');
    assert("*"@.len() == 1 && "*"@[0] == '*');
    assert("/"@.len() == 1 && "/"@[0] == '/');
    assert("="@.len() == 1 && "="@[0] == '=');
    assert("<"@.len() == 1 && "<"@[0] == '<');
    assert("@"@.len() == 1 && "@"@[0] == '@');
    assert("!"@.len() == 1 && "!"@[0] == '!');
    assert("."@.len() == 1 && "."@[0] == '.');
    assert(".s"@.len() == 2 && ".s"@[0] == '.' && ".s"@[1] == 's');
    assert("zap"@.len() == 3 && "zap"@[0] == 'z' && "zap"@[1] == 'a');
    assert("dup"@.len() == 3 && "dup"@[0] == 'd' && "dup"@[1] == 'u');
    assert("swap"@.len() == 4 && "swap"@[0] == 's' && "swap"@[1] == 'w');
    assert("rot"@.len() == 3 && "rot"@[0] == 'r' && "rot"@[1] == 'o');
    assert("over"@.len() == 4 && "over"@[0] == 'o' && "over"@[1] == 'v');
    assert("i"@.len() == 1 && "i"@[0] == 'i');
    assert("dip"@.len() == 3 && "dip"@[0] == 'd' && "dip"@[1] == 'i');
    assert("cat"@.len() == 3 && "cat"@[0] == 'c' && "cat"@[1] == 'a');
    assert("cons"@.len() == 4 && "cons"@[0] == 'c' && "cons"@[1] == 'o');
    assert("unit"@.len() == 4 && "unit"@[0] == 'u' && "unit"@[1] == 'n');
    assert("define"@.len() == 6 && "define"@[0] == 'd' && "define"@[1] == 'e');
}

/// A primitive that finds fewer items on the stack than it takes fails with
/// an underflow and leaves the machine as it was.
pub proof fn lemma_underflow_changes_nothing(m: Machine, p: Primitive, depth: nat)
    requires
        m.stack.len() < operands(p).len(),
    ensures
        step(m, p, depth) == (m, Err::<(), VmError>(VmError::StackUnderflow)),
{
}

/// `+` on a stack of fewer than two items fails with an underflow and leaves
/// the machine as it was.
pub proof fn lemma_add_underflow(m: Machine, depth: nat)
    requires
        m.stack.len() < 2,
    ensures
        apply(m, "+"@, depth) == (m, Err::<bool, VmError>(VmError::StackUnderflow)),
{
    lemma_primitive_names();
    lemma_underflow_changes_nothing(m, Primitive::Add, depth);
}

/// `dup` puts a second copy of the top item on the stack, and `zap` then
/// takes it off again: the machine is as it was before the two.
pub proof fn lemma_dup_then_zap(m: Machine, depth: nat)
    requires
        m.stack.len() > 0,
    ensures
        apply(m, "dup"@, depth) == (pushed(m, m.stack.last()), Ok::<bool, VmError>(true)),
        apply(pushed(m, m.stack.last()), "zap"@, depth) == (m, Ok::<bool, VmError>(true)),
{
    let doubled = pushed(m, m.stack.last());
    lemma_primitive_names();
    lemma_misfit(m.stack, operands(Primitive::Dup));
    lemma_misfit(doubled.stack, operands(Primitive::Zap));
    assert(step(m, Primitive::Dup, depth).0 =~= doubled);
    assert(step(doubled, Primitive::Zap, depth).0 =~= m);
}

/// Running the instructions written for encodable items, wherever they
/// stand, is handing those items to the evaluator one after another.
proof fn lemma_run_encoded(m: Machine, before: Seq<u8>, items: Seq<Item>, depth: nat)
    requires
        forall|i: int| 0 <= i < items.len() ==> encodable(#[trigger] items[i]),
    ensures
        run_from(m, before + items_code(items), before.len() as int, depth) == run_items(
            m,
            items,
            depth,
        ),
    decreases items.len(),
{
    let code = before + items_code(items);
    if items.len() == 0 {
    } else {
        let first = items.first();
        let rest = items.drop_first();
        lemma_instruction_read_back(before, first, items_code(rest));
        let received = receive(m, first, depth);
        let further = before + item_code(first);
        assert(code =~= further + items_code(rest));
        if received.1 is Ok {
            lemma_run_encoded(received.0, further, rest, depth);
        }
    }
}

/// Running the instructions written for encodable items is handing those
/// items to the evaluator one after another.
pub proof fn lemma_run_items(m: Machine, items: Seq<Item>, depth: nat)
    requires
        forall|i: int| 0 <= i < items.len() ==> encodable(#[trigger] items[i]),
    ensures
        run(m, items_code(items), depth) == run_items(m, items, depth),
{
    lemma_run_encoded(m, Seq::empty(), items, depth);
}

/// Handing over two runs of items is handing over the first and, if that
/// succeeds, the second.
pub proof fn lemma_run_items_append(m: Machine, first: Seq<Item>, second: Seq<Item>, depth: nat)
    ensures
        run_items(m, first + second, depth) == (match run_items(m, first, depth).1 {
            Ok(()) => run_items(run_items(m, first, depth).0, second, depth),
            Err(e) => run_items(m, first, depth),
        }),
    decreases first.len(),
{
    if first.len() == 0 {
    } else {
        let whole = first + second;
        assert(whole.drop_first() =~= first.drop_first() + second);
        let received = receive(m, first.first(), depth);
        if received.1 is Ok {
            lemma_run_items_append(received.0, first.drop_first(), second, depth);
        }
    }
}

/// A program followed by `dup zap` leaves the machine as the program alone
/// leaves it, and fails as the program alone fails, unless the program
/// leaves the stack empty.
pub proof fn lemma_dup_zap(m: Machine, program: Seq<Item>, depth: nat)
    requires
        forall|i: int| 0 <= i < program.len() ==> encodable(#[trigger] program[i]),
        run(m, items_code(program), depth).1 is Ok ==> run(
            m,
            items_code(program),
            depth,
        ).0.stack.len() > 0,
    ensures
        run(
            m,
            items_code(program + seq![Item::Symbol("dup"@), Item::Symbol("zap"@)]),
            depth,
        ) == run(m, items_code(program), depth),
{
    let dup = Item::Symbol("dup"@);
    let zap = Item::Symbol("zap"@);
    let tail = seq![dup, zap];
    let longer = program + tail;
    reveal_strlit("dup");
    reveal_strlit("zap");
    lemma_run_items(m, program, depth);
    lemma_run_items(m, longer, depth);
    lemma_run_items_append(m, program, tail, depth);
    if run_items(m, program, depth).1 is Ok {
        let after = run_items(m, program, depth).0;
        lemma_dup_then_zap(after, depth);
        let doubled = pushed(after, after.stack.last());
        assert(tail.drop_first() =~= seq![zap]);
        assert(seq![zap].drop_first() =~= Seq::<Item>::empty());
        assert(run_items(after, Seq::<Item>::empty(), depth) == (after, Ok::<(), VmError>(())));
        assert(run_items(doubled, seq![zap], depth) == (after, Ok::<(), VmError>(())));
        let alone = run_items(m, program, depth);
        assert(alone.1->Ok_0 == ());
    }
}

/// A word that has just been defined runs its new definition when it is
/// applied, provided that its name is not the name of a primitive.
pub proof fn lemma_defined_word_runs(m: Machine, name: Seq<char>, code: Seq<u8>, depth: nat)
    requires
        primitive_of(name) is None,
    ensures
        ({
            let after = Machine { words: defined(m.words, name, code), ..m };
            let done = nested(after, code, depth);
            apply(after, name, depth) == (done.0, truly(done.1))
        }),
{
    lemma_newest_definition(m.words, name, code);
}

/// `@` and `!` with an address below zero or at or beyond the capacity fail
/// with an out-of-range error, and memory is as it was.
pub proof fn lemma_address_out_of_range(m: Machine, depth: nat)
    requires
        m.stack.len() >= 2,
        m.stack[m.stack.len() - 1] is Val,
        m.stack[m.stack.len() - 2] is Val,
        !(0 <= m.stack[m.stack.len() - 1]->Val_0 < CAPACITY),
    ensures
        step(m, Primitive::Fetch, depth) == (
            dropped(m, 1),
            Err::<(), VmError>(VmError::Memory(MemoryError::OutOfRange)),
        ),
        step(m, Primitive::Store, depth) == (
            dropped(m, 2),
            Err::<(), VmError>(VmError::Memory(MemoryError::OutOfRange)),
        ),
{
    lemma_misfit(m.stack, operands(Primitive::Fetch));
    lemma_misfit(m.stack, operands(Primitive::Store));
}

/// What `!` stores, `@` fetches: after a value has been stored at an address
/// within memory, fetching from that address gives its low eight bits.
pub proof fn lemma_store_then_fetch(m: Machine, value: i64, address: i64, depth: nat)
    requires
        0 <= address < CAPACITY,
        m.bytes.len() == CAPACITY,
    ensures
        ({
            let stored = step(
                pushed(pushed(m, Item::Val(value)), Item::Val(address)),
                Primitive::Store,
                depth,
            );
            let fetched = step(pushed(stored.0, Item::Val(address)), Primitive::Fetch, depth);
            &&& stored.1 is Ok
            &&& stored.0.stack == m.stack
            &&& fetched.1 is Ok
            &&& fetched.0.stack == m.stack.push(Item::Val(low8(value) as i64))
        }),
{
    let before = pushed(pushed(m, Item::Val(value)), Item::Val(address));
    lemma_misfit(before.stack, operands(Primitive::Store));
    let stored = step(before, Primitive::Store, depth);
    assert(stored.0.stack =~= m.stack);
    let again = pushed(stored.0, Item::Val(address));
    lemma_misfit(again.stack, operands(Primitive::Fetch));
}

} // verus!
