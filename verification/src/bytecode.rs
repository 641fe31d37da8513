//! The bytecode: how instructions are laid out in bytes, a builder that
//! writes them, a parser that reads them back, and a printer.

use vstd::prelude::*;
use crate::machine::{Instruction, Item, StackItem, PUSH, QUOTE, SYMBOL};
use crate::decimal::{decimal, digits, push_decimal, push_natural};
use crate::text::push_char;

verus! {

/// A sequence of encoded instructions.
pub type ByteCode = Vec<u8>;

/// The byte that stands for the character `c` in an encoded symbol: the low
/// eight bits of its code point.
pub open spec fn low_byte(c: char) -> u8 {
    (c as int % 256) as u8
}

/// The bytes of a symbol's name.
pub open spec fn name_bytes(name: Seq<char>) -> Seq<u8> {
    Seq::new(name.len(), |i: int| low_byte(name[i]))
}

/// The name that a run of bytes spells.
pub open spec fn bytes_name(bytes: Seq<u8>) -> Seq<char> {
    Seq::new(bytes.len(), |i: int| bytes[i] as char)
}

/// The encoding of "push the literal `v`".
pub open spec fn push_code(v: u8) -> Seq<u8> {
    seq![PUSH, v]
}

/// The encoding of a symbol: the opcode, the name's bytes, a zero byte.
pub open spec fn symbol_code(name: Seq<char>) -> Seq<u8> {
    seq![SYMBOL] + name_bytes(name) + seq![0u8]
}

/// The encoding of a quotation: the opcode, one length byte, the body.
///
/// The length byte holds the body's length modulo 256, so a body of more than
/// 255 bytes does not read back as it was written.
pub open spec fn quote_code(body: Seq<u8>) -> Seq<u8> {
    seq![QUOTE, (body.len() % 256) as u8] + body
}

/// The byte that stands for `c` in an encoded symbol.
pub fn byte_of(c: char) -> (b: u8)
    ensures
        b == low_byte(c),
{
    let code: u32 = c as u32;
    (code % 256) as u8
}

/// A buffer of encoded instructions that grows at its end.
pub struct ByteCodeBuilderInner {
    bytes: Vec<u8>,
}

impl View for ByteCodeBuilderInner {
    type V = Seq<u8>;

    closed spec fn view(&self) -> Seq<u8> {
        self.bytes@
    }
}

impl ByteCodeBuilderInner {
    /// An empty buffer.
    pub fn new() -> (b: ByteCodeBuilderInner)
        ensures
            b@ == Seq::<u8>::empty(),
    {
        ByteCodeBuilderInner { bytes: Vec::new() }
    }

    /// Appends "push the literal `v`".
    pub fn push_val(&mut self, v: u8)
        ensures
            final(self)@ == old(self)@ + push_code(v),
    {
        self.bytes.push(PUSH);
        self.bytes.push(v);
    }

    /// Appends the symbol `sym`.
    pub fn push_symbol(&mut self, sym: &str)
        ensures
            final(self)@ == old(self)@ + symbol_code(sym@),
    {
        self.bytes.push(SYMBOL);
        for c in it: sym.chars()
            invariant
                it.seq() == sym@,
                self.bytes@ == old(self).bytes@ + seq![SYMBOL] + name_bytes(
                    sym@.take(it.index() as int),
                ),
        {
            self.bytes.push(byte_of(c));
        }
        self.bytes.push(0);
    }

    /// Appends the quotation whose body is `code`.
    pub fn write_quote(&mut self, code: &ByteCode)
        ensures
            final(self)@ == old(self)@ + quote_code(code@),
    {
        self.bytes.push(QUOTE);
        self.bytes.push((code.len() % 256) as u8);
        let mut i: usize = 0;
        while i < code.len()
            invariant
                i <= code.len(),
                self.bytes@ == old(self).bytes@ + seq![QUOTE, (code@.len() % 256) as u8]
                    + code@.take(i as int),
            decreases code.len() - i,
        {
            self.bytes.push(code[i]);
            i = i + 1;
        }
    }

    /// The bytes written so far.
    pub fn bytecode(&self) -> (code: &ByteCode)
        ensures
            code@ == self@,
    {
        &self.bytes
    }
}

/// The frames `frames` after `code` has been written to the innermost one.
pub open spec fn emit(frames: Seq<Seq<u8>>, code: Seq<u8>) -> Seq<Seq<u8>> {
    frames.update(frames.len() - 1, frames.last() + code)
}

/// Assembles bytecode, with one open buffer for each quotation that has been
/// begun and not yet closed.
///
/// Its view is the sequence of open buffers, the outermost first. There is
/// always at least one: the innermost, which is the one written to.
pub struct ByteCodeBuilder {
    outer: Vec<ByteCodeBuilderInner>,
    current: ByteCodeBuilderInner,
}

impl View for ByteCodeBuilder {
    type V = Seq<Seq<u8>>;

    closed spec fn view(&self) -> Seq<Seq<u8>> {
        Seq::new(self.outer@.len(), |i: int| self.outer@[i]@).push(self.current@)
    }
}

impl ByteCodeBuilder {
    /// A builder with one empty buffer.
    pub fn new() -> (b: ByteCodeBuilder)
        ensures
            b@ == seq![Seq::<u8>::empty()],
    {
        let b = ByteCodeBuilder { outer: Vec::new(), current: ByteCodeBuilderInner::new() };
        b
    }

    /// A builder always has a buffer to write to.
    pub proof fn lemma_has_buffer(&self)
        ensures
            self@.len() >= 1,
    {
    }

    /// How many quotations have been begun and not yet closed.
    pub fn open_quotes(&self) -> (n: usize)
        ensures
            n == self@.len() - 1,
    {
        self.outer.len()
    }

    /// Writes "push the literal `v`" to the innermost buffer.
    pub fn push_val(&mut self, v: u8)
        ensures
            final(self)@ == emit(old(self)@, push_code(v)),
    {
        self.current.push_val(v);
    }

    /// Writes the symbol `sym` to the innermost buffer.
    pub fn push_symbol(&mut self, sym: &str)
        ensures
            final(self)@ == emit(old(self)@, symbol_code(sym@)),
    {
        self.current.push_symbol(sym);
    }

    /// Writes the quotation whose body is `bc` to the innermost buffer.
    pub fn write_quote(&mut self, bc: &ByteCode)
        ensures
            final(self)@ == emit(old(self)@, quote_code(bc@)),
    {
        self.current.write_quote(bc);
    }

    /// Begins a quotation: opens a fresh, empty buffer.
    pub fn push_quote(&mut self)
        ensures
            final(self)@ == old(self)@.push(Seq::<u8>::empty()),
    {
        let mut enclosing = ByteCodeBuilderInner::new();
        std::mem::swap(&mut enclosing, &mut self.current);
        self.outer.push(enclosing);
    }

    /// Ends the quotation begun last: closes the innermost buffer and writes
    /// it, as a quotation, to the buffer below.
    pub fn pop_quote(&mut self)
        requires
            old(self)@.len() >= 2,
        ensures
            final(self)@ == emit(old(self)@.drop_last(), quote_code(old(self)@.last())),
    {
        let mut enclosing = self.outer.pop().unwrap();
        enclosing.write_quote(self.current.bytecode());
        self.current = enclosing;
    }

    /// The bytes of the innermost buffer.
    pub fn bytecode(&self) -> (code: &ByteCode)
        ensures
            code@ == self@.last(),
    {
        self.current.bytecode()
    }
}

/// Why a run of bytes could not be read as instructions.
#[derive(Debug, Clone, Copy, PartialEq, Eq)]
pub enum DecodeError {
    /// A byte was wanted at or after the end of the code.
    EndOfCode,
    /// An instruction begins with a byte that is no opcode. `index` is the
    /// position just after that byte.
    UnknownOpcode { index: usize, opcode: u8 },
}

/// What a decode error says.
pub open spec fn decode_message(e: DecodeError) -> Seq<char> {
    match e {
        DecodeError::EndOfCode => "Could not find code at index"@,
        DecodeError::UnknownOpcode { index, opcode } => "Index "@ + digits(index as nat)
            + ": Unknown opcode "@ + digits(opcode as nat),
    }
}

impl DecodeError {
    /// This error in words.
    pub fn message(&self) -> (s: String)
        ensures
            s@ == decode_message(*self),
    {
        match self {
            DecodeError::EndOfCode => String::from_str("Could not find code at index"),
            DecodeError::UnknownOpcode { index, opcode } => {
                let mut s = String::from_str("Index ");
                push_natural(&mut s, *index as u64);
                s.append(": Unknown opcode ");
                push_natural(&mut s, *opcode as u64);
                s
            },
        }
    }
}

/// What reading at some position gives: an item or an error, and the
/// position at which reading goes on.
pub struct Decoded {
    pub result: Result<Item, DecodeError>,
    pub next: int,
}

/// Where a symbol's name that begins at `i` ends: at the first zero byte, or
/// at the end of the code.
pub open spec fn name_end(code: Seq<u8>, i: int) -> int
    decreases code.len() - i,
{
    if 0 <= i < code.len() && code[i] != 0 {
        name_end(code, i + 1)
    } else {
        i
    }
}

/// Reading the payload of a push at `i`: one byte, the literal.
pub open spec fn push_at(code: Seq<u8>, i: int) -> Decoded {
    if 0 <= i < code.len() {
        Decoded { result: Ok(Item::Val(code[i] as i64)), next: i + 1 }
    } else {
        Decoded { result: Err(DecodeError::EndOfCode), next: i }
    }
}

/// Reading the payload of a symbol at `i`: the bytes up to a zero byte, which
/// is skipped, or up to the end of the code.
pub open spec fn symbol_at(code: Seq<u8>, i: int) -> Decoded {
    if 0 <= i < code.len() {
        let end = name_end(code, i);
        Decoded {
            result: Ok(Item::Symbol(bytes_name(code.subrange(i, end)))),
            next: if end < code.len() { end + 1 } else { end },
        }
    } else {
        Decoded { result: Ok(Item::Symbol(Seq::empty())), next: i }
    }
}

/// Reading the payload of a quotation at `i`: a length byte, then that many
/// bytes, or as many as are left.
pub open spec fn quote_at(code: Seq<u8>, i: int) -> Decoded {
    if 0 <= i < code.len() {
        let end = if i + 1 + code[i] <= code.len() { i + 1 + code[i] } else { code.len() as int };
        Decoded { result: Ok(Item::Quote(code.subrange(i + 1, end))), next: end }
    } else {
        Decoded { result: Err(DecodeError::EndOfCode), next: i }
    }
}

/// Reading one instruction at `i`: the opcode, then its payload.
pub open spec fn instruction_at(code: Seq<u8>, i: int) -> Decoded {
    if !(0 <= i < code.len()) {
        Decoded { result: Err(DecodeError::EndOfCode), next: i }
    } else if code[i] == PUSH {
        push_at(code, i + 1)
    } else if code[i] == SYMBOL {
        symbol_at(code, i + 1)
    } else if code[i] == QUOTE {
        quote_at(code, i + 1)
    } else {
        Decoded {
            result: Err(DecodeError::UnknownOpcode { index: (i + 1) as usize, opcode: code[i] }),
            next: i + 1,
        }
    }
}

/// A name ends no earlier than it begins and no later than the code; it ends
/// at a zero byte if inside the code, and holds no zero byte.
pub proof fn lemma_name_end(code: Seq<u8>, i: int)
    requires
        0 <= i,
    ensures
        i <= name_end(code, i),
        i <= code.len() ==> name_end(code, i) <= code.len(),
        name_end(code, i) < code.len() ==> code[name_end(code, i)] == 0,
        forall|j: int| i <= j < name_end(code, i) ==> code[j] != 0,
    decreases code.len() - i,
{
    if i < code.len() && code[i] != 0 {
        lemma_name_end(code, i + 1);
    }
}

/// Reading an instruction inside the code moves the position forward and
/// never past the end of the code.
pub proof fn lemma_instruction_advances(code: Seq<u8>, i: int)
    requires
        0 <= i < code.len(),
    ensures
        i < instruction_at(code, i).next <= code.len(),
        instruction_at(code, i).result matches Ok(Item::Quote(body)) ==> body.len() + 2
            <= code.len() - i,
{
    lemma_name_end(code, i + 1);
}

/// Whether the instruction `r` that was read is what `d` says.
pub open spec fn reads(r: Result<Instruction, DecodeError>, d: Decoded) -> bool {
    match r {
        Ok(instruction) => d.result == Ok::<Item, DecodeError>(instruction@->0),
        Err(e) => d.result == Err::<Item, DecodeError>(e),
    }
}

/// Reads instructions off a run of bytes, front to back.
pub struct ByteCodeParser<'a> {
    code: &'a ByteCode,
    idx: usize,
}

impl<'a> ByteCodeParser<'a> {
    /// The bytes being read.
    pub closed spec fn code(&self) -> Seq<u8> {
        self.code@
    }

    /// The position of the next byte to read.
    pub closed spec fn position(&self) -> int {
        self.idx as int
    }

    /// The length of the code fits in a machine word, so a position inside
    /// the code can always be moved on by one.
    pub proof fn lemma_code_fits(&self)
        ensures
            self.code().len() <= usize::MAX,
    {
        assert(self.code.len() == self.code@.len());
    }

    /// A parser at the start of `code`.
    pub fn new(code: &'a ByteCode) -> (p: ByteCodeParser<'a>)
        ensures
            p.code() == code@,
            p.position() == 0,
    {
        ByteCodeParser { code, idx: 0 }
    }

    /// Reads one instruction.
    pub fn read_instruction(&mut self) -> (r: Result<Instruction, DecodeError>)
        ensures
            final(self).code() == old(self).code(),
            reads(r, instruction_at(old(self).code(), old(self).position())),
            final(self).position() == instruction_at(old(self).code(), old(self).position()).next,
    {
        proof {
            self.lemma_code_fits();
        }
        let opcode = self.consume_code(self.idx)?;
        if opcode == PUSH {
            self.read_push_instruction()
        } else if opcode == SYMBOL {
            self.read_symbol()
        } else if opcode == QUOTE {
            self.read_quote()
        } else {
            Err(DecodeError::UnknownOpcode { index: self.idx, opcode })
        }
    }

    /// Reads the payload of a push.
    pub fn read_push_instruction(&mut self) -> (r: Result<Instruction, DecodeError>)
        ensures
            final(self).code() == old(self).code(),
            reads(r, push_at(old(self).code(), old(self).position())),
            final(self).position() == push_at(old(self).code(), old(self).position()).next,
    {
        proof {
            self.lemma_code_fits();
        }
        let val = self.consume_code(self.idx)?;
        Ok(Instruction::Push(StackItem::Val(val as i64)))
    }

    /// Reads the payload of a symbol.
    pub fn read_symbol(&mut self) -> (r: Result<Instruction, DecodeError>)
        ensures
            final(self).code() == old(self).code(),
            reads(r, symbol_at(old(self).code(), old(self).position())),
            final(self).position() == symbol_at(old(self).code(), old(self).position()).next,
    {
        let ghost start = self.idx as int;
        let ghost code = self.code@;
        let n: usize = self.code.len();
        let mut s = String::new();
        if self.idx >= n {
            return Ok(Instruction::Push(StackItem::Symbol(s)));
        }
        let mut ended: bool = false;
        while self.idx < n && !ended
            invariant
                self.code@ == code,
                n == code.len(),
                0 <= start <= self.idx <= n,
                name_end(code, start) == (if ended {
                    self.idx - 1
                } else {
                    name_end(code, self.idx as int)
                }),
                ended ==> start < self.idx,
                s@ == bytes_name(
                    code.subrange(start, if ended { self.idx - 1 } else { self.idx as int }),
                ),
            decreases n - self.idx,
        {
            let chr = self.code[self.idx];
            self.idx = self.idx + 1;
            if chr == 0 {
                ended = true;
            } else {
                push_char(&mut s, chr as char);
            }
        }
        Ok(Instruction::Push(StackItem::Symbol(s)))
    }

    /// Reads the payload of a quotation.
    pub fn read_quote(&mut self) -> (r: Result<Instruction, DecodeError>)
        ensures
            final(self).code() == old(self).code(),
            reads(r, quote_at(old(self).code(), old(self).position())),
            final(self).position() == quote_at(old(self).code(), old(self).position()).next,
    {
        let ghost start = self.idx as int;
        let ghost code = self.code@;
        let n: usize = self.code.len();
        let mut bc: ByteCode = Vec::new();
        let mut length = self.consume_code(self.idx)?;
        let ghost total = length as int;
        while self.idx < n && length > 0
            invariant
                self.code@ == code,
                n == code.len(),
                0 <= start < code.len(),
                total == code[start],
                self.idx == start + 1 + (total - length),
                self.idx <= n,
                0 <= length <= total,
                bc@ == code.subrange(start + 1, self.idx as int),
            decreases length,
        {
            let byte = self.code[self.idx];
            self.idx = self.idx + 1;
            bc.push(byte);
            length = length - 1;
        }
        Ok(Instruction::Push(StackItem::Quote(bc)))
    }

    /// Reads the byte at `idx` and moves the position on by one; at or after
    /// the end of the code it fails and the position stays.
    pub fn consume_code(&mut self, idx: usize) -> (r: Result<u8, DecodeError>)
        requires
            idx < old(self).code().len() ==> old(self).position() < usize::MAX,
        ensures
            final(self).code() == old(self).code(),
            idx < old(self).code().len() ==> r == Ok::<u8, DecodeError>(
                old(self).code()[idx as int],
            )
                && final(self).position() == old(self).position() + 1,
            idx >= old(self).code().len() ==> r == Err::<u8, DecodeError>(DecodeError::EndOfCode)
                && final(self).position() == old(self).position(),
    {
        if idx < self.code.len() {
            let byte = self.code[idx];
            self.idx = self.idx + 1;
            Ok(byte)
        } else {
            Err(DecodeError::EndOfCode)
        }
    }

    /// Whether any byte is left to read.
    pub fn has_bytes(&self) -> (b: bool)
        ensures
            b == (self.position() < self.code().len()),
    {
        self.idx < self.code.len()
    }
}

/// The text of the bytecode `code`: its instructions in order, separated by
/// single spaces, within square brackets. An integer is written in decimal, a
/// symbol by its name, a quotation as the text of its own bytecode.
pub open spec fn render(code: Seq<u8>) -> Result<Seq<char>, DecodeError>
    decreases code.len(), code.len() + 1,
{
    match render_from(code, 0) {
        Ok(body) => Ok(seq!['['] + body + seq![']']),
        Err(e) => Err(e),
    }
}

/// The text of the instructions of `code` from position `i` on, without the
/// brackets around them.
pub open spec fn render_from(code: Seq<u8>, i: int) -> Result<Seq<char>, DecodeError>
    decreases code.len(), code.len() - i,
{
    if !(0 <= i < code.len()) {
        Ok(Seq::empty())
    } else {
        let d = instruction_at(code, i);
        match d.result {
            Err(e) => Err(e),
            Ok(item) => {
                proof {
                    lemma_instruction_advances(code, i);
                }
                let text = match item {
                    Item::Val(v) => Ok(decimal(v as int)),
                    Item::Symbol(name) => Ok(name),
                    Item::Quote(body) => render(body),
                };
                match text {
                    Err(e) => Err(e),
                    Ok(text) => match render_from(code, d.next) {
                        Err(e) => Err(e),
                        Ok(rest) => Ok(text + gap(d.next < code.len()) + rest),
                    },
                }
            },
        }
    }
}

/// How an item is written within a listing: an integer in decimal, a symbol
/// by its name, a quotation as the text of its bytecode.
pub open spec fn shown(item: Item) -> Result<Seq<char>, DecodeError> {
    match item {
        Item::Val(v) => Ok(decimal(v as int)),
        Item::Symbol(name) => Ok(name),
        Item::Quote(body) => render(body),
    }
}

/// The items `stack` as a listing: each as it is shown, the first first,
/// separated by single spaces.
pub open spec fn listing(stack: Seq<Item>) -> Result<Seq<char>, DecodeError>
    decreases stack.len(),
{
    if stack.len() == 0 {
        Ok(Seq::empty())
    } else {
        match listing(stack.drop_last()) {
            Err(e) => Err(e),
            Ok(before) => match shown(stack.last()) {
                Err(e) => Err(e),
                Ok(text) => Ok(before + gap(stack.len() > 1) + text),
            },
        }
    }
}

/// What stands between two texts: one space if `wanted`, nothing otherwise.
pub open spec fn gap(wanted: bool) -> Seq<char> {
    if wanted {
        seq![' ']
    } else {
        Seq::empty()
    }
}

/// Writes `code` out as text: see [`render`].
pub fn bytecode_as_string(code: ByteCode) -> (r: Result<String, DecodeError>)
    ensures
        match r {
            Ok(s) => render(code@) == Ok::<Seq<char>, DecodeError>(s@),
            Err(e) => render(code@) == Err::<Seq<char>, DecodeError>(e),
        },
    decreases code@.len(),
{
    let mut parser = ByteCodeParser::new(&code);
    let mut parts = String::new();
    push_char(&mut parts, '[');
    while parser.has_bytes()
        invariant
            parser.code() == code@,
            0 <= parser.position(),
            render(code@) == match render_from(code@, parser.position()) {
                Ok(rest) => Ok::<Seq<char>, DecodeError>(parts@ + rest + seq![']']),
                Err(e) => Err(e),
            },
        decreases code@.len() - parser.position(),
    {
        let ghost at = parser.position();
        let ghost before = parts@;
        proof {
            lemma_instruction_advances(code@, at);
        }
        let i = parser.read_instruction()?;
        let ghost text: Seq<char>;
        match i {
            Instruction::Push(item) => match item {
                StackItem::Val(v) => {
                    push_decimal(&mut parts, v);
                    proof {
                        text = decimal(v as int);
                    }
                },
                StackItem::Symbol(s) => {
                    parts.append(s.as_str());
                    proof {
                        text = s@;
                    }
                },
                StackItem::Quote(bc) => {
                    let inner = bytecode_as_string(bc)?;
                    parts.append(inner.as_str());
                    proof {
                        text = inner@;
                    }
                },
            },
        }
        let more = parser.has_bytes();
        if more {
            push_char(&mut parts, ' ');
        }
        proof {
            if render_from(code@, parser.position()) is Ok {
                let rest = render_from(code@, parser.position())->Ok_0;
                assert(parts@ + rest + seq![']'] == before + (text + gap(more) + rest)
                    + seq![']']);
            }
        }
    }
    push_char(&mut parts, ']');
    Ok(parts)
}

/// Whether `item` can be written as one instruction and read back: an
/// integer from 0 to 255, a name of characters from 1 to 255, or a quotation
/// of at most 255 bytes.
pub open spec fn encodable(item: Item) -> bool {
    match item {
        Item::Val(v) => 0 <= v <= 255,
        Item::Symbol(name) => forall|i: int|
            0 <= i < name.len() ==> 1 <= #[trigger] name[i] as int <= 255,
        Item::Quote(body) => body.len() <= 255,
    }
}

/// The instruction that hands `item` to the evaluator, encoded.
pub open spec fn item_code(item: Item) -> Seq<u8> {
    match item {
        Item::Val(v) => push_code(v as u8),
        Item::Symbol(name) => symbol_code(name),
        Item::Quote(body) => quote_code(body),
    }
}

/// The instructions for `items`, one after another.
pub open spec fn items_code(items: Seq<Item>) -> Seq<u8>
    decreases items.len(),
{
    if items.len() == 0 {
        Seq::empty()
    } else {
        item_code(items.first()) + items_code(items.drop_first())
    }
}

/// The items of all the instructions of `code` from position `i` on, or the
/// first error met in reading them.
pub open spec fn items_at(code: Seq<u8>, i: int) -> Result<Seq<Item>, DecodeError>
    decreases code.len() - i,
{
    if !(0 <= i < code.len()) {
        Ok(Seq::empty())
    } else {
        let d = instruction_at(code, i);
        match d.result {
            Err(e) => Err(e),
            Ok(item) => {
                proof {
                    lemma_instruction_advances(code, i);
                }
                match items_at(code, d.next) {
                    Err(e) => Err(e),
                    Ok(rest) => Ok(seq![item] + rest),
                }
            },
        }
    }
}

/// The items of all the instructions of `code`.
pub open spec fn decode(code: Seq<u8>) -> Result<Seq<Item>, DecodeError> {
    items_at(code, 0)
}

/// In code where every byte from `i` up to `end` is not zero and the byte at
/// `end` is, the name that begins at `i` ends at `end`.
proof fn lemma_name_ends_at(code: Seq<u8>, i: int, end: int)
    requires
        0 <= i <= end < code.len(),
        code[end] == 0,
        forall|j: int| i <= j < end ==> code[j] != 0,
    ensures
        name_end(code, i) == end,
    decreases end - i,
{
    if i < end {
        lemma_name_ends_at(code, i + 1, end);
    }
}

/// An encodable item, written anywhere in a run of bytes, is read back from
/// there as it was, and reading goes on just behind it.
pub proof fn lemma_instruction_read_back(before: Seq<u8>, item: Item, after: Seq<u8>)
    requires
        encodable(item),
    ensures
        instruction_at(before + item_code(item) + after, before.len() as int) == (Decoded {
            result: Ok(item),
            next: (before.len() + item_code(item).len()) as int,
        }),
{
    let code = before + item_code(item) + after;
    let at = before.len() as int;
    match item {
        Item::Val(_) => {},
        Item::Symbol(name) => {
            let end = at + 1 + name.len();
            lemma_name_ends_at(code, at + 1, end);
            assert(bytes_name(code.subrange(at + 1, end)) =~= name);
        },
        Item::Quote(body) => {
            assert(code.subrange(at + 2, at + 2 + body.len()) =~= body);
        },
    }
}

/// Encodable items, written behind any run of bytes, are read back from there
/// as they were.
proof fn lemma_items_read_back(before: Seq<u8>, items: Seq<Item>)
    requires
        forall|i: int| 0 <= i < items.len() ==> encodable(#[trigger] items[i]),
    ensures
        items_at(before + items_code(items), before.len() as int) == Ok::<
            Seq<Item>,
            DecodeError,
        >(items),
    decreases items.len(),
{
    let code = before + items_code(items);
    if items.len() == 0 {
        assert(items =~= Seq::<Item>::empty());
    } else {
        let first = items.first();
        let rest = items.drop_first();
        assert(code =~= before + item_code(first) + items_code(rest));
        lemma_instruction_read_back(before, first, items_code(rest));
        lemma_items_read_back(before + item_code(first), rest);
        assert(items =~= seq![first] + rest);
    }
}

/// Writing one more instruction after others is appending its encoding.
pub proof fn lemma_items_code_push(items: Seq<Item>, item: Item)
    ensures
        items_code(items.push(item)) == items_code(items) + item_code(item),
    decreases items.len(),
{
    if items.len() == 0 {
        assert(items.push(item).drop_first() =~= Seq::<Item>::empty());
        assert(items_code(Seq::<Item>::empty()) =~= Seq::<u8>::empty());
    } else {
        assert(items.push(item).drop_first() =~= items.drop_first().push(item));
        lemma_items_code_push(items.drop_first(), item);
    }
}

/// Round trip: the instructions written for encodable items are read back
/// as exactly those items.
pub proof fn lemma_decode_encode(items: Seq<Item>)
    requires
        forall|i: int| 0 <= i < items.len() ==> encodable(#[trigger] items[i]),
    ensures
        decode(items_code(items)) == Ok::<Seq<Item>, DecodeError>(items),
{
    lemma_items_read_back(Seq::empty(), items);
}

/// Once a listing of the first items fails, every longer listing fails in
/// the same way.
pub proof fn lemma_listing_fails(stack: Seq<Item>, k: int)
    requires
        0 <= k <= stack.len(),
        listing(stack.take(k)) is Err,
    ensures
        listing(stack) == listing(stack.take(k)),
    decreases stack.len() - k,
{
    if k == stack.len() {
        assert(stack.take(k) == stack);
    } else {
        assert(stack.take(k + 1).drop_last() == stack.take(k));
        lemma_listing_fails(stack, k + 1);
    }
}

/// A listing begins with its first item, and the rest follows after a space.
pub proof fn lemma_listing_first(items: Seq<Item>)
    requires
        items.len() > 0,
    ensures
        listing(items) == match shown(items.first()) {
            Err(e) => Err::<Seq<char>, DecodeError>(e),
            Ok(text) => match listing(items.drop_first()) {
                Err(e) => Err(e),
                Ok(rest) => Ok(text + gap(items.len() > 1) + rest),
            },
        },
    decreases items.len(),
{
    let init = items.drop_last();
    let tail = items.drop_first();
    if items.len() == 1 {
        assert(shown(items.last()) == shown(items.first()));
    } else {
        lemma_listing_first(init);
        assert(tail.drop_last() =~= init.drop_first());
        match (shown(items.first()), listing(init.drop_first()), shown(items.last())) {
            (Ok(text), Ok(middle), Ok(last)) => {
                assert((text + gap(init.len() > 1) + middle) + gap(true) + last =~= text + gap(
                    true,
                ) + (middle + gap(tail.len() > 1) + last));
            },
            _ => {},
        }
    }
}

/// Rendering goes by the instructions alone: code that reads as `items` is
/// rendered as the listing of `items`.
proof fn lemma_render_from(code: Seq<u8>, i: int, items: Seq<Item>)
    requires
        0 <= i,
        items_at(code, i) == Ok::<Seq<Item>, DecodeError>(items),
    ensures
        render_from(code, i) == listing(items),
        items.len() > 0 <==> i < code.len(),
    decreases code.len() - i,
{
    if i < code.len() {
        let d = instruction_at(code, i);
        lemma_instruction_advances(code, i);
        let rest = items_at(code, d.next)->Ok_0;
        assert(items.drop_first() =~= rest);
        lemma_render_from(code, d.next, rest);
        lemma_listing_first(items);
    }
}

/// The text of bytecode is the listing of its instructions within square
/// brackets, whenever the bytecode can be read to its end.
pub proof fn lemma_render_decoded(code: Seq<u8>, items: Seq<Item>)
    requires
        decode(code) == Ok::<Seq<Item>, DecodeError>(items),
    ensures
        render(code) == match listing(items) {
            Ok(text) => Ok::<Seq<char>, DecodeError>(seq!['['] + text + seq![']']),
            Err(e) => Err(e),
        },
{
    lemma_render_from(code, 0, items);
}

} // verus!
