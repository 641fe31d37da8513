//! From source text to bytecode: a scanner that cuts the text into tokens,
//! and a compiler that writes each token out through the bytecode builder.

use vstd::prelude::*;
use crate::bytecode::{emit, push_code, quote_code, symbol_code, ByteCode, ByteCodeBuilder};
use crate::decimal::{digits, is_i32, push_natural, reads_as_i32, reads_as_u8, to_u8};
use crate::text::{chars_of, string_of};

verus! {

/// What a token is.
#[derive(Debug, Clone, Copy, PartialEq, Eq)]
pub enum TokenKind {
    /// A base-10 integer.
    Int,
    /// Any other word.
    Symbol,
    /// `[`
    QuoteOpen,
    /// `]`
    QuoteClose,
}

/// The mathematical value of a [`Token`].
pub struct Lexeme {
    pub kind: TokenKind,
    pub text: Seq<char>,
    pub position: int,
}

/// One token of the source text.
#[derive(Debug, PartialEq, Eq)]
pub struct Token {
    /// What the token is.
    pub kind: TokenKind,
    /// The characters of the token.
    pub text: String,
    /// Where the token begins in the source, counted in characters.
    pub position: usize,
}

impl View for Token {
    type V = Lexeme;

    open spec fn view(&self) -> Lexeme {
        Lexeme { kind: self.kind, text: self.text@, position: self.position as int }
    }
}

impl Clone for Token {
    fn clone(&self) -> (r: Self)
        ensures
            r@ == self@,
    {
        Token { kind: self.kind, text: self.text.clone(), position: self.position }
    }
}

/// Whether `c` is a square bracket.
pub open spec fn is_bracket(c: char) -> bool {
    c == '[' || c == ']'
}

/// Whether `c` ends a line.
pub open spec fn is_break(c: char) -> bool {
    c == '\n' || c == '\r'
}

/// Whether `c` cannot be part of a word.
pub open spec fn ends_word(c: char) -> bool {
    c == ' ' || is_bracket(c) || is_break(c)
}

/// The first position at or after `i` that holds no space.
pub open spec fn after_spaces(s: Seq<char>, i: int) -> int
    decreases s.len() - i,
{
    if 0 <= i < s.len() && s[i] == ' ' {
        after_spaces(s, i + 1)
    } else {
        i
    }
}

/// The first position at or after `i` that holds no character of a word.
pub open spec fn word_end(s: Seq<char>, i: int) -> int
    decreases s.len() - i,
{
    if 0 <= i < s.len() && !ends_word(s[i]) {
        word_end(s, i + 1)
    } else {
        i
    }
}

/// What a token with the characters `text` is.
pub open spec fn classify(text: Seq<char>) -> TokenKind {
    if text == seq!['['] {
        TokenKind::QuoteOpen
    } else if text == seq![']'] {
        TokenKind::QuoteClose
    } else if reads_as_i32(text) {
        TokenKind::Int
    } else {
        TokenKind::Symbol
    }
}

/// What scanning from some position finds: a token or none, and the position
/// at which scanning goes on.
pub struct Scan {
    pub token: Option<Lexeme>,
    pub next: int,
}

/// Scanning `s` from position `i`.
///
/// Spaces are skipped. At the end of the text, or at a line break, there is
/// no token; the line break is passed over. A square bracket is a token by
/// itself. Anything else begins a word, which runs up to the next space,
/// bracket or line break, or to the end of the text; a line break that ends
/// a word is passed over with it.
pub open spec fn scan(s: Seq<char>, i: int) -> Scan {
    let start = after_spaces(s, i);
    if !(0 <= start < s.len()) {
        Scan { token: None, next: start }
    } else if is_break(s[start]) {
        Scan { token: None, next: start + 1 }
    } else if is_bracket(s[start]) {
        Scan {
            token: Some(
                Lexeme { kind: classify(seq![s[start]]), text: seq![s[start]], position: start },
            ),
            next: start + 1,
        }
    } else {
        let end = word_end(s, start);
        let text = s.subrange(start, end);
        Scan {
            token: Some(Lexeme { kind: classify(text), text, position: start }),
            next: if end < s.len() && is_break(s[end]) {
                end + 1
            } else {
                end
            },
        }
    }
}

/// Skipping spaces goes forward and stays within the text.
pub proof fn lemma_after_spaces(s: Seq<char>, i: int)
    requires
        0 <= i,
    ensures
        i <= after_spaces(s, i),
        i <= s.len() ==> after_spaces(s, i) <= s.len(),
        after_spaces(s, i) < s.len() ==> s[after_spaces(s, i)] != ' ',
    decreases s.len() - i,
{
    if i < s.len() && s[i] == ' ' {
        lemma_after_spaces(s, i + 1);
    }
}

/// A word ends no earlier than it begins and within the text.
pub proof fn lemma_word_end(s: Seq<char>, i: int)
    requires
        0 <= i,
    ensures
        i <= word_end(s, i),
        i <= s.len() ==> word_end(s, i) <= s.len(),
        word_end(s, i) < s.len() ==> ends_word(s[word_end(s, i)]),
        forall|j: int| i <= j < word_end(s, i) ==> !ends_word(s[j]),
    decreases s.len() - i,
{
    if i < s.len() && !ends_word(s[i]) {
        lemma_word_end(s, i + 1);
    }
}

/// A scan that finds a token moves forward, and no scan from within the text
/// leaves it.
pub proof fn lemma_scan_advances(s: Seq<char>, i: int)
    ensures
        0 <= i <= s.len() ==> i <= scan(s, i).next <= s.len(),
        scan(s, i).token is Some ==> 0 <= i < scan(s, i).next <= s.len(),
{
    if 0 <= i {
        lemma_after_spaces(s, i);
        lemma_word_end(s, after_spaces(s, i));
        lemma_word_end(s, after_spaces(s, i) + 1);
    }
}

/// Why a source text could not be compiled.
#[derive(Debug, PartialEq, Eq)]
pub enum CompileError {
    /// An integer does not fit in one byte. `text` is the token and
    /// `position` is where it begins, counted in characters.
    BadInteger { text: String, position: usize },
    /// A `]` closes no quotation. `position` is where it stands.
    UnmatchedClose { position: usize },
    /// The text ended with `open` quotations still open.
    UnclosedQuote { open: usize },
}

/// The mathematical value of a [`CompileError`].
pub enum Fault {
    BadInteger { text: Seq<char>, position: int },
    UnmatchedClose { position: int },
    UnclosedQuote { open: int },
}

impl View for CompileError {
    type V = Fault;

    open spec fn view(&self) -> Fault {
        match self {
            CompileError::BadInteger { text, position } => Fault::BadInteger {
                text: text@,
                position: *position as int,
            },
            CompileError::UnmatchedClose { position } => Fault::UnmatchedClose {
                position: *position as int,
            },
            CompileError::UnclosedQuote { open } => Fault::UnclosedQuote { open: *open as int },
        }
    }
}

/// What a compile error says.
pub open spec fn fault_message(f: Fault) -> Seq<char> {
    match f {
        Fault::BadInteger { text, position } => "Integer "@ + text + " at "@ + digits(
            position as nat,
        ) + " does not fit in a byte"@,
        Fault::UnmatchedClose { position } => "Unmatched ] at "@ + digits(position as nat),
        Fault::UnclosedQuote { open } => "Unclosed [: "@ + digits(open as nat),
    }
}

impl CompileError {
    /// This error in words.
    pub fn message(&self) -> (s: String)
        ensures
            s@ == fault_message(self@),
    {
        match self {
            CompileError::BadInteger { text, position } => {
                let mut s = String::from_str("Integer ");
                s.append(text.as_str());
                s.append(" at ");
                push_natural(&mut s, *position as u64);
                s.append(" does not fit in a byte");
                s
            },
            CompileError::UnmatchedClose { position } => {
                let mut s = String::from_str("Unmatched ] at ");
                push_natural(&mut s, *position as u64);
                s
            },
            CompileError::UnclosedQuote { open } => {
                let mut s = String::from_str("Unclosed [: ");
                push_natural(&mut s, *open as u64);
                s
            },
        }
    }
}

/// What compiling gives: bytecode or a fault, and the position at which the
/// compiler stopped.
pub struct Compiled {
    pub result: Result<Seq<u8>, Fault>,
    pub next: int,
}

/// Compiling `s` from position `i` on, with `frames` the buffers of the
/// quotations that are open, the outermost first.
///
/// Tokens are taken until a scan finds none. An integer becomes a push of its
/// value, which must fit in a byte; a symbol is written by name; `[` opens a
/// buffer; `]` closes the innermost buffer and writes it as a quotation to
/// the one below. When no token is left, every quotation must be closed, and
/// the outermost buffer is the result.
pub open spec fn compile_from(s: Seq<char>, i: int, frames: Seq<Seq<u8>>) -> Compiled
    decreases s.len() - i,
{
    let found = scan(s, i);
    match found.token {
        None => Compiled {
            result: if frames.len() == 1 {
                Ok(frames[0])
            } else {
                Err(Fault::UnclosedQuote { open: frames.len() - 1 })
            },
            next: found.next,
        },
        Some(token) => {
            proof {
                lemma_scan_advances(s, i);
            }
            match token.kind {
                TokenKind::Int => match reads_as_u8(token.text) {
                    Some(v) => compile_from(s, found.next, emit(frames, push_code(v))),
                    None => Compiled {
                        result: Err(
                            Fault::BadInteger { text: token.text, position: token.position },
                        ),
                        next: found.next,
                    },
                },
                TokenKind::Symbol => compile_from(
                    s,
                    found.next,
                    emit(frames, symbol_code(token.text)),
                ),
                TokenKind::QuoteOpen => compile_from(
                    s,
                    found.next,
                    frames.push(Seq::empty()),
                ),
                TokenKind::QuoteClose => if frames.len() >= 2 {
                    compile_from(
                        s,
                        found.next,
                        emit(frames.drop_last(), quote_code(frames.last())),
                    )
                } else {
                    Compiled {
                        result: Err(Fault::UnmatchedClose { position: token.position }),
                        next: found.next,
                    }
                },
            }
        },
    }
}

/// Compiling `s` from position `i` on, nothing being open.
pub open spec fn compiled(s: Seq<char>, i: int) -> Compiled {
    compile_from(s, i, seq![Seq::<u8>::empty()])
}

/// Compiles one source text, token by token.
pub struct Compiler {
    chars: Vec<char>,
    pos: usize,
}

impl Compiler {
    /// The source text.
    pub closed spec fn source(&self) -> Seq<char> {
        self.chars@
    }

    /// The position of the next character to scan.
    pub closed spec fn position(&self) -> int {
        self.pos as int
    }

    /// A compiler at the start of `code`.
    pub fn new(code: &str) -> (c: Compiler)
        ensures
            c.source() == code@,
            c.position() == 0,
    {
        Compiler { chars: chars_of(code), pos: 0 }
    }

    /// Compiles the text from the current position on: see [`compile_from`].
    pub fn compile(&mut self) -> (r: Result<ByteCode, CompileError>)
        ensures
            final(self).source() == old(self).source(),
            final(self).position() == compiled(old(self).source(), old(self).position()).next,
            match r {
                Ok(code) => compiled(old(self).source(), old(self).position()).result == Ok::<
                    Seq<u8>,
                    Fault,
                >(code@),
                Err(e) => compiled(old(self).source(), old(self).position()).result == Err::<
                    Seq<u8>,
                    Fault,
                >(e@),
            },
    {
        let mut builder = ByteCodeBuilder::new();
        loop
            invariant_except_break
                compile_from(self.source(), self.position(), builder@) == compiled(
                    old(self).source(),
                    old(self).position(),
                ),
            invariant
                self.source() == old(self).source(),
                builder@.len() >= 1,
            ensures
                compiled(old(self).source(), old(self).position()).next == self.position(),
                compiled(old(self).source(), old(self).position()).result == (if builder@.len()
                    == 1 {
                    Ok::<Seq<u8>, Fault>(builder@[0])
                } else {
                    Err::<Seq<u8>, Fault>(Fault::UnclosedQuote { open: builder@.len() - 1 })
                }),
            decreases self.source().len() - self.position(),
        {
            proof {
                lemma_scan_advances(self.source(), self.position());
            }
            let token = match self.consume_token() {
                Some(token) => token,
                None => {
                    break ;
                },
            };
            match token.kind {
                TokenKind::Int => match to_u8(token.text.as_str()) {
                    Some(val) => {
                        builder.push_val(val);
                    },
                    None => {
                        return Err(
                            CompileError::BadInteger {
                                text: token.text,
                                position: token.position,
                            },
                        );
                    },
                },
                TokenKind::Symbol => {
                    builder.push_symbol(token.text.as_str());
                },
                TokenKind::QuoteOpen => {
                    builder.push_quote();
                },
                TokenKind::QuoteClose => {
                    if builder.open_quotes() == 0 {
                        return Err(CompileError::UnmatchedClose { position: token.position });
                    }
                    builder.pop_quote();
                },
            }
        }
        let open = builder.open_quotes();
        if open > 0 {
            return Err(CompileError::UnclosedQuote { open });
        }
        Ok(builder.bytecode().clone())
    }

    /// Scans the next token: see [`scan`].
    pub fn consume_token(&mut self) -> (r: Option<Token>)
        ensures
            final(self).source() == old(self).source(),
            final(self).position() == scan(old(self).source(), old(self).position()).next,
            match r {
                Some(token) => scan(old(self).source(), old(self).position()).token == Some(
                    token@,
                ),
                None => scan(old(self).source(), old(self).position()).token is None,
            },
    {
        let n: usize = self.chars.len();
        let ghost s = self.chars@;
        let ghost from = self.pos as int;
        while self.pos < n && self.chars[self.pos] == ' '
            invariant
                self.chars@ == s,
                n == s.len(),
                after_spaces(s, from) == after_spaces(s, self.pos as int),
            decreases n - self.pos,
        {
            self.pos = self.pos + 1;
        }
        if self.pos >= n {
            return None;
        }
        let start: usize = self.pos;
        let c = self.chars[start];
        if c == '\n' || c == '\r' {
            self.pos = start + 1;
            return None;
        }
        if c == '[' || c == ']' {
            self.pos = start + 1;
            let text = string_of(&self.chars, start, start + 1);
            assert(text@ == seq![c]);
            let kind = if c == '[' {
                TokenKind::QuoteOpen
            } else {
                TokenKind::QuoteClose
            };
            return Some(Token { kind, text, position: start });
        }
        let mut end: usize = start;
        while end < n && !is_word_end(self.chars[end])
            invariant
                self.chars@ == s,
                n == s.len(),
                start <= end <= n,
                word_end(s, start as int) == word_end(s, end as int),
            decreases n - end,
        {
            end = end + 1;
        }
        let text = string_of(&self.chars, start, end);
        self.pos = if end < n && (self.chars[end] == '\n' || self.chars[end] == '\r') {
            end + 1
        } else {
            end
        };
        proof {
            assert(text@ != seq![']']);
        }
        let kind = if is_i32(text.as_str()) {
            TokenKind::Int
        } else {
            TokenKind::Symbol
        };
        Some(Token { kind, text, position: start })
    }
}

/// Whether `c` cannot be part of a word.
fn is_word_end(c: char) -> (b: bool)
    ensures
        b == ends_word(c),
{
    c == ' ' || c == '[' || c == ']' || c == '\n' || c == '\r'
}

} // verus!
