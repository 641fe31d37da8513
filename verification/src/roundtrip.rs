//! What the printer writes, the compiler reads: the text of a program
//! compiles to a quotation of that same program.

use vstd::prelude::*;
use crate::bytecode::{
    bytes_name, decode, emit, gap, instruction_at, items_code, lemma_decode_encode,
    lemma_instruction_advances, lemma_name_end, name_end, push_code, quote_code, render,
    render_from, shown, symbol_code, DecodeError,
};
use crate::compiler::{
    classify, compile_from, compiled, ends_word, lemma_scan_advances, scan, word_end, Compiled,
    Lexeme, Scan, TokenKind,
};
use crate::decimal::{digits, lemma_digits, reads_as_i32, reads_as_u8};
use crate::machine::{Item, PUSH, QUOTE, SYMBOL};

verus! {

/// Whether `name` is written as one word that is read back as a symbol: it is
/// not empty, holds no space, bracket or line break, and is no numeral.
pub open spec fn plain_word(name: Seq<char>) -> bool {
    &&& name.len() > 0
    &&& forall|k: int| 0 <= k < name.len() ==> !ends_word(#[trigger] name[k])
    &&& !reads_as_i32(name)
}

/// Whether `code` is a program whose text can be read back: whole
/// instructions only, every symbol a plain word, and every quotation such a
/// program itself.
pub open spec fn printable(code: Seq<u8>) -> bool
    decreases code.len(), code.len() + 1,
{
    printable_from(code, 0)
}

/// Whether `code` from position `i` on is a program whose text can be read
/// back.
pub open spec fn printable_from(code: Seq<u8>, i: int) -> bool
    decreases code.len(), code.len() - i,
{
    if !(0 <= i < code.len()) {
        true
    } else if code[i] == PUSH {
        i + 1 < code.len() && printable_from(code, i + 2)
    } else if code[i] == SYMBOL {
        let end = name_end(code, i + 1);
        proof {
            lemma_name_end(code, i + 1);
        }
        &&& end < code.len()
        &&& plain_word(bytes_name(code.subrange(i + 1, end)))
        &&& printable_from(code, end + 1)
    } else if code[i] == QUOTE {
        &&& i + 1 < code.len()
        &&& i + 2 + code[i + 1] <= code.len()
        &&& printable(code.subrange(i + 2, i + 2 + code[i + 1]))
        &&& printable_from(code, i + 2 + code[i + 1])
    } else {
        false
    }
}

/// The numeral of a byte is read back as that byte.
pub proof fn lemma_byte_numeral(v: u8)
    ensures
        reads_as_i32(digits(v as nat)),
        reads_as_u8(digits(v as nat)) == Some(v),
        forall|k: int|
            0 <= k < digits(v as nat).len() ==> !ends_word(#[trigger] digits(v as nat)[k]),
        digits(v as nat).len() > 0,
{
    lemma_digits(v as nat);
}

/// A run of word characters that is followed by something else, or by
/// nothing, is a whole word.
pub proof fn lemma_word_end_at(s: Seq<char>, start: int, end: int)
    requires
        0 <= start <= end <= s.len(),
        forall|j: int| start <= j < end ==> !ends_word(#[trigger] s[j]),
        end < s.len() ==> ends_word(s[end]),
    ensures
        word_end(s, start) == end,
    decreases end - start,
{
    if start < end {
        lemma_word_end_at(s, start + 1, end);
    }
}

/// Scanning at a word that is followed by a space or a closing bracket finds
/// that word and stops behind it.
pub proof fn lemma_scan_word(s: Seq<char>, p: int, word: Seq<char>)
    requires
        0 <= p,
        word.len() > 0,
        p + word.len() < s.len(),
        s.subrange(p, p + word.len()) == word,
        forall|k: int| 0 <= k < word.len() ==> !ends_word(#[trigger] word[k]),
        s[p + word.len()] == ' ' || s[p + word.len()] == ']',
    ensures
        scan(s, p) == (Scan {
            token: Some(Lexeme { kind: classify(word), text: word, position: p }),
            next: p + word.len(),
        }),
{
    let end = p + word.len();
    assert forall|j: int| p <= j < end implies !ends_word(#[trigger] s[j]) by {
        assert(s[j] == word[j - p]);
    }
    lemma_word_end_at(s, p, end);
}

/// Scanning at a square bracket finds it and stops behind it.
pub proof fn lemma_scan_bracket(s: Seq<char>, p: int)
    requires
        0 <= p < s.len(),
        s[p] == '[' || s[p] == ']',
    ensures
        scan(s, p) == (Scan {
            token: Some(
                Lexeme {
                    kind: if s[p] == '[' {
                        TokenKind::QuoteOpen
                    } else {
                        TokenKind::QuoteClose
                    },
                    text: seq![s[p]],
                    position: p,
                },
            ),
            next: p + 1,
        }),
{
    if s[p] == '[' {
        assert(seq![s[p]] =~= seq!['[']);
    } else {
        assert(seq![']'][0] != seq!['['][0]);
    }
}

/// A space before a token changes nothing.
pub proof fn lemma_skip_space(s: Seq<char>, p: int, frames: Seq<Seq<u8>>)
    requires
        0 <= p < s.len(),
        s[p] == ' ',
    ensures
        compile_from(s, p, frames) == compile_from(s, p + 1, frames),
{
}

/// A printable program has a text.
pub proof fn lemma_printable_renders(code: Seq<u8>, i: int)
    requires
        0 <= i,
        printable_from(code, i),
    ensures
        render_from(code, i) is Ok,
    decreases code.len(), code.len() - i,
{
    if i < code.len() {
        let d = instruction_at(code, i);
        lemma_instruction_advances(code, i);
        if code[i] == QUOTE {
            let inner = code.subrange(i + 2, i + 2 + code[i + 1]);
            assert(printable(inner));
            lemma_printable_renders(inner, 0);
            assert(render(inner) is Ok);
        } else if code[i] == SYMBOL {
            lemma_name_end(code, i + 1);
        }
        lemma_printable_renders(code, d.next);
    }
}

/// Writing to the innermost buffer twice is writing both at once.
proof fn lemma_emit_twice(frames: Seq<Seq<u8>>, first: Seq<u8>, second: Seq<u8>)
    requires
        frames.len() >= 1,
    ensures
        emit(emit(frames, first), second) == emit(frames, first + second),
{
    assert(emit(emit(frames, first), second) =~= emit(frames, first + second)) by {
        assert((frames.last() + first) + second =~= frames.last() + (first + second));
    }
}

/// Whether `body` stands in `s` at `p` and is followed by a closing bracket.
pub open spec fn stands(s: Seq<char>, p: int, body: Seq<char>) -> bool {
    &&& 0 <= p
    &&& p + body.len() < s.len()
    &&& s.subrange(p, p + body.len()) == body
    &&& s[p + body.len()] == ']'
}

/// Where a text stands that is made of three parts, the first part stands,
/// followed by what follows it in the text; and so does the last.
proof fn lemma_parts(s: Seq<char>, p: int, text: Seq<char>, space: Seq<char>, rest: Seq<char>)
    requires
        stands(s, p, text + space + rest),
        space.len() <= 1,
    ensures
        s.subrange(p, p + text.len()) == text,
        s.subrange(p + text.len() + space.len(), p + text.len() + space.len() + rest.len())
            == rest,
        space.len() == 1 ==> s[p + text.len()] == space[0],
        space.len() == 0 && rest.len() == 0 ==> s[p + text.len()] == ']',
        stands(s, p + text.len() + space.len(), rest),
{
    let body = text + space + rest;
    assert(s.subrange(p, p + text.len()) =~= text) by {
        assert forall|k: int| 0 <= k < text.len() implies s[p + k] == text[k] by {
            assert(body[k] == text[k]);
        }
    }
    let q = p + text.len() + space.len();
    assert(s.subrange(q, q + rest.len()) =~= rest) by {
        assert forall|k: int| 0 <= k < rest.len() implies s[q + k] == rest[k] by {
            assert(s[p + (text.len() + space.len() + k)] == body[text.len() + space.len() + k]);
        }
    }
    if space.len() == 1 {
        assert(s[p + text.len()] == body[text.len() as int]);
    }
}

/// Compiling a byte's numeral that stands in `s` at `p` writes a push of
/// that byte and goes on behind the numeral.
proof fn lemma_push_compiles(v: u8, s: Seq<char>, p: int, frames: Seq<Seq<u8>>)
    requires
        0 <= p,
        p + digits(v as nat).len() < s.len(),
        s.subrange(p, p + digits(v as nat).len()) == digits(v as nat),
        s[p + digits(v as nat).len()] == ' ' || s[p + digits(v as nat).len()] == ']',
    ensures
        compile_from(s, p, frames) == compile_from(
            s,
            p + digits(v as nat).len(),
            emit(frames, push_code(v)),
        ),
{
    lemma_byte_numeral(v);
    lemma_scan_word(s, p, digits(v as nat));
}

/// Compiling a plain word that stands in `s` at `p` writes it as a symbol and
/// goes on behind the word.
proof fn lemma_symbol_compiles(name: Seq<char>, s: Seq<char>, p: int, frames: Seq<Seq<u8>>)
    requires
        0 <= p,
        plain_word(name),
        p + name.len() < s.len(),
        s.subrange(p, p + name.len()) == name,
        s[p + name.len()] == ' ' || s[p + name.len()] == ']',
    ensures
        compile_from(s, p, frames) == compile_from(
            s,
            p + name.len(),
            emit(frames, symbol_code(name)),
        ),
{
    lemma_scan_word(s, p, name);
}

/// The text of the instruction of `code` at `i`.
pub open spec fn first_text(code: Seq<u8>, i: int) -> Seq<char> {
    shown(instruction_at(code, i).result->Ok_0)->Ok_0
}

/// The text of a printable program is the text of its first instruction, a
/// space if more follows, and the text of what follows.
proof fn lemma_body_parts(code: Seq<u8>, i: int)
    requires
        0 <= i < code.len(),
        printable_from(code, i),
    ensures
        i < instruction_at(code, i).next <= code.len(),
        printable_from(code, instruction_at(code, i).next),
        render_from(code, instruction_at(code, i).next) is Ok,
        instruction_at(code, i).next >= code.len() ==> render_from(
            code,
            instruction_at(code, i).next,
        )->Ok_0.len() == 0,
        render_from(code, i) == Ok::<Seq<char>, DecodeError>(
            first_text(code, i) + gap(instruction_at(code, i).next < code.len()) + render_from(
                code,
                instruction_at(code, i).next,
            )->Ok_0,
        ),
{
    let next = instruction_at(code, i).next;
    lemma_instruction_advances(code, i);
    if code[i] == QUOTE {
        let inner = code.subrange(i + 2, i + 2 + code[i + 1]);
        assert(printable(inner));
        lemma_printable_renders(inner, 0);
    } else if code[i] == SYMBOL {
        lemma_name_end(code, i + 1);
    }
    lemma_printable_renders(code, next);
}

/// Compiling the text of a printable quotation that stands in `s` at `p`
/// writes that quotation and goes on behind its closing bracket.
proof fn lemma_quote_compiles(inner: Seq<u8>, s: Seq<char>, p: int, frames: Seq<Seq<u8>>)
    requires
        printable(inner),
        0 <= p,
        frames.len() >= 1,
        render(inner) is Ok,
        p + render(inner)->Ok_0.len() <= s.len(),
        s.subrange(p, p + render(inner)->Ok_0.len()) == render(inner)->Ok_0,
    ensures
        compile_from(s, p, frames) == compile_from(
            s,
            p + render(inner)->Ok_0.len(),
            emit(frames, quote_code(inner)),
        ),
    decreases inner.len(), 3int, 0int,
{
    lemma_printable_renders(inner, 0);
    let within = render_from(inner, 0)->Ok_0;
    let text = seq!['['] + within + seq![']'];
    assert(s[p] == '[') by {
        assert(s[p + 0] == text[0]);
    }
    let close = p + 1 + within.len();
    assert(s[close] == ']') by {
        assert(s[p + (1 + within.len())] == text[1 + within.len() as int]);
    }
    assert(s.subrange(p + 1, close) =~= within) by {
        assert forall|k: int| 0 <= k < within.len() implies s[p + 1 + k] == within[k] by {
            assert(s[p + (1 + k)] == text[1 + k]);
        }
    }
    lemma_scan_bracket(s, p);
    let opened = frames.push(Seq::<u8>::empty());
    lemma_text_compiles(inner, 0, s, p + 1, opened);
    let filled = emit(opened, inner.subrange(0, inner.len() as int));
    assert(filled.last() =~= inner);
    assert(filled.drop_last() =~= frames);
    lemma_scan_bracket(s, close);
}

/// Compiling the text of one instruction of a printable program, where it
/// stands in `s` at `p` before a space or a closing bracket, writes that
/// instruction and goes on behind the text.
proof fn lemma_first_compiles(code: Seq<u8>, i: int, s: Seq<char>, p: int, frames: Seq<Seq<u8>>)
    requires
        0 <= i < code.len(),
        printable_from(code, i),
        frames.len() >= 1,
        0 <= p,
        p + first_text(code, i).len() < s.len(),
        s.subrange(p, p + first_text(code, i).len()) == first_text(code, i),
        s[p + first_text(code, i).len()] == ' ' || s[p + first_text(code, i).len()] == ']',
    ensures
        compile_from(s, p, frames) == compile_from(
            s,
            p + first_text(code, i).len(),
            emit(frames, code.subrange(i, instruction_at(code, i).next)),
        ),
    decreases code.len(), 1int, 0int,
{
    let text = first_text(code, i);
    let next = instruction_at(code, i).next;
    let written = code.subrange(i, next);
    lemma_instruction_advances(code, i);
    if code[i] == PUSH {
        let v = code[i + 1];
        assert(written =~= push_code(v));
        lemma_push_compiles(v, s, p, frames);
    } else if code[i] == SYMBOL {
        lemma_name_end(code, i + 1);
        assert(written =~= symbol_code(text));
        lemma_symbol_compiles(text, s, p, frames);
    } else {
        let inner = code.subrange(i + 2, i + 2 + code[i + 1]);
        assert(printable(inner));
        lemma_printable_renders(inner, 0);
        assert(written =~= quote_code(inner));
        lemma_quote_compiles(inner, s, p, frames);
    }
}

/// Compiling the text of a printable program that stands in `s` at `p`,
/// followed by a closing bracket, writes that program to the innermost
/// buffer and goes on behind the text.
proof fn lemma_text_compiles(code: Seq<u8>, i: int, s: Seq<char>, p: int, frames: Seq<Seq<u8>>)
    requires
        0 <= i <= code.len(),
        printable_from(code, i),
        frames.len() >= 1,
        render_from(code, i) is Ok,
        stands(s, p, render_from(code, i)->Ok_0),
    ensures
        compile_from(s, p, frames) == compile_from(
            s,
            p + render_from(code, i)->Ok_0.len(),
            emit(frames, code.subrange(i, code.len() as int)),
        ),
    decreases code.len(), 2int, code.len() - i,
{
    let len = code.len() as int;
    if i == len {
        assert(emit(frames, code.subrange(i, len)) =~= frames);
    } else {
        let next = instruction_at(code, i).next;
        let text = first_text(code, i);
        let space = gap(next < len);
        let rest = render_from(code, next)->Ok_0;
        let written = code.subrange(i, next);
        let after = emit(frames, written);
        lemma_body_parts(code, i);
        lemma_parts(s, p, text, space, rest);
        lemma_first_compiles(code, i, s, p, frames);
        lemma_emit_twice(frames, written, code.subrange(next, len));
        assert(written + code.subrange(next, len) =~= code.subrange(i, len));
        if next < len {
            lemma_skip_space(s, p + text.len(), after);
            lemma_text_compiles(code, next, s, p + text.len() + 1, after);
        }
    }
}

/// Round trip through text: the text of a printable program compiles to one
/// quotation, which holds that program.
pub proof fn lemma_text_round_trip(code: Seq<u8>)
    requires
        printable(code),
    ensures
        render(code) is Ok,
        compiled(render(code)->Ok_0, 0) == (Compiled {
            result: Ok(quote_code(code)),
            next: render(code)->Ok_0.len() as int,
        }),
{
    lemma_printable_renders(code, 0);
    let s = render(code)->Ok_0;
    let start = seq![Seq::<u8>::empty()];
    assert(s.subrange(0, s.len() as int) =~= s);
    lemma_quote_compiles(code, s, 0, start);
    lemma_scan_advances(s, s.len() as int);
}

/// Round trip through text, read as instructions: the text of a printable
/// program of at most 255 bytes compiles to bytecode that holds one
/// instruction, the quotation of that program.
pub proof fn lemma_text_decodes(code: Seq<u8>)
    requires
        printable(code),
        code.len() <= 255,
    ensures
        render(code) is Ok,
        compiled(render(code)->Ok_0, 0).result is Ok,
        decode(compiled(render(code)->Ok_0, 0).result->Ok_0) == Ok::<Seq<Item>, DecodeError>(
            seq![Item::Quote(code)],
        ),
{
    lemma_text_round_trip(code);
    let item = Item::Quote(code);
    lemma_decode_encode(seq![item]);
    assert(seq![item].drop_first() =~= Seq::<Item>::empty());
    assert(items_code(Seq::<Item>::empty()) =~= Seq::<u8>::empty());
}

} // verus!
