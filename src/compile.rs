use vstd::prelude::*;
use crate::interp::{
    emitting_count, generate, instruction_count, interp, lemma_run_error_line, MAX_INSTRUCTIONS,
};
use crate::lexer::{lemma_lex_spans, lex_from, tokens_view, LexError, Lexer};
use crate::parser::{lemma_parse_spans, parse, parse_from, ParseError};

verus! {

/// Why a source text does not compile.
#[derive(Debug)]
pub enum CompileError {
    /// Text that matches no token rule.
    Lex(LexError),
    /// Tokens that do not fit the grammar.
    Parse(ParseError),
    /// A jump to a label not declared before it, with the 1-based source line
    /// of the jump.
    UnresolvedLabel { line: usize, label: String },
    /// More instructions than a 16-bit program counter can address, with
    /// their number.
    TooManyInstructions(usize),
}

/// The 1-based line of position `pos`: one more than the line feeds before it.
pub open spec fn line_of(s: Seq<char>, pos: nat) -> nat
    decreases pos,
{
    if pos == 0 || pos > s.len() {
        1
    } else {
        line_of(s, (pos - 1) as nat) + if s[pos - 1] == '\n' {
            1nat
        } else {
            0
        }
    }
}

fn line_at(chars: &Lexer, pos: usize) -> (line: usize)
    requires
        chars.wf(),
        pos < chars.source().len(),
        chars.source().len() <= usize::MAX,
    ensures
        line == line_of(chars.source(), pos as nat),
{
    let mut line: usize = 1;
    let mut i: usize = 0;
    while i < pos
        invariant
            chars.wf(),
            i <= pos < chars.source().len(),
            chars.source().len() <= usize::MAX,
            line == line_of(chars.source(), i as nat),
            line <= i + 1,
        decreases pos - i,
    {
        if chars.char_at(i) == '\n' {
            line = line + 1;
        }
        i = i + 1;
    }
    line
}

/// Compiles source text to instruction bytes: tokens, then statements, then
/// two bytes for each statement that is not a label.
pub fn compile(src: &str) -> (r: Result<Vec<u8>, CompileError>)
    ensures
        match lex_from(src@, 0) {
            Err(sp) => r matches Err(CompileError::Lex(e)) && e.span == sp,
            Ok(ts) => match parse_from(ts, 0) {
                Err((k, x)) => r matches Err(CompileError::Parse(e)) && e.expected == x && if k
                    < ts.len() {
                    e.found matches Some(x) && x.0@ == ts[k as int].0 && x.1 == ts[k as int].1
                } else {
                    e.found is None
                },
                Ok(stmts) => if emitting_count(stmts, stmts.len()) > MAX_INSTRUCTIONS {
                    r matches Err(CompileError::TooManyInstructions(n)) && n == emitting_count(
                        stmts,
                        stmts.len(),
                    )
                } else {
                    match generate(stmts) {
                        Ok(g) => r matches Ok(bytes) && bytes@ == g.out,
                        Err((k, name)) => r matches Err(CompileError::UnresolvedLabel { line, label })
                            && label@ == name && line == line_of(
                            src@,
                            stmts[k - 1].1.lo as nat,
                        ),
                    }
                },
            },
        },
{
    let mut lexer = Lexer::new(src);
    proof {
        lemma_lex_spans(src@, 0);
    }
    let tokens = match lexer.tokenize() {
        Ok(ts) => ts,
        Err(e) => {
            return Err(CompileError::Lex(e));
        },
    };
    let program = match parse(&tokens) {
        Ok(p) => p,
        Err(e) => {
            return Err(CompileError::Parse(e));
        },
    };
    let count = instruction_count(&program);
    if count > MAX_INSTRUCTIONS {
        return Err(CompileError::TooManyInstructions(count));
    }
    proof {
        lemma_parse_spans(tokens_view(tokens@), 0, src@.len());
        lemma_run_error_line(program@, program@.len());
    }
    match interp(&program) {
        Ok(bytes) => Ok(bytes),
        Err(e) => {
            let lo = program.statements[e.line - 1].span.lo;
            assert(program@[e.line - 1].1 == program.statements@[e.line - 1].span);
            assert(program@[e.line - 1].1.lo < src@.len());
            Err(CompileError::UnresolvedLabel { line: line_at(&lexer, lo), label: e.label })
        },
    }
}

} // verus!
