use vstd::prelude::*;
use crate::lexer::{Span, Tok, Token, tokens_view};

verus! {

/// A statement of the assembly language.
#[derive(Debug)]
pub enum Expr_ {
    Clear,
    AssignRegisterRegister(u8, u8),
    AssignRegisterInteger(u8, u8),
    AssignIRegisterInteger(u16),
    AssignIRegisterRegisterSprite(u8),
    DeclareLabel(String),
    DrawIRegister(u8, u8, u8),
    IncrementRegisterInteger(u8, u8),
    GotoLabel(String),
}

/// The mathematical value of a statement: a label name is its characters.
pub enum Node {
    Clear,
    AssignRegisterRegister(u8, u8),
    AssignRegisterInteger(u8, u8),
    AssignIRegisterInteger(u16),
    AssignIRegisterRegisterSprite(u8),
    DeclareLabel(Seq<char>),
    DrawIRegister(u8, u8, u8),
    IncrementRegisterInteger(u8, u8),
    GotoLabel(Seq<char>),
}

impl View for Expr_ {
    type V = Node;

    open spec fn view(&self) -> Node {
        match self {
            Expr_::Clear => Node::Clear,
            Expr_::AssignRegisterRegister(a, b) => Node::AssignRegisterRegister(*a, *b),
            Expr_::AssignRegisterInteger(a, n) => Node::AssignRegisterInteger(*a, *n),
            Expr_::AssignIRegisterInteger(n) => Node::AssignIRegisterInteger(*n),
            Expr_::AssignIRegisterRegisterSprite(a) => Node::AssignIRegisterRegisterSprite(*a),
            Expr_::DeclareLabel(id) => Node::DeclareLabel(id@),
            Expr_::DrawIRegister(a, b, n) => Node::DrawIRegister(*a, *b, *n),
            Expr_::IncrementRegisterInteger(a, n) => Node::IncrementRegisterInteger(*a, *n),
            Expr_::GotoLabel(id) => Node::GotoLabel(id@),
        }
    }
}

/// A statement with the span of source text it was read from.
#[derive(Debug)]
pub struct Expr {
    pub span: Span,
    pub node: Expr_,
}

/// The statements of a source text, in source order.
#[derive(Debug)]
pub struct Program {
    pub statements: Vec<Expr>,
}

impl View for Program {
    type V = Seq<(Node, Span)>;

    open spec fn view(&self) -> Seq<(Node, Span)> {
        exprs_view(self.statements@)
    }
}

pub open spec fn exprs_view(v: Seq<Expr>) -> Seq<(Node, Span)> {
    v.map_values(|e: Expr| (e.node@, e.span))
}

/// What the grammar expected where it could not go on.
#[derive(Debug, Clone, Copy, PartialEq, Eq, Structural)]
pub enum Expected {
    /// The start of a statement, or a blank line.
    Statement,
    /// `=` or `+=` after a register.
    AssignOrIncrement,
    /// A register or an 8-bit literal after `v<r> =`.
    RegisterOrByte,
    /// An 8-bit literal.
    Byte,
    /// `=` after `i`.
    Assign,
    /// A literal or `*` after `i =`.
    NumberOrStar,
    /// A register.
    Register,
    /// `:` after a label name.
    Colon,
    /// A label name after `goto`.
    Label,
    /// The line break that ends a statement.
    LineBreak,
}

/// A syntax error: the token where the grammar could not go on, or `None`
/// where the input ended in the middle of a statement, and what it expected
/// there.
#[derive(Debug)]
pub struct ParseError {
    pub found: Option<(Token, Span)>,
    pub expected: Expected,
}

/// The token at index `i`, if there is one.
pub open spec fn tok_at(ts: Seq<(Tok, Span)>, i: int) -> Option<Tok> {
    if 0 <= i < ts.len() {
        Some(ts[i].0)
    } else {
        None
    }
}

/// How one statement starting at a token is read.
pub enum StmtParse {
    /// A statement whose last token is just before the given index.
    Done(Node, nat),
    /// The token at the given index (the end of input, at `ts.len()`) does
    /// not fit the grammar, which expected what the second field says.
    Stuck(nat, Expected),
}

/// Reads the one statement form that the token at `p` begins.
pub open spec fn parse_statement(ts: Seq<(Tok, Span)>, p: nat) -> StmtParse {
    match tok_at(ts, p as int) {
        Some(Tok::Clear) => StmtParse::Done(Node::Clear, p + 1),
        Some(Tok::Register(r)) => match tok_at(ts, p + 1int) {
            Some(Tok::Assign) => match tok_at(ts, p + 2int) {
                Some(Tok::Register(r2)) => StmtParse::Done(Node::AssignRegisterRegister(r, r2), p + 3),
                Some(Tok::Int8(n)) => StmtParse::Done(Node::AssignRegisterInteger(r, n), p + 3),
                _ => StmtParse::Stuck(p + 2, Expected::RegisterOrByte),
            },
            Some(Tok::Increment) => match tok_at(ts, p + 2int) {
                Some(Tok::Int8(n)) => StmtParse::Done(Node::IncrementRegisterInteger(r, n), p + 3),
                _ => StmtParse::Stuck(p + 2, Expected::Byte),
            },
            _ => StmtParse::Stuck(p + 1, Expected::AssignOrIncrement),
        },
        Some(Tok::IRegister) => match tok_at(ts, p + 1int) {
            Some(Tok::Assign) => match tok_at(ts, p + 2int) {
                Some(Tok::Int16(n)) => StmtParse::Done(Node::AssignIRegisterInteger(n), p + 3),
                Some(Tok::Int8(n)) => StmtParse::Done(Node::AssignIRegisterInteger(n as u16), p + 3),
                Some(Tok::Star) => match tok_at(ts, p + 3int) {
                    Some(Tok::Register(r)) => StmtParse::Done(Node::AssignIRegisterRegisterSprite(r), p + 4),
                    _ => StmtParse::Stuck(p + 3, Expected::Register),
                },
                _ => StmtParse::Stuck(p + 2, Expected::NumberOrStar),
            },
            _ => StmtParse::Stuck(p + 1, Expected::Assign),
        },
        Some(Tok::Ident(id)) => match tok_at(ts, p + 1int) {
            Some(Tok::Colon) => StmtParse::Done(Node::DeclareLabel(id), p + 2),
            _ => StmtParse::Stuck(p + 1, Expected::Colon),
        },
        Some(Tok::Draw) => match tok_at(ts, p + 1int) {
            Some(Tok::Register(r1)) => match tok_at(ts, p + 2int) {
                Some(Tok::Register(r2)) => match tok_at(ts, p + 3int) {
                    Some(Tok::Int8(n)) => StmtParse::Done(Node::DrawIRegister(r1, r2, n), p + 4),
                    _ => StmtParse::Stuck(p + 3, Expected::Byte),
                },
                _ => StmtParse::Stuck(p + 2, Expected::Register),
            },
            _ => StmtParse::Stuck(p + 1, Expected::Register),
        },
        Some(Tok::Goto) => match tok_at(ts, p + 1int) {
            Some(Tok::Ident(id)) => StmtParse::Done(Node::GotoLabel(id), p + 2),
            _ => StmtParse::Stuck(p + 1, Expected::Label),
        },
        _ => StmtParse::Stuck(p, Expected::Statement),
    }
}

/// The statements of `ts` from index `p` on: blank lines are skipped and
/// every statement must end with a line break. An error gives the index of
/// the first token that does not fit (`ts.len()` for the end of input) and
/// what was expected there.
pub open spec fn parse_from(ts: Seq<(Tok, Span)>, p: nat) -> Result<Seq<(Node, Span)>, (nat, Expected)>
    decreases ts.len() - p,
{
    if p >= ts.len() {
        Ok(Seq::empty())
    } else if ts[p as int].0 is NewLine {
        parse_from(ts, p + 1)
    } else {
        match parse_statement(ts, p) {
            StmtParse::Stuck(k, x) => Err((k, x)),
            StmtParse::Done(node, q) => if q < ts.len() && ts[q as int].0 is NewLine {
                let span = Span { lo: ts[p as int].1.lo, hi: ts[q - 1].1.hi };
                match parse_from(ts, q + 1) {
                    Ok(rest) => Ok(seq![(node, span)] + rest),
                    Err(e) => Err(e),
                }
            } else {
                Err((q, Expected::LineBreak))
            },
        }
    }
}

/// Each statement starts where one of its tokens starts, so below any bound
/// on the tokens' starts.
pub proof fn lemma_parse_spans(ts: Seq<(Tok, Span)>, p: nat, bound: nat)
    requires
        forall|i: int| 0 <= i < ts.len() ==> #[trigger] ts[i].1.lo < bound,
    ensures
        parse_from(ts, p) matches Ok(st) ==> forall|j: int|
            0 <= j < st.len() ==> #[trigger] st[j].1.lo < bound,
    decreases ts.len() - p,
{
    if p < ts.len() {
        if ts[p as int].0 is NewLine {
            lemma_parse_spans(ts, p + 1, bound);
        } else if let StmtParse::Done(node, q) = parse_statement(ts, p) {
            if q < ts.len() && ts[q as int].0 is NewLine {
                lemma_parse_spans(ts, q + 1, bound);
                if let Ok(st) = parse_from(ts, p) {
                    if let Ok(rest) = parse_from(ts, q + 1) {
                        assert forall|j: int| 0 <= j < st.len() implies #[trigger] st[j].1.lo
                            < bound by {
                            if j > 0 {
                                assert(st[j] == rest[j - 1]);
                            }
                        }
                    }
                }
            }
        }
    }
}

fn peek(ts: &Vec<(Token, Span)>, i: usize) -> (r: Option<&Token>)
    ensures
        match r {
            Some(t) => i < ts@.len() && tok_at(tokens_view(ts@), i as int) == Some(t@),
            None => tok_at(tokens_view(ts@), i as int) is None,
        },
{
    if i < ts.len() {
        Some(&ts[i].0)
    } else {
        None
    }
}

fn parse_statement_at(ts: &Vec<(Token, Span)>, p: usize) -> (r: Result<(Expr_, usize), (usize, Expected)>)
    requires
        p < ts.len(),
    ensures
        match parse_statement(tokens_view(ts@), p as nat) {
            StmtParse::Done(n, q) => r matches Ok(x) && x.0@ == n && x.1 == q && p < q <= ts@.len(),
            StmtParse::Stuck(k, x) => r matches Err(e) && e.0 == k && e.1 == x && k <= ts@.len(),
        },
{
    match peek(ts, p) {
        Some(Token::Clear) => Ok((Expr_::Clear, p + 1)),
        Some(Token::Register(r)) => match peek(ts, p + 1) {
            Some(Token::Assign) => match peek(ts, p + 2) {
                Some(Token::Register(r2)) => Ok((Expr_::AssignRegisterRegister(*r, *r2), p + 3)),
                Some(Token::Int8(n)) => Ok((Expr_::AssignRegisterInteger(*r, *n), p + 3)),
                _ => Err((p + 2, Expected::RegisterOrByte)),
            },
            Some(Token::Increment) => match peek(ts, p + 2) {
                Some(Token::Int8(n)) => Ok((Expr_::IncrementRegisterInteger(*r, *n), p + 3)),
                _ => Err((p + 2, Expected::Byte)),
            },
            _ => Err((p + 1, Expected::AssignOrIncrement)),
        },
        Some(Token::IRegister) => match peek(ts, p + 1) {
            Some(Token::Assign) => match peek(ts, p + 2) {
                Some(Token::Int16(n)) => Ok((Expr_::AssignIRegisterInteger(*n), p + 3)),
                Some(Token::Int8(n)) => Ok((Expr_::AssignIRegisterInteger(*n as u16), p + 3)),
                Some(Token::Star) => match peek(ts, p + 3) {
                    Some(Token::Register(r)) => Ok((Expr_::AssignIRegisterRegisterSprite(*r), p + 4)),
                    _ => Err((p + 3, Expected::Register)),
                },
                _ => Err((p + 2, Expected::NumberOrStar)),
            },
            _ => Err((p + 1, Expected::Assign)),
        },
        Some(Token::Ident(id)) => match peek(ts, p + 1) {
            Some(Token::Colon) => Ok((Expr_::DeclareLabel(id.clone()), p + 2)),
            _ => Err((p + 1, Expected::Colon)),
        },
        Some(Token::Draw) => match peek(ts, p + 1) {
            Some(Token::Register(r1)) => match peek(ts, p + 2) {
                Some(Token::Register(r2)) => match peek(ts, p + 3) {
                    Some(Token::Int8(n)) => Ok((Expr_::DrawIRegister(*r1, *r2, *n), p + 4)),
                    _ => Err((p + 3, Expected::Byte)),
                },
                _ => Err((p + 2, Expected::Register)),
            },
            _ => Err((p + 1, Expected::Register)),
        },
        Some(Token::Goto) => match peek(ts, p + 1) {
            Some(Token::Ident(id)) => Ok((Expr_::GotoLabel(id.clone()), p + 2)),
            _ => Err((p + 1, Expected::Label)),
        },
        _ => Err((p, Expected::Statement)),
    }
}

fn error_at(ts: &Vec<(Token, Span)>, k: usize, expected: Expected) -> (e: ParseError)
    ensures
        e.expected == expected,
        if k < ts@.len() {
            e.found matches Some(x) && x.0@ == ts@[k as int].0@ && x.1 == ts@[k as int].1
        } else {
            e.found is None
        },
{
    if k < ts.len() {
        ParseError { found: Some((ts[k].0.duplicate(), ts[k].1)), expected }
    } else {
        ParseError { found: None, expected }
    }
}

/// Reads the statements of a token sequence, one per non-blank line.
pub fn parse(tokens: &Vec<(Token, Span)>) -> (r: Result<Program, ParseError>)
    ensures
        match parse_from(tokens_view(tokens@), 0) {
            Ok(stmts) => r matches Ok(p) && p@ == stmts,
            Err((k, x)) => r matches Err(e) && e.expected == x && if k < tokens@.len() {
                e.found matches Some(x) && x.0@ == tokens@[k as int].0@ && x.1 == tokens@[k as int].1
            } else {
                e.found is None
            },
        },
{
    let ghost ts = tokens_view(tokens@);
    let mut out: Vec<Expr> = Vec::new();
    let mut i: usize = 0;
    while i < tokens.len()
        invariant
            i <= tokens@.len(),
            ts == tokens_view(tokens@),
            parse_from(ts, 0) == match parse_from(ts, i as nat) {
                Ok(rest) => Ok(exprs_view(out@) + rest),
                Err(e) => Err(e),
            },
        decreases tokens@.len() - i,
    {
        if let Token::NewLine = &tokens[i].0 {
            i = i + 1;
        } else {
            match parse_statement_at(tokens, i) {
                Err((k, expected)) => {
                    return Err(error_at(tokens, k, expected));
                },
                Ok((node, q)) => {
                    if let Some(Token::NewLine) = peek(tokens, q) {
                        let span = Span { lo: tokens[i].1.lo, hi: tokens[q - 1].1.hi };
                        let ghost before = out@;
                        let ghost e = (node@, span);
                        out.push(Expr { span, node });
                        assert(exprs_view(out@) =~= exprs_view(before).push(e));
                        proof {
                            match parse_from(ts, (q + 1) as nat) {
                                Ok(rest) => {
                                    assert(exprs_view(before) + (seq![e] + rest) =~= exprs_view(out@)
                                        + rest);
                                },
                                Err(_) => {},
                            }
                        }
                        i = q + 1;
                    } else {
                        return Err(error_at(tokens, q, Expected::LineBreak));
                    }
                },
            }
        }
    }
    assert(exprs_view(out@) + Seq::empty() =~= exprs_view(out@));
    Ok(Program { statements: out })
}

} // verus!
