use vstd::prelude::*;
use vstd::string::*;

verus! {

/// A half-open range `[lo, hi)` of positions in the source text. Positions
/// count characters; every character before a token or a lexical error is
/// ASCII, so `lo` is also a byte offset, and so is `hi` for every token.
#[derive(Debug, Clone, Copy, PartialEq, Eq, Structural)]
pub struct Span {
    pub lo: usize,
    pub hi: usize,
}

/// A lexical token of the assembly language.
#[derive(Debug)]
pub enum Token {
    NewLine,
    Clear,
    Draw,
    Goto,
    Assign,
    Increment,
    Star,
    Ident(String),
    Colon,
    Register(u8),
    Int16(u16),
    Int8(u8),
    IRegister,
}

/// The mathematical value of a token: an identifier is its characters.
pub enum Tok {
    NewLine,
    Clear,
    Draw,
    Goto,
    Assign,
    Increment,
    Star,
    Ident(Seq<char>),
    Colon,
    Register(u8),
    Int16(u16),
    Int8(u8),
    IRegister,
}

impl View for Token {
    type V = Tok;

    open spec fn view(&self) -> Tok {
        match self {
            Token::NewLine => Tok::NewLine,
            Token::Clear => Tok::Clear,
            Token::Draw => Tok::Draw,
            Token::Goto => Tok::Goto,
            Token::Assign => Tok::Assign,
            Token::Increment => Tok::Increment,
            Token::Star => Tok::Star,
            Token::Ident(s) => Tok::Ident(s@),
            Token::Colon => Tok::Colon,
            Token::Register(r) => Tok::Register(*r),
            Token::Int16(n) => Tok::Int16(*n),
            Token::Int8(n) => Tok::Int8(*n),
            Token::IRegister => Tok::IRegister,
        }
    }
}

impl Token {
    /// A copy of the token.
    pub fn duplicate(&self) -> (r: Token)
        ensures
            r@ == self@,
    {
        match self {
            Token::NewLine => Token::NewLine,
            Token::Clear => Token::Clear,
            Token::Draw => Token::Draw,
            Token::Goto => Token::Goto,
            Token::Assign => Token::Assign,
            Token::Increment => Token::Increment,
            Token::Star => Token::Star,
            Token::Ident(s) => Token::Ident(s.clone()),
            Token::Colon => Token::Colon,
            Token::Register(r) => Token::Register(*r),
            Token::Int16(n) => Token::Int16(*n),
            Token::Int8(n) => Token::Int8(*n),
            Token::IRegister => Token::IRegister,
        }
    }
}

/// A lexical error: the characters at `span` match no token rule.
#[derive(Debug, Clone, Copy, PartialEq, Eq, Structural)]
pub struct LexError {
    pub span: Span,
}

/// Character classes that the token rules are built from.
pub enum CharClass {
    Blank,
    Digit,
    Hex,
    Lower,
}

pub open spec fn in_class(c: char, k: CharClass) -> bool {
    match k {
        CharClass::Blank => c == ' ' || c == '\t',
        CharClass::Digit => '0' <= c && c <= '9',
        CharClass::Hex => ('0' <= c && c <= '9') || ('a' <= c && c <= 'f'),
        CharClass::Lower => 'a' <= c && c <= 'z',
    }
}

/// Number of consecutive characters of class `k` starting at `p`.
pub open spec fn run_len(s: Seq<char>, p: nat, k: CharClass) -> nat
    decreases s.len() - p,
{
    if p < s.len() && in_class(s[p as int], k) {
        1 + run_len(s, p + 1, k)
    } else {
        0
    }
}

/// The value of a hexadecimal (or decimal) digit.
pub open spec fn digit_value(c: char) -> nat {
    if c <= '9' {
        (c as nat - '0' as nat) as nat
    } else {
        (c as nat - 'a' as nat + 10) as nat
    }
}

/// The number written by the digits `s[lo..hi]` in the given base.
pub open spec fn num_value(s: Seq<char>, lo: nat, hi: nat, base: nat) -> nat
    decreases hi,
{
    if hi <= lo {
        0
    } else {
        num_value(s, lo, (hi - 1) as nat, base) * base + digit_value(s[hi - 1])
    }
}

/// A literal is an 8-bit literal up to 255, a 16-bit literal up to 65535,
/// and no token above that.
pub open spec fn literal_of(v: nat) -> Option<Tok> {
    if v <= 255 {
        Some(Tok::Int8(v as u8))
    } else if v <= 65535 {
        Some(Tok::Int16(v as u16))
    } else {
        None
    }
}

/// The token for a maximal run of lowercase letters: a keyword, the
/// I-register, or an identifier.
pub open spec fn word_token(w: Seq<char>) -> Tok {
    if w.len() == 5 && w[0] == 'c' && w[1] == 'l' && w[2] == 'e' && w[3] == 'a' && w[4] == 'r' {
        Tok::Clear
    } else if w.len() == 4 && w[0] == 'd' && w[1] == 'r' && w[2] == 'a' && w[3] == 'w' {
        Tok::Draw
    } else if w.len() == 4 && w[0] == 'g' && w[1] == 'o' && w[2] == 't' && w[3] == 'o' {
        Tok::Goto
    } else if w.len() == 1 && w[0] == 'i' {
        Tok::IRegister
    } else {
        Tok::Ident(w)
    }
}

/// What the rules make of the text at one position.
pub enum Scan {
    /// A blank, which separates tokens and is dropped.
    Blank,
    /// A token that ends at the given position.
    Emit(Tok, nat),
    /// No token: the text up to the given position is rejected.
    Invalid(nat),
}

/// A literal written by the digits `s[lo..hi]`, which ends at `hi`.
pub open spec fn literal_scan(s: Seq<char>, lo: nat, hi: nat, base: nat) -> Scan {
    match literal_of(num_value(s, lo, hi, base)) {
        Some(t) => Scan::Emit(t, hi),
        None => Scan::Invalid(hi),
    }
}

/// The longest match at `p`, ties going to the earlier rule, computed case
/// by case on the first character; `lemma_scan_is_longest_match` proves it
/// agrees with the rules (`Rule`, `match_len`, `wins`, `action`).
/// A literal above 65535 matches a rule whose action fails: its text is
/// rejected.
pub open spec fn scan(s: Seq<char>, p: nat) -> Scan
    recommends
        p < s.len(),
{
    let c = s[p as int];
    if in_class(c, CharClass::Blank) {
        Scan::Blank
    } else if c == '\r' {
        if p + 1 < s.len() && s[p + 1int] == '\n' {
            Scan::Emit(Tok::NewLine, p + 2)
        } else {
            Scan::Invalid(p + 1)
        }
    } else if c == '+' {
        if p + 1 < s.len() && s[p + 1int] == '=' {
            Scan::Emit(Tok::Increment, p + 2)
        } else {
            Scan::Invalid(p + 1)
        }
    } else if c == '=' {
        Scan::Emit(Tok::Assign, p + 1)
    } else if c == '*' {
        Scan::Emit(Tok::Star, p + 1)
    } else if c == ':' {
        Scan::Emit(Tok::Colon, p + 1)
    } else if in_class(c, CharClass::Digit) {
        if c == '0' && p + 2 < s.len() && s[p + 1int] == 'x' && in_class(s[p + 2int], CharClass::Hex) {
            literal_scan(s, p + 2, p + 3 + run_len(s, p + 3, CharClass::Hex), 16)
        } else {
            literal_scan(s, p, p + 1 + run_len(s, p + 1, CharClass::Digit), 10)
        }
    } else if in_class(c, CharClass::Lower) {
        let hi = p + 1 + run_len(s, p + 1, CharClass::Lower);
        if c == 'v' && p + 1 < s.len() && in_class(s[p + 1int], CharClass::Hex) && hi <= p + 2 {
            Scan::Emit(Tok::Register(digit_value(s[p + 1int]) as u8), p + 2)
        } else {
            Scan::Emit(word_token(s.subrange(p as int, hi as int)), hi)
        }
    } else {
        Scan::Invalid(p + 1)
    }
}

/// The token rules, in the order in which they break ties.
pub enum Rule {
    Blank,
    NewLine,
    Clear,
    Draw,
    Goto,
    Increment,
    Assign,
    Star,
    Colon,
    IRegister,
    Register,
    Decimal,
    Hexadecimal,
    Word,
}

pub open spec fn rule_rank(r: Rule) -> nat {
    match r {
        Rule::Blank => 0,
        Rule::NewLine => 1,
        Rule::Clear => 2,
        Rule::Draw => 3,
        Rule::Goto => 4,
        Rule::Increment => 5,
        Rule::Assign => 6,
        Rule::Star => 7,
        Rule::Colon => 8,
        Rule::IRegister => 9,
        Rule::Register => 10,
        Rule::Decimal => 11,
        Rule::Hexadecimal => 12,
        Rule::Word => 13,
    }
}

pub open spec fn char_is(s: Seq<char>, i: int, c: char) -> bool {
    0 <= i < s.len() && s[i] == c
}

/// The length of the longest text at `p` that rule `r` matches; 0 where it
/// matches none.
pub open spec fn match_len(s: Seq<char>, p: nat, r: Rule) -> nat {
    let q = p as int;
    match r {
        Rule::Blank => run_len(s, p, CharClass::Blank),
        Rule::NewLine => if char_is(s, q, '\r') && char_is(s, q + 1, '\n') {
            2
        } else {
            0
        },
        Rule::Clear => if char_is(s, q, 'c') && char_is(s, q + 1, 'l') && char_is(s, q + 2, 'e')
            && char_is(s, q + 3, 'a') && char_is(s, q + 4, 'r') {
            5
        } else {
            0
        },
        Rule::Draw => if char_is(s, q, 'd') && char_is(s, q + 1, 'r') && char_is(s, q + 2, 'a')
            && char_is(s, q + 3, 'w') {
            4
        } else {
            0
        },
        Rule::Goto => if char_is(s, q, 'g') && char_is(s, q + 1, 'o') && char_is(s, q + 2, 't')
            && char_is(s, q + 3, 'o') {
            4
        } else {
            0
        },
        Rule::Increment => if char_is(s, q, '+') && char_is(s, q + 1, '=') {
            2
        } else {
            0
        },
        Rule::Assign => if char_is(s, q, '=') {
            1
        } else {
            0
        },
        Rule::Star => if char_is(s, q, '*') {
            1
        } else {
            0
        },
        Rule::Colon => if char_is(s, q, ':') {
            1
        } else {
            0
        },
        Rule::IRegister => if char_is(s, q, 'i') {
            1
        } else {
            0
        },
        Rule::Register => if char_is(s, q, 'v') && q + 1 < s.len() && in_class(
            s[q + 1],
            CharClass::Hex,
        ) {
            2
        } else {
            0
        },
        Rule::Decimal => run_len(s, p, CharClass::Digit),
        Rule::Hexadecimal => if char_is(s, q, '0') && char_is(s, q + 1, 'x') && run_len(
            s,
            p + 2,
            CharClass::Hex,
        ) > 0 {
            2 + run_len(s, p + 2, CharClass::Hex)
        } else {
            0
        },
        Rule::Word => run_len(s, p, CharClass::Lower),
    }
}

/// Rule `r` wins at `p`: it matches, no rule matches more, and no earlier
/// rule matches as much.
pub open spec fn wins(s: Seq<char>, p: nat, r: Rule) -> bool {
    &&& match_len(s, p, r) > 0
    &&& forall|r2: Rule| #[trigger] match_len(s, p, r2) <= match_len(s, p, r)
    &&& forall|r2: Rule| rule_rank(r2) < rule_rank(r) ==> #[trigger] match_len(s, p, r2) < match_len(s, p, r)
}

/// What the action of rule `r` makes of the text it matched at `p`; `None`
/// for a blank, and for a literal too large for 16 bits.
pub open spec fn action(s: Seq<char>, p: nat, r: Rule) -> Option<Tok> {
    let hi = p + match_len(s, p, r);
    match r {
        Rule::Blank => None,
        Rule::NewLine => Some(Tok::NewLine),
        Rule::Clear => Some(Tok::Clear),
        Rule::Draw => Some(Tok::Draw),
        Rule::Goto => Some(Tok::Goto),
        Rule::Increment => Some(Tok::Increment),
        Rule::Assign => Some(Tok::Assign),
        Rule::Star => Some(Tok::Star),
        Rule::Colon => Some(Tok::Colon),
        Rule::IRegister => Some(Tok::IRegister),
        Rule::Register => Some(Tok::Register(digit_value(s[p + 1int]) as u8)),
        Rule::Decimal => literal_of(num_value(s, p, hi, 10)),
        Rule::Hexadecimal => literal_of(num_value(s, p + 2, hi, 16)),
        Rule::Word => Some(Tok::Ident(s.subrange(p as int, hi as int))),
    }
}

proof fn lemma_run_len_at_least(s: Seq<char>, p: nat, k: nat, c: CharClass)
    requires
        p + k <= s.len(),
        forall|i: int| p <= i < p + k ==> in_class(#[trigger] s[i], c),
    ensures
        run_len(s, p, c) >= k,
    decreases k,
{
    if k > 0 {
        lemma_run_len_at_least(s, p + 1, (k - 1) as nat, c);
    }
}

/// `scan` is the maximal-munch rule: a blank is skipped where the blank rule
/// wins; a token is the action of the winning rule on the text it matched;
/// text is rejected where no rule matches one character, or where the winning
/// rule's action fails.
pub proof fn lemma_scan_is_longest_match(s: Seq<char>, p: nat)
    requires
        p < s.len(),
    ensures
        match scan(s, p) {
            Scan::Blank => wins(s, p, Rule::Blank),
            Scan::Emit(t, hi) => exists|r: Rule|
                wins(s, p, r) && hi == p + match_len(s, p, r) && #[trigger] action(s, p, r) == Some(t),
            Scan::Invalid(hi) => (hi == p + 1 && forall|r: Rule| #[trigger] match_len(s, p, r) == 0)
                || exists|r: Rule|
                wins(s, p, r) && hi == p + match_len(s, p, r) && #[trigger] action(s, p, r) is None,
        },
{
    let q = p as int;
    let c = s[q];
    let w = run_len(s, p, CharClass::Lower);
    let d = run_len(s, p, CharClass::Digit);
    if in_class(c, CharClass::Blank) {
        assert(wins(s, p, Rule::Blank));
    } else if c == '\r' {
        if p + 1 < s.len() && s[q + 1] == '\n' {
            assert(wins(s, p, Rule::NewLine));
            assert(action(s, p, Rule::NewLine) == Some(Tok::NewLine));
        } else {
            assert(forall|r: Rule| #[trigger] match_len(s, p, r) == 0);
        }
    } else if c == '+' {
        if p + 1 < s.len() && s[q + 1] == '=' {
            assert(wins(s, p, Rule::Increment));
            assert(action(s, p, Rule::Increment) == Some(Tok::Increment));
        } else {
            assert(forall|r: Rule| #[trigger] match_len(s, p, r) == 0);
        }
    } else if c == '=' {
        assert(wins(s, p, Rule::Assign));
        assert(action(s, p, Rule::Assign) == Some(Tok::Assign));
    } else if c == '*' {
        assert(wins(s, p, Rule::Star));
        assert(action(s, p, Rule::Star) == Some(Tok::Star));
    } else if c == ':' {
        assert(wins(s, p, Rule::Colon));
        assert(action(s, p, Rule::Colon) == Some(Tok::Colon));
    } else if in_class(c, CharClass::Digit) {
        assert(d == 1 + run_len(s, p + 1, CharClass::Digit));
        if c == '0' && p + 2 < s.len() && s[q + 1] == 'x' && in_class(s[q + 2], CharClass::Hex) {
            assert(run_len(s, p + 1, CharClass::Digit) == 0);
            assert(run_len(s, p + 2, CharClass::Hex) == 1 + run_len(s, p + 3, CharClass::Hex));
            assert(wins(s, p, Rule::Hexadecimal));
            assert(action(s, p, Rule::Hexadecimal) == literal_of(
                num_value(s, p + 2, p + 3 + run_len(s, p + 3, CharClass::Hex), 16),
            ));
        } else {
            if c == '0' && p + 1 < s.len() && s[q + 1] == 'x' {
                assert(run_len(s, p + 1, CharClass::Digit) == 0);
                assert(run_len(s, p + 2, CharClass::Hex) == 0);
            }
            assert(match_len(s, p, Rule::Hexadecimal) == 0);
            assert(wins(s, p, Rule::Decimal));
            assert(action(s, p, Rule::Decimal) == literal_of(num_value(s, p, p + d, 10)));
        }
    } else if in_class(c, CharClass::Lower) {
        assert(w == 1 + run_len(s, p + 1, CharClass::Lower));
        lemma_run_len_bound(s, p, CharClass::Lower);
        let hi = p + w;
        let ws = s.subrange(q, hi as int);
        if c == 'v' && p + 1 < s.len() && in_class(s[q + 1], CharClass::Hex) && hi <= p + 2 {
            assert(wins(s, p, Rule::Register));
            assert(action(s, p, Rule::Register) == Some(Tok::Register(digit_value(s[q + 1]) as u8)));
        } else {
            if match_len(s, p, Rule::Clear) == 5 {
                assert forall|i: int| p <= i < p + 5 implies in_class(#[trigger] s[i], CharClass::Lower) by {}
                lemma_run_len_at_least(s, p, 5, CharClass::Lower);
            }
            if match_len(s, p, Rule::Draw) == 4 || match_len(s, p, Rule::Goto) == 4 {
                assert forall|i: int| p <= i < p + 4 implies in_class(#[trigger] s[i], CharClass::Lower) by {}
                lemma_run_len_at_least(s, p, 4, CharClass::Lower);
            }
            if match_len(s, p, Rule::Register) == 2 {
                assert(in_class(s[q + 1], CharClass::Hex));
                if in_class(s[q + 1], CharClass::Lower) {
                    assert(run_len(s, p + 1, CharClass::Lower) >= 1);
                }
            }
            assert(forall|i: int| 0 <= i < ws.len() ==> ws[i] == s[q + i]);
            if w == 5 && match_len(s, p, Rule::Clear) == 5 {
                assert(wins(s, p, Rule::Clear));
                assert(word_token(ws) == Tok::Clear);
                assert(action(s, p, Rule::Clear) == Some(Tok::Clear));
            } else if w == 4 && match_len(s, p, Rule::Draw) == 4 {
                assert(wins(s, p, Rule::Draw));
                assert(word_token(ws) == Tok::Draw);
                assert(action(s, p, Rule::Draw) == Some(Tok::Draw));
            } else if w == 4 && match_len(s, p, Rule::Goto) == 4 {
                assert(wins(s, p, Rule::Goto));
                assert(word_token(ws) == Tok::Goto);
                assert(action(s, p, Rule::Goto) == Some(Tok::Goto));
            } else if w == 1 && c == 'i' {
                assert(wins(s, p, Rule::IRegister));
                assert(word_token(ws) == Tok::IRegister);
                assert(action(s, p, Rule::IRegister) == Some(Tok::IRegister));
            } else {
                assert(wins(s, p, Rule::Word));
                assert(word_token(ws) == Tok::Ident(ws));
                assert(action(s, p, Rule::Word) == Some(Tok::Ident(ws)));
            }
        }
    } else {
        assert(forall|r: Rule| #[trigger] match_len(s, p, r) == 0);
    }
}

/// The tokens of `s` from position `p` on, blanks dropped, or the span of
/// the first text that matches no rule.
pub open spec fn lex_from(s: Seq<char>, p: nat) -> Result<Seq<(Tok, Span)>, Span>
    decreases s.len() - p via lex_from_decreases
{
    if p >= s.len() {
        Ok(Seq::empty())
    } else {
        match scan(s, p) {
            Scan::Blank => lex_from(s, p + 1),
            Scan::Emit(t, hi) => match lex_from(s, hi) {
                Ok(rest) => Ok(seq![(t, Span { lo: p as usize, hi: hi as usize })] + rest),
                Err(e) => Err(e),
            },
            Scan::Invalid(hi) => Err(Span { lo: p as usize, hi: hi as usize }),
        }
    }
}

pub proof fn lemma_run_len_bound(s: Seq<char>, p: nat, k: CharClass)
    ensures
        run_len(s, p, k) > 0 ==> p + run_len(s, p, k) <= s.len(),
    decreases s.len() - p,
{
    if p < s.len() && in_class(s[p as int], k) {
        lemma_run_len_bound(s, p + 1, k);
    }
}

/// A token, or rejected text, ends after it starts and within the source.
pub proof fn lemma_scan_bounds(s: Seq<char>, p: nat)
    requires
        p < s.len(),
    ensures
        match scan(s, p) {
            Scan::Emit(_, hi) => p < hi <= s.len(),
            Scan::Invalid(hi) => p < hi <= s.len(),
            Scan::Blank => true,
        },
{
    lemma_run_len_bound(s, p + 1, CharClass::Digit);
    lemma_run_len_bound(s, p + 3, CharClass::Hex);
    lemma_run_len_bound(s, p + 1, CharClass::Lower);
}

#[via_fn]
proof fn lex_from_decreases(s: Seq<char>, p: nat) {
    if p < s.len() {
        lemma_scan_bounds(s, p);
    }
}

/// Reading more digits never makes a number smaller.
pub proof fn lemma_num_value_grows(s: Seq<char>, lo: nat, i: nat, j: nat, base: nat)
    requires
        lo <= i <= j,
        base >= 1,
    ensures
        num_value(s, lo, i, base) <= num_value(s, lo, j, base),
    decreases j - i,
{
    if i < j {
        lemma_num_value_grows(s, lo, i, (j - 1) as nat, base);
        let v = num_value(s, lo, (j - 1) as nat, base);
        assert(v <= v * base) by (nonlinear_arith)
            requires
                base >= 1,
        ;
    }
}

fn digit_of(c: char) -> (d: u32)
    requires
        in_class(c, CharClass::Hex),
    ensures
        d == digit_value(c),
        d <= 15,
{
    if c <= '9' {
        (c as u32) - ('0' as u32)
    } else {
        (c as u32) - ('a' as u32) + 10
    }
}

fn is_in_class(c: char, k: &CharClass) -> (r: bool)
    ensures
        r == in_class(c, *k),
{
    match k {
        CharClass::Blank => c == ' ' || c == '\t',
        CharClass::Digit => '0' <= c && c <= '9',
        CharClass::Hex => ('0' <= c && c <= '9') || ('a' <= c && c <= 'f'),
        CharClass::Lower => 'a' <= c && c <= 'z',
    }
}

fn scan_run(s: &Vec<char>, p: usize, k: &CharClass) -> (e: usize)
    requires
        p <= s@.len(),
    ensures
        e == p + run_len(s@, p as nat, *k),
        e <= s@.len(),
        forall|j: int| p <= j < e ==> #[trigger] in_class(s@[j], *k),
{
    let mut i: usize = p;
    while i < s.len() && is_in_class(s[i], k)
        invariant
            p <= i <= s@.len(),
            p + run_len(s@, p as nat, *k) == i + run_len(s@, i as nat, *k),
            forall|j: int| p <= j < i ==> #[trigger] in_class(s@[j], *k),
        decreases s@.len() - i,
    {
        i = i + 1;
    }
    i
}

/// The next token of `s` at or after `p`, blanks skipped.
pub enum Next {
    End,
    Token(Tok, Span),
    Fail(Span),
}

pub open spec fn next_from(s: Seq<char>, p: nat) -> Next
    decreases s.len() - p,
{
    if p >= s.len() {
        Next::End
    } else {
        match scan(s, p) {
            Scan::Blank => next_from(s, p + 1),
            Scan::Emit(t, hi) => Next::Token(t, Span { lo: p as usize, hi: hi as usize }),
            Scan::Invalid(hi) => Next::Fail(Span { lo: p as usize, hi: hi as usize }),
        }
    }
}

/// Taking tokens one at a time gives the whole token sequence.
pub proof fn lemma_lex_from_next(s: Seq<char>, p: nat)
    requires
        s.len() <= usize::MAX,
    ensures
        match next_from(s, p) {
            Next::End => lex_from(s, p) == Ok::<Seq<(Tok, Span)>, Span>(Seq::empty()),
            Next::Fail(e) => lex_from(s, p) == Err::<Seq<(Tok, Span)>, Span>(e),
            Next::Token(t, sp) => p <= sp.lo < sp.hi <= s.len() && lex_from(s, p) == match lex_from(
                s,
                sp.hi as nat,
            ) {
                Ok(rest) => Ok(seq![(t, sp)] + rest),
                Err(e) => Err(e),
            },
        },
    decreases s.len() - p,
{
    if p < s.len() {
        lemma_scan_bounds(s, p);
        if scan(s, p) is Blank {
            lemma_lex_from_next(s, p + 1);
        }
    }
}

/// Every token lies within the source, after the position lexing began at.
pub proof fn lemma_lex_spans(s: Seq<char>, p: nat)
    requires
        s.len() <= usize::MAX,
    ensures
        lex_from(s, p) matches Ok(ts) ==> forall|i: int|
            0 <= i < ts.len() ==> p <= #[trigger] ts[i].1.lo < ts[i].1.hi <= s.len(),
    decreases s.len() - p,
{
    if p < s.len() {
        lemma_scan_bounds(s, p);
        match scan(s, p) {
            Scan::Blank => lemma_lex_spans(s, p + 1),
            Scan::Emit(t, hi) => {
                lemma_lex_spans(s, hi);
                if let Ok(ts) = lex_from(s, p) {
                    if let Ok(rest) = lex_from(s, hi) {
                        assert forall|i: int| 0 <= i < ts.len() implies p <= #[trigger] ts[i].1.lo
                            < ts[i].1.hi <= s.len() by {
                            if i > 0 {
                                assert(ts[i] == rest[i - 1]);
                            }
                        }
                    }
                }
            },
            Scan::Invalid(_) => {},
        }
    }
}

/// The tokens with identifiers viewed as their characters.
pub open spec fn tokens_view(v: Seq<(Token, Span)>) -> Seq<(Tok, Span)> {
    v.map_values(|x: (Token, Span)| (x.0@, x.1))
}

/// A tokenizer over a source text, which hands out one token at a time.
pub struct Lexer<'a> {
    original: &'a str,
    chars: Vec<char>,
    pos: usize,
}

impl<'a> Lexer<'a> {
    /// The source text.
    pub closed spec fn source(&self) -> Seq<char> {
        self.original@
    }

    /// The position where the next token is looked for.
    pub closed spec fn position(&self) -> nat {
        self.pos as nat
    }

    /// The lexer holds the characters of its source and a position within it.
    pub closed spec fn wf(&self) -> bool {
        &&& self.chars@ == self.original@
        &&& self.pos <= self.chars@.len()
        &&& self.chars@.len() <= usize::MAX
    }

    /// The character at position `i` of the source.
    pub fn char_at(&self, i: usize) -> (c: char)
        requires
            self.wf(),
            i < self.source().len(),
        ensures
            c == self.source()[i as int],
    {
        self.chars[i]
    }

    /// A lexer at the start of `s`.
    pub fn new(s: &'a str) -> (l: Lexer<'a>)
        ensures
            l.wf(),
            l.source() == s@,
            l.position() == 0,
            s@.len() <= usize::MAX,
    {
        let mut chars: Vec<char> = Vec::new();
        if s.is_ascii() {
            let bytes = s.as_bytes();
            proof {
                vstd::utf8::is_ascii_chars_encode_utf8(s@);
            }
            let mut i: usize = 0;
            while i < bytes.len()
                invariant
                    bytes@ == s.spec_bytes(),
                    bytes@.len() == s@.len(),
                    vstd::utf8::is_ascii_chars(s@),
                    forall|k: int| 0 <= k < s@.len() ==> s@[k] as u8 == #[trigger] bytes@[k],
                    i <= bytes@.len(),
                    chars@ == s@.subrange(0, i as int),
                decreases bytes@.len() - i,
            {
                let b = bytes[i];
                assert(s@[i as int] <= '\u{7f}');
                assert(b as char == s@[i as int]);
                chars.push(b as char);
                i = i + 1;
            }
            assert(chars@ =~= s@);
            return Lexer { original: s, chars, pos: 0 };
        }
        let n = s.unicode_len();
        let mut i: usize = 0;
        while i < n
            invariant
                n == s@.len(),
                i <= n,
                chars@ == s@.subrange(0, i as int),
            decreases n - i,
        {
            chars.push(s.get_char(i));
            i = i + 1;
        }
        assert(chars@ =~= s@);
        Lexer { original: s, chars, pos: 0 }
    }

    fn read_literal(&self, lo: usize, hi: usize, base: u32) -> (r: Option<Token>)
        requires
            self.wf(),
            lo <= hi <= self.chars@.len(),
            base == 10 || base == 16,
            forall|k: int| lo <= k < hi ==> #[trigger] in_class(self.chars@[k], CharClass::Hex),
        ensures
            match literal_of(num_value(self.chars@, lo as nat, hi as nat, base as nat)) {
                Some(t) => r matches Some(x) && x@ == t,
                None => r is None,
            },
    {
        let mut acc: u32 = 0;
        let mut i: usize = lo;
        while i < hi
            invariant
                self.wf(),
                lo <= i <= hi <= self.chars@.len(),
                base == 10 || base == 16,
                forall|k: int| lo <= k < hi ==> #[trigger] in_class(self.chars@[k], CharClass::Hex),
                acc == num_value(self.chars@, lo as nat, i as nat, base as nat),
                acc <= 65535,
            decreases hi - i,
        {
            let d = digit_of(self.chars[i]);
            assert(in_class(self.chars@[i as int], CharClass::Hex));
            assert(acc * base <= 65535 * 16) by (nonlinear_arith)
                requires
                    acc <= 65535,
                    base <= 16,
            ;
            let v = acc * base + d;
            if v > 65535 {
                proof {
                    lemma_num_value_grows(self.chars@, lo as nat, (i + 1) as nat, hi as nat, base as nat);
                }
                return None;
            }
            acc = v;
            i = i + 1;
        }
        if acc <= 255 {
            Some(Token::Int8(acc as u8))
        } else {
            Some(Token::Int16(acc as u16))
        }
    }

    fn scan_at(&self, p: usize) -> (r: Result<(Token, usize), usize>)
        requires
            self.wf(),
            p < self.chars@.len(),
            !in_class(self.chars@[p as int], CharClass::Blank),
        ensures
            match scan(self.chars@, p as nat) {
                Scan::Emit(t, hi) => r matches Ok(x) && x.0@ == t && x.1 == hi,
                Scan::Invalid(hi) => r matches Err(h) && h == hi,
                Scan::Blank => false,
            },
    {
        let s = &self.chars;
        let n = s.len();
        let c = s[p];
        proof {
            lemma_scan_bounds(s@, p as nat);
        }
        if c == '\r' {
            if n - p > 1 && s[p + 1] == '\n' {
                Ok((Token::NewLine, p + 2))
            } else {
                Err(p + 1)
            }
        } else if c == '+' {
            if n - p > 1 && s[p + 1] == '=' {
                Ok((Token::Increment, p + 2))
            } else {
                Err(p + 1)
            }
        } else if c == '=' {
            Ok((Token::Assign, p + 1))
        } else if c == '*' {
            Ok((Token::Star, p + 1))
        } else if c == ':' {
            Ok((Token::Colon, p + 1))
        } else if is_in_class(c, &CharClass::Digit) {
            let lo: usize;
            let hi: usize;
            let base: u32;
            if c == '0' && n - p > 2 && s[p + 1] == 'x' && is_in_class(s[p + 2], &CharClass::Hex) {
                lo = p + 2;
                hi = scan_run(s, p + 3, &CharClass::Hex);
                base = 16;
            } else {
                lo = p;
                hi = scan_run(s, p + 1, &CharClass::Digit);
                base = 10;
                assert forall|k: int| lo <= k < hi implies #[trigger] in_class(
                    s@[k],
                    CharClass::Hex,
                ) by {
                    if k > p {
                        assert(in_class(s@[k], CharClass::Digit));
                    }
                }
            }
            match self.read_literal(lo, hi, base) {
                Some(t) => Ok((t, hi)),
                None => Err(hi),
            }
        } else if is_in_class(c, &CharClass::Lower) {
            let hi = scan_run(s, p + 1, &CharClass::Lower);
            if c == 'v' && n - p > 1 && is_in_class(s[p + 1], &CharClass::Hex) && hi <= p + 2 {
                Ok((Token::Register(digit_of(s[p + 1]) as u8), p + 2))
            } else {
                Ok((self.read_word(p, hi), hi))
            }
        } else {
            Err(p + 1)
        }
    }

    /// Hands out the next token, skipping blanks; `None` at the end of the
    /// source, and an error at text that matches no rule.
    pub fn next(&mut self) -> (r: Result<Option<(Token, Span)>, LexError>)
        requires
            old(self).wf(),
        ensures
            final(self).wf(),
            final(self).source() == old(self).source(),
            final(self).position() >= old(self).position(),
            match next_from(old(self).source(), old(self).position()) {
                Next::End => r matches Ok(None) && final(self).position() == old(self).source().len(),
                Next::Token(t, sp) => r matches Ok(Some(x)) && x.0@ == t && x.1 == sp
                    && final(self).position() == sp.hi,
                Next::Fail(sp) => r matches Err(e) && e.span == sp && final(self).position()
                    == sp.lo,
            },
    {
        loop
            invariant
                self.wf(),
                self.source() == old(self).source(),
                self.position() >= old(self).position(),
                next_from(self.source(), self.position()) == next_from(
                    old(self).source(),
                    old(self).position(),
                ),
            decreases self.chars@.len() - self.pos,
        {
            if self.pos >= self.chars.len() {
                return Ok(None);
            }
            let lo = self.pos;
            if is_in_class(self.chars[lo], &CharClass::Blank) {
                self.pos = lo + 1;
            } else {
                proof {
                    lemma_scan_bounds(self.chars@, lo as nat);
                }
                match self.scan_at(lo) {
                    Ok((tok, hi)) => {
                        self.pos = hi;
                        return Ok(Some((tok, Span { lo, hi })));
                    },
                    Err(hi) => {
                        return Err(LexError { span: Span { lo, hi } });
                    },
                }
            }
        }
    }

    /// All remaining tokens, or the first lexical error.
    pub fn tokenize(&mut self) -> (r: Result<Vec<(Token, Span)>, LexError>)
        requires
            old(self).wf(),
        ensures
            final(self).wf(),
            final(self).source() == old(self).source(),
            match lex_from(old(self).source(), old(self).position()) {
                Ok(ts) => r matches Ok(v) && tokens_view(v@) == ts,
                Err(sp) => r matches Err(e) && e.span == sp,
            },
    {
        let mut out: Vec<(Token, Span)> = Vec::new();
        let ghost src = old(self).source();
        let ghost start = old(self).position();
        loop
            invariant
                self.wf(),
                self.source() == src,
                src == old(self).source(),
                start == old(self).position(),
                src.len() == self.chars@.len(),
                lex_from(src, start) == match lex_from(src, self.position()) {
                    Ok(rest) => Ok(tokens_view(out@) + rest),
                    Err(e) => Err(e),
                },
            decreases src.len() - self.position(),
        {
            proof {
                lemma_lex_from_next(src, self.position());
            }
            match self.next() {
                Ok(None) => {
                    assert(tokens_view(out@) + Seq::empty() =~= tokens_view(out@));
                    return Ok(out);
                },
                Ok(Some(x)) => {
                    let ghost before = out@;
                    out.push(x);
                    assert(tokens_view(out@) =~= tokens_view(before) + seq![(x.0@, x.1)]);
                    proof {
                        match lex_from(src, self.position()) {
                            Ok(rest) => {
                                assert(tokens_view(before) + (seq![(x.0@, x.1)] + rest)
                                    =~= tokens_view(out@) + rest);
                            },
                            Err(_) => {},
                        }
                    }
                },
                Err(e) => {
                    return Err(e);
                },
            }
        }
    }

    fn read_word(&self, lo: usize, hi: usize) -> (t: Token)
        requires
            self.wf(),
            lo < hi <= self.chars@.len(),
        ensures
            t@ == word_token(self.chars@.subrange(lo as int, hi as int)),
    {
        let ghost w = self.chars@.subrange(lo as int, hi as int);
        let c = &self.chars;
        let n = hi - lo;
        assert(forall|k: int| 0 <= k < w.len() ==> w[k] == self.chars@[lo + k]);
        if n == 5 && c[lo] == 'c' && c[lo + 1] == 'l' && c[lo + 2] == 'e' && c[lo + 3] == 'a'
            && c[lo + 4] == 'r' {
            Token::Clear
        } else if n == 4 && c[lo] == 'd' && c[lo + 1] == 'r' && c[lo + 2] == 'a' && c[lo + 3]
            == 'w' {
            Token::Draw
        } else if n == 4 && c[lo] == 'g' && c[lo + 1] == 'o' && c[lo + 2] == 't' && c[lo + 3]
            == 'o' {
            Token::Goto
        } else if n == 1 && c[lo] == 'i' {
            Token::IRegister
        } else {
            Token::Ident(self.original.substring_char(lo, hi).to_owned())
        }
    }
}

} // verus!
