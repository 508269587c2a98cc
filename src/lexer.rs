//! The character scanner of the small language: source text to tokens
//! with line and column numbers.
use vstd::prelude::*;

verus! {

/// The class of a token, with its payload where it has one. A floating
/// literal keeps its source text.
#[derive(Clone, Debug, PartialEq)]
pub enum TokenTypes {
    Def,
    Type(String),
    Ident(String),
    LParen,
    RParen,
    Comma,
    Semicolon,
    Assign,
    Plus,
    PlusAssign,
    Minus,
    MinusEqual,
    Asterisk,
    AsteriskEqual,
    Divide,
    DivideEqual,
    Modulo,
    ModuloEqual,
    If,
    Then,
    Else,
    Fi,
    While,
    Do,
    Od,
    Print,
    Return,
    Eof,
    IntegerLiteral(i32),
    DoubleLiteral(String),
    Or,
    And,
    Not,
    Less,
    Greater,
    Equal,
    LessEqual,
    GreaterEqual,
    NotEqual,
    LBracket,
    RBracket,
    Error,
}

/// The class of a token without its payload.
#[derive(Clone, Copy, PartialEq, Eq, Structural, Debug)]
pub enum TokenKind {
    Def,
    Type,
    Ident,
    LParen,
    RParen,
    Comma,
    Semicolon,
    Assign,
    Plus,
    PlusAssign,
    Minus,
    MinusEqual,
    Asterisk,
    AsteriskEqual,
    Divide,
    DivideEqual,
    Modulo,
    ModuloEqual,
    If,
    Then,
    Else,
    Fi,
    While,
    Do,
    Od,
    Print,
    Return,
    Eof,
    IntegerLiteral,
    DoubleLiteral,
    Or,
    And,
    Not,
    Less,
    Greater,
    Equal,
    LessEqual,
    GreaterEqual,
    NotEqual,
    LBracket,
    RBracket,
    Error,
}

impl TokenTypes {
    pub open spec fn kind(&self) -> TokenKind {
        match self {
            TokenTypes::Def => TokenKind::Def,
            TokenTypes::Type(_) => TokenKind::Type,
            TokenTypes::Ident(_) => TokenKind::Ident,
            TokenTypes::LParen => TokenKind::LParen,
            TokenTypes::RParen => TokenKind::RParen,
            TokenTypes::Comma => TokenKind::Comma,
            TokenTypes::Semicolon => TokenKind::Semicolon,
            TokenTypes::Assign => TokenKind::Assign,
            TokenTypes::Plus => TokenKind::Plus,
            TokenTypes::PlusAssign => TokenKind::PlusAssign,
            TokenTypes::Minus => TokenKind::Minus,
            TokenTypes::MinusEqual => TokenKind::MinusEqual,
            TokenTypes::Asterisk => TokenKind::Asterisk,
            TokenTypes::AsteriskEqual => TokenKind::AsteriskEqual,
            TokenTypes::Divide => TokenKind::Divide,
            TokenTypes::DivideEqual => TokenKind::DivideEqual,
            TokenTypes::Modulo => TokenKind::Modulo,
            TokenTypes::ModuloEqual => TokenKind::ModuloEqual,
            TokenTypes::If => TokenKind::If,
            TokenTypes::Then => TokenKind::Then,
            TokenTypes::Else => TokenKind::Else,
            TokenTypes::Fi => TokenKind::Fi,
            TokenTypes::While => TokenKind::While,
            TokenTypes::Do => TokenKind::Do,
            TokenTypes::Od => TokenKind::Od,
            TokenTypes::Print => TokenKind::Print,
            TokenTypes::Return => TokenKind::Return,
            TokenTypes::Eof => TokenKind::Eof,
            TokenTypes::IntegerLiteral(_) => TokenKind::IntegerLiteral,
            TokenTypes::DoubleLiteral(_) => TokenKind::DoubleLiteral,
            TokenTypes::Or => TokenKind::Or,
            TokenTypes::And => TokenKind::And,
            TokenTypes::Not => TokenKind::Not,
            TokenTypes::Less => TokenKind::Less,
            TokenTypes::Greater => TokenKind::Greater,
            TokenTypes::Equal => TokenKind::Equal,
            TokenTypes::LessEqual => TokenKind::LessEqual,
            TokenTypes::GreaterEqual => TokenKind::GreaterEqual,
            TokenTypes::NotEqual => TokenKind::NotEqual,
            TokenTypes::LBracket => TokenKind::LBracket,
            TokenTypes::RBracket => TokenKind::RBracket,
            TokenTypes::Error => TokenKind::Error,
        }
    }
}

/// A token: its class, its text and where it starts.
#[derive(Clone, Debug)]
pub struct Token {
    pub token_type: TokenTypes,
    pub lexeme: String,
    pub line_number: usize,
    pub column_number: usize,
}

/// Scanner state.
pub struct Lexer {
    pub tokens: Vec<Token>,
    pub line_number: usize,
    pub column_number: usize,
    pub lexeme: String,
}

/// A token as a mathematical value.
pub struct TokenSpec {
    pub kind: TokenKind,
    pub text: Seq<char>,
    pub value: int,
    pub line: nat,
    pub column: nat,
}

impl Token {
    pub open spec fn spec(&self) -> TokenSpec {
        TokenSpec {
            kind: self.token_type.kind(),
            text: self.lexeme@,
            value: match self.token_type {
                TokenTypes::IntegerLiteral(v) => v as int,
                _ => 0,
            },
            line: self.line_number as nat,
            column: self.column_number as nat,
        }
    }

    /// A payload of text equals the lexeme.
    pub open spec fn coherent(&self) -> bool {
        match self.token_type {
            TokenTypes::Type(s) => s@ == self.lexeme@,
            TokenTypes::Ident(s) => s@ == self.lexeme@,
            TokenTypes::DoubleLiteral(s) => s@ == self.lexeme@,
            _ => true,
        }
    }
}

/// The tokens as mathematical values.
pub open spec fn token_specs(ts: Seq<Token>) -> Seq<TokenSpec> {
    ts.map_values(|t: Token| t.spec())
}

/// Whether a character is alphabetic in the sense of Unicode.
pub uninterp spec fn alphabetic(c: char) -> bool;

/// Relies on `char::is_alphabetic`: the answer depends on the character alone.
#[verifier::external_body]
fn is_alphabetic(c: char) -> (r: bool)
    ensures
        r == alphabetic(c),
{
    c.is_alphabetic()
}

pub open spec fn is_letter(c: char) -> bool {
    ('a' <= c && c <= 'z') || ('A' <= c && c <= 'Z')
}

pub open spec fn is_digit(c: char) -> bool {
    '0' <= c && c <= '9'
}

pub open spec fn is_blank(c: char) -> bool {
    c == ' ' || c == '\t' || c == '\r'
}

/// Position `j` of `s` holds `c`.
pub open spec fn at(s: Seq<char>, j: int, c: char) -> bool {
    0 <= j < s.len() && s[j] == c
}

/// Number of letters and digits from position `j` on.
pub open spec fn word_len(s: Seq<char>, j: int) -> nat
    decreases s.len() - j,
{
    if 0 <= j < s.len() && (is_letter(s[j]) || is_digit(s[j])) {
        1 + word_len(s, j + 1)
    } else {
        0
    }
}

/// Number of digits from position `j` on.
pub open spec fn digit_len(s: Seq<char>, j: int) -> nat
    decreases s.len() - j,
{
    if 0 <= j < s.len() && is_digit(s[j]) {
        1 + digit_len(s, j + 1)
    } else {
        0
    }
}

/// The value of a string of decimal digits.
pub open spec fn digits_value(w: Seq<char>) -> int
    decreases w.len(),
{
    if w.len() == 0 {
        0
    } else {
        10 * digits_value(w.drop_last()) + (w.last() as int - '0' as int)
    }
}

/// The class of a word: a keyword, a type name, or an identifier.
pub open spec fn keyword_kind(w: Seq<char>) -> TokenKind {
    if w == seq!['d', 'e', 'f'] {
        TokenKind::Def
    }     else if w == seq!['t', 'y', 'p', 'e'] {
        TokenKind::Type
    }     else if w == seq!['i', 'f'] {
        TokenKind::If
    }     else if w == seq!['t', 'h', 'e', 'n'] {
        TokenKind::Then
    }     else if w == seq!['e', 'l', 's', 'e'] {
        TokenKind::Else
    }     else if w == seq!['f', 'i'] {
        TokenKind::Fi
    }     else if w == seq!['w', 'h', 'i', 'l', 'e'] {
        TokenKind::While
    }     else if w == seq!['d', 'o'] {
        TokenKind::Do
    }     else if w == seq!['o', 'd'] {
        TokenKind::Od
    }     else if w == seq!['p', 'r', 'i', 'n', 't'] {
        TokenKind::Print
    }     else if w == seq!['r', 'e', 't', 'u', 'r', 'n'] {
        TokenKind::Return
    }     else if w == seq!['o', 'r'] {
        TokenKind::Or
    }     else if w == seq!['a', 'n', 'd'] {
        TokenKind::And
    }     else if w == seq!['n', 'o', 't'] {
        TokenKind::Not
    }     else if w == seq!['i', 'n', 't'] {
        TokenKind::Type
    }     else if w == seq!['d', 'o', 'u', 'b', 'l', 'e'] {
        TokenKind::Type
    }     else if w == seq!['b', 'o', 'o', 'l'] {
        TokenKind::Type
    }     else if w == seq!['s', 't', 'r', 'i', 'n', 'g'] {
        TokenKind::Type
    }     else if w == seq!['v', 'o', 'i', 'd'] {
        TokenKind::Type
    } else {
        TokenKind::Ident
    }
}

/// The class of an operator character followed by `=` (`with_eq`) or not.
pub open spec fn operator_kind(c: char, with_eq: bool) -> TokenKind {
    if c == '=' {
        if with_eq { TokenKind::Equal } else { TokenKind::Assign }
    } else if c == '+' {
        if with_eq { TokenKind::PlusAssign } else { TokenKind::Plus }
    } else if c == '-' {
        if with_eq { TokenKind::MinusEqual } else { TokenKind::Minus }
    } else if c == '*' {
        if with_eq { TokenKind::AsteriskEqual } else { TokenKind::Asterisk }
    } else if c == '/' {
        if with_eq { TokenKind::DivideEqual } else { TokenKind::Divide }
    } else if c == '%' {
        if with_eq { TokenKind::ModuloEqual } else { TokenKind::Modulo }
    } else if c == '>' {
        if with_eq { TokenKind::GreaterEqual } else { TokenKind::Greater }
    } else {
        if with_eq { TokenKind::NotEqual } else { TokenKind::Not }
    }
}

pub open spec fn is_operator(c: char) -> bool {
    c == '=' || c == '+' || c == '-' || c == '*' || c == '/' || c == '%' || c == '>' || c == '!'
}

/// The class of a character that stands alone as a token.
pub open spec fn single_kind(c: char) -> TokenKind {
    if c == '(' {
        TokenKind::LParen
    } else if c == ')' {
        TokenKind::RParen
    } else if c == '[' {
        TokenKind::LBracket
    } else if c == ']' {
        TokenKind::RBracket
    } else if c == ',' {
        TokenKind::Comma
    } else if c == ';' {
        TokenKind::Semicolon
    } else if c == '.' {
        TokenKind::Eof
    } else {
        TokenKind::Error
    }
}

pub open spec fn tok(kind: TokenKind, text: Seq<char>, value: int, line: nat, column: nat) -> TokenSpec {
    TokenSpec { kind, text, value, line, column }
}

/// The error token for an alphabetic character right after a number.
pub open spec fn trailing(s: Seq<char>, e: int, line: nat, column: nat) -> Seq<TokenSpec> {
    if 0 <= e < s.len() && alphabetic(s[e]) {
        seq![tok(TokenKind::Error, seq![s[e]], 0, line, column + 1)]
    } else {
        Seq::empty()
    }
}

/// What the scanner does at position `i` (which must hold a character),
/// on line `line` with `col` tokens begun on it so far: the tokens it
/// emits and the position, line and count it continues from; `None` when
/// an integer literal exceeds `i32`.
pub open spec fn lex_step(s: Seq<char>, i: int, line: nat, col: nat) -> Option<(Seq<TokenSpec>, int, nat, nat)> {
    let c = s[i];
    let col1 = col + 1;
    if c == '\n' {
        Some((Seq::empty(), i + 1, line + 1, 0))
    } else if is_blank(c) {
        Some((Seq::empty(), i + 1, line, col))
    } else if is_letter(c) {
        let e = i + 1 + word_len(s, i + 1);
        let w = s.subrange(i, e);
        Some((seq![tok(keyword_kind(w), w, 0, line, col1)], e, line, col1))
    } else if is_digit(c) {
        let e = i + 1 + digit_len(s, i + 1);
        if at(s, e, '.') {
            let e2 = e + 1 + digit_len(s, e + 1);
            let w = s.subrange(i, e2);
            Some((seq![tok(TokenKind::DoubleLiteral, w, 0, line, col1)] + trailing(s, e2, line, col1), e2, line, col1))
        } else {
            let w = s.subrange(i, e);
            if digits_value(w) > i32::MAX {
                None
            } else {
                Some((seq![tok(TokenKind::IntegerLiteral, w, digits_value(w), line, col1)] + trailing(s, e, line, col1), e, line, col1))
            }
        }
    } else if c == '<' {
        let j = if at(s, i + 1, '=') { i + 2 } else { i + 1 };
        let first = if at(s, i + 1, '=') {
            seq![tok(TokenKind::LessEqual, seq!['<', '='], 0, line, col1)]
        } else {
            Seq::empty()
        };
        if at(s, j, '>') {
            Some((first + seq![tok(TokenKind::NotEqual, seq!['<', '>'], 0, line, col1)], j + 1, line, col1))
        } else {
            Some((first + seq![tok(TokenKind::Less, seq!['<'], 0, line, col1)], j, line, col1))
        }
    } else if is_operator(c) {
        if at(s, i + 1, '=') {
            Some((seq![tok(operator_kind(c, true), seq![c, '='], 0, line, col1)], i + 2, line, col1))
        } else {
            Some((seq![tok(operator_kind(c, false), seq![c], 0, line, col1)], i + 1, line, col1))
        }
    } else {
        Some((seq![tok(single_kind(c), seq![c], 0, line, col1)], i + 1, line, col1))
    }
}

pub open spec fn prepend(ts: Seq<TokenSpec>, r: Option<Seq<TokenSpec>>) -> Option<Seq<TokenSpec>> {
    match r {
        Some(x) => Some(ts + x),
        None => None,
    }
}

/// The tokens of `s` from position `i` on; `None` when an integer literal
/// exceeds `i32`.
pub open spec fn lex_from(s: Seq<char>, i: int, line: nat, col: nat) -> Option<Seq<TokenSpec>>
    decreases s.len() - i,
    via lex_from_decreases
{
    if i < 0 || i >= s.len() {
        Some(Seq::empty())
    } else {
        match lex_step(s, i, line, col) {
            None => None,
            Some((ts, j, l2, c2)) => prepend(ts, lex_from(s, j, l2, c2)),
        }
    }
}

pub proof fn lemma_word_len(s: Seq<char>, j: int)
    requires
        0 <= j <= s.len(),
    ensures
        j + word_len(s, j) <= s.len(),
        forall|k: int| j <= k < j + word_len(s, j) ==> is_letter(#[trigger] s[k]) || is_digit(s[k]),
    decreases s.len() - j,
{
    if j < s.len() && (is_letter(s[j]) || is_digit(s[j])) {
        lemma_word_len(s, j + 1);
    }
}

pub proof fn lemma_digit_len(s: Seq<char>, j: int)
    requires
        0 <= j <= s.len(),
    ensures
        j + digit_len(s, j) <= s.len(),
        forall|k: int| j <= k < j + digit_len(s, j) ==> is_digit(#[trigger] s[k]),
    decreases s.len() - j,
{
    if j < s.len() && is_digit(s[j]) {
        lemma_digit_len(s, j + 1);
    }
}

/// Each step moves forward and stays within the input.
pub proof fn lemma_lex_step_advances(s: Seq<char>, i: int, line: nat, col: nat)
    requires
        0 <= i < s.len(),
    ensures
        match lex_step(s, i, line, col) {
            Some((ts, j, l2, c2)) => i < j <= s.len(),
            None => true,
        },
{
    lemma_word_len(s, i + 1);
    lemma_digit_len(s, i + 1);
    let e = i + 1 + digit_len(s, i + 1);
    if at(s, e, '.') {
        lemma_digit_len(s, e + 1);
    }
}

#[via_fn]
proof fn lex_from_decreases(s: Seq<char>, i: int, line: nat, col: nat) {
    if !(i < 0 || i >= s.len()) {
        lemma_lex_step_advances(s, i, line, col);
    }
}

/// `w` spells the literal `lit`.
fn eq_lit(w: &String, lit: &str) -> (r: bool)
    ensures
        r == (w@ == lit@),
{
    let l = String::from_str(lit);
    *w == l
}

/// The class of a word, with the word as payload where the class has one.
fn keyword_type(w: &String) -> (tt: TokenTypes)
    ensures
        tt.kind() == keyword_kind(w@),
        match tt {
            TokenTypes::Type(p) => p@ == w@,
            TokenTypes::Ident(p) => p@ == w@,
            _ => true,
        },
{
    proof {
        reveal_strlit("def");
        reveal_strlit("type");
        reveal_strlit("if");
        reveal_strlit("then");
        reveal_strlit("else");
        reveal_strlit("fi");
        reveal_strlit("while");
        reveal_strlit("do");
        reveal_strlit("od");
        reveal_strlit("print");
        reveal_strlit("return");
        reveal_strlit("or");
        reveal_strlit("and");
        reveal_strlit("not");
        reveal_strlit("int");
        reveal_strlit("double");
        reveal_strlit("bool");
        reveal_strlit("string");
        reveal_strlit("void");
    }
    assert(("def")@ =~= seq!['d', 'e', 'f']);
    assert(("type")@ =~= seq!['t', 'y', 'p', 'e']);
    assert(("if")@ =~= seq!['i', 'f']);
    assert(("then")@ =~= seq!['t', 'h', 'e', 'n']);
    assert(("else")@ =~= seq!['e', 'l', 's', 'e']);
    assert(("fi")@ =~= seq!['f', 'i']);
    assert(("while")@ =~= seq!['w', 'h', 'i', 'l', 'e']);
    assert(("do")@ =~= seq!['d', 'o']);
    assert(("od")@ =~= seq!['o', 'd']);
    assert(("print")@ =~= seq!['p', 'r', 'i', 'n', 't']);
    assert(("return")@ =~= seq!['r', 'e', 't', 'u', 'r', 'n']);
    assert(("or")@ =~= seq!['o', 'r']);
    assert(("and")@ =~= seq!['a', 'n', 'd']);
    assert(("not")@ =~= seq!['n', 'o', 't']);
    assert(("int")@ =~= seq!['i', 'n', 't']);
    assert(("double")@ =~= seq!['d', 'o', 'u', 'b', 'l', 'e']);
    assert(("bool")@ =~= seq!['b', 'o', 'o', 'l']);
    assert(("string")@ =~= seq!['s', 't', 'r', 'i', 'n', 'g']);
    assert(("void")@ =~= seq!['v', 'o', 'i', 'd']);
    if eq_lit(w, "def") {
        TokenTypes::Def
    }     else if eq_lit(w, "type") {
        TokenTypes::Type(w.clone())
    }     else if eq_lit(w, "if") {
        TokenTypes::If
    }     else if eq_lit(w, "then") {
        TokenTypes::Then
    }     else if eq_lit(w, "else") {
        TokenTypes::Else
    }     else if eq_lit(w, "fi") {
        TokenTypes::Fi
    }     else if eq_lit(w, "while") {
        TokenTypes::While
    }     else if eq_lit(w, "do") {
        TokenTypes::Do
    }     else if eq_lit(w, "od") {
        TokenTypes::Od
    }     else if eq_lit(w, "print") {
        TokenTypes::Print
    }     else if eq_lit(w, "return") {
        TokenTypes::Return
    }     else if eq_lit(w, "or") {
        TokenTypes::Or
    }     else if eq_lit(w, "and") {
        TokenTypes::And
    }     else if eq_lit(w, "not") {
        TokenTypes::Not
    }     else if eq_lit(w, "int") {
        TokenTypes::Type(w.clone())
    }     else if eq_lit(w, "double") {
        TokenTypes::Type(w.clone())
    }     else if eq_lit(w, "bool") {
        TokenTypes::Type(w.clone())
    }     else if eq_lit(w, "string") {
        TokenTypes::Type(w.clone())
    }     else if eq_lit(w, "void") {
        TokenTypes::Type(w.clone())
    } else {
        TokenTypes::Ident(w.clone())
    }
}

proof fn lemma_digits_value_prefix(w: Seq<char>, m: int)
    requires
        0 <= m <= w.len(),
        forall|k: int| 0 <= k < w.len() ==> is_digit(#[trigger] w[k]),
    ensures
        0 <= digits_value(w.take(m)) <= digits_value(w),
    decreases w.len(),
{
    if m < w.len() {
        lemma_digits_value_prefix(w.drop_last(), m);
        assert(w.drop_last().take(m) =~= w.take(m));
        assert(is_digit(w[w.len() - 1]));
    } else {
        assert(w.take(m) =~= w);
        if w.len() > 0 {
            lemma_digits_value_prefix(w.drop_last(), w.len() - 1);
            assert(w.drop_last().take(w.len() - 1) =~= w.drop_last());
            assert(is_digit(w[w.len() - 1]));
        }
    }
}

/// The value of the digits at positions `a` to `b` of `input`, when it fits
/// in `i32`.
fn digits_to_i32(input: &str, a: usize, b: usize) -> (r: Option<i32>)
    requires
        a <= b <= input@.len(),
        forall|k: int| a <= k < b ==> is_digit(#[trigger] input@[k]),
    ensures
        match r {
            Some(v) => v as int == digits_value(input@.subrange(a as int, b as int)),
            None => digits_value(input@.subrange(a as int, b as int)) > i32::MAX,
        },
{
    let ghost w = input@.subrange(a as int, b as int);
    let mut v: u64 = 0;
    let mut k: usize = a;
    assert(w.take(0) =~= Seq::<char>::empty());
    while k < b
        invariant
            a <= k <= b,
            b <= input@.len(),
            w == input@.subrange(a as int, b as int),
            forall|m: int| a <= m < b ==> is_digit(#[trigger] input@[m]),
            v as int == digits_value(w.take(k - a)),
            v <= i32::MAX,
        decreases b - k,
    {
        let c = input.get_char(k);
        assert(is_digit(input@[k as int]));
        let d = (c as u32 - '0' as u32) as u64;
        assert(w.take(k + 1 - a).drop_last() =~= w.take(k - a));
        assert(w.take(k + 1 - a).last() == c);
        v = v * 10 + d;
        k = k + 1;
        if v > 0x7fff_ffff {
            proof {
                lemma_digits_value_prefix(w, k - a);
            }
            return None;
        }
    }
    assert(w.take(b - a) =~= w);
    Some(v as i32)
}

/// A token with the text at positions `a` to `b` of `input`.
fn token_at(input: &str, a: usize, b: usize, tt: TokenTypes, line: usize, column: usize) -> (t: Token)
    requires
        a <= b <= input@.len(),
    ensures
        t.lexeme@ == input@.subrange(a as int, b as int),
        t.token_type == tt,
        t.line_number == line,
        t.column_number == column,
{
    Token { token_type: tt, lexeme: String::from_str(input.substring_char(a, b)), line_number: line, column_number: column }
}

fn word_at(input: &str, n: usize, e: usize) -> (r: bool)
    requires
        n == input@.len(),
    ensures
        r == (e < n && (is_letter(input@[e as int]) || is_digit(input@[e as int]))),
{
    if e < n {
        let d = input.get_char(e);
        ('a' <= d && d <= 'z') || ('A' <= d && d <= 'Z') || ('0' <= d && d <= '9')
    } else {
        false
    }
}

fn digit_at(input: &str, n: usize, e: usize) -> (r: bool)
    requires
        n == input@.len(),
    ensures
        r == (e < n && is_digit(input@[e as int])),
{
    if e < n {
        let d = input.get_char(e);
        '0' <= d && d <= '9'
    } else {
        false
    }
}

fn char_is(input: &str, n: usize, e: usize, c: char) -> (r: bool)
    requires
        n == input@.len(),
    ensures
        r == at(input@, e as int, c),
{
    e < n && input.get_char(e) == c
}

/// Position after the digits that start at `e`.
fn skip_digits(input: &str, n: usize, e: usize) -> (r: usize)
    requires
        n == input@.len(),
        e <= n,
    ensures
        r == e + digit_len(input@, e as int),
{
    let mut k = e;
    while digit_at(input, n, k)
        invariant
            n == input@.len(),
            e <= k <= n,
            k + digit_len(input@, k as int) == e + digit_len(input@, e as int),
        decreases n - k,
    {
        k = k + 1;
    }
    k
}

fn operator_type(c: char, with_eq: bool) -> (tt: TokenTypes)
    ensures
        tt.kind() == operator_kind(c, with_eq),
        tt.kind() != TokenKind::Type && tt.kind() != TokenKind::Ident && tt.kind() != TokenKind::DoubleLiteral,
{
    if c == '=' {
        if with_eq { TokenTypes::Equal } else { TokenTypes::Assign }
    } else if c == '+' {
        if with_eq { TokenTypes::PlusAssign } else { TokenTypes::Plus }
    } else if c == '-' {
        if with_eq { TokenTypes::MinusEqual } else { TokenTypes::Minus }
    } else if c == '*' {
        if with_eq { TokenTypes::AsteriskEqual } else { TokenTypes::Asterisk }
    } else if c == '/' {
        if with_eq { TokenTypes::DivideEqual } else { TokenTypes::Divide }
    } else if c == '%' {
        if with_eq { TokenTypes::ModuloEqual } else { TokenTypes::Modulo }
    } else if c == '>' {
        if with_eq { TokenTypes::GreaterEqual } else { TokenTypes::Greater }
    } else {
        if with_eq { TokenTypes::NotEqual } else { TokenTypes::Not }
    }
}

fn single_type(c: char) -> (tt: TokenTypes)
    ensures
        tt.kind() == single_kind(c),
{
    if c == '(' {
        TokenTypes::LParen
    } else if c == ')' {
        TokenTypes::RParen
    } else if c == '[' {
        TokenTypes::LBracket
    } else if c == ']' {
        TokenTypes::RBracket
    } else if c == ',' {
        TokenTypes::Comma
    } else if c == ';' {
        TokenTypes::Semicolon
    } else if c == '.' {
        TokenTypes::Eof
    } else {
        TokenTypes::Error
    }
}

pub open spec fn all_coherent(ts: Seq<Token>) -> bool {
    forall|k: int| 0 <= k < ts.len() ==> (#[trigger] ts[k]).coherent()
}

fn push_token(out: &mut Vec<Token>, t: Token)
    requires
        all_coherent(old(out)@),
        t.coherent(),
    ensures
        final(out)@ == old(out)@.push(t),
        token_specs(final(out)@) == token_specs(old(out)@) + seq![t.spec()],
        all_coherent(final(out)@),
{
    let ghost before = out@;
    out.push(t);
    assert(token_specs(out@) =~= token_specs(before) + seq![t.spec()]);
}

/// Pushes the error token for an alphabetic character at `e`, if there is one.
fn push_trailing(input: &str, n: usize, e: usize, line: usize, col1: usize, out: &mut Vec<Token>)
    requires
        n == input@.len(),
        e <= n,
        col1 < usize::MAX,
        all_coherent(old(out)@),
    ensures
        token_specs(final(out)@) == token_specs(old(out)@) + trailing(input@, e as int, line as nat, col1 as nat),
        all_coherent(final(out)@),
{
    if e < n && is_alphabetic(input.get_char(e)) {
        let t = token_at(input, e, e + 1, TokenTypes::Error, line, col1 + 1);
        assert(t.lexeme@ =~= seq![input@[e as int]]);
        push_token(out, t);
    } else {
        assert(token_specs(out@) =~= token_specs(out@) + Seq::<TokenSpec>::empty());
    }
}

/// Scans the number that starts at position `i`.
fn lex_number(input: &str, n: usize, i: usize, line: usize, col1: usize, out: &mut Vec<Token>) -> (r: Option<usize>)
    requires
        n == input@.len(),
        n < usize::MAX,
        i < n,
        1 <= col1 <= i + 1,
        is_digit(input@[i as int]),
        all_coherent(old(out)@),
    ensures
        all_coherent(final(out)@),
        match r {
            Some(j) => lex_step(input@, i as int, line as nat, (col1 - 1) as nat) == Some(
                (token_specs(final(out)@).skip(old(out)@.len() as int), j as int, line as nat, col1 as nat),
            ) && token_specs(final(out)@) == token_specs(old(out)@) + token_specs(final(out)@).skip(old(out)@.len() as int),
            None => lex_step(input@, i as int, line as nat, (col1 - 1) as nat) is None,
        },
{
    let ghost s = input@;
    let ghost old_specs = token_specs(out@);
    let ghost base = out@.len() as int;
    let ghost emitted: Seq<TokenSpec>;
    let c = input.get_char(i);
    proof {
        lemma_digit_len(s, i + 1);
    }
    let e = skip_digits(input, n, i + 1);
    if char_is(input, n, e, '.') {
        proof {
            lemma_digit_len(s, e + 1);
        }
        let e2 = skip_digits(input, n, e + 1);
        let text = String::from_str(input.substring_char(i, e2));
        let t = token_at(input, i, e2, TokenTypes::DoubleLiteral(text), line, col1);
        push_token(out, t);
        let ghost mid = token_specs(out@);
        push_trailing(input, n, e2, line, col1, out);
        proof {
            emitted = seq![t.spec()] + trailing(s, e2 as int, line as nat, col1 as nat);
            assert(token_specs(out@) =~= old_specs + emitted);
            assert(token_specs(out@).skip(base) =~= emitted);
        }
        Some(e2)
    } else {
        proof {
            assert forall|k: int| i <= k < e implies is_digit(#[trigger] s[k]) by {
                if k > i {
                    assert(is_digit(s[k]));
                }
            }
        }
        let v = match digits_to_i32(input, i, e) {
            Some(v) => v,
            None => {
                return None;
            },
        };
        let t = token_at(input, i, e, TokenTypes::IntegerLiteral(v), line, col1);
        push_token(out, t);
        push_trailing(input, n, e, line, col1, out);
        proof {
            emitted = seq![t.spec()] + trailing(s, e as int, line as nat, col1 as nat);
            assert(token_specs(out@) =~= old_specs + emitted);
            assert(token_specs(out@).skip(base) =~= emitted);
        }
        Some(e)
    }
}

/// Scans the operator that starts with `<` at position `i`.
fn lex_less(input: &str, n: usize, i: usize, line: usize, col1: usize, out: &mut Vec<Token>) -> (j: usize)
    requires
        n == input@.len(),
        n < usize::MAX,
        i < n,
        1 <= col1 <= i + 1,
        input@[i as int] == '<',
        all_coherent(old(out)@),
    ensures
        all_coherent(final(out)@),
        lex_step(input@, i as int, line as nat, (col1 - 1) as nat) == Some(
            (token_specs(final(out)@).skip(old(out)@.len() as int), j as int, line as nat, col1 as nat),
        ),
        token_specs(final(out)@) == token_specs(old(out)@) + token_specs(final(out)@).skip(old(out)@.len() as int),
{
    let ghost s = input@;
    let ghost old_specs = token_specs(out@);
    let ghost base = out@.len() as int;
    let ghost emitted: Seq<TokenSpec>;
    let ghost first: Seq<TokenSpec>;
    let k: usize;
    if char_is(input, n, i + 1, '=') {
        let t = token_at(input, i, i + 2, TokenTypes::LessEqual, line, col1);
        assert(t.lexeme@ =~= seq!['<', '=']);
        push_token(out, t);
        proof {
            first = seq![t.spec()];
        }
        k = i + 2;
    } else {
        proof {
            first = Seq::empty();
            assert(token_specs(out@) =~= old_specs + first);
        }
        k = i + 1;
    }
    if char_is(input, n, k, '>') {
        let lt = String::from_str(input.substring_char(i, i + 1));
        let text = lt.concat(input.substring_char(k, k + 1));
        assert(text@ =~= seq!['<', '>']);
        let t = Token { token_type: TokenTypes::NotEqual, lexeme: text, line_number: line, column_number: col1 };
        push_token(out, t);
        proof {
            emitted = first + seq![t.spec()];
            assert(token_specs(out@) =~= old_specs + emitted);
            assert(token_specs(out@).skip(base) =~= emitted);
        }
        return k + 1;
    } else {
        let t = token_at(input, i, i + 1, TokenTypes::Less, line, col1);
        assert(t.lexeme@ =~= seq!['<']);
        push_token(out, t);
        proof {
            emitted = first + seq![t.spec()];
            assert(token_specs(out@) =~= old_specs + emitted);
            assert(token_specs(out@).skip(base) =~= emitted);
        }
        return k;
    }
}

/// Scans at position `i`: appends the tokens that `lex_step` emits there
/// and returns where it continues.
fn lex_one(input: &str, n: usize, i: usize, line: usize, col: usize, out: &mut Vec<Token>) -> (r: Option<(usize, usize, usize)>)
    requires
        n == input@.len(),
        n < usize::MAX,
        i < n,
        col <= i,
        line <= i + 1,
        all_coherent(old(out)@),
    ensures
        all_coherent(final(out)@),
        match r {
            Some((j, l2, c2)) => {
                &&& lex_step(input@, i as int, line as nat, col as nat) == Some(
                    (token_specs(final(out)@).skip(old(out)@.len() as int), j as int, l2 as nat, c2 as nat),
                )
                &&& token_specs(final(out)@) == token_specs(old(out)@) + token_specs(final(out)@).skip(old(out)@.len() as int)
                &&& c2 <= j
                &&& l2 <= j + 1
                &&& j <= n
            },
            None => lex_step(input@, i as int, line as nat, col as nat) is None,
        },
{
    let ghost s = input@;
    let ghost old_specs = token_specs(out@);
    let ghost base = out@.len() as int;
    let c = input.get_char(i);
    assert(token_specs(out@).skip(base) =~= Seq::<TokenSpec>::empty());
    assert(token_specs(out@) =~= token_specs(out@) + Seq::<TokenSpec>::empty());
    if c == '\n' {
        return Some((i + 1, line + 1, 0));
    }
    if c == ' ' || c == '\t' || c == '\r' {
        return Some((i + 1, line, col));
    }
    let col1 = col + 1;
    let ghost emitted: Seq<TokenSpec>;
    let j: usize;
    if ('a' <= c && c <= 'z') || ('A' <= c && c <= 'Z') {
        let mut e = i + 1;
        while word_at(input, n, e)
            invariant
                n == input@.len(),
                s == input@,
                i + 1 <= e <= n,
                e + word_len(s, e as int) == i + 1 + word_len(s, i + 1),
            decreases n - e,
        {
            e = e + 1;
        }
        let w = String::from_str(input.substring_char(i, e));
        let tt = keyword_type(&w);
        let t = Token { token_type: tt, lexeme: w, line_number: line, column_number: col1 };
        push_token(out, t);
        proof {
            emitted = seq![t.spec()];
        }
        j = e;
    } else if '0' <= c && c <= '9' {
        match lex_number(input, n, i, line, col1, out) {
            Some(e) => {
                j = e;
                proof {
                    emitted = token_specs(out@).skip(base);
                }
            },
            None => {
                return None;
            },
        }
    } else if c == '<' {
        j = lex_less(input, n, i, line, col1, out);
        proof {
            emitted = token_specs(out@).skip(base);
        }
    } else if c == '=' || c == '+' || c == '-' || c == '*' || c == '/' || c == '%' || c == '>' || c == '!' {
        if char_is(input, n, i + 1, '=') {
            let t = token_at(input, i, i + 2, operator_type(c, true), line, col1);
            assert(t.lexeme@ =~= seq![c, '=']);
            push_token(out, t);
            proof {
                emitted = seq![t.spec()];
            }
            j = i + 2;
        } else {
            let t = token_at(input, i, i + 1, operator_type(c, false), line, col1);
            assert(t.lexeme@ =~= seq![c]);
            push_token(out, t);
            proof {
                emitted = seq![t.spec()];
            }
            j = i + 1;
        }
    } else {
        let t = token_at(input, i, i + 1, single_type(c), line, col1);
        assert(t.lexeme@ =~= seq![c]);
        push_token(out, t);
        proof {
            emitted = seq![t.spec()];
        }
        j = i + 1;
    }
    proof {
        lemma_lex_step_advances(s, i as int, line as nat, col as nat);
        assert(token_specs(out@).skip(base) =~= emitted);
    }
    Some((j, line, col1))
}

impl Lexer {
    /// Scans `input` into tokens. Lines count from 1; within a line, each
    /// token's column is the number of tokens begun on that line so far,
    /// itself included. Fails when an integer literal exceeds `i32`.
    pub fn get_next_token(input: &str) -> (res: Result<Vec<Token>, String>)
        requires
            input@.len() < usize::MAX,
        ensures
            match res {
                Ok(ts) => lex_from(input@, 0, 1, 0) == Some(token_specs(ts@)) && all_coherent(ts@),
                Err(_) => lex_from(input@, 0, 1, 0) is None,
            },
    {
        let n = input.unicode_len();
        let mut out: Vec<Token> = Vec::new();
        let mut i: usize = 0;
        let mut line: usize = 1;
        let mut col: usize = 0;
        assert(token_specs(out@) =~= Seq::<TokenSpec>::empty());
        while i < n
            invariant
                n == input@.len(),
                n < usize::MAX,
                i <= n,
                col <= i,
                line <= i + 1,
                all_coherent(out@),
                lex_from(input@, 0, 1, 0) == prepend(token_specs(out@), lex_from(input@, i as int, line as nat, col as nat)),
            decreases n - i,
        {
            let ghost before = token_specs(out@);
            let ghost rest = lex_from(input@, i as int, line as nat, col as nat);
            match lex_one(input, n, i, line, col, &mut out) {
                Some((j, l2, c2)) => {
                    proof {
                        let ts = token_specs(out@).skip(before.len() as int);
                        assert(rest == prepend(ts, lex_from(input@, j as int, l2 as nat, c2 as nat)));
                        match lex_from(input@, j as int, l2 as nat, c2 as nat) {
                            Some(x) => {
                                assert(before + (ts + x) =~= (before + ts) + x);
                            },
                            None => {},
                        }
                    }
                    i = j;
                    line = l2;
                    col = c2;
                },
                None => {
                    proof {
                        reveal_strlit("integer literal out of range");
                    }
                    return Err(String::from_str("integer literal out of range"));
                },
            }
        }
        assert(token_specs(out@) + Seq::<TokenSpec>::empty() =~= token_specs(out@));
        Ok(out)
    }
}

} // verus!
