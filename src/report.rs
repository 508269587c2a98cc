//! Tabular reports of scanned tokens, rendered with comfy-table.
use vstd::prelude::*;
use comfy_table::Table;
use crate::lexer::{Token, TokenKind, TokenTypes};
use crate::loader::strs;

verus! {

#[verifier::external_type_specification]
#[verifier::external_body]
pub struct ExTable(Table);

/// The header row a table holds, if one was set.
pub uninterp spec fn table_header(t: Table) -> Option<Seq<Seq<char>>>;

/// The body rows a table holds, in order.
pub uninterp spec fn table_rows(t: Table) -> Seq<Seq<Seq<char>>>;

/// The text comfy-table renders for a header and rows with its default
/// preset and arrangement.
pub uninterp spec fn table_text(header: Option<Seq<Seq<char>>>, rows: Seq<Seq<Seq<char>>>) -> Seq<char>;

/// Relies on `comfy_table::Table::new`: a table without header or rows.
#[verifier::external_body]
fn new_table() -> (t: Table)
    ensures
        table_header(t) is None,
        table_rows(t) == Seq::<Seq<Seq<char>>>::empty(),
{
    Table::new()
}

/// Relies on `comfy_table::Table::set_header`: replaces the header, keeps
/// the rows.
#[verifier::external_body]
fn set_header(t: &mut Table, header: Vec<String>)
    ensures
        table_header(*final(t)) == Some(strs(header@)),
        table_rows(*final(t)) == table_rows(*old(t)),
{
    t.set_header(header);
}

/// Relies on `comfy_table::Table::add_row`: appends one row, keeps the
/// header.
#[verifier::external_body]
fn add_row(t: &mut Table, row: Vec<String>)
    ensures
        table_header(*final(t)) == table_header(*old(t)),
        table_rows(*final(t)) == table_rows(*old(t)).push(strs(row@)),
{
    t.add_row(row);
}

/// Relies on the `Display` impl of `comfy_table::Table`: with the default
/// arrangement and no styled cells the text depends on the header and rows
/// alone.
#[verifier::external_body]
fn render(t: &Table) -> (r: String)
    ensures
        r@ == table_text(table_header(*t), table_rows(*t)),
{
    t.to_string()
}

/// The character of a decimal digit.
pub open spec fn digit_char(d: nat) -> char {
    if d == 0 {
        '0'
    }     else if d == 1 {
        '1'
    }     else if d == 2 {
        '2'
    }     else if d == 3 {
        '3'
    }     else if d == 4 {
        '4'
    }     else if d == 5 {
        '5'
    }     else if d == 6 {
        '6'
    }     else if d == 7 {
        '7'
    }     else if d == 8 {
        '8'
    }     else {
        '9'
    }
}

/// The decimal numeral of `n`.
pub open spec fn decimal(n: nat) -> Seq<char>
    decreases n,
{
    if n < 10 {
        seq![digit_char(n)]
    } else {
        decimal(n / 10).push(digit_char(n % 10))
    }
}

/// The decimal numeral of `v`, with a minus sign when negative.
pub open spec fn signed_decimal(v: int) -> Seq<char> {
    if v < 0 {
        seq!['-'] + decimal((-v) as nat)
    } else {
        decimal(v as nat)
    }
}

fn digit_str(d: u64) -> (r: &'static str)
    requires
        d < 10,
    ensures
        r@ == seq![digit_char(d as nat)],
{
    proof {
        reveal_strlit("0");
        reveal_strlit("1");
        reveal_strlit("2");
        reveal_strlit("3");
        reveal_strlit("4");
        reveal_strlit("5");
        reveal_strlit("6");
        reveal_strlit("7");
        reveal_strlit("8");
        reveal_strlit("9");
    }
    if d == 0 {
        "0"
    }     else if d == 1 {
        "1"
    }     else if d == 2 {
        "2"
    }     else if d == 3 {
        "3"
    }     else if d == 4 {
        "4"
    }     else if d == 5 {
        "5"
    }     else if d == 6 {
        "6"
    }     else if d == 7 {
        "7"
    }     else if d == 8 {
        "8"
    }     else {
        "9"
    }
}

/// The decimal numeral of `n`.
pub fn decimal_string(n: u64) -> (r: String)
    ensures
        r@ == decimal(n as nat),
    decreases n,
{
    if n < 10 {
        String::from_str(digit_str(n))
    } else {
        let mut s = decimal_string(n / 10);
        s.append(digit_str(n % 10));
        s
    }
}

/// The name of a token class.
pub open spec fn kind_name(k: TokenKind) -> Seq<char> {
    match k {
        TokenKind::Def => seq!['D', 'e', 'f'],
        TokenKind::Type => seq!['T', 'y', 'p', 'e'],
        TokenKind::Ident => seq!['I', 'd', 'e', 'n', 't'],
        TokenKind::LParen => seq!['L', 'P', 'a', 'r', 'e', 'n'],
        TokenKind::RParen => seq!['R', 'P', 'a', 'r', 'e', 'n'],
        TokenKind::Comma => seq!['C', 'o', 'm', 'm', 'a'],
        TokenKind::Semicolon => seq!['S', 'e', 'm', 'i', 'c', 'o', 'l', 'o', 'n'],
        TokenKind::Assign => seq!['A', 's', 's', 'i', 'g', 'n'],
        TokenKind::Plus => seq!['P', 'l', 'u', 's'],
        TokenKind::PlusAssign => seq!['P', 'l', 'u', 's', 'A', 's', 's', 'i', 'g', 'n'],
        TokenKind::Minus => seq!['M', 'i', 'n', 'u', 's'],
        TokenKind::MinusEqual => seq!['M', 'i', 'n', 'u', 's', 'E', 'q', 'u', 'a', 'l'],
        TokenKind::Asterisk => seq!['A', 's', 't', 'e', 'r', 'i', 's', 'k'],
        TokenKind::AsteriskEqual => seq!['A', 's', 't', 'e', 'r', 'i', 's', 'k', 'E', 'q', 'u', 'a', 'l'],
        TokenKind::Divide => seq!['D', 'i', 'v', 'i', 'd', 'e'],
        TokenKind::DivideEqual => seq!['D', 'i', 'v', 'i', 'd', 'e', 'E', 'q', 'u', 'a', 'l'],
        TokenKind::Modulo => seq!['M', 'o', 'd', 'u', 'l', 'o'],
        TokenKind::ModuloEqual => seq!['M', 'o', 'd', 'u', 'l', 'o', 'E', 'q', 'u', 'a', 'l'],
        TokenKind::If => seq!['I', 'f'],
        TokenKind::Then => seq!['T', 'h', 'e', 'n'],
        TokenKind::Else => seq!['E', 'l', 's', 'e'],
        TokenKind::Fi => seq!['F', 'i'],
        TokenKind::While => seq!['W', 'h', 'i', 'l', 'e'],
        TokenKind::Do => seq!['D', 'o'],
        TokenKind::Od => seq!['O', 'd'],
        TokenKind::Print => seq!['P', 'r', 'i', 'n', 't'],
        TokenKind::Return => seq!['R', 'e', 't', 'u', 'r', 'n'],
        TokenKind::Eof => seq!['E', 'o', 'f'],
        TokenKind::IntegerLiteral => seq!['I', 'n', 't', 'e', 'g', 'e', 'r', 'L', 'i', 't', 'e', 'r', 'a', 'l'],
        TokenKind::DoubleLiteral => seq!['D', 'o', 'u', 'b', 'l', 'e', 'L', 'i', 't', 'e', 'r', 'a', 'l'],
        TokenKind::Or => seq!['O', 'r'],
        TokenKind::And => seq!['A', 'n', 'd'],
        TokenKind::Not => seq!['N', 'o', 't'],
        TokenKind::Less => seq!['L', 'e', 's', 's'],
        TokenKind::Greater => seq!['G', 'r', 'e', 'a', 't', 'e', 'r'],
        TokenKind::Equal => seq!['E', 'q', 'u', 'a', 'l'],
        TokenKind::LessEqual => seq!['L', 'e', 's', 's', 'E', 'q', 'u', 'a', 'l'],
        TokenKind::GreaterEqual => seq!['G', 'r', 'e', 'a', 't', 'e', 'r', 'E', 'q', 'u', 'a', 'l'],
        TokenKind::NotEqual => seq!['N', 'o', 't', 'E', 'q', 'u', 'a', 'l'],
        TokenKind::LBracket => seq!['L', 'B', 'r', 'a', 'c', 'k', 'e', 't'],
        TokenKind::RBracket => seq!['R', 'B', 'r', 'a', 'c', 'k', 'e', 't'],
        TokenKind::Error => seq!['E', 'r', 'r', 'o', 'r'],
    }
}

/// The text of a token class and payload: the class name, followed by the
/// payload in parentheses for identifiers, type names and literals.
pub open spec fn describe(tt: TokenTypes) -> Seq<char> {
    match tt {
        TokenTypes::Type(s) => kind_name(TokenKind::Type) + seq!['('] + s@ + seq![')'],
        TokenTypes::Ident(s) => kind_name(TokenKind::Ident) + seq!['('] + s@ + seq![')'],
        TokenTypes::IntegerLiteral(v) => kind_name(TokenKind::IntegerLiteral) + seq!['('] + signed_decimal(v as int) + seq![')'],
        TokenTypes::DoubleLiteral(s) => kind_name(TokenKind::DoubleLiteral) + seq!['('] + s@ + seq![')'],
        _ => kind_name(tt.kind()),
    }
}

fn kind_str(k: TokenKind) -> (r: &'static str)
    ensures
        r@ == kind_name(k),
{
    proof {
        reveal_strlit("Def");
        reveal_strlit("Type");
        reveal_strlit("Ident");
        reveal_strlit("LParen");
        reveal_strlit("RParen");
        reveal_strlit("Comma");
        reveal_strlit("Semicolon");
        reveal_strlit("Assign");
        reveal_strlit("Plus");
        reveal_strlit("PlusAssign");
        reveal_strlit("Minus");
        reveal_strlit("MinusEqual");
        reveal_strlit("Asterisk");
        reveal_strlit("AsteriskEqual");
        reveal_strlit("Divide");
        reveal_strlit("DivideEqual");
        reveal_strlit("Modulo");
        reveal_strlit("ModuloEqual");
        reveal_strlit("If");
        reveal_strlit("Then");
        reveal_strlit("Else");
        reveal_strlit("Fi");
        reveal_strlit("While");
        reveal_strlit("Do");
        reveal_strlit("Od");
        reveal_strlit("Print");
        reveal_strlit("Return");
        reveal_strlit("Eof");
        reveal_strlit("IntegerLiteral");
        reveal_strlit("DoubleLiteral");
        reveal_strlit("Or");
        reveal_strlit("And");
        reveal_strlit("Not");
        reveal_strlit("Less");
        reveal_strlit("Greater");
        reveal_strlit("Equal");
        reveal_strlit("LessEqual");
        reveal_strlit("GreaterEqual");
        reveal_strlit("NotEqual");
        reveal_strlit("LBracket");
        reveal_strlit("RBracket");
        reveal_strlit("Error");
    }
    match k {
        TokenKind::Def => "Def",
        TokenKind::Type => "Type",
        TokenKind::Ident => "Ident",
        TokenKind::LParen => "LParen",
        TokenKind::RParen => "RParen",
        TokenKind::Comma => "Comma",
        TokenKind::Semicolon => "Semicolon",
        TokenKind::Assign => "Assign",
        TokenKind::Plus => "Plus",
        TokenKind::PlusAssign => "PlusAssign",
        TokenKind::Minus => "Minus",
        TokenKind::MinusEqual => "MinusEqual",
        TokenKind::Asterisk => "Asterisk",
        TokenKind::AsteriskEqual => "AsteriskEqual",
        TokenKind::Divide => "Divide",
        TokenKind::DivideEqual => "DivideEqual",
        TokenKind::Modulo => "Modulo",
        TokenKind::ModuloEqual => "ModuloEqual",
        TokenKind::If => "If",
        TokenKind::Then => "Then",
        TokenKind::Else => "Else",
        TokenKind::Fi => "Fi",
        TokenKind::While => "While",
        TokenKind::Do => "Do",
        TokenKind::Od => "Od",
        TokenKind::Print => "Print",
        TokenKind::Return => "Return",
        TokenKind::Eof => "Eof",
        TokenKind::IntegerLiteral => "IntegerLiteral",
        TokenKind::DoubleLiteral => "DoubleLiteral",
        TokenKind::Or => "Or",
        TokenKind::And => "And",
        TokenKind::Not => "Not",
        TokenKind::Less => "Less",
        TokenKind::Greater => "Greater",
        TokenKind::Equal => "Equal",
        TokenKind::LessEqual => "LessEqual",
        TokenKind::GreaterEqual => "GreaterEqual",
        TokenKind::NotEqual => "NotEqual",
        TokenKind::LBracket => "LBracket",
        TokenKind::RBracket => "RBracket",
        TokenKind::Error => "Error",
    }
}

impl TokenTypes {
    /// The class of this token.
    pub fn token_kind(&self) -> (k: TokenKind)
        ensures
            k == self.kind(),
    {
        match self {
            TokenTypes::Def => TokenKind::Def,
            TokenTypes::Type(_) => TokenKind::Type,
            TokenTypes::Ident(_) => TokenKind::Ident,
            TokenTypes::LParen => TokenKind::LParen,
            TokenTypes::RParen => TokenKind::RParen,
            TokenTypes::Comma => TokenKind::Comma,
            TokenTypes::Semicolon => TokenKind::Semicolon,
            TokenTypes::Assign => TokenKind::Assign,
            TokenTypes::Plus => TokenKind::Plus,
            TokenTypes::PlusAssign => TokenKind::PlusAssign,
            TokenTypes::Minus => TokenKind::Minus,
            TokenTypes::MinusEqual => TokenKind::MinusEqual,
            TokenTypes::Asterisk => TokenKind::Asterisk,
            TokenTypes::AsteriskEqual => TokenKind::AsteriskEqual,
            TokenTypes::Divide => TokenKind::Divide,
            TokenTypes::DivideEqual => TokenKind::DivideEqual,
            TokenTypes::Modulo => TokenKind::Modulo,
            TokenTypes::ModuloEqual => TokenKind::ModuloEqual,
            TokenTypes::If => TokenKind::If,
            TokenTypes::Then => TokenKind::Then,
            TokenTypes::Else => TokenKind::Else,
            TokenTypes::Fi => TokenKind::Fi,
            TokenTypes::While => TokenKind::While,
            TokenTypes::Do => TokenKind::Do,
            TokenTypes::Od => TokenKind::Od,
            TokenTypes::Print => TokenKind::Print,
            TokenTypes::Return => TokenKind::Return,
            TokenTypes::Eof => TokenKind::Eof,
            TokenTypes::IntegerLiteral(_) => TokenKind::IntegerLiteral,
            TokenTypes::DoubleLiteral(_) => TokenKind::DoubleLiteral,
            TokenTypes::Or => TokenKind::Or,
            TokenTypes::And => TokenKind::And,
            TokenTypes::Not => TokenKind::Not,
            TokenTypes::Less => TokenKind::Less,
            TokenTypes::Greater => TokenKind::Greater,
            TokenTypes::Equal => TokenKind::Equal,
            TokenTypes::LessEqual => TokenKind::LessEqual,
            TokenTypes::GreaterEqual => TokenKind::GreaterEqual,
            TokenTypes::NotEqual => TokenKind::NotEqual,
            TokenTypes::LBracket => TokenKind::LBracket,
            TokenTypes::RBracket => TokenKind::RBracket,
            TokenTypes::Error => TokenKind::Error,
        }
    }

    /// The text of this token class and payload.
    pub fn describe(&self) -> (r: String)
        ensures
            r@ == describe(*self),
    {
        proof {
            reveal_strlit("(");
            reveal_strlit(")");
            reveal_strlit("-");
        }
        let name = String::from_str(kind_str(self.token_kind()));
        match self {
            TokenTypes::Type(s) | TokenTypes::Ident(s) | TokenTypes::DoubleLiteral(s) => {
                let r = name.concat("(").concat(s.as_str()).concat(")");
                assert(r@ =~= describe(*self));
                r
            },
            TokenTypes::IntegerLiteral(v) => {
                let digits = if *v < 0 {
                    let m = (-(*v as i64)) as u64;
                    String::from_str("-").concat(decimal_string(m).as_str())
                } else {
                    decimal_string(*v as u64)
                };
                let r = name.concat("(").concat(digits.as_str()).concat(")");
                assert(r@ =~= describe(*self));
                r
            },
            _ => name,
        }
    }
}

/// The header of a token report.
pub open spec fn report_header() -> Seq<Seq<char>> {
    seq![
        seq!['T', 'o', 'k', 'e', 'n', ' ', 'T', 'y', 'p', 'e'],
        seq!['L', 'i', 'n', 'e', ' ', 'N', 'u', 'm', 'b', 'e', 'r'],
        seq!['C', 'o', 'l', 'u', 'm', 'n', ' ', 'N', 'u', 'm', 'b', 'e', 'r'],
        seq!['L', 'e', 'x', 'e', 'm', 'e'],
    ]
}

/// The report row of a token: its class text, lexeme, line and column.
pub open spec fn token_row(t: Token) -> Seq<Seq<char>> {
    seq![describe(t.token_type), t.lexeme@, decimal(t.line_number as nat), decimal(t.column_number as nat)]
}

/// The rows of the tokens that are errors (`errors`) or that are not.
pub open spec fn report_rows(ts: Seq<Token>, errors: bool) -> Seq<Seq<Seq<char>>>
    decreases ts.len(),
{
    if ts.len() == 0 {
        Seq::empty()
    } else if (ts.last().token_type.kind() == TokenKind::Error) == errors {
        report_rows(ts.drop_last(), errors).push(token_row(ts.last()))
    } else {
        report_rows(ts.drop_last(), errors)
    }
}

fn header_cells() -> (h: Vec<String>)
    ensures
        strs(h@) == report_header(),
{
    proof {
        reveal_strlit("Token Type");
        reveal_strlit("Line Number");
        reveal_strlit("Column Number");
        reveal_strlit("Lexeme");
    }
    let mut h: Vec<String> = Vec::new();
    h.push(String::from_str("Token Type"));
    h.push(String::from_str("Line Number"));
    h.push(String::from_str("Column Number"));
    h.push(String::from_str("Lexeme"));
    assert(("Token Type")@ =~= report_header()[0]);
    assert(("Line Number")@ =~= report_header()[1]);
    assert(("Column Number")@ =~= report_header()[2]);
    assert(("Lexeme")@ =~= report_header()[3]);
    assert(strs(h@) =~= report_header());
    h
}

/// The report table of the error tokens (`errors`) or of the others, one
/// row per token in order.
pub fn token_report(tokens: &Vec<Token>, errors: bool) -> (r: String)
    ensures
        r@ == table_text(Some(report_header()), report_rows(tokens@, errors)),
{
    let mut table = new_table();
    set_header(&mut table, header_cells());
    let mut i: usize = 0;
    assert(tokens@.take(0) =~= Seq::<Token>::empty());
    while i < tokens.len()
        invariant
            i <= tokens@.len(),
            table_header(table) == Some(report_header()),
            table_rows(table) == report_rows(tokens@.take(i as int), errors),
        decreases tokens@.len() - i,
    {
        let t = &tokens[i];
        assert(tokens@.take(i + 1).drop_last() =~= tokens@.take(i as int));
        assert(tokens@.take(i + 1).last() == *t);
        let is_error = match t.token_type {
            TokenTypes::Error => true,
            _ => false,
        };
        if is_error == errors {
            let mut row: Vec<String> = Vec::new();
            row.push(t.token_type.describe());
            row.push(t.lexeme.clone());
            row.push(decimal_string(t.line_number as u64));
            row.push(decimal_string(t.column_number as u64));
            assert(strs(row@) =~= token_row(*t));
            add_row(&mut table, row);
        }
        i = i + 1;
    }
    assert(tokens@.take(tokens@.len() as int) =~= tokens@);
    render(&table)
}

} // verus!
