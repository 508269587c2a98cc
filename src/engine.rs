//! The predictive parse: a stack machine driven by the prediction table,
//! one token of lookahead, no backtracking.
use vstd::prelude::*;
use crate::grammar::{Cfg, Grammar, Sym, END_MARKER};
use crate::table::ParseTable;

verus! {

/// Steps the parser takes at most before it gives up.
pub const STEP_LIMIT: u64 = 0xffff_ffff_ffff_ffff;

/// A classified input token: its terminal, an optional literal payload and
/// its source position.
#[derive(Clone, Debug)]
pub struct ParseToken {
    pub tag: usize,
    pub literal: Option<String>,
    pub line: usize,
    pub column: usize,
}

/// The first failure of a parse, at the token with index `index`.
#[derive(Clone, Copy, PartialEq, Eq, Structural, Debug)]
pub enum ParseError {
    /// The stack expected terminal `expected`; the token is `found`.
    UnexpectedToken { expected: usize, found: usize, index: usize, line: usize, column: usize },
    /// No production of `nonterminal` predicts `lookahead`.
    NoRule { nonterminal: usize, lookahead: usize, index: usize, line: usize, column: usize },
    /// The input ended while the stack expected terminal `expected`.
    PrematureEndOfInput { expected: usize, index: usize, line: usize, column: usize },
    /// The machine ran for the whole step budget without halting.
    StepLimit,
}

impl ParseError {
    /// Index of the token at which the parse failed, if any.
    pub open spec fn at(&self) -> Option<usize> {
        match *self {
            ParseError::UnexpectedToken { index, .. } => Some(index),
            ParseError::NoRule { index, .. } => Some(index),
            ParseError::PrematureEndOfInput { index, .. } => Some(index),
            ParseError::StepLimit => None,
        }
    }
}

/// What one step of the machine does.
pub enum Step {
    Accept,
    Fail(ParseError),
    Go(Seq<Sym>, nat),
    Stuck,
}

/// `body` in reverse order: pushed this way, its first symbol ends on top.
pub open spec fn reversed(body: Seq<Sym>) -> Seq<Sym> {
    Seq::new(body.len(), |i: int| body[body.len() - 1 - i])
}

/// The tokens end with `$`, hold it nowhere else, and name terminals of `g`.
pub open spec fn tokens_ok(g: Cfg, toks: Seq<ParseToken>) -> bool {
    &&& toks.len() > 0
    &&& toks.last().tag == END_MARKER
    &&& forall|i: int| 0 <= i < toks.len() - 1 ==> #[trigger] toks[i].tag != END_MARKER
    &&& forall|i: int| 0 <= i < toks.len() ==> #[trigger] toks[i].tag < g.n_terms
}

/// The table has a cell for every nonterminal and terminal of `g`, each
/// naming a production of `g` or none.
pub open spec fn table_fits(g: Cfg, tbl: ParseTable) -> bool {
    &&& tbl.wf()
    &&& tbl.rows == g.n_nonterms
    &&& tbl.cols == g.n_terms
    &&& forall|a: int, t: int|
        0 <= a < g.n_nonterms && 0 <= t < g.n_terms ==> match #[trigger] tbl.entry(a, t) {
            Some(r) => r < g.rules.len(),
            None => true,
        }
}

/// One step: pop the top of the stack; a terminal must match the current
/// token (`$` matching ends the parse), a nonterminal is replaced by the
/// body of the production in its table cell for the current token.
pub open spec fn step(g: Cfg, tbl: ParseTable, toks: Seq<ParseToken>, stack: Seq<Sym>, pos: nat) -> Step {
    if stack.len() == 0 || pos >= toks.len() {
        Step::Stuck
    } else {
        let top = stack.last();
        let rest = stack.drop_last();
        let tok = toks[pos as int];
        match top {
            Sym::Term(u) => if u == tok.tag {
                if u == END_MARKER {
                    Step::Accept
                } else {
                    Step::Go(rest, pos + 1)
                }
            } else if tok.tag == END_MARKER {
                Step::Fail(
                    ParseError::PrematureEndOfInput {
                        expected: u,
                        index: pos as usize,
                        line: tok.line,
                        column: tok.column,
                    },
                )
            } else {
                Step::Fail(
                    ParseError::UnexpectedToken {
                        expected: u,
                        found: tok.tag,
                        index: pos as usize,
                        line: tok.line,
                        column: tok.column,
                    },
                )
            },
            Sym::NonTerm(a) => match tbl.entry(a as int, tok.tag as int) {
                Some(r) => Step::Go(rest + reversed(g.rules[r as int].body), pos),
                None => Step::Fail(
                    ParseError::NoRule {
                        nonterminal: a,
                        lookahead: tok.tag,
                        index: pos as usize,
                        line: tok.line,
                        column: tok.column,
                    },
                ),
            },
        }
    }
}

/// The verdict of at most `fuel` steps from (`stack`, `pos`); `None` when
/// the machine has not halted by then.
pub open spec fn run(
    g: Cfg,
    tbl: ParseTable,
    toks: Seq<ParseToken>,
    stack: Seq<Sym>,
    pos: nat,
    fuel: nat,
) -> Option<Result<(), ParseError>>
    decreases fuel,
{
    if fuel == 0 {
        None
    } else {
        match step(g, tbl, toks, stack, pos) {
            Step::Accept => Some(Ok(())),
            Step::Fail(e) => Some(Err(e)),
            Step::Go(next_stack, next_pos) => run(g, tbl, toks, next_stack, next_pos, (fuel - 1) as nat),
            Step::Stuck => None,
        }
    }
}

/// The stack a parse starts from: `$` under the start symbol.
pub open spec fn initial_stack(g: Cfg) -> Seq<Sym> {
    seq![Sym::Term(END_MARKER), Sym::NonTerm(g.start)]
}

/// The result of a parse of `toks`.
pub open spec fn parse_result(g: Cfg, tbl: ParseTable, toks: Seq<ParseToken>) -> Result<(), ParseError> {
    match run(g, tbl, toks, initial_stack(g), 0, STEP_LIMIT as nat) {
        Some(res) => res,
        None => Err(ParseError::StepLimit),
    }
}

/// Parses `tokens` against the grammar with the given prediction table,
/// reporting acceptance or the first error.
pub fn parse(g: &Grammar, tbl: &ParseTable, tokens: &Vec<ParseToken>) -> (res: Result<(), ParseError>)
    requires
        g.wf(),
        table_fits(g@, *tbl),
        tokens_ok(g@, tokens@),
    ensures
        res == parse_result(g@, *tbl, tokens@),
{
    let ghost gv = g@;
    let mut stack: Vec<Sym> = Vec::new();
    stack.push(Sym::Term(END_MARKER));
    stack.push(Sym::NonTerm(g.start));
    assert(stack@ =~= initial_stack(gv));
    let mut pos: usize = 0;
    let mut fuel: u64 = STEP_LIMIT;
    let n = tokens.len();
    while fuel > 0
        invariant
            gv == g@,
            gv.wf(),
            table_fits(gv, *tbl),
            tokens_ok(gv, tokens@),
            n == tokens@.len(),
            pos < n,
            stack@.len() >= 1,
            stack@[0] == Sym::Term(END_MARKER),
            forall|i: int| 0 <= i < stack@.len() ==> gv.sym_ok(#[trigger] stack@[i]),
            run(gv, *tbl, tokens@, stack@, pos as nat, fuel as nat) == run(
                gv,
                *tbl,
                tokens@,
                initial_stack(gv),
                0,
                STEP_LIMIT as nat,
            ),
        decreases fuel,
    {
        let ghost s0 = stack@;
        let top = stack.pop().unwrap();
        assert(stack@ == s0.drop_last());
        assert(gv.sym_ok(s0[s0.len() - 1]));
        let tok = &tokens[pos];
        match top {
            Sym::Term(u) => {
                if u == tok.tag {
                    if u == END_MARKER {
                        return Ok(());
                    }
                    pos = pos + 1;
                } else if tok.tag == END_MARKER {
                    return Err(
                        ParseError::PrematureEndOfInput {
                            expected: u,
                            index: pos,
                            line: tok.line,
                            column: tok.column,
                        },
                    );
                } else {
                    return Err(
                        ParseError::UnexpectedToken {
                            expected: u,
                            found: tok.tag,
                            index: pos,
                            line: tok.line,
                            column: tok.column,
                        },
                    );
                }
            },
            Sym::NonTerm(a) => {
                match tbl.get(a, tok.tag) {
                    Some(r) => {
                        assert(tbl.entry(a as int, tok.tag as int) == Some(r));
                        let body = &g.productions[r].body;
                        let ghost bs = body@;
                        assert(bs == gv.rules[r as int].body);
                        let ghost rest = stack@;
                        let mut j: usize = body.len();
                        while j > 0
                            invariant
                                j <= bs.len(),
                                bs == body@,
                                gv.wf(),
                                r < gv.rules.len(),
                                bs == gv.rules[r as int].body,
                                stack@ == rest + reversed(bs).take(bs.len() - j),
                                rest.len() >= 1,
                                rest[0] == Sym::Term(END_MARKER),
                                forall|i: int| 0 <= i < stack@.len() ==> gv.sym_ok(#[trigger] stack@[i]),
                            decreases j,
                        {
                            proof {
                                assert(gv.sym_ok(bs[j - 1]));
                            }
                            stack.push(body[j - 1]);
                            j = j - 1;
                            assert(stack@ =~= rest + reversed(bs).take(bs.len() - j));
                        }
                        assert(reversed(bs).take(bs.len() as int) =~= reversed(bs));
                    },
                    None => {
                        return Err(
                            ParseError::NoRule {
                                nonterminal: a,
                                lookahead: tok.tag,
                                index: pos,
                                line: tok.line,
                                column: tok.column,
                            },
                        );
                    },
                }
            },
        }
        fuel = fuel - 1;
    }
    Err(ParseError::StepLimit)
}

} // verus!
