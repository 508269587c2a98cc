//! The grammar model: symbols, productions, and the derivation relation
//! that the analyses are proved against.
use vstd::prelude::*;

verus! {

/// Index of the end-of-input terminal `$` in every grammar.
pub const END_MARKER: usize = 0;

/// A grammar symbol: a terminal or a nonterminal, by index.
#[derive(Clone, Copy, PartialEq, Eq, Structural, Debug)]
pub enum Sym {
    Term(usize),
    NonTerm(usize),
}

/// A production `head ::= body`; an empty body is an epsilon production.
#[derive(Clone, Debug)]
pub struct Production {
    pub head: usize,
    pub body: Vec<Sym>,
}

/// Why a grammar cannot be used.
#[derive(Clone, Copy, PartialEq, Eq, Structural, Debug)]
pub enum GrammarError {
    /// Rule line `line` is not of the form `Head ::= Symbol ..`.
    MalformedRule { line: usize },
    /// The start symbol has no production (a malformed grammar).
    NoStartRule,
    /// A body symbol of the rule at `rule` (in the order given) is neither a
    /// listed terminal nor a nonterminal with a production (a malformed
    /// grammar).
    UndefinedSymbol { rule: usize, position: usize },
    /// Productions `rule_a` and `rule_b` of `nonterminal` both claim the
    /// table cell for `lookahead`: the grammar is not LL(1).
    GrammarNotLL1 { nonterminal: usize, lookahead: usize, rule_a: usize, rule_b: usize },
}

/// A production as a mathematical value.
pub struct Rule {
    pub head: usize,
    pub body: Seq<Sym>,
}

/// A grammar as a mathematical value: symbol counts, rules, start symbol.
pub struct Cfg {
    pub n_terms: nat,
    pub n_nonterms: nat,
    pub rules: Seq<Rule>,
    pub start: usize,
}

/// A grammar: terminal names (`$` first), nonterminal names, productions in
/// declaration order, and the start nonterminal.
pub struct Grammar {
    pub terminals: Vec<String>,
    pub nonterminals: Vec<String>,
    pub productions: Vec<Production>,
    pub start: usize,
}

impl Production {
    pub open spec fn rule(&self) -> Rule {
        Rule { head: self.head, body: self.body@ }
    }
}

impl View for Grammar {
    type V = Cfg;

    open spec fn view(&self) -> Cfg {
        Cfg {
            n_terms: self.terminals@.len(),
            n_nonterms: self.nonterminals@.len(),
            rules: self.productions@.map_values(|p: Production| p.rule()),
            start: self.start,
        }
    }
}

impl Cfg {
    pub open spec fn sym_ok(&self, x: Sym) -> bool {
        match x {
            Sym::Term(t) => t < self.n_terms,
            Sym::NonTerm(a) => a < self.n_nonterms,
        }
    }

    /// Every index in the grammar is in range and `$` exists.
    pub open spec fn wf(&self) -> bool {
        &&& self.n_terms > END_MARKER
        &&& self.start < self.n_nonterms
        &&& forall|r: int|
            0 <= r < self.rules.len() ==> {
                &&& (#[trigger] self.rules[r]).head < self.n_nonterms
                &&& forall|i: int| 0 <= i < self.rules[r].body.len() ==> self.sym_ok(self.rules[r].body[i])
            }
    }

    /// Position `i` of `s` holds the head of rule `r`.
    pub open spec fn can_apply(&self, s: Seq<Sym>, i: int, r: int) -> bool {
        0 <= i < s.len() && 0 <= r < self.rules.len() && s[i] == Sym::NonTerm(self.rules[r].head)
    }

    /// `s` with position `i` replaced by the body of rule `r`.
    pub open spec fn apply(&self, s: Seq<Sym>, i: int, r: int) -> Seq<Sym> {
        s.take(i) + self.rules[r].body + s.skip(i + 1)
    }

    /// One step: a nonterminal occurrence in `s` is replaced by the body of
    /// one of its productions, giving `t`.
    pub open spec fn rewrites(&self, s: Seq<Sym>, t: Seq<Sym>) -> bool {
        exists|i: int, r: int| self.can_apply(s, i, r) && t == #[trigger] self.apply(s, i, r)
    }

    /// `s` rewrites to `t` in exactly `n` steps.
    pub open spec fn derives_in(&self, s: Seq<Sym>, t: Seq<Sym>, n: nat) -> bool
        decreases n,
    {
        if n == 0 {
            s == t
        } else {
            exists|m: Seq<Sym>| #[trigger] self.rewrites(s, m) && self.derives_in(m, t, (n - 1) as nat)
        }
    }

    /// `s` rewrites to `t` in finitely many steps.
    pub open spec fn derives(&self, s: Seq<Sym>, t: Seq<Sym>) -> bool {
        exists|n: nat| self.derives_in(s, t, n)
    }
}

impl Grammar {
    pub open spec fn wf(&self) -> bool {
        &&& self@.wf()
        &&& self.productions@.len() <= usize::MAX
        &&& self.nonterminals@.len() * self.terminals@.len() <= usize::MAX
    }

    pub fn n_terms(&self) -> (r: usize)
        ensures
            r == self@.n_terms,
    {
        self.terminals.len()
    }

    pub fn n_nonterms(&self) -> (r: usize)
        ensures
            r == self@.n_nonterms,
    {
        self.nonterminals.len()
    }

    pub fn n_productions(&self) -> (r: usize)
        ensures
            r == self@.rules.len(),
    {
        self.productions.len()
    }
}

} // verus!
