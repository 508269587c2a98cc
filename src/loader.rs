//! Building a grammar from named rules.
use vstd::prelude::*;
use crate::engine::ParseToken;
use crate::grammar::{Grammar, GrammarError, Production, Sym, END_MARKER};

verus! {

/// A rule written with names: `head ::= body[0] body[1] ..`.
#[derive(Clone, Debug)]
pub struct RuleText {
    pub head: String,
    pub body: Vec<String>,
}

/// The text of each string.
pub open spec fn strs(v: Seq<String>) -> Seq<Seq<char>> {
    v.map_values(|s: String| s@)
}

impl View for RuleText {
    type V = (Seq<char>, Seq<Seq<char>>);

    open spec fn view(&self) -> (Seq<char>, Seq<Seq<char>>) {
        (self.head@, strs(self.body@))
    }
}

/// The rules as names.
pub open spec fn rule_texts(rs: Seq<RuleText>) -> Seq<(Seq<char>, Seq<Seq<char>>)> {
    rs.map_values(|r: RuleText| r@)
}

/// `s` with every element that occurred earlier removed.
pub open spec fn dedup<A>(s: Seq<A>) -> Seq<A>
    decreases s.len(),
{
    if s.len() == 0 {
        s
    } else if s.drop_last().contains(s.last()) {
        dedup(s.drop_last())
    } else {
        dedup(s.drop_last()).push(s.last())
    }
}

/// The name of the end-of-input terminal.
pub open spec fn end_name() -> Seq<char> {
    seq!['$']
}

/// Heads of the rules, each once, in order of first appearance.
pub open spec fn rule_heads(rs: Seq<(Seq<char>, Seq<Seq<char>>)>) -> Seq<Seq<char>> {
    dedup(rs.map_values(|r: (Seq<char>, Seq<Seq<char>>)| r.0))
}

/// A symbol name that is a rule head, `$`, or a listed terminal.
pub open spec fn defined(rs: Seq<(Seq<char>, Seq<Seq<char>>)>, terms: Seq<Seq<char>>, name: Seq<char>) -> bool {
    rule_heads(rs).contains(name) || name == end_name() || terms.contains(name)
}

/// Symbol `j` of rule `i` is not defined.
pub open spec fn undefined_at(rs: Seq<(Seq<char>, Seq<Seq<char>>)>, terms: Seq<Seq<char>>, i: int, j: int) -> bool {
    0 <= i < rs.len() && 0 <= j < rs[i].1.len() && !defined(rs, terms, rs[i].1[j])
}

/// The name of a symbol, given the terminal and nonterminal names.
pub open spec fn name_of(terms: Seq<String>, nts: Seq<String>, x: Sym) -> Seq<char> {
    match x {
        Sym::Term(t) => terms[t as int]@,
        Sym::NonTerm(a) => nts[a as int]@,
    }
}

/// A production written with names.
pub open spec fn text_of(terms: Seq<String>, nts: Seq<String>, p: Production) -> (Seq<char>, Seq<Seq<char>>) {
    (nts[p.head as int]@, p.body@.map_values(|x: Sym| name_of(terms, nts, x)))
}

impl Grammar {
    /// The productions written with names.
    pub open spec fn named_rules(&self) -> Seq<(Seq<char>, Seq<Seq<char>>)> {
        self.productions@.map_values(|p: Production| text_of(self.terminals@, self.nonterminals@, p))
    }

    /// A body symbol is a nonterminal exactly when its name is one.
    pub open spec fn heads_are_nonterminals(&self) -> bool {
        forall|p: int, j: int|
            0 <= p < self.productions@.len() && 0 <= j < self.productions@[p].body@.len() ==> ((
            #[trigger] self.productions@[p].body@[j]) is NonTerm <==> strs(self.nonterminals@).contains(
                name_of(self.terminals@, self.nonterminals@, self.productions@[p].body@[j]),
            ))
    }
}

proof fn lemma_contains_split<A>(s: Seq<A>, x: A)
    requires
        s.len() > 0,
    ensures
        s.contains(x) == (s.drop_last().contains(x) || s.last() == x),
{
    if s.contains(x) {
        let k = choose|k: int| 0 <= k < s.len() && s[k] == x;
        if k < s.len() - 1 {
            assert(s.drop_last()[k] == x);
        }
    }
    if s.drop_last().contains(x) {
        let k = choose|k: int| 0 <= k < s.len() - 1 && s.drop_last()[k] == x;
        assert(s[k] == x);
    }
    if s.last() == x {
        assert(s[s.len() - 1] == x);
    }
}

proof fn lemma_push_contains<A>(s: Seq<A>, y: A, x: A)
    ensures
        s.push(y).contains(x) == (s.contains(x) || y == x),
{
    lemma_contains_split(s.push(y), x);
    assert(s.push(y).drop_last() =~= s);
}

pub proof fn lemma_dedup_contains<A>(s: Seq<A>, x: A)
    ensures
        dedup(s).contains(x) == s.contains(x),
    decreases s.len(),
{
    if s.len() > 0 {
        let d = s.drop_last();
        lemma_dedup_contains(d, x);
        lemma_contains_split(s, x);
        if d.contains(s.last()) {
            lemma_dedup_contains(d, s.last());
        } else {
            lemma_push_contains(dedup(d), s.last(), x);
        }
    }
}

pub proof fn lemma_dedup_len<A>(s: Seq<A>)
    ensures
        dedup(s).len() <= s.len(),
    decreases s.len(),
{
    if s.len() > 0 {
        lemma_dedup_len(s.drop_last());
    }
}

/// Position of the first string in `v` equal to `s`.
fn index_of(v: &Vec<String>, s: &String) -> (r: Option<usize>)
    ensures
        match r {
            Some(k) => k < v@.len() && v@[k as int]@ == s@,
            None => !strs(v@).contains(s@),
        },
{
    let mut k: usize = 0;
    while k < v.len()
        invariant
            k <= v@.len(),
            forall|j: int| 0 <= j < k ==> v@[j]@ != s@,
        decreases v@.len() - k,
    {
        if v[k] == *s {
            return Some(k);
        }
        k = k + 1;
    }
    assert(!strs(v@).contains(s@)) by {
        if strs(v@).contains(s@) {
            let j = choose|j: int| 0 <= j < strs(v@).len() && strs(v@)[j] == s@;
            assert(v@[j]@ == s@);
        }
    }
    None
}

/// Two rules have the same head and body names.
fn same_rule(x: &RuleText, y: &RuleText) -> (r: bool)
    ensures
        r == (x@ == y@),
{
    if x.head != y.head || x.body.len() != y.body.len() {
        assert(x@ != y@ ==> x.head@ != y.head@ || strs(x.body@) != strs(y.body@));
        if x.body.len() != y.body.len() {
            assert(strs(x.body@).len() != strs(y.body@).len());
        }
        return false;
    }
    let mut j: usize = 0;
    while j < x.body.len()
        invariant
            j <= x.body@.len(),
            x.body@.len() == y.body@.len(),
            forall|i: int| 0 <= i < j ==> x.body@[i]@ == y.body@[i]@,
        decreases x.body@.len() - j,
    {
        if x.body[j] != y.body[j] {
            assert(strs(x.body@)[j as int] != strs(y.body@)[j as int]);
            return false;
        }
        j = j + 1;
    }
    assert(strs(x.body@) =~= strs(y.body@));
    true
}

proof fn lemma_strs_push(v: Seq<String>, x: String)
    ensures
        strs(v.push(x)) == strs(v).push(x@),
{
    assert(strs(v.push(x)) =~= strs(v).push(x@));
}

/// Heads of the rules, each once, in order of first appearance.
fn collect_heads(rules: &Vec<RuleText>) -> (heads: Vec<String>)
    ensures
        strs(heads@) == rule_heads(rule_texts(rules@)),
        heads@.len() <= rules@.len(),
{
    let ghost hs = rule_texts(rules@).map_values(|r: (Seq<char>, Seq<Seq<char>>)| r.0);
    let mut heads: Vec<String> = Vec::new();
    let mut i: usize = 0;
    assert(hs.take(0) =~= Seq::<Seq<char>>::empty());
    while i < rules.len()
        invariant
            i <= rules@.len(),
            hs == rule_texts(rules@).map_values(|r: (Seq<char>, Seq<Seq<char>>)| r.0),
            strs(heads@) == dedup(hs.take(i as int)),
        decreases rules@.len() - i,
    {
        let ghost prev = hs.take(i as int);
        let ghost next = hs.take(i + 1);
        assert(next.drop_last() =~= prev);
        assert(next.last() == rules@[i as int].head@);
        proof {
            lemma_dedup_contains(prev, rules@[i as int].head@);
        }
        let found = index_of(&heads, &rules[i].head);
        if found.is_none() {
            let h = rules[i].head.clone();
            proof {
                lemma_strs_push(heads@, h);
            }
            heads.push(h);
            assert(!prev.contains(next.last()));
            assert(strs(heads@) == dedup(next));
        } else {
            let k = found.unwrap();
            assert(strs(heads@)[k as int] == next.last());
            assert(prev.contains(next.last()));
            assert(strs(heads@) == dedup(next));
        }
        i = i + 1;
    }
    assert(hs.take(rules@.len() as int) =~= hs);
    proof {
        lemma_dedup_len(hs);
    }
    heads
}

/// `$` followed by the listed terminal names.
fn terminal_names(terminals: &Vec<String>) -> (terms: Vec<String>)
    ensures
        strs(terms@) == seq![end_name()] + strs(terminals@),
{
    let mut terms: Vec<String> = Vec::new();
    proof {
        reveal_strlit("$");
    }
    let end = String::from_str("$");
    assert(end@ =~= end_name());
    proof {
        lemma_strs_push(terms@, end);
    }
    terms.push(end);
    assert(strs(terms@) =~= seq![end_name()] + strs(terminals@.take(0)));
    let mut k: usize = 0;
    while k < terminals.len()
        invariant
            k <= terminals@.len(),
            strs(terms@) == seq![end_name()] + strs(terminals@.take(k as int)),
        decreases terminals@.len() - k,
    {
        let t = terminals[k].clone();
        proof {
            lemma_strs_push(terms@, t);
            assert(strs(terminals@.take(k + 1)) =~= strs(terminals@.take(k as int)).push(t@));
        }
        terms.push(t);
        k = k + 1;
    }
    assert(terminals@.take(terminals@.len() as int) =~= terminals@);
    terms
}

proof fn lemma_cons_contains(e: Seq<char>, s: Seq<Seq<char>>, x: Seq<char>)
    ensures
        (seq![e] + s).contains(x) == (e == x || s.contains(x)),
{
    let c = seq![e] + s;
    if c.contains(x) {
        let k = choose|k: int| 0 <= k < c.len() && c[k] == x;
        if k > 0 {
            assert(s[k - 1] == x);
        }
    }
    if s.contains(x) {
        let k = choose|k: int| 0 <= k < s.len() && s[k] == x;
        assert(c[k + 1] == x);
    }
    if e == x {
        assert(c[0] == x);
    }
}

/// The symbol a name stands for: a nonterminal when it is a head, else a
/// terminal; `None` when it is neither.
fn resolve(heads: &Vec<String>, terms: &Vec<String>, name: &String) -> (r: Option<Sym>)
    ensures
        match r {
            Some(x) => {
                &&& name_of(terms@, heads@, x) == name@
                &&& match x {
                    Sym::Term(t) => t < terms@.len(),
                    Sym::NonTerm(a) => a < heads@.len(),
                }
                &&& (x is NonTerm <==> strs(heads@).contains(name@))
                &&& (strs(heads@).contains(name@) || strs(terms@).contains(name@))
            },
            None => !strs(heads@).contains(name@) && !strs(terms@).contains(name@),
        },
{
    match index_of(heads, name) {
        Some(a) => {
            assert(strs(heads@)[a as int] == name@);
            Some(Sym::NonTerm(a))
        },
        None => match index_of(terms, name) {
            Some(t) => {
                assert(strs(terms@)[t as int] == name@);
                Some(Sym::Term(t))
            },
            None => None,
        },
    }
}

/// The first undefined body symbol, in rule order and then body order.
fn first_undefined(rules: &Vec<RuleText>, terminals: &Vec<String>, heads: &Vec<String>, terms: &Vec<String>) -> (r: Option<(usize, usize)>)
    requires
        strs(heads@) == rule_heads(rule_texts(rules@)),
        strs(terms@) == seq![end_name()] + strs(terminals@),
    ensures
        match r {
            Some((i, j)) => {
                &&& undefined_at(rule_texts(rules@), strs(terminals@), i as int, j as int)
                &&& forall|i2: int, j2: int| 0 <= i2 < i ==> !undefined_at(rule_texts(rules@), strs(terminals@), i2, j2)
                &&& forall|j2: int| 0 <= j2 < j ==> !undefined_at(rule_texts(rules@), strs(terminals@), i as int, j2)
            },
            None => forall|i2: int, j2: int| !undefined_at(rule_texts(rules@), strs(terminals@), i2, j2),
        },
{
    let ghost rt = rule_texts(rules@);
    let ghost ts = strs(terminals@);
    let mut i: usize = 0;
    while i < rules.len()
        invariant
            rt == rule_texts(rules@),
            ts == strs(terminals@),
            strs(heads@) == rule_heads(rt),
            strs(terms@) == seq![end_name()] + ts,
            i <= rules@.len(),
            forall|i2: int, j2: int| 0 <= i2 < i ==> !undefined_at(rt, ts, i2, j2),
        decreases rules@.len() - i,
    {
        let body = &rules[i].body;
        assert(rt[i as int].1 == strs(body@));
        let mut j: usize = 0;
        while j < body.len()
            invariant
                rt == rule_texts(rules@),
                ts == strs(terminals@),
                strs(heads@) == rule_heads(rt),
                strs(terms@) == seq![end_name()] + ts,
                i < rules@.len(),
                body == rules@[i as int].body,
                rt[i as int].1 == strs(body@),
                j <= body@.len(),
                forall|i2: int, j2: int| 0 <= i2 < i ==> !undefined_at(rt, ts, i2, j2),
                forall|j2: int| 0 <= j2 < j ==> !undefined_at(rt, ts, i as int, j2),
            decreases body@.len() - j,
        {
            let name = &body[j];
            assert(rt[i as int].1[j as int] == name@);
            proof {
                lemma_cons_contains(end_name(), ts, name@);
            }
            if resolve(heads, terms, name).is_none() {
                return Some((i, j));
            }
            j = j + 1;
        }
        i = i + 1;
    }
    None
}

/// The rules as productions over the given names, duplicates dropped.
fn build_productions(rules: &Vec<RuleText>, terminals: &Vec<String>, heads: &Vec<String>, terms: &Vec<String>) -> (prods: Vec<Production>)
    requires
        strs(heads@) == rule_heads(rule_texts(rules@)),
        strs(terms@) == seq![end_name()] + strs(terminals@),
        forall|i2: int, j2: int| !undefined_at(rule_texts(rules@), strs(terminals@), i2, j2),
    ensures
        prods@.map_values(|p: Production| text_of(terms@, heads@, p)) == dedup(rule_texts(rules@)),
        forall|p: int| 0 <= p < prods@.len() ==> {
            &&& (#[trigger] prods@[p]).head < heads@.len()
            &&& forall|j: int| 0 <= j < prods@[p].body@.len() ==> match #[trigger] prods@[p].body@[j] {
                Sym::Term(t) => t < terms@.len(),
                Sym::NonTerm(a) => a < heads@.len(),
            }
            &&& forall|j: int| 0 <= j < prods@[p].body@.len() ==> ((#[trigger] prods@[p].body@[j]) is NonTerm
                <==> strs(heads@).contains(name_of(terms@, heads@, prods@[p].body@[j])))
        },
        prods@.len() <= rules@.len(),
{
    let ghost rt = rule_texts(rules@);
    let ghost ts = strs(terminals@);
    let mut prods: Vec<Production> = Vec::new();
    let mut i: usize = 0;
    assert(rt.take(0) =~= Seq::<(Seq<char>, Seq<Seq<char>>)>::empty());
    assert(prods@.map_values(|p: Production| text_of(terms@, heads@, p)) =~= dedup(rt.take(0)));
    while i < rules.len()
        invariant
            rt == rule_texts(rules@),
            ts == strs(terminals@),
            strs(heads@) == rule_heads(rt),
            strs(terms@) == seq![end_name()] + ts,
            forall|i2: int, j2: int| !undefined_at(rt, ts, i2, j2),
            i <= rules@.len(),
            prods@.map_values(|p: Production| text_of(terms@, heads@, p)) == dedup(rt.take(i as int)),
            prods@.len() <= i,
            forall|p: int| 0 <= p < prods@.len() ==> {
                &&& (#[trigger] prods@[p]).head < heads@.len()
                &&& forall|j: int| 0 <= j < prods@[p].body@.len() ==> match #[trigger] prods@[p].body@[j] {
                    Sym::Term(t) => t < terms@.len(),
                    Sym::NonTerm(a) => a < heads@.len(),
                }
                &&& forall|j: int| 0 <= j < prods@[p].body@.len() ==> ((#[trigger] prods@[p].body@[j]) is NonTerm
                    <==> strs(heads@).contains(name_of(terms@, heads@, prods@[p].body@[j])))
            },
        decreases rules@.len() - i,
    {
        let ghost prev = rt.take(i as int);
        let ghost next = rt.take(i + 1);
        assert(next.drop_last() =~= prev);
        assert(next.last() == rt[i as int]);
        let mut dup = false;
        let mut k: usize = 0;
        while k < i
            invariant
                rt == rule_texts(rules@),
                i < rules@.len(),
                k <= i,
                prev == rt.take(i as int),
                dup == exists|k2: int| 0 <= k2 < k && rt[k2] == rt[i as int],
            decreases i - k,
        {
            assert(rt[k as int] == rules@[k as int]@);
            assert(rt[i as int] == rules@[i as int]@);
            if same_rule(&rules[k], &rules[i]) {
                dup = true;
            }
            k = k + 1;
        }
        assert(dup == prev.contains(rt[i as int])) by {
            if dup {
                let k2 = choose|k2: int| 0 <= k2 < i && rt[k2] == rt[i as int];
                assert(prev[k2] == rt[i as int]);
            }
            if prev.contains(rt[i as int]) {
                let k2 = choose|k2: int| 0 <= k2 < prev.len() && prev[k2] == rt[i as int];
                assert(rt[k2] == rt[i as int]);
            }
        }
        if !dup {
            let rule = &rules[i];
            proof {
                lemma_dedup_contains(rt.map_values(|r: (Seq<char>, Seq<Seq<char>>)| r.0), rule.head@);
                assert(rt.map_values(|r: (Seq<char>, Seq<Seq<char>>)| r.0)[i as int] == rule.head@);
            }
            let a = match index_of(heads, &rule.head) {
                Some(a) => a,
                None => {
                    assert(strs(heads@).contains(rule.head@));
                    return prods;
                },
            };
            let mut body: Vec<Sym> = Vec::new();
            let mut j: usize = 0;
            while j < rule.body.len()
                invariant
                    rt == rule_texts(rules@),
                    ts == strs(terminals@),
                    strs(heads@) == rule_heads(rt),
                    strs(terms@) == seq![end_name()] + ts,
                    forall|i2: int, j2: int| !undefined_at(rt, ts, i2, j2),
                    i < rules@.len(),
                    rule == rules@[i as int],
                    rt[i as int] == rule@,
                    j <= rule.body@.len(),
                    body@.len() == j,
                    body@.map_values(|x: Sym| name_of(terms@, heads@, x)) == strs(rule.body@).take(j as int),
                    forall|j2: int| 0 <= j2 < j ==> match #[trigger] body@[j2] {
                        Sym::Term(t) => t < terms@.len(),
                        Sym::NonTerm(a) => a < heads@.len(),
                    },
                    forall|j2: int| 0 <= j2 < j ==> ((#[trigger] body@[j2]) is NonTerm <==> strs(heads@).contains(
                        name_of(terms@, heads@, body@[j2]),
                    )),
                decreases rule.body@.len() - j,
            {
                let name = &rule.body[j];
                assert(rt[i as int].1[j as int] == name@);
                assert(!undefined_at(rt, ts, i as int, j as int));
                proof {
                    lemma_cons_contains(end_name(), ts, name@);
                }
                let x = match resolve(heads, terms, name) {
                    Some(x) => x,
                    None => {
                        return prods;
                    },
                };
                let ghost before = body@;
                body.push(x);
                assert(body@.map_values(|x: Sym| name_of(terms@, heads@, x)) =~= strs(rule.body@).take(j + 1));
                j = j + 1;
            }
            assert(strs(rule.body@).take(rule.body@.len() as int) =~= strs(rule.body@));
            let p = Production { head: a, body };
            assert(text_of(terms@, heads@, p) == rt[i as int]);
            let ghost old_prods = prods@;
            prods.push(p);
            assert(prods@.map_values(|p: Production| text_of(terms@, heads@, p)) =~= old_prods.map_values(
                |p: Production| text_of(terms@, heads@, p),
            ).push(rt[i as int]));
        }
        i = i + 1;
    }
    assert(rt.take(rules@.len() as int) =~= rt);
    prods
}

/// `res` is what loading the rules `rt` over the terminal names `ts` with
/// start symbol `start` gives.
pub open spec fn loaded(
    ts: Seq<Seq<char>>,
    rt: Seq<(Seq<char>, Seq<Seq<char>>)>,
    start: Seq<char>,
    res: Result<Grammar, GrammarError>,
) -> bool {
    match res {
        Ok(g) => {
            &&& g.wf()
            &&& rule_heads(rt).contains(start)
            &&& forall|i: int, j: int| !undefined_at(rt, ts, i, j)
            &&& strs(g.terminals@) == seq![end_name()] + ts
            &&& strs(g.nonterminals@) == rule_heads(rt)
            &&& g.nonterminals@[g.start as int]@ == start
            &&& g.named_rules() == dedup(rt)
            &&& g.heads_are_nonterminals()
        },
        Err(GrammarError::NoStartRule) => !rule_heads(rt).contains(start),
        Err(GrammarError::UndefinedSymbol { rule, position }) => {
            &&& rule_heads(rt).contains(start)
            &&& undefined_at(rt, ts, rule as int, position as int)
            &&& forall|i2: int, j2: int| 0 <= i2 < rule ==> !undefined_at(rt, ts, i2, j2)
            &&& forall|j2: int| 0 <= j2 < position ==> !undefined_at(rt, ts, rule as int, j2)
        },
        _ => false,
    }
}

impl Grammar {
    /// The index of the first terminal named `name`.
    pub fn terminal_index(&self, name: &String) -> (r: Option<usize>)
        ensures
            match r {
                Some(t) => t < self@.n_terms && self.terminals@[t as int]@ == name@,
                None => !strs(self.terminals@).contains(name@),
            },
    {
        index_of(&self.terminals, name)
    }

    /// The index of the nonterminal named `name`.
    pub fn nonterminal_index(&self, name: &String) -> (r: Option<usize>)
        ensures
            match r {
                Some(a) => a < self@.n_nonterms && self.nonterminals@[a as int]@ == name@,
                None => !strs(self.nonterminals@).contains(name@),
            },
    {
        index_of(&self.nonterminals, name)
    }

    /// Builds a grammar from named rules: the heads become the
    /// nonterminals, in order of first appearance; `$` followed by
    /// `terminals` become the terminals; a rule that repeats an earlier one
    /// is dropped. Fails with `NoStartRule` when `start` heads no rule, and
    /// otherwise with `UndefinedSymbol` at the first body name that is
    /// neither a head, `$`, nor a listed terminal.
    pub fn load(terminals: &Vec<String>, rules: &Vec<RuleText>, start: &String) -> (res: Result<Grammar, GrammarError>)
        requires
            rules@.len() * (terminals@.len() + 1) <= usize::MAX,
        ensures
            loaded(strs(terminals@), rule_texts(rules@), start@, res),
    {
        let n_rules = rules.len();
        let heads = collect_heads(rules);
        let start_index = match index_of(&heads, start) {
            Some(s) => s,
            None => {
                return Err(GrammarError::NoStartRule);
            },
        };
        assert(strs(heads@)[start_index as int] == start@);
        let terms = terminal_names(terminals);
        if let Some((i, j)) = first_undefined(rules, terminals, &heads, &terms) {
            return Err(GrammarError::UndefinedSymbol { rule: i, position: j });
        }
        let prods = build_productions(rules, terminals, &heads, &terms);
        proof {
            let nn = heads@.len() as int;
            let nt = terms@.len() as int;
            assert(nt == terminals@.len() + 1) by {
                assert(strs(terms@).len() == nt);
            }
            assert(nn * nt <= rules@.len() * (terminals@.len() + 1)) by (nonlinear_arith)
                requires
                    0 <= nn <= rules@.len(),
                    nt == terminals@.len() + 1,
            ;
        }
        let g = Grammar { terminals: terms, nonterminals: heads, productions: prods, start: start_index };
        assert(g.named_rules() == dedup(rule_texts(rules@)));
        assert forall|r: int| 0 <= r < g@.rules.len() implies {
            &&& (#[trigger] g@.rules[r]).head < g@.n_nonterms
            &&& forall|i: int| 0 <= i < g@.rules[r].body.len() ==> g@.sym_ok(g@.rules[r].body[i])
        } by {
            assert(g@.rules[r] == g.productions@[r].rule());
            assert forall|i: int| 0 <= i < g@.rules[r].body.len() implies g@.sym_ok(g@.rules[r].body[i]) by {
                assert(g@.rules[r].body[i] == g.productions@[r].body@[i]);
            }
        }
        Ok(g)
    }
}

/// The maximal runs of non-space characters of `s`, in order.
pub open spec fn words(s: Seq<char>) -> Seq<Seq<char>>
    decreases s.len(),
{
    if s.len() == 0 {
        Seq::empty()
    } else {
        let w = words(s.drop_last());
        let c = s.last();
        if c == ' ' {
            w
        } else if s.len() >= 2 && s[s.len() - 2] != ' ' && w.len() > 0 {
            w.drop_last().push(w.last().push(c))
        } else {
            w.push(seq![c])
        }
    }
}

/// `w` as a list of at most one word.
pub open spec fn opt_word(w: Seq<char>) -> Seq<Seq<char>> {
    if w.len() == 0 {
        Seq::empty()
    } else {
        seq![w]
    }
}

/// Splits `line` at spaces into its words.
pub fn split_words(line: &str) -> (ws: Vec<String>)
    ensures
        strs(ws@) == words(line@),
{
    let n = line.unicode_len();
    let mut out: Vec<String> = Vec::new();
    let mut start: usize = 0;
    let mut i: usize = 0;
    assert(line@.take(0) =~= Seq::<char>::empty());
    assert(line@.subrange(0, 0) =~= Seq::<char>::empty());
    while i < n
        invariant
            n == line@.len(),
            start <= i <= n,
            forall|k: int| start <= k < i ==> line@[k] != ' ',
            start == 0 || line@[start - 1] == ' ',
            words(line@.take(i as int)) == strs(out@) + opt_word(line@.subrange(start as int, i as int)),
        decreases n - i,
    {
        let c = line.get_char(i);
        let ghost pre = line@.take(i as int);
        let ghost next = line@.take(i + 1);
        assert(next.drop_last() =~= pre);
        assert(next.last() == c);
        if c == ' ' {
            if start < i {
                let w = String::from_str(line.substring_char(start, i));
                proof {
                    lemma_strs_push(out@, w);
                }
                out.push(w);
                assert(strs(out@) =~= strs(out@).drop_last() + seq![line@.subrange(start as int, i as int)]);
            }
            assert(line@.subrange(i + 1, i + 1) =~= Seq::<char>::empty());
            assert(strs(out@) + opt_word(line@.subrange(i + 1, i + 1)) =~= strs(out@));
            start = i + 1;
        } else {
            assert(line@.subrange(start as int, i + 1) =~= line@.subrange(start as int, i as int).push(c));
            if start < i {
                assert(line@[i - 1] != ' ');
                assert(next[next.len() - 2] == line@[i - 1]);
                assert(words(pre) == strs(out@) + seq![line@.subrange(start as int, i as int)]);
                assert(words(pre).drop_last() =~= strs(out@));
                assert(words(next) =~= strs(out@) + opt_word(line@.subrange(start as int, i + 1)));
            } else {
                assert(line@.subrange(start as int, i as int) =~= Seq::<char>::empty());
                assert(words(pre) =~= strs(out@));
                assert(words(next) =~= strs(out@) + opt_word(line@.subrange(start as int, i + 1)));
            }
        }
        i = i + 1;
    }
    assert(line@.take(n as int) =~= line@);
    if start < n {
        let w = String::from_str(line.substring_char(start, n));
        proof {
            lemma_strs_push(out@, w);
        }
        out.push(w);
        assert(strs(out@) =~= strs(out@).drop_last() + seq![line@.subrange(start as int, n as int)]);
    } else {
        assert(strs(out@) + opt_word(line@.subrange(start as int, n as int)) =~= strs(out@));
    }
    out
}

/// The separator between a rule's head and its body.
pub open spec fn arrow() -> Seq<char> {
    seq![':', ':', '=']
}

/// The word that stands for an empty body.
pub open spec fn epsilon_word() -> Seq<char> {
    seq!['\u{3b5}']
}

/// The rule that a line's words spell: `Head ::= Symbol ..`, where a body
/// of the single word epsilon is empty.
pub open spec fn rule_of_words(ws: Seq<Seq<char>>) -> Option<(Seq<char>, Seq<Seq<char>>)> {
    if ws.len() >= 2 && ws[1] == arrow() {
        let body = ws.skip(2);
        Some((ws[0], if body == seq![epsilon_word()] { Seq::empty() } else { body }))
    } else {
        None
    }
}

/// Reads a rule line such as `E ::= n E2` or `E2 ::= \u{3b5}`.
pub fn split_rule(line: &str) -> (r: Option<RuleText>)
    ensures
        match r {
            Some(rt) => rule_of_words(words(line@)) == Some(rt@),
            None => rule_of_words(words(line@)) is None,
        },
{
    let mut ws = split_words(line);
    proof {
        reveal_strlit("::=");
        reveal_strlit("\u{3b5}");
    }
    let sep = String::from_str("::=");
    let eps = String::from_str("\u{3b5}");
    assert(sep@ =~= arrow());
    assert(eps@ =~= epsilon_word());
    if ws.len() < 2 {
        return None;
    }
    if ws[1] != sep {
        assert(strs(ws@)[1] != arrow());
        return None;
    }
    let ghost all = ws@;
    let body = ws.split_off(2);
    let head = ws[0].clone();
    assert(strs(body@) =~= strs(all).skip(2));
    if body.len() == 1 && body[0] == eps {
        assert(strs(body@) =~= seq![epsilon_word()]);
        return Some(RuleText { head, body: Vec::new() });
    }
    assert(strs(body@) != seq![epsilon_word()]) by {
        if body@.len() == 1 {
            assert(strs(body@)[0] != epsilon_word());
        }
    }
    let rt = RuleText { head, body };
    assert(rt@ == (strs(all)[0], strs(all).skip(2)));
    Some(rt)
}

/// The rules that the lines spell, when every line spells one.
pub open spec fn rules_of_lines(lines: Seq<String>) -> Seq<(Seq<char>, Seq<Seq<char>>)> {
    Seq::new(lines.len(), |i: int| rule_of_words(words(lines[i]@))->Some_0)
}

impl Grammar {
    /// Builds a grammar from rule lines, one rule per line; fails with
    /// `MalformedRule` at the first line that is not a rule, and otherwise
    /// as `load` does.
    pub fn from_text(terminals: &Vec<String>, lines: &Vec<String>, start: &String) -> (res: Result<Grammar, GrammarError>)
        requires
            lines@.len() * (terminals@.len() + 1) <= usize::MAX,
        ensures
            match res {
                Err(GrammarError::MalformedRule { line }) => {
                    &&& line < lines@.len()
                    &&& rule_of_words(words(lines@[line as int]@)) is None
                    &&& forall|i: int| 0 <= i < line ==> rule_of_words(words(lines@[i]@)) is Some
                },
                _ => {
                    &&& forall|i: int| 0 <= i < lines@.len() ==> rule_of_words(words(lines@[i]@)) is Some
                    &&& loaded(strs(terminals@), rules_of_lines(lines@), start@, res)
                },
            },
    {
        let mut rules: Vec<RuleText> = Vec::new();
        let mut i: usize = 0;
        while i < lines.len()
            invariant
                i <= lines@.len(),
                rules@.len() == i,
                forall|k: int| 0 <= k < i ==> rule_of_words(words(lines@[k]@)) is Some,
                forall|k: int| 0 <= k < i ==> rule_of_words(words(lines@[k]@)) == Some(#[trigger] rules@[k]@),
            decreases lines@.len() - i,
        {
            match split_rule(lines[i].as_str()) {
                Some(rt) => {
                    rules.push(rt);
                },
                None => {
                    return Err(GrammarError::MalformedRule { line: i });
                },
            }
            i = i + 1;
        }
        assert(rule_texts(rules@) =~= rules_of_lines(lines@)) by {
            assert forall|k: int| 0 <= k < rules@.len() implies rule_texts(rules@)[k] == rules_of_lines(lines@)[k] by {
                assert(rule_of_words(words(lines@[k]@)) == Some(rules@[k]@));
            }
        }
        Grammar::load(terminals, &rules, start)
    }
}

impl Grammar {
    /// Reads `input` as terminal names separated by spaces: token `i` is
    /// the `i`-th word, on line 1 at column `i`. Fails with the position of
    /// the first word that names no terminal.
    pub fn tokens_from_names(&self, input: &str) -> (res: Result<Vec<ParseToken>, usize>)
        ensures
            match res {
                Ok(ts) => {
                    &&& ts@.len() == words(input@).len()
                    &&& forall|i: int|
                        0 <= i < ts@.len() ==> {
                            &&& (#[trigger] ts@[i]).tag < self@.n_terms
                            &&& self.terminals@[ts@[i].tag as int]@ == words(input@)[i]
                            &&& ts@[i].literal is None
                            &&& ts@[i].line == 1
                            &&& ts@[i].column == i
                        }
                },
                Err(k) => {
                    &&& k < words(input@).len()
                    &&& !strs(self.terminals@).contains(words(input@)[k as int])
                    &&& forall|i: int| 0 <= i < k ==> strs(self.terminals@).contains(#[trigger] words(input@)[i])
                },
            },
    {
        let ws = split_words(input);
        let mut out: Vec<ParseToken> = Vec::new();
        let mut i: usize = 0;
        while i < ws.len()
            invariant
                strs(ws@) == words(input@),
                i <= ws@.len(),
                out@.len() == i,
                forall|k: int|
                    0 <= k < i ==> {
                        &&& (#[trigger] out@[k]).tag < self@.n_terms
                        &&& self.terminals@[out@[k].tag as int]@ == words(input@)[k]
                        &&& out@[k].literal is None
                        &&& out@[k].line == 1
                        &&& out@[k].column == k
                    },
            decreases ws@.len() - i,
        {
            assert(strs(ws@)[i as int] == ws@[i as int]@);
            match self.terminal_index(&ws[i]) {
                Some(t) => {
                    out.push(ParseToken { tag: t, literal: None, line: 1, column: i });
                },
                None => {
                    assert forall|k: int| 0 <= k < i implies strs(self.terminals@).contains(#[trigger] words(input@)[k]) by {
                        assert(strs(self.terminals@)[out@[k].tag as int] == words(input@)[k]);
                    }
                    return Err(i);
                },
            }
            i = i + 1;
        }
        Ok(out)
    }
}

} // verus!
