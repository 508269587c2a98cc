//! Properties of the analyses and of the parser, proved over the
//! derivation relation of the grammar.
use vstd::prelude::*;
use crate::grammar::{Cfg, GrammarError, Sym, END_MARKER};
use crate::table::{cell_upto, clash, first_clash, is_ll1, predicts, table_exact, table_outcome, ParseTable};
use crate::engine::{parse_result, run, step, initial_stack, ParseError, ParseToken, Step, STEP_LIMIT};
use crate::sets::{
    body_first, body_nullable, first_closed, first_least, first_rule_closed, follow_closed, follow_least,
    follow_pos_closed, nullable_prefix, sym_first, sym_nullable,
};

verus! {

pub proof fn lemma_derives_refl(g: Cfg, s: Seq<Sym>)
    ensures
        g.derives(s, s),
{
    assert(g.derives_in(s, s, 0));
}

proof fn lemma_derives_in_trans(g: Cfg, a: Seq<Sym>, b: Seq<Sym>, c: Seq<Sym>, n1: nat, n2: nat)
    requires
        g.derives_in(a, b, n1),
        g.derives_in(b, c, n2),
    ensures
        g.derives_in(a, c, n1 + n2),
    decreases n1,
{
    if n1 > 0 {
        let m = choose|m: Seq<Sym>| #[trigger] g.rewrites(a, m) && g.derives_in(m, b, (n1 - 1) as nat);
        lemma_derives_in_trans(g, m, b, c, (n1 - 1) as nat, n2);
        assert(g.derives_in(m, c, (n1 + n2 - 1) as nat));
    }
}

pub proof fn lemma_derives_trans(g: Cfg, a: Seq<Sym>, b: Seq<Sym>, c: Seq<Sym>)
    requires
        g.derives(a, b),
        g.derives(b, c),
    ensures
        g.derives(a, c),
{
    let n1 = choose|n: nat| g.derives_in(a, b, n);
    let n2 = choose|n: nat| g.derives_in(b, c, n);
    lemma_derives_in_trans(g, a, b, c, n1, n2);
}

proof fn lemma_rewrites_context(g: Cfg, s: Seq<Sym>, t: Seq<Sym>, u: Seq<Sym>, v: Seq<Sym>)
    requires
        g.rewrites(s, t),
    ensures
        g.rewrites(u + s + v, u + t + v),
{
    let (i, r) = choose|i: int, r: int| g.can_apply(s, i, r) && t == #[trigger] g.apply(s, i, r);
    let big = u + s + v;
    let j = i + u.len();
    assert(big[j] == s[i]);
    assert(g.can_apply(big, j, r));
    assert(g.apply(big, j, r) =~= u + t + v);
}

proof fn lemma_derives_in_context(g: Cfg, s: Seq<Sym>, t: Seq<Sym>, u: Seq<Sym>, v: Seq<Sym>, n: nat)
    requires
        g.derives_in(s, t, n),
    ensures
        g.derives_in(u + s + v, u + t + v, n),
    decreases n,
{
    if n > 0 {
        let m = choose|m: Seq<Sym>| #[trigger] g.rewrites(s, m) && g.derives_in(m, t, (n - 1) as nat);
        lemma_rewrites_context(g, s, m, u, v);
        lemma_derives_in_context(g, m, t, u, v, (n - 1) as nat);
    }
}

/// Derivations apply inside any context.
pub proof fn lemma_derives_context(g: Cfg, s: Seq<Sym>, t: Seq<Sym>, u: Seq<Sym>, v: Seq<Sym>)
    requires
        g.derives(s, t),
    ensures
        g.derives(u + s + v, u + t + v),
{
    let n = choose|n: nat| g.derives_in(s, t, n);
    lemma_derives_in_context(g, s, t, u, v, n);
}

/// Two derivations side by side.
pub proof fn lemma_derives_concat(g: Cfg, s1: Seq<Sym>, t1: Seq<Sym>, s2: Seq<Sym>, t2: Seq<Sym>)
    requires
        g.derives(s1, t1),
        g.derives(s2, t2),
    ensures
        g.derives(s1 + s2, t1 + t2),
{
    let e = Seq::<Sym>::empty();
    lemma_derives_context(g, s1, t1, e, s2);
    assert(e + s1 + s2 =~= s1 + s2);
    assert(e + t1 + s2 =~= t1 + s2);
    lemma_derives_context(g, s2, t2, t1, e);
    assert(t1 + s2 + e =~= t1 + s2);
    assert(t1 + t2 + e =~= t1 + t2);
    lemma_derives_trans(g, s1 + s2, t1 + s2, t1 + t2);
}

/// A nonterminal derives the body of each of its productions in one step.
pub proof fn lemma_derives_rule(g: Cfg, r: int)
    requires
        0 <= r < g.rules.len(),
    ensures
        g.derives(seq![Sym::NonTerm(g.rules[r].head)], g.rules[r].body),
{
    let s = seq![Sym::NonTerm(g.rules[r].head)];
    assert(g.can_apply(s, 0, r));
    assert(g.apply(s, 0, r) =~= g.rules[r].body);
    assert(g.rewrites(s, g.rules[r].body));
    assert(g.derives_in(g.rules[r].body, g.rules[r].body, 0));
    assert(g.derives_in(s, g.rules[r].body, 1));
}

/// Nonterminals that derive the empty string.
pub open spec fn derived_nullable(g: Cfg) -> Set<usize> {
    Set::new(|a: usize| g.derives(seq![Sym::NonTerm(a)], Seq::<Sym>::empty()))
}

/// Pairs (A, t) such that A derives a string that begins with terminal t.
pub open spec fn derived_first(g: Cfg) -> Set<(usize, usize)> {
    Set::new(
        |p: (usize, usize)|
            exists|beta: Seq<Sym>| g.derives(seq![Sym::NonTerm(p.0)], seq![Sym::Term(p.1)] + beta),
    )
}

proof fn lemma_prefix_derives_empty(g: Cfg, nul: Set<usize>, body: Seq<Sym>, k: int)
    requires
        0 <= k <= body.len(),
        nul.subset_of(derived_nullable(g)),
        nullable_prefix(nul, body, k),
    ensures
        g.derives(body.take(k), Seq::<Sym>::empty()),
    decreases k,
{
    if k == 0 {
        assert(body.take(0) =~= Seq::<Sym>::empty());
        lemma_derives_refl(g, Seq::<Sym>::empty());
    } else {
        lemma_prefix_derives_empty(g, nul, body, k - 1);
        assert(sym_nullable(nul, body[k - 1]));
        let b = body[k - 1]->NonTerm_0;
        assert(derived_nullable(g).contains(b));
        assert(body[k - 1] == Sym::NonTerm(b));
        lemma_derives_concat(g, body.take(k - 1), Seq::<Sym>::empty(), seq![body[k - 1]], Seq::<Sym>::empty());
        assert(body.take(k - 1) + seq![body[k - 1]] =~= body.take(k));
        assert(Seq::<Sym>::empty() + Seq::<Sym>::empty() =~= Seq::<Sym>::empty());
    }
}

proof fn lemma_body_first_derives(g: Cfg, fst: Set<(usize, usize)>, nul: Set<usize>, body: Seq<Sym>, t: usize)
    requires
        fst.subset_of(derived_first(g)),
        nul.subset_of(derived_nullable(g)),
        body_first(fst, nul, body, t),
    ensures
        exists|gamma: Seq<Sym>| g.derives(body, seq![Sym::Term(t)] + gamma),
{
    let k = choose|k: int| 0 <= k < body.len() && nullable_prefix(nul, body, k) && #[trigger] sym_first(fst, body[k], t);
    lemma_prefix_derives_empty(g, nul, body, k);
    let beta: Seq<Sym> = match body[k] {
        Sym::Term(u) => Seq::<Sym>::empty(),
        Sym::NonTerm(b) => {
            assert(derived_first(g).contains((b, t)));
            choose|beta: Seq<Sym>| g.derives(seq![Sym::NonTerm(b)], seq![Sym::Term(t)] + beta)
        },
    };
    assert(g.derives(seq![body[k]], seq![Sym::Term(t)] + beta)) by {
        if body[k] is Term {
            assert(seq![body[k]] =~= seq![Sym::Term(t)] + beta);
            lemma_derives_refl(g, seq![body[k]]);
        }
    }
    let rest = body.skip(k + 1);
    lemma_derives_concat(g, body.take(k), Seq::<Sym>::empty(), seq![body[k]], seq![Sym::Term(t)] + beta);
    lemma_derives_refl(g, rest);
    lemma_derives_concat(
        g,
        body.take(k) + seq![body[k]],
        Seq::<Sym>::empty() + (seq![Sym::Term(t)] + beta),
        rest,
        rest,
    );
    assert(body.take(k) + seq![body[k]] + rest =~= body);
    assert(Seq::<Sym>::empty() + (seq![Sym::Term(t)] + beta) + rest =~= seq![Sym::Term(t)] + (beta + rest));
}

proof fn lemma_derived_first_closed(g: Cfg)
    requires
        g.wf(),
    ensures
        first_closed(g, derived_first(g), derived_nullable(g)),
{
    let fst = derived_first(g);
    let nul = derived_nullable(g);
    assert forall|r: int| 0 <= r < g.rules.len() implies #[trigger] first_rule_closed(g, fst, nul, r) by {
        let a = g.rules[r].head;
        let body = g.rules[r].body;
        lemma_derives_rule(g, r);
        assert forall|t: usize| #[trigger] body_first(fst, nul, body, t) implies fst.contains((a, t)) by {
            lemma_body_first_derives(g, fst, nul, body, t);
            let gamma = choose|gamma: Seq<Sym>| g.derives(body, seq![Sym::Term(t)] + gamma);
            lemma_derives_trans(g, seq![Sym::NonTerm(a)], body, seq![Sym::Term(t)] + gamma);
            let p = (a, t);
            assert(g.derives(seq![Sym::NonTerm(p.0)], seq![Sym::Term(p.1)] + gamma));
        }
        if body_nullable(nul, body) {
            lemma_prefix_derives_empty(g, nul, body, body.len() as int);
            assert(body.take(body.len() as int) =~= body);
            lemma_derives_trans(g, seq![Sym::NonTerm(a)], body, Seq::<Sym>::empty());
        }
    }
}

/// Whatever derives the empty string consists of nullable symbols.
proof fn lemma_empty_derivation_nullable(g: Cfg, fst: Set<(usize, usize)>, nul: Set<usize>, s: Seq<Sym>, n: nat)
    requires
        first_closed(g, fst, nul),
        g.derives_in(s, Seq::<Sym>::empty(), n),
    ensures
        forall|j: int| 0 <= j < s.len() ==> sym_nullable(nul, #[trigger] s[j]),
    decreases n,
{
    if n > 0 {
        let m = choose|m: Seq<Sym>| #[trigger] g.rewrites(s, m) && g.derives_in(m, Seq::<Sym>::empty(), (n - 1) as nat);
        lemma_empty_derivation_nullable(g, fst, nul, m, (n - 1) as nat);
        let (i, r) = choose|i: int, r: int| g.can_apply(s, i, r) && m == #[trigger] g.apply(s, i, r);
        let body = g.rules[r].body;
        assert forall|j: int| 0 <= j < s.len() implies sym_nullable(nul, #[trigger] s[j]) by {
            if j < i {
                assert(s[j] == m[j]);
            } else if j > i {
                assert(s[j] == m[j - 1 + body.len()]);
            } else {
                assert forall|k: int| 0 <= k < body.len() implies sym_nullable(nul, #[trigger] body[k]) by {
                    assert(body[k] == m[i + k]);
                }
                assert(body_nullable(nul, body));
                assert(first_rule_closed(g, fst, nul, r));
            }
        }
    }
}

/// FIRST is sound and nullability is exact: every terminal in FIRST(X)
/// begins some string that X derives, and X is nullable exactly when it
/// derives the empty string.
pub proof fn lemma_first_sound(g: Cfg, fst: Set<(usize, usize)>, nul: Set<usize>, x: Sym, t: usize)
    requires
        g.wf(),
        first_least(g, fst, nul),
    ensures
        sym_first(fst, x, t) ==> exists|beta: Seq<Sym>| g.derives(seq![x], seq![Sym::Term(t)] + beta),
        sym_nullable(nul, x) <==> g.derives(seq![x], Seq::<Sym>::empty()),
{
    lemma_derived_first_closed(g);
    assert(first_closed(g, derived_first(g), derived_nullable(g)));
    match x {
        Sym::Term(u) => {
            if u == t {
                assert(seq![x] =~= seq![Sym::Term(t)] + Seq::<Sym>::empty());
                lemma_derives_refl(g, seq![x]);
            }
            if g.derives(seq![x], Seq::<Sym>::empty()) {
                let n = choose|n: nat| g.derives_in(seq![x], Seq::<Sym>::empty(), n);
                lemma_empty_derivation_nullable(g, fst, nul, seq![x], n);
                assert(sym_nullable(nul, seq![x][0]));
            }
        },
        Sym::NonTerm(a) => {
            if sym_first(fst, x, t) {
                assert(derived_first(g).contains((a, t)));
            }
            if sym_nullable(nul, x) {
                assert(derived_nullable(g).contains(a));
            }
            if g.derives(seq![x], Seq::<Sym>::empty()) {
                let n = choose|n: nat| g.derives_in(seq![x], Seq::<Sym>::empty(), n);
                lemma_empty_derivation_nullable(g, fst, nul, seq![x], n);
                assert(sym_nullable(nul, seq![x][0]));
            }
        },
    }
}

/// Every symbol of `w` is a terminal.
pub open spec fn all_terminal(w: Seq<Sym>) -> bool {
    forall|i: int| 0 <= i < w.len() ==> (#[trigger] w[i]) is Term
}

/// Nonterminal `a` derives some string of terminals.
pub open spec fn productive(g: Cfg, a: usize) -> bool {
    exists|w: Seq<Sym>| all_terminal(w) && g.derives(seq![Sym::NonTerm(a)], w)
}

/// Every symbol of `s` belongs to the grammar.
pub open spec fn syms_ok(g: Cfg, s: Seq<Sym>) -> bool {
    forall|i: int| 0 <= i < s.len() ==> g.sym_ok(#[trigger] s[i])
}

proof fn lemma_derives_in_ok(g: Cfg, s: Seq<Sym>, t: Seq<Sym>, n: nat)
    requires
        g.wf(),
        syms_ok(g, s),
        g.derives_in(s, t, n),
    ensures
        syms_ok(g, t),
    decreases n,
{
    if n > 0 {
        let m = choose|m: Seq<Sym>| #[trigger] g.rewrites(s, m) && g.derives_in(m, t, (n - 1) as nat);
        let (i, r) = choose|i: int, r: int| g.can_apply(s, i, r) && m == #[trigger] g.apply(s, i, r);
        let body = g.rules[r].body;
        assert(g.rules[r].head < g.n_nonterms);
        assert forall|k: int| 0 <= k < m.len() implies g.sym_ok(#[trigger] m[k]) by {
            if k < i {
                assert(m[k] == s[k]);
            } else if k < i + body.len() {
                assert(m[k] == body[k - i]);
            } else {
                assert(m[k] == s[k - body.len() + 1]);
            }
        }
        lemma_derives_in_ok(g, m, t, (n - 1) as nat);
    }
}

proof fn lemma_terminal_completion(g: Cfg, s: Seq<Sym>)
    requires
        syms_ok(g, s),
        forall|a: usize| a < g.n_nonterms ==> #[trigger] productive(g, a),
    ensures
        exists|w: Seq<Sym>| all_terminal(w) && g.derives(s, w),
    decreases s.len(),
{
    if s.len() == 0 {
        lemma_derives_refl(g, s);
        assert(all_terminal(s));
    } else {
        let d = s.drop_last();
        assert(syms_ok(g, d)) by {
            assert forall|i: int| 0 <= i < d.len() implies g.sym_ok(#[trigger] d[i]) by {
                assert(d[i] == s[i]);
            }
        }
        lemma_terminal_completion(g, d);
        let w1 = choose|w: Seq<Sym>| all_terminal(w) && g.derives(d, w);
        let x = s.last();
        assert(g.sym_ok(s[s.len() - 1]));
        let w2: Seq<Sym> = match x {
            Sym::Term(_) => seq![x],
            Sym::NonTerm(a) => {
                assert(productive(g, a));
                choose|w: Seq<Sym>| all_terminal(w) && g.derives(seq![Sym::NonTerm(a)], w)
            },
        };
        assert(all_terminal(w2) && g.derives(seq![x], w2)) by {
            if x is Term {
                lemma_derives_refl(g, seq![x]);
            }
        }
        lemma_derives_concat(g, d, w1, seq![x], w2);
        assert(d + seq![x] =~= s);
        assert(all_terminal(w1 + w2)) by {
            assert forall|i: int| 0 <= i < (w1 + w2).len() implies (#[trigger] (w1 + w2)[i]) is Term by {
                if i < w1.len() {
                    assert((w1 + w2)[i] == w1[i]);
                } else {
                    assert((w1 + w2)[i] == w2[i - w1.len()]);
                }
            }
        }
    }
}

/// When every nonterminal derives some string of terminals, each terminal
/// in FIRST(X) begins a string of terminals that X derives.
pub proof fn lemma_first_begins_terminal_string(g: Cfg, fst: Set<(usize, usize)>, nul: Set<usize>, x: Sym, t: usize)
    requires
        g.wf(),
        first_least(g, fst, nul),
        g.sym_ok(x),
        forall|a: usize| a < g.n_nonterms ==> #[trigger] productive(g, a),
        sym_first(fst, x, t),
    ensures
        exists|w: Seq<Sym>| all_terminal(w) && g.derives(seq![x], seq![Sym::Term(t)] + w),
{
    lemma_first_sound(g, fst, nul, x, t);
    let beta = choose|beta: Seq<Sym>| g.derives(seq![x], seq![Sym::Term(t)] + beta);
    let n = choose|n: nat| g.derives_in(seq![x], seq![Sym::Term(t)] + beta, n);
    assert(syms_ok(g, seq![x])) by {
        assert forall|i: int| 0 <= i < seq![x].len() implies g.sym_ok(#[trigger] seq![x][i]) by {
            assert(seq![x][i] == x);
        }
    }
    lemma_derives_in_ok(g, seq![x], seq![Sym::Term(t)] + beta, n);
    assert(syms_ok(g, beta)) by {
        assert forall|i: int| 0 <= i < beta.len() implies g.sym_ok(#[trigger] beta[i]) by {
            assert(beta[i] == (seq![Sym::Term(t)] + beta)[i + 1]);
        }
    }
    lemma_terminal_completion(g, beta);
    let w = choose|w: Seq<Sym>| all_terminal(w) && g.derives(beta, w);
    lemma_derives_context(g, beta, w, seq![Sym::Term(t)], Seq::<Sym>::empty());
    assert(seq![Sym::Term(t)] + beta + Seq::<Sym>::empty() =~= seq![Sym::Term(t)] + beta);
    assert(seq![Sym::Term(t)] + w + Seq::<Sym>::empty() =~= seq![Sym::Term(t)] + w);
    lemma_derives_trans(g, seq![x], seq![Sym::Term(t)] + beta, seq![Sym::Term(t)] + w);
}

/// The sentential form a derivation of the input starts from: the start
/// symbol followed by `$`.
pub open spec fn start_form(g: Cfg) -> Seq<Sym> {
    seq![Sym::NonTerm(g.start), Sym::Term(END_MARKER)]
}

/// Nonterminal `a` occurs in some form derived from the start.
pub open spec fn reachable(g: Cfg, a: usize) -> bool {
    exists|u: Seq<Sym>, v: Seq<Sym>| g.derives(start_form(g), u + seq![Sym::NonTerm(a)] + v)
}

/// Pairs (A, t) such that terminal t directly follows A in some form
/// derived from the start.
pub open spec fn derived_follow(g: Cfg) -> Set<(usize, usize)> {
    Set::new(
        |p: (usize, usize)|
            exists|u: Seq<Sym>, v: Seq<Sym>|
                g.derives(start_form(g), u + seq![Sym::NonTerm(p.0), Sym::Term(p.1)] + v),
    )
}

proof fn lemma_follow_from_first(
    g: Cfg,
    fst: Set<(usize, usize)>,
    nul: Set<usize>,
    r: int,
    i: int,
    x: usize,
    t: usize,
)
    requires
        g.wf(),
        fst.subset_of(derived_first(g)),
        nul.subset_of(derived_nullable(g)),
        0 <= r < g.rules.len(),
        0 <= i < g.rules[r].body.len(),
        g.rules[r].body[i] == Sym::NonTerm(x),
        reachable(g, g.rules[r].head),
        body_first(fst, nul, g.rules[r].body.skip(i + 1), t),
    ensures
        derived_follow(g).contains((x, t)),
{
    let a = g.rules[r].head;
    let body = g.rules[r].body;
    let rest = body.skip(i + 1);
    let pre = body.take(i);
    lemma_derives_rule(g, r);
    let (u, v) = choose|u: Seq<Sym>, v: Seq<Sym>| g.derives(start_form(g), u + seq![Sym::NonTerm(a)] + v);
    lemma_derives_context(g, seq![Sym::NonTerm(a)], body, u, v);
    lemma_body_first_derives(g, fst, nul, rest, t);
    let gamma = choose|gamma: Seq<Sym>| g.derives(rest, seq![Sym::Term(t)] + gamma);
    let left = u + pre + seq![Sym::NonTerm(x)];
    lemma_derives_context(g, rest, seq![Sym::Term(t)] + gamma, left, v);
    assert(body =~= pre + seq![Sym::NonTerm(x)] + rest);
    assert(u + body + v =~= left + rest + v);
    lemma_derives_trans(g, start_form(g), u + seq![Sym::NonTerm(a)] + v, u + body + v);
    lemma_derives_trans(g, start_form(g), u + body + v, left + (seq![Sym::Term(t)] + gamma) + v);
    assert(left + (seq![Sym::Term(t)] + gamma) + v =~= (u + pre) + seq![Sym::NonTerm(x), Sym::Term(t)] + (gamma
        + v));
    let p = (x, t);
    assert(g.derives(start_form(g), (u + pre) + seq![Sym::NonTerm(p.0), Sym::Term(p.1)] + (gamma + v)));
}

proof fn lemma_follow_from_follow(
    g: Cfg,
    nul: Set<usize>,
    r: int,
    i: int,
    x: usize,
    t: usize,
)
    requires
        g.wf(),
        nul.subset_of(derived_nullable(g)),
        0 <= r < g.rules.len(),
        0 <= i < g.rules[r].body.len(),
        g.rules[r].body[i] == Sym::NonTerm(x),
        body_nullable(nul, g.rules[r].body.skip(i + 1)),
        derived_follow(g).contains((g.rules[r].head, t)),
    ensures
        derived_follow(g).contains((x, t)),
{
    let a = g.rules[r].head;
    let body = g.rules[r].body;
    let rest = body.skip(i + 1);
    let pre = body.take(i);
    let e = Seq::<Sym>::empty();
    lemma_derives_rule(g, r);
    let (u, v) = choose|u: Seq<Sym>, v: Seq<Sym>|
        g.derives(start_form(g), u + seq![Sym::NonTerm(a), Sym::Term(t)] + v);
    let tv = seq![Sym::Term(t)] + v;
    assert(u + seq![Sym::NonTerm(a), Sym::Term(t)] + v =~= u + seq![Sym::NonTerm(a)] + tv);
    lemma_derives_context(g, seq![Sym::NonTerm(a)], body, u, tv);
    lemma_prefix_derives_empty(g, nul, rest, rest.len() as int);
    assert(rest.take(rest.len() as int) =~= rest);
    let left = u + pre + seq![Sym::NonTerm(x)];
    lemma_derives_context(g, rest, e, left, tv);
    assert(body =~= pre + seq![Sym::NonTerm(x)] + rest);
    assert(u + body + tv =~= left + rest + tv);
    lemma_derives_trans(g, start_form(g), u + seq![Sym::NonTerm(a)] + tv, u + body + tv);
    lemma_derives_trans(g, start_form(g), u + body + tv, left + e + tv);
    assert(left + e + tv =~= (u + pre) + seq![Sym::NonTerm(x), Sym::Term(t)] + v);
    let p = (x, t);
    assert(g.derives(start_form(g), (u + pre) + seq![Sym::NonTerm(p.0), Sym::Term(p.1)] + v));
}

proof fn lemma_derived_follow_closed(g: Cfg, fst: Set<(usize, usize)>, nul: Set<usize>)
    requires
        g.wf(),
        fst.subset_of(derived_first(g)),
        nul.subset_of(derived_nullable(g)),
        forall|r: int| 0 <= r < g.rules.len() ==> reachable(g, #[trigger] g.rules[r].head),
    ensures
        follow_closed(g, fst, nul, derived_follow(g)),
{
    let fol = derived_follow(g);
    let e = Seq::<Sym>::empty();
    lemma_derives_refl(g, start_form(g));
    assert(e + seq![Sym::NonTerm(g.start), Sym::Term(END_MARKER)] + e =~= start_form(g));
    let p = (g.start, END_MARKER);
    assert(g.derives(start_form(g), e + seq![Sym::NonTerm(p.0), Sym::Term(p.1)] + e));
    assert(fol.contains((g.start, END_MARKER)));
    assert forall|r: int, i: int|
        0 <= r < g.rules.len() && 0 <= i < g.rules[r].body.len() implies #[trigger] follow_pos_closed(
        g,
        fst,
        nul,
        fol,
        r,
        i,
    ) by {
        let rest = g.rules[r].body.skip(i + 1);
        if let Sym::NonTerm(x) = g.rules[r].body[i] {
            assert forall|t: usize| #[trigger] body_first(fst, nul, rest, t) implies fol.contains((x, t)) by {
                lemma_follow_from_first(g, fst, nul, r, i, x, t);
            }
            if body_nullable(nul, rest) {
                assert forall|t: usize| #[trigger] fol.contains((g.rules[r].head, t)) implies fol.contains((x, t)) by {
                    lemma_follow_from_follow(g, nul, r, i, x, t);
                }
            }
        }
    }
}

/// FOLLOW is sound: when every nonterminal with a production is reachable
/// from the start, each terminal in FOLLOW(A) directly follows A in some
/// form derived from the start symbol followed by `$`.
pub proof fn lemma_follow_sound(
    g: Cfg,
    fst: Set<(usize, usize)>,
    nul: Set<usize>,
    fol: Set<(usize, usize)>,
    a: usize,
    t: usize,
)
    requires
        g.wf(),
        first_least(g, fst, nul),
        follow_least(g, fst, nul, fol),
        forall|r: int| 0 <= r < g.rules.len() ==> reachable(g, #[trigger] g.rules[r].head),
        fol.contains((a, t)),
    ensures
        exists|u: Seq<Sym>, v: Seq<Sym>|
            g.derives(start_form(g), u + seq![Sym::NonTerm(a), Sym::Term(t)] + v),
{
    lemma_derived_first_closed(g);
    assert(first_closed(g, derived_first(g), derived_nullable(g)));
    lemma_derived_follow_closed(g, fst, nul);
    assert(follow_closed(g, fst, nul, derived_follow(g)));
    assert(derived_follow(g).contains((a, t)));
}

/// Building the table is deterministic: any two results that meet the
/// contract of `parse_table` for the same grammar and sets are the same
/// table, cell for cell, or the same error.
pub proof fn lemma_table_deterministic(
    g: Cfg,
    fst: Set<(usize, usize)>,
    nul: Set<usize>,
    fol: Set<(usize, usize)>,
    res1: Result<ParseTable, GrammarError>,
    res2: Result<ParseTable, GrammarError>,
)
    requires
        g.wf(),
        table_outcome(g, fst, nul, fol, res1),
        table_outcome(g, fst, nul, fol, res2),
    ensures
        match (res1, res2) {
            (Ok(t1), Ok(t2)) => t1.rows == t2.rows && t1.cols == t2.cols && t1.cells@ == t2.cells@,
            (Err(e1), Err(e2)) => e1 == e2,
            _ => false,
        },
{
    match (res1, res2) {
        (Ok(t1), Ok(t2)) => {
            let rows = t1.rows as int;
            let cols = t1.cols as int;
            assert forall|k: int| 0 <= k < t1.cells@.len() implies t1.cells@[k] == t2.cells@[k] by {
                let a = k / cols;
                let t = k % cols;
                assert(k == a * cols + t && 0 <= t < cols && 0 <= a < rows) by (nonlinear_arith)
                    requires
                        0 <= k < rows * cols,
                        cols > 0,
                        a == k / cols,
                        t == k % cols,
                ;
                let au = a as usize;
                let tu = t as usize;
                assert(cell_upto(g, fst, nul, fol, t1.entry(au as int, tu as int), au, tu, g.rules.len() as int));
                assert(cell_upto(g, fst, nul, fol, t2.entry(au as int, tu as int), au, tu, g.rules.len() as int));
                match (t1.entry(a, t), t2.entry(a, t)) {
                    (Some(q1), Some(q2)) => {
                        if q1 < q2 {
                            assert(clash(g, fst, nul, fol, q2 as int, tu));
                        } else if q2 < q1 {
                            assert(clash(g, fst, nul, fol, q1 as int, tu));
                        }
                    },
                    (Some(q1), None) => {
                        assert(!predicts(g, fst, nul, fol, q1 as int, tu));
                    },
                    (None, Some(q2)) => {
                        assert(!predicts(g, fst, nul, fol, q2 as int, tu));
                    },
                    (None, None) => {},
                }
            }
            assert(t1.cells@ =~= t2.cells@);
        },
        (Err(e1), Err(e2)) => {
            if let (
                GrammarError::GrammarNotLL1 { nonterminal: n1, lookahead: l1, rule_a: a1, rule_b: b1 },
                GrammarError::GrammarNotLL1 { nonterminal: n2, lookahead: l2, rule_a: a2, rule_b: b2 },
            ) = (e1, e2) {
                assert(clash(g, fst, nul, fol, b1 as int, l1));
                assert(clash(g, fst, nul, fol, b2 as int, l2));
                assert(b1 == b2);
                assert(l1 == l2);
                if a1 < a2 {
                    assert(clash(g, fst, nul, fol, a2 as int, l1));
                } else if a2 < a1 {
                    assert(clash(g, fst, nul, fol, a1 as int, l1));
                }
            }
        },
        (Ok(t1), Err(e2)) => {
            if let GrammarError::GrammarNotLL1 { lookahead, rule_b, .. } = e2 {
                assert(clash(g, fst, nul, fol, rule_b as int, lookahead));
            }
        },
        (Err(e1), Ok(t2)) => {
            if let GrammarError::GrammarNotLL1 { lookahead, rule_b, .. } = e1 {
                assert(clash(g, fst, nul, fol, rule_b as int, lookahead));
            }
        },
    }
}

/// Two productions of one nonterminal whose FIRST sets share a terminal
/// make the table fail with `GrammarNotLL1`, naming two distinct
/// productions of that nonterminal which both predict the reported
/// terminal.
pub proof fn lemma_first_overlap_rejected(
    g: Cfg,
    fst: Set<(usize, usize)>,
    nul: Set<usize>,
    fol: Set<(usize, usize)>,
    res: Result<ParseTable, GrammarError>,
    ra: int,
    rb: int,
    t: usize,
)
    requires
        g.wf(),
        table_outcome(g, fst, nul, fol, res),
        0 <= ra < g.rules.len(),
        0 <= rb < g.rules.len(),
        ra != rb,
        g.rules[ra].head == g.rules[rb].head,
        t < g.n_terms,
        body_first(fst, nul, g.rules[ra].body, t),
        body_first(fst, nul, g.rules[rb].body, t),
    ensures
        res matches Err(GrammarError::GrammarNotLL1 { nonterminal, lookahead, rule_a, rule_b }) && rule_a
            != rule_b && g.rules[rule_a as int].head == nonterminal && g.rules[rule_b as int].head == nonterminal
            && predicts(g, fst, nul, fol, rule_a as int, lookahead) && predicts(g, fst, nul, fol, rule_b as int, lookahead),
{
    if ra < rb {
        assert(predicts(g, fst, nul, fol, ra, t));
        assert(clash(g, fst, nul, fol, rb, t));
    } else {
        assert(predicts(g, fst, nul, fol, rb, t));
        assert(clash(g, fst, nul, fol, ra, t));
    }
}

/// `o` is a failure at a token before index `i`.
pub open spec fn fails_before(o: Option<Result<(), ParseError>>, i: nat) -> bool {
    match o {
        Some(Err(e)) => match e.at() {
            Some(k) => k < i,
            None => false,
        },
        _ => false,
    }
}

proof fn lemma_run_fails_at_or_after(
    g: Cfg,
    tbl: ParseTable,
    toks: Seq<ParseToken>,
    stack: Seq<Sym>,
    pos: nat,
    fuel: nat,
)
    requires
        toks.len() <= usize::MAX,
    ensures
        !fails_before(run(g, tbl, toks, stack, pos, fuel), pos),
    decreases fuel,
{
    if fuel > 0 {
        if let Step::Go(next_stack, next_pos) = step(g, tbl, toks, stack, pos) {
            lemma_run_fails_at_or_after(g, tbl, toks, next_stack, next_pos, (fuel - 1) as nat);
        }
    }
}

proof fn lemma_run_prefix(
    g: Cfg,
    tbl: ParseTable,
    toks1: Seq<ParseToken>,
    toks2: Seq<ParseToken>,
    stack: Seq<Sym>,
    pos: nat,
    fuel: nat,
    i: nat,
)
    requires
        toks1.len() <= usize::MAX,
        toks2.len() <= usize::MAX,
        pos <= i <= toks2.len(),
        forall|j: int| 0 <= j < i ==> toks1[j] == toks2[j],
        run(g, tbl, toks1, stack, pos, fuel) matches Some(Err(e)) && e.at() == Some(i as usize),
    ensures
        !fails_before(run(g, tbl, toks2, stack, pos, fuel), i),
    decreases fuel,
{
    if pos == i {
        lemma_run_fails_at_or_after(g, tbl, toks2, stack, pos, fuel);
    } else if fuel > 0 {
        assert(pos < toks1.len());
        assert(toks1[pos as int] == toks2[pos as int]);
        assert(step(g, tbl, toks1, stack, pos) == step(g, tbl, toks2, stack, pos));
        if let Step::Go(next_stack, next_pos) = step(g, tbl, toks1, stack, pos) {
            lemma_run_prefix(g, tbl, toks1, toks2, next_stack, next_pos, (fuel - 1) as nat, i);
        }
    }
}

/// Parsing is a function of its input: replaying the same token stream
/// gives the same verdict, acceptance included.
pub proof fn lemma_parse_replay(g: Cfg, tbl: ParseTable, toks1: Seq<ParseToken>, toks2: Seq<ParseToken>)
    requires
        toks1 == toks2,
    ensures
        parse_result(g, tbl, toks1) == parse_result(g, tbl, toks2),
{
}

/// The parse reads its input left to right and never looks back: when a
/// stream fails at token `i`, any stream that agrees with it on the tokens
/// before `i` does not fail before `i`, so its fate is decided by what
/// comes from `i` on.
pub proof fn lemma_parse_prefix_viable(
    g: Cfg,
    tbl: ParseTable,
    toks1: Seq<ParseToken>,
    toks2: Seq<ParseToken>,
    i: usize,
)
    requires
        toks1.len() <= usize::MAX,
        toks2.len() <= usize::MAX,
        i <= toks2.len(),
        forall|j: int| 0 <= j < i ==> toks1[j] == toks2[j],
        parse_result(g, tbl, toks1) matches Err(e) && e.at() == Some(i),
    ensures
        match parse_result(g, tbl, toks2) {
            Ok(()) => true,
            Err(e2) => match e2.at() {
                Some(k) => k >= i,
                None => true,
            },
        },
{
    let fuel = STEP_LIMIT as nat;
    lemma_run_prefix(g, tbl, toks1, toks2, initial_stack(g), 0, fuel, i as nat);
}

} // verus!
