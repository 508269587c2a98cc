//! The LL(1) prediction table and its conflict check.
use vstd::prelude::*;
use crate::bits::{lemma_flat_bound, lemma_flat_index};
use crate::engine::table_fits;
use crate::grammar::{Cfg, Grammar, GrammarError, Sym};
use crate::sets::{first_least, follow_least, first_set, follow_set, body_first, body_nullable, nullable_prefix, sym_first, sym_nullable, FirstSets, FollowSets};

verus! {

/// Production `r` is to be expanded when its head is on the stack and `t`
/// is the lookahead: `t` is in FIRST of its body, or the body is nullable
/// and `t` is in FOLLOW of its head.
pub open spec fn predicts(
    g: Cfg,
    fst: Set<(usize, usize)>,
    nul: Set<usize>,
    fol: Set<(usize, usize)>,
    r: int,
    t: usize,
) -> bool {
    body_first(fst, nul, g.rules[r].body, t) || (body_nullable(nul, g.rules[r].body) && fol.contains(
        (g.rules[r].head, t),
    ))
}

/// Production `r` predicts `t`, and so does an earlier production of the
/// same head.
pub open spec fn clash(
    g: Cfg,
    fst: Set<(usize, usize)>,
    nul: Set<usize>,
    fol: Set<(usize, usize)>,
    r: int,
    t: usize,
) -> bool {
    &&& predicts(g, fst, nul, fol, r, t)
    &&& exists|q: int|
        0 <= q < r && g.rules[q].head == g.rules[r].head && #[trigger] predicts(g, fst, nul, fol, q, t)
}

/// No two productions of one head predict the same terminal.
pub open spec fn is_ll1(g: Cfg, fst: Set<(usize, usize)>, nul: Set<usize>, fol: Set<(usize, usize)>) -> bool {
    forall|r: int, t: usize| 0 <= r < g.rules.len() && t < g.n_terms ==> !#[trigger] clash(g, fst, nul, fol, r, t)
}

/// For each nonterminal and terminal, the production to expand, if any.
pub struct ParseTable {
    pub rows: usize,
    pub cols: usize,
    pub cells: Vec<Option<usize>>,
}

impl ParseTable {
    pub open spec fn wf(&self) -> bool {
        &&& self.cells@.len() == self.rows * self.cols
        &&& self.rows * self.cols <= usize::MAX
    }

    pub open spec fn entry(&self, a: int, t: int) -> Option<usize> {
        self.cells@[a * self.cols + t]
    }

    /// The production in cell (`a`, `t`).
    pub fn get(&self, a: usize, t: usize) -> (r: Option<usize>)
        requires
            self.wf(),
            a < self.rows,
            t < self.cols,
        ensures
            r == self.entry(a as int, t as int),
    {
        proof {
            lemma_flat_bound(a as int, t as int, self.rows as int, self.cols as int);
        }
        self.cells[a * self.cols + t]
    }

    fn set(&mut self, a: usize, t: usize, v: Option<usize>)
        requires
            old(self).wf(),
            a < old(self).rows,
            t < old(self).cols,
        ensures
            final(self).wf(),
            final(self).rows == old(self).rows,
            final(self).cols == old(self).cols,
            final(self).entry(a as int, t as int) == v,
            forall|a2: int, t2: int|
                0 <= a2 < old(self).rows && 0 <= t2 < old(self).cols && (a2, t2) != (a as int, t as int) ==> #[trigger] final(self).entry(a2, t2)
                    == old(self).entry(a2, t2),
    {
        proof {
            lemma_flat_bound(a as int, t as int, self.rows as int, self.cols as int);
        }
        let ghost before = *self;
        self.cells.set(a * self.cols + t, v);
        assert forall|a2: int, t2: int|
            0 <= a2 < before.rows && 0 <= t2 < before.cols && (a2, t2) != (a as int, t as int) implies #[trigger] self.entry(
                a2,
                t2,
            ) == before.entry(a2, t2) by {
            lemma_flat_bound(a2, t2, self.rows as int, self.cols as int);
            if a2 * self.cols + t2 == a * self.cols + t {
                lemma_flat_index(a2, t2, a as int, t as int, self.cols as int);
            }
        }
    }
}

/// Cell (`a`, `t`) reflects the productions before `lim`.
pub open spec fn cell_upto(
    g: Cfg,
    fst: Set<(usize, usize)>,
    nul: Set<usize>,
    fol: Set<(usize, usize)>,
    cell: Option<usize>,
    a: usize,
    t: usize,
    lim: int,
) -> bool {
    match cell {
        Some(q) => q < lim && g.rules[q as int].head == a && predicts(g, fst, nul, fol, q as int, t),
        None => forall|q: int|
            0 <= q < lim && g.rules[q].head == a ==> !#[trigger] predicts(g, fst, nul, fol, q, t),
    }
}

/// `tbl` holds, for every nonterminal and terminal, the production that
/// predicts it, and nothing where none does.
pub open spec fn table_exact(
    g: Cfg,
    fst: Set<(usize, usize)>,
    nul: Set<usize>,
    fol: Set<(usize, usize)>,
    tbl: ParseTable,
) -> bool {
    &&& tbl.wf()
    &&& tbl.rows == g.n_nonterms
    &&& tbl.cols == g.n_terms
    &&& forall|a: usize, t: usize|
        a < g.n_nonterms && t < g.n_terms ==> #[trigger] cell_upto(
            g,
            fst,
            nul,
            fol,
            tbl.entry(a as int, t as int),
            a,
            t,
            g.rules.len() as int,
        )
}

/// FIRST of `body` restricted to witnesses before `k`.
pub open spec fn first_upto(fst: Set<(usize, usize)>, nul: Set<usize>, body: Seq<Sym>, k: int, t: usize) -> bool {
    exists|k2: int| 0 <= k2 < k && nullable_prefix(nul, body, k2) && #[trigger] sym_first(fst, body[k2], t)
}

/// The one-token lookahead set of production `r`: entry `t` says whether
/// the production predicts terminal `t`.
pub fn lookahead_one(g: &Grammar, fs: &FirstSets, fol: &FollowSets, r: usize) -> (row: Vec<bool>)
    requires
        g.wf(),
        fs.wf_for(g@),
        fol.wf_for(g@),
        r < g@.rules.len(),
    ensures
        row@.len() == g@.n_terms,
        forall|t: usize| t < g@.n_terms ==> row@[t as int] == predicts(g@, fs.fst(), fs.nul(), fol.fol(), r as int, t),
{
    let ghost gv = g@;
    let ghost fst = fs.fst();
    let ghost nul = fs.nul();
    let nt = g.terminals.len();
    let a = g.productions[r].head;
    let blen = g.productions[r].body.len();
    let ghost body = gv.rules[r as int].body;
    assert(body == g.productions@[r as int].body@);
    let mut row: Vec<bool> = Vec::new();
    let mut t: usize = 0;
    while t < nt
        invariant
            t <= nt,
            row@.len() == t,
            forall|j: int| 0 <= j < t ==> !row@[j],
        decreases nt - t,
    {
        row.push(false);
        t = t + 1;
    }
    let mut stop = false;
    let mut k: usize = 0;
    while k < blen && !stop
        invariant
            gv == g@,
            gv.wf(),
            fs.wf_for(gv),
            fst == fs.fst(),
            nul == fs.nul(),
            r < gv.rules.len(),
            body == gv.rules[r as int].body,
            blen == body.len(),
            nt == gv.n_terms,
            k <= blen,
            row@.len() == nt,
            !stop ==> nullable_prefix(nul, body, k as int),
            stop ==> k > 0 && !sym_nullable(nul, body[k - 1]) && nullable_prefix(nul, body, k - 1),
            forall|t2: usize| t2 < nt ==> row@[t2 as int] == first_upto(fst, nul, body, k as int, t2),
        decreases blen - k, if stop { 0int } else { 1int },
    {
        let x = g.productions[r].body[k];
        assert(x == body[k as int]);
        assert(gv.sym_ok(x));
        match x {
            Sym::Term(u) => {
                row.set(u, true);
                stop = true;
                assert forall|t2: usize| t2 < nt implies row@[t2 as int] == first_upto(fst, nul, body, k + 1, t2) by {
                    if first_upto(fst, nul, body, k + 1, t2) {
                        let k2 = choose|k2: int|
                            0 <= k2 < k + 1 && nullable_prefix(nul, body, k2) && #[trigger] sym_first(fst, body[k2], t2);
                        if k2 < k {
                            assert(first_upto(fst, nul, body, k as int, t2));
                        }
                    } else {
                        assert(!sym_first(fst, body[k as int], t2));
                    }
                }
            },
            Sym::NonTerm(b) => {
                let mut t: usize = 0;
                while t < nt
                    invariant
                        gv == g@,
                        gv.wf(),
                        fs.wf_for(gv),
                        fst == fs.fst(),
                        nul == fs.nul(),
                        body == gv.rules[r as int].body,
                        blen == body.len(),
                        nt == gv.n_terms,
                        k < blen,
                        x == body[k as int],
                        x == Sym::NonTerm(b),
                        b < gv.n_nonterms,
                        t <= nt,
                        row@.len() == nt,
                        nullable_prefix(nul, body, k as int),
                        forall|t2: usize| t2 < t ==> row@[t2 as int] == first_upto(fst, nul, body, k + 1, t2),
                        forall|t2: usize| t <= t2 < nt ==> row@[t2 as int] == first_upto(fst, nul, body, k as int, t2),
                    decreases nt - t,
                {
                    let ghost before = row@[t as int];
                    if fs.contains(b, t) {
                        row.set(t, true);
                        assert(sym_first(fst, body[k as int], t));
                    }
                    assert(row@[t as int] == first_upto(fst, nul, body, k + 1, t)) by {
                        if first_upto(fst, nul, body, k + 1, t) {
                            let k2 = choose|k2: int|
                                0 <= k2 < k + 1 && nullable_prefix(nul, body, k2) && #[trigger] sym_first(fst, body[k2], t);
                            if k2 < k {
                                assert(first_upto(fst, nul, body, k as int, t));
                            }
                        } else {
                            assert(!sym_first(fst, body[k as int], t));
                            assert(!first_upto(fst, nul, body, k as int, t));
                        }
                    }
                    t = t + 1;
                }
                if !fs.is_nullable(b) {
                    stop = true;
                }
            },
        }
        k = k + 1;
    }
    let ghost k_end = k;
    assert forall|t2: usize| t2 < nt implies row@[t2 as int] == body_first(fst, nul, body, t2) by {
        if body_first(fst, nul, body, t2) {
            let k2 = choose|k2: int| 0 <= k2 < body.len() && nullable_prefix(nul, body, k2) && #[trigger] sym_first(fst, body[k2], t2);
            if stop && k2 >= k {
                assert(sym_nullable(nul, body[k - 1]));
            }
            assert(first_upto(fst, nul, body, k as int, t2));
        } else {
            if first_upto(fst, nul, body, k as int, t2) {
                let k2 = choose|k2: int| 0 <= k2 < k && nullable_prefix(nul, body, k2) && #[trigger] sym_first(fst, body[k2], t2);
                assert(body_first(fst, nul, body, t2));
            }
        }
    }
    let ghost row_first = row@;
    let nullable_body = !stop;
    assert(nullable_body == body_nullable(nul, body)) by {
        if stop {
            assert(!sym_nullable(nul, body[k - 1]));
        }
    }
    if nullable_body {
        let mut t: usize = 0;
        while t < nt
            invariant
                gv == g@,
                gv.wf(),
                fol.wf_for(gv),
                r < gv.rules.len(),
                a == gv.rules[r as int].head,
                a < gv.n_nonterms,
                nt == gv.n_terms,
                t <= nt,
                row@.len() == nt,
                row_first.len() == nt,
                fst == fs.fst(),
                nul == fs.nul(),
                body == gv.rules[r as int].body,
                body_nullable(nul, body),
                forall|t2: usize| t2 < nt ==> row_first[t2 as int] == body_first(fst, nul, body, t2),
                forall|t2: usize| t2 < t ==> row@[t2 as int] == (row_first[t2 as int] || fol.fol().contains((a, t2))),
                forall|t2: usize| t <= t2 < nt ==> row@[t2 as int] == row_first[t2 as int],
            decreases nt - t,
        {
            let ghost prev = row@;
            if fol.contains(a, t) {
                row.set(t, true);
            }
            assert forall|t2: usize| t2 < t + 1 implies row@[t2 as int] == (row_first[t2 as int] || fol.fol().contains((a, t2))) by {
                if t2 < t {
                    assert(prev[t2 as int] == (row_first[t2 as int] || fol.fol().contains((a, t2))));
                }
            }
            t = t + 1;
        }
    }
    assert forall|t: usize| t < g@.n_terms implies row@[t as int] == predicts(gv, fst, nul, fol.fol(), r as int, t) by {
        assert(row_first[t as int] == body_first(fst, nul, body, t));
    }
    row
}

/// Which productions cell (`a2`, `t2`) reflects while production `r` of
/// head `a` is entered for terminals below `t`.
pub open spec fn cell_lim(a2: usize, t2: usize, a: usize, t: int, r: int) -> int {
    if a2 == a && t2 < t {
        r + 1
    } else {
        r
    }
}

/// `e` reports the first clash met when the productions are taken in
/// order and, for each, the terminals in increasing order.
pub open spec fn first_clash(
    g: Cfg,
    fst: Set<(usize, usize)>,
    nul: Set<usize>,
    fol: Set<(usize, usize)>,
    e: GrammarError,
) -> bool {
    match e {
        GrammarError::GrammarNotLL1 { nonterminal, lookahead, rule_a, rule_b } => {
            &&& rule_a < rule_b < g.rules.len()
            &&& lookahead < g.n_terms
            &&& g.rules[rule_a as int].head == nonterminal
            &&& g.rules[rule_b as int].head == nonterminal
            &&& predicts(g, fst, nul, fol, rule_a as int, lookahead)
            &&& predicts(g, fst, nul, fol, rule_b as int, lookahead)
            &&& forall|r: int, t: usize| 0 <= r < rule_b && t < g.n_terms ==> !#[trigger] clash(g, fst, nul, fol, r, t)
            &&& forall|t: usize| t < lookahead ==> !#[trigger] clash(g, fst, nul, fol, rule_b as int, t)
        },
        _ => false,
    }
}

/// What `parse_table` returns: a table exactly when no two productions of
/// one head predict one terminal, the exact table then, the first clash
/// otherwise.
pub open spec fn table_outcome(
    g: Cfg,
    fst: Set<(usize, usize)>,
    nul: Set<usize>,
    fol: Set<(usize, usize)>,
    res: Result<ParseTable, GrammarError>,
) -> bool {
    &&& res is Ok <==> is_ll1(g, fst, nul, fol)
    &&& res matches Ok(tbl) ==> table_exact(g, fst, nul, fol, tbl)
    &&& res matches Err(e) ==> first_clash(g, fst, nul, fol, e)
}

/// The prediction table of the grammar: cell (A, t) holds the production
/// of A that predicts t. Fails with `GrammarNotLL1` exactly when two
/// productions of one head predict the same terminal, naming the first such
/// pair met.
pub fn parse_table(g: &Grammar, fs: &FirstSets, fol: &FollowSets) -> (res: Result<ParseTable, GrammarError>)
    requires
        g.wf(),
        fs.wf_for(g@),
        fol.wf_for(g@),
    ensures
        res is Ok <==> is_ll1(g@, fs.fst(), fs.nul(), fol.fol()),
        res matches Ok(tbl) ==> table_exact(g@, fs.fst(), fs.nul(), fol.fol(), tbl),
        res matches Err(e) ==> first_clash(g@, fs.fst(), fs.nul(), fol.fol(), e),
{
    let ghost gv = g@;
    let ghost fst = fs.fst();
    let ghost nul = fs.nul();
    let ghost fl = fol.fol();
    let nn = g.nonterminals.len();
    let nt = g.terminals.len();
    let n = g.productions.len();
    let total: usize = nn * nt;
    let mut cells: Vec<Option<usize>> = Vec::new();
    let mut i: usize = 0;
    while i < total
        invariant
            i <= total,
            cells@.len() == i,
            forall|j: int| 0 <= j < i ==> cells@[j] is None,
        decreases total - i,
    {
        cells.push(None);
        i = i + 1;
    }
    let mut tbl = ParseTable { rows: nn, cols: nt, cells };
    assert forall|a: usize, t: usize| a < nn && t < nt implies #[trigger] cell_upto(
        gv,
        fst,
        nul,
        fl,
        tbl.entry(a as int, t as int),
        a,
        t,
        0,
    ) by {
        lemma_flat_bound(a as int, t as int, nn as int, nt as int);
    }
    let mut r: usize = 0;
    while r < n
        invariant
            gv == g@,
            gv.wf(),
            fs.wf_for(gv),
            fol.wf_for(gv),
            fst == fs.fst(),
            nul == fs.nul(),
            fl == fol.fol(),
            n == gv.rules.len(),
            nn == gv.n_nonterms,
            nt == gv.n_terms,
            r <= n,
            tbl.wf(),
            tbl.rows == nn,
            tbl.cols == nt,
            forall|r2: int, t: usize| 0 <= r2 < r && t < nt ==> !#[trigger] clash(gv, fst, nul, fl, r2, t),
            forall|a: usize, t: usize|
                a < nn && t < nt ==> #[trigger] cell_upto(gv, fst, nul, fl, tbl.entry(a as int, t as int), a, t, r as int),
        decreases n - r,
    {
        let a = g.productions[r].head;
        assert(a == gv.rules[r as int].head);
        let row = lookahead_one(g, fs, fol, r);
        let mut t: usize = 0;
        while t < nt
            invariant
                gv == g@,
                gv.wf(),
                fst == fs.fst(),
                nul == fs.nul(),
                fl == fol.fol(),
                n == gv.rules.len(),
                nn == gv.n_nonterms,
                nt == gv.n_terms,
                r < n,
                a == gv.rules[r as int].head,
                a < nn,
                t <= nt,
                row@.len() == nt,
                forall|t2: usize| t2 < nt ==> row@[t2 as int] == predicts(gv, fst, nul, fl, r as int, t2),
                tbl.wf(),
                tbl.rows == nn,
                tbl.cols == nt,
                forall|r2: int, t2: usize| 0 <= r2 < r && t2 < nt ==> !#[trigger] clash(gv, fst, nul, fl, r2, t2),
                forall|t2: usize| t2 < t ==> !#[trigger] clash(gv, fst, nul, fl, r as int, t2),
                forall|a2: usize, t2: usize|
                    a2 < nn && t2 < nt ==> #[trigger] cell_upto(
                        gv,
                        fst,
                        nul,
                        fl,
                        tbl.entry(a2 as int, t2 as int),
                        a2,
                        t2,
                        cell_lim(a2, t2, a, (t) as int, r as int),
                    ),
            decreases nt - t,
        {
            assert(cell_upto(gv, fst, nul, fl, tbl.entry(a as int, t as int), a, t, cell_lim(a, t, a, t as int, r as int)));
            if row[t] {
                match tbl.get(a, t) {
                    Some(q) => {
                        assert(clash(gv, fst, nul, fl, r as int, t));
                        return Err(GrammarError::GrammarNotLL1 { nonterminal: a, lookahead: t, rule_a: q, rule_b: r });
                    },
                    None => {
                        assert(!clash(gv, fst, nul, fl, r as int, t));
                        let ghost before = tbl;
                        tbl.set(a, t, Some(r));
                        assert forall|a2: usize, t2: usize| a2 < nn && t2 < nt implies #[trigger] cell_upto(
                            gv,
                            fst,
                            nul,
                            fl,
                            tbl.entry(a2 as int, t2 as int),
                            a2,
                            t2,
                            cell_lim(a2, t2, a, (t + 1) as int, r as int),
                        ) by {
                            if (a2, t2) != (a, t) {
                                assert(tbl.entry(a2 as int, t2 as int) == before.entry(a2 as int, t2 as int));
                                assert(cell_upto(gv, fst, nul, fl, before.entry(a2 as int, t2 as int), a2, t2,
                                    cell_lim(a2, t2, a, (t) as int, r as int)));
                            }
                        }
                    },
                }
            } else {
                assert(!clash(gv, fst, nul, fl, r as int, t));
                assert forall|a2: usize, t2: usize| a2 < nn && t2 < nt implies #[trigger] cell_upto(
                    gv,
                    fst,
                    nul,
                    fl,
                    tbl.entry(a2 as int, t2 as int),
                    a2,
                    t2,
                    cell_lim(a2, t2, a, (t + 1) as int, r as int),
                ) by {
                    assert(cell_upto(gv, fst, nul, fl, tbl.entry(a2 as int, t2 as int), a2, t2,
                        cell_lim(a2, t2, a, (t) as int, r as int)));
                    if a2 == a && t2 == t {
                        match tbl.entry(a2 as int, t2 as int) {
                            Some(q) => {},
                            None => {
                                assert forall|q: int| 0 <= q < r + 1 && gv.rules[q].head == a2 implies !#[trigger] predicts(gv, fst, nul, fl, q, t2) by {
                                    if q < r {
                                    }
                                }
                            },
                        }
                    }
                }
            }
            t = t + 1;
        }
        assert forall|a2: usize, t2: usize| a2 < nn && t2 < nt implies #[trigger] cell_upto(
            gv,
            fst,
            nul,
            fl,
            tbl.entry(a2 as int, t2 as int),
            a2,
            t2,
            r + 1,
        ) by {
            assert(cell_upto(gv, fst, nul, fl, tbl.entry(a2 as int, t2 as int), a2, t2,
                cell_lim(a2, t2, a, (nt) as int, r as int)));
            if a2 != a {
                match tbl.entry(a2 as int, t2 as int) {
                    Some(q) => {},
                    None => {
                        assert forall|q: int| 0 <= q < r + 1 && gv.rules[q].head == a2 implies !#[trigger] predicts(gv, fst, nul, fl, q, t2) by {
                            if q < r {
                            }
                        }
                    },
                }
            }
        }
        r = r + 1;
    }
    Ok(tbl)
}

/// Everything the parser needs from a grammar.
pub struct Analysis {
    pub first: FirstSets,
    pub follow: FollowSets,
    pub table: ParseTable,
}

/// Computes FIRST, FOLLOW and the prediction table of `g`; fails when the
/// grammar is not LL(1).
pub fn sets_and_table(g: &Grammar) -> (res: Result<Analysis, GrammarError>)
    requires
        g.wf(),
    ensures
        match res {
            Ok(an) => {
                &&& an.first.wf_for(g@)
                &&& an.follow.wf_for(g@)
                &&& first_least(g@, an.first.fst(), an.first.nul())
                &&& follow_least(g@, an.first.fst(), an.first.nul(), an.follow.fol())
                &&& is_ll1(g@, an.first.fst(), an.first.nul(), an.follow.fol())
                &&& table_exact(g@, an.first.fst(), an.first.nul(), an.follow.fol(), an.table)
                &&& table_fits(g@, an.table)
            },
            Err(e) => exists|fst: Set<(usize, usize)>, nul: Set<usize>, fol: Set<(usize, usize)>|
                first_least(g@, fst, nul) && follow_least(g@, fst, nul, fol) && #[trigger] first_clash(
                    g@,
                    fst,
                    nul,
                    fol,
                    e,
                ),
        },
{
    let first = first_set(g);
    let follow = follow_set(g, &first);
    match parse_table(g, &first, &follow) {
        Ok(table) => {
            assert forall|a: int, t: int| 0 <= a < g@.n_nonterms && 0 <= t < g@.n_terms implies match #[trigger] table.entry(a, t) {
                Some(r) => r < g@.rules.len(),
                None => true,
            } by {
                assert(cell_upto(g@, first.fst(), first.nul(), follow.fol(), table.entry(a as usize as int, t as usize as int), a as usize, t as usize, g@.rules.len() as int));
            }
            Ok(Analysis { first, follow, table })
        },
        Err(e) => Err(e),
    }
}

} // verus!
