//! FIRST and FOLLOW sets, computed as the least solutions of their
//! defining equations by iteration to a fixpoint.
use vstd::prelude::*;
use crate::bits::{BitGrid, ones, lemma_ones_le, lemma_ones_set};
use crate::grammar::{Cfg, Grammar, Sym, END_MARKER};

verus! {

/// `x` derives the empty string according to `nul`.
pub open spec fn sym_nullable(nul: Set<usize>, x: Sym) -> bool {
    match x {
        Sym::Term(_) => false,
        Sym::NonTerm(a) => nul.contains(a),
    }
}

/// `t` begins `x` according to `fst`; a terminal begins only itself.
pub open spec fn sym_first(fst: Set<(usize, usize)>, x: Sym, t: usize) -> bool {
    match x {
        Sym::Term(u) => u == t,
        Sym::NonTerm(a) => fst.contains((a, t)),
    }
}

/// The first `k` symbols of `body` are all nullable.
pub open spec fn nullable_prefix(nul: Set<usize>, body: Seq<Sym>, k: int) -> bool {
    forall|j: int| 0 <= j < k ==> sym_nullable(nul, #[trigger] body[j])
}

/// Every symbol of `body` is nullable (true of the empty body).
pub open spec fn body_nullable(nul: Set<usize>, body: Seq<Sym>) -> bool {
    nullable_prefix(nul, body, body.len() as int)
}

/// `t` is in FIRST of the symbol string `body`: some symbol after a
/// nullable prefix begins with `t`.
pub open spec fn body_first(fst: Set<(usize, usize)>, nul: Set<usize>, body: Seq<Sym>, t: usize) -> bool {
    exists|k: int|
        0 <= k < body.len() && nullable_prefix(nul, body, k) && #[trigger] sym_first(fst, body[k], t)
}

/// The FIRST equations hold for rule `r`.
pub open spec fn first_rule_closed(g: Cfg, fst: Set<(usize, usize)>, nul: Set<usize>, r: int) -> bool {
    &&& forall|t: usize|
        #[trigger] body_first(fst, nul, g.rules[r].body, t) ==> fst.contains((g.rules[r].head, t))
    &&& body_nullable(nul, g.rules[r].body) ==> nul.contains(g.rules[r].head)
}

/// `fst` and `nul` satisfy the FIRST equations of every rule.
pub open spec fn first_closed(g: Cfg, fst: Set<(usize, usize)>, nul: Set<usize>) -> bool {
    forall|r: int| 0 <= r < g.rules.len() ==> #[trigger] first_rule_closed(g, fst, nul, r)
}

/// `fst` and `nul` lie inside every solution of the FIRST equations.
pub open spec fn first_below(g: Cfg, fst: Set<(usize, usize)>, nul: Set<usize>) -> bool {
    forall|f2: Set<(usize, usize)>, n2: Set<usize>|
        #[trigger] first_closed(g, f2, n2) ==> fst.subset_of(f2) && nul.subset_of(n2)
}

/// FIRST and nullability as the least solution of their equations.
pub open spec fn first_least(g: Cfg, fst: Set<(usize, usize)>, nul: Set<usize>) -> bool {
    first_closed(g, fst, nul) && first_below(g, fst, nul)
}

/// FIRST(A) for every nonterminal A, and which nonterminals are nullable.
pub struct FirstSets {
    pub first: BitGrid,
    pub nullable: Vec<bool>,
}

impl FirstSets {
    /// Pairs (A, t) with terminal t in FIRST(A).
    pub open spec fn fst(&self) -> Set<(usize, usize)> {
        self.first.view()
    }

    /// Nonterminals that derive the empty string.
    pub open spec fn nul(&self) -> Set<usize> {
        Set::new(|a: usize| a < self.nullable@.len() && self.nullable@[a as int])
    }

    pub open spec fn wf_for(&self, g: Cfg) -> bool {
        &&& self.first.wf()
        &&& self.first.rows == g.n_nonterms
        &&& self.first.cols == g.n_terms
        &&& self.nullable@.len() == g.n_nonterms
    }

    pub open spec fn count(&self) -> nat {
        self.first.count() + ones(self.nullable@)
    }

    /// Terminal `t` is in FIRST(`a`).
    pub fn contains(&self, a: usize, t: usize) -> (r: bool)
        requires
            self.first.wf(),
            a < self.first.rows,
            t < self.first.cols,
        ensures
            r == self.fst().contains((a, t)),
    {
        self.first.get(a, t)
    }

    /// Nonterminal `a` derives the empty string.
    pub fn is_nullable(&self, a: usize) -> (r: bool)
        requires
            a < self.nullable@.len(),
        ensures
            r == self.nul().contains(a),
    {
        self.nullable[a]
    }
}

proof fn lemma_first_add_term(g: Cfg, fst: Set<(usize, usize)>, nul: Set<usize>, r: int, k: int, t: usize)
    requires
        0 <= r < g.rules.len(),
        0 <= k < g.rules[r].body.len(),
        first_below(g, fst, nul),
        nullable_prefix(nul, g.rules[r].body, k),
        sym_first(fst, g.rules[r].body[k], t),
    ensures
        first_below(g, fst.insert((g.rules[r].head, t)), nul),
{
    let body = g.rules[r].body;
    assert forall|f2: Set<(usize, usize)>, n2: Set<usize>| #[trigger] first_closed(g, f2, n2) implies fst.insert(
        (g.rules[r].head, t),
    ).subset_of(f2) && nul.subset_of(n2) by {
        assert(first_rule_closed(g, f2, n2, r));
        assert(nullable_prefix(n2, body, k));
        assert(sym_first(f2, body[k], t));
        assert(body_first(f2, n2, body, t));
    }
}

proof fn lemma_first_add_nullable(g: Cfg, fst: Set<(usize, usize)>, nul: Set<usize>, r: int)
    requires
        0 <= r < g.rules.len(),
        first_below(g, fst, nul),
        body_nullable(nul, g.rules[r].body),
    ensures
        first_below(g, fst, nul.insert(g.rules[r].head)),
{
    let body = g.rules[r].body;
    assert forall|f2: Set<(usize, usize)>, n2: Set<usize>| #[trigger] first_closed(g, f2, n2) implies fst.subset_of(
        f2,
    ) && nul.insert(g.rules[r].head).subset_of(n2) by {
        assert(first_rule_closed(g, f2, n2, r));
        assert(body_nullable(n2, body));
    }
}

/// Applies the FIRST equations of rule `r` once; says whether a set grew.
fn first_rule_step(g: &Grammar, r: usize, fs: &mut FirstSets) -> (changed: bool)
    requires
        g.wf(),
        r < g@.rules.len(),
        old(fs).wf_for(g@),
        first_below(g@, old(fs).fst(), old(fs).nul()),
    ensures
        final(fs).wf_for(g@),
        first_below(g@, final(fs).fst(), final(fs).nul()),
        final(fs).count() >= old(fs).count(),
        changed ==> final(fs).count() > old(fs).count(),
        !changed ==> *final(fs) == *old(fs) && first_rule_closed(
            g@,
            final(fs).fst(),
            final(fs).nul(),
            r as int,
        ),
{
    let ghost gv = g@;
    let ghost fs0 = *fs;
    let a = g.productions[r].head;
    let n_terms = g.terminals.len();
    let blen = g.productions[r].body.len();
    let ghost body = gv.rules[r as int].body;
    assert(body == g.productions@[r as int].body@);
    let mut changed = false;
    let mut stop = false;
    let mut k: usize = 0;
    while k < blen && !stop
        invariant
            gv == g@,
            gv.wf(),
            r < gv.rules.len(),
            body == gv.rules[r as int].body,
            blen == body.len(),
            a == gv.rules[r as int].head,
            n_terms == gv.n_terms,
            k <= blen,
            fs.wf_for(gv),
            first_below(gv, fs.fst(), fs.nul()),
            fs.nullable@ == fs0.nullable@,
            fs.count() >= fs0.count(),
            changed ==> fs.count() > fs0.count(),
            !changed ==> *fs == fs0,
            !stop ==> nullable_prefix(fs.nul(), body, k as int),
            stop ==> k > 0 && !sym_nullable(fs.nul(), body[k - 1]) && nullable_prefix(fs.nul(), body, k - 1),
            !changed ==> forall|k2: int, t: usize|
                0 <= k2 < k && #[trigger] sym_first(fs.fst(), body[k2], t) ==> fs.fst().contains((a, t)),
        decreases blen - k, if stop { 0int } else { 1int },
    {
        let x = g.productions[r].body[k];
        assert(x == body[k as int]);
        assert(gv.sym_ok(x));
        match x {
            Sym::Term(u) => {
                proof {
                    lemma_first_add_term(gv, fs.fst(), fs.nul(), r as int, k as int, u);
                }
                if fs.first.insert(a, u) {
                    changed = true;
                }
                stop = true;
            },
            Sym::NonTerm(b) => {
                let mut t: usize = 0;
                let ghost k_fst = fs.fst();
                while t < n_terms
                    invariant
                        gv == g@,
                        gv.wf(),
                        r < gv.rules.len(),
                        body == gv.rules[r as int].body,
                        a == gv.rules[r as int].head,
                        n_terms == gv.n_terms,
                        k < blen,
                        blen == body.len(),
                        x == body[k as int],
                        x == Sym::NonTerm(b),
                        b < gv.n_nonterms,
                        t <= n_terms,
                        fs.wf_for(gv),
                        first_below(gv, fs.fst(), fs.nul()),
                        fs.nullable@ == fs0.nullable@,
                        fs.count() >= fs0.count(),
                        changed ==> fs.count() > fs0.count(),
                        !changed ==> *fs == fs0,
                        !stop,
                        nullable_prefix(fs.nul(), body, k as int),
                        !changed ==> forall|k2: int, t2: usize|
                            0 <= k2 < k && #[trigger] sym_first(fs.fst(), body[k2], t2) ==> fs.fst().contains((a, t2)),
                        !changed ==> forall|t2: usize|
                            t2 < t && fs.fst().contains((b, t2)) ==> fs.fst().contains((a, t2)),
                    decreases n_terms - t,
                {
                    if fs.first.get(b, t) {
                        proof {
                            assert(sym_first(fs.fst(), body[k as int], t));
                            lemma_first_add_term(gv, fs.fst(), fs.nul(), r as int, k as int, t);
                        }
                        if fs.first.insert(a, t) {
                            changed = true;
                        }
                    }
                    t = t + 1;
                }
                proof {
                    if !changed {
                        assert forall|t2: usize| #[trigger] sym_first(fs.fst(), body[k as int], t2) implies fs.fst().contains((a, t2)) by {
                            assert(fs.fst().contains((b, t2)));
                            assert(t2 < n_terms);
                        }
                    }
                }
                if !fs.nullable[b] {
                    stop = true;
                }
            },
        }
        proof {
            if !changed {
                assert forall|k2: int, t2: usize|
                    0 <= k2 < k + 1 && #[trigger] sym_first(fs.fst(), body[k2], t2) implies fs.fst().contains((a, t2)) by {
                    if k2 == k {
                        assert(sym_first(fs.fst(), body[k as int], t2));
                    }
                }
            }
        }
        k = k + 1;
    }
    if !stop {
        proof {
            lemma_first_add_nullable(gv, fs.fst(), fs.nul(), r as int);
        }
        if !fs.nullable[a] {
            let ghost before = *fs;
            proof {
                lemma_ones_set(fs.nullable@, a as int);
            }
            fs.nullable.set(a, true);
            assert(fs.nul() =~= before.nul().insert(a));
            changed = true;
        }
    }
    proof {
        if !changed {
            assert forall|t: usize| #[trigger] body_first(fs.fst(), fs.nul(), body, t) implies fs.fst().contains(
                (a, t),
            ) by {
                let k2 = choose|k2: int|
                    0 <= k2 < body.len() && nullable_prefix(fs.nul(), body, k2) && #[trigger] sym_first(
                        fs.fst(),
                        body[k2],
                        t,
                    );
                if stop {
                    if k2 >= k {
                        assert(sym_nullable(fs.nul(), body[k - 1]));
                    }
                }
            }
        }
    }
    changed
}

/// Applies the FIRST equations of every rule once; says whether a set grew.
fn first_pass(g: &Grammar, fs: &mut FirstSets) -> (changed: bool)
    requires
        g.wf(),
        old(fs).wf_for(g@),
        first_below(g@, old(fs).fst(), old(fs).nul()),
    ensures
        final(fs).wf_for(g@),
        first_below(g@, final(fs).fst(), final(fs).nul()),
        final(fs).count() >= old(fs).count(),
        changed ==> final(fs).count() > old(fs).count(),
        !changed ==> *final(fs) == *old(fs) && first_closed(g@, final(fs).fst(), final(fs).nul()),
{
    let ghost fs0 = *fs;
    let n = g.productions.len();
    let mut changed = false;
    let mut r: usize = 0;
    while r < n
        invariant
            g.wf(),
            n == g@.rules.len(),
            r <= n,
            fs.wf_for(g@),
            first_below(g@, fs.fst(), fs.nul()),
            fs.count() >= fs0.count(),
            changed ==> fs.count() > fs0.count(),
            !changed ==> *fs == fs0,
            !changed ==> forall|rr: int| 0 <= rr < r ==> #[trigger] first_rule_closed(g@, fs.fst(), fs.nul(), rr),
        decreases n - r,
    {
        if first_rule_step(g, r, fs) {
            changed = true;
        }
        r = r + 1;
    }
    changed
}

/// FIRST of every nonterminal and the set of nullable nonterminals: the
/// least sets that satisfy, for every production `A ::= X1 .. Xn`, that
/// FIRST(A) holds FIRST(Xi) whenever X1 .. X(i-1) are nullable, and that A
/// is nullable whenever all of X1 .. Xn are.
pub fn first_set(g: &Grammar) -> (fs: FirstSets)
    requires
        g.wf(),
    ensures
        fs.wf_for(g@),
        first_least(g@, fs.fst(), fs.nul()),
{
    let nn = g.nonterminals.len();
    let nt = g.terminals.len();
    let mut nullable: Vec<bool> = Vec::new();
    let mut i: usize = 0;
    while i < nn
        invariant
            i <= nn,
            nullable@.len() == i,
            forall|j: int| 0 <= j < i ==> !nullable@[j],
        decreases nn - i,
    {
        nullable.push(false);
        i = i + 1;
    }
    let mut fs = FirstSets { first: BitGrid::new(nn, nt), nullable };
    assert(fs.nul() =~= Set::<usize>::empty());
    let ghost bound = nn * nt + nn;
    loop
        invariant
            g.wf(),
            bound == g@.n_nonterms * g@.n_terms + g@.n_nonterms,
            fs.wf_for(g@),
            first_below(g@, fs.fst(), fs.nul()),
        ensures
            fs.wf_for(g@),
            first_least(g@, fs.fst(), fs.nul()),
        decreases bound - fs.count(),
    {
        if !first_pass(g, &mut fs) {
            break;
        }
        proof {
            fs.first.lemma_count_bound();
            lemma_ones_le(fs.nullable@);
        }
    }
    fs
}

/// The FOLLOW equations hold at position `i` of rule `r`: when it holds a
/// nonterminal X, FOLLOW(X) holds FIRST of what comes after it, and, when
/// all of that is nullable, FOLLOW of the rule's head.
pub open spec fn follow_pos_closed(
    g: Cfg,
    fst: Set<(usize, usize)>,
    nul: Set<usize>,
    fol: Set<(usize, usize)>,
    r: int,
    i: int,
) -> bool {
    let body = g.rules[r].body;
    let rest = body.skip(i + 1);
    match body[i] {
        Sym::Term(_) => true,
        Sym::NonTerm(x) => {
            &&& forall|t: usize| #[trigger] body_first(fst, nul, rest, t) ==> fol.contains((x, t))
            &&& body_nullable(nul, rest) ==> forall|t: usize|
                #[trigger] fol.contains((g.rules[r].head, t)) ==> fol.contains((x, t))
        },
    }
}

/// `fol` holds `$` after the start symbol and satisfies the FOLLOW
/// equations at every position of every rule.
pub open spec fn follow_closed(g: Cfg, fst: Set<(usize, usize)>, nul: Set<usize>, fol: Set<(usize, usize)>) -> bool {
    &&& fol.contains((g.start, END_MARKER))
    &&& forall|r: int, i: int|
        0 <= r < g.rules.len() && 0 <= i < g.rules[r].body.len() ==> #[trigger] follow_pos_closed(
            g,
            fst,
            nul,
            fol,
            r,
            i,
        )
}

/// `fol` lies inside every solution of the FOLLOW equations.
pub open spec fn follow_below(g: Cfg, fst: Set<(usize, usize)>, nul: Set<usize>, fol: Set<(usize, usize)>) -> bool {
    forall|f2: Set<(usize, usize)>| #[trigger] follow_closed(g, fst, nul, f2) ==> fol.subset_of(f2)
}

/// FOLLOW as the least solution of its equations.
pub open spec fn follow_least(g: Cfg, fst: Set<(usize, usize)>, nul: Set<usize>, fol: Set<(usize, usize)>) -> bool {
    follow_closed(g, fst, nul, fol) && follow_below(g, fst, nul, fol)
}

/// FOLLOW(A) for every nonterminal A.
pub struct FollowSets {
    pub follow: BitGrid,
}

impl FollowSets {
    /// Pairs (A, t) with terminal t in FOLLOW(A).
    pub open spec fn fol(&self) -> Set<(usize, usize)> {
        self.follow.view()
    }

    pub open spec fn wf_for(&self, g: Cfg) -> bool {
        &&& self.follow.wf()
        &&& self.follow.rows == g.n_nonterms
        &&& self.follow.cols == g.n_terms
    }

    /// Terminal `t` is in FOLLOW(`a`).
    pub fn contains(&self, a: usize, t: usize) -> (r: bool)
        requires
            self.follow.wf(),
            a < self.follow.rows,
            t < self.follow.cols,
        ensures
            r == self.fol().contains((a, t)),
    {
        self.follow.get(a, t)
    }
}

proof fn lemma_follow_add_first(
    g: Cfg,
    fst: Set<(usize, usize)>,
    nul: Set<usize>,
    fol: Set<(usize, usize)>,
    r: int,
    i: int,
    m: int,
    t: usize,
)
    requires
        0 <= r < g.rules.len(),
        0 <= i < g.rules[r].body.len(),
        g.rules[r].body[i] is NonTerm,
        0 <= m < g.rules[r].body.skip(i + 1).len(),
        follow_below(g, fst, nul, fol),
        nullable_prefix(nul, g.rules[r].body.skip(i + 1), m),
        sym_first(fst, g.rules[r].body.skip(i + 1)[m], t),
    ensures
        follow_below(g, fst, nul, fol.insert((g.rules[r].body[i]->NonTerm_0, t))),
{
    let rest = g.rules[r].body.skip(i + 1);
    assert forall|f2: Set<(usize, usize)>| #[trigger] follow_closed(g, fst, nul, f2) implies fol.insert(
        (g.rules[r].body[i]->NonTerm_0, t),
    ).subset_of(f2) by {
        assert(follow_pos_closed(g, fst, nul, f2, r, i));
        assert(body_first(fst, nul, rest, t));
    }
}

proof fn lemma_follow_add_follow(
    g: Cfg,
    fst: Set<(usize, usize)>,
    nul: Set<usize>,
    fol: Set<(usize, usize)>,
    r: int,
    i: int,
    t: usize,
)
    requires
        0 <= r < g.rules.len(),
        0 <= i < g.rules[r].body.len(),
        g.rules[r].body[i] is NonTerm,
        follow_below(g, fst, nul, fol),
        body_nullable(nul, g.rules[r].body.skip(i + 1)),
        fol.contains((g.rules[r].head, t)),
    ensures
        follow_below(g, fst, nul, fol.insert((g.rules[r].body[i]->NonTerm_0, t))),
{
    assert forall|f2: Set<(usize, usize)>| #[trigger] follow_closed(g, fst, nul, f2) implies fol.insert(
        (g.rules[r].body[i]->NonTerm_0, t),
    ).subset_of(f2) by {
        assert(follow_pos_closed(g, fst, nul, f2, r, i));
        assert(f2.contains((g.rules[r].head, t)));
    }
}

/// Applies the FOLLOW equations at position `i` of rule `r` once; says
/// whether a set grew.
fn follow_pos_step(g: &Grammar, fs: &FirstSets, r: usize, i: usize, fol: &mut FollowSets) -> (changed: bool)
    requires
        g.wf(),
        fs.wf_for(g@),
        r < g@.rules.len(),
        i < g@.rules[r as int].body.len(),
        old(fol).wf_for(g@),
        follow_below(g@, fs.fst(), fs.nul(), old(fol).fol()),
    ensures
        final(fol).wf_for(g@),
        follow_below(g@, fs.fst(), fs.nul(), final(fol).fol()),
        final(fol).follow.count() >= old(fol).follow.count(),
        old(fol).fol().subset_of(final(fol).fol()),
        changed ==> final(fol).follow.count() > old(fol).follow.count(),
        !changed ==> *final(fol) == *old(fol) && follow_pos_closed(
            g@,
            fs.fst(),
            fs.nul(),
            final(fol).fol(),
            r as int,
            i as int,
        ),
{
    let ghost gv = g@;
    let ghost fol0 = *fol;
    let ghost fst = fs.fst();
    let ghost nul = fs.nul();
    let a = g.productions[r].head;
    let n_terms = g.terminals.len();
    let blen = g.productions[r].body.len();
    let ghost body = gv.rules[r as int].body;
    let ghost rest = body.skip(i + 1);
    assert(body == g.productions@[r as int].body@);
    let x = match g.productions[r].body[i] {
        Sym::Term(_) => {
            return false;
        },
        Sym::NonTerm(x) => x,
    };
    assert(gv.sym_ok(body[i as int]));
    let mut changed = false;
    let mut stop = false;
    let mut j: usize = i + 1;
    while j < blen && !stop
        invariant
            gv == g@,
            gv.wf(),
            fs.wf_for(gv),
            fst == fs.fst(),
            nul == fs.nul(),
            r < gv.rules.len(),
            i < blen,
            body == gv.rules[r as int].body,
            rest == body.skip(i + 1),
            body[i as int] == Sym::NonTerm(x),
            x < gv.n_nonterms,
            blen == body.len(),
            a == gv.rules[r as int].head,
            n_terms == gv.n_terms,
            i + 1 <= j <= blen,
            fol.wf_for(gv),
            follow_below(gv, fst, nul, fol.fol()),
            fol.follow.count() >= fol0.follow.count(),
            fol0.fol().subset_of(fol.fol()),
            changed ==> fol.follow.count() > fol0.follow.count(),
            !changed ==> *fol == fol0,
            !stop ==> nullable_prefix(nul, rest, j - (i + 1)),
            stop ==> j > i + 1 && !sym_nullable(nul, rest[j - (i + 1) - 1]) && nullable_prefix(nul, rest, j - (i + 1) - 1),
            !changed ==> forall|m: int, t: usize|
                0 <= m < j - (i + 1) && #[trigger] sym_first(fst, rest[m], t) ==> fol.fol().contains((x, t)),
        decreases blen - j, if stop { 0int } else { 1int },
    {
        let ghost m = j - (i + 1);
        let y = g.productions[r].body[j];
        assert(y == rest[m]);
        assert(gv.sym_ok(body[j as int]));
        match y {
            Sym::Term(u) => {
                proof {
                    lemma_follow_add_first(gv, fst, nul, fol.fol(), r as int, i as int, m, u);
                }
                if fol.follow.insert(x, u) {
                    changed = true;
                }
                stop = true;
            },
            Sym::NonTerm(b) => {
                let mut t: usize = 0;
                while t < n_terms
                    invariant
                        gv == g@,
                        gv.wf(),
                        fs.wf_for(gv),
                        fst == fs.fst(),
                        nul == fs.nul(),
                        r < gv.rules.len(),
                        i < blen,
                        body == gv.rules[r as int].body,
                        rest == body.skip(i + 1),
                        body[i as int] == Sym::NonTerm(x),
                        x < gv.n_nonterms,
                        blen == body.len(),
                        n_terms == gv.n_terms,
                        i + 1 <= j < blen,
                        m == j - (i + 1),
                        y == rest[m],
                        y == Sym::NonTerm(b),
                        b < gv.n_nonterms,
                        t <= n_terms,
                        fol.wf_for(gv),
                        follow_below(gv, fst, nul, fol.fol()),
                        fol.follow.count() >= fol0.follow.count(),
                fol0.fol().subset_of(fol.fol()),
                        fol0.fol().subset_of(fol.fol()),
            fol0.fol().subset_of(fol.fol()),
                        changed ==> fol.follow.count() > fol0.follow.count(),
                        !changed ==> *fol == fol0,
                        !stop,
                        nullable_prefix(nul, rest, m),
                        !changed ==> forall|m2: int, t2: usize|
                            0 <= m2 < m && #[trigger] sym_first(fst, rest[m2], t2) ==> fol.fol().contains((x, t2)),
                        !changed ==> forall|t2: usize| t2 < t && fst.contains((b, t2)) ==> fol.fol().contains((x, t2)),
                    decreases n_terms - t,
                {
                    if fs.contains(b, t) {
                        proof {
                            assert(sym_first(fst, rest[m], t));
                            lemma_follow_add_first(gv, fst, nul, fol.fol(), r as int, i as int, m, t);
                        }
                        if fol.follow.insert(x, t) {
                            changed = true;
                        }
                    }
                    t = t + 1;
                }
                proof {
                    if !changed {
                        assert forall|t2: usize| #[trigger] sym_first(fst, rest[m], t2) implies fol.fol().contains((x, t2)) by {
                            assert(fst.contains((b, t2)));
                            assert(t2 < n_terms);
                        }
                    }
                }
                if !fs.is_nullable(b) {
                    stop = true;
                }
            },
        }
        proof {
            if !changed {
                assert forall|m2: int, t2: usize|
                    0 <= m2 < m + 1 && #[trigger] sym_first(fst, rest[m2], t2) implies fol.fol().contains((x, t2)) by {
                    if m2 == m {
                        assert(sym_first(fst, rest[m], t2));
                    }
                }
            }
        }
        j = j + 1;
    }
    if !stop {
        assert(body_nullable(nul, rest));
        let mut t: usize = 0;
        while t < n_terms
            invariant
                gv == g@,
                gv.wf(),
                r < gv.rules.len(),
                i < body.len(),
                body == gv.rules[r as int].body,
                rest == body.skip(i + 1),
                body[i as int] == Sym::NonTerm(x),
                x < gv.n_nonterms,
                a == gv.rules[r as int].head,
                a < gv.n_nonterms,
                n_terms == gv.n_terms,
                t <= n_terms,
                body_nullable(nul, rest),
                !stop,
                j == blen,
                blen == body.len(),
                !changed ==> forall|m: int, t2: usize|
                    0 <= m < j - (i + 1) && #[trigger] sym_first(fst, rest[m], t2) ==> fol.fol().contains((x, t2)),
                fol.wf_for(gv),
                follow_below(gv, fst, nul, fol.fol()),
                fol.follow.count() >= fol0.follow.count(),
                fol0.fol().subset_of(fol.fol()),
            fol0.fol().subset_of(fol.fol()),
                changed ==> fol.follow.count() > fol0.follow.count(),
                !changed ==> *fol == fol0,
                !changed ==> forall|t2: usize| t2 < t && fol.fol().contains((a, t2)) ==> fol.fol().contains((x, t2)),
            decreases n_terms - t,
        {
            if fol.contains(a, t) {
                proof {
                    lemma_follow_add_follow(gv, fst, nul, fol.fol(), r as int, i as int, t);
                }
                if fol.follow.insert(x, t) {
                    changed = true;
                }
            }
            t = t + 1;
        }
    }
    proof {
        if !changed {
            assert forall|t: usize| #[trigger] body_first(fst, nul, rest, t) implies fol.fol().contains((x, t)) by {
                let m2 = choose|m2: int|
                    0 <= m2 < rest.len() && nullable_prefix(nul, rest, m2) && #[trigger] sym_first(fst, rest[m2], t);
                assert(rest.len() == blen - (i + 1));
                if stop {
                    if m2 >= j - (i + 1) {
                        assert(sym_nullable(nul, rest[j - (i + 1) - 1]));
                    }
                }
                assert(sym_first(fst, rest[m2], t));
            }
            if body_nullable(nul, rest) {
                assert(!stop) by {
                    if stop {
                        assert(sym_nullable(nul, rest[j - (i + 1) - 1]));
                    }
                }
                assert forall|t: usize| #[trigger] fol.fol().contains((a, t)) implies fol.fol().contains((x, t)) by {
                    assert(t < n_terms);
                }
            }
            assert(follow_pos_closed(gv, fst, nul, fol.fol(), r as int, i as int));
        }
    }
    changed
}

/// Applies the FOLLOW equations at every position once; says whether a
/// set grew.
fn follow_pass(g: &Grammar, fs: &FirstSets, fol: &mut FollowSets) -> (changed: bool)
    requires
        g.wf(),
        fs.wf_for(g@),
        old(fol).wf_for(g@),
        follow_below(g@, fs.fst(), fs.nul(), old(fol).fol()),
    ensures
        final(fol).wf_for(g@),
        follow_below(g@, fs.fst(), fs.nul(), final(fol).fol()),
        old(fol).fol().subset_of(final(fol).fol()),
        final(fol).follow.count() >= old(fol).follow.count(),
        changed ==> final(fol).follow.count() > old(fol).follow.count(),
        !changed ==> *final(fol) == *old(fol) && forall|r: int, i: int|
            0 <= r < g@.rules.len() && 0 <= i < g@.rules[r].body.len() ==> #[trigger] follow_pos_closed(
                g@,
                fs.fst(),
                fs.nul(),
                final(fol).fol(),
                r,
                i,
            ),
{
    let ghost fol0 = *fol;
    let n = g.productions.len();
    let mut changed = false;
    let mut r: usize = 0;
    while r < n
        invariant
            g.wf(),
            fs.wf_for(g@),
            n == g@.rules.len(),
            r <= n,
            fol.wf_for(g@),
            follow_below(g@, fs.fst(), fs.nul(), fol.fol()),
            fol0.fol().subset_of(fol.fol()),
            fol.follow.count() >= fol0.follow.count(),
            changed ==> fol.follow.count() > fol0.follow.count(),
            !changed ==> *fol == fol0,
            !changed ==> forall|rr: int, ii: int|
                0 <= rr < r && 0 <= ii < g@.rules[rr].body.len() ==> #[trigger] follow_pos_closed(
                    g@,
                    fs.fst(),
                    fs.nul(),
                    fol.fol(),
                    rr,
                    ii,
                ),
        decreases n - r,
    {
        let blen = g.productions[r].body.len();
        assert(blen == g@.rules[r as int].body.len());
        let mut i: usize = 0;
        while i < blen
            invariant
                g.wf(),
                fs.wf_for(g@),
                n == g@.rules.len(),
                r < n,
                blen == g@.rules[r as int].body.len(),
                i <= blen,
                fol.wf_for(g@),
                follow_below(g@, fs.fst(), fs.nul(), fol.fol()),
                fol0.fol().subset_of(fol.fol()),
                fol.follow.count() >= fol0.follow.count(),
                changed ==> fol.follow.count() > fol0.follow.count(),
                !changed ==> *fol == fol0,
                !changed ==> forall|rr: int, ii: int|
                    0 <= rr < r && 0 <= ii < g@.rules[rr].body.len() ==> #[trigger] follow_pos_closed(
                        g@,
                        fs.fst(),
                        fs.nul(),
                        fol.fol(),
                        rr,
                        ii,
                    ),
                !changed ==> forall|ii: int|
                    0 <= ii < i ==> #[trigger] follow_pos_closed(g@, fs.fst(), fs.nul(), fol.fol(), r as int, ii),
            decreases blen - i,
        {
            if follow_pos_step(g, fs, r, i, fol) {
                changed = true;
            }
            i = i + 1;
        }
        r = r + 1;
    }
    changed
}

/// FOLLOW of every nonterminal, given FIRST and nullability: the least sets
/// in which FOLLOW(start) holds `$` and, for every production
/// `A ::= .. X rest`, FOLLOW(X) holds FIRST(rest), and also FOLLOW(A) when
/// `rest` is nullable.
pub fn follow_set(g: &Grammar, fs: &FirstSets) -> (fol: FollowSets)
    requires
        g.wf(),
        fs.wf_for(g@),
    ensures
        fol.wf_for(g@),
        follow_least(g@, fs.fst(), fs.nul(), fol.fol()),
{
    let nn = g.nonterminals.len();
    let nt = g.terminals.len();
    let mut fol = FollowSets { follow: BitGrid::new(nn, nt) };
    fol.follow.insert(g.start, END_MARKER);
    assert(fol.fol() =~= Set::<(usize, usize)>::empty().insert((g@.start, END_MARKER)));
    let ghost bound = nn * nt;
    loop
        invariant
            g.wf(),
            fs.wf_for(g@),
            bound == g@.n_nonterms * g@.n_terms,
            fol.wf_for(g@),
            fol.fol().contains((g@.start, END_MARKER)),
            follow_below(g@, fs.fst(), fs.nul(), fol.fol()),
        ensures
            fol.wf_for(g@),
            follow_least(g@, fs.fst(), fs.nul(), fol.fol()),
        decreases bound - fol.follow.count(),
    {
        if !follow_pass(g, fs, &mut fol) {
            break;
        }
        proof {
            fol.follow.lemma_count_bound();
        }
    }
    fol
}

} // verus!
