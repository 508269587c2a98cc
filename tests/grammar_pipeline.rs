use ll1_parser::engine::{parse, ParseError, ParseToken};
use ll1_parser::grammar::{Grammar, GrammarError, Sym, END_MARKER};
use ll1_parser::loader::{split_rule, split_words, RuleText};
use ll1_parser::sets::{first_set, follow_set};
use ll1_parser::table::{lookahead_one, parse_table, sets_and_table, Analysis};

fn strings(xs: &[&str]) -> Vec<String> {
    xs.iter().map(|x| x.to_string()).collect()
}

fn grammar(terms: &[&str], lines: &[&str], start: &str) -> Grammar {
    Grammar::from_text(&strings(terms), &strings(lines), &start.to_string()).expect("grammar loads")
}

fn tokens(g: &Grammar, names: &[&str]) -> Vec<ParseToken> {
    names
        .iter()
        .enumerate()
        .map(|(i, n)| ParseToken {
            tag: g.terminal_index(&n.to_string()).expect("known terminal"),
            literal: None,
            line: 1,
            column: i,
        })
        .collect()
}

fn t(g: &Grammar, name: &str) -> usize {
    g.terminal_index(&name.to_string()).unwrap()
}

fn nt(g: &Grammar, name: &str) -> usize {
    g.nonterminal_index(&name.to_string()).unwrap()
}

fn analyse(g: &Grammar) -> Analysis {
    sets_and_table(g).expect("grammar is LL(1)")
}

fn balanced() -> Grammar {
    grammar(&["a", "b"], &["S ::= a S b", "S ::= \u{3b5}"], "S")
}

#[test]
fn balanced_input_accepts() {
    let g = balanced();
    let an = analyse(&g);
    let toks = tokens(&g, &["a", "a", "b", "b", "$"]);
    assert_eq!(parse(&g, &an.table, &toks), Ok(()));
}

#[test]
fn unbalanced_input_fails_at_end_marker() {
    let g = balanced();
    let an = analyse(&g);
    let toks = tokens(&g, &["a", "a", "b", "$"]);
    assert_eq!(
        parse(&g, &an.table, &toks),
        Err(ParseError::PrematureEndOfInput { expected: t(&g, "b"), index: 3, line: 1, column: 3 })
    );
}

#[test]
fn extra_closer_is_unexpected() {
    let g = balanced();
    let an = analyse(&g);
    let toks = tokens(&g, &["a", "b", "b", "$"]);
    assert_eq!(
        parse(&g, &an.table, &toks),
        Err(ParseError::UnexpectedToken { expected: END_MARKER, found: t(&g, "b"), index: 2, line: 1, column: 2 })
    );
}

#[test]
fn missing_rule_reports_no_rule() {
    let g = grammar(&["x", "y"], &["A ::= x B", "B ::= y"], "A");
    let an = analyse(&g);
    let toks = tokens(&g, &["y", "$"]);
    assert_eq!(
        parse(&g, &an.table, &toks),
        Err(ParseError::NoRule { nonterminal: nt(&g, "A"), lookahead: t(&g, "y"), index: 0, line: 1, column: 0 })
    );
}

#[test]
fn epsilon_rule_fills_follow_cells() {
    let g = grammar(&["x", "y"], &["A ::= x B", "B ::= y", "B ::= \u{3b5}"], "A");
    let an = analyse(&g);
    let b = nt(&g, "B");
    assert!(an.follow.contains(b, END_MARKER));
    assert!(!an.follow.contains(b, t(&g, "x")));
    assert_eq!(an.table.get(b, END_MARKER), Some(2));
    assert_eq!(an.table.get(b, t(&g, "y")), Some(1));
    assert_eq!(an.table.get(b, t(&g, "x")), None);
    assert!(an.first.is_nullable(b));
    assert!(!an.first.is_nullable(nt(&g, "A")));
    assert_eq!(parse(&g, &an.table, &tokens(&g, &["x", "$"])), Ok(()));
    assert_eq!(parse(&g, &an.table, &tokens(&g, &["x", "y", "$"])), Ok(()));
}

#[test]
fn duplicate_rules_are_dropped() {
    let g = grammar(&["n"], &["E ::= n", "E ::= n"], "E");
    assert_eq!(g.productions.len(), 1);
    let an = analyse(&g);
    assert_eq!(an.table.get(nt(&g, "E"), t(&g, "n")), Some(0));
}

#[test]
fn shared_first_terminal_is_not_ll1() {
    let g = grammar(&["n", "x"], &["E ::= n", "E ::= n x"], "E");
    let res = sets_and_table(&g);
    assert!(matches!(
        res,
        Err(GrammarError::GrammarNotLL1 { nonterminal: 0, lookahead, rule_a: 0, rule_b: 1 }) if lookahead == t(&g, "n")
    ));
}

#[test]
fn nullable_clash_through_follow_is_not_ll1() {
    let g = grammar(&["a"], &["S ::= A a", "A ::= a", "A ::= \u{3b5}"], "S");
    match sets_and_table(&g) {
        Err(GrammarError::GrammarNotLL1 { nonterminal, lookahead, rule_a, rule_b }) => {
            assert_eq!(nonterminal, nt(&g, "A"));
            assert_eq!(lookahead, t(&g, "a"));
            assert_eq!((rule_a, rule_b), (1, 2));
        }
        _ => panic!("expected a conflict"),
    }
}

#[test]
fn first_sets_reach_a_fixpoint() {
    // A uses B before B's own rule is seen, so one pass is not enough.
    let g = grammar(&["x", "y"], &["A ::= B x", "B ::= C", "C ::= y", "C ::= \u{3b5}"], "A");
    let fs = first_set(&g);
    let (a, b, c) = (nt(&g, "A"), nt(&g, "B"), nt(&g, "C"));
    assert!(fs.contains(a, t(&g, "y")));
    assert!(fs.contains(a, t(&g, "x")));
    assert!(!fs.contains(a, END_MARKER));
    assert!(fs.contains(b, t(&g, "y")));
    assert!(!fs.contains(b, t(&g, "x")));
    assert!(fs.is_nullable(b));
    assert!(fs.is_nullable(c));
    assert!(!fs.is_nullable(a));
}

fn expression_grammar() -> Grammar {
    grammar(
        &["+", "*", "(", ")", "id"],
        &[
            "E ::= T E2",
            "E2 ::= + T E2",
            "E2 ::= \u{3b5}",
            "T ::= F T2",
            "T2 ::= * F T2",
            "T2 ::= \u{3b5}",
            "F ::= ( E )",
            "F ::= id",
        ],
        "E",
    )
}

#[test]
fn follow_sets_of_expression_grammar() {
    let g = expression_grammar();
    let fs = first_set(&g);
    let fol = follow_set(&g, &fs);
    let n_terms = g.terminals.len();
    let follow_of = |name: &str| -> Vec<usize> {
        (0..n_terms).filter(|&x| fol.contains(nt(&g, name), x)).collect()
    };
    let mut e = vec![END_MARKER, t(&g, ")")];
    e.sort();
    assert_eq!(follow_of("E"), e);
    assert_eq!(follow_of("E2"), e);
    let mut tt = vec![END_MARKER, t(&g, ")"), t(&g, "+")];
    tt.sort();
    assert_eq!(follow_of("T"), tt);
    assert_eq!(follow_of("T2"), tt);
    let mut f = vec![END_MARKER, t(&g, ")"), t(&g, "+"), t(&g, "*")];
    f.sort();
    assert_eq!(follow_of("F"), f);
    for name in ["E", "T", "F"] {
        let firsts: Vec<usize> = (0..n_terms).filter(|&x| fs.contains(nt(&g, name), x)).collect();
        let mut want = vec![t(&g, "("), t(&g, "id")];
        want.sort();
        assert_eq!(firsts, want);
    }
}

#[test]
fn expression_grammar_parses_sums_and_products() {
    let g = expression_grammar();
    let an = analyse(&g);
    let good = tokens(&g, &["id", "+", "id", "*", "(", "id", "+", "id", ")", "$"]);
    assert_eq!(parse(&g, &an.table, &good), Ok(()));
    let bad = tokens(&g, &["id", "+", "*", "id", "$"]);
    assert_eq!(
        parse(&g, &an.table, &bad),
        Err(ParseError::NoRule { nonterminal: nt(&g, "T"), lookahead: t(&g, "*"), index: 2, line: 1, column: 2 })
    );
}

#[test]
fn lookahead_of_epsilon_production_is_follow_of_head() {
    let g = expression_grammar();
    let fs = first_set(&g);
    let fol = follow_set(&g, &fs);
    let row = lookahead_one(&g, &fs, &fol, 2);
    let on: Vec<usize> = (0..row.len()).filter(|&x| row[x]).collect();
    let mut want = vec![END_MARKER, t(&g, ")")];
    want.sort();
    assert_eq!(on, want);
}

#[test]
fn table_building_is_repeatable() {
    let g = expression_grammar();
    let fs = first_set(&g);
    let fol = follow_set(&g, &fs);
    let t1 = parse_table(&g, &fs, &fol).unwrap();
    let t2 = parse_table(&g, &fs, &fol).unwrap();
    assert_eq!((t1.rows, t1.cols), (t2.rows, t2.cols));
    assert_eq!(t1.cells, t2.cells);
}

#[test]
fn replayed_stream_gives_same_verdict() {
    let g = expression_grammar();
    let an = analyse(&g);
    let toks = tokens(&g, &["(", "id", ")", "*", "id", "$"]);
    let first = parse(&g, &an.table, &toks);
    let again = parse(&g, &an.table, &toks.clone());
    assert_eq!(first, Ok(()));
    assert_eq!(first, again);
}

#[test]
fn failing_stream_repaired_after_failure_point_accepts() {
    let g = balanced();
    let an = analyse(&g);
    let bad = tokens(&g, &["a", "a", "b", "$"]);
    let index = match parse(&g, &an.table, &bad) {
        Err(ParseError::PrematureEndOfInput { index, .. }) => index,
        other => panic!("unexpected {:?}", other),
    };
    let mut fixed: Vec<&str> = vec!["a", "a", "b"][..index].to_vec();
    fixed.extend(["b", "$"]);
    assert_eq!(parse(&g, &an.table, &tokens(&g, &fixed)), Ok(()));
}

#[test]
fn start_without_rule_is_malformed() {
    let res = Grammar::from_text(&strings(&["x"]), &strings(&["A ::= x"]), &"B".to_string());
    assert!(matches!(res, Err(GrammarError::NoStartRule)));
}

#[test]
fn undefined_symbol_is_malformed() {
    let res = Grammar::from_text(&strings(&["x"]), &strings(&["A ::= x", "A ::= x Q z"]), &"A".to_string());
    assert!(matches!(res, Err(GrammarError::UndefinedSymbol { rule: 1, position: 1 })));
}

#[test]
fn rule_line_without_arrow_is_malformed() {
    let res = Grammar::from_text(&strings(&["x"]), &strings(&["A ::= x", "A x"]), &"A".to_string());
    assert!(matches!(res, Err(GrammarError::MalformedRule { line: 1 })));
}

#[test]
fn load_builds_indices_from_names() {
    let rules = vec![
        RuleText { head: "S".to_string(), body: strings(&["A", "b"]) },
        RuleText { head: "A".to_string(), body: strings(&["a"]) },
        RuleText { head: "S".to_string(), body: strings(&["A", "b"]) },
    ];
    let g = Grammar::load(&strings(&["a", "b"]), &rules, &"S".to_string()).unwrap();
    assert_eq!(g.terminals, strings(&["$", "a", "b"]));
    assert_eq!(g.nonterminals, strings(&["S", "A"]));
    assert_eq!(g.start, 0);
    assert_eq!(g.productions.len(), 2);
    assert_eq!(g.productions[0].head, 0);
    assert_eq!(g.productions[0].body, vec![Sym::NonTerm(1), Sym::Term(2)]);
    assert_eq!(g.productions[1].body, vec![Sym::Term(1)]);
}

#[test]
fn rule_lines_split_into_words() {
    assert_eq!(split_words("  E  ::= n   E2 "), strings(&["E", "::=", "n", "E2"]));
    assert_eq!(split_words(""), Vec::<String>::new());
    let r = split_rule("E2 ::= + T E2").unwrap();
    assert_eq!(r.head, "E2");
    assert_eq!(r.body, strings(&["+", "T", "E2"]));
    let e = split_rule("B ::= \u{3b5}").unwrap();
    assert_eq!(e.head, "B");
    assert!(e.body.is_empty());
    assert!(split_rule("B ::=").unwrap().body.is_empty());
    assert!(split_rule("B := x").is_none());
    assert!(split_rule("B").is_none());
}
