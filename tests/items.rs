use lr_analysis::{build_cores, Family, Grammar, Item, ItemSet, NonTerminal, Production, Terminal, Token};

fn nt(s: &str) -> Token {
    Token::NonTerminal(NonTerminal::from(s))
}

fn t(s: &str) -> Token {
    Token::Terminal(Terminal::from(s))
}

fn prod(head: &str, tail: Vec<Token>) -> Production {
    Production::new(NonTerminal::from(head), tail)
}

type ItemView = (Production, usize, Vec<String>);

fn item_view(g: &Grammar, it: &Item) -> ItemView {
    let mut la: Vec<String> = it.look_aheads(g).iter().map(|x| x.as_str().to_string()).collect();
    la.sort();
    (g.prods()[it.prod()].clone(), it.dot, la)
}

fn set_view(g: &Grammar, is: &ItemSet) -> Vec<ItemView> {
    is.items().iter().map(|it| item_view(g, it)).collect()
}

fn iv(p: Production, dot: usize, la: &[&str]) -> ItemView {
    let mut v: Vec<String> = la.iter().map(|s| s.to_string()).collect();
    v.sort();
    (p, dot, v)
}

fn same_set(a: &[ItemView], b: &[ItemView]) -> bool {
    a.len() == b.len() && b.iter().all(|x| a.contains(x))
}

fn code(g: &Grammar, tok: &Token) -> usize {
    g.token_id(tok).unwrap()
}

#[test]
fn closure() {
    let grammar = Grammar::from_cfg("program -> stmts\nstmts -> good", NonTerminal::from("program"))
        .unwrap()
        .augmented();
    let cores = build_cores(&grammar);
    let i0 = ItemSet::initial(&grammar, &cores).unwrap();
    let expected = vec![
        iv(prod("programprime", vec![nt("program")]), 0, &["eof"]),
        iv(prod("program", vec![nt("stmts")]), 0, &["eof"]),
        iv(prod("stmts", vec![t("good")]), 0, &["eof"]),
    ];
    assert!(same_set(&set_view(&grammar, &i0), &expected));
}

#[test]
fn goto_basic_transition() {
    let grammar = Grammar::from_cfg("S -> E\nE -> a", NonTerminal::from("S")).unwrap().augmented();
    let cores = build_cores(&grammar);
    let i0 = ItemSet::initial(&grammar, &cores).unwrap();
    let prod_sprime_s = prod("Sprime", vec![nt("S")]);
    let prod_s_e = prod("S", vec![nt("E")]);
    let prod_e_a = prod("E", vec![t("a")]);

    let next_state_s = i0.goto(&grammar, &cores, code(&grammar, &nt("S"))).expect("Should goto S");
    assert!(same_set(&set_view(&grammar, &next_state_s), &[iv(prod_sprime_s, 1, &["eof"])]));

    let next_state_e = i0.goto(&grammar, &cores, code(&grammar, &nt("E"))).expect("Should goto E");
    assert!(same_set(&set_view(&grammar, &next_state_e), &[iv(prod_s_e, 1, &["eof"])]));

    let next_state_a = i0.goto(&grammar, &cores, code(&grammar, &t("a"))).expect("Should goto a");
    assert!(same_set(&set_view(&grammar, &next_state_a), &[iv(prod_e_a, 1, &["eof"])]));
}

#[test]
fn goto_triggers_closure_and_recursion() {
    let grammar = Grammar::from_cfg(
        "program -> stmts\nstmts -> stmt stmts | stmt",
        NonTerminal::from("program"),
    )
    .unwrap()
    .augmented();
    let cores = build_cores(&grammar);
    let i0 = ItemSet::initial(&grammar, &cores).unwrap();
    let i1 = i0.goto(&grammar, &cores, code(&grammar, &t("stmt"))).expect("Should goto stmt");
    let rec = prod("stmts", vec![t("stmt"), nt("stmts")]);
    let single = prod("stmts", vec![t("stmt")]);
    let expected = vec![
        iv(rec.clone(), 1, &["eof"]),
        iv(single.clone(), 1, &["eof"]),
        iv(rec, 0, &["eof"]),
        iv(single, 0, &["eof"]),
    ];
    assert!(same_set(&set_view(&grammar, &i1), &expected));
}

#[test]
fn goto_preserves_lookahead() {
    let grammar = Grammar::from_cfg("S -> A b\nA -> a", NonTerminal::from("S")).unwrap().augmented();
    let cores = build_cores(&grammar);
    let i0 = ItemSet::initial(&grammar, &cores).unwrap();
    let prod_a_a = prod("A", vec![t("a")]);
    assert!(
        set_view(&grammar, &i0).contains(&iv(prod_a_a.clone(), 0, &["b"])),
        "I0 should contain A -> . a {{b}}"
    );
    let i_next = i0.goto(&grammar, &cores, code(&grammar, &t("a"))).unwrap();
    assert!(same_set(&set_view(&grammar, &i_next), &[iv(prod_a_a, 1, &["b"])]));
}

fn family_of_itemsets_repeaten() {
    let grammar = Grammar::from_cfg(
        "program -> stmts
            stmts -> stmt stmts | stmt",
        NonTerminal::from("program"),
    )
    .unwrap()
    .augmented();
    let family = Family::from_grammar(&grammar).unwrap();
    let pp = prod("programprime", vec![nt("program")]);
    let p = prod("program", vec![nt("stmts")]);
    let rec = prod("stmts", vec![t("stmt"), nt("stmts")]);
    let single = prod("stmts", vec![t("stmt")]);
    let expected: Vec<Vec<ItemView>> = vec![
        vec![
            iv(pp.clone(), 0, &["eof"]),
            iv(p.clone(), 0, &["eof"]),
            iv(rec.clone(), 0, &["eof"]),
            iv(single.clone(), 0, &["eof"]),
        ],
        vec![
            iv(rec.clone(), 1, &["eof"]),
            iv(single.clone(), 1, &["eof"]),
            iv(single.clone(), 0, &["eof"]),
            iv(rec.clone(), 0, &["eof"]),
        ],
        vec![iv(pp, 1, &["eof"])],
        vec![iv(p, 1, &["eof"])],
        vec![iv(rec, 2, &["eof"])],
    ];
    assert_eq!(family.item_sets().len(), expected.len());
    for (is, exp) in family.item_sets().iter().zip(expected.iter()) {
        assert!(same_set(&set_view(&grammar, is), exp));
    }
}

#[test]
fn family_of_itemsets() {
    (0..10).for_each(|_| family_of_itemsets_repeaten());
}

#[test]
fn epsilon_prod() {
    let grammar = Grammar::from_cfg("head -> E", NonTerminal::from("head")).unwrap();
    assert_eq!(grammar.prods()[0], prod("head", vec![Token::Terminal(Terminal::epsilon())]));
    let mut look = vec![false; grammar.n_terms()];
    look[grammar.n_terms() - 1] = true;
    let item = Item::initial(0, look);
    assert_eq!(item.expected(&grammar), None);
    assert!(item.goto(&grammar, &Token::Terminal(Terminal::epsilon())).is_none());
    assert_eq!(item.to_text(&grammar), "head -> ⋅ 〈eof〉");
}

const COMPLEX_CFG: &str = "program -> compoundstmt
stmt -> ifstmt | whilestmt | assgstmt | compoundstmt
compoundstmt -> { stmts }
stmts -> stmt stmts | E
ifstmt -> if ( boolexpr ) then stmt else stmt
whilestmt -> while ( boolexpr ) stmt
assgstmt -> ID = arithexpr ;
boolexpr -> arithexpr boolop arithexpr
boolop -> < | > | <= | >= | ==
arithexpr -> multexpr arithexprprime
arithexprprime -> + multexpr arithexprprime | - multexpr arithexprprime | E
multexpr -> simpleexpr multexprprime
multexprprime -> * simpleexpr multexprprime | / simpleexpr multexprprime | E
simpleexpr -> ID | NUM | ( arithexpr )";

#[test]
fn family_of_complex_cfg() {
    let grammar = Grammar::from_cfg(COMPLEX_CFG, NonTerminal::from("program")).unwrap();
    let family = Family::from_grammar(&grammar).unwrap();
    assert_eq!(
        family.gotos_of(42),
        Some(vec![
            (t("("), 20),
            (t("ID"), 21),
            (t("NUM"), 22),
            (nt("multexpr"), 71),
            (nt("simpleexpr"), 25),
        ])
    );
}

#[test]
fn goto_defined_iff_some_item_expects_the_token() {
    let grammar = Grammar::from_cfg(COMPLEX_CFG, NonTerminal::from("program")).unwrap().augmented();
    let family = Family::from_grammar(&grammar).unwrap();
    for (s, is) in family.item_sets().iter().enumerate() {
        for x in 0..grammar.tokens().len() {
            let expects = is.items().iter().any(|it| it.expected(&grammar) == Some(x));
            assert_eq!(family.goto_code(s, x).is_some(), expects);
        }
    }
}

#[test]
fn item_goto_and_reduces() {
    let grammar = Grammar::from_cfg("S -> A b\nA -> a", NonTerminal::from("S")).unwrap();
    let mut look = vec![false; grammar.n_terms()];
    look[grammar.n_terms() - 1] = true;
    let item = Item::initial(0, look);
    assert!(item.reduces(&grammar).is_none());
    assert!(item.goto(&grammar, &t("b")).is_none());
    let moved = item.goto(&grammar, &nt("A")).unwrap();
    assert_eq!(moved.core_of(), (0, 1));
    let done = moved.goto(&grammar, &t("b")).unwrap();
    let r: Vec<String> = done.reduces(&grammar).unwrap().iter().map(|x| x.as_str().to_string()).collect();
    assert_eq!(r, vec!["eof".to_string()]);
    assert_eq!(done.to_text(&grammar), "S -> A b ⋅ 〈eof〉");
    assert_eq!(moved.to_text(&grammar), "S -> A ⋅ b 〈eof〉");
}

#[test]
fn grammar_not_augmented() {
    let grammar = Grammar::from_cfg("S -> a | b", NonTerminal::from("S")).unwrap();
    assert_eq!(Family::from_grammar(&grammar).err(), Some(lr_analysis::Error::GrammarNotAugmented));
}

#[test]
fn construction_is_deterministic() {
    let g1 = Grammar::from_cfg(COMPLEX_CFG, NonTerminal::from("program")).unwrap().augmented();
    let g2 = Grammar::from_cfg(COMPLEX_CFG, NonTerminal::from("program")).unwrap().augmented();
    let f1 = Family::from_grammar(&g1).unwrap();
    let f2 = Family::from_grammar(&g2).unwrap();
    assert_eq!(f1.len(), f2.len());
    for s in 0..f1.len() {
        assert_eq!(set_view(&g1, &f1.item_sets()[s]), set_view(&g2, &f2.item_sets()[s]));
        assert_eq!(f1.gotos_of(s), f2.gotos_of(s));
    }
}

#[test]
fn reductions_of_an_item_set() {
    let grammar = Grammar::from_cfg("S -> a", NonTerminal::from("S")).unwrap().augmented();
    let family = Family::from_grammar(&grammar).unwrap();
    let to = family.goto_code(0, grammar.token_id(&t("a")).unwrap()).unwrap();
    let r = family.item_sets()[to].reduces(&grammar);
    assert_eq!(r.len(), 1);
    assert_eq!(r[0].0, 1);
    assert_eq!(r[0].1.as_str(), "eof");
}

#[test]
fn family_edges_and_item_set_equality() {
    let grammar = Grammar::from_cfg("S -> A b\nA -> a", NonTerminal::from("S")).unwrap().augmented();
    let family = Family::from_grammar(&grammar).unwrap();
    let edges = family.gotos();
    let mut count = 0;
    for s in 0..family.len() {
        if let Some(v) = family.gotos_of(s) {
            for (tok, to) in v {
                assert!(edges.contains(&(s, tok, to)));
                count += 1;
            }
        }
    }
    assert_eq!(edges.len(), count);
    assert!(!family.is_empty());
    let cores = build_cores(&grammar);
    let again = ItemSet::initial(&grammar, &cores).unwrap();
    assert!(again == family.item_sets()[0]);
    assert!(family.item_sets()[0] != family.item_sets()[1]);
}
