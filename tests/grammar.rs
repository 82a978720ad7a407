use lr_analysis::{Error, Grammar, NonTerminal, ParseProductionError, Production, Terminal, Token};

fn nt(s: &str) -> Token {
    Token::NonTerminal(NonTerminal::from(s))
}

fn t(s: &str) -> Token {
    Token::Terminal(Terminal::from(s))
}

fn prod(head: &str, tail: Vec<Token>) -> Production {
    Production::new(NonTerminal::from(head), tail)
}

fn names(v: &[Terminal]) -> Vec<String> {
    let mut r: Vec<String> = v.iter().map(|x| x.as_str().to_string()).collect();
    r.sort();
    r
}

#[test]
fn parse_productions() {
    let input = "
            program -> compoundstmt
            stmt -> ifstmt | whilestmt | assgstmt
            compoundstmt -> { stmts }
        ";
    let grammar = Grammar::from_cfg(input, NonTerminal::from("program"))
        .unwrap()
        .augmented();
    let prods = vec![
        prod("programprime", vec![nt("program")]),
        prod("program", vec![nt("compoundstmt")]),
        prod("stmt", vec![t("ifstmt")]),
        prod("stmt", vec![t("whilestmt")]),
        prod("stmt", vec![t("assgstmt")]),
        prod("compoundstmt", vec![t("{"), t("stmts"), t("}")]),
    ];
    let tokens = vec![
        nt("programprime"),
        nt("program"),
        nt("compoundstmt"),
        nt("stmt"),
        Token::Terminal(Terminal::epsilon()),
        Token::Terminal(Terminal::eof()),
        t("ifstmt"),
        t("whilestmt"),
        t("assgstmt"),
        t("{"),
        t("}"),
        t("stmts"),
    ];
    assert_eq!(grammar.symbol_start().as_str(), "programprime");
    assert_eq!(grammar.prods(), &prods);
    assert_eq!(grammar.tokens().len(), tokens.len());
    for tok in &tokens {
        assert!(grammar.tokens().contains(tok));
    }
    assert_eq!(
        grammar.parse_production("S -> a b c"),
        Ok(prod("S", vec![t("a"), t("b"), t("c")]))
    );
    assert_eq!(
        grammar.parse_production("ifstmt -> a"),
        Err(Error::ParseProductionError {
            line: 0,
            cause: ParseProductionError::TokenTypeMisMatch("ifstmt".to_string())
        })
    );
}

#[test]
fn first() {
    let grammar = Grammar::from_cfg(
        "program -> stmts
            stmts -> { stmt stmts } | stmt | E | program",
        NonTerminal::from("program"),
    )
    .unwrap()
    .augmented();
    let expected = vec!["E".to_string(), "stmt".to_string(), "{".to_string()];
    let mut expected = expected;
    expected.sort();
    assert_eq!(names(&grammar.first_set(&vec![nt("stmts")]).unwrap()), expected);
    assert_eq!(names(&grammar.first_set(&vec![nt("programprime")]).unwrap()), expected);
}

#[test]
fn tokens_in_grammar_order() {
    let input = "
            program -> compoundstmt
            stmt -> ifstmt | whilestmt | assgstmt
            compoundstmt -> { stmts }
        ";
    let grammar = Grammar::from_cfg(input, NonTerminal::from("program"))
        .unwrap()
        .augmented();
    let order: Vec<&str> = grammar.tokens().iter().map(|x| x.as_str()).collect();
    assert_eq!(
        order,
        vec![
            "{", "}", "stmts", "ifstmt", "assgstmt", "whilestmt", "E", "eof", "compoundstmt",
            "program", "programprime", "stmt"
        ]
    );
    assert_eq!(grammar.n_terms(), 8);
}

#[test]
fn terminal_order_puts_specials_last() {
    let eps = Terminal::epsilon();
    let eof = Terminal::eof();
    let a = Terminal::from("zzzzzzzzzz");
    let b = Terminal::from("a");
    assert!(a.precedes(&eps));
    assert!(b.precedes(&a));
    assert!(eps.precedes(&eof));
    assert!(!eof.precedes(&eps));
    assert!(!eof.precedes(&a));
    assert!(Terminal::from("ab").precedes(&Terminal::from("ac")));
    assert!(!Terminal::from("ac").precedes(&Terminal::from("ab")));
    assert!(Token::Terminal(eof.clone()).precedes(&nt("A")));
    assert!(NonTerminal::from("program").precedes(&NonTerminal::from("programprime")));
}

#[test]
fn augmented_shifts_ids_by_one() {
    let g = Grammar::from_cfg("S -> A b\nA -> a | E", NonTerminal::from("S")).unwrap();
    let before: Vec<Production> = g.prods().clone();
    let a = g.augmented();
    assert_eq!(a.symbol_start().as_str(), "Sprime");
    assert_eq!(a.prods()[0], prod("Sprime", vec![nt("S")]));
    assert_eq!(a.prods().len(), before.len() + 1);
    for (i, p) in before.iter().enumerate() {
        assert_eq!(&a.prods()[i + 1], p);
        assert_eq!(a.index_of_prod(p), Some(i + 1));
    }
    assert_eq!(a.index_of_prod(&prod("Sprime", vec![nt("S")])), Some(0));
    assert_eq!(a.index_of_prod(&prod("X", vec![])), None);
}

#[test]
fn no_arrow_names_the_line() {
    let r = Grammar::from_cfg("S -> a\n\n   \nT a b\nT -> c", NonTerminal::from("S"));
    assert_eq!(
        r.err(),
        Some(Error::ParseProductionError { line: 3, cause: ParseProductionError::NoArrow })
    );
}

#[test]
fn unknown_start_symbol() {
    let r = Grammar::from_cfg("S -> a", NonTerminal::from("T"));
    assert_eq!(
        r.err(),
        Some(Error::ParseProductionError {
            line: 0,
            cause: ParseProductionError::StartSymbolNotFound
        })
    );
}

#[test]
fn parse_production_on_terminal_head_fails() {
    let g = Grammar::from_cfg("S -> ifstmt x", NonTerminal::from("S")).unwrap();
    assert_eq!(
        g.parse_production("ifstmt -> a"),
        Err(Error::ParseProductionError {
            line: 0,
            cause: ParseProductionError::TokenTypeMisMatch("ifstmt".to_string())
        })
    );
    assert_eq!(
        g.parse_production("no arrow here"),
        Err(Error::ParseProductionError { line: 0, cause: ParseProductionError::NoArrow })
    );
    assert_eq!(g.parse_production(" S -> S x  "), Ok(prod("S", vec![nt("S"), t("x")])));
}

#[test]
fn production_length_skips_epsilon() {
    let p = prod("head", vec![Token::Terminal(Terminal::epsilon())]);
    assert_eq!(p.len(), 0);
    assert!(p.is_empty());
    assert!(p.tail_without_eps().is_empty());
    let q = prod("h", vec![t("a"), Token::Terminal(Terminal::epsilon()), nt("B")]);
    assert_eq!(q.len(), 2);
    assert_eq!(q.tail_without_eps(), vec![t("a"), nt("B")]);
    assert_eq!(q.head().as_str(), "h");
    assert_eq!(q.tail().len(), 3);
}

#[test]
fn epsilon_is_in_first_iff_nullable() {
    let g = Grammar::from_cfg("S -> A B\nA -> a | E\nB -> E | b\nC -> c", NonTerminal::from("S"))
        .unwrap();
    let mut s = names(&g.first_set(&vec![nt("S")]).unwrap());
    s.sort();
    assert_eq!(s, vec!["E".to_string(), "a".to_string(), "b".to_string()]);
    assert_eq!(names(&g.first_set(&vec![nt("C")]).unwrap()), vec!["c".to_string()]);
    assert_eq!(names(&g.first_set(&vec![]).unwrap()), vec!["E".to_string()]);
    assert_eq!(
        names(&g.first_set(&vec![nt("A"), t("x")]).unwrap()),
        vec!["a".to_string(), "x".to_string()]
    );
}

#[test]
fn first_set_unknown_non_terminal() {
    let g = Grammar::from_cfg("S -> a", NonTerminal::from("S")).unwrap();
    assert_eq!(
        g.first_set(&vec![nt("Q")]).err(),
        Some(Error::NonTerminalNotFound("Q".to_string()))
    );
    // a non-terminal after a symbol that cannot vanish is never reached
    assert_eq!(names(&g.first_set(&vec![t("a"), nt("Q")]).unwrap()), vec!["a".to_string()]);
}

#[test]
fn unicode_blank_lines_are_skipped() {
    let g = Grammar::from_cfg("S -> a\n\u{a0}\u{3000}\nT -> b", NonTerminal::from("S")).unwrap();
    assert_eq!(g.prods().len(), 2);
}

#[test]
fn first_set_with_left_recursion() {
    let g = Grammar::from_cfg("E -> E + T | T\nT -> T * F | F\nF -> ( E ) | id", NonTerminal::from("E"))
        .unwrap();
    assert_eq!(
        names(&g.first_set(&vec![nt("E")]).unwrap()),
        vec!["(".to_string(), "id".to_string()]
    );
}

#[test]
fn get_token_prefers_non_terminal() {
    let g = Grammar::from_cfg("S -> a S | b", NonTerminal::from("S")).unwrap();
    assert_eq!(g.get_token("S"), Some(nt("S")));
    assert_eq!(g.get_token("a"), Some(t("a")));
    assert_eq!(g.get_token("zz"), None);
}

#[test]
fn production_text_and_token_accessors() {
    let p = prod("stmts", vec![t("stmt"), nt("stmts")]);
    assert_eq!(p.to_text(), "stmts -> stmt stmts");
    let a = t("x");
    let b = nt("Y");
    assert!(a.is_term() && !a.is_non_term());
    assert!(b.is_non_term() && !b.is_term());
    assert_eq!(a.as_term().map(|x| x.as_str().to_string()), Some("x".to_string()));
    assert!(a.as_non_term().is_none());
    assert_eq!(b.as_non_term().map(|x| x.as_str().to_string()), Some("Y".to_string()));
    assert!(b.as_term().is_none());
    assert_eq!(Terminal::epsilon().as_str(), "E");
    assert!(Terminal::eof().is_eof());
    assert_eq!(Error::GrammarNotAugmented.message(), "Grammar may be not augmented");
}

#[test]
fn grammars_compare_by_productions_start_and_tokens() {
    let a = Grammar::from_cfg("S -> a S | b", NonTerminal::from("S")).unwrap();
    let b = Grammar::from_cfg("\nS -> a S | b\n", NonTerminal::from("S")).unwrap();
    let c = Grammar::from_cfg("S -> a S | c", NonTerminal::from("S")).unwrap();
    assert!(a == b);
    assert!(a != c);
    assert!(a != b.augmented());
}
