use lr_analysis::{drive, tokenize, Family, Grammar, NonTerminal, Table};

const COMPLEX_CFG: &str = "program -> compoundstmt
stmt -> ifstmt | whilestmt | assgstmt | compoundstmt
compoundstmt -> { stmts }
stmts -> stmt stmts | E
ifstmt -> if ( boolexpr ) then stmt else stmt
whilestmt -> while ( boolexpr ) stmt
assgstmt -> ID = arithexpr ;
boolexpr -> arithexpr boolop arithexpr
boolop -> < | > | <= | >= | ==
arithexpr -> multexpr arithexprprime
arithexprprime -> + multexpr arithexprprime | - multexpr arithexprprime | E
multexpr -> simpleexpr multexprprime
multexprprime -> * simpleexpr multexprprime | / simpleexpr multexprprime | E
simpleexpr -> ID | NUM | ( arithexpr )
";

fn run(input: &str) -> (Vec<String>, Vec<String>, bool) {
    let grammar = Grammar::from_cfg(COMPLEX_CFG, NonTerminal::from("program")).unwrap().augmented();
    let family = Family::from_grammar(&grammar).unwrap();
    let table = Table::build_from(&family, &grammar);
    assert!(!table.conflict());
    let d = drive(&grammar, &family, &table, tokenize(input), 100_000);
    assert!(!d.irregular);
    assert_eq!(d.reduced.len(), d.steps.len());
    assert_eq!(*d.reduced.last().unwrap(), 0);
    (d.messages(), d.lines(), d.escaped)
}

#[test]
fn driver_recovers_missing_semicolon() {
    let (messages, lines, escaped) = run("{\nwhile ( ID == NUM )\n{\nID = NUM\n}\n}");
    assert_eq!(messages, vec!["语法错误，第4行，缺少\";\"".to_string()]);
    assert!(!escaped);
    assert_eq!(lines.first().unwrap(), "program =>");
    assert_eq!(lines.last().unwrap(), "{ while ( ID == NUM ) { ID = NUM ; } }");
    for line in &lines[..lines.len() - 1] {
        assert!(line.ends_with(" =>"));
    }
}

#[test]
fn driver_on_valid_input() {
    let (messages, lines, escaped) = run("{ ID = NUM ; }");
    assert!(messages.is_empty());
    assert!(!escaped);
    assert_eq!(lines.first().unwrap(), "program =>");
    assert_eq!(lines[1], "compoundstmt =>");
    assert_eq!(lines.last().unwrap(), "{ ID = NUM ; }");
}

#[test]
fn tokenize_keeps_line_numbers() {
    let toks = tokenize("a b\n\n  c\td\n");
    let v: Vec<(usize, String)> = toks.iter().map(|(l, t)| (*l, t.as_str().to_string())).collect();
    assert_eq!(
        v,
        vec![
            (0, "a".to_string()),
            (0, "b".to_string()),
            (2, "c".to_string()),
            (2, "d".to_string())
        ]
    );
}

#[test]
fn driver_skips_unexpected_tokens() {
    let grammar = Grammar::from_cfg("S -> a b", NonTerminal::from("S")).unwrap().augmented();
    let family = Family::from_grammar(&grammar).unwrap();
    let table = Table::build_from(&family, &grammar);
    let d = drive(&grammar, &family, &table, tokenize("a x b"), 1000);
    assert!(d.irregular);
    assert!(!d.escaped);
    assert!(d.missing.is_empty());
    assert_eq!(d.lines().first().unwrap(), "S =>");
}

#[test]
fn driver_out_of_moves_is_escaped() {
    let grammar = Grammar::from_cfg("S -> a b", NonTerminal::from("S")).unwrap().augmented();
    let family = Family::from_grammar(&grammar).unwrap();
    let table = Table::build_from(&family, &grammar);
    let d = drive(&grammar, &family, &table, tokenize("a b"), 1);
    assert!(d.escaped);
    let d = drive(&grammar, &family, &table, tokenize("a b"), 100);
    assert!(!d.escaped);
}
