use lr_analysis::{ActionCell, Error, Family, Grammar, NonTerminal, PanicAction, Table, Terminal};

fn build(input: &str, start: &str) -> (Grammar, Family) {
    let grammar = Grammar::from_cfg(input, NonTerminal::from(start)).unwrap().augmented();
    let family = Family::from_grammar(&grammar).unwrap();
    (grammar, family)
}

#[test]
fn markdown_table() {
    let input = "
            program -> compoundstmt
            stmt -> ifstmt | whilestmt | assgstmt
            compoundstmt -> { stmts }
        ";
    let (grammar, family) = build(input, "program");
    let table = Table::build_from(&family, &grammar);
    assert!(!table.conflict());
    assert_eq!(
        table.to_markdown(),
        r#"
| | `{` | `}` | `stmts` | `ifstmt` | `assgstmt` | `whilestmt` | `E` | `eof` | `compoundstmt` | `program` | `programprime` | `stmt` |
| - | - | - | - | - | - | - | - | - | - | - | - | - |
| $I_{0}$ | s1 |  |  |  |  |  |  |  | 2 | 3 |  |  |
| $I_{1}$ |  |  | s4 |  |  |  |  |  |  |  |  |  |
| $I_{2}$ |  |  |  |  |  |  |  | r1 |  |  |  |  |
| $I_{3}$ |  |  |  |  |  |  |  | acc |  |  |  |  |
| $I_{4}$ |  | s5 |  |  |  |  |  |  |  |  |  |  |
| $I_{5}$ |  |  |  |  |  |  |  | r5 |  |  |  |  |
"#
        .trim()
    );
}

const COMPLEX_CFG: &str = "program -> compoundstmt
stmt -> ifstmt | whilestmt | assgstmt | compoundstmt
compoundstmt -> { stmts }
stmts -> stmt stmts | E
ifstmt -> if ( boolexpr ) then stmt else stmt
whilestmt -> while ( boolexpr ) stmt
assgstmt -> ID = arithexpr ;
boolexpr -> arithexpr boolop arithexpr
boolop -> < | > | <= | >= | ==
arithexpr -> multexpr arithexprprime
arithexprprime -> + multexpr arithexprprime | - multexpr arithexprprime | E
multexpr -> simpleexpr multexprprime
multexprprime -> * simpleexpr multexprprime | / simpleexpr multexprprime | E
simpleexpr -> ID | NUM | ( arithexpr )";

#[test]
fn complex_cfg_is_conflict_free() {
    let (grammar, family) = build(COMPLEX_CFG, "program");
    let table = Table::build_from(&family, &grammar);
    assert!(!table.conflict());
    assert_eq!(table.rows(), family.len());
    assert_eq!(table.action_cols(), grammar.n_terms());
    assert_eq!(table.goto_cols(), grammar.tokens().len() - grammar.n_terms());
    for s in 0..table.rows() {
        for (_, cell) in table.actions(s).unwrap() {
            assert!(!cell.is_conflict());
            assert_eq!(cell.flatten().len(), 1);
        }
    }
}

#[test]
fn ambiguous_grammar_has_conflicts() {
    let (grammar, family) = build("E -> E + E | id", "E");
    let table = Table::build_from(&family, &grammar);
    assert!(table.conflict());
    let mut found = false;
    for s in 0..table.rows() {
        if let Some(cell) = table.action(s, &Terminal::from("+")) {
            if cell.is_conflict() {
                let leaves = cell.flatten();
                assert_eq!(leaves.len(), 2);
                assert!(matches!(leaves[0], ActionCell::Shift(_)));
                assert!(matches!(leaves[1], ActionCell::Reduce(1)));
                found = true;
            }
        }
    }
    assert!(found);
}

#[test]
fn action_and_goto_queries() {
    let (grammar, family) = build("S -> a", "S");
    let table = Table::build_from(&family, &grammar);
    let a = Terminal::from("a");
    let shift_to = match table.action(0, &a) {
        Some(ActionCell::Shift(s)) => *s,
        other => panic!("unexpected {:?}", other),
    };
    assert_eq!(table.action(shift_to, &Terminal::eof()), Some(&ActionCell::Reduce(1)));
    assert_eq!(table.action(0, &Terminal::from("zz")), None);
    assert_eq!(table.action(99, &a), None);
    let to_s = table.goto(0, &NonTerminal::from("S")).unwrap().unwrap();
    assert_eq!(table.action(to_s, &Terminal::eof()), Some(&ActionCell::Accept));
    assert_eq!(table.goto(shift_to, &NonTerminal::from("S")), Some(None));
    assert_eq!(table.goto(0, &NonTerminal::from("Q")), None);
    assert!(table.actions(99).is_none());
    assert_eq!(table.actions(0).unwrap().len(), 1);
}

#[test]
fn update_builds_conflict_trees_in_order() {
    let mut c = ActionCell::Empty;
    assert!(!c.update(ActionCell::Shift(3)));
    assert_eq!(c, ActionCell::Shift(3));
    assert!(!c.update(ActionCell::Empty));
    assert_eq!(c, ActionCell::Shift(3));
    assert!(c.update(ActionCell::Reduce(2)));
    assert!(c.is_conflict());
    assert!(c.update(ActionCell::Accept));
    assert_eq!(
        c.flatten(),
        vec![ActionCell::Shift(3), ActionCell::Reduce(2), ActionCell::Accept]
    );
    assert!(ActionCell::Empty.is_empty());
    assert_eq!(ActionCell::Empty.flatten(), vec![ActionCell::Empty]);
}

#[test]
fn panic_action_synthesizes_missing_semicolon() {
    let (grammar, family) = build(COMPLEX_CFG, "program");
    let table = Table::build_from(&family, &grammar);
    // walk `{ ID = NUM` and look at the state reached before `}`
    let mut stack = vec![0usize];
    let input = ["{", "ID", "=", "NUM"];
    for tok in input.iter() {
        let top = *stack.last().unwrap();
        match table.action(top, &Terminal::from(tok)) {
            Some(ActionCell::Shift(s)) => stack.push(*s),
            other => panic!("unexpected {:?}", other),
        }
    }
    let top = *stack.last().unwrap();
    let close = Terminal::from("}");
    assert_eq!(table.action(top, &close), Some(&ActionCell::Empty));
    let action = table.panic_action(&grammar, &family, top, &close).unwrap();
    assert!(matches!(action, PanicAction::Reduce(_)));
    assert!(!action.is_empty());
}

#[test]
fn panic_action_unknown_state() {
    let (grammar, family) = build("S -> a", "S");
    let table = Table::build_from(&family, &grammar);
    assert_eq!(
        table.panic_action(&grammar, &family, 99, &Terminal::from("a")).err(),
        Some(Error::StateNotFound(99))
    );
}

#[test]
fn panic_action_shift_and_accept() {
    let (grammar, family) = build("S -> a b", "S");
    let table = Table::build_from(&family, &grammar);
    let s1 = match table.action(0, &Terminal::from("a")) {
        Some(ActionCell::Shift(s)) => *s,
        other => panic!("unexpected {:?}", other),
    };
    // after `a`, `b` is missing before the end of input
    match table.panic_action(&grammar, &family, s1, &Terminal::eof()).unwrap() {
        PanicAction::Shift(t, to) => {
            assert_eq!(t.as_str(), "b");
            assert_eq!(table.action(s1, &Terminal::from("b")), Some(&ActionCell::Shift(to)));
        },
        other => panic!("unexpected {:?}", other),
    }
    let acc = table.goto(0, &NonTerminal::from("S")).unwrap().unwrap();
    assert_eq!(
        table.panic_action(&grammar, &family, acc, &Terminal::from("a")).unwrap(),
        PanicAction::Accept
    );
}

#[test]
fn recovery_state_of_missing_semicolon() {
    let (grammar, family) = build(COMPLEX_CFG, "program");
    let table = Table::build_from(&family, &grammar);
    let input = ["{", "while", "(", "ID", "==", "NUM", ")", "{", "ID", "=", "NUM", "}", "}"];
    let mut stack = vec![0usize];
    let mut i = 0;
    let mut recovered = None;
    while recovered.is_none() {
        let top = *stack.last().unwrap();
        let term = Terminal::from(input[i]);
        let reduce = match table.action(top, &term) {
            Some(ActionCell::Shift(s)) => {
                stack.push(*s);
                i += 1;
                None
            }
            Some(ActionCell::Reduce(p)) => Some(*p),
            Some(ActionCell::Empty) => match table.panic_action(&grammar, &family, top, &term).unwrap() {
                PanicAction::Reduce(p) => Some(p),
                PanicAction::Shift(x, s) => {
                    recovered = Some((i, x, s, top));
                    None
                }
                other => panic!("unexpected {:?}", other),
            },
            other => panic!("unexpected {:?}", other),
        };
        if let Some(p) = reduce {
            let prod = &grammar.prods()[p];
            stack.truncate(stack.len() - prod.len());
            let top = *stack.last().unwrap();
            stack.push(table.goto(top, &prod.head()).unwrap().unwrap());
        }
    }
    let (at, missing, target, state) = recovered.unwrap();
    // the missing `;` is found before the first `}`, after `ID = NUM`
    assert_eq!(at, 11);
    assert_eq!(missing, Terminal::from(";"));
    assert_eq!(table.action(state, &Terminal::from(";")), Some(&ActionCell::Shift(target)));
    assert_eq!(table.action(state, &Terminal::from("}")), Some(&ActionCell::Empty));
}
