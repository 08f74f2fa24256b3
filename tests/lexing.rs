use rbs::builtin::standard_table;
use rbs::keywords::{Keyword, Lookup};
use rbs::lexer::{Lexer, Token};
use rbs::table::{compile, Abbreviation, Entry, KeywordTable, Slot, TableError};

fn chars(s: &str) -> Vec<char> {
    s.chars().collect()
}

#[test]
fn longest_literal_wins() {
    let mut l = Lookup::new();
    l.insert(chars("in"), Keyword::In);
    l.insert(chars("inches"), Keyword::Cm);
    assert_eq!(l.longest_match(&chars("inches 3"), 0), Some((Keyword::Cm, 6)));
    assert_eq!(l.longest_match(&chars("inch"), 0), Some((Keyword::In, 2)));
    assert_eq!(l.longest_match(&chars("x inches"), 2), Some((Keyword::Cm, 6)));
    assert_eq!(l.longest_match(&chars("x"), 0), None);
}

#[test]
fn later_registration_wins() {
    let mut l = Lookup::new();
    l.insert(chars("go"), Keyword::Debug);
    l.insert(chars("go"), Keyword::Then);
    assert_eq!(l.longest_match(&chars("go"), 0), Some((Keyword::Then, 2)));
}

#[test]
fn lexer_tokens() {
    let mut lx = Lexer::new("move forward 1.5e3, cm ; # c\n?");
    assert!(matches!(lx.next(), Some(Token::Int(Keyword::MoveForward, 12))));
    assert!(matches!(lx.next(), Some(Token::Number(ref n)) if n == "1.5e3"));
    assert!(matches!(lx.next(), Some(Token::Int(Keyword::Cm, 2))));
    assert!(matches!(lx.next(), Some(Token::Lf)));
    assert!(matches!(lx.next(), Some(Token::Lf)));
    assert!(matches!(lx.next(), Some(Token::Lf)));
    match lx.next() {
        Some(Token::Errors(v)) => assert_eq!(v, vec!["could not parse \"?\". ignoring".to_string()]),
        _ => panic!("expected the diagnostics"),
    }
    assert!(lx.next().is_none());
}

fn small_table(reference: usize) -> KeywordTable {
    KeywordTable {
        abbreviations: vec![Abbreviation {
            name: "go".to_string(),
            variants: vec!["go".to_string(), "move".to_string()],
        }],
        entries: vec![Entry {
            keyword: Keyword::MoveForward,
            groups: vec![vec![Slot::Abbrev(reference), Slot::Word("on".to_string())]],
        }],
    }
}

#[test]
fn compile_expands_delimiters() {
    let l = compile(&small_table(0)).unwrap();
    for s in ["goon", "go on", "go_on", "go-on", "moveon", "move on", "move_on", "move-on"] {
        let n = s.chars().count();
        assert_eq!(l.longest_match(&chars(s), 0), Some((Keyword::MoveForward, n)));
    }
    assert_eq!(l.longest_match(&chars("go  on"), 0), None);
    assert_eq!(l.longest_match(&chars("go"), 0), None);
}

#[test]
fn compile_rejects_dangling_reference() {
    assert!(matches!(compile(&small_table(3)), Err(TableError::DanglingReference(3))));
}

#[test]
fn standard_table_compiles() {
    let l = compile(&standard_table()).unwrap();
    assert_eq!(l.longest_match(&chars("move backwards 3"), 0), Some((Keyword::MoveBackward, 14)));
    assert_eq!(l.longest_match(&chars("degrees"), 0), Some((Keyword::Deg, 7)));
    assert_eq!(l.longest_match(&chars("front-arm_up"), 0), Some((Keyword::ArmFrontUp, 12)));
}
