use zsem_plan::extract::{parse_cell, parse_row, schedule_from_document};
use zsem_plan::html::{Document, Token};
use zsem_plan::schedule::ScheduleFieldEnum;

fn open(tag: &str, classes: &[&str]) -> Token {
    Token::Open(tag.to_string(), classes.iter().map(|c| c.to_string()).collect())
}

fn text(s: &str) -> Token {
    Token::Text(s.to_string())
}

fn cell(out: &mut Vec<Token>, subject: &str, teacher: &str) {
    out.push(open("td", &["l"]));
    out.push(open("span", &["p"]));
    out.push(text(subject));
    out.push(Token::Close);
    out.push(Token::Close);
    out.push(open("a", &["n"]));
    out.push(text(teacher));
    out.push(Token::Close);
    out.push(Token::Close);
    out.push(Token::Close);
}

#[test]
fn depths_follow_the_walk() {
    let doc = Document::from_tokens(vec![
        Token::Other,
        open("p", &[]),
        text("x"),
        Token::Close,
        Token::Close,
        open("i", &[]),
        Token::Close,
        Token::Close,
    ]);
    assert_eq!(doc.depths, vec![0, 1, 2, 3, 2, 1, 2, 1]);
    assert_eq!(doc.subtree_end(1), 5);
    assert_eq!(doc.subtree_end(0), 8);
}

#[test]
fn hand_built_table() {
    let mut t = vec![open("table", &["tabela"]), open("tr", &[])];
    t.push(open("td", &["g"]));
    t.push(text(" 7:10 - 7:55 "));
    t.push(Token::Close);
    t.push(Token::Close);
    for i in 0..5 {
        cell(&mut t, &format!(" s{} ", i), "T");
    }
    t.push(Token::Close);
    t.push(Token::Close);
    let doc = Document::from_tokens(t);
    let s = schedule_from_document(&doc).unwrap();
    assert_eq!(s.time, vec!["7:10-7:55".to_string()]);
    match &s.friday[0] {
        Some(ScheduleFieldEnum::Class(g)) => {
            assert_eq!(g.subject, "s4");
            assert_eq!(g.teacher, "T");
            assert_eq!(g.classroom, "");
        }
        other => panic!("unexpected {:?}", other),
    }
    assert!(parse_row(&doc, 1).is_some());
    assert!(parse_row(&doc, 2).is_none());
    assert!(parse_cell(&doc, 2).is_none());
}
