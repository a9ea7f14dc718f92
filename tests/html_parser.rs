use html_dom::html_parser::Parser;

#[test]
fn test_consume_while() {
    let mut p = Parser::new("test".into());
    let res = p.consume_while(|_| true);
    assert_eq!(res, "test".to_string());

    let mut p = Parser::new("abcdefgh".into());
    let res = p.consume_while(|character| character < 'd');
    assert_eq!(res, "abc".to_string());
}

#[test]
fn test_consume_char() {
    let mut p = Parser::new("test".to_string());
    assert_eq!(p.consume_char(), Some('t'));
    assert_eq!(p.consume_char(), Some('e'));
    assert_eq!(p.consume_char(), Some('s'));
    assert_eq!(p.consume_char(), Some('t'));
    assert_eq!(p.consume_char(), None);
    assert_eq!(p.consume_char(), None);

    let mut p1 = Parser::with_position("test".into(), 2);
    assert_eq!(p1.consume_char(), Some('s'));
    assert_eq!(p1.consume_char(), Some('t'));
    assert_eq!(p1.consume_char(), None);
}

#[test]
fn test_new() {
    let input = "test".to_string();
    assert_eq!(Parser::new(input), Parser::with_position("test".into(), 0));
}

#[test]
fn test_eof() {
    let p0 = Parser::with_position("test".to_string(), 1);
    assert_eq!(p0.eof(), false);

    let p1 = Parser::with_position("test".to_string(), 4);
    assert_eq!(p1.eof(), true);
    let p2 = Parser::with_position("test".to_string(), 5);
    assert_eq!(p2.eof(), true);

    let p3 = Parser::new("".into());
    assert_eq!(p3.eof(), true);
}

#[test]
fn test_current_char() {
    let p = Parser::new("test".into());
    assert_eq!(p.current_char(), Some('t'));
    assert_eq!(p.current_char(), Some('t'));

    let p1 = Parser::new("".into());
    assert_eq!(p1.current_char(), None);
}

#[test]
fn test_next_starts_with() {
    let p = Parser::new("test".into());
    assert_eq!(p.starts_with("t"), true);
    assert_eq!(p.starts_with("test"), true);
    assert_eq!(p.starts_with("tes"), true);
    assert_eq!(p.starts_with(""), true);

    assert_eq!(p.starts_with("r"), false);
    assert_eq!(p.starts_with("rand"), false);
    assert_eq!(p.starts_with("est"), false);

    let p1 = Parser::new("".into());
    assert_eq!(p1.starts_with("t"), false);
    assert_eq!(p1.starts_with(""), true);

    let p2 = Parser::with_position("testing".into(), 2);
    assert_eq!(p2.starts_with(""), true);
    assert_eq!(p2.starts_with("s"), true);
    assert_eq!(p2.starts_with("sting"), true);
    assert_eq!(p2.starts_with("t"), false);
    assert_eq!(p2.starts_with("test"), false);
}

#[test]
fn consume_while_stops_before_failing_char() {
    let mut p = Parser::new("abcdefgh".into());
    assert_eq!(p.consume_while(|c| c < 'd'), "abc");
    assert_eq!(p.position(), 3);
    assert_eq!(p.current_char(), Some('d'));
}

#[test]
fn consume_while_everything_reaches_end() {
    let mut p = Parser::new("test".into());
    assert_eq!(p.consume_while(|_| true), "test");
    assert!(p.eof());
    assert_eq!(p.consume_while(|_| true), "");
    assert_eq!(p.position(), 4);
}

#[test]
fn consume_while_nothing_accepted() {
    let mut p = Parser::new("xyz".into());
    assert_eq!(p.consume_while(|c| c == 'a'), "");
    assert_eq!(p.position(), 0);
    assert_eq!(p.current_char(), Some('x'));
}

#[test]
fn consume_past_end_keeps_moving_forward() {
    let mut p = Parser::new("a".into());
    assert_eq!(p.consume_char(), Some('a'));
    assert_eq!(p.position(), 1);
    assert_eq!(p.consume_char(), None);
    assert_eq!(p.position(), 2);
    assert_eq!(p.consume_char(), None);
    assert_eq!(p.position(), 3);
    assert!(p.eof());
}

#[test]
fn cursor_counts_characters_not_bytes() {
    let mut p = Parser::new("héllo→x".into());
    assert_eq!(p.consume_char(), Some('h'));
    assert_eq!(p.current_char(), Some('é'));
    assert!(p.starts_with("éllo→"));
    assert_eq!(p.consume_while(|c| c != '→'), "éllo");
    assert_eq!(p.position(), 5);
    assert_eq!(p.consume_char(), Some('→'));
    assert_eq!(p.current_char(), Some('x'));
    assert!(p.starts_with("x"));
}

#[test]
fn starts_with_past_end() {
    let p = Parser::with_position("ab".into(), 7);
    assert!(p.starts_with(""));
    assert!(!p.starts_with("a"));
}

#[test]
fn starts_with_longer_than_rest() {
    let p = Parser::with_position("abc".into(), 1);
    assert!(!p.starts_with("bcd"));
    assert!(p.starts_with("bc"));
}
