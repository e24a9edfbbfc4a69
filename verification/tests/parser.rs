use mdbook_ifdef::lexer::{next_token, Token};
use mdbook_ifdef::parser::{parse, parse_chars, ParseError, ParseErrorKind};
use mdbook_ifdef::syntax::{blank, find_keyword, find_marker, name_char, Keyword};
use mdbook_ifdef::text::{chars_of, string_of};
use mdbook_ifdef::tree::{Branch, Guard, Node};

fn text(s: &str) -> Node {
    Node::Text(s.to_owned())
}

fn chars(s: &str) -> Vec<char> {
    s.chars().collect()
}

#[test]
fn chars_of_gives_the_characters() {
    assert_eq!(chars_of("aß你"), vec!['a', 'ß', '你']);
    assert_eq!(chars_of(""), Vec::<char>::new());
}

#[test]
fn string_of_gives_the_part() {
    let all = chars("abcdé");
    assert_eq!(string_of(&all, 1, 3), "bc");
    assert_eq!(string_of(&all, 0, 5), "abcdé");
    assert_eq!(string_of(&all, 4, 5), "é");
    assert_eq!(string_of(&all, 2, 2), "");
}

#[test]
fn name_characters() {
    for c in ['a', 'z', 'A', 'Z', '0', '9', '_'] {
        assert!(name_char(c));
    }
    for c in ['-', ' ', '@', '`', 'é', '.', '\n'] {
        assert!(!name_char(c));
    }
}

#[test]
fn blank_characters() {
    for c in [' ', '\t', '\n', '\r'] {
        assert!(blank(c));
    }
    for c in ['a', '\u{0C}', '\u{A0}', '_'] {
        assert!(!blank(c));
    }
}

#[test]
fn keywords_are_found_in_any_case() {
    assert_eq!(find_keyword(&chars("if"), 0), Some(Keyword::If));
    assert_eq!(find_keyword(&chars("xIF"), 1), Some(Keyword::If));
    assert_eq!(find_keyword(&chars("elif"), 0), Some(Keyword::Elif));
    assert_eq!(find_keyword(&chars("ELiF"), 0), Some(Keyword::Elif));
    assert_eq!(find_keyword(&chars("else"), 0), Some(Keyword::Else));
    assert_eq!(find_keyword(&chars("eLSe"), 0), Some(Keyword::Else));
    assert_eq!(find_keyword(&chars("end"), 0), Some(Keyword::End));
    assert_eq!(find_keyword(&chars("END"), 0), Some(Keyword::End));
    assert_eq!(find_keyword(&chars("file"), 0), Some(Keyword::File));
    assert_eq!(find_keyword(&chars("FiLe"), 0), Some(Keyword::File));
}

#[test]
fn other_words_are_no_keywords() {
    for word in ["", "i", "el", "els", "eli", "en", "fil", "fill", "ifx"[1..].as_ref(), "elsf", "xend"] {
        assert_eq!(find_keyword(&chars(word), 0), None);
    }
    assert_eq!(find_keyword(&chars("if"), 1), None);
    assert_eq!(find_keyword(&chars("if"), 2), None);
    assert_eq!(find_keyword(&chars("if"), 7), None);
    assert_eq!(find_keyword(&chars("ıf"), 0), None);
}

#[test]
fn markers_are_found() {
    assert!(find_marker(&chars("a @if b")));
    assert!(find_marker(&chars("@END")));
    assert!(find_marker(&chars("x@file")));
    assert!(!find_marker(&chars("")));
    assert!(!find_marker(&chars("@")));
    assert!(!find_marker(&chars("@ if")));
    assert!(!find_marker(&chars("a@b.c if else end")));
}

#[test]
fn tokens_are_read_one_by_one() {
    let all = chars("ab @if_x  `c` ```d``` @file_y@else @elif_z @end e");
    let mut at = 0;
    let mut tokens = Vec::new();
    let mut ends = Vec::new();
    while at < all.len() {
        let (token, next) = next_token(&all, at);
        tokens.push(token);
        ends.push(next);
        at = next;
    }
    assert_eq!(
        tokens,
        vec![
            Token::Text("ab ".to_owned()),
            Token::If("x".to_owned()),
            Token::CodeSnippet("`c`".to_owned()),
            Token::Text(" ".to_owned()),
            Token::CodeFence("```d```".to_owned()),
            Token::Text(" ".to_owned()),
            Token::FileGuard("y".to_owned()),
            Token::Else,
            Token::Elif("z".to_owned()),
            Token::End,
            Token::Text("e".to_owned()),
        ]
    );
    assert_eq!(ends, vec![3, 10, 13, 14, 21, 22, 29, 35, 43, 48, 49]);
}

#[test]
fn document_without_directives_is_one_text() {
    assert_eq!(parse("just text"), Ok(vec![text("just text")]));
    assert_eq!(parse(""), Ok(vec![]));
}

#[test]
fn code_regions_are_nodes_of_their_own() {
    assert_eq!(
        parse("a `b` c ```d``` e"),
        Ok(vec![
            text("a "),
            Node::CodeSnippet("`b`".to_owned()),
            text(" c "),
            Node::CodeFence("```d```".to_owned()),
            text(" e"),
        ])
    );
}

#[test]
fn block_holds_its_branches_in_order() {
    assert_eq!(
        parse("@if_a 111 @elif_b 222 @else 333 @file_c @end"),
        Ok(vec![Node::ConditionalBlock {
            branches: vec![
                Branch { guard: Guard::If("a".to_owned()), body: vec![text("111 ")] },
                Branch { guard: Guard::Elif("b".to_owned()), body: vec![text("222 ")] },
                Branch {
                    guard: Guard::Else,
                    body: vec![text("333 "), Node::FileGuard("c".to_owned())],
                },
            ],
        }])
    );
}

#[test]
fn blocks_nest() {
    assert_eq!(
        parse("x @if_a @if_b y @end @else @end z"),
        Ok(vec![
            text("x "),
            Node::ConditionalBlock {
                branches: vec![
                    Branch {
                        guard: Guard::If("a".to_owned()),
                        body: vec![Node::ConditionalBlock {
                            branches: vec![Branch {
                                guard: Guard::If("b".to_owned()),
                                body: vec![text("y ")],
                            }],
                        }],
                    },
                    Branch { guard: Guard::Else, body: vec![] },
                ],
            },
            text("z"),
        ])
    );
}

#[test]
fn keyword_case_is_not_kept_and_name_case_is() {
    assert_eq!(
        parse("@IF_Ab @eNd"),
        Ok(vec![Node::ConditionalBlock {
            branches: vec![Branch { guard: Guard::If("Ab".to_owned()), body: vec![] }],
        }])
    );
}

#[test]
fn bare_keyword_is_text() {
    assert_eq!(parse("@if you"), Ok(vec![text("@if you")]));
    assert_eq!(parse("@file_"), Ok(vec![text("@file_")]));
    assert_eq!(parse("@elif-x"), Ok(vec![text("@elif-x")]));
}

#[test]
fn parse_reports_each_kind_of_fault() {
    assert_eq!(parse("@if_a"), Err(ParseError { kind: ParseErrorKind::UnterminatedBlock, at: 0 }));
    assert_eq!(parse("@elif_a"), Err(ParseError { kind: ParseErrorKind::UnexpectedElif, at: 0 }));
    assert_eq!(parse("@else"), Err(ParseError { kind: ParseErrorKind::UnexpectedElse, at: 0 }));
    assert_eq!(parse("@end"), Err(ParseError { kind: ParseErrorKind::UnexpectedEnd, at: 0 }));
}

#[test]
fn first_fault_is_reported() {
    assert_eq!(
        parse("@if_a @end @end @if_b"),
        Err(ParseError { kind: ParseErrorKind::UnexpectedEnd, at: 11 })
    );
    assert_eq!(
        parse("@if_a @if_b @else @else @end"),
        Err(ParseError { kind: ParseErrorKind::UnexpectedElse, at: 18 })
    );
}

#[test]
fn parse_chars_agrees_with_parse() {
    for input in ["", "a @if_b c @end", "@end", "`x` @file_y", "@if_a"] {
        assert_eq!(parse_chars(&chars(input)), parse(input));
    }
}
