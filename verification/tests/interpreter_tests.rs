use krkrs::interpreter::interpreter::State;
use krkrs::interpreter::parser::parse_label;
use krkrs::parsec::combinator::ParsecError;
use krkrs::parsec::combinator::ParsecErrorKind;
use krkrs::interpreter::parser::parse_ks_string;
use krkrs::interpreter::parser::parse_line_tag;
use krkrs::interpreter::parser::parse_text;
use krkrs::interpreter::parser::Tag;
use krkrs::interpreter::parser::Token;
use krkrs::parsec::to_chars;

#[test]
fn escaped_text_round_trip() {
    let input = to_chars("[[ ]] @@");
    let mut pos: usize = 0;
    assert_eq!(
        parse_text(&input, &mut pos).unwrap(),
        Token::Text("[ ] @".to_string())
    );
}

#[test]
fn duplicate_attribute_last_write_wins() {
    let input = to_chars("@t a=1 a=2");
    let mut pos: usize = 0;
    assert_eq!(
        parse_line_tag(&input, &mut pos).unwrap(),
        Token::Tag(Tag {
            name: "t".to_string(),
            attributes: vec![("a".to_string(), "2".to_string())],
        })
    );
}

#[test]
fn malformed_input_yields_failure() {
    assert!(parse_ks_string("@").is_err());
    assert!(parse_ks_string("@eval exp=\"unterminated").is_err());
}

#[test]
fn adjacent_constructs_need_no_delimiter() {
    let tokens = parse_ks_string("hello world.[lr]").unwrap();
    assert_eq!(
        tokens,
        vec![
            Token::Text("hello world.".to_string()),
            Token::Tag(Tag {
                name: "lr".to_string(),
                attributes: vec![],
            }),
        ]
    );
}

#[test]
fn empty_input_is_the_empty_document() {
    assert_eq!(parse_ks_string("").unwrap(), vec![]);
}

#[test]
fn ideographic_space_is_skipped() {
    let tokens = parse_ks_string("\u{3000}\u{3000}*p|\u{3000}\u{3000}").unwrap();
    assert_eq!(tokens.len(), 1);
}

#[test]
fn unexpected_end_of_input_is_reported() {
    let input = to_chars("*page47");
    let mut pos: usize = 0;
    assert_eq!(
        parse_label(&input, &mut pos),
        Err(ParsecError {
            msg: ParsecErrorKind::UnexpectedEOF,
        })
    );
}

#[test]
fn state_walks_to_the_first_pause() {
    let tokens =
        parse_ks_string("*page1|\n@bg file=park\nHello[lr]World[lr]\n@pg").unwrap();
    let mut s = State::new_from_tokens(tokens);
    assert_eq!(s.render_text_len(), 1);
    assert_eq!(s.render_text(0), "Hello".to_string());
    assert_eq!(s.render_image_len(), 1);
    assert_eq!(s.render_image(0), "/bgimage/park.png".to_string());

    s.eval_cmd("MouseClick");
    assert_eq!(s.render_text_len(), 2);
    assert_eq!(s.render_text(1), "World".to_string());

    s.eval_cmd("Enter");
    assert_eq!(s.render_text_len(), 2);

    s.eval_cmd("Enter");
    assert_eq!(s.render_text_len(), 0);
}

#[test]
fn state_ignores_other_commands() {
    let tokens = parse_ks_string("Hello[lr]World").unwrap();
    let mut s = State::new_from_tokens(tokens);
    assert_eq!(s.render_text_len(), 1);
    s.eval_cmd("q");
    assert_eq!(s.render_text_len(), 1);
}

#[test]
fn background_changes_replace_the_scene() {
    let tokens = parse_ks_string("@bg file=a\n@bg file=b\nx[lr]").unwrap();
    let s = State::new_from_tokens(tokens);
    assert_eq!(s.render_image_len(), 1);
    assert_eq!(s.render_image(0), "/bgimage/b.png".to_string());
}

#[test]
fn ideographic_space_ends_attribute_runs() {
    let input = to_chars("@t a=1\u{3000}b=2");
    let mut pos: usize = 0;
    assert_eq!(
        parse_line_tag(&input, &mut pos).unwrap(),
        Token::Tag(Tag {
            name: "t".to_string(),
            attributes: vec![
                ("a".to_string(), "1".to_string()),
                ("b".to_string(), "2".to_string()),
            ],
        })
    );
}

#[test]
fn ideographic_space_ends_a_label_heading() {
    let input = to_chars("*p|h\u{3000}rest");
    let mut pos: usize = 0;
    let t = parse_label(&input, &mut pos).unwrap();
    assert_eq!(
        t,
        Token::Label(krkrs::interpreter::parser::Label {
            label: "p".to_string(),
            heading: "h".to_string(),
        })
    );
    assert_eq!(pos, 4);
}
