use krkrs::interpreter::parser::Label;
use krkrs::interpreter::parser::Tag;
use krkrs::interpreter::parser::Token;
use krkrs::interpreter::parser::parse_delimiter;
use krkrs::interpreter::parser::parse_inlined_tag;
use krkrs::interpreter::parser::parse_key_value;
use krkrs::interpreter::parser::parse_label;
use krkrs::interpreter::parser::parse_line_tag;
use krkrs::interpreter::parser::parse_text;
use krkrs::interpreter::parser::parse_text_rune;
use krkrs::interpreter::parser::parse_token;
use krkrs::interpreter::parser::parse_tokens;
use krkrs::interpreter::parser::parse_ks_string;
use krkrs::parsec::combinator::ParsecError;
use krkrs::parsec::combinator::ParsecErrorKind;
use krkrs::parsec::to_chars;

fn tag(name: &str, attrs: Vec<(&str, &str)>) -> Token {
    Token::Tag(Tag {
        name: name.to_string(),
        attributes: attrs
            .into_iter()
            .map(|(k, v)| (k.to_string(), v.to_string()))
            .collect(),
    })
}

fn label(l: &str, h: &str) -> Token {
    Token::Label(Label {
        label: l.to_string(),
        heading: h.to_string(),
    })
}

#[test]
fn test_parse_label() {
    let input = to_chars("*page12|");
    let mut pos: usize = 0;
    assert_eq!(
        parse_label(&input, &mut pos).unwrap(),
        label("page12", "page12")
    );
}

#[test]
fn test_parse_label_heading() {
    let input = to_chars("*page12|wakeup");
    let mut pos: usize = 0;
    assert_eq!(
        parse_label(&input, &mut pos).unwrap(),
        label("page12", "wakeup")
    );
}

#[test]
fn test_parse_line_tag() {
    let input = to_chars("@a2aT a=2");
    let mut pos: usize = 0;
    assert_eq!(
        parse_line_tag(&input, &mut pos).unwrap(),
        tag("a2aT", vec![("a", "2")])
    );
}

#[test]
fn test_parse_quoted_tag() {
    let input = to_chars("@eval exp=\"sf.scriptresname = '桜ルート十二日目'\"");
    let mut pos: usize = 0;
    assert_eq!(
        parse_line_tag(&input, &mut pos).unwrap(),
        tag("eval", vec![("exp", "sf.scriptresname = '桜ルート十二日目'")])
    );
}

#[test]
fn test_parse_key_value() {
    let input = to_chars("a=2");
    let mut pos: usize = 0;
    assert_eq!(
        parse_key_value(&input, &mut pos).unwrap(),
        ("a".to_string(), "2".to_string())
    );
}

#[test]
fn test_parse_quoted_key_value() {
    let input = to_chars("exp=\"sf.scriptresname = '桜ルート十二日目'\"");
    let mut pos: usize = 0;
    assert_eq!(
        parse_key_value(&input, &mut pos).unwrap(),
        (
            "exp".to_string(),
            "sf.scriptresname = '桜ルート十二日目'".to_string()
        )
    );
}

#[test]
fn test_quoted_string() {
    let input = to_chars("\"sf.scriptresname = '桜ルート十二日目'\"");
    let mut pos: usize = 0;
    assert_eq!(
        krkrs::interpreter::parser::quoted_string(&input, &mut pos).unwrap(),
        "sf.scriptresname = '桜ルート十二日目'".to_string()
    );
}

#[test]
fn test_quoted_string_but_unquoted() {
    let input = to_chars("2");
    let mut pos: usize = 0;
    assert_eq!(
        krkrs::interpreter::parser::quoted_string(&input, &mut pos).unwrap(),
        "2".to_string()
    );
}

#[test]
fn test_parse_inlined_tag() {
    let input = to_chars("[lr]");
    let mut pos: usize = 0;
    assert_eq!(
        parse_inlined_tag(&input, &mut pos).unwrap(),
        tag("lr", vec![])
    );
}

#[test]
fn test_parse_text_rune() {
    let input = to_chars("[[");
    let mut pos: usize = 0;
    assert_eq!(parse_text_rune(&input, &mut pos).unwrap(), '[');

    let input2 = to_chars("[lf]");
    let mut pos2: usize = 0;
    assert_eq!(
        parse_text_rune(&input2, &mut pos2),
        Err(ParsecError {
            msg: ParsecErrorKind::UnexpectedChar('['),
        })
    );
}

#[test]
fn test_parse_text() {
    let input = to_chars("hello world.[lr]");
    let mut pos: usize = 0;
    assert_eq!(
        parse_text(&input, &mut pos).unwrap(),
        Token::Text("hello world.".to_string())
    );
}

#[test]
fn test_parse_text_easy() {
    let input = to_chars("hello world.");
    let mut pos: usize = 0;
    assert_eq!(
        parse_text(&input, &mut pos).unwrap(),
        Token::Text("hello world.".to_string())
    );
}

#[test]
fn test_parse_token() {
    let page = to_chars("*page47|");
    let mut p1: usize = 0;
    assert_eq!(parse_token(&page, &mut p1).unwrap(), label("page47", "page47"));

    let line_tag = to_chars("@a2aT file=o小さな公園-(曇)");
    let mut p2: usize = 0;
    assert_eq!(
        parse_token(&line_tag, &mut p2).unwrap(),
        tag("a2aT", vec![("file", "o小さな公園-(曇)")])
    );

    let inlined_tag = to_chars("[lr]");
    let mut p3: usize = 0;
    assert_eq!(parse_token(&inlined_tag, &mut p3).unwrap(), tag("lr", vec![]));

    let text = to_chars(
        "Illya and I are alone in the small park a little way from the shopping district.",
    );
    let mut p4: usize = 0;
    assert_eq!(
        parse_token(&text, &mut p4).unwrap(),
        Token::Text(
            "Illya and I are alone in the small park a little way from the shopping district."
                .to_string()
        )
    );
}

#[test]
fn test_parse_tokens() {
    let input = to_chars(
        "
    *page47|
    @sestop file=se009 time=1500 nowait=true
    Illya and I are alone in the small park a little way from the shopping district.[lr]
    @pg
    ",
    );
    let mut pos: usize = 0;
    assert_eq!(
        parse_tokens(&input, &mut pos).unwrap(),
        vec![
            label("page47", "page47"),
            tag(
                "sestop",
                vec![("file", "se009"), ("time", "1500"), ("nowait", "true")]
            ),
            Token::Text(
                "Illya and I are alone in the small park a little way from the shopping district."
                    .to_string()
            ),
            tag("lr", vec![]),
            tag("pg", vec![]),
        ]
    );
}

#[test]
fn test_parse_tokens_hard() {
    let input = to_chars(
        "@download id=0000783
*page0|&f.scripttitle
@eval exp=\"sf.scriptresname = '桜ルート十二日目'\"",
    );
    let mut pos: usize = 0;
    assert_eq!(
        parse_tokens(&input, &mut pos).unwrap(),
        vec![
            tag("download", vec![("id", "0000783")]),
            label("page0", "&f.scripttitle"),
            tag("eval", vec![("exp", "sf.scriptresname = '桜ルート十二日目'")]),
        ]
    );
}

#[test]
fn test_parse_ks_string() {
    let input = "@say storage=sak1209_shi_0010
    “O[line3]Oh yeah. It’s good if it’s decided. Sakura makes white stew, so let’s go look at the chicken meat.”";
    let tokens = parse_ks_string(input).unwrap();
    assert_eq!(
        tokens,
        vec![
            tag("say", vec![("storage", "sak1209_shi_0010")]),
            Token::Text("“O".to_string()),
            tag("line3", vec![]),
            Token::Text(
                "Oh yeah. It’s good if it’s decided. Sakura makes white stew, so let’s go look at the chicken meat.”"
                    .to_string()
            ),
        ]
    );
}

#[test]
fn test_parse_delimiter_forms() {
    let nl = to_chars("\nx");
    let mut p1: usize = 0;
    parse_delimiter(&nl, &mut p1).unwrap();
    assert_eq!(p1, 1);

    let crlf = to_chars("\r\nx");
    let mut p2: usize = 0;
    parse_delimiter(&crlf, &mut p2).unwrap();
    assert_eq!(p2, 2);

    let at = to_chars("@x");
    let mut p3: usize = 0;
    parse_delimiter(&at, &mut p3).unwrap();
    assert_eq!(p3, 0);

    let bracket = to_chars("]x");
    let mut p4: usize = 0;
    parse_delimiter(&bracket, &mut p4).unwrap();
    assert_eq!(p4, 1);

    let other = to_chars("x");
    let mut p5: usize = 0;
    assert_eq!(
        parse_delimiter(&other, &mut p5),
        Err(ParsecError {
            msg: ParsecErrorKind::UnexpectedChar('x'),
        })
    );
}
