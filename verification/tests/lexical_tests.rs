use krkrs::parsec::combinator::MapFn;
use krkrs::parsec::combinator::ParsecError;
use krkrs::parsec::combinator::ParsecErrorKind;
use krkrs::parsec::combinator::Value;
use krkrs::parsec::combinator::fmap;
use krkrs::parsec::combinator::many;
use krkrs::parsec::combinator::sep_by;
use krkrs::parsec::lexical::alpha_num;
use krkrs::parsec::lexical::crlf;
use krkrs::parsec::lexical::dec_num;
use krkrs::parsec::lexical::digit;
use krkrs::parsec::lexical::letter;
use krkrs::parsec::lexical::lf;
use krkrs::parsec::lexical::newline;
use krkrs::parsec::lexical::none_of;
use krkrs::parsec::lexical::nonspace;
use krkrs::parsec::lexical::nonspaces;
use krkrs::parsec::lexical::one_of;
use krkrs::parsec::lexical::parse_char;
use krkrs::parsec::lexical::space;
use krkrs::parsec::lexical::spaces;
use krkrs::parsec::lexical::string;
use krkrs::parsec::lexical::word;
use krkrs::parsec::lexical::words;
use krkrs::parsec::run_parser;
use krkrs::parsec::run_parser_str;
use krkrs::parsec::to_chars;

#[test]
fn char_test_char() {
    let input = to_chars("你好世界");
    let mut pos: usize = 0;
    let p = parse_char('你');
    assert_eq!(run_parser(&p, &input, &mut pos).unwrap(), Value::Ch('你'));
}

#[test]
fn test_one_of() {
    let input = to_chars("你好世界");
    let mut pos: usize = 0;
    let p = one_of("你好".to_string());
    assert_eq!(run_parser(&p, &input, &mut pos).unwrap(), Value::Ch('你'));
    let input2 = to_chars("好世界");
    let mut pos2: usize = 0;
    assert_eq!(run_parser(&p, &input2, &mut pos2).unwrap(), Value::Ch('好'));
}

#[test]
fn test_space() {
    let input = to_chars("  你好世界");
    let mut pos: usize = 0;
    let p = space();
    assert_eq!(run_parser(&p, &input, &mut pos).unwrap(), Value::Ch(' '));
    assert_eq!(run_parser(&p, &input, &mut pos).unwrap(), Value::Ch(' '));
}

#[test]
fn test_spaces() {
    let input = to_chars("  你好世界");
    let mut pos: usize = 0;
    let p = spaces();
    assert_eq!(run_parser(&p, &input, &mut pos).unwrap(), Value::Unit);
    assert_eq!(pos, 2);
}

#[test]
fn test_none_of() {
    let input = to_chars("j你好");
    let mut pos: usize = 0;
    let p = none_of("你好".to_string());
    assert_eq!(run_parser(&p, &input, &mut pos).unwrap(), Value::Ch('j'));
    assert_eq!(
        run_parser(&p, &input, &mut pos),
        Err(ParsecError {
            msg: ParsecErrorKind::UnexpectedChar('你')
        })
    );
}

#[test]
fn test_digit() {
    let input = to_chars("123");
    let mut pos: usize = 0;
    let p = digit();
    assert_eq!(run_parser(&p, &input, &mut pos).unwrap(), Value::Ch('1'));
    assert_eq!(run_parser(&p, &input, &mut pos).unwrap(), Value::Ch('2'));
    assert_eq!(run_parser(&p, &input, &mut pos).unwrap(), Value::Ch('3'));
}

#[test]
fn test_dec_num() {
    let input = to_chars("123");
    let mut pos: usize = 0;
    let p = dec_num();
    assert_eq!(run_parser(&p, &input, &mut pos).unwrap(), Value::Num(123));
}

#[test]
fn test_letter() {
    let input = to_chars("abc");
    let mut pos: usize = 0;
    let p = letter();
    assert_eq!(run_parser(&p, &input, &mut pos).unwrap(), Value::Ch('a'));
    assert_eq!(run_parser(&p, &input, &mut pos).unwrap(), Value::Ch('b'));
    assert_eq!(run_parser(&p, &input, &mut pos).unwrap(), Value::Ch('c'));
}

#[test]
fn test_alpha_num() {
    let input = to_chars("abc123");
    let mut pos: usize = 0;
    let p = alpha_num();
    assert_eq!(run_parser(&p, &input, &mut pos).unwrap(), Value::Ch('a'));
    assert_eq!(run_parser(&p, &input, &mut pos).unwrap(), Value::Ch('b'));
    assert_eq!(run_parser(&p, &input, &mut pos).unwrap(), Value::Ch('c'));
    assert_eq!(run_parser(&p, &input, &mut pos).unwrap(), Value::Ch('1'));
    assert_eq!(run_parser(&p, &input, &mut pos).unwrap(), Value::Ch('2'));
    assert_eq!(run_parser(&p, &input, &mut pos).unwrap(), Value::Ch('3'));
}

#[test]
fn test_lf() {
    let input = to_chars("\n");
    let mut pos: usize = 0;
    let p = lf();
    assert_eq!(run_parser(&p, &input, &mut pos).unwrap(), Value::Ch('\n'));
}

#[test]
fn test_string() {
    let input = to_chars("你好世界");
    let mut pos: usize = 0;
    let p = string("你好");
    assert_eq!(
        run_parser(&p, &input, &mut pos).unwrap(),
        Value::Str("你好".to_string())
    );
}

#[test]
fn test_crlf() {
    let input = to_chars("\r\na");
    let mut pos: usize = 0;
    let p = crlf();
    assert_eq!(
        run_parser(&p, &input, &mut pos).unwrap(),
        Value::Str("\r\n".to_string())
    );
}

#[test]
fn test_newline() {
    let input = to_chars("\n");
    let mut pos: usize = 0;
    let p = newline();
    assert_eq!(run_parser(&p, &input, &mut pos).unwrap(), Value::Unit);

    let input2 = to_chars("\r\n");
    let mut pos2: usize = 0;
    assert_eq!(run_parser(&p, &input2, &mut pos2).unwrap(), Value::Unit);
}

#[test]
fn test_parse_word() {
    let input = to_chars("abuhskh hjjh1hh");
    let mut pos: usize = 0;
    let p = word();
    assert_eq!(
        run_parser(&p, &input, &mut pos).unwrap(),
        Value::Str("abuhskh".to_string())
    );
    pos += 1;
    assert_eq!(
        run_parser(&p, &input, &mut pos).unwrap(),
        Value::Str("hjjh1hh".to_string())
    );
}

#[test]
fn test_parse_nonspace() {
    let input = to_chars("abuh#@#skh");
    let mut pos: usize = 0;
    let p = nonspace();
    assert_eq!(
        run_parser(&p, &input, &mut pos).unwrap(),
        Value::Str("abuh#@#skh".to_string())
    );
}

#[test]
fn test_parse_nonspaces() {
    let input = to_chars("abuh#@#skh   $%%^&");
    let mut pos: usize = 0;
    let p = nonspaces();
    assert_eq!(
        run_parser(&p, &input, &mut pos).unwrap(),
        Value::List(vec![
            Value::Str("abuh#@#skh".to_string()),
            Value::Str("$%%^&".to_string()),
        ])
    );
}

#[test]
fn test_words() {
    let input = to_chars("abuhskh hjjh1hh");
    let mut pos: usize = 0;
    let p = words();
    assert_eq!(
        run_parser(&p, &input, &mut pos).unwrap(),
        Value::List(vec![
            Value::Str("abuhskh".to_string()),
            Value::Str("hjjh1hh".to_string()),
        ])
    );
}

#[test]
fn test_runparser() {
    let input = to_chars("你");
    let mut pos: usize = 0;
    let p = parse_char('你');
    assert_eq!(run_parser(&p, &input, &mut pos).unwrap(), Value::Ch('你'));
}

#[test]
fn test_runparser_str() {
    let p = parse_char('你');
    assert_eq!(run_parser_str(&p, "你").unwrap(), Value::Ch('你'));
}

#[test]
fn mod_test_char() {
    let text = "
    *page47|
    @textoff
    @sestop file=se009 time=1500 nowait=true
    @a2aT file=o小さな公園-(曇)
    @play file=bgm05 time=0
    @texton
    Illya and I are alone in the small park a little way from the shopping district.[lr]
    Maybe all the children are at school or maybe such a small park isn’t popular anymore.[lr]
    We start to talk in the empty winter park, bathed in a strangely tense atmosphere.
    @pg
    ";
    let linebreak_parser = sep_by(fmap(many(none_of("\n".to_string())), MapFn::Collect), lf());
    let r = run_parser_str(&linebreak_parser, text);
    println!("{:?}", r);
}

#[test]
fn nonspace_stops_at_unicode_whitespace() {
    let input = to_chars("a\u{3000}b");
    let mut pos: usize = 0;
    let p = nonspace();
    assert_eq!(
        run_parser(&p, &input, &mut pos).unwrap(),
        Value::Str("a".to_string())
    );
    assert_eq!(pos, 1);
}
