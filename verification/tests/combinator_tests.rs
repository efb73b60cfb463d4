use krkrs::parsec::combinator::CharClass;
use krkrs::parsec::combinator::MapFn;
use krkrs::parsec::combinator::ParsecError;
use krkrs::parsec::combinator::ParsecErrorKind;
use krkrs::parsec::combinator::Value;
use krkrs::parsec::combinator::between;
use krkrs::parsec::combinator::bind;
use krkrs::parsec::combinator::choice;
use krkrs::parsec::combinator::discard;
use krkrs::parsec::combinator::fmap;
use krkrs::parsec::combinator::lookahead;
use krkrs::parsec::combinator::many;
use krkrs::parsec::combinator::many1;
use krkrs::parsec::combinator::optional;
use krkrs::parsec::combinator::pure;
use krkrs::parsec::combinator::satisfy;
use krkrs::parsec::combinator::sep_by;
use krkrs::parsec::combinator::skip_many;
use krkrs::parsec::combinator::skip_many1;
use krkrs::parsec::combinator::try_parse;
use krkrs::parsec::lexical::dec_num;
use krkrs::parsec::lexical::parse_char;
use krkrs::parsec::lexical::string;
use krkrs::parsec::run_parser;
use krkrs::parsec::to_chars;

#[test]
fn test_satisfy() {
    let input = to_chars("你好世界");
    let mut pos: usize = 0;
    let p = satisfy(CharClass::Exact('你'));
    assert_eq!(run_parser(&p, &input, &mut pos).unwrap(), Value::Ch('你'));
}

#[test]
fn test_lookahead() {
    let input = to_chars("你好世界");
    let mut pos: usize = 0;
    let p = lookahead(parse_char('你'));
    assert_eq!(run_parser(&p, &input, &mut pos).unwrap(), Value::Ch('你'));
    assert_eq!(pos, 0);
    let q = parse_char('你');
    assert_eq!(run_parser(&q, &input, &mut pos).unwrap(), Value::Ch('你'));
}

#[test]
fn test_try_parse() {
    let input = to_chars("你好世界");
    let mut pos: usize = 0;
    let p = try_parse(parse_char('您'));
    assert_eq!(
        run_parser(&p, &input, &mut pos).unwrap_err().msg,
        ParsecErrorKind::UnexpectedChar('你')
    );
    assert_eq!(pos, 0);
    let q = parse_char('你');
    assert_eq!(run_parser(&q, &input, &mut pos).unwrap(), Value::Ch('你'));
}

#[test]
fn test_choice() {
    let input = to_chars("你好世界");
    let mut pos: usize = 0;
    let p = choice(vec![parse_char('你'), parse_char('您'), parse_char('好')]);
    assert_eq!(run_parser(&p, &input, &mut pos).unwrap(), Value::Ch('你'));
    assert_eq!(run_parser(&p, &input, &mut pos).unwrap(), Value::Ch('好'));
    assert_eq!(
        run_parser(&p, &input, &mut pos),
        Err(ParsecError {
            msg: ParsecErrorKind::UnexpectedChar('世')
        })
    );
}

#[test]
fn test_many() {
    let input = to_chars("你你你你你你");
    let mut pos: usize = 0;
    let p = many(parse_char('你'));
    assert_eq!(
        run_parser(&p, &input, &mut pos).unwrap(),
        Value::List(vec![
            Value::Ch('你'),
            Value::Ch('你'),
            Value::Ch('你'),
            Value::Ch('你'),
            Value::Ch('你'),
            Value::Ch('你'),
        ])
    );
}

#[test]
fn test_many1() {
    let input = to_chars("好");
    let mut pos: usize = 0;
    let p = many1(parse_char('你'));
    assert_eq!(
        run_parser(&p, &input, &mut pos),
        Err(ParsecError {
            msg: ParsecErrorKind::UnexpectedChar('好')
        })
    );
}

#[test]
fn test_skip_many() {
    let input = to_chars("你你你你你你好");
    let mut pos: usize = 0;
    let p = skip_many(parse_char('你'));
    assert_eq!(run_parser(&p, &input, &mut pos).unwrap(), Value::Unit);
    let p2 = parse_char('好');
    assert_eq!(run_parser(&p2, &input, &mut pos).unwrap(), Value::Ch('好'));
}

#[test]
fn test_skip_many1() {
    let input = to_chars("你你你你你你好");
    let mut pos: usize = 0;
    let p = skip_many1(parse_char('你'));
    assert_eq!(run_parser(&p, &input, &mut pos).unwrap(), Value::Unit);
    let p2 = parse_char('好');
    assert_eq!(run_parser(&p2, &input, &mut pos).unwrap(), Value::Ch('好'));
}

#[test]
fn test_sep_by() {
    let input = to_chars("你,你,你,你,你,你,你");
    let mut pos: usize = 0;
    let p = sep_by(parse_char('你'), parse_char(','));
    assert_eq!(
        run_parser(&p, &input, &mut pos).unwrap(),
        Value::List(vec![
            Value::Ch('你'),
            Value::Ch('你'),
            Value::Ch('你'),
            Value::Ch('你'),
            Value::Ch('你'),
            Value::Ch('你'),
            Value::Ch('你'),
        ])
    );
}

#[test]
fn test_fmap() {
    let input = to_chars("1");
    let mut pos: usize = 0;
    let p = fmap(parse_char('1'), MapFn::DigitValue);
    assert_eq!(run_parser(&p, &input, &mut pos).unwrap(), Value::Num(1));
}

#[test]
fn test_bind() {
    let input = to_chars("12");
    let mut pos: usize = 0;
    let p = bind(parse_char('1'), parse_char('2'));
    assert_eq!(run_parser(&p, &input, &mut pos).unwrap(), Value::Ch('2'));
}

#[test]
fn test_pure() {
    let input = to_chars("");
    let mut pos: usize = 0;
    let p = pure(Value::Num(1));
    assert_eq!(run_parser(&p, &input, &mut pos).unwrap(), Value::Num(1));
}

#[test]
fn test_discard() {
    let input = to_chars("1");
    let mut pos: usize = 0;
    let p = discard(parse_char('1'));
    assert_eq!(run_parser(&p, &input, &mut pos).unwrap(), Value::Unit);
}

#[test]
fn test_between() {
    let input = to_chars("*page34|");
    let mut pos: usize = 0;
    let p = between(string("*page"), dec_num(), parse_char('|'));
    assert_eq!(run_parser(&p, &input, &mut pos).unwrap(), Value::Num(34));
}

#[test]
fn test_optional() {
    let input = to_chars("你好");
    let mut pos: usize = 0;
    let p = optional(parse_char('你'));
    assert_eq!(
        run_parser(&p, &input, &mut pos).unwrap(),
        Value::OptV(Some(Box::new(Value::Ch('你'))))
    );
    assert_eq!(run_parser(&p, &input, &mut pos).unwrap(), Value::OptV(None));
}

#[test]
fn test_pc() {
    let input = to_chars("12|3");
    let mut pos: usize = 0;
    let digit_of = |v: Value| -> u8 {
        match v {
            Value::Ch(c) => c.to_digit(10).unwrap() as u8,
            _ => panic!("expected a character"),
        }
    };
    let p1 = parse_char('1');
    let x = digit_of(run_parser(&p1, &input, &mut pos).unwrap());
    let p2 = parse_char('2');
    let y = digit_of(run_parser(&p2, &input, &mut pos).unwrap());
    let pb = parse_char('|');
    run_parser(&pb, &input, &mut pos).unwrap();
    let p3 = parse_char('3');
    let z = digit_of(run_parser(&p3, &input, &mut pos).unwrap());
    assert_eq!(x + y + z, 6);
}

#[test]
fn many_stops_at_a_repetition_that_consumes_nothing() {
    let input = to_chars("abc");
    let mut pos: usize = 0;
    let p = many(pure(Value::Num(1)));
    assert_eq!(run_parser(&p, &input, &mut pos).unwrap(), Value::List(vec![]));
    assert_eq!(pos, 0);
}

#[test]
fn choice_takes_the_first_alternative_that_matches() {
    let input = to_chars("abc");
    let mut pos: usize = 0;
    let p = choice(vec![string("ab"), string("abc")]);
    assert_eq!(
        run_parser(&p, &input, &mut pos).unwrap(),
        Value::Str("ab".to_string())
    );
    assert_eq!(pos, 2);
}
