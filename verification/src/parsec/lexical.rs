//! Character-level parsers, built from the combinator engine.

use vstd::prelude::*;
use crate::parsec::combinator::CharClass;
use crate::parsec::combinator::MapFn;
use crate::parsec::combinator::Parsec;
use crate::parsec::combinator::ParsecErrorKind;
use crate::parsec::combinator::SpecVal;
use crate::parsec::combinator::chars_of;
use crate::parsec::combinator::chs;
use crate::parsec::combinator::digits_val;
use crate::parsec::combinator::lemma_chars_of_chs;
use crate::parsec::combinator::lemma_many_satisfy;
use crate::parsec::combinator::lemma_many1_satisfy;
use crate::parsec::combinator::run_end;
use crate::parsec::combinator::apply_map;
use crate::parsec::combinator::map_step;
use crate::parsec::combinator::spec_many1;
use crate::parsec::combinator::spec_run;
use crate::parsec::combinator::step_err;
use crate::parsec::combinator::step_ok;
use crate::parsec::to_chars;

verus! {

/// Exactly the given character.
pub fn parse_char(c: char) -> (p: Parsec)
    ensures
        p == Parsec::Satisfy(CharClass::Exact(c)),
{
    Parsec::Satisfy(CharClass::Exact(c))
}

/// Any one character of the given string.
pub fn one_of(cs: String) -> (p: Parsec)
    ensures
        p is Satisfy,
        p->Satisfy_0 is OneOf,
        (p->Satisfy_0->OneOf_0)@ == cs@,
{
    Parsec::Satisfy(CharClass::OneOf(to_chars(cs.as_str())))
}

/// Any one character not in the given string.
pub fn none_of(s: String) -> (p: Parsec)
    ensures
        p is Satisfy,
        p->Satisfy_0 is NoneOf,
        (p->Satisfy_0->NoneOf_0)@ == s@,
{
    Parsec::Satisfy(CharClass::NoneOf(to_chars(s.as_str())))
}

/// One Unicode whitespace character.
pub fn space() -> (p: Parsec)
    ensures
        p == Parsec::Satisfy(CharClass::Whitespace),
{
    Parsec::Satisfy(CharClass::Whitespace)
}

/// Skips the maximal run of whitespace, full-width ideographic space
/// U+3000 counted in; never fails.
pub fn spaces() -> (p: Parsec)
    ensures
        p is SkipMany,
        p->SkipMany_0 == Parsec::Satisfy(CharClass::WideSpace),
        forall|s: Seq<char>, pos: int|
            0 <= pos <= s.len() ==> #[trigger] spec_run(p, s, pos) == step_ok(
                SpecVal::Unit,
                run_end(s, pos, CharClass::WideSpace),
            ),
{
    let p = Parsec::SkipMany(Box::new(Parsec::Satisfy(CharClass::WideSpace)));
    proof {
        assert forall|s: Seq<char>, pos: int| 0 <= pos <= s.len() implies #[trigger] spec_run(
            p,
            s,
            pos,
        ) == step_ok(SpecVal::Unit, run_end(s, pos, CharClass::WideSpace)) by {
            lemma_many_satisfy(CharClass::WideSpace, s, pos);
        }
    }
    p
}

/// One decimal digit.
pub fn digit() -> (p: Parsec)
    ensures
        p == Parsec::Satisfy(CharClass::Digit),
{
    Parsec::Satisfy(CharClass::Digit)
}

/// A run of one or more decimal digits, read as the number they write,
/// clamped to the machine integer range; an empty run is the failure its
/// first character explains, with nothing consumed.
pub fn dec_num() -> (p: Parsec)
    ensures
        p is Mapped,
        p->Mapped_1 == MapFn::DigitsValue,
        *p->Mapped_0 is Many1,
        *(*p->Mapped_0)->Many1_0 == Parsec::Satisfy(CharClass::Digit),
        forall|s: Seq<char>, pos: int|
            0 <= pos <= s.len() ==> #[trigger] spec_run(p, s, pos) == ({
                let e = run_end(s, pos, CharClass::Digit);
                if e > pos {
                    step_ok(
                        SpecVal::Num(
                            if digits_val(s.subrange(pos, e)) <= i64::MAX as int {
                                digits_val(s.subrange(pos, e))
                            } else {
                                i64::MAX as int
                            },
                        ),
                        e,
                    )
                } else if pos >= s.len() {
                    step_err(ParsecErrorKind::UnexpectedEOF, pos)
                } else {
                    step_err(ParsecErrorKind::UnexpectedChar(s[pos]), pos)
                }
            }),
{
    let p = Parsec::Mapped(
        Box::new(Parsec::Many1(Box::new(Parsec::Satisfy(CharClass::Digit)))),
        MapFn::DigitsValue,
    );
    proof {
        assert forall|s: Seq<char>, pos: int| 0 <= pos <= s.len() implies #[trigger] spec_run(
            p,
            s,
            pos,
        ) == ({
            let e = run_end(s, pos, CharClass::Digit);
            if e > pos {
                step_ok(
                    SpecVal::Num(
                        if digits_val(s.subrange(pos, e)) <= i64::MAX as int {
                            digits_val(s.subrange(pos, e))
                        } else {
                            i64::MAX as int
                        },
                    ),
                    e,
                )
            } else if pos >= s.len() {
                step_err(ParsecErrorKind::UnexpectedEOF, pos)
            } else {
                step_err(ParsecErrorKind::UnexpectedChar(s[pos]), pos)
            }
        }) by {
            let child = *p->Mapped_0;
            assert(spec_run(p, s, pos) == map_step(
                spec_run(child, s, pos),
                MapFn::DigitsValue,
            ));
            assert(spec_run(child, s, pos) == spec_many1(
                Parsec::Satisfy(CharClass::Digit),
                s,
                pos,
            ));
            lemma_many1_satisfy(CharClass::Digit, s, pos);
            crate::parsec::combinator::lemma_run_end(s, pos, CharClass::Digit);
            let e = run_end(s, pos, CharClass::Digit);
            if e > pos {
                lemma_chars_of_chs(s.subrange(pos, e));
            }
        }
    }
    p
}

/// One alphabetic character.
pub fn letter() -> (p: Parsec)
    ensures
        p == Parsec::Satisfy(CharClass::Letter),
{
    Parsec::Satisfy(CharClass::Letter)
}

/// One alphanumeric character.
pub fn alpha_num() -> (p: Parsec)
    ensures
        p == Parsec::Satisfy(CharClass::AlphaNum),
{
    Parsec::Satisfy(CharClass::AlphaNum)
}

/// One line feed.
pub fn lf() -> (p: Parsec)
    ensures
        p == Parsec::Satisfy(CharClass::Exact('\n')),
{
    Parsec::Satisfy(CharClass::Exact('\n'))
}

/// The given characters, exactly and in order; consumes nothing on a
/// mismatch.
pub fn string(s: &str) -> (p: Parsec)
    ensures
        p is Literal,
        (p->Literal_0)@ == s@,
{
    Parsec::Literal(to_chars(s))
}

/// A carriage return followed by a line feed.
pub fn crlf() -> (p: Parsec)
    ensures
        p is Literal,
        (p->Literal_0)@ == seq!['\r', '\n'],
{
    let mut cs: Vec<char> = Vec::new();
    cs.push('\r');
    cs.push('\n');
    proof {
        assert(cs@ =~= seq!['\r', '\n']);
    }
    Parsec::Literal(cs)
}

/// A line ending: a carriage return and line feed, or a bare line feed,
/// normalized to the unit value.
pub fn newline() -> (p: Parsec)
    ensures
        p is Choice,
        (p->Choice_0)@.len() == 2,
        (p->Choice_0)@[0] is Mapped,
        (p->Choice_0)@[0]->Mapped_1 == MapFn::Discard,
        *(p->Choice_0)@[0]->Mapped_0 is Literal,
        ((*(p->Choice_0)@[0]->Mapped_0)->Literal_0)@ == seq!['\r', '\n'],
        (p->Choice_0)@[1] is Mapped,
        (p->Choice_0)@[1]->Mapped_1 == MapFn::Discard,
        *(p->Choice_0)@[1]->Mapped_0 == Parsec::Satisfy(CharClass::Exact('\n')),
{
    let mut alts: Vec<Parsec> = Vec::new();
    alts.push(Parsec::Mapped(Box::new(crlf()), MapFn::Discard));
    alts.push(Parsec::Mapped(Box::new(lf()), MapFn::Discard));
    Parsec::Choice(alts)
}

/// The maximal run of one or more characters of a class, collected into a
/// string; an empty run is the failure its first character explains, with
/// nothing consumed.
pub open spec fn class_run_step(
    cc: CharClass,
    s: Seq<char>,
    pos: int,
) -> crate::parsec::combinator::Step<SpecVal> {
    let e = run_end(s, pos, cc);
    if e > pos {
        step_ok(SpecVal::Str(s.subrange(pos, e)), e)
    } else if pos >= s.len() {
        step_err(ParsecErrorKind::UnexpectedEOF, pos)
    } else {
        step_err(ParsecErrorKind::UnexpectedChar(s[pos]), pos)
    }
}

/// A collected run of one or more class characters behaves as
/// [`class_run_step`].
pub proof fn lemma_collect_run(p: Parsec, cc: CharClass, s: Seq<char>, pos: int)
    requires
        0 <= pos <= s.len(),
        p is Mapped,
        p->Mapped_1 == MapFn::Collect,
        *p->Mapped_0 is Many1,
        *(*p->Mapped_0)->Many1_0 == Parsec::Satisfy(cc),
    ensures
        spec_run(p, s, pos) == class_run_step(cc, s, pos),
{
    let child = *p->Mapped_0;
    assert(spec_run(p, s, pos) == map_step(spec_run(child, s, pos), MapFn::Collect));
    assert(spec_run(child, s, pos) == spec_many1(Parsec::Satisfy(cc), s, pos));
    lemma_many1_satisfy(cc, s, pos);
    crate::parsec::combinator::lemma_run_end(s, pos, cc);
    let e = run_end(s, pos, cc);
    if e > pos {
        let sub = s.subrange(pos, e);
        lemma_chars_of_chs(sub);
        assert(apply_map(MapFn::Collect, SpecVal::List(chs(sub))) == SpecVal::Str(sub));
    }
}

/// A run of one or more alphanumeric characters, collected into a string.
pub fn word() -> (p: Parsec)
    ensures
        p is Mapped,
        p->Mapped_1 == MapFn::Collect,
        *p->Mapped_0 is Many1,
        *(*p->Mapped_0)->Many1_0 == Parsec::Satisfy(CharClass::AlphaNum),
        forall|s: Seq<char>, pos: int|
            0 <= pos <= s.len() ==> #[trigger] spec_run(p, s, pos) == class_run_step(
                CharClass::AlphaNum,
                s,
                pos,
            ),
{
    let p = Parsec::Mapped(
        Box::new(Parsec::Many1(Box::new(Parsec::Satisfy(CharClass::AlphaNum)))),
        MapFn::Collect,
    );
    proof {
        assert forall|s: Seq<char>, pos: int| 0 <= pos <= s.len() implies #[trigger] spec_run(
            p,
            s,
            pos,
        ) == class_run_step(CharClass::AlphaNum, s, pos) by {
            lemma_collect_run(p, CharClass::AlphaNum, s, pos);
        }
    }
    p
}

/// A run of one or more non-whitespace characters — Unicode whitespace and
/// the full-width ideographic space U+3000 both end it — collected into a
/// string.
pub fn nonspace() -> (p: Parsec)
    ensures
        p is Mapped,
        p->Mapped_1 == MapFn::Collect,
        *p->Mapped_0 is Many1,
        *(*p->Mapped_0)->Many1_0 == Parsec::Satisfy(CharClass::NonWideSpace),
        forall|s: Seq<char>, pos: int|
            0 <= pos <= s.len() ==> #[trigger] spec_run(p, s, pos) == class_run_step(
                CharClass::NonWideSpace,
                s,
                pos,
            ),
{
    let p = Parsec::Mapped(
        Box::new(Parsec::Many1(Box::new(Parsec::Satisfy(CharClass::NonWideSpace)))),
        MapFn::Collect,
    );
    proof {
        assert forall|s: Seq<char>, pos: int| 0 <= pos <= s.len() implies #[trigger] spec_run(
            p,
            s,
            pos,
        ) == class_run_step(CharClass::NonWideSpace, s, pos) by {
            lemma_collect_run(p, CharClass::NonWideSpace, s, pos);
        }
    }
    p
}

/// Non-whitespace runs separated by whitespace runs.
pub fn nonspaces() -> (p: Parsec)
    ensures
        p is SepBy,
        *p->SepBy_0 is Mapped,
        (*p->SepBy_0)->Mapped_1 == MapFn::Collect,
        *(*p->SepBy_0)->Mapped_0 is Many1,
        *(*(*p->SepBy_0)->Mapped_0)->Many1_0 == Parsec::Satisfy(CharClass::NonWideSpace),
        *p->SepBy_1 is SkipMany,
        *(*p->SepBy_1)->SkipMany_0 == Parsec::Satisfy(CharClass::WideSpace),
{
    Parsec::SepBy(Box::new(nonspace()), Box::new(spaces()))
}

/// Alphanumeric words separated by single whitespace characters.
pub fn words() -> (p: Parsec)
    ensures
        p is SepBy,
        *p->SepBy_0 is Mapped,
        (*p->SepBy_0)->Mapped_1 == MapFn::Collect,
        *(*p->SepBy_0)->Mapped_0 is Many1,
        *(*(*p->SepBy_0)->Mapped_0)->Many1_0 == Parsec::Satisfy(CharClass::AlphaNum),
        *p->SepBy_1 == Parsec::Satisfy(CharClass::Whitespace),
{
    Parsec::SepBy(Box::new(word()), Box::new(space()))
}

} // verus!
