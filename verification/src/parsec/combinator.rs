//! The parsing-combinator engine.
//!
//! A parser is a first-class value of the [`Parsec`] type, interpreted over
//! an immutable buffer of Unicode code points and a cursor position. The
//! one element-consuming primitive, [`satisfy`], always advances past the
//! element it examined, whether or not the element was accepted; every
//! "no consumption on failure" behaviour is obtained explicitly by the
//! backtracking wrappers [`try_parse`], [`lookahead`] and [`optional`],
//! which run the inner parser from a duplicate of the cursor and commit it
//! only on success. The meaning of every parser value is given by the
//! specification-level interpreter [`spec_run`], and the executable
//! interpreter is verified against it.

use vstd::prelude::*;

verus! {

/// The failure taxonomy: the input ended, or an element was found that the
/// active parser did not accept.
#[derive(Debug, Clone, Copy, PartialEq, Eq)]
pub enum ParsecErrorKind {
    UnexpectedEOF,
    UnexpectedChar(char),
}

/// A parse failure, carrying its kind.
#[derive(Debug, Clone, Copy, PartialEq, Eq)]
pub struct ParsecError {
    pub msg: ParsecErrorKind,
}

// ---------------------------------------------------------------------------
// Character classes
// ---------------------------------------------------------------------------

/// What [`char::is_whitespace`] returns for a code point: the Unicode
/// `White_Space` property, a function of the character alone.
pub uninterp spec fn whitespace_char(c: char) -> bool;

/// Relies on `char::is_whitespace`: the Unicode `White_Space` property of
/// the character alone.
#[verifier::external_body]
fn exec_whitespace_char(c: char) -> (b: bool)
    ensures
        b == whitespace_char(c),
{
    c.is_whitespace()
}

/// What [`char::is_alphanumeric`] returns for a code point: the Unicode
/// `Alphabetic` property or one of the general categories Nd, Nl, No, a
/// function of the character alone.
pub uninterp spec fn alphanumeric_char(c: char) -> bool;

/// Relies on `char::is_alphanumeric`: a property of the character alone.
#[verifier::external_body]
fn exec_alphanumeric_char(c: char) -> (b: bool)
    ensures
        b == alphanumeric_char(c),
{
    c.is_alphanumeric()
}

/// What [`char::is_alphabetic`] returns for a code point: the Unicode
/// `Alphabetic` property, a function of the character alone.
pub uninterp spec fn alphabetic_char(c: char) -> bool;

/// Relies on `char::is_alphabetic`: a property of the character alone.
#[verifier::external_body]
fn exec_alphabetic_char(c: char) -> (b: bool)
    ensures
        b == alphabetic_char(c),
{
    c.is_alphabetic()
}

/// A decimal digit: `'0'` through `'9'`.
pub open spec fn digit_char(c: char) -> bool {
    '0' <= c && c <= '9'
}

/// A decidable class of code points. This is the predicate argument of
/// [`satisfy`]: the engine's predicates are drawn from this closed set.
#[derive(Debug, PartialEq, Eq)]
pub enum CharClass {
    /// Exactly the given character.
    Exact(char),
    /// Any character in the list.
    OneOf(Vec<char>),
    /// Any character not in the list.
    NoneOf(Vec<char>),
    /// Unicode whitespace.
    Whitespace,
    /// Unicode whitespace or the full-width ideographic space U+3000.
    WideSpace,
    /// Unicode whitespace or U+3000, except the line feed.
    Blank,
    /// Outside Unicode whitespace and U+3000.
    NonWideSpace,
    /// A decimal digit.
    Digit,
    /// An alphabetic character.
    Letter,
    /// An alphanumeric character.
    AlphaNum,
}

/// Whether a character belongs to a class.
pub open spec fn class_holds(cc: CharClass, c: char) -> bool {
    match cc {
        CharClass::Exact(e) => c == e,
        CharClass::OneOf(cs) => cs@.contains(c),
        CharClass::NoneOf(cs) => !cs@.contains(c),
        CharClass::Whitespace => whitespace_char(c),
        CharClass::WideSpace => whitespace_char(c) || c == '\u{3000}',
        CharClass::Blank => (whitespace_char(c) || c == '\u{3000}') && c != '\n',
        CharClass::NonWideSpace => !(whitespace_char(c) || c == '\u{3000}'),
        CharClass::Digit => digit_char(c),
        CharClass::Letter => alphabetic_char(c),
        CharClass::AlphaNum => alphanumeric_char(c),
    }
}

/// Whether the list holds the character, decided by scanning it.
fn list_contains(cs: &Vec<char>, c: char) -> (b: bool)
    ensures
        b == cs@.contains(c),
{
    let mut i: usize = 0;
    while i < cs.len()
        invariant
            0 <= i <= cs@.len(),
            forall|j: int| 0 <= j < i ==> cs@[j] != c,
        decreases cs@.len() - i,
    {
        if cs[i] == c {
            return true;
        }
        i = i + 1;
    }
    false
}

/// Decides membership of a character in a class.
pub fn class_matches(cc: &CharClass, c: char) -> (b: bool)
    ensures
        b == class_holds(*cc, c),
{
    match cc {
        CharClass::Exact(e) => c == *e,
        CharClass::OneOf(cs) => list_contains(cs, c),
        CharClass::NoneOf(cs) => !list_contains(cs, c),
        CharClass::Whitespace => exec_whitespace_char(c),
        CharClass::WideSpace => exec_whitespace_char(c) || c == '\u{3000}',
        CharClass::Blank => (exec_whitespace_char(c) || c == '\u{3000}') && c != '\n',
        CharClass::NonWideSpace => !(exec_whitespace_char(c) || c == '\u{3000}'),
        CharClass::Digit => '0' <= c && c <= '9',
        CharClass::Letter => exec_alphabetic_char(c),
        CharClass::AlphaNum => exec_alphanumeric_char(c),
    }
}

// ---------------------------------------------------------------------------
// Maximal runs of a class
// ---------------------------------------------------------------------------

/// The end of the maximal run of characters of class `cc` starting at
/// `pos`: the first position at or after `pos` whose character is not in
/// the class, or the end of the input.
pub open spec fn run_end(s: Seq<char>, pos: int, cc: CharClass) -> int
    decreases s.len() - pos,
{
    if 0 <= pos < s.len() && class_holds(cc, s[pos]) {
        run_end(s, pos + 1, cc)
    } else {
        pos
    }
}

/// The run end lies between the start and the end of the input, and every
/// character of the run belongs to the class while the character at the
/// run end (if any) does not.
pub proof fn lemma_run_end(s: Seq<char>, pos: int, cc: CharClass)
    requires
        0 <= pos <= s.len(),
    ensures
        pos <= run_end(s, pos, cc) <= s.len(),
        forall|j: int| pos <= j < run_end(s, pos, cc) ==> class_holds(cc, #[trigger] s[j]),
        run_end(s, pos, cc) < s.len() ==> !class_holds(cc, s[run_end(s, pos, cc)]),
    decreases s.len() - pos,
{
    if 0 <= pos < s.len() && class_holds(cc, s[pos]) {
        lemma_run_end(s, pos + 1, cc);
    }
}

/// Scans the maximal run of characters of class `cc` from `pos`.
pub fn scan_run(input: &Vec<char>, pos: usize, cc: &CharClass) -> (end: usize)
    requires
        pos <= input@.len(),
    ensures
        end == run_end(input@, pos as int, *cc),
        pos <= end <= input@.len(),
{
    let mut i: usize = pos;
    while i < input.len() && class_matches(cc, input[i])
        invariant
            pos <= i <= input@.len(),
            run_end(input@, pos as int, *cc) == run_end(input@, i as int, *cc),
        decreases input@.len() - i,
    {
        i = i + 1;
    }
    proof {
        lemma_run_end(input@, i as int, *cc);
    }
    i
}

// ---------------------------------------------------------------------------
// Parser values
// ---------------------------------------------------------------------------

/// A named transformation applicable to a parse result. The engine's value
/// transformations are drawn from this closed set.
#[derive(Debug, PartialEq, Eq)]
pub enum MapFn {
    /// Drop the value, yielding the unit value.
    Discard,
    /// Turn a list of characters into a string.
    Collect,
    /// Turn one decimal digit character into its numeric value.
    DigitValue,
    /// Turn a list of decimal digit characters into the number they write,
    /// clamped to the machine integer range.
    DigitsValue,
}

/// A first-class parser. The meaning of each form is given by [`spec_run`];
/// the executable interpreter is [`run`].
#[derive(Debug, PartialEq, Eq)]
pub enum Parsec {
    /// Consume one element; succeed with it when it belongs to the class.
    /// Advances past the element even when the element is rejected.
    Satisfy(CharClass),
    /// Match the given characters exactly; consume nothing on failure.
    Literal(Vec<char>),
    /// Run the inner parser on a duplicate cursor; never consume.
    Lookahead(Box<Parsec>),
    /// Run the inner parser on a duplicate cursor; commit it only on success.
    Try(Box<Parsec>),
    /// Try each alternative in order, each behind [`Parsec::Try`]; the first
    /// success wins, and on total failure the last alternative's error is
    /// surfaced.
    Choice(Vec<Parsec>),
    /// Repeat the inner parser as long as it succeeds while consuming;
    /// never fails.
    Many(Box<Parsec>),
    /// Like [`Parsec::Many`], but the first repetition's failure is
    /// propagated.
    Many1(Box<Parsec>),
    /// Like [`Parsec::Many`], discarding the values.
    SkipMany(Box<Parsec>),
    /// Like [`Parsec::Many1`], discarding the values.
    SkipMany1(Box<Parsec>),
    /// Items separated by a separator, both behind [`Parsec::Try`]; an
    /// immediate failure of the first item yields the empty list.
    SepBy(Box<Parsec>, Box<Parsec>),
    /// Transform a successful value; failures pass through untouched.
    Mapped(Box<Parsec>, MapFn),
    /// Run the left parser, drop its value, and run the right parser from
    /// where the left one stopped.
    Bind(Box<Parsec>, Box<Parsec>),
    /// Always succeed with the given value, consuming nothing.
    Pure(Value),
    /// Run open, body and close in order, yielding the body's value; a
    /// failure aborts with no rollback of the earlier parts.
    Between(Box<Parsec>, Box<Parsec>, Box<Parsec>),
    /// Succeed with `Some` value or, on failure, with `None` and zero
    /// consumption.
    Optional(Box<Parsec>),
}

/// A parse result value. The engine is untyped: each parser form yields one
/// of these shapes, described by [`spec_run`].
#[derive(Debug, PartialEq, Eq)]
pub enum Value {
    Unit,
    Ch(char),
    Num(i64),
    Str(String),
    List(Vec<Value>),
    OptV(Option<Box<Value>>),
}

/// The mathematical shape of a [`Value`]: strings are character sequences,
/// lists are sequences. An absent optional is the empty sequence, a present
/// one the singleton of its value.
pub enum SpecVal {
    Unit,
    Ch(char),
    Num(int),
    Str(Seq<char>),
    List(Seq<SpecVal>),
    OptV(Seq<SpecVal>),
}

/// The mathematical reading of a value.
pub open spec fn val_view(v: Value) -> SpecVal
    decreases v,
{
    match v {
        Value::Unit => SpecVal::Unit,
        Value::Ch(c) => ch_val(c),
        Value::Num(n) => SpecVal::Num(n as int),
        Value::Str(s) => SpecVal::Str(s@),
        Value::List(xs) => SpecVal::List(vals_view(xs@)),
        Value::OptV(o) => match o {
            Option::None => SpecVal::OptV(Seq::empty()),
            Option::Some(b) => SpecVal::OptV(seq![val_view(*b)]),
        },
    }
}

/// The mathematical reading of a sequence of values.
pub open spec fn vals_view(xs: Seq<Value>) -> Seq<SpecVal>
    decreases xs,
{
    if xs.len() == 0 {
        Seq::empty()
    } else {
        seq![val_view(xs[0])] + vals_view(xs.drop_first())
    }
}

/// One parsing step: the outcome and the cursor position after it.
pub struct Step<T> {
    pub res: Result<T, ParsecErrorKind>,
    pub end: int,
}

/// The outcome of one parse, with the value abstracted.
pub type SpecStep = Step<SpecVal>;

// ---------------------------------------------------------------------------
// The specification-level interpreter
// ---------------------------------------------------------------------------

/// Backtracking: a failed step is reset to the position it started from.
pub open spec fn try_of(o: SpecStep, pos: int) -> SpecStep {
    match o.res {
        Result::Ok(_) => o,
        Result::Err(_) => Step { res: o.res, end: pos },
    }
}

/// The first disagreement between the input at `pos` and the literal from
/// index `k` on: the offending input character, the end of input, or
/// nothing when the whole literal matches.
pub open spec fn literal_diff(s: Seq<char>, pos: int, lit: Seq<char>, k: int) -> Option<
    ParsecErrorKind,
>
    decreases lit.len() - k,
{
    if k < 0 || k >= lit.len() {
        Option::None
    } else if pos + k >= s.len() {
        Option::Some(ParsecErrorKind::UnexpectedEOF)
    } else if s[pos + k] != lit[k] {
        Option::Some(ParsecErrorKind::UnexpectedChar(s[pos + k]))
    } else {
        literal_diff(s, pos, lit, k + 1)
    }
}

/// The numeric value clamped into a digit: a character's distance from
/// `'0'`, read as 0 outside the decimal digits.
pub open spec fn digit_val(c: char) -> int {
    if digit_char(c) {
        c as int - '0' as int
    } else {
        0
    }
}

/// The number written by a sequence of decimal digits.
pub open spec fn digits_val(cs: Seq<char>) -> int
    decreases cs.len(),
{
    if cs.len() == 0 {
        0
    } else {
        digits_val(cs.drop_last()) * 10 + digit_val(cs.last())
    }
}

/// A character read as a character value.
pub open spec fn ch_val(c: char) -> SpecVal {
    SpecVal::Ch(c)
}

/// The character held by a character value; a value of another shape reads
/// as the null character.
pub open spec fn char_of(v: SpecVal) -> char {
    match v {
        SpecVal::Ch(c) => c,
        _ => '\u{0}',
    }
}

/// The characters held by a sequence of character values.
pub open spec fn chars_of(vs: Seq<SpecVal>) -> Seq<char>
    decreases vs,
{
    if vs.len() == 0 {
        Seq::empty()
    } else {
        seq![char_of(vs[0])] + chars_of(vs.drop_first())
    }
}

/// The characters of a value sequence: one character for each value.
pub proof fn lemma_chars_of_index(vs: Seq<SpecVal>)
    ensures
        chars_of(vs).len() == vs.len(),
        forall|i: int| 0 <= i < vs.len() ==> chars_of(vs)[i] == char_of(vs[i]),
    decreases vs,
{
    if vs.len() > 0 {
        lemma_chars_of_index(vs.drop_first());
        assert(forall|i: int|
            0 < i < vs.len() ==> chars_of(vs)[i] == chars_of(vs.drop_first())[i - 1]);
        assert(forall|i: int| 0 < i < vs.len() ==> vs.drop_first()[i - 1] == vs[i]);
    }
}

/// What a named transformation does to a value.
pub open spec fn apply_map(f: MapFn, v: SpecVal) -> SpecVal {
    match f {
        MapFn::Discard => SpecVal::Unit,
        MapFn::Collect => match v {
            SpecVal::List(vs) => SpecVal::Str(chars_of(vs)),
            _ => SpecVal::Str(Seq::empty()),
        },
        MapFn::DigitValue => match v {
            SpecVal::Ch(c) => SpecVal::Num(digit_val(c)),
            _ => SpecVal::Num(0),
        },
        MapFn::DigitsValue => match v {
            SpecVal::List(vs) => SpecVal::Num(
                if digits_val(chars_of(vs)) <= i64::MAX as int {
                    digits_val(chars_of(vs))
                } else {
                    i64::MAX as int
                },
            ),
            _ => SpecVal::Num(0),
        },
    }
}

/// A step that succeeds with the given value.
pub open spec fn step_ok(v: SpecVal, end: int) -> SpecStep {
    Step { res: Result::Ok(v), end }
}

/// A step that fails with the given error kind.
pub open spec fn step_err(k: ParsecErrorKind, end: int) -> SpecStep {
    Step { res: Result::Err(k), end }
}

/// Drops a successful step's value, keeping failures.
pub open spec fn unit_step(o: SpecStep) -> SpecStep {
    match o.res {
        Result::Ok(_) => step_ok(SpecVal::Unit, o.end),
        Result::Err(k) => o,
    }
}

/// Applies a named transformation to a successful step, keeping failures.
pub open spec fn map_step(o: SpecStep, f: MapFn) -> SpecStep {
    match o.res {
        Result::Ok(v) => step_ok(apply_map(f, v), o.end),
        Result::Err(_) => o,
    }
}

/// Turns a step into an optional value: `Some` of the value on success,
/// `None` with zero consumption on failure.
pub open spec fn opt_step(o: SpecStep, pos: int) -> SpecStep {
    match o.res {
        Result::Ok(v) => step_ok(SpecVal::OptV(seq![v]), o.end),
        Result::Err(_) => step_ok(SpecVal::OptV(Seq::empty()), pos),
    }
}

/// Puts one value in front of a step that carries a list.
pub open spec fn cons_list(v: SpecVal, o: SpecStep) -> SpecStep {
    match o.res {
        Result::Ok(SpecVal::List(t)) => step_ok(SpecVal::List(seq![v] + t), o.end),
        _ => o,
    }
}

/// One element: succeeds with the element at `pos` when it belongs to the
/// class, and advances past the element even when it is rejected.
pub open spec fn spec_satisfy(cc: CharClass, s: Seq<char>, pos: int) -> SpecStep {
    if pos < 0 || pos >= s.len() {
        step_err(ParsecErrorKind::UnexpectedEOF, pos)
    } else if class_holds(cc, s[pos]) {
        step_ok(SpecVal::Ch(s[pos]), pos + 1)
    } else {
        step_err(ParsecErrorKind::UnexpectedChar(s[pos]), pos + 1)
    }
}

/// An exact literal: succeeds past it when the input carries it at `pos`,
/// and consumes nothing otherwise.
pub open spec fn spec_literal(lit: Seq<char>, s: Seq<char>, pos: int) -> SpecStep {
    if pos < 0 || pos > s.len() {
        step_err(ParsecErrorKind::UnexpectedEOF, pos)
    } else {
        match literal_diff(s, pos, lit, 0) {
            Option::None => step_ok(SpecVal::Str(lit), pos + lit.len()),
            Option::Some(k) => step_err(k, pos),
        }
    }
}

/// The meaning of a parser: the outcome of running it over the input from
/// the given position. Every repetition form stops at an iteration that
/// consumes nothing, so the interpreter is total.
pub open spec fn spec_run(p: Parsec, s: Seq<char>, pos: int) -> SpecStep
    decreases s.len() - pos, p, 1int,
{
    if pos < 0 || pos > s.len() {
        step_err(ParsecErrorKind::UnexpectedEOF, pos)
    } else {
        match p {
            Parsec::Satisfy(cc) => spec_satisfy(cc, s, pos),
            Parsec::Literal(cs) => spec_literal(cs@, s, pos),
            Parsec::Lookahead(q) => Step { res: spec_run(*q, s, pos).res, end: pos },
            Parsec::Try(q) => try_of(spec_run(*q, s, pos), pos),
            Parsec::Choice(qs) => spec_choice(qs@, s, pos),
            Parsec::Many(q) => spec_many(*q, s, pos),
            Parsec::Many1(q) => spec_many1(*q, s, pos),
            Parsec::SkipMany(q) => unit_step(spec_many(*q, s, pos)),
            Parsec::SkipMany1(q) => unit_step(spec_many1(*q, s, pos)),
            Parsec::SepBy(q, sep) => spec_sepby(p, s, pos),
            Parsec::Mapped(q, f) => map_step(spec_run(*q, s, pos), f),
            Parsec::Bind(q, r) => {
                let o = spec_run(*q, s, pos);
                match o.res {
                    Result::Err(_) => o,
                    Result::Ok(_) => if pos <= o.end <= s.len() {
                        spec_run(*r, s, o.end)
                    } else {
                        o
                    },
                }
            },
            Parsec::Pure(v) => step_ok(val_view(v), pos),
            Parsec::Between(a, q, b) => spec_between(p, s, pos),
            Parsec::Optional(q) => opt_step(spec_run(*q, s, pos), pos),
        }
    }
}

/// Repetition: apply the parser behind [`Parsec::Try`] until it fails or
/// stops consuming, collecting the values. Never fails.
pub open spec fn spec_many(p: Parsec, s: Seq<char>, pos: int) -> SpecStep
    decreases s.len() - pos, p, 2int,
{
    if pos < 0 || pos > s.len() {
        step_ok(SpecVal::List(Seq::empty()), pos)
    } else {
        let o = spec_run(p, s, pos);
        match o.res {
            Result::Err(_) => step_ok(SpecVal::List(Seq::empty()), pos),
            Result::Ok(v) => if pos < o.end <= s.len() {
                cons_list(v, spec_many(p, s, o.end))
            } else {
                step_ok(SpecVal::List(Seq::empty()), pos)
            },
        }
    }
}

/// Repetition demanding at least one success: the first failure is
/// propagated with zero consumption; afterwards as [`spec_many`].
pub open spec fn spec_many1(p: Parsec, s: Seq<char>, pos: int) -> SpecStep
    decreases s.len() - pos, p, 3int,
{
    if pos < 0 || pos > s.len() {
        step_err(ParsecErrorKind::UnexpectedEOF, pos)
    } else {
        let o = try_of(spec_run(p, s, pos), pos);
        match o.res {
            Result::Err(_) => o,
            Result::Ok(v) => if pos < o.end <= s.len() {
                cons_list(v, spec_many(p, s, o.end))
            } else {
                step_ok(SpecVal::List(seq![v]), o.end)
            },
        }
    }
}

/// A separated list: the first item behind [`Parsec::Try`]; an immediate
/// failure yields the empty list. `p` is the whole [`Parsec::SepBy`] node.
pub open spec fn spec_sepby(p: Parsec, s: Seq<char>, pos: int) -> SpecStep
    decreases s.len() - pos, p, 0int,
{
    match p {
        Parsec::SepBy(q, sep) => if pos < 0 || pos > s.len() {
            step_ok(SpecVal::List(Seq::empty()), pos)
        } else {
            let o = try_of(spec_run(*q, s, pos), pos);
            match o.res {
                Result::Err(_) => step_ok(SpecVal::List(Seq::empty()), pos),
                Result::Ok(v) => if pos < o.end <= s.len() {
                    cons_list(v, spec_sepby_rest(p, s, o.end))
                } else {
                    step_ok(SpecVal::List(Seq::empty()), pos)
                },
            }
        },
        _ => step_ok(SpecVal::List(Seq::empty()), pos),
    }
}

/// The tail of a separated list: separator and item in turn, both behind
/// [`Parsec::Try`]. A committed separator stays consumed when the item
/// after it fails. `p` is the whole [`Parsec::SepBy`] node.
pub open spec fn spec_sepby_rest(p: Parsec, s: Seq<char>, pos: int) -> SpecStep
    decreases s.len() - pos, p, 0int,
{
    match p {
        Parsec::SepBy(q, sep) => if pos < 0 || pos > s.len() {
            step_ok(SpecVal::List(Seq::empty()), pos)
        } else {
            let osep = try_of(spec_run(*sep, s, pos), pos);
            match osep.res {
                Result::Err(_) => step_ok(SpecVal::List(Seq::empty()), pos),
                Result::Ok(_) => if pos <= osep.end <= s.len() {
                    let oit = try_of(spec_run(*q, s, osep.end), osep.end);
                    match oit.res {
                        Result::Err(_) => step_ok(SpecVal::List(Seq::empty()), osep.end),
                        Result::Ok(v) => if pos < oit.end <= s.len() {
                            cons_list(v, spec_sepby_rest(p, s, oit.end))
                        } else {
                            step_ok(SpecVal::List(Seq::empty()), osep.end)
                        },
                    }
                } else {
                    step_ok(SpecVal::List(Seq::empty()), pos)
                },
            }
        },
        _ => step_ok(SpecVal::List(Seq::empty()), pos),
    }
}

/// Brackets: open, body and close in order, yielding the body's value; a
/// failure aborts with no rollback. `p` is the whole [`Parsec::Between`]
/// node.
pub open spec fn spec_between(p: Parsec, s: Seq<char>, pos: int) -> SpecStep
    decreases s.len() - pos, p, 0int,
{
    match p {
        Parsec::Between(a, q, b) => if pos < 0 || pos > s.len() {
            step_err(ParsecErrorKind::UnexpectedEOF, pos)
        } else {
            let o1 = spec_run(*a, s, pos);
            match o1.res {
                Result::Err(_) => o1,
                Result::Ok(_) => if pos <= o1.end <= s.len() {
                    let o2 = spec_run(*q, s, o1.end);
                    match o2.res {
                        Result::Err(_) => o2,
                        Result::Ok(v) => if pos <= o2.end <= s.len() {
                            let o3 = spec_run(*b, s, o2.end);
                            match o3.res {
                                Result::Err(_) => o3,
                                Result::Ok(_) => step_ok(v, o3.end),
                            }
                        } else {
                            o2
                        },
                    }
                } else {
                    o1
                },
            }
        },
        _ => step_err(ParsecErrorKind::UnexpectedEOF, pos),
    }
}

/// Ordered choice: each alternative runs behind [`Parsec::Try`]; the first
/// success wins; when all fail, the error of the last alternative is kept;
/// an empty list of alternatives reads as the end of input.
pub open spec fn spec_choice(qs: Seq<Parsec>, s: Seq<char>, pos: int) -> SpecStep
    decreases s.len() - pos, qs, 0int,
{
    if qs.len() == 0 {
        step_err(ParsecErrorKind::UnexpectedEOF, pos)
    } else {
        let o = try_of(spec_run(qs[0], s, pos), pos);
        match o.res {
            Result::Ok(_) => o,
            Result::Err(_) => if qs.len() == 1 {
                o
            } else {
                spec_choice(qs.drop_first(), s, pos)
            },
        }
    }
}

// ---------------------------------------------------------------------------
// Bounds of the interpreter
// ---------------------------------------------------------------------------

/// A literal that matches whole lies within the input and agrees with it
/// character for character.
pub proof fn lemma_literal_diff_none(s: Seq<char>, pos: int, lit: Seq<char>, k: int)
    requires
        0 <= k <= lit.len(),
        0 <= pos,
        pos + k <= s.len(),
        literal_diff(s, pos, lit, k) is None,
    ensures
        pos + lit.len() <= s.len(),
        forall|j: int| k <= j < lit.len() ==> s[pos + j] == lit[j],
    decreases lit.len() - k,
{
    if k < lit.len() {
        lemma_literal_diff_none(s, pos, lit, k + 1);
    }
}

/// A parse step never moves the cursor backwards or outside the input.
pub proof fn lemma_run_bounds(p: Parsec, s: Seq<char>, pos: int)
    requires
        0 <= pos <= s.len(),
    ensures
        pos <= spec_run(p, s, pos).end <= s.len(),
    decreases s.len() - pos, p, 1int,
{
    match p {
        Parsec::Satisfy(_) => {},
        Parsec::Literal(cs) => {
            if literal_diff(s, pos, cs@, 0) is None {
                lemma_literal_diff_none(s, pos, cs@, 0);
            }
        },
        Parsec::Lookahead(q) => {},
        Parsec::Try(q) => {
            lemma_run_bounds(*q, s, pos);
        },
        Parsec::Choice(qs) => {
            lemma_choice_bounds(qs@, s, pos);
        },
        Parsec::Many(q) => {
            lemma_many_bounds(*q, s, pos);
        },
        Parsec::Many1(q) => {
            lemma_many1_bounds(*q, s, pos);
        },
        Parsec::SkipMany(q) => {
            lemma_many_bounds(*q, s, pos);
        },
        Parsec::SkipMany1(q) => {
            lemma_many1_bounds(*q, s, pos);
        },
        Parsec::SepBy(q, sep) => {
            lemma_sepby_bounds(p, s, pos);
        },
        Parsec::Mapped(q, _) => {
            lemma_run_bounds(*q, s, pos);
        },
        Parsec::Bind(q, r) => {
            lemma_run_bounds(*q, s, pos);
            let o = spec_run(*q, s, pos);
            if o.res is Ok && pos <= o.end <= s.len() {
                lemma_run_bounds(*r, s, o.end);
            }
        },
        Parsec::Pure(_) => {},
        Parsec::Between(a, q, b) => {
            lemma_between_bounds(p, s, pos);
        },
        Parsec::Optional(q) => {
            lemma_run_bounds(*q, s, pos);
        },
    }
}

/// Repetition never moves the cursor backwards or outside the input, and
/// always succeeds with a list.
pub proof fn lemma_many_bounds(p: Parsec, s: Seq<char>, pos: int)
    requires
        0 <= pos <= s.len(),
    ensures
        pos <= spec_many(p, s, pos).end <= s.len(),
        spec_many(p, s, pos).res is Ok,
        spec_many(p, s, pos).res->Ok_0 is List,
    decreases s.len() - pos, p, 2int,
{
    lemma_run_bounds(p, s, pos);
    let o = spec_run(p, s, pos);
    if o.res is Ok && pos < o.end <= s.len() {
        lemma_many_bounds(p, s, o.end);
    }
}

/// Repetition with a demanded first success stays within the input, and on
/// success carries a list.
pub proof fn lemma_many1_bounds(p: Parsec, s: Seq<char>, pos: int)
    requires
        0 <= pos <= s.len(),
    ensures
        pos <= spec_many1(p, s, pos).end <= s.len(),
        spec_many1(p, s, pos).res is Ok ==> spec_many1(p, s, pos).res->Ok_0 is List,
    decreases s.len() - pos, p, 3int,
{
    lemma_run_bounds(p, s, pos);
    let o = try_of(spec_run(p, s, pos), pos);
    if o.res is Ok && pos < o.end <= s.len() {
        lemma_many_bounds(p, s, o.end);
    }
}

/// A separated list stays within the input and always succeeds with a
/// list.
pub proof fn lemma_sepby_bounds(p: Parsec, s: Seq<char>, pos: int)
    requires
        0 <= pos <= s.len(),
    ensures
        pos <= spec_sepby(p, s, pos).end <= s.len(),
        spec_sepby(p, s, pos).res is Ok,
        spec_sepby(p, s, pos).res->Ok_0 is List,
    decreases s.len() - pos, p, 0int,
{
    match p {
        Parsec::SepBy(q, sep) => {
            lemma_run_bounds(*q, s, pos);
            let o = try_of(spec_run(*q, s, pos), pos);
            if o.res is Ok && pos < o.end <= s.len() {
                lemma_sepby_rest_bounds(p, s, o.end);
            }
        },
        _ => {},
    }
}

/// The tail of a separated list stays within the input and always succeeds
/// with a list.
pub proof fn lemma_sepby_rest_bounds(p: Parsec, s: Seq<char>, pos: int)
    requires
        0 <= pos <= s.len(),
    ensures
        pos <= spec_sepby_rest(p, s, pos).end <= s.len(),
        spec_sepby_rest(p, s, pos).res is Ok,
        spec_sepby_rest(p, s, pos).res->Ok_0 is List,
    decreases s.len() - pos, p, 0int,
{
    match p {
        Parsec::SepBy(q, sep) => {
            lemma_run_bounds(*sep, s, pos);
            let osep = try_of(spec_run(*sep, s, pos), pos);
            if osep.res is Ok && pos <= osep.end <= s.len() {
                lemma_run_bounds(*q, s, osep.end);
                let oit = try_of(spec_run(*q, s, osep.end), osep.end);
                if oit.res is Ok && pos < oit.end <= s.len() {
                    lemma_sepby_rest_bounds(p, s, oit.end);
                }
            }
        },
        _ => {},
    }
}

/// Brackets stay within the input.
pub proof fn lemma_between_bounds(p: Parsec, s: Seq<char>, pos: int)
    requires
        0 <= pos <= s.len(),
    ensures
        pos <= spec_between(p, s, pos).end <= s.len(),
    decreases s.len() - pos, p, 0int,
{
    match p {
        Parsec::Between(a, q, b) => {
            lemma_run_bounds(*a, s, pos);
            let o1 = spec_run(*a, s, pos);
            if o1.res is Ok && pos <= o1.end <= s.len() {
                lemma_run_bounds(*q, s, o1.end);
                let o2 = spec_run(*q, s, o1.end);
                if o2.res is Ok && pos <= o2.end <= s.len() {
                    lemma_run_bounds(*b, s, o2.end);
                }
            }
        },
        _ => {},
    }
}

/// Ordered choice never moves the cursor backwards or outside the input.
pub proof fn lemma_choice_bounds(qs: Seq<Parsec>, s: Seq<char>, pos: int)
    requires
        0 <= pos <= s.len(),
    ensures
        pos <= spec_choice(qs, s, pos).end <= s.len(),
    decreases s.len() - pos, qs, 0int,
{
    if qs.len() > 0 {
        lemma_run_bounds(qs[0], s, pos);
        let o = try_of(spec_run(qs[0], s, pos), pos);
        if !(o.res is Ok) && qs.len() > 1 {
            lemma_choice_bounds(qs.drop_first(), s, pos);
        }
    }
}

// ---------------------------------------------------------------------------
// Executable helpers
// ---------------------------------------------------------------------------

/// The view of a value sequence has the same length and views each element.
pub proof fn lemma_vals_view_index(xs: Seq<Value>)
    ensures
        vals_view(xs).len() == xs.len(),
        forall|i: int| 0 <= i < xs.len() ==> vals_view(xs)[i] == val_view(xs[i]),
    decreases xs,
{
    if xs.len() > 0 {
        lemma_vals_view_index(xs.drop_first());
        assert forall|i: int| 0 <= i < xs.len() implies vals_view(xs)[i] == val_view(
            xs[i],
        ) by {
            if i > 0 {
                assert(xs.drop_first()[i - 1] == xs[i]);
            }
        }
    }
}

/// Relies on `String::from_iter` over characters: the string made of
/// exactly the given characters, in order.
#[verifier::external_body]
pub(crate) fn chars_to_string(cs: &Vec<char>) -> (s: String)
    ensures
        s@ == cs@,
{
    cs.iter().collect()
}

/// Duplicates a parse value.
fn clone_value(v: &Value) -> (r: Value)
    ensures
        val_view(r) == val_view(*v),
    decreases v,
{
    match v {
        Value::Unit => Value::Unit,
        Value::Ch(c) => Value::Ch(*c),
        Value::Num(n) => Value::Num(*n),
        Value::Str(s) => Value::Str(s.clone()),
        Value::List(xs) => {
            let mut out: Vec<Value> = Vec::new();
            let mut i: usize = 0;
            while i < xs.len()
                invariant
                    *v == Value::List(*xs),
                    0 <= i <= xs@.len(),
                    out@.len() == i,
                    forall|j: int|
                        0 <= j < i ==> val_view(#[trigger] out@[j]) == val_view(xs@[j]),
                decreases xs@.len() - i,
            {
                proof {
                    assert(*v == Value::List(*xs));
                    assert(decreases_to!(*v => (*v)->List_0));
                    assert(decreases_to!((*v)->List_0 => ((*v)->List_0)@));
                    assert(decreases_to!(((*v)->List_0)@ => ((*v)->List_0)@[i as int]));
                    assert(decreases_to!(*v => (*xs)[i as int]));
                }
                let c = clone_value(&xs[i]);
                out.push(c);
                i = i + 1;
            }
            proof {
                lemma_vals_view_index(out@);
                lemma_vals_view_index(xs@);
                assert(vals_view(out@) =~= vals_view(xs@));
            }
            Value::List(out)
        },
        Value::OptV(o) => match o {
            Option::None => Value::OptV(Option::None),
            Option::Some(b) => Value::OptV(Option::Some(Box::new(clone_value(&*b)))),
        },
    }
}

/// Extracts the characters of a list of character values, reading a value
/// of another shape as the null character.
fn extract_chars(xs: &Vec<Value>) -> (out: Vec<char>)
    ensures
        out@ == chars_of(vals_view(xs@)),
{
    let mut out: Vec<char> = Vec::new();
    let mut i: usize = 0;
    while i < xs.len()
        invariant
            0 <= i <= xs@.len(),
            out@.len() == i,
            forall|j: int| 0 <= j < i ==> out@[j] == char_of(val_view(xs@[j])),
        decreases xs@.len() - i,
    {
        let c = match &xs[i] {
            Value::Ch(c) => *c,
            _ => '\u{0}',
        };
        proof {
            lemma_val_view_shape(xs@[i as int]);
        }
        out.push(c);
        i = i + 1;
    }
    proof {
        lemma_vals_view_index(xs@);
        lemma_chars_of_index(vals_view(xs@));
        assert(out@ =~= chars_of(vals_view(xs@)));
    }
    out
}

/// A value and its view have the same shape, and a character value views
/// to its character.
pub proof fn lemma_val_view_shape(v: Value)
    ensures
        v is Ch <==> val_view(v) is Ch,
        v is Ch ==> char_of(val_view(v)) == v->Ch_0,
        !(v is Ch) ==> char_of(val_view(v)) == '\u{0}',
{
}

/// The number written by a digit run is never negative.
pub proof fn lemma_digits_val_nonneg(cs: Seq<char>)
    ensures
        digits_val(cs) >= 0,
    decreases cs.len(),
{
    if cs.len() > 0 {
        lemma_digits_val_nonneg(cs.drop_last());
    }
}

/// Reads a digit run as a number, clamped to the machine integer range.
fn digits_to_num(cs: &Vec<char>) -> (n: i64)
    ensures
        n as int == if digits_val(cs@) <= i64::MAX as int {
            digits_val(cs@)
        } else {
            i64::MAX as int
        },
{
    let mut n: i64 = 0;
    let mut i: usize = 0;
    proof {
        assert(cs@.subrange(0, 0) =~= Seq::<char>::empty());
    }
    while i < cs.len()
        invariant
            0 <= i <= cs@.len(),
            0 <= n,
            n as int == if digits_val(cs@.subrange(0, i as int)) <= i64::MAX as int {
                digits_val(cs@.subrange(0, i as int))
            } else {
                i64::MAX as int
            },
        decreases cs@.len() - i,
    {
        let c = cs[i];
        let d: i64 = if '0' <= c && c <= '9' {
            (c as u32 as i64) - 48
        } else {
            0
        };
        proof {
            let pre = cs@.subrange(0, i as int);
            let cur = cs@.subrange(0, i as int + 1);
            assert(cur.drop_last() =~= pre);
            assert(cur.last() == cs@[i as int]);
            assert(d as int == digit_val(cs@[i as int]));
            lemma_digits_val_nonneg(pre);
        }
        let ghost pre_val = digits_val(cs@.subrange(0, i as int));
        let ghost cur_val = digits_val(cs@.subrange(0, i as int + 1));
        assert(cur_val == pre_val * 10 + d);
        if n <= (i64::MAX - d) / 10 {
            proof {
                assert(n * 10 + d <= i64::MAX && (pre_val <= i64::MAX as int ==> n == pre_val))
                    by (nonlinear_arith)
                    requires
                        0 <= d <= 9,
                        0 <= n <= (i64::MAX - d) / 10,
                        n as int == if pre_val <= i64::MAX as int {
                            pre_val
                        } else {
                            i64::MAX as int
                        },
                        pre_val >= 0,
                ;
                assert(pre_val > i64::MAX as int ==> n as int == i64::MAX as int);
                assert((i64::MAX - d) / 10 < i64::MAX) by (nonlinear_arith)
                    requires
                        0 <= d <= 9,
                ;
                assert(pre_val <= i64::MAX as int);
                assert(cur_val <= i64::MAX as int);
            }
            n = n * 10 + d;
        } else {
            proof {
                assert(pre_val * 10 + d > i64::MAX as int) by (nonlinear_arith)
                    requires
                        0 <= d <= 9,
                        n > (i64::MAX - d) / 10,
                        n as int == if pre_val <= i64::MAX as int {
                            pre_val
                        } else {
                            i64::MAX as int
                        },
                        pre_val >= 0,
                ;
                assert(cur_val > i64::MAX as int);
            }
            n = i64::MAX;
        }
        i = i + 1;
    }
    proof {
        assert(cs@.subrange(0, cs@.len() as int) =~= cs@);
    }
    n
}

/// Applies a named transformation to a value.
fn apply_mapfn(f: &MapFn, v: Value) -> (r: Value)
    ensures
        val_view(r) == apply_map(*f, val_view(v)),
{
    match f {
        MapFn::Discard => Value::Unit,
        MapFn::Collect => match v {
            Value::List(xs) => {
                let cs = extract_chars(&xs);
                Value::Str(chars_to_string(&cs))
            },
            _ => Value::Str(String::new()),
        },
        MapFn::DigitValue => match v {
            Value::Ch(c) => {
                if '0' <= c && c <= '9' {
                    Value::Num((c as u32 as i64) - 48)
                } else {
                    Value::Num(0)
                }
            },
            _ => Value::Num(0),
        },
        MapFn::DigitsValue => match v {
            Value::List(xs) => {
                let cs = extract_chars(&xs);
                Value::Num(digits_to_num(&cs))
            },
            _ => Value::Num(0),
        },
    }
}

// ---------------------------------------------------------------------------
// The executable interpreter
// ---------------------------------------------------------------------------

/// Viewing commutes with placing one value at the front.
pub proof fn lemma_vals_view_cons(xs: Seq<Value>, x: Value)
    ensures
        vals_view(xs.insert(0, x)) == seq![val_view(x)] + vals_view(xs),
{
    lemma_vals_view_index(xs);
    lemma_vals_view_index(xs.insert(0, x));
    assert(vals_view(xs.insert(0, x)) =~= seq![val_view(x)] + vals_view(xs));
}

/// The outcome of one executable step agrees with the interpreter's
/// specification: same final position, and a value (or error) that reads as
/// the specified one.
pub open spec fn run_matches(r: (Result<Value, ParsecError>, usize), o: SpecStep) -> bool {
    &&& r.1 as int == o.end
    &&& match (r.0, o.res) {
        (Result::Ok(v), Result::Ok(sv)) => val_view(v) == sv,
        (Result::Err(e), Result::Err(k)) => e.msg == k,
        _ => false,
    }
}

/// The view of a single-character value.
pub proof fn lemma_val_view_ch(c: char)
    ensures
        val_view(Value::Ch(c)) == SpecVal::Ch(c),
{
}

/// Ordered choice over no alternatives reads as the end of input.
pub proof fn lemma_spec_choice_empty(qs: Seq<Parsec>, s: Seq<char>, pos: int)
    requires
        qs.len() == 0,
    ensures
        spec_choice(qs, s, pos) == step_err(ParsecErrorKind::UnexpectedEOF, pos),
{
}

/// Matches the characters of a literal exactly; consumes nothing on a
/// mismatch or when the input ends inside the literal.
fn run_literal(cs: &Vec<char>, input: &Vec<char>, pos: usize) -> (res: (
    Result<Value, ParsecError>,
    usize,
))
    requires
        pos <= input@.len(),
    ensures
        run_matches(res, spec_literal(cs@, input@, pos as int)),
        pos <= res.1 <= input@.len(),
{
    let mut k: usize = 0;
    while k < cs.len()
        invariant
            pos <= input@.len(),
            0 <= k <= cs@.len(),
            pos + k <= input@.len(),
            literal_diff(input@, pos as int, cs@, 0) == literal_diff(
                input@,
                pos as int,
                cs@,
                k as int,
            ),
        decreases cs@.len() - k,
    {
        if input.len() - pos <= k {
            return (Result::Err(ParsecError { msg: ParsecErrorKind::UnexpectedEOF }), pos);
        }
        let c = input[pos + k];
        if c != cs[k] {
            return (Result::Err(ParsecError { msg: ParsecErrorKind::UnexpectedChar(c) }), pos);
        }
        k = k + 1;
    }
    proof {
        lemma_literal_diff_none(input@, pos as int, cs@, 0);
    }
    let ilen = input.len();
    assert(pos + cs@.len() <= ilen);
    (Result::Ok(Value::Str(chars_to_string(cs))), pos + cs.len())
}

/// Runs a parser over the input from the given position: the executable
/// interpreter, verified against [`spec_run`].
#[verifier::rlimit(100)]
pub fn run(p: &Parsec, input: &Vec<char>, pos: usize) -> (res: (
    Result<Value, ParsecError>,
    usize,
))
    requires
        pos <= input@.len(),
    ensures
        run_matches(res, spec_run(*p, input@, pos as int)),
        pos <= res.1 <= input@.len(),
    decreases input@.len() - pos, *p, 1int,
{
    match p {
        Parsec::Satisfy(cc) => {
            if pos >= input.len() {
                return (Result::Err(ParsecError { msg: ParsecErrorKind::UnexpectedEOF }), pos);
            }
            let c = input[pos];
            if class_matches(cc, c) {
                proof {
                    lemma_val_view_ch(c);
                }
                return (Result::Ok(Value::Ch(c)), pos + 1);
            }
            (Result::Err(ParsecError { msg: ParsecErrorKind::UnexpectedChar(c) }), pos + 1)
        },
        Parsec::Literal(cs) => run_literal(cs, input, pos),
        Parsec::Lookahead(q) => {
            let r = run(&**q, input, pos);
            (r.0, pos)
        },
        Parsec::Try(q) => {
            let r = run(&**q, input, pos);
            match r.0 {
                Result::Ok(_) => r,
                Result::Err(_) => (r.0, pos),
            }
        },
        Parsec::Choice(qs) => {
            if qs.len() == 0 {
                proof {
                    lemma_spec_choice_empty(qs@, input@, pos as int);
                }
                return (Result::Err(ParsecError { msg: ParsecErrorKind::UnexpectedEOF }), pos);
            }
            proof {
                assert(decreases_to!(*p => (*p)->Choice_0));
                assert(decreases_to!((*p)->Choice_0 => ((*p)->Choice_0)@));
                assert(qs@.skip(0) =~= qs@);
            }
            run_choice(qs, 0, input, pos)
        },
        Parsec::Many(q) => {
            let r = run_many(&**q, input, pos);
            (Result::Ok(Value::List(r.0)), r.1)
        },
        Parsec::Many1(q) => run_many1(&**q, input, pos),
        Parsec::SkipMany(q) => {
            let r = run_many(&**q, input, pos);
            (Result::Ok(Value::Unit), r.1)
        },
        Parsec::SkipMany1(q) => {
            let r = run_many1(&**q, input, pos);
            match r.0 {
                Result::Ok(_) => (Result::Ok(Value::Unit), r.1),
                Result::Err(e) => (Result::Err(e), r.1),
            }
        },
        Parsec::SepBy(q, sep) => run_sepby(p, input, pos),
        Parsec::Mapped(q, f) => {
            let r = run(&**q, input, pos);
            match r.0 {
                Result::Ok(v) => (Result::Ok(apply_mapfn(f, v)), r.1),
                Result::Err(e) => (Result::Err(e), r.1),
            }
        },
        Parsec::Bind(q, r2) => {
            let r = run(&**q, input, pos);
            match r.0 {
                Result::Err(e) => (Result::Err(e), r.1),
                Result::Ok(_) => run(&**r2, input, r.1),
            }
        },
        Parsec::Pure(v) => (Result::Ok(clone_value(v)), pos),
        Parsec::Between(a, q, b) => run_between(p, input, pos),
        Parsec::Optional(q) => {
            let r = run(&**q, input, pos);
            match r.0 {
                Result::Ok(v) => (Result::Ok(Value::OptV(Option::Some(Box::new(v)))), r.1),
                Result::Err(_) => (Result::Ok(Value::OptV(Option::None)), pos),
            }
        },
    }
}

/// Repetition: runs the parser until it fails or stops consuming,
/// collecting the values; never fails.
pub fn run_many(p: &Parsec, input: &Vec<char>, pos: usize) -> (res: (Vec<Value>, usize))
    requires
        pos <= input@.len(),
    ensures
        spec_many(*p, input@, pos as int) == step_ok(
            SpecVal::List(vals_view(res.0@)),
            res.1 as int,
        ),
        pos <= res.1 <= input@.len(),
    decreases input@.len() - pos, *p, 2int,
{
    let r = run(p, input, pos);
    match r.0 {
        Result::Err(_) => {
            let out: Vec<Value> = Vec::new();
            proof {
                assert(vals_view(out@) =~= Seq::<SpecVal>::empty());
            }
            (out, pos)
        },
        Result::Ok(v) => {
            if r.1 > pos {
                let rest = run_many(p, input, r.1);
                let mut out = rest.0;
                out.insert(0, v);
                proof {
                    lemma_vals_view_cons(rest.0@, v);
                }
                (out, rest.1)
            } else {
                let out: Vec<Value> = Vec::new();
                proof {
                    assert(vals_view(out@) =~= Seq::<SpecVal>::empty());
                }
                (out, pos)
            }
        },
    }
}

/// Repetition demanding at least one success: the first failure is
/// propagated with zero consumption.
fn run_many1(p: &Parsec, input: &Vec<char>, pos: usize) -> (res: (
    Result<Value, ParsecError>,
    usize,
))
    requires
        pos <= input@.len(),
    ensures
        run_matches(res, spec_many1(*p, input@, pos as int)),
        pos <= res.1 <= input@.len(),
    decreases input@.len() - pos, *p, 3int,
{
    let r = run(p, input, pos);
    match r.0 {
        Result::Err(e) => (Result::Err(e), pos),
        Result::Ok(v) => {
            if r.1 > pos {
                let rest = run_many(p, input, r.1);
                let mut out = rest.0;
                out.insert(0, v);
                proof {
                    lemma_vals_view_cons(rest.0@, v);
                }
                (Result::Ok(Value::List(out)), rest.1)
            } else {
                let ghost sv = val_view(v);
                let mut out: Vec<Value> = Vec::new();
                out.push(v);
                proof {
                    lemma_vals_view_index(out@);
                    assert(vals_view(out@) =~= seq![sv]);
                }
                (Result::Ok(Value::List(out)), r.1)
            }
        },
    }
}

/// A separated list: the first item behind the backtracking wrapper; an
/// immediate failure yields the empty list. `p` is the whole
/// [`Parsec::SepBy`] node.
fn run_sepby(p: &Parsec, input: &Vec<char>, pos: usize) -> (res: (
    Result<Value, ParsecError>,
    usize,
))
    requires
        pos <= input@.len(),
        *p is SepBy,
    ensures
        run_matches(res, spec_sepby(*p, input@, pos as int)),
        pos <= res.1 <= input@.len(),
    decreases input@.len() - pos, *p, 0int,
{
    match p {
        Parsec::SepBy(q, sep) => {
            let r = run(&**q, input, pos);
            match r.0 {
                Result::Err(_) => {
                    let out: Vec<Value> = Vec::new();
                    proof {
                        assert(vals_view(out@) =~= Seq::<SpecVal>::empty());
                    }
                    (Result::Ok(Value::List(out)), pos)
                },
                Result::Ok(v) => {
                    if r.1 > pos {
                        let rest = run_sepby_rest(p, input, r.1);
                        let mut out = rest.0;
                        out.insert(0, v);
                        proof {
                            lemma_vals_view_cons(rest.0@, v);
                        }
                        (Result::Ok(Value::List(out)), rest.1)
                    } else {
                        let out: Vec<Value> = Vec::new();
                        proof {
                            assert(vals_view(out@) =~= Seq::<SpecVal>::empty());
                        }
                        (Result::Ok(Value::List(out)), pos)
                    }
                },
            }
        },
        _ => {
            (Result::Err(ParsecError { msg: ParsecErrorKind::UnexpectedEOF }), pos)
        },
    }
}

/// The tail of a separated list: separator and item in turn; a committed
/// separator stays consumed when the item after it fails. `p` is the whole
/// [`Parsec::SepBy`] node.
fn run_sepby_rest(p: &Parsec, input: &Vec<char>, pos: usize) -> (res: (Vec<Value>, usize))
    requires
        pos <= input@.len(),
        *p is SepBy,
    ensures
        spec_sepby_rest(*p, input@, pos as int) == step_ok(
            SpecVal::List(vals_view(res.0@)),
            res.1 as int,
        ),
        pos <= res.1 <= input@.len(),
    decreases input@.len() - pos, *p, 0int,
{
    match p {
        Parsec::SepBy(q, sep) => {
            let rs = run(&**sep, input, pos);
            match rs.0 {
                Result::Err(_) => {
                    let out: Vec<Value> = Vec::new();
                    proof {
                        assert(vals_view(out@) =~= Seq::<SpecVal>::empty());
                    }
                    (out, pos)
                },
                Result::Ok(_) => {
                    let sep_end = rs.1;
                    proof {
                        assert(decreases_to!(*p => (*p)->SepBy_0));
                    }
                    let ri = run(&**q, input, sep_end);
                    match ri.0 {
                        Result::Err(_) => {
                            let out: Vec<Value> = Vec::new();
                            proof {
                                assert(vals_view(out@) =~= Seq::<SpecVal>::empty());
                            }
                            (out, sep_end)
                        },
                        Result::Ok(v) => {
                            if ri.1 > pos {
                                let rest = run_sepby_rest(p, input, ri.1);
                                let mut out = rest.0;
                                out.insert(0, v);
                                proof {
                                    lemma_vals_view_cons(rest.0@, v);
                                }
                                (out, rest.1)
                            } else {
                                let out: Vec<Value> = Vec::new();
                                proof {
                                    assert(vals_view(out@) =~= Seq::<SpecVal>::empty());
                                }
                                (out, sep_end)
                            }
                        },
                    }
                },
            }
        },
        _ => {
            let out: Vec<Value> = Vec::new();
            proof {
                assert(vals_view(out@) =~= Seq::<SpecVal>::empty());
            }
            (out, pos)
        },
    }
}

/// Brackets: open, body and close in order, yielding the body's value; a
/// failure aborts with no rollback. `p` is the whole [`Parsec::Between`]
/// node.
fn run_between(p: &Parsec, input: &Vec<char>, pos: usize) -> (res: (
    Result<Value, ParsecError>,
    usize,
))
    requires
        pos <= input@.len(),
        *p is Between,
    ensures
        run_matches(res, spec_between(*p, input@, pos as int)),
        pos <= res.1 <= input@.len(),
    decreases input@.len() - pos, *p, 0int,
{
    match p {
        Parsec::Between(a, q, b) => {
            let r1 = run(&**a, input, pos);
            match r1.0 {
                Result::Err(e) => (Result::Err(e), r1.1),
                Result::Ok(_) => {
                    proof {
                        assert(decreases_to!(*p => (*p)->Between_1));
                        assert(decreases_to!(*p => (*p)->Between_2));
                    }
                    let r2 = run(&**q, input, r1.1);
                    match r2.0 {
                        Result::Err(e) => (Result::Err(e), r2.1),
                        Result::Ok(v) => {
                            let r3 = run(&**b, input, r2.1);
                            match r3.0 {
                                Result::Err(e) => (Result::Err(e), r3.1),
                                Result::Ok(_) => (Result::Ok(v), r3.1),
                            }
                        },
                    }
                },
            }
        },
        _ => {
            (Result::Err(ParsecError { msg: ParsecErrorKind::UnexpectedEOF }), pos)
        },
    }
}

/// Ordered choice from alternative `i` on: the first success wins; when all
/// fail, the last alternative's error is kept.
fn run_choice(qs: &Vec<Parsec>, i: usize, input: &Vec<char>, pos: usize) -> (res: (
    Result<Value, ParsecError>,
    usize,
))
    requires
        pos <= input@.len(),
        i < qs@.len(),
    ensures
        run_matches(res, spec_choice(qs@.skip(i as int), input@, pos as int)),
        pos <= res.1 <= input@.len(),
    decreases input@.len() - pos, *qs, qs@.len() - i,
{
    proof {
        assert(decreases_to!(*qs => (*qs)[i as int]));
        assert(qs@.skip(i as int)[0] == qs@[i as int]);
        assert(qs@.skip(i as int).len() == qs@.len() - i);
    }
    let r = run(&qs[i], input, pos);
    match r.0 {
        Result::Ok(_) => r,
        Result::Err(e) => {
            if i == qs.len() - 1 {
                (Result::Err(e), pos)
            } else {
                proof {
                    assert(qs@.skip(i as int).drop_first() =~= qs@.skip(i as int + 1));
                }
                run_choice(qs, i + 1, input, pos)
            }
        },
    }
}

// ---------------------------------------------------------------------------
// Constructors
// ---------------------------------------------------------------------------

/// One element, accepted when it belongs to the class; the cursor advances
/// past the element whether or not it was accepted.
pub fn satisfy(cc: CharClass) -> (p: Parsec)
    ensures
        p == Parsec::Satisfy(cc),
{
    Parsec::Satisfy(cc)
}

/// Peeks at the inner parser's outcome without consuming anything.
pub fn lookahead(p: Parsec) -> (r: Parsec)
    ensures
        r is Lookahead,
        r->Lookahead_0 == p,
{
    Parsec::Lookahead(Box::new(p))
}

/// The backtracking wrapper: consumes only when the inner parser succeeds.
pub fn try_parse(p: Parsec) -> (r: Parsec)
    ensures
        r is Try,
        r->Try_0 == p,
{
    Parsec::Try(Box::new(p))
}

/// Ordered choice: the first alternative to succeed wins.
pub fn choice(ps: Vec<Parsec>) -> (r: Parsec)
    ensures
        r is Choice,
        r->Choice_0 == ps,
{
    Parsec::Choice(ps)
}

/// Zero or more repetitions, collected into a list.
pub fn many(p: Parsec) -> (r: Parsec)
    ensures
        r is Many,
        r->Many_0 == p,
{
    Parsec::Many(Box::new(p))
}

/// One or more repetitions, collected into a list.
pub fn many1(p: Parsec) -> (r: Parsec)
    ensures
        r is Many1,
        r->Many1_0 == p,
{
    Parsec::Many1(Box::new(p))
}

/// Zero or more repetitions, discarding the values.
pub fn skip_many(p: Parsec) -> (r: Parsec)
    ensures
        r is SkipMany,
        r->SkipMany_0 == p,
{
    Parsec::SkipMany(Box::new(p))
}

/// One or more repetitions, discarding the values.
pub fn skip_many1(p: Parsec) -> (r: Parsec)
    ensures
        r is SkipMany1,
        r->SkipMany1_0 == p,
{
    Parsec::SkipMany1(Box::new(p))
}

/// Items separated by a separator.
pub fn sep_by(p: Parsec, sep: Parsec) -> (r: Parsec)
    ensures
        r is SepBy,
        r->SepBy_0 == p,
        r->SepBy_1 == sep,
{
    Parsec::SepBy(Box::new(p), Box::new(sep))
}

/// Transforms a successful value by a named transformation.
pub fn fmap(p: Parsec, f: MapFn) -> (r: Parsec)
    ensures
        r is Mapped,
        r->Mapped_0 == p,
        r->Mapped_1 == f,
{
    Parsec::Mapped(Box::new(p), f)
}

/// Sequencing: runs the left parser, drops its value, and continues with
/// the right parser from where the left one stopped.
pub fn bind(p: Parsec, q: Parsec) -> (r: Parsec)
    ensures
        r is Bind,
        r->Bind_0 == p,
        r->Bind_1 == q,
{
    Parsec::Bind(Box::new(p), Box::new(q))
}

/// Always succeeds with the given value, consuming nothing.
pub fn pure(x: Value) -> (r: Parsec)
    ensures
        r == Parsec::Pure(x),
{
    Parsec::Pure(x)
}

/// Runs the parser for its consumption and drops the value.
pub fn discard(p: Parsec) -> (r: Parsec)
    ensures
        r is Mapped,
        r->Mapped_0 == p,
        r->Mapped_1 == MapFn::Discard,
{
    fmap(p, MapFn::Discard)
}

/// Brackets: open, body and close in order, yielding the body's value.
pub fn between(open_p: Parsec, p: Parsec, close_p: Parsec) -> (r: Parsec)
    ensures
        r is Between,
        r->Between_0 == open_p,
        r->Between_1 == p,
        r->Between_2 == close_p,
{
    Parsec::Between(Box::new(open_p), Box::new(p), Box::new(close_p))
}

/// Never fails: yields `Some` value on success, `None` with zero
/// consumption on failure.
pub fn optional(p: Parsec) -> (r: Parsec)
    ensures
        r is Optional,
        r->Optional_0 == p,
{
    Parsec::Optional(Box::new(p))
}

// ---------------------------------------------------------------------------
// Laws of the engine
// ---------------------------------------------------------------------------

/// Repetition makes progress: it always succeeds with a list, and every
/// recorded repetition consumes at least one element, so the number of
/// repetitions is bounded by the consumed length and is finite.
pub proof fn lemma_many_progress(p: Parsec, s: Seq<char>, pos: int)
    requires
        0 <= pos <= s.len(),
    ensures
        spec_many(p, s, pos).res is Ok,
        spec_many(p, s, pos).res->Ok_0 is List,
        pos <= spec_many(p, s, pos).end <= s.len(),
        spec_many(p, s, pos).res->Ok_0->List_0.len() <= spec_many(p, s, pos).end - pos,
    decreases s.len() - pos, p, 2int,
{
    lemma_run_bounds(p, s, pos);
    let o = spec_run(p, s, pos);
    if o.res is Ok && pos < o.end <= s.len() {
        lemma_many_progress(p, s, o.end);
    }
}

/// Ordered choice commits to the first alternative that succeeds, whatever
/// the later alternatives would do: its result is the first alternative's.
pub proof fn lemma_choice_first_wins(qs: Seq<Parsec>, s: Seq<char>, pos: int)
    requires
        qs.len() > 0,
        spec_run(qs[0], s, pos).res is Ok,
    ensures
        spec_choice(qs, s, pos) == spec_run(qs[0], s, pos),
{
}

/// The backtracking wrapper restores the cursor on failure and keeps the
/// inner parser's consumption on success.
pub proof fn lemma_try_parse_conduct(p: Parsec, s: Seq<char>, pos: int)
    requires
        0 <= pos <= s.len(),
        p is Try,
    ensures
        spec_run(p, s, pos).res == spec_run(*p->Try_0, s, pos).res,
        spec_run(p, s, pos).res is Err ==> spec_run(p, s, pos).end == pos,
        spec_run(p, s, pos).res is Ok ==> spec_run(p, s, pos).end == spec_run(
            *p->Try_0,
            s,
            pos,
        ).end,
{
}

/// Lookahead never consumes, whatever the inner parser's outcome.
pub proof fn lemma_lookahead_conduct(p: Parsec, s: Seq<char>, pos: int)
    requires
        0 <= pos <= s.len(),
        p is Lookahead,
    ensures
        spec_run(p, s, pos).res == spec_run(*p->Lookahead_0, s, pos).res,
        spec_run(p, s, pos).end == pos,
{
}

/// The element primitive is destructive: whenever an element is there to
/// examine, the cursor moves past it, accepted or not.
pub proof fn lemma_satisfy_conduct(p: Parsec, s: Seq<char>, pos: int)
    requires
        0 <= pos < s.len(),
        p is Satisfy,
    ensures
        spec_run(p, s, pos).end == pos + 1,
        spec_run(p, s, pos).res is Ok <==> class_holds(p->Satisfy_0, s[pos]),
{
}

// ---------------------------------------------------------------------------
// Runs through the engine
// ---------------------------------------------------------------------------

/// A sequence of characters read as character values.
pub open spec fn chs(sub: Seq<char>) -> Seq<SpecVal>
    decreases sub,
{
    if sub.len() == 0 {
        Seq::empty()
    } else {
        seq![ch_val(sub[0])] + chs(sub.drop_first())
    }
}

/// Reading characters as values and back is the identity.
pub proof fn lemma_chars_of_chs(sub: Seq<char>)
    ensures
        chars_of(chs(sub)) == sub,
    decreases sub,
{
    if sub.len() > 0 {
        lemma_chars_of_chs(sub.drop_first());
        assert(chs(sub) == seq![ch_val(sub[0])] + chs(sub.drop_first()));
        assert(chs(sub).drop_first() =~= chs(sub.drop_first()));
        assert(chars_of(chs(sub)) =~= sub);
    } else {
        assert(chars_of(chs(sub)) =~= sub);
    }
}

/// Splitting the first character off a run of character values.
pub proof fn lemma_chs_cons(s: Seq<char>, pos: int, e: int)
    requires
        0 <= pos < e <= s.len(),
    ensures
        chs(s.subrange(pos, e)) == seq![ch_val(s[pos])] + chs(s.subrange(pos + 1, e)),
{
    let sub = s.subrange(pos, e);
    assert(sub[0] == s[pos]);
    assert(sub.drop_first() =~= s.subrange(pos + 1, e));
}

/// Repeating the element primitive collects exactly the maximal run of its
/// class.
pub proof fn lemma_many_satisfy(cc: CharClass, s: Seq<char>, pos: int)
    requires
        0 <= pos <= s.len(),
    ensures
        spec_many(Parsec::Satisfy(cc), s, pos) == step_ok(
            SpecVal::List(chs(s.subrange(pos, run_end(s, pos, cc)))),
            run_end(s, pos, cc),
        ),
    decreases s.len() - pos,
{
    let e = run_end(s, pos, cc);
    lemma_run_end(s, pos, cc);
    assert(spec_run(Parsec::Satisfy(cc), s, pos) == spec_satisfy(cc, s, pos));
    if pos < s.len() && class_holds(cc, s[pos]) {
        lemma_many_satisfy(cc, s, pos + 1);
        lemma_chs_cons(s, pos, e);
        assert(spec_many(Parsec::Satisfy(cc), s, pos) == cons_list(
            SpecVal::Ch(s[pos]),
            spec_many(Parsec::Satisfy(cc), s, pos + 1),
        ));
    } else {
        assert(s.subrange(pos, pos) =~= Seq::<char>::empty());
        assert(chs(Seq::<char>::empty()) =~= Seq::<SpecVal>::empty());
    }
}

/// Repeating the element primitive with a demanded first element collects
/// the maximal run when it is not empty, and fails without consuming when
/// it is.
pub proof fn lemma_many1_satisfy(cc: CharClass, s: Seq<char>, pos: int)
    requires
        0 <= pos <= s.len(),
    ensures
        run_end(s, pos, cc) > pos ==> spec_many1(Parsec::Satisfy(cc), s, pos) == step_ok(
            SpecVal::List(chs(s.subrange(pos, run_end(s, pos, cc)))),
            run_end(s, pos, cc),
        ),
        run_end(s, pos, cc) == pos && pos >= s.len() ==> spec_many1(
            Parsec::Satisfy(cc),
            s,
            pos,
        ) == step_err(ParsecErrorKind::UnexpectedEOF, pos),
        run_end(s, pos, cc) == pos && pos < s.len() ==> spec_many1(
            Parsec::Satisfy(cc),
            s,
            pos,
        ) == step_err(ParsecErrorKind::UnexpectedChar(s[pos]), pos),
{
    let e = run_end(s, pos, cc);
    lemma_run_end(s, pos, cc);
    assert(spec_run(Parsec::Satisfy(cc), s, pos) == spec_satisfy(cc, s, pos));
    if pos < s.len() && class_holds(cc, s[pos]) {
        lemma_many_satisfy(cc, s, pos + 1);
        lemma_chs_cons(s, pos, e);
    }
}

} // verus!
