//! The parsing layer: a combinator engine and character-level parsers.
//!
//! A parser is a first-class [`combinator::Parsec`] value. It is run over an
//! immutable buffer of Unicode code points and a cursor position; duplicating
//! a cursor is duplicating the position alone, never the buffer, so
//! backtracking stays cheap however much input remains.

pub mod combinator;
pub mod lexical;

use vstd::prelude::*;
use vstd::string::StrSliceExecFns;
use crate::parsec::combinator::Parsec;
use crate::parsec::combinator::ParsecError;
use crate::parsec::combinator::Value;
use crate::parsec::combinator::val_view;
use crate::parsec::combinator::run;
use crate::parsec::combinator::run_matches;
use crate::parsec::combinator::spec_run;

verus! {

/// The code points of a string, in order, as a buffer for the cursor.
pub fn to_chars(s: &str) -> (v: Vec<char>)
    ensures
        v@ == s@,
{
    let n = s.unicode_len();
    let mut v: Vec<char> = Vec::new();
    let mut i: usize = 0;
    while i < n
        invariant
            n == s@.len(),
            0 <= i <= n,
            v@ == s@.subrange(0, i as int),
        decreases n - i,
    {
        let c = s.get_char(i);
        v.push(c);
        proof {
            assert(v@ =~= s@.subrange(0, i as int + 1));
        }
        i = i + 1;
    }
    proof {
        assert(v@ =~= s@);
    }
    v
}

/// Runs a parser over the buffer, advancing the cursor; the driver of the
/// engine.
pub fn run_parser(parser: &Parsec, input: &Vec<char>, pos: &mut usize) -> (r: Result<
    Value,
    ParsecError,
>)
    requires
        *old(pos) <= input@.len(),
    ensures
        run_matches((r, *final(pos)), spec_run(*parser, input@, *old(pos) as int)),
        *final(pos) <= input@.len(),
{
    let (r, np) = run(parser, input, *pos);
    *pos = np;
    r
}

/// Runs a parser over a string, from its start.
pub fn run_parser_str(parser: &Parsec, input: &str) -> (r: Result<Value, ParsecError>)
    ensures
        ({
            let o = spec_run(*parser, input@, 0);
            match (r, o.res) {
                (Result::Ok(v), Result::Ok(sv)) => val_view(v) == sv,
                (Result::Err(e), Result::Err(k)) => e.msg == k,
                _ => false,
            }
        }),
{
    let buf = to_chars(input);
    let mut pos: usize = 0;
    run_parser(parser, &buf, &mut pos)
}

} // verus!
