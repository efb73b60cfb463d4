//! The token grammar: page labels, line tags, inline tags and escaped
//! narration text, tokenized in one pass over the whole input.
//!
//! Each production commits its consumption on success and restores the
//! cursor on failure, the discipline the combinator engine's backtracking
//! wrapper gives; the productions are written as first-order functions over
//! the shared cursor so that their contracts state the grammar directly.

use vstd::prelude::*;
use crate::parsec::combinator::CharClass;
use crate::parsec::combinator::ParsecError;
use crate::parsec::combinator::ParsecErrorKind;
use crate::parsec::combinator::Step;
use crate::parsec::combinator::chars_to_string;
use crate::parsec::combinator::class_holds;
use crate::parsec::combinator::class_matches;
use crate::parsec::combinator::run_end;
use crate::parsec::combinator::lemma_run_end;
use crate::parsec::combinator::scan_run;
use crate::parsec::combinator::whitespace_char;
use crate::parsec::to_chars;

verus! {

// ---------------------------------------------------------------------------
// Tokens and their mathematical models
// ---------------------------------------------------------------------------

/// A named directive with key/value attributes; the keys are unique and the
/// name is a non-empty run without whitespace.
#[derive(Debug, Clone, PartialEq, Eq)]
pub struct Tag {
    pub name: String,
    /// Attribute pairs in first-appearance order; a repeated key overwrites
    /// the value in place, so the last occurrence wins.
    pub attributes: Vec<(String, String)>,
}

/// A page marker: an identifier and a heading, the heading defaulting to
/// the identifier.
#[derive(Debug, Clone, PartialEq, Eq)]
pub struct Label {
    pub label: String,
    pub heading: String,
}

/// One parsed unit of the script.
#[derive(Debug, Clone, PartialEq, Eq)]
pub enum Token {
    Label(Label),
    Tag(Tag),
    Text(String),
}

/// The mathematical shape of a tag.
pub struct TagV {
    pub name: Seq<char>,
    pub attrs: Seq<(Seq<char>, Seq<char>)>,
}

/// The mathematical shape of a label.
pub struct LabelV {
    pub label: Seq<char>,
    pub heading: Seq<char>,
}

/// The mathematical shape of a token.
pub enum TokenV {
    Label(LabelV),
    Tag(TagV),
    Text(Seq<char>),
}

/// One attribute pair read as sequences.
pub open spec fn kv_view(kv: (String, String)) -> (Seq<char>, Seq<char>) {
    (kv.0@, kv.1@)
}

/// An attribute list read as sequences.
pub open spec fn attrs_view(v: Seq<(String, String)>) -> Seq<(Seq<char>, Seq<char>)>
    decreases v,
{
    if v.len() == 0 {
        Seq::empty()
    } else {
        seq![kv_view(v[0])] + attrs_view(v.drop_first())
    }
}

/// The view of an attribute list has the same length and views each pair.
pub proof fn lemma_attrs_view_index(v: Seq<(String, String)>)
    ensures
        attrs_view(v).len() == v.len(),
        forall|i: int| 0 <= i < v.len() ==> attrs_view(v)[i] == kv_view(v[i]),
    decreases v,
{
    if v.len() > 0 {
        lemma_attrs_view_index(v.drop_first());
        assert(forall|i: int| 0 < i < v.len() ==> v.drop_first()[i - 1] == v[i]);
    }
}

/// A tag read as sequences.
pub open spec fn tag_view(t: Tag) -> TagV {
    TagV { name: t.name@, attrs: attrs_view(t.attributes@) }
}

/// A label read as sequences.
pub open spec fn label_view(l: Label) -> LabelV {
    LabelV { label: l.label@, heading: l.heading@ }
}

/// A token read as sequences.
pub open spec fn token_view(t: Token) -> TokenV {
    match t {
        Token::Label(l) => TokenV::Label(label_view(l)),
        Token::Tag(g) => TokenV::Tag(tag_view(g)),
        Token::Text(s) => TokenV::Text(s@),
    }
}

/// A token list read as sequences.
pub open spec fn tokens_view(v: Seq<Token>) -> Seq<TokenV>
    decreases v,
{
    if v.len() == 0 {
        Seq::empty()
    } else {
        seq![token_view(v[0])] + tokens_view(v.drop_first())
    }
}

/// The view of a token list has the same length and views each token.
pub proof fn lemma_tokens_view_index(v: Seq<Token>)
    ensures
        tokens_view(v).len() == v.len(),
        forall|i: int| 0 <= i < v.len() ==> tokens_view(v)[i] == token_view(v[i]),
    decreases v,
{
    if v.len() > 0 {
        lemma_tokens_view_index(v.drop_first());
        assert(forall|i: int| 0 < i < v.len() ==> v.drop_first()[i - 1] == v[i]);
    }
}

// ---------------------------------------------------------------------------
// Scanning helpers
// ---------------------------------------------------------------------------

/// The end of the maximal run of characters outside the excluded set,
/// starting at `pos`.
pub open spec fn excl_run_end(s: Seq<char>, pos: int, excl: Seq<char>) -> int
    decreases s.len() - pos,
{
    if 0 <= pos < s.len() && !excl.contains(s[pos]) {
        excl_run_end(s, pos + 1, excl)
    } else {
        pos
    }
}

/// The excluded-set run end lies within the input; everything before it is
/// outside the excluded set, and the character at it (if any) is in it.
pub proof fn lemma_excl_run_end(s: Seq<char>, pos: int, excl: Seq<char>)
    requires
        0 <= pos <= s.len(),
    ensures
        pos <= excl_run_end(s, pos, excl) <= s.len(),
        forall|j: int| pos <= j < excl_run_end(s, pos, excl) ==> !excl.contains(#[trigger] s[j]),
        excl_run_end(s, pos, excl) < s.len() ==> excl.contains(s[excl_run_end(s, pos, excl)]),
    decreases s.len() - pos,
{
    if 0 <= pos < s.len() && !excl.contains(s[pos]) {
        lemma_excl_run_end(s, pos + 1, excl);
    }
}

/// Scans the maximal run of characters outside the excluded set.
pub fn scan_excl(input: &Vec<char>, pos: usize, excl: &Vec<char>) -> (end: usize)
    requires
        pos <= input@.len(),
    ensures
        end == excl_run_end(input@, pos as int, excl@),
        pos <= end <= input@.len(),
{
    let mut i: usize = pos;
    while i < input.len() && !list_has(excl, input[i])
        invariant
            pos <= i <= input@.len(),
            excl_run_end(input@, pos as int, excl@) == excl_run_end(input@, i as int, excl@),
        decreases input@.len() - i,
    {
        i = i + 1;
    }
    proof {
        lemma_excl_run_end(input@, i as int, excl@);
    }
    i
}

/// Whether the list holds the character.
fn list_has(cs: &Vec<char>, c: char) -> (b: bool)
    ensures
        b == cs@.contains(c),
{
    let mut i: usize = 0;
    while i < cs.len()
        invariant
            0 <= i <= cs@.len(),
            forall|j: int| 0 <= j < i ==> cs@[j] != c,
        decreases cs@.len() - i,
    {
        if cs[i] == c {
            return true;
        }
        i = i + 1;
    }
    false
}

/// The characters of a range of the input, as a string.
fn take_range(input: &Vec<char>, a: usize, b: usize) -> (s: String)
    requires
        a <= b <= input@.len(),
    ensures
        s@ == input@.subrange(a as int, b as int),
{
    let mut cs: Vec<char> = Vec::new();
    let mut i: usize = a;
    while i < b
        invariant
            a <= i <= b <= input@.len(),
            cs@ == input@.subrange(a as int, i as int),
        decreases b - i,
    {
        cs.push(input[i]);
        proof {
            assert(cs@ =~= input@.subrange(a as int, i as int + 1));
        }
        i = i + 1;
    }
    chars_to_string(&cs)
}

// ---------------------------------------------------------------------------
// Grammar productions
// ---------------------------------------------------------------------------

/// The failure for the position: the end of input, or the unexpected
/// character standing there.
pub open spec fn eof_or_char(s: Seq<char>, pos: int) -> ParsecErrorKind {
    if 0 <= pos < s.len() {
        ParsecErrorKind::UnexpectedChar(s[pos])
    } else {
        ParsecErrorKind::UnexpectedEOF
    }
}

/// The character that ends a label identifier.
pub open spec fn bar_excl() -> Seq<char> {
    seq!['|']
}

/// The character that ends quoted content.
pub open spec fn quote_excl() -> Seq<char> {
    seq!['"']
}

/// The end of the maximal attribute-key run from `pos`: the run stops at
/// `=`, at Unicode whitespace, and at the full-width ideographic space
/// U+3000.
pub open spec fn key_run_end(s: Seq<char>, pos: int) -> int
    decreases s.len() - pos,
{
    if 0 <= pos < s.len() && class_holds(CharClass::NonWideSpace, s[pos]) && s[pos] != '=' {
        key_run_end(s, pos + 1)
    } else {
        pos
    }
}

/// The key run end lies within the input.
pub proof fn lemma_key_run_end(s: Seq<char>, pos: int)
    requires
        0 <= pos <= s.len(),
    ensures
        pos <= key_run_end(s, pos) <= s.len(),
    decreases s.len() - pos,
{
    if 0 <= pos < s.len() && class_holds(CharClass::NonWideSpace, s[pos]) && s[pos] != '=' {
        lemma_key_run_end(s, pos + 1);
    }
}

/// Scans the maximal attribute-key run from `pos`.
fn scan_key(input: &Vec<char>, pos: usize) -> (end: usize)
    requires
        pos <= input@.len(),
    ensures
        end == key_run_end(input@, pos as int),
        pos <= end <= input@.len(),
{
    let nws = CharClass::NonWideSpace;
    let mut i: usize = pos;
    while i < input.len() && class_matches(&nws, input[i]) && input[i] != '='
        invariant
            nws == CharClass::NonWideSpace,
            pos <= i <= input@.len(),
            key_run_end(input@, pos as int) == key_run_end(input@, i as int),
        decreases input@.len() - i,
    {
        i = i + 1;
    }
    proof {
        lemma_key_run_end(input@, i as int);
    }
    i
}

fn bar_excl_vec() -> (v: Vec<char>)
    ensures
        v@ == bar_excl(),
{
    let mut v: Vec<char> = Vec::new();
    v.push('|');
    proof {
        assert(v@ =~= bar_excl());
    }
    v
}

fn quote_excl_vec() -> (v: Vec<char>)
    ensures
        v@ == quote_excl(),
{
    let mut v: Vec<char> = Vec::new();
    v.push('"');
    proof {
        assert(v@ =~= quote_excl());
    }
    v
}

/// A successful token step agrees with its specification; a failed one
/// reports the specified error with the cursor restored.
pub open spec fn token_step_matches(
    r: Result<Token, ParsecError>,
    np: int,
    o: Step<TokenV>,
) -> bool {
    &&& np == o.end
    &&& match (r, o.res) {
        (Result::Ok(t), Result::Ok(tv)) => token_view(t) == tv,
        (Result::Err(e), Result::Err(k)) => e.msg == k,
        _ => false,
    }
}

/// A label: `*`, an identifier run without `|`, the `|`, and an optional
/// heading run ended by any Unicode whitespace or U+3000; an absent heading
/// defaults to the identifier. A failed label restores the cursor.
pub open spec fn spec_label_step(s: Seq<char>, pos: int) -> Step<TokenV> {
    if !(0 <= pos < s.len()) {
        Step { res: Result::Err(ParsecErrorKind::UnexpectedEOF), end: pos }
    } else if s[pos] != '*' {
        Step { res: Result::Err(ParsecErrorKind::UnexpectedChar(s[pos])), end: pos }
    } else {
        let q = excl_run_end(s, pos + 1, bar_excl());
        if q == pos + 1 {
            Step { res: Result::Err(eof_or_char(s, pos + 1)), end: pos }
        } else if q >= s.len() {
            Step { res: Result::Err(ParsecErrorKind::UnexpectedEOF), end: pos }
        } else {
            let lab = s.subrange(pos + 1, q);
            let h = run_end(s, q + 1, CharClass::NonWideSpace);
            if h > q + 1 {
                Step {
                    res: Result::Ok(
                        TokenV::Label(LabelV { label: lab, heading: s.subrange(q + 1, h) }),
                    ),
                    end: h,
                }
            } else {
                Step {
                    res: Result::Ok(TokenV::Label(LabelV { label: lab, heading: lab })),
                    end: q + 1,
                }
            }
        }
    }
}

/// Parses a label.
pub fn parse_label(input: &Vec<char>, pos: &mut usize) -> (r: Result<Token, ParsecError>)
    requires
        *old(pos) <= input@.len(),
    ensures
        token_step_matches(r, *final(pos) as int, spec_label_step(input@, *old(pos) as int)),
        *final(pos) <= input@.len(),
{
    let start = *pos;
    if start >= input.len() {
        return Result::Err(ParsecError { msg: ParsecErrorKind::UnexpectedEOF });
    }
    if input[start] != '*' {
        return Result::Err(ParsecError { msg: ParsecErrorKind::UnexpectedChar(input[start]) });
    }
    let bars = bar_excl_vec();
    let q = scan_excl(input, start + 1, &bars);
    if q == start + 1 {
        if start + 1 >= input.len() {
            return Result::Err(ParsecError { msg: ParsecErrorKind::UnexpectedEOF });
        }
        return Result::Err(
            ParsecError { msg: ParsecErrorKind::UnexpectedChar(input[start + 1]) },
        );
    }
    if q >= input.len() {
        return Result::Err(ParsecError { msg: ParsecErrorKind::UnexpectedEOF });
    }
    let lab = take_range(input, start + 1, q);
    let nws = CharClass::NonWideSpace;
    let h = scan_run(input, q + 1, &nws);
    if h > q + 1 {
        let heading = take_range(input, q + 1, h);
        *pos = h;
        Result::Ok(Token::Label(Label { label: lab, heading }))
    } else {
        let heading = lab.clone();
        *pos = q + 1;
        Result::Ok(Token::Label(Label { label: lab, heading }))
    }
}

/// A quoted-or-bare value: with an opening quote, the content strictly
/// between the quotes (no escape resolves a quote, and a missing closing
/// quote fails outright); without one, a non-empty bare run ended by any
/// Unicode whitespace or U+3000.
pub open spec fn spec_quoted_step(s: Seq<char>, pos: int) -> Step<Seq<char>> {
    if 0 <= pos < s.len() && s[pos] == '"' {
        let e = excl_run_end(s, pos + 1, quote_excl());
        if e >= s.len() {
            Step { res: Result::Err(ParsecErrorKind::UnexpectedEOF), end: pos }
        } else {
            Step { res: Result::Ok(s.subrange(pos + 1, e)), end: e + 1 }
        }
    } else {
        let b = if 0 <= pos <= s.len() {
            run_end(s, pos, CharClass::NonWideSpace)
        } else {
            pos
        };
        if b > pos {
            Step { res: Result::Ok(s.subrange(pos, b)), end: b }
        } else {
            Step { res: Result::Err(eof_or_char(s, pos)), end: pos }
        }
    }
}

/// Parses a quoted-or-bare value.
pub fn quoted_string(input: &Vec<char>, pos: &mut usize) -> (r: Result<String, ParsecError>)
    requires
        *old(pos) <= input@.len(),
    ensures
        ({
            let o = spec_quoted_step(input@, *old(pos) as int);
            &&& *final(pos) as int == o.end
            &&& match (r, o.res) {
                (Result::Ok(v), Result::Ok(sv)) => v@ == sv,
                (Result::Err(e), Result::Err(k)) => e.msg == k,
                _ => false,
            }
        }),
        *final(pos) <= input@.len(),
{
    let start = *pos;
    if start < input.len() && input[start] == '"' {
        let quotes = quote_excl_vec();
        let e = scan_excl(input, start + 1, &quotes);
        if e >= input.len() {
            return Result::Err(ParsecError { msg: ParsecErrorKind::UnexpectedEOF });
        }
        let v = take_range(input, start + 1, e);
        *pos = e + 1;
        Result::Ok(v)
    } else {
        let nws = CharClass::NonWideSpace;
        let b = scan_run(input, start, &nws);
        if b > start {
            let v = take_range(input, start, b);
            *pos = b;
            Result::Ok(v)
        } else {
            if start >= input.len() {
                return Result::Err(ParsecError { msg: ParsecErrorKind::UnexpectedEOF });
            }
            Result::Err(ParsecError { msg: ParsecErrorKind::UnexpectedChar(input[start]) })
        }
    }
}

/// One `key=value` attribute: a non-empty key run ended by `=` or any
/// Unicode whitespace or U+3000, the `=` itself, and a quoted-or-bare
/// value. A failed pair restores the cursor.
pub open spec fn spec_kv_step(s: Seq<char>, pos: int) -> Step<(Seq<char>, Seq<char>)> {
    if !(0 <= pos <= s.len()) {
        Step { res: Result::Err(ParsecErrorKind::UnexpectedEOF), end: pos }
    } else {
        let k = key_run_end(s, pos);
        if k == pos {
            Step { res: Result::Err(eof_or_char(s, pos)), end: pos }
        } else if k >= s.len() || s[k] != '=' {
            Step { res: Result::Err(eof_or_char(s, k)), end: pos }
        } else {
            let vo = spec_quoted_step(s, k + 1);
            match vo.res {
                Result::Ok(v) => Step {
                    res: Result::Ok((s.subrange(pos, k), v)),
                    end: vo.end,
                },
                Result::Err(e) => Step { res: Result::Err(e), end: pos },
            }
        }
    }
}

/// Parses one `key=value` attribute.
pub fn parse_key_value(input: &Vec<char>, pos: &mut usize) -> (r: Result<
    (String, String),
    ParsecError,
>)
    requires
        *old(pos) <= input@.len(),
    ensures
        ({
            let o = spec_kv_step(input@, *old(pos) as int);
            &&& *final(pos) as int == o.end
            &&& match (r, o.res) {
                (Result::Ok(kv), Result::Ok(skv)) => kv.0@ == skv.0 && kv.1@ == skv.1,
                (Result::Err(e), Result::Err(k)) => e.msg == k,
                _ => false,
            }
        }),
        *final(pos) <= input@.len(),
{
    let start = *pos;
    let k = scan_key(input, start);
    if k == start {
        if start >= input.len() {
            return Result::Err(ParsecError { msg: ParsecErrorKind::UnexpectedEOF });
        }
        return Result::Err(ParsecError { msg: ParsecErrorKind::UnexpectedChar(input[start]) });
    }
    if k >= input.len() {
        return Result::Err(ParsecError { msg: ParsecErrorKind::UnexpectedEOF });
    }
    if input[k] != '=' {
        return Result::Err(ParsecError { msg: ParsecErrorKind::UnexpectedChar(input[k]) });
    }
    let mut vpos = k + 1;
    let vr = quoted_string(input, &mut vpos);
    match vr {
        Result::Ok(v) => {
            let key = take_range(input, start, k);
            *pos = vpos;
            Result::Ok((key, v))
        },
        Result::Err(e) => Result::Err(e),
    }
}

// ---------------------------------------------------------------------------
// Attribute lists
// ---------------------------------------------------------------------------

/// The position of a key in an attribute list, or a negative number when
/// the key is absent.
pub open spec fn key_index(acc: Seq<(Seq<char>, Seq<char>)>, k: Seq<char>) -> int
    decreases acc,
{
    if acc.len() == 0 {
        -1
    } else if acc[0].0 == k {
        0int
    } else {
        let r = key_index(acc.drop_first(), k);
        if r < 0 {
            -1
        } else {
            r + 1
        }
    }
}

/// The key position is the first position carrying the key, and is negative
/// exactly when no position carries it.
pub proof fn lemma_key_index(acc: Seq<(Seq<char>, Seq<char>)>, k: Seq<char>)
    ensures
        -1 <= key_index(acc, k) < acc.len(),
        key_index(acc, k) == -1 ==> forall|j: int| 0 <= j < acc.len() ==> (#[trigger] acc[j]).0
            != k,
        key_index(acc, k) >= 0 ==> acc[key_index(acc, k)].0 == k,
        key_index(acc, k) >= 0 ==> forall|j: int|
            0 <= j < key_index(acc, k) ==> (#[trigger] acc[j]).0 != k,
    decreases acc,
{
    if acc.len() > 0 && acc[0].0 != k {
        lemma_key_index(acc.drop_first(), k);
        assert(forall|j: int| 0 < j < acc.len() ==> acc.drop_first()[j - 1] == #[trigger] acc[j]);
    }
}

/// Writing one attribute: a fresh key is appended, a repeated key
/// overwrites the value in place, so the last write wins.
pub open spec fn attrs_put(
    acc: Seq<(Seq<char>, Seq<char>)>,
    kv: (Seq<char>, Seq<char>),
) -> Seq<(Seq<char>, Seq<char>)> {
    let i = key_index(acc, kv.0);
    if i < 0 {
        acc.push(kv)
    } else {
        acc.update(i, kv)
    }
}

/// Writing a list of attributes in order, from the given start.
pub open spec fn attrs_fold_from(
    acc: Seq<(Seq<char>, Seq<char>)>,
    pairs: Seq<(Seq<char>, Seq<char>)>,
) -> Seq<(Seq<char>, Seq<char>)>
    decreases pairs,
{
    if pairs.len() == 0 {
        acc
    } else {
        attrs_fold_from(attrs_put(acc, pairs[0]), pairs.drop_first())
    }
}

/// The attribute mapping written by a pair list, in order.
pub open spec fn attrs_fold(pairs: Seq<(Seq<char>, Seq<char>)>) -> Seq<(Seq<char>, Seq<char>)> {
    attrs_fold_from(Seq::empty(), pairs)
}

/// No key appears twice.
pub open spec fn unique_keys(a: Seq<(Seq<char>, Seq<char>)>) -> bool {
    forall|i: int, j: int| 0 <= i < j < a.len() ==> (#[trigger] a[i]).0 != (#[trigger] a[j]).0
}

/// Writing one attribute keeps the keys unique.
pub proof fn lemma_attrs_put_unique(acc: Seq<(Seq<char>, Seq<char>)>, kv: (Seq<char>, Seq<char>))
    requires
        unique_keys(acc),
    ensures
        unique_keys(attrs_put(acc, kv)),
{
    lemma_key_index(acc, kv.0);
    let i = key_index(acc, kv.0);
    if i < 0 {
        let a = acc.push(kv);
        assert forall|x: int, y: int| 0 <= x < y < a.len() implies (#[trigger] a[x]).0 != (
        #[trigger] a[y]).0 by {
            if y == acc.len() {
                assert(a[x] == acc[x]);
                assert(acc[x].0 != kv.0);
            }
        }
    } else {
        let a = acc.update(i, kv);
        assert(acc[i].0 == kv.0);
        assert forall|x: int, y: int| 0 <= x < y < a.len() implies (#[trigger] a[x]).0 != (
        #[trigger] a[y]).0 by {
            assert(a[x].0 == acc[x].0);
            assert(a[y].0 == acc[y].0);
        }
    }
}

/// Writing a list of attributes keeps the keys unique.
pub proof fn lemma_attrs_fold_from_unique(
    acc: Seq<(Seq<char>, Seq<char>)>,
    pairs: Seq<(Seq<char>, Seq<char>)>,
)
    requires
        unique_keys(acc),
    ensures
        unique_keys(attrs_fold_from(acc, pairs)),
    decreases pairs,
{
    if pairs.len() > 0 {
        lemma_attrs_put_unique(acc, pairs[0]);
        lemma_attrs_fold_from_unique(attrs_put(acc, pairs[0]), pairs.drop_first());
    }
}

/// A tag's attribute mapping never holds a key twice: however many times a
/// key is written, the last write wins and the key stands once.
pub proof fn lemma_attrs_fold_unique(pairs: Seq<(Seq<char>, Seq<char>)>)
    ensures
        unique_keys(attrs_fold(pairs)),
{
    lemma_attrs_fold_from_unique(Seq::empty(), pairs);
}

/// Finds a key in an attribute list.
pub(crate) fn find_key(attrs: &Vec<(String, String)>, k: &String) -> (r: Option<usize>)
    ensures
        ({
            let ki = key_index(attrs_view(attrs@), k@);
            match r {
                Option::Some(i) => ki == i as int,
                Option::None => ki == -1,
            }
        }),
{
    proof {
        lemma_key_index(attrs_view(attrs@), k@);
        lemma_attrs_view_index(attrs@);
    }
    let mut i: usize = 0;
    while i < attrs.len()
        invariant
            0 <= i <= attrs@.len(),
            forall|j: int| 0 <= j < i ==> (#[trigger] attrs_view(attrs@)[j]).0 != k@,
            attrs_view(attrs@).len() == attrs@.len(),
            forall|j: int|
                0 <= j < attrs@.len() ==> #[trigger] attrs_view(attrs@)[j] == kv_view(attrs@[j]),
            -1 <= key_index(attrs_view(attrs@), k@) < attrs@.len(),
            key_index(attrs_view(attrs@), k@) == -1 ==> forall|j: int|
                0 <= j < attrs@.len() ==> (#[trigger] attrs_view(attrs@)[j]).0 != k@,
            key_index(attrs_view(attrs@), k@) >= 0 ==> attrs_view(attrs@)[key_index(
                attrs_view(attrs@),
                k@,
            )].0 == k@,
            key_index(attrs_view(attrs@), k@) >= 0 ==> forall|j: int|
                0 <= j < key_index(attrs_view(attrs@), k@) ==> (#[trigger] attrs_view(
                    attrs@,
                )[j]).0 != k@,
        decreases attrs@.len() - i,
    {
        if attrs[i].0.eq(k) {
            proof {
                let acc = attrs_view(attrs@);
                let ki = key_index(acc, k@);
                assert(acc[i as int] == kv_view(attrs@[i as int]));
                assert(acc[i as int].0 == k@);
                if ki == -1 {
                    assert(acc[i as int].0 != k@);
                } else if ki < i {
                    assert(acc[ki].0 != k@);
                } else if ki > i {
                    assert(acc[i as int].0 != k@);
                }
            }
            return Option::Some(i);
        }
        i = i + 1;
    }
    proof {
        let acc = attrs_view(attrs@);
        let ki = key_index(acc, k@);
        if ki >= 0 {
            assert(acc[ki].0 == k@);
            assert(acc[ki].0 != k@);
        }
    }
    Option::None
}

/// Writes one attribute into a list, the last write winning.
fn put_attr(attrs: &mut Vec<(String, String)>, k: String, v: String)
    ensures
        attrs_view(final(attrs)@) == attrs_put(attrs_view(old(attrs)@), (k@, v@)),
{
    proof {
        lemma_attrs_view_index(old(attrs)@);
        lemma_key_index(attrs_view(old(attrs)@), k@);
    }
    let found = find_key(attrs, &k);
    match found {
        Option::None => {
            attrs.push((k, v));
            proof {
                lemma_attrs_view_index(attrs@);
                assert(attrs_view(attrs@) =~= attrs_view(old(attrs)@).push((k@, v@)));
            }
        },
        Option::Some(i) => {
            let ghost before = attrs@;
            attrs.remove(i);
            attrs.insert(i, (k, v));
            proof {
                broadcast use vstd::seq::group_seq_axioms;

                lemma_attrs_view_index(before);
                lemma_attrs_view_index(attrs@);
                assert(attrs@ =~= before.update(i as int, (k, v)));
                assert(attrs_view(attrs@) =~= attrs_view(before).update(i as int, (k@, v@)));
            }
        },
    }
}

/// Writes a pair list into an attribute mapping, in order.
fn fold_attrs(pairs: &Vec<(String, String)>) -> (out: Vec<(String, String)>)
    ensures
        attrs_view(out@) == attrs_fold(attrs_view(pairs@)),
{
    let mut out: Vec<(String, String)> = Vec::new();
    let mut i: usize = 0;
    proof {
        lemma_attrs_view_index(pairs@);
        assert(attrs_view(Seq::<(String, String)>::empty()) =~= Seq::<
            (Seq<char>, Seq<char>),
        >::empty());
        assert(attrs_view(pairs@).skip(0) =~= attrs_view(pairs@));
    }
    while i < pairs.len()
        invariant
            0 <= i <= pairs@.len(),
            attrs_view(pairs@).len() == pairs@.len(),
            forall|j: int|
                0 <= j < pairs@.len() ==> #[trigger] attrs_view(pairs@)[j] == kv_view(pairs@[j]),
            attrs_fold(attrs_view(pairs@)) == attrs_fold_from(
                attrs_view(out@),
                attrs_view(pairs@).skip(i as int),
            ),
        decreases pairs@.len() - i,
    {
        let k = pairs[i].0.clone();
        let v = pairs[i].1.clone();
        let ghost acc0 = attrs_view(out@);
        let ghost rem = attrs_view(pairs@).skip(i as int);
        put_attr(&mut out, k, v);
        proof {
            assert(rem[0] == kv_view(pairs@[i as int]));
            assert(rem.drop_first() =~= attrs_view(pairs@).skip(i as int + 1));
        }
        i = i + 1;
    }
    proof {
        assert(attrs_view(pairs@).skip(pairs@.len() as int) =~= Seq::<
            (Seq<char>, Seq<char>),
        >::empty());
    }
    out
}

// ---------------------------------------------------------------------------
// Line tags
// ---------------------------------------------------------------------------

/// The raw attribute pairs from the given position: `key=value` pairs
/// separated by runs of blanks (whitespace short of the line feed). A blank
/// run before a failed pair stays consumed; an immediate failure yields the
/// empty list.
pub open spec fn spec_attrs(s: Seq<char>, pos: int) -> (Seq<(Seq<char>, Seq<char>)>, int)
    decreases s.len() - pos,
{
    if !(0 <= pos <= s.len()) {
        (Seq::empty(), pos)
    } else {
        let o = spec_kv_step(s, pos);
        match o.res {
            Result::Err(_) => (Seq::empty(), pos),
            Result::Ok(kvv) => if pos < o.end <= s.len() {
                let b = run_end(s, o.end, CharClass::Blank);
                if o.end <= b <= s.len() {
                    let rest = spec_attrs(s, b);
                    (seq![kvv] + rest.0, rest.1)
                } else {
                    (seq![kvv], o.end)
                }
            } else {
                (Seq::empty(), pos)
            },
        }
    }
}

/// Parses the raw attribute pairs from the given position.
fn parse_attrs(input: &Vec<char>, pos: usize) -> (r: (Vec<(String, String)>, usize))
    requires
        pos <= input@.len(),
    ensures
        spec_attrs(input@, pos as int) == (attrs_view(r.0@), r.1 as int),
        pos <= r.1 <= input@.len(),
    decreases input@.len() - pos,
{
    let mut kvpos = pos;
    let kv = parse_key_value(input, &mut kvpos);
    match kv {
        Result::Err(_) => {
            let out: Vec<(String, String)> = Vec::new();
            proof {
                assert(attrs_view(out@) =~= Seq::<(Seq<char>, Seq<char>)>::empty());
            }
            (out, pos)
        },
        Result::Ok((k, v)) => {
            if kvpos > pos {
                let blank = CharClass::Blank;
                let b = scan_run(input, kvpos, &blank);
                proof {
                    lemma_run_end(input@, kvpos as int, CharClass::Blank);
                }
                let rest = parse_attrs(input, b);
                let mut out = rest.0;
                out.insert(0, (k, v));
                proof {
                    lemma_attrs_view_index(rest.0@);
                    lemma_attrs_view_index(out@);
                    assert(attrs_view(out@) =~= seq![(k@, v@)] + attrs_view(rest.0@));
                }
                (out, rest.1)
            } else {
                let out: Vec<(String, String)> = Vec::new();
                proof {
                    assert(attrs_view(out@) =~= Seq::<(Seq<char>, Seq<char>)>::empty());
                }
                (out, pos)
            }
        },
    }
}

/// A line tag: `@`, an alphanumeric name, and blank-separated `key=value`
/// pairs folded into an attribute mapping, the last write winning. A failed
/// tag restores the cursor.
pub open spec fn spec_line_tag_step(s: Seq<char>, pos: int) -> Step<TokenV> {
    if !(0 <= pos < s.len()) {
        Step { res: Result::Err(ParsecErrorKind::UnexpectedEOF), end: pos }
    } else if s[pos] != '@' {
        Step { res: Result::Err(ParsecErrorKind::UnexpectedChar(s[pos])), end: pos }
    } else {
        let w = run_end(s, pos + 1, CharClass::AlphaNum);
        if w == pos + 1 {
            Step { res: Result::Err(eof_or_char(s, pos + 1)), end: pos }
        } else if !(w <= s.len()) {
            Step { res: Result::Err(ParsecErrorKind::UnexpectedEOF), end: pos }
        } else {
            let b0 = run_end(s, w, CharClass::Blank);
            if w <= b0 <= s.len() {
                let a = spec_attrs(s, b0);
                Step {
                    res: Result::Ok(
                        TokenV::Tag(
                            TagV { name: s.subrange(pos + 1, w), attrs: attrs_fold(a.0) },
                        ),
                    ),
                    end: a.1,
                }
            } else {
                Step { res: Result::Err(ParsecErrorKind::UnexpectedEOF), end: pos }
            }
        }
    }
}

/// Parses a line tag.
pub fn parse_line_tag(input: &Vec<char>, pos: &mut usize) -> (r: Result<Token, ParsecError>)
    requires
        *old(pos) <= input@.len(),
    ensures
        token_step_matches(r, *final(pos) as int, spec_line_tag_step(input@, *old(pos) as int)),
        *final(pos) <= input@.len(),
{
    let start = *pos;
    if start >= input.len() {
        return Result::Err(ParsecError { msg: ParsecErrorKind::UnexpectedEOF });
    }
    if input[start] != '@' {
        return Result::Err(ParsecError { msg: ParsecErrorKind::UnexpectedChar(input[start]) });
    }
    let alnum = CharClass::AlphaNum;
    let w = scan_run(input, start + 1, &alnum);
    if w == start + 1 {
        if start + 1 >= input.len() {
            return Result::Err(ParsecError { msg: ParsecErrorKind::UnexpectedEOF });
        }
        return Result::Err(
            ParsecError { msg: ParsecErrorKind::UnexpectedChar(input[start + 1]) },
        );
    }
    let blank = CharClass::Blank;
    let b0 = scan_run(input, w, &blank);
    let a = parse_attrs(input, b0);
    let name = take_range(input, start + 1, w);
    let attributes = fold_attrs(&a.0);
    *pos = a.1;
    Result::Ok(Token::Tag(Tag { name, attributes }))
}

// ---------------------------------------------------------------------------
// Inline tags
// ---------------------------------------------------------------------------

/// The split separator inside an inline tag.
pub open spec fn space_sep() -> Seq<char> {
    seq![' ']
}

/// The key/value separator inside an inline tag attribute.
pub open spec fn eq_sep() -> Seq<char> {
    seq!['=']
}

/// The character that ends inline tag content.
pub open spec fn bracket_excl() -> Seq<char> {
    seq![']']
}

fn space_sep_vec() -> (v: Vec<char>)
    ensures
        v@ == space_sep(),
{
    let mut v: Vec<char> = Vec::new();
    v.push(' ');
    proof {
        assert(v@ =~= space_sep());
    }
    v
}

fn eq_sep_vec() -> (v: Vec<char>)
    ensures
        v@ == eq_sep(),
{
    let mut v: Vec<char> = Vec::new();
    v.push('=');
    proof {
        assert(v@ =~= eq_sep());
    }
    v
}

fn bracket_excl_vec() -> (v: Vec<char>)
    ensures
        v@ == bracket_excl(),
{
    let mut v: Vec<char> = Vec::new();
    v.push(']');
    proof {
        assert(v@ =~= bracket_excl());
    }
    v
}

/// The pieces of the characters from `from` on, split on single spaces;
/// adjacent spaces give empty pieces.
pub open spec fn split_from(cs: Seq<char>, from: int) -> Seq<Seq<char>>
    decreases cs.len() - from,
{
    if !(0 <= from <= cs.len()) {
        Seq::empty()
    } else {
        let idx = excl_run_end(cs, from, space_sep());
        if from <= idx <= cs.len() {
            if idx >= cs.len() {
                seq![cs.subrange(from, cs.len() as int)]
            } else {
                seq![cs.subrange(from, idx)] + split_from(cs, idx + 1)
            }
        } else {
            Seq::empty()
        }
    }
}

/// A list of strings read as character sequences.
pub open spec fn strings_view(v: Seq<String>) -> Seq<Seq<char>>
    decreases v,
{
    if v.len() == 0 {
        Seq::empty()
    } else {
        seq![v[0]@] + strings_view(v.drop_first())
    }
}

/// The view of a string list has the same length and views each string.
pub proof fn lemma_strings_view_index(v: Seq<String>)
    ensures
        strings_view(v).len() == v.len(),
        forall|i: int| 0 <= i < v.len() ==> strings_view(v)[i] == v[i]@,
    decreases v,
{
    if v.len() > 0 {
        lemma_strings_view_index(v.drop_first());
        assert(forall|i: int| 0 < i < v.len() ==> v.drop_first()[i - 1] == v[i]);
    }
}

/// Splits characters on single spaces into strings.
fn split_spaces(cv: &Vec<char>, from: usize) -> (parts: Vec<String>)
    requires
        from <= cv@.len(),
    ensures
        strings_view(parts@) == split_from(cv@, from as int),
    decreases cv@.len() - from,
{
    let seps = space_sep_vec();
    let idx = scan_excl(cv, from, &seps);
    if idx >= cv.len() {
        let piece = take_range(cv, from, cv.len());
        let mut parts: Vec<String> = Vec::new();
        parts.push(piece);
        proof {
            lemma_strings_view_index(parts@);
            assert(strings_view(parts@) =~= split_from(cv@, from as int));
        }
        parts
    } else {
        let piece = take_range(cv, from, idx);
        let rest = split_spaces(cv, idx + 1);
        let ghost rest_snap = rest@;
        let mut parts = rest;
        parts.insert(0, piece);
        proof {
            lemma_strings_view_index(rest_snap);
            lemma_strings_view_index(parts@);
            assert(strings_view(parts@) =~= seq![cv@.subrange(from as int, idx as int)]
                + strings_view(rest_snap));
        }
        parts
    }
}

/// A valid tag name: non-empty, with no whitespace and no full-width
/// ideographic space.
pub open spec fn valid_name(name: Seq<char>) -> bool {
    &&& name.len() > 0
    &&& forall|i: int|
        0 <= i < name.len() ==> !(whitespace_char(#[trigger] name[i]) || name[i] == '\u{3000}')
}

/// The attribute pairs of inline tag pieces: each piece splits on its first
/// `=` into a key and, up to a second `=`, a value; a piece without `=` is
/// malformed and yields nothing.
pub open spec fn spec_lift_attrs(parts: Seq<Seq<char>>) -> Option<Seq<(Seq<char>, Seq<char>)>>
    decreases parts,
{
    if parts.len() == 0 {
        Option::Some(Seq::empty())
    } else {
        let part = parts[0];
        let eq1 = excl_run_end(part, 0, eq_sep());
        if !(0 <= eq1 < part.len()) {
            Option::None
        } else {
            let eq2 = excl_run_end(part, eq1 + 1, eq_sep());
            if eq1 + 1 <= eq2 <= part.len() {
                match spec_lift_attrs(parts.drop_first()) {
                    Option::None => Option::None,
                    Option::Some(t) => Option::Some(
                        seq![(part.subrange(0, eq1), part.subrange(eq1 + 1, eq2))] + t,
                    ),
                }
            } else {
                Option::None
            }
        }
    }
}

/// Lifting inline tag pieces into a tag: the first piece is the name, which
/// must be valid; the rest are attribute pairs folded into a mapping, the
/// last write winning.
pub open spec fn spec_lift_parts(parts: Seq<Seq<char>>) -> Option<TagV> {
    if parts.len() == 0 {
        Option::None
    } else if !valid_name(parts[0]) {
        Option::None
    } else {
        match spec_lift_attrs(parts.drop_first()) {
            Option::None => Option::None,
            Option::Some(pairs) => Option::Some(
                TagV { name: parts[0], attrs: attrs_fold(pairs) },
            ),
        }
    }
}

/// Whether a name is valid, decided by scanning it.
fn check_name(name: &String) -> (b: bool)
    ensures
        b == valid_name(name@),
{
    let cs = to_chars(name.as_str());
    if cs.len() == 0 {
        return false;
    }
    let wide = CharClass::WideSpace;
    let mut i: usize = 0;
    while i < cs.len()
        invariant
            wide == CharClass::WideSpace,
            cs@ == name@,
            0 <= i <= cs@.len(),
            forall|j: int|
                0 <= j < i ==> !(whitespace_char(#[trigger] cs@[j]) || cs@[j] == '\u{3000}'),
        decreases cs@.len() - i,
    {
        if class_matches(&wide, cs[i]) {
            return false;
        }
        i = i + 1;
    }
    true
}

/// Lifts split inline tag pieces into a tag token: the first piece names
/// the tag, the rest are `key=value` pairs.
pub fn lift_tag(v: &Vec<String>) -> (r: Option<Token>)
    ensures
        ({
            let o = spec_lift_parts(strings_view(v@));
            match (r, o) {
                (Option::Some(t), Option::Some(tv)) => token_view(t) == TokenV::Tag(tv),
                (Option::None, Option::None) => true,
                _ => false,
            }
        }),
{
    proof {
        lemma_strings_view_index(v@);
    }
    if v.len() == 0 {
        return Option::None;
    }
    let name = v[0].clone();
    if !check_name(&name) {
        return Option::None;
    }
    let eqs = eq_sep_vec();
    let mut pairs: Vec<(String, String)> = Vec::new();
    let mut i: usize = 1;
    let ghost all = strings_view(v@).drop_first();
    proof {
        assert(attrs_view(pairs@) =~= Seq::<(Seq<char>, Seq<char>)>::empty());
        assert(all.skip(0) =~= all);
    }
    while i < v.len()
        invariant
            eqs@ == eq_sep(),
            1 <= i <= v@.len(),
            v@.len() > 0,
            all == strings_view(v@).drop_first(),
            strings_view(v@).len() == v@.len(),
            forall|j: int| 0 <= j < v@.len() ==> strings_view(v@)[j] == v@[j]@,
            ({
                let o = spec_lift_attrs(all);
                let t = spec_lift_attrs(all.skip(i - 1));
                match t {
                    Option::None => o is None,
                    Option::Some(tail) => o == Option::Some(attrs_view(pairs@) + tail),
                }
            }),
        decreases v@.len() - i,
    {
        proof {
            assert(all[i - 1] == strings_view(v@)[i as int]);
            assert(all.skip(i - 1)[0] == all[i - 1]);
            assert(all.skip(i - 1).drop_first() =~= all.skip(i as int));
        }
        let pc = to_chars(v[i].as_str());
        let eq1 = scan_excl(&pc, 0, &eqs);
        if eq1 >= pc.len() {
            return Option::None;
        }
        let eq2 = scan_excl(&pc, eq1 + 1, &eqs);
        let key = take_range(&pc, 0, eq1);
        let value = take_range(&pc, eq1 + 1, eq2);
        let ghost pairs_snap = pairs@;
        pairs.push((key, value));
        proof {
            lemma_attrs_view_index(pairs_snap);
            lemma_attrs_view_index(pairs@);
            assert(attrs_view(pairs@) =~= attrs_view(pairs_snap).push(
                (pc@.subrange(0, eq1 as int), pc@.subrange(eq1 as int + 1, eq2 as int)),
            ));
            assert(forall|tail: Seq<(Seq<char>, Seq<char>)>|
                attrs_view(pairs_snap) + (seq![
                    (pc@.subrange(0, eq1 as int), pc@.subrange(eq1 as int + 1, eq2 as int)),
                ] + tail) =~= attrs_view(pairs@) + tail);
        }
        i = i + 1;
    }
    proof {
        assert(all.skip(v@.len() - 1) =~= Seq::<Seq<char>>::empty());
        assert(attrs_view(pairs@) + Seq::<(Seq<char>, Seq<char>)>::empty() =~= attrs_view(
            pairs@,
        ));
    }
    let attributes = fold_attrs(&pairs);
    Option::Some(Token::Tag(Tag { name, attributes }))
}

/// An inline tag: `[`, a non-empty content run without `]`, and the closing
/// `]` confirmed by lookahead only: the bracket itself is left for the
/// token-stream delimiter to consume. The content splits on single spaces
/// into the name and its attribute pairs; malformed content fails the tag.
/// A failed tag restores the cursor.
pub open spec fn spec_inline_step(s: Seq<char>, pos: int) -> Step<TokenV> {
    if !(0 <= pos < s.len()) {
        Step { res: Result::Err(ParsecErrorKind::UnexpectedEOF), end: pos }
    } else if s[pos] != '[' {
        Step { res: Result::Err(ParsecErrorKind::UnexpectedChar(s[pos])), end: pos }
    } else {
        let c = excl_run_end(s, pos + 1, bracket_excl());
        if c == pos + 1 {
            Step { res: Result::Err(eof_or_char(s, pos + 1)), end: pos }
        } else if c >= s.len() {
            Step { res: Result::Err(ParsecErrorKind::UnexpectedEOF), end: pos }
        } else {
            match spec_lift_parts(split_from(s.subrange(pos + 1, c), 0)) {
                Option::None => Step {
                    res: Result::Err(ParsecErrorKind::UnexpectedChar('[')),
                    end: pos,
                },
                Option::Some(tv) => Step { res: Result::Ok(TokenV::Tag(tv)), end: c },
            }
        }
    }
}

/// The characters of a range of the input.
fn take_chars(input: &Vec<char>, a: usize, b: usize) -> (cv: Vec<char>)
    requires
        a <= b <= input@.len(),
    ensures
        cv@ == input@.subrange(a as int, b as int),
{
    let mut cs: Vec<char> = Vec::new();
    let mut i: usize = a;
    while i < b
        invariant
            a <= i <= b <= input@.len(),
            cs@ == input@.subrange(a as int, i as int),
        decreases b - i,
    {
        cs.push(input[i]);
        proof {
            assert(cs@ =~= input@.subrange(a as int, i as int + 1));
        }
        i = i + 1;
    }
    cs
}

/// Parses an inline tag.
pub fn parse_inlined_tag(input: &Vec<char>, pos: &mut usize) -> (r: Result<Token, ParsecError>)
    requires
        *old(pos) <= input@.len(),
    ensures
        token_step_matches(r, *final(pos) as int, spec_inline_step(input@, *old(pos) as int)),
        *final(pos) <= input@.len(),
{
    let start = *pos;
    if start >= input.len() {
        return Result::Err(ParsecError { msg: ParsecErrorKind::UnexpectedEOF });
    }
    if input[start] != '[' {
        return Result::Err(ParsecError { msg: ParsecErrorKind::UnexpectedChar(input[start]) });
    }
    let brackets = bracket_excl_vec();
    let c = scan_excl(input, start + 1, &brackets);
    if c == start + 1 {
        if start + 1 >= input.len() {
            return Result::Err(ParsecError { msg: ParsecErrorKind::UnexpectedEOF });
        }
        return Result::Err(
            ParsecError { msg: ParsecErrorKind::UnexpectedChar(input[start + 1]) },
        );
    }
    if c >= input.len() {
        return Result::Err(ParsecError { msg: ParsecErrorKind::UnexpectedEOF });
    }
    let cv = take_chars(input, start + 1, c);
    let parts = split_spaces(&cv, 0);
    match lift_tag(&parts) {
        Option::None => Result::Err(ParsecError { msg: ParsecErrorKind::UnexpectedChar('[') }),
        Option::Some(t) => {
            *pos = c;
            Result::Ok(t)
        },
    }
}

/// A line tag's name is a non-empty run of alphanumeric characters.
pub proof fn lemma_line_tag_name(s: Seq<char>, pos: int)
    requires
        0 <= pos <= s.len(),
        spec_line_tag_step(s, pos).res is Ok,
    ensures
        spec_line_tag_step(s, pos).res->Ok_0 is Tag,
        spec_line_tag_step(s, pos).res->Ok_0->Tag_0.name.len() > 0,
        forall|i: int|
            0 <= i < spec_line_tag_step(s, pos).res->Ok_0->Tag_0.name.len()
                ==> crate::parsec::combinator::alphanumeric_char(
                #[trigger] spec_line_tag_step(s, pos).res->Ok_0->Tag_0.name[i],
            ),
{
    let w = run_end(s, pos + 1, CharClass::AlphaNum);
    lemma_run_end(s, pos + 1, CharClass::AlphaNum);
}

/// An inline tag's name is non-empty and holds no whitespace.
pub proof fn lemma_inline_name(s: Seq<char>, pos: int)
    requires
        0 <= pos <= s.len(),
        spec_inline_step(s, pos).res is Ok,
    ensures
        spec_inline_step(s, pos).res->Ok_0 is Tag,
        valid_name(spec_inline_step(s, pos).res->Ok_0->Tag_0.name),
{
}

// ---------------------------------------------------------------------------
// Narration text
// ---------------------------------------------------------------------------

/// One text rune: `[[`, `]]` and `@@` decode to the literal bracket or at
/// sign; any single character other than the raw `@`, `[`, `]` stands for
/// itself; the raw control characters end the text. A failed rune restores
/// the cursor, and the error it reports is the one the last alternative, the
/// `@@` escape, leaves.
pub open spec fn spec_rune_step(s: Seq<char>, pos: int) -> Step<char> {
    if !(0 <= pos < s.len()) {
        Step { res: Result::Err(ParsecErrorKind::UnexpectedEOF), end: pos }
    } else if s[pos] == '[' {
        if pos + 1 < s.len() && s[pos + 1] == '[' {
            Step { res: Result::Ok('['), end: pos + 2 }
        } else {
            Step { res: Result::Err(ParsecErrorKind::UnexpectedChar('[')), end: pos }
        }
    } else if s[pos] == ']' {
        if pos + 1 < s.len() && s[pos + 1] == ']' {
            Step { res: Result::Ok(']'), end: pos + 2 }
        } else {
            Step { res: Result::Err(ParsecErrorKind::UnexpectedChar(']')), end: pos }
        }
    } else if s[pos] == '@' {
        if pos + 1 < s.len() && s[pos + 1] == '@' {
            Step { res: Result::Ok('@'), end: pos + 2 }
        } else if pos + 1 < s.len() {
            Step { res: Result::Err(ParsecErrorKind::UnexpectedChar(s[pos + 1])), end: pos }
        } else {
            Step { res: Result::Err(ParsecErrorKind::UnexpectedEOF), end: pos }
        }
    } else {
        Step { res: Result::Ok(s[pos]), end: pos + 1 }
    }
}

/// Parses one text rune.
pub fn parse_text_rune(input: &Vec<char>, pos: &mut usize) -> (r: Result<char, ParsecError>)
    requires
        *old(pos) <= input@.len(),
    ensures
        ({
            let o = spec_rune_step(input@, *old(pos) as int);
            &&& *final(pos) as int == o.end
            &&& match (r, o.res) {
                (Result::Ok(c), Result::Ok(sc)) => c == sc,
                (Result::Err(e), Result::Err(k)) => e.msg == k,
                _ => false,
            }
        }),
        *final(pos) <= input@.len(),
{
    let start = *pos;
    if start >= input.len() {
        return Result::Err(ParsecError { msg: ParsecErrorKind::UnexpectedEOF });
    }
    let c = input[start];
    if c == '[' || c == ']' {
        if start + 1 < input.len() && input[start + 1] == c {
            *pos = start + 2;
            Result::Ok(c)
        } else {
            Result::Err(ParsecError { msg: ParsecErrorKind::UnexpectedChar(c) })
        }
    } else if c == '@' {
        if start + 1 < input.len() && input[start + 1] == '@' {
            *pos = start + 2;
            Result::Ok('@')
        } else if start + 1 < input.len() {
            Result::Err(ParsecError { msg: ParsecErrorKind::UnexpectedChar(input[start + 1]) })
        } else {
            Result::Err(ParsecError { msg: ParsecErrorKind::UnexpectedEOF })
        }
    } else {
        *pos = start + 1;
        Result::Ok(c)
    }
}

/// The decoded characters of the maximal rune run from the given position.
pub open spec fn spec_text_chars(s: Seq<char>, pos: int) -> (Seq<char>, int)
    decreases s.len() - pos,
{
    if !(0 <= pos <= s.len()) {
        (Seq::empty(), pos)
    } else {
        let o = spec_rune_step(s, pos);
        match o.res {
            Result::Err(_) => (Seq::empty(), pos),
            Result::Ok(c) => if pos < o.end <= s.len() {
                let rest = spec_text_chars(s, o.end);
                (seq![c] + rest.0, rest.1)
            } else {
                (Seq::empty(), pos)
            },
        }
    }
}

/// Decodes the maximal rune run from the given position.
fn text_chars(input: &Vec<char>, pos: usize) -> (r: (Vec<char>, usize))
    requires
        pos <= input@.len(),
    ensures
        spec_text_chars(input@, pos as int) == (r.0@, r.1 as int),
        pos <= r.1 <= input@.len(),
    decreases input@.len() - pos,
{
    let mut rp = pos;
    let rune = parse_text_rune(input, &mut rp);
    match rune {
        Result::Err(_) => {
            let out: Vec<char> = Vec::new();
            proof {
                assert(out@ =~= Seq::<char>::empty());
            }
            (out, pos)
        },
        Result::Ok(c) => {
            if rp > pos {
                let rest = text_chars(input, rp);
                let mut out = rest.0;
                out.insert(0, c);
                proof {
                    assert(out@ =~= seq![c] + spec_text_chars(input@, rp as int).0);
                }
                (out, rest.1)
            } else {
                let out: Vec<char> = Vec::new();
                proof {
                    assert(out@ =~= Seq::<char>::empty());
                }
                (out, pos)
            }
        },
    }
}

/// A text token: one or more runes, decoded and concatenated; the first
/// rune's failure is the text's failure, with the cursor restored.
pub open spec fn spec_text_step(s: Seq<char>, pos: int) -> Step<TokenV> {
    let o = spec_rune_step(s, pos);
    match o.res {
        Result::Err(k) => Step { res: Result::Err(k), end: pos },
        Result::Ok(_) => {
            let t = spec_text_chars(s, pos);
            Step { res: Result::Ok(TokenV::Text(t.0)), end: t.1 }
        },
    }
}

/// Parses a text token.
pub fn parse_text(input: &Vec<char>, pos: &mut usize) -> (r: Result<Token, ParsecError>)
    requires
        *old(pos) <= input@.len(),
    ensures
        token_step_matches(r, *final(pos) as int, spec_text_step(input@, *old(pos) as int)),
        *final(pos) <= input@.len(),
{
    let mut rp = *pos;
    let rune = parse_text_rune(input, &mut rp);
    match rune {
        Result::Err(e) => Result::Err(e),
        Result::Ok(_) => {
            let t = text_chars(input, *pos);
            *pos = t.1;
            Result::Ok(Token::Text(chars_to_string(&t.0)))
        },
    }
}

// ---------------------------------------------------------------------------
// Tokens and the document
// ---------------------------------------------------------------------------

/// The next token: leading whitespace and line endings are skipped, and the
/// alternatives are tried in order: label, line tag, inline tag, text. The
/// first to succeed wins; when all fail, the text's error surfaces and the
/// cursor is restored.
pub open spec fn spec_token_step(s: Seq<char>, pos: int) -> Step<TokenV> {
    if !(0 <= pos <= s.len()) {
        Step { res: Result::Err(ParsecErrorKind::UnexpectedEOF), end: pos }
    } else {
        let w = run_end(s, pos, CharClass::WideSpace);
        if !(pos <= w <= s.len()) {
            Step { res: Result::Err(ParsecErrorKind::UnexpectedEOF), end: pos }
        } else {
            let lab = spec_label_step(s, w);
            if lab.res is Ok {
                lab
            } else {
                let lt = spec_line_tag_step(s, w);
                if lt.res is Ok {
                    lt
                } else {
                    let it = spec_inline_step(s, w);
                    if it.res is Ok {
                        it
                    } else {
                        let tx = spec_text_step(s, w);
                        match tx.res {
                            Result::Ok(_) => tx,
                            Result::Err(k) => Step { res: Result::Err(k), end: pos },
                        }
                    }
                }
            }
        }
    }
}

/// Parses the next token.
pub fn parse_token(input: &Vec<char>, pos: &mut usize) -> (r: Result<Token, ParsecError>)
    requires
        *old(pos) <= input@.len(),
    ensures
        token_step_matches(r, *final(pos) as int, spec_token_step(input@, *old(pos) as int)),
        *final(pos) <= input@.len(),
{
    let wide = CharClass::WideSpace;
    let w = scan_run(input, *pos, &wide);
    let mut p1 = w;
    let lab = parse_label(input, &mut p1);
    if let Result::Ok(t) = lab {
        *pos = p1;
        return Result::Ok(t);
    }
    let mut p2 = w;
    let lt = parse_line_tag(input, &mut p2);
    if let Result::Ok(t) = lt {
        *pos = p2;
        return Result::Ok(t);
    }
    let mut p3 = w;
    let it = parse_inlined_tag(input, &mut p3);
    if let Result::Ok(t) = it {
        *pos = p3;
        return Result::Ok(t);
    }
    let mut p4 = w;
    let tx = parse_text(input, &mut p4);
    match tx {
        Result::Ok(t) => {
            *pos = p4;
            Result::Ok(t)
        },
        Result::Err(e) => Result::Err(e),
    }
}

/// The token-stream delimiter: a line ending (CRLF or LF), or a zero-width
/// lookahead at `@` or `[` letting the next token start immediately, or a
/// single `]` consumed outright to close a pending inline tag.
pub open spec fn spec_delim_step(s: Seq<char>, pos: int) -> Step<()> {
    if !(0 <= pos < s.len()) {
        Step { res: Result::Err(ParsecErrorKind::UnexpectedEOF), end: pos }
    } else if s[pos] == '\r' {
        if pos + 1 < s.len() && s[pos + 1] == '\n' {
            Step { res: Result::Ok(()), end: pos + 2 }
        } else {
            Step { res: Result::Err(ParsecErrorKind::UnexpectedChar('\r')), end: pos }
        }
    } else if s[pos] == '\n' {
        Step { res: Result::Ok(()), end: pos + 1 }
    } else if s[pos] == '@' || s[pos] == '[' {
        Step { res: Result::Ok(()), end: pos }
    } else if s[pos] == ']' {
        Step { res: Result::Ok(()), end: pos + 1 }
    } else {
        Step { res: Result::Err(ParsecErrorKind::UnexpectedChar(s[pos])), end: pos }
    }
}

/// Parses one token-stream delimiter.
pub fn parse_delimiter(input: &Vec<char>, pos: &mut usize) -> (r: Result<(), ParsecError>)
    requires
        *old(pos) <= input@.len(),
    ensures
        ({
            let o = spec_delim_step(input@, *old(pos) as int);
            &&& *final(pos) as int == o.end
            &&& match (r, o.res) {
                (Result::Ok(_), Result::Ok(_)) => true,
                (Result::Err(e), Result::Err(k)) => e.msg == k,
                _ => false,
            }
        }),
        *final(pos) <= input@.len(),
{
    let start = *pos;
    if start >= input.len() {
        return Result::Err(ParsecError { msg: ParsecErrorKind::UnexpectedEOF });
    }
    let c = input[start];
    if c == '\r' {
        if start + 1 < input.len() && input[start + 1] == '\n' {
            *pos = start + 2;
            Result::Ok(())
        } else {
            Result::Err(ParsecError { msg: ParsecErrorKind::UnexpectedChar('\r') })
        }
    } else if c == '\n' {
        *pos = start + 1;
        Result::Ok(())
    } else if c == '@' || c == '[' {
        Result::Ok(())
    } else if c == ']' {
        *pos = start + 1;
        Result::Ok(())
    } else {
        Result::Err(ParsecError { msg: ParsecErrorKind::UnexpectedChar(c) })
    }
}

/// The tokens after a first token: delimiter and token in turn; a committed
/// delimiter stays consumed when the token after it fails.
pub open spec fn spec_tokens_rest(s: Seq<char>, pos: int) -> (Seq<TokenV>, int)
    decreases s.len() - pos,
{
    if !(0 <= pos <= s.len()) {
        (Seq::empty(), pos)
    } else {
        let d = spec_delim_step(s, pos);
        match d.res {
            Result::Err(_) => (Seq::empty(), pos),
            Result::Ok(_) => if pos <= d.end <= s.len() {
                let t = spec_token_step(s, d.end);
                match t.res {
                    Result::Err(_) => (Seq::empty(), d.end),
                    Result::Ok(tok) => if pos < t.end <= s.len() {
                        let rest = spec_tokens_rest(s, t.end);
                        (seq![tok] + rest.0, rest.1)
                    } else {
                        (Seq::empty(), d.end)
                    },
                }
            } else {
                (Seq::empty(), pos)
            },
        }
    }
}

/// The document: tokens separated by delimiters, repeated as far as they
/// reach; never fails by itself.
pub open spec fn spec_tokens(s: Seq<char>, pos: int) -> (Seq<TokenV>, int)
    decreases s.len() - pos,
{
    if !(0 <= pos <= s.len()) {
        (Seq::empty(), pos)
    } else {
        let t = spec_token_step(s, pos);
        match t.res {
            Result::Err(_) => (Seq::empty(), pos),
            Result::Ok(tok) => if pos < t.end <= s.len() {
                let rest = spec_tokens_rest(s, t.end);
                (seq![tok] + rest.0, rest.1)
            } else {
                (Seq::empty(), pos)
            },
        }
    }
}

/// Parses the tokens after a first token.
fn tokens_rest(input: &Vec<char>, pos: usize) -> (r: (Vec<Token>, usize))
    requires
        pos <= input@.len(),
    ensures
        spec_tokens_rest(input@, pos as int) == (tokens_view(r.0@), r.1 as int),
        pos <= r.1 <= input@.len(),
    decreases input@.len() - pos,
{
    let mut dp = pos;
    let d = parse_delimiter(input, &mut dp);
    match d {
        Result::Err(_) => {
            let out: Vec<Token> = Vec::new();
            proof {
                assert(tokens_view(out@) =~= Seq::<TokenV>::empty());
            }
            (out, pos)
        },
        Result::Ok(_) => {
            let mut tp = dp;
            let t = parse_token(input, &mut tp);
            match t {
                Result::Err(_) => {
                    let out: Vec<Token> = Vec::new();
                    proof {
                        assert(tokens_view(out@) =~= Seq::<TokenV>::empty());
                    }
                    (out, dp)
                },
                Result::Ok(tok) => {
                    if tp > pos {
                        let rest = tokens_rest(input, tp);
                        let ghost rest_snap = rest.0@;
                        let mut out = rest.0;
                        out.insert(0, tok);
                        proof {
                            lemma_tokens_view_index(rest_snap);
                            lemma_tokens_view_index(out@);
                            assert(tokens_view(out@) =~= seq![token_view(out@[0])]
                                + tokens_view(rest_snap));
                        }
                        (out, rest.1)
                    } else {
                        let out: Vec<Token> = Vec::new();
                        proof {
                            assert(tokens_view(out@) =~= Seq::<TokenV>::empty());
                        }
                        (out, dp)
                    }
                },
            }
        },
    }
}

/// Parses the whole document from the given position: tokens separated by
/// delimiters, as far as they reach. Never fails; the caller decides what
/// unconsumed input means.
pub fn parse_tokens(input: &Vec<char>, pos: &mut usize) -> (r: Result<Vec<Token>, ParsecError>)
    requires
        *old(pos) <= input@.len(),
    ensures
        r is Ok,
        ({
            let t = spec_tokens(input@, *old(pos) as int);
            tokens_view(r->Ok_0@) == t.0 && *final(pos) as int == t.1
        }),
        *old(pos) <= *final(pos) <= input@.len(),
{
    let mut tp = *pos;
    let t = parse_token(input, &mut tp);
    match t {
        Result::Err(_) => {
            let out: Vec<Token> = Vec::new();
            proof {
                assert(tokens_view(out@) =~= Seq::<TokenV>::empty());
            }
            Result::Ok(out)
        },
        Result::Ok(tok) => {
            if tp > *pos {
                let rest = tokens_rest(input, tp);
                let ghost rest_snap = rest.0@;
                let mut out = rest.0;
                out.insert(0, tok);
                proof {
                    lemma_tokens_view_index(rest_snap);
                    lemma_tokens_view_index(out@);
                    assert(tokens_view(out@) =~= seq![token_view(out@[0])] + tokens_view(
                        rest_snap,
                    ));
                }
                *pos = rest.1;
                Result::Ok(out)
            } else {
                let out: Vec<Token> = Vec::new();
                proof {
                    assert(tokens_view(out@) =~= Seq::<TokenV>::empty());
                }
                Result::Ok(out)
            }
        },
    }
}

/// The tokenization of a whole script: the document's tokens when, past
/// trailing whitespace, they cover the input; the first unconsumed
/// character's failure otherwise. No partial token sequence is ever handed
/// out.
pub open spec fn spec_parse_ks(s: Seq<char>) -> Result<Seq<TokenV>, ParsecErrorKind> {
    let t = spec_tokens(s, 0);
    if 0 <= t.1 <= s.len() {
        let q = run_end(s, t.1, CharClass::WideSpace);
        if q == s.len() {
            Result::Ok(t.0)
        } else {
            Result::Err(eof_or_char(s, q))
        }
    } else {
        Result::Err(ParsecErrorKind::UnexpectedEOF)
    }
}

/// The tail of the document parse never moves the cursor backwards or
/// outside the input.
pub proof fn lemma_tokens_rest_bounds(s: Seq<char>, pos: int)
    requires
        0 <= pos <= s.len(),
    ensures
        pos <= spec_tokens_rest(s, pos).1 <= s.len(),
    decreases s.len() - pos,
{
    let d = spec_delim_step(s, pos);
    if d.res is Ok && pos <= d.end <= s.len() {
        let t = spec_token_step(s, d.end);
        if t.res is Ok && pos < t.end <= s.len() {
            lemma_tokens_rest_bounds(s, t.end);
        }
    }
}

/// The document parse never moves the cursor backwards or outside the
/// input.
pub proof fn lemma_tokens_bounds(s: Seq<char>, pos: int)
    requires
        0 <= pos <= s.len(),
    ensures
        pos <= spec_tokens(s, pos).1 <= s.len(),
{
    let t = spec_token_step(s, pos);
    if t.res is Ok && pos < t.end <= s.len() {
        lemma_tokens_rest_bounds(s, t.end);
    }
}

/// Tokenization is all or nothing: the parse succeeds exactly when the
/// document's tokens, with trailing whitespace skipped, cover the whole
/// input, and what it hands out is then the full token sequence; a
/// malformed input is a failure, and no partial token sequence exists on
/// that path.
pub proof fn lemma_parse_ks_all_or_nothing(s: Seq<char>)
    ensures
        spec_parse_ks(s) is Ok <==> run_end(s, spec_tokens(s, 0).1, CharClass::WideSpace)
            == s.len(),
        spec_parse_ks(s) is Ok ==> spec_parse_ks(s)->Ok_0 == spec_tokens(s, 0).0,
{
    lemma_tokens_bounds(s, 0);
    lemma_run_end(s, spec_tokens(s, 0).1, CharClass::WideSpace);
}

/// Tokenizes a whole script held in memory.
pub fn parse_ks_string(input: &str) -> (r: Result<Vec<Token>, ParsecError>)
    ensures
        ({
            match (r, spec_parse_ks(input@)) {
                (Result::Ok(v), Result::Ok(tv)) => tokens_view(v@) == tv,
                (Result::Err(e), Result::Err(k)) => e.msg == k,
                _ => false,
            }
        }),
{
    let buf = to_chars(input);
    let mut pos: usize = 0;
    let toks = parse_tokens(&buf, &mut pos);
    let wide = CharClass::WideSpace;
    let q = scan_run(&buf, pos, &wide);
    if q == buf.len() {
        match toks {
            Result::Ok(v) => Result::Ok(v),
            Result::Err(e) => Result::Err(e),
        }
    } else {
        Result::Err(ParsecError { msg: ParsecErrorKind::UnexpectedChar(buf[q]) })
    }
}

} // verus!
