//! The playback state machine: walks the token sequence, accumulating the
//! displayed text and scene, and pauses at the page-break and line-break
//! tags until the player advances.

use vstd::prelude::*;
use vstd::string::StringExecFns;
use vstd::string::StrSliceExecFns;
use crate::interpreter::parser::Label;
use crate::interpreter::parser::LabelV;
use crate::interpreter::parser::Tag;
use crate::interpreter::parser::TagV;
use crate::interpreter::parser::Token;
use crate::interpreter::parser::TokenV;
use crate::interpreter::parser::attrs_view;
use crate::interpreter::parser::find_key;
use crate::interpreter::parser::key_index;
use crate::interpreter::parser::label_view;
use crate::interpreter::parser::lemma_attrs_view_index;
use crate::interpreter::parser::lemma_key_index;
use crate::interpreter::parser::lemma_strings_view_index;
use crate::interpreter::parser::lemma_tokens_view_index;
use crate::interpreter::parser::strings_view;
use crate::interpreter::parser::tag_view;
use crate::interpreter::parser::token_view;
use crate::interpreter::parser::tokens_view;

verus! {

/// The game state: the label reached, the music and scene handles, the
/// accumulated narration, the token the walk paused on, and the cursor into
/// the token sequence.
pub struct State {
    pub label: Label,
    pub music: String,
    pub scene: Vec<String>,
    pub text: Vec<String>,
    pub cur_token: Option<Token>,
    pub tokens: Vec<Token>,
    pub next: usize,
}

/// The mathematical shape of the game state.
pub struct StateM {
    pub label: LabelV,
    pub music: Seq<char>,
    pub scene: Seq<Seq<char>>,
    pub text: Seq<Seq<char>>,
    pub cur: Option<TokenV>,
    pub toks: Seq<TokenV>,
    pub next: int,
}

/// The game state read as sequences.
pub open spec fn state_view(s: State) -> StateM {
    StateM {
        label: label_view(s.label),
        music: s.music@,
        scene: strings_view(s.scene@),
        text: strings_view(s.text@),
        cur: match s.cur_token {
            Option::None => Option::None,
            Option::Some(t) => Option::Some(token_view(t)),
        },
        toks: tokens_view(s.tokens@),
        next: s.next as int,
    }
}

/// The cursor lies within the token sequence.
pub open spec fn state_wf(s: State) -> bool {
    s.next <= s.tokens@.len()
}

/// The scene change of a background tag: with a `file` attribute, the
/// single background becomes `/bgimage/<file>.png`; without one, the tag
/// changes nothing.
pub open spec fn spec_eval_bg(m: StateM, t: TagV) -> StateM {
    let i = key_index(t.attrs, "file"@);
    if i < 0 {
        m
    } else {
        let src = "/bgimage/"@ + t.attrs[i].1 + ".png"@;
        if m.scene.len() == 0 {
            StateM { scene: m.scene.push(src), ..m }
        } else {
            StateM { scene: m.scene.update(0, src), ..m }
        }
    }
}

/// What a tag does to the state, and whether the walk pauses: the
/// line-break and page-break tags pause, the background tag changes the
/// scene, and every other tag is ignored.
pub open spec fn spec_eval_tag(m: StateM, t: TagV) -> (StateM, bool) {
    if t.name == "lr"@ || t.name == "pg"@ {
        (m, true)
    } else if t.name == "bg"@ {
        (spec_eval_bg(m, t), false)
    } else {
        (m, false)
    }
}

/// What one token does to the state, and whether the walk pauses: a label
/// is recorded, a tag acts as [`spec_eval_tag`], and text is appended to
/// the narration.
pub open spec fn spec_eval_token(m: StateM, t: TokenV) -> (StateM, bool) {
    match t {
        TokenV::Label(l) => (StateM { label: l, ..m }, false),
        TokenV::Tag(g) => spec_eval_tag(m, g),
        TokenV::Text(x) => (StateM { text: m.text.push(x), ..m }, false),
    }
}

/// The walk: consume tokens in order, each recorded as the current token,
/// until a tag pauses it or the sequence ends.
pub open spec fn spec_eval(m: StateM) -> StateM
    decreases m.toks.len() - m.next,
{
    if !(0 <= m.next < m.toks.len()) {
        m
    } else {
        let tok = m.toks[m.next];
        let m1 = StateM { next: m.next + 1, cur: Option::Some(tok), ..m };
        let r = spec_eval_token(m1, tok);
        if r.1 {
            r.0
        } else {
            spec_eval(r.0)
        }
    }
}

/// Duplicates a token.
fn clone_token(t: &Token) -> (r: Token)
    ensures
        token_view(r) == token_view(*t),
{
    match t {
        Token::Label(l) => Token::Label(
            Label { label: l.label.clone(), heading: l.heading.clone() },
        ),
        Token::Text(x) => Token::Text(x.clone()),
        Token::Tag(g) => {
            let mut attributes: Vec<(String, String)> = Vec::new();
            let mut i: usize = 0;
            while i < g.attributes.len()
                invariant
                    0 <= i <= g.attributes@.len(),
                    attributes@.len() == i,
                    forall|j: int|
                        0 <= j < i ==> (#[trigger] attributes@[j]).0@ == g.attributes@[j].0@
                            && attributes@[j].1@ == g.attributes@[j].1@,
                decreases g.attributes@.len() - i,
            {
                let k = g.attributes[i].0.clone();
                let v = g.attributes[i].1.clone();
                attributes.push((k, v));
                i = i + 1;
            }
            proof {
                lemma_attrs_view_index(attributes@);
                lemma_attrs_view_index(g.attributes@);
                assert(attrs_view(attributes@) =~= attrs_view(g.attributes@));
            }
            Token::Tag(Tag { name: g.name.clone(), attributes })
        },
    }
}

impl State {
    /// Starts the playback over a token sequence: the walk runs until its
    /// first pause.
    pub fn new_from_tokens(tokens: Vec<Token>) -> (s: State)
        ensures
            state_wf(s),
            state_view(s) == spec_eval(
                StateM {
                    label: LabelV { label: Seq::empty(), heading: Seq::empty() },
                    music: Seq::empty(),
                    scene: Seq::empty(),
                    text: Seq::empty(),
                    cur: Option::None,
                    toks: tokens_view(tokens@),
                    next: 0,
                },
            ),
    {
        let mut s = State {
            label: Label { label: String::new(), heading: String::new() },
            music: String::new(),
            scene: Vec::new(),
            text: Vec::new(),
            cur_token: Option::None,
            tokens,
            next: 0,
        };
        proof {
            assert(strings_view(s.scene@) =~= Seq::<Seq<char>>::empty());
            assert(strings_view(s.text@) =~= Seq::<Seq<char>>::empty());
        }
        s.eval();
        s
    }

    /// Walks the token sequence until a tag pauses it or it ends.
    pub fn eval(&mut self)
        requires
            state_wf(*old(self)),
        ensures
            state_wf(*final(self)),
            state_view(*final(self)) == spec_eval(state_view(*old(self))),
        decreases old(self).tokens@.len() - old(self).next,
    {
        proof {
            lemma_tokens_view_index(self.tokens@);
        }
        if self.next >= self.tokens.len() {
            return ;
        }
        let tok = clone_token(&self.tokens[self.next]);
        let tok2 = clone_token(&tok);
        self.next = self.next + 1;
        self.cur_token = Option::Some(tok2);
        let stop = self.eval_token(tok);
        if !stop {
            self.eval();
        }
    }

    /// Applies one token to the state; yields whether the walk pauses.
    fn eval_token(&mut self, token: Token) -> (stop: bool)
        ensures
            state_view(*final(self)) == spec_eval_token(
                state_view(*old(self)),
                token_view(token),
            ).0,
            stop == spec_eval_token(state_view(*old(self)), token_view(token)).1,
            final(self).tokens == old(self).tokens,
            final(self).next == old(self).next,
            final(self).cur_token == old(self).cur_token,
    {
        match token {
            Token::Label(l) => {
                self.label = l;
                false
            },
            Token::Tag(tag) => self.eval_tag(tag),
            Token::Text(x) => {
                let ghost before = self.text@;
                self.text.push(x);
                proof {
                    lemma_strings_view_index(before);
                    lemma_strings_view_index(self.text@);
                    assert(strings_view(self.text@) =~= strings_view(before).push(
                        self.text@[before.len() as int]@,
                    ));
                }
                false
            },
        }
    }

    /// Applies one tag to the state; yields whether the walk pauses.
    fn eval_tag(&mut self, tag: Tag) -> (stop: bool)
        ensures
            state_view(*final(self)) == spec_eval_tag(state_view(*old(self)), tag_view(tag)).0,
            stop == spec_eval_tag(state_view(*old(self)), tag_view(tag)).1,
            final(self).tokens == old(self).tokens,
            final(self).next == old(self).next,
            final(self).cur_token == old(self).cur_token,
    {
        let lr = String::from_str("lr");
        let pg = String::from_str("pg");
        let bg = String::from_str("bg");
        if tag.name.eq(&lr) || tag.name.eq(&pg) {
            true
        } else if tag.name.eq(&bg) {
            self.eval_bg(tag)
        } else {
            false
        }
    }

    /// Applies a background tag: with a `file` attribute the single
    /// background becomes `/bgimage/<file>.png`; without one the tag
    /// changes nothing.
    fn eval_bg(&mut self, tag: Tag) -> (stop: bool)
        ensures
            state_view(*final(self)) == spec_eval_bg(state_view(*old(self)), tag_view(tag)),
            stop == false,
            final(self).tokens == old(self).tokens,
            final(self).next == old(self).next,
            final(self).cur_token == old(self).cur_token,
    {
        let file = String::from_str("file");
        let found = find_key(&tag.attributes, &file);
        match found {
            Option::None => false,
            Option::Some(i) => {
                proof {
                    lemma_key_index(attrs_view(tag.attributes@), file@);
                    lemma_attrs_view_index(tag.attributes@);
                }
                let mut src = String::from_str("/bgimage/");
                src.append(tag.attributes[i].1.as_str());
                src.append(".png");
                let ghost before = self.scene@;
                if self.scene.len() == 0 {
                    self.scene.push(src);
                    proof {
                        lemma_strings_view_index(before);
                        lemma_strings_view_index(self.scene@);
                        assert(strings_view(self.scene@) =~= strings_view(before).push(
                            self.scene@[before.len() as int]@,
                        ));
                    }
                } else {
                    self.scene.remove(0);
                    self.scene.insert(0, src);
                    proof {
                        broadcast use vstd::seq::group_seq_axioms;

                        lemma_strings_view_index(before);
                        lemma_strings_view_index(self.scene@);
                        assert(self.scene@ =~= before.update(0, self.scene@[0]));
                        assert(strings_view(self.scene@) =~= strings_view(before).update(
                            0,
                            self.scene@[0]@,
                        ));
                    }
                }
                false
            },
        }
    }

    /// Reacts to a player command: a mouse click or the enter key clears
    /// the page at a page break and walks on to the next pause; any other
    /// command does nothing.
    pub fn eval_cmd(&mut self, command: &str)
        requires
            state_wf(*old(self)),
        ensures
            state_wf(*final(self)),
            state_view(*final(self)) == spec_eval_cmd(state_view(*old(self)), command@),
    {
        let mouse = "MouseClick";
        let enter = "Enter";
        if str_eq(command, mouse) || str_eq(command, enter) {
            let pg = String::from_str("pg");
            let clear = match &self.cur_token {
                Option::Some(Token::Tag(t)) => t.name.eq(&pg),
                _ => false,
            };
            if clear {
                let ghost before = self.text@;
                self.text.clear();
                proof {
                    assert(strings_view(self.text@) =~= Seq::<Seq<char>>::empty());
                }
            }
            self.eval();
        }
    }

    /// How many narration lines are accumulated.
    pub fn render_text_len(&self) -> (n: usize)
        ensures
            n == state_view(*self).text.len(),
    {
        proof {
            lemma_strings_view_index(self.text@);
        }
        self.text.len()
    }

    /// One accumulated narration line.
    pub fn render_text(&self, i: usize) -> (r: String)
        requires
            i < state_view(*self).text.len(),
        ensures
            r@ == state_view(*self).text[i as int],
    {
        proof {
            lemma_strings_view_index(self.text@);
        }
        self.text[i].clone()
    }

    /// How many scene images are shown.
    pub fn render_image_len(&self) -> (n: usize)
        ensures
            n == state_view(*self).scene.len(),
    {
        proof {
            lemma_strings_view_index(self.scene@);
        }
        self.scene.len()
    }

    /// One scene image path.
    pub fn render_image(&self, i: usize) -> (r: String)
        requires
            i < state_view(*self).scene.len(),
        ensures
            r@ == state_view(*self).scene[i as int],
    {
        proof {
            lemma_strings_view_index(self.scene@);
        }
        self.scene[i].clone()
    }
}

/// What a player command does to the state: the advance commands clear the
/// page when paused at a page break and walk on; everything else is
/// ignored.
pub open spec fn spec_eval_cmd(m: StateM, cmd: Seq<char>) -> StateM {
    if cmd == "MouseClick"@ || cmd == "Enter"@ {
        let m1 = if m.cur matches Option::Some(TokenV::Tag(t)) && t.name == "pg"@ {
            StateM { text: Seq::empty(), ..m }
        } else {
            m
        };
        spec_eval(m1)
    } else {
        m
    }
}

/// Whether two strings hold the same characters.
fn str_eq(a: &str, b: &str) -> (r: bool)
    ensures
        r == (a@ == b@),
{
    let na = a.unicode_len();
    let nb = b.unicode_len();
    if na != nb {
        proof {
            assert(a@ != b@);
        }
        return false;
    }
    let mut i: usize = 0;
    while i < na
        invariant
            na == a@.len(),
            na == b@.len(),
            0 <= i <= na,
            forall|j: int| 0 <= j < i ==> a@[j] == b@[j],
        decreases na - i,
    {
        if a.get_char(i) != b.get_char(i) {
            proof {
                assert(a@ != b@);
            }
            return false;
        }
        i = i + 1;
    }
    proof {
        assert(a@ =~= b@);
    }
    true
}

} // verus!
