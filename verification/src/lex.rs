//! The lexer: turns source text into the token stream of the surface
//! syntax, tracking line and column positions.

use vstd::prelude::*;

verus! {

/// A position in the source text: 1-based column and row.
#[derive(Debug, Clone, Copy, PartialEq, Eq, Structural)]
pub struct Loc {
    pub col: usize,
    pub row: usize,
}

impl Loc {
    /// The start of the text.
    pub fn new() -> (r: Loc)
        ensures
            r.col == 1 && r.row == 1,
    {
        Loc { col: 1, row: 1 }
    }
}

/// The kind of a token.
#[derive(Debug, Clone, Copy, PartialEq, Eq, Structural)]
pub enum TokenKind {
    LitBool,
    LitInt,
    Let,
    In,
    Var,
    BackSlash,
    Eq,
    OpenP,
    ClosP,
    Arrow,
}

/// One token: its position, kind, and spelling.
#[derive(Debug)]
pub struct Token {
    pub loc: Loc,
    pub kind: TokenKind,
    pub value: String,
}

/// Whitespace, for the purposes of this lexer.
pub open spec fn is_ws_char(c: char) -> bool {
    c == ' ' || c == '\n' || c == '\t' || c == '\r'
}

/// An ASCII letter.
pub open spec fn is_alpha_char(c: char) -> bool {
    (97 <= c as u32 && c as u32 <= 122) || (65 <= c as u32 && c as u32 <= 90)
}

/// An ASCII digit.
pub open spec fn is_digit_char(c: char) -> bool {
    48 <= c as u32 && c as u32 <= 57
}

/// A letter or a digit.
pub open spec fn is_alnum_char(c: char) -> bool {
    is_alpha_char(c) || is_digit_char(c)
}

/// The kind a word lexes to: a keyword, a boolean literal, or a variable.
pub open spec fn keyword_kind(w: Seq<char>) -> TokenKind {
    if w == "true"@ || w == "false"@ {
        TokenKind::LitBool
    } else if w == "let"@ {
        TokenKind::Let
    } else if w == "in"@ {
        TokenKind::In
    } else {
        TokenKind::Var
    }
}

/// Token `t` spans `src[i..j]`: its spelling is that slice, its kind fits
/// it, and number and word tokens take the longest possible run.
pub open spec fn token_at(src: Seq<char>, i: int, j: int, t: Token) -> bool {
    &&& 0 <= i < j <= src.len()
    &&& match t.kind {
        TokenKind::BackSlash => j == i + 1 && src[i] == '\\' && t.value@ == "\\"@,
        TokenKind::Eq => j == i + 1 && src[i] == '=' && t.value@ == "="@,
        TokenKind::OpenP => j == i + 1 && src[i] == '(' && t.value@ == "("@,
        TokenKind::ClosP => j == i + 1 && src[i] == ')' && t.value@ == ")"@,
        TokenKind::Arrow => j == i + 2 && src[i] == '-' && src[i + 1] == '>' && t.value@
            == "->"@,
        TokenKind::LitInt => t.value@ == src.subrange(i, j) && (forall|k: int|
            i <= k < j ==> is_digit_char(#[trigger] src[k])) && (j < src.len()
            ==> !is_digit_char(src[j])),
        _ => t.value@ == src.subrange(i, j) && is_alpha_char(src[i]) && (forall|k: int|
            i <= k < j ==> is_alnum_char(#[trigger] src[k])) && (j < src.len()
            ==> !is_alnum_char(src[j])) && t.kind == keyword_kind(src.subrange(i, j)),
    }
}

/// No token starts at `i`: the end of the text, a stray character, or a `-`
/// not followed by `>`.
pub open spec fn lex_stuck(src: Seq<char>, i: int) -> bool {
    i == src.len() || {
        let c = src[i];
        &&& !is_ws_char(c)
        &&& !is_alpha_char(c)
        &&& !is_digit_char(c)
        &&& c != '\\' && c != '=' && c != '(' && c != ')'
        &&& (c == '-' ==> i + 1 >= src.len() || src[i + 1] != '>')
    }
}

/// Where the cursor stands after reading `c` at `l`: a newline starts the
/// next row, anything else advances the column.
pub open spec fn advance_loc(l: Loc, c: char) -> Loc {
    if c == '\n' {
        Loc { col: 1, row: (l.row + 1) as usize }
    } else {
        Loc { col: (l.col + 1) as usize, row: l.row }
    }
}

/// The location after reading all of `cs` from `l`.
pub open spec fn loc_after(l: Loc, cs: Seq<char>) -> Loc
    decreases cs.len(),
{
    if cs.len() == 0 {
        l
    } else {
        loc_after(advance_loc(l, cs[0]), cs.drop_first())
    }
}

/// Reading one more character advances the final location by one step.
proof fn lemma_loc_after_snoc(l: Loc, cs: Seq<char>, c: char)
    ensures
        loc_after(l, cs.push(c)) == advance_loc(loc_after(l, cs), c),
    decreases cs.len(),
{
    if cs.len() == 0 {
        assert(cs.push(c).drop_first() =~= Seq::<char>::empty());
        assert(cs.push(c)[0] == c);
        assert(loc_after(advance_loc(l, c), Seq::<char>::empty()) == advance_loc(l, c));
    } else {
        lemma_loc_after_snoc(advance_loc(l, cs[0]), cs.drop_first(), c);
        assert(cs.push(c).drop_first() =~= cs.drop_first().push(c));
        assert(cs.push(c)[0] == cs[0]);
    }
}

/// Whether `c` is whitespace.
fn is_ws(c: char) -> (r: bool)
    ensures
        r == is_ws_char(c),
{
    c == ' ' || c == '\n' || c == '\t' || c == '\r'
}

/// Whether `c` is an ASCII letter.
fn is_alpha(c: char) -> (r: bool)
    ensures
        r == is_alpha_char(c),
{
    let u = c as u32;
    (97 <= u && u <= 122) || (65 <= u && u <= 90)
}

/// Whether `c` is an ASCII digit.
fn is_digit(c: char) -> (r: bool)
    ensures
        r == is_digit_char(c),
{
    let u = c as u32;
    48 <= u && u <= 57
}

/// Whether `c` is a letter or a digit.
fn is_alnum(c: char) -> (r: bool)
    ensures
        r == is_alnum_char(c),
{
    is_alpha(c) || is_digit(c)
}

/// The lexer: the decoded source text and a cursor into it.
pub struct Lexer {
    chars: Vec<char>,
    pos: usize,
    loc: Loc,
}

impl Lexer {
    /// The decoded source text.
    pub closed spec fn src(&self) -> Seq<char> {
        self.chars@
    }

    /// How many characters are consumed.
    pub closed spec fn position(&self) -> int {
        self.pos as int
    }

    /// Where the cursor stands, as row and column.
    pub closed spec fn location(&self) -> Loc {
        self.loc
    }

    /// The cursor is inside the text and the location counters cannot
    /// overflow.
    pub closed spec fn wf(&self) -> bool {
        &&& self.pos <= self.chars.len()
        &&& self.chars.len() < usize::MAX
        &&& self.loc.col <= self.pos + 1
        &&& self.loc.row <= self.pos + 1
    }

    /// A lexer at the start of the given source text.
    #[verifier::loop_isolation(false)]
    pub fn new(source: &str) -> (r: Lexer)
        requires
            source@.len() < usize::MAX,
        ensures
            r.src() == source@,
            r.position() == 0,
            r.wf(),
    {
        let n = source.unicode_len();
        let mut chars: Vec<char> = Vec::new();
        let mut i: usize = 0;
        while i < n
            invariant
                i <= n,
                chars@.len() == i,
                forall|k: int| 0 <= k < i ==> chars@[k] == source@[k],
            decreases n - i,
        {
            chars.push(source.get_char(i));
            i += 1;
        }
        proof {
            assert(chars@ =~= source@);
        }
        Lexer { chars, pos: 0, loc: Loc::new() }
    }

    /// Consume the longest run of whitespace, updating the location.
    #[verifier::loop_isolation(false)]
    pub fn skip_whitespace(&mut self)
        requires
            old(self).wf(),
        ensures
            final(self).wf(),
            final(self).src() == old(self).src(),
            old(self).position() <= final(self).position(),
            forall|k: int|
                old(self).position() <= k < final(self).position() ==> is_ws_char(
                    #[trigger] old(self).src()[k],
                ),
            final(self).position() < final(self).src().len() ==> !is_ws_char(
                final(self).src()[final(self).position()],
            ),
            final(self).location() == loc_after(
                old(self).location(),
                old(self).src().subrange(old(self).position(), final(self).position()),
            ),
    {
        proof {
            assert(old(self).src().subrange(old(self).position(), old(self).position()) =~= Seq::<
                char,
            >::empty());
        }
        while self.pos < self.chars.len() && is_ws(self.chars[self.pos])
            invariant
                self.chars@ == old(self).chars@,
                old(self).pos <= self.pos <= self.chars.len(),
                self.loc.col <= self.pos + 1,
                self.loc.row <= self.pos + 1,
                forall|k: int|
                    old(self).position() <= k < self.pos ==> is_ws_char(
                        #[trigger] old(self).src()[k],
                    ),
                self.loc == loc_after(
                    old(self).loc,
                    old(self).src().subrange(old(self).position(), self.pos as int),
                ),
            decreases self.chars.len() - self.pos,
        {
            let ch = self.chars[self.pos];
            let ghost lpre = self.loc;
            let ghost ppre = self.pos as int;
            if ch == '\n' {
                self.loc.col = 1;
                self.loc.row = self.loc.row + 1;
            } else {
                self.loc.col = self.loc.col + 1;
            }
            self.pos = self.pos + 1;
            proof {
                lemma_loc_after_snoc(
                    old(self).loc,
                    old(self).src().subrange(old(self).position(), ppre),
                    ch,
                );
                assert(old(self).src().subrange(old(self).position(), self.pos as int)
                    =~= old(self).src().subrange(old(self).position(), ppre).push(ch));
                assert(self.loc == advance_loc(lpre, ch));
            }
        }
    }

    /// Lex one word: the longest run of letters and digits, classified as a
    /// keyword, boolean literal, or variable name.
    #[verifier::loop_isolation(false)]
    pub fn lex_var_or_keyword(&mut self) -> (r: Option<Token>)
        requires
            old(self).wf(),
        ensures
            final(self).wf(),
            final(self).src() == old(self).src(),
            old(self).position() <= final(self).position(),
            r matches Some(t) && t.value@ == old(self).src().subrange(
                old(self).position(),
                final(self).position(),
            ) && (forall|k: int|
                old(self).position() <= k < final(self).position() ==> is_alnum_char(
                    #[trigger] old(self).src()[k],
                )) && (final(self).position() < final(self).src().len() ==> !is_alnum_char(
                final(self).src()[final(self).position()],
            )) && t.kind == keyword_kind(t.value@) && t.loc == old(self).location(),
            final(self).location().col == old(self).location().col + final(self).position() - old(
                self,
            ).position(),
            final(self).location().row == old(self).location().row,
    {
        let token_loc = self.loc;
        let mut value = String::new();
        while self.pos < self.chars.len() && is_alnum(self.chars[self.pos])
            invariant
                self.chars@ == old(self).chars@,
                old(self).pos <= self.pos <= self.chars.len(),
                self.loc.col <= self.pos + 1,
                self.loc.row <= self.pos + 1,
                self.loc.col == old(self).loc.col + self.pos - old(self).pos,
                self.loc.row == old(self).loc.row,
                value@ == self.chars@.subrange(old(self).position(), self.pos as int),
                forall|k: int|
                    old(self).position() <= k < self.pos ==> is_alnum_char(
                        #[trigger] old(self).src()[k],
                    ),
            decreases self.chars.len() - self.pos,
        {
            let ch = self.chars[self.pos];
            self.loc.col = self.loc.col + 1;
            crate::utils::push_char(&mut value, ch);
            self.pos = self.pos + 1;
            proof {
                assert(value@ =~= self.chars@.subrange(old(self).position(), self.pos as int));
            }
        }
        let kind = if value == "true".to_owned() {
            TokenKind::LitBool
        } else if value == "false".to_owned() {
            TokenKind::LitBool
        } else if value == "let".to_owned() {
            TokenKind::Let
        } else if value == "in".to_owned() {
            TokenKind::In
        } else {
            TokenKind::Var
        };
        Some(Token { loc: token_loc, kind, value })
    }

    /// Lex one integer literal: the longest run of digits.
    #[verifier::loop_isolation(false)]
    pub fn lex_int(&mut self) -> (r: Option<Token>)
        requires
            old(self).wf(),
        ensures
            final(self).wf(),
            final(self).src() == old(self).src(),
            old(self).position() <= final(self).position(),
            r matches Some(t) && t.kind == TokenKind::LitInt && t.value@ == old(self).src()
                .subrange(old(self).position(), final(self).position()) && (forall|k: int|
                old(self).position() <= k < final(self).position() ==> is_digit_char(
                    #[trigger] old(self).src()[k],
                )) && (final(self).position() < final(self).src().len() ==> !is_digit_char(
                final(self).src()[final(self).position()],
            )) && t.loc == old(self).location(),
            final(self).location().col == old(self).location().col + final(self).position() - old(
                self,
            ).position(),
            final(self).location().row == old(self).location().row,
    {
        let token_loc = self.loc;
        let mut value = String::new();
        while self.pos < self.chars.len() && is_digit(self.chars[self.pos])
            invariant
                self.chars@ == old(self).chars@,
                old(self).pos <= self.pos <= self.chars.len(),
                self.loc.col <= self.pos + 1,
                self.loc.row <= self.pos + 1,
                self.loc.col == old(self).loc.col + self.pos - old(self).pos,
                self.loc.row == old(self).loc.row,
                value@ == self.chars@.subrange(old(self).position(), self.pos as int),
                forall|k: int|
                    old(self).position() <= k < self.pos ==> is_digit_char(
                        #[trigger] old(self).src()[k],
                    ),
            decreases self.chars.len() - self.pos,
        {
            let ch = self.chars[self.pos];
            self.loc.col = self.loc.col + 1;
            crate::utils::push_char(&mut value, ch);
            self.pos = self.pos + 1;
            proof {
                assert(value@ =~= self.chars@.subrange(old(self).position(), self.pos as int));
            }
        }
        Some(Token { loc: token_loc, kind: TokenKind::LitInt, value })
    }

    /// Lex one token after any leading whitespace, or report that none
    /// starts here.
    #[verifier::loop_isolation(false)]
    pub fn lex(&mut self) -> (r: Option<Token>)
        requires
            old(self).wf(),
        ensures
            final(self).wf(),
            final(self).src() == old(self).src(),
            old(self).position() <= final(self).position(),
            match r {
                Some(t) => exists|i: int|
                    old(self).position() <= i && #[trigger] token_at(
                        old(self).src(),
                        i,
                        final(self).position(),
                        t,
                    ) && (forall|k: int|
                        old(self).position() <= k < i ==> is_ws_char(
                            #[trigger] old(self).src()[k],
                        )),
                None => exists|i: int|
                    old(self).position() <= i <= old(self).src().len() && #[trigger] lex_stuck(
                        old(self).src(),
                        i,
                    ) && (forall|k: int|
                        old(self).position() <= k < i ==> is_ws_char(
                            #[trigger] old(self).src()[k],
                        )),
            },
        decreases self.src().len() - self.position(),
    {
        if self.pos >= self.chars.len() {
            proof {
                assert(lex_stuck(self.src(), self.position()));
            }
            return None;
        }
        let ch = self.chars[self.pos];
        if is_ws(ch) {
            self.skip_whitespace();
            let r = self.lex();
            return r;
        } else if is_alpha(ch) {
            let ghost i = self.position();
            let r = self.lex_var_or_keyword();
            proof {
                let t = r->Some_0;
                assert(token_at(old(self).src(), i, self.position(), t));
            }
            return r;
        } else if is_digit(ch) {
            let ghost i = self.position();
            let r = self.lex_int();
            proof {
                let t = r->Some_0;
                assert(token_at(old(self).src(), i, self.position(), t));
            }
            return r;
        } else if ch == '\\' {
            let ghost i = self.position();
            self.loc.col = self.loc.col + 1;
            self.pos = self.pos + 1;
            let t = Token { loc: self.loc, kind: TokenKind::BackSlash, value: "\\".to_owned() };
            proof {
                assert(token_at(old(self).src(), i, self.position(), t));
            }
            return Some(t);
        } else if ch == '=' {
            let ghost i = self.position();
            self.loc.col = self.loc.col + 1;
            self.pos = self.pos + 1;
            let t = Token { loc: self.loc, kind: TokenKind::Eq, value: "=".to_owned() };
            proof {
                assert(token_at(old(self).src(), i, self.position(), t));
            }
            return Some(t);
        } else if ch == '(' {
            let ghost i = self.position();
            self.loc.col = self.loc.col + 1;
            self.pos = self.pos + 1;
            let t = Token { loc: self.loc, kind: TokenKind::OpenP, value: "(".to_owned() };
            proof {
                assert(token_at(old(self).src(), i, self.position(), t));
            }
            return Some(t);
        } else if ch == ')' {
            let ghost i = self.position();
            self.loc.col = self.loc.col + 1;
            self.pos = self.pos + 1;
            let t = Token { loc: self.loc, kind: TokenKind::ClosP, value: ")".to_owned() };
            proof {
                assert(token_at(old(self).src(), i, self.position(), t));
            }
            return Some(t);
        } else if ch == '-' {
            let ghost i = self.position();
            self.pos = self.pos + 1;
            if self.pos >= self.chars.len() {
                proof {
                    assert(lex_stuck(old(self).src(), i));
                }
                return None;
            }
            let ra = self.chars[self.pos];
            self.pos = self.pos + 1;
            if ra == '>' {
                self.loc.col = self.loc.col + 2;
                let t = Token { loc: self.loc, kind: TokenKind::Arrow, value: "->".to_owned() };
                proof {
                    assert(token_at(old(self).src(), i, self.position(), t));
                }
                return Some(t);
            } else {
                proof {
                    assert(lex_stuck(old(self).src(), i));
                }
                return None;
            }
        } else {
            proof {
                assert(lex_stuck(old(self).src(), self.position()));
            }
            return None;
        }
    }
}

} // verus!
