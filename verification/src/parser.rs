//! The recursive-descent parser: turns the token stream into an expression
//! tree of the surface grammar
//! `e ::= literal | variable | (e e) | (\var -> e) | (let var = e in e)`.

use vstd::prelude::*;

use crate::lex::Lexer;
use crate::lex::Loc;
use crate::lex::Token;
use crate::lex::TokenKind;
use crate::lex::is_ws_char;
use crate::lex::lex_stuck;
use crate::lex::token_at;
use crate::models::AbsExpr;
use crate::models::AppExpr;
use crate::models::Expr;
use crate::models::LetExpr;
use crate::models::Literal;
use crate::models::SpecExpr;
use crate::models::SpecLit;

verus! {

/// Why parsing rejected the input. Each failure is terminal.
#[derive(Debug, PartialEq, Eq)]
pub enum SyntaxError {
    /// The input ended where a token was required.
    UnexpectedEof,
    /// A token of this kind at this location does not fit the grammar.
    UnexpectedToken(TokenKind, Loc),
    /// A token of the first kind was required near this location.
    ExpectedToken(TokenKind, Loc),
}

/// The token span `toks` spells out exactly the expression `e`.
pub open spec fn parses_to(toks: Seq<Token>, e: SpecExpr) -> bool
    decreases e,
{
    match e {
        SpecExpr::Lit { lit } => toks.len() == 1 && (match lit {
            SpecLit::Int => toks[0].kind is LitInt,
            SpecLit::Bool => toks[0].kind is LitBool,
        }),
        SpecExpr::Var { name } => toks.len() == 1 && toks[0].kind is Var && toks[0].value@ == name,
        SpecExpr::App { fun, arg } => toks.len() >= 2 && toks[0].kind is OpenP
            && toks.last().kind is ClosP && exists|k: int|
            1 <= k < toks.len() - 1 && parses_to(#[trigger] toks.subrange(1, k), *fun)
                && parses_to(toks.subrange(k, toks.len() - 1), *arg),
        SpecExpr::Abs { param, body } => toks.len() >= 5 && toks[0].kind is OpenP
            && toks[1].kind is BackSlash && toks[2].kind is Var && toks[2].value@ == param
            && toks[3].kind is Arrow && toks.last().kind is ClosP && parses_to(
            toks.subrange(4, toks.len() - 1),
            *body,
        ),
        SpecExpr::Let { name, bound, body } => toks.len() >= 7 && toks[0].kind is OpenP
            && toks[1].kind is Let && toks[2].kind is Var && toks[2].value@ == name
            && toks[3].kind is Eq && toks.last().kind is ClosP && exists|k: int|
            4 <= k < toks.len() - 1 && parses_to(#[trigger] toks.subrange(4, k), *bound)
                && toks[k].kind is In && parses_to(toks.subrange(k + 1, toks.len() - 1), *body),
    }
}

/// The tokens are the complete tokenization of `src` starting at `from`:
/// each is preceded by whitespace only, and after the last one nothing
/// lexable remains.
pub open spec fn tokens_from(src: Seq<char>, from: int, toks: Seq<Token>) -> bool
    decreases toks.len(),
{
    if toks.len() == 0 {
        exists|i: int|
            from <= i <= src.len() && #[trigger] lex_stuck(src, i) && (forall|k: int|
                from <= k < i ==> is_ws_char(#[trigger] src[k]))
    } else {
        exists|i: int, j: int|
            from <= i && #[trigger] token_at(src, i, j, toks[0]) && (forall|k: int|
                from <= k < i ==> is_ws_char(#[trigger] src[k])) && tokens_from(
                src,
                j,
                toks.drop_first(),
            )
    }
}

/// The parser: the token stream and a cursor into it.
pub struct Parser {
    toks: Vec<Token>,
    pos: usize,
}

impl Parser {
    /// The token stream.
    pub closed spec fn tokens(&self) -> Seq<Token> {
        self.toks@
    }

    /// How many tokens are consumed.
    pub closed spec fn position(&self) -> int {
        self.pos as int
    }

    /// The cursor is inside the stream.
    pub closed spec fn wf(&self) -> bool {
        self.pos <= self.toks.len()
    }

    /// Run the lexer to exhaustion; the collected tokens tokenize its
    /// remaining input.
    pub fn new(lexer: Lexer) -> (r: Parser)
        requires
            lexer.wf(),
        ensures
            r.wf(),
            r.position() == 0,
            tokens_from(lexer.src(), lexer.position(), r.tokens()),
    {
        let ghost src = lexer.src();
        let ghost from0 = lexer.position();
        let mut lx = lexer;
        let mut toks: Vec<Token> = Vec::new();
        loop
            invariant_except_break
                forall|rest: Seq<Token>|
                    #[trigger] tokens_from(src, lx.position(), rest) ==> tokens_from(
                        src,
                        from0,
                        toks@ + rest,
                    ),
            invariant
                lx.wf(),
                lx.src() == src,
                from0 <= lx.position(),
            ensures
                tokens_from(src, from0, toks@),
            decreases lx.src().len() - lx.position() + 1,
        {
            let ghost cur = lx.position();
            let ghost pre = toks@;
            match lx.lex() {
                Some(t) => {
                    let ghost gt = t;
                    toks.push(t);
                    proof {
                        assert forall|rest: Seq<Token>|
                            #[trigger] tokens_from(src, lx.position(), rest) implies tokens_from(
                            src,
                            from0,
                            toks@ + rest,
                        ) by {
                            let with_t = seq![gt] + rest;
                            assert(with_t.drop_first() =~= rest);
                            assert(with_t[0] == gt);
                            assert(tokens_from(src, cur, with_t));
                            assert(tokens_from(src, from0, pre + with_t));
                            assert(toks@ + rest =~= pre + with_t);
                        }
                    }
                },
                None => {
                    proof {
                        assert(tokens_from(src, cur, Seq::<Token>::empty()));
                        assert(toks@ + Seq::<Token>::empty() =~= toks@);
                    }
                    break;
                },
            }
        }
        Parser { toks, pos: 0 }
    }

    /// Parse one expression, consuming the tokens that spell it.
    pub fn parse(&mut self) -> (r: Result<Expr, SyntaxError>)
        requires
            old(self).wf(),
        ensures
            final(self).wf(),
            final(self).tokens() == old(self).tokens(),
            old(self).position() <= final(self).position(),
            r matches Ok(e) ==> old(self).position() < final(self).position() && parses_to(
                old(self).tokens().subrange(old(self).position(), final(self).position()),
                e@,
            ),
        decreases self.tokens().len() - self.position(), 1int,
    {
        let ghost p0 = self.position();
        if self.pos >= self.toks.len() {
            return Err(SyntaxError::UnexpectedEof);
        }
        let kind = self.toks[self.pos].kind;
        let token_loc = self.toks[self.pos].loc;
        match kind {
            TokenKind::LitBool => {
                self.pos = self.pos + 1;
                proof {
                    assert(self.tokens().subrange(p0, self.position()) =~= seq![
                        self.tokens()[p0],
                    ]);
                }
                Ok(Expr::Lit(Literal::Bool))
            },
            TokenKind::LitInt => {
                self.pos = self.pos + 1;
                proof {
                    assert(self.tokens().subrange(p0, self.position()) =~= seq![
                        self.tokens()[p0],
                    ]);
                }
                Ok(Expr::Lit(Literal::Int))
            },
            TokenKind::Var => {
                let name = self.toks[self.pos].value.clone();
                self.pos = self.pos + 1;
                proof {
                    assert(self.tokens().subrange(p0, self.position()) =~= seq![
                        self.tokens()[p0],
                    ]);
                }
                Ok(Expr::Var(name))
            },
            TokenKind::OpenP => {
                self.pos = self.pos + 1;
                let ghost op = self.tokens()[p0];
                match self.parse_rest_expr() {
                    Ok(e) => {
                        proof {
                            assert(self.tokens().subrange(p0, self.position()) =~= seq![op]
                                + self.tokens().subrange(p0 + 1, self.position()));
                        }
                        Ok(e)
                    },
                    Err(err) => Err(err),
                }
            },
            _ => Err(SyntaxError::UnexpectedToken(kind, token_loc)),
        }
    }

    /// Parse what follows an opening parenthesis, through the matching
    /// closing one.
    fn parse_rest_expr(&mut self) -> (r: Result<Expr, SyntaxError>)
        requires
            old(self).wf(),
        ensures
            final(self).wf(),
            final(self).tokens() == old(self).tokens(),
            old(self).position() <= final(self).position(),
            r matches Ok(e) ==> old(self).position() < final(self).position() && (forall|op: Token|
                op.kind is OpenP ==> parses_to(
                    seq![op] + old(self).tokens().subrange(
                        old(self).position(),
                        final(self).position(),
                    ),
                    e@,
                )),
        decreases self.tokens().len() - self.position(), 4int,
    {
        let ghost p0 = self.position();
        if self.pos >= self.toks.len() {
            return Err(SyntaxError::UnexpectedEof);
        }
        let kind = self.toks[self.pos].kind;
        let token_loc = self.toks[self.pos].loc;
        let res = match kind {
            TokenKind::Let => self.parse_let(),
            TokenKind::Var => self.parse_app(),
            TokenKind::BackSlash => self.parse_abs(),
            TokenKind::OpenP => {
                let ghost pf0 = self.position();
                match self.parse() {
                    Ok(fun) => {
                        let ghost p_mid = self.position();
                        let ghost fun_span = self.tokens().subrange(pf0, p_mid);
                        let ghost gfun = fun@;
                        let r2 = self.parse_app_with_fun(fun);
                        proof {
                            if r2 is Ok {
                                let e2 = r2->Ok_0;
                                let toks = old(self).tokens();
                                assert(parses_to(fun_span, gfun));
                                assert forall|op2: Token, cp2: Token|
                                    op2.kind is OpenP && cp2.kind is ClosP implies parses_to(
                                    seq![op2] + toks.subrange(pf0, self.position()) + seq![cp2],
                                    e2@,
                                ) by {
                                    assert(parses_to(
                                        seq![op2] + fun_span + toks.subrange(
                                            p_mid,
                                            self.position(),
                                        ) + seq![cp2],
                                        e2@,
                                    ));
                                    assert(seq![op2] + toks.subrange(pf0, self.position()) + seq![
                                        cp2,
                                    ] =~= seq![op2] + fun_span + toks.subrange(
                                        p_mid,
                                        self.position(),
                                    ) + seq![cp2]);
                                }
                            }
                        }
                        r2
                    },
                    Err(err) => Err(err),
                }
            },
            _ => {
                return Err(SyntaxError::UnexpectedToken(kind, token_loc));
            },
        };
        let e = match res {
            Ok(e) => e,
            Err(err) => {
                return Err(err);
            },
        };
        let ghost p1 = self.position();
        if self.pos >= self.toks.len() {
            return Err(SyntaxError::ExpectedToken(TokenKind::ClosP, token_loc));
        }
        let cp_kind = self.toks[self.pos].kind;
        let cp_loc = self.toks[self.pos].loc;
        if !matches!(cp_kind, TokenKind::ClosP) {
            return Err(SyntaxError::ExpectedToken(TokenKind::ClosP, cp_loc));
        }
        let ghost cp = self.tokens()[self.position()];
        self.pos = self.pos + 1;
        proof {
            let inner = old(self).tokens().subrange(p0, p1);
            assert(old(self).tokens().subrange(p0, self.position()) =~= inner + seq![cp]);
            assert forall|op: Token| op.kind is OpenP implies parses_to(
                seq![op] + old(self).tokens().subrange(p0, self.position()),
                e@,
            ) by {
                assert(parses_to(seq![op] + inner + seq![cp], e@));
                assert(seq![op] + (inner + seq![cp]) =~= seq![op] + inner + seq![cp]);
            }
        }
        Ok(e)
    }

    /// Parse `let var = e in e` up to, not including, the closing
    /// parenthesis.
    fn parse_let(&mut self) -> (r: Result<Expr, SyntaxError>)
        requires
            old(self).wf(),
            old(self).position() < old(self).tokens().len(),
            old(self).tokens()[old(self).position()].kind is Let,
        ensures
            final(self).wf(),
            final(self).tokens() == old(self).tokens(),
            old(self).position() <= final(self).position(),
            r matches Ok(e) ==> old(self).position() < final(self).position() && (forall|
                op: Token,
                cp: Token,
            |
                op.kind is OpenP && cp.kind is ClosP ==> parses_to(
                    seq![op] + old(self).tokens().subrange(
                        old(self).position(),
                        final(self).position(),
                    ) + seq![cp],
                    e@,
                )),
        decreases self.tokens().len() - self.position(), 3int,
    {
        let ghost p0 = self.position();
        let let_loc = self.toks[self.pos].loc;
        self.pos = self.pos + 1;
        if self.pos >= self.toks.len() {
            return Err(SyntaxError::ExpectedToken(TokenKind::Var, let_loc));
        }
        let var_kind = self.toks[self.pos].kind;
        let var_loc = self.toks[self.pos].loc;
        if !matches!(var_kind, TokenKind::Var) {
            return Err(SyntaxError::ExpectedToken(TokenKind::Var, var_loc));
        }
        let name = self.toks[self.pos].value.clone();
        self.pos = self.pos + 1;
        if self.pos >= self.toks.len() {
            return Err(SyntaxError::ExpectedToken(TokenKind::Eq, var_loc));
        }
        let eq_kind = self.toks[self.pos].kind;
        let eq_loc = self.toks[self.pos].loc;
        if !matches!(eq_kind, TokenKind::Eq) {
            return Err(SyntaxError::ExpectedToken(TokenKind::Eq, eq_loc));
        }
        self.pos = self.pos + 1;
        let ghost pv0 = self.position();
        let vexpr = match self.parse() {
            Ok(e) => e,
            Err(err) => {
                return Err(err);
            },
        };
        let ghost pv1 = self.position();
        let ghost gv = vexpr@;
        if self.pos >= self.toks.len() {
            return Err(SyntaxError::ExpectedToken(TokenKind::In, eq_loc));
        }
        let in_kind = self.toks[self.pos].kind;
        let in_loc = self.toks[self.pos].loc;
        if !matches!(in_kind, TokenKind::In) {
            return Err(SyntaxError::ExpectedToken(TokenKind::In, in_loc));
        }
        self.pos = self.pos + 1;
        let ghost pa0 = self.position();
        let aexpr = match self.parse() {
            Ok(e) => e,
            Err(err) => {
                return Err(err);
            },
        };
        let ghost pa1 = self.position();
        let ghost ga = aexpr@;
        let ghost gname = name@;
        let e = Expr::Let(Box::new(LetExpr { var: name, vexpr, aexpr }));
        proof {
            let toks = old(self).tokens();
            let vspan = toks.subrange(pv0, pv1);
            let aspan = toks.subrange(pa0, pa1);
            assert(parses_to(vspan, gv));
            assert(parses_to(aspan, ga));
            assert(e@ == (SpecExpr::Let {
                name: gname,
                bound: Box::new(gv),
                body: Box::new(ga),
            }));
            assert forall|op: Token, cp: Token|
                op.kind is OpenP && cp.kind is ClosP implies parses_to(
                seq![op] + toks.subrange(p0, self.position()) + seq![cp],
                e@,
            ) by {
                let full = seq![op] + toks.subrange(p0, self.position()) + seq![cp];
                let k = 4 + (pv1 - pv0);
                assert(full.len() == 5 + (pv1 - pv0) + 1 + (pa1 - pa0));
                assert(full[0] == op);
                assert(full[1] == toks[p0]);
                assert(full[2] == toks[p0 + 1]);
                assert(full[3] == toks[p0 + 2]);
                assert(full.last() == cp);
                assert(full[k] == toks[pa0 - 1]);
                assert(full.subrange(4, k) =~= vspan);
                assert(full.subrange(k + 1, full.len() - 1) =~= aspan);
                assert(full[2].value@ == gname);
            }
        }
        Ok(e)
    }

    /// Parse `\var -> e` up to, not including, the closing parenthesis.
    fn parse_abs(&mut self) -> (r: Result<Expr, SyntaxError>)
        requires
            old(self).wf(),
            old(self).position() < old(self).tokens().len(),
            old(self).tokens()[old(self).position()].kind is BackSlash,
        ensures
            final(self).wf(),
            final(self).tokens() == old(self).tokens(),
            old(self).position() <= final(self).position(),
            r matches Ok(e) ==> old(self).position() < final(self).position() && (forall|
                op: Token,
                cp: Token,
            |
                op.kind is OpenP && cp.kind is ClosP ==> parses_to(
                    seq![op] + old(self).tokens().subrange(
                        old(self).position(),
                        final(self).position(),
                    ) + seq![cp],
                    e@,
                )),
        decreases self.tokens().len() - self.position(), 3int,
    {
        let ghost p0 = self.position();
        let bs_loc = self.toks[self.pos].loc;
        self.pos = self.pos + 1;
        if self.pos >= self.toks.len() {
            return Err(SyntaxError::ExpectedToken(TokenKind::Var, bs_loc));
        }
        let var_kind = self.toks[self.pos].kind;
        let var_loc = self.toks[self.pos].loc;
        if !matches!(var_kind, TokenKind::Var) {
            return Err(SyntaxError::ExpectedToken(TokenKind::Var, var_loc));
        }
        let name = self.toks[self.pos].value.clone();
        self.pos = self.pos + 1;
        if self.pos >= self.toks.len() {
            return Err(SyntaxError::ExpectedToken(TokenKind::Arrow, var_loc));
        }
        let arrow_kind = self.toks[self.pos].kind;
        let arrow_loc = self.toks[self.pos].loc;
        if !matches!(arrow_kind, TokenKind::Arrow) {
            return Err(SyntaxError::ExpectedToken(TokenKind::Arrow, arrow_loc));
        }
        self.pos = self.pos + 1;
        let ghost pb0 = self.position();
        let body = match self.parse() {
            Ok(e) => e,
            Err(err) => {
                return Err(err);
            },
        };
        let ghost pb1 = self.position();
        let ghost gb = body@;
        let ghost gname = name@;
        let e = Expr::Abs(Box::new(AbsExpr { arg: name, body }));
        proof {
            let toks = old(self).tokens();
            let bspan = toks.subrange(pb0, pb1);
            assert(parses_to(bspan, gb));
            assert(e@ == (SpecExpr::Abs { param: gname, body: Box::new(gb) }));
            assert forall|op: Token, cp: Token|
                op.kind is OpenP && cp.kind is ClosP implies parses_to(
                seq![op] + toks.subrange(p0, self.position()) + seq![cp],
                e@,
            ) by {
                let full = seq![op] + toks.subrange(p0, self.position()) + seq![cp];
                assert(full[0] == op);
                assert(full[1] == toks[p0]);
                assert(full[2] == toks[p0 + 1]);
                assert(full[3] == toks[p0 + 2]);
                assert(full.last() == cp);
                assert(full.subrange(4, full.len() - 1) =~= bspan);
                assert(full[2].value@ == gname);
            }
        }
        Ok(e)
    }

    /// Parse the argument of an application whose function part is already
    /// parsed.
    fn parse_app_with_fun(&mut self, fun: Expr) -> (r: Result<Expr, SyntaxError>)
        requires
            old(self).wf(),
        ensures
            final(self).wf(),
            final(self).tokens() == old(self).tokens(),
            old(self).position() <= final(self).position(),
            r matches Ok(e) ==> old(self).position() < final(self).position() && (forall|
                ts: Seq<Token>,
                op: Token,
                cp: Token,
            |
                parses_to(ts, fun@) && ts.len() >= 1 && op.kind is OpenP && cp.kind is ClosP
                    ==> parses_to(
                    seq![op] + ts + old(self).tokens().subrange(
                        old(self).position(),
                        final(self).position(),
                    ) + seq![cp],
                    e@,
                )),
        decreases self.tokens().len() - self.position(), 2int,
    {
        let ghost p0 = self.position();
        let ghost gfun = fun@;
        let arg = match self.parse() {
            Ok(e) => e,
            Err(err) => {
                return Err(err);
            },
        };
        let ghost p1 = self.position();
        let ghost garg = arg@;
        let e = Expr::App(Box::new(AppExpr { fun, arg }));
        proof {
            let toks = old(self).tokens();
            let aspan = toks.subrange(p0, p1);
            assert(parses_to(aspan, garg));
            assert(e@ == (SpecExpr::App { fun: Box::new(gfun), arg: Box::new(garg) }));
            assert forall|ts: Seq<Token>, op: Token, cp: Token|
                parses_to(ts, gfun) && ts.len() >= 1 && op.kind is OpenP && cp.kind
                    is ClosP implies parses_to(
                seq![op] + ts + toks.subrange(p0, self.position()) + seq![cp],
                e@,
            ) by {
                let full = seq![op] + ts + toks.subrange(p0, self.position()) + seq![cp];
                let k = 1 + ts.len() as int;
                assert(full[0] == op);
                assert(full.last() == cp);
                assert(full.subrange(1, k) =~= ts);
                assert(full.subrange(k, full.len() - 1) =~= aspan);
                assert(1 <= k < full.len() - 1);
            }
        }
        Ok(e)
    }

    /// Parse an application `e e` up to, not including, the closing
    /// parenthesis.
    fn parse_app(&mut self) -> (r: Result<Expr, SyntaxError>)
        requires
            old(self).wf(),
        ensures
            final(self).wf(),
            final(self).tokens() == old(self).tokens(),
            old(self).position() <= final(self).position(),
            r matches Ok(e) ==> old(self).position() < final(self).position() && (forall|
                op: Token,
                cp: Token,
            |
                op.kind is OpenP && cp.kind is ClosP ==> parses_to(
                    seq![op] + old(self).tokens().subrange(
                        old(self).position(),
                        final(self).position(),
                    ) + seq![cp],
                    e@,
                )),
        decreases self.tokens().len() - self.position(), 3int,
    {
        let ghost p0 = self.position();
        let fun = match self.parse() {
            Ok(e) => e,
            Err(err) => {
                return Err(err);
            },
        };
        let ghost p1 = self.position();
        let ghost fun_span = old(self).tokens().subrange(p0, p1);
        let ghost gfun = fun@;
        let r2 = self.parse_app_with_fun(fun);
        proof {
            if r2 is Ok {
                let e = r2->Ok_0;
                let toks = old(self).tokens();
                assert forall|op: Token, cp: Token|
                    op.kind is OpenP && cp.kind is ClosP implies parses_to(
                    seq![op] + toks.subrange(p0, self.position()) + seq![cp],
                    e@,
                ) by {
                    assert(parses_to(fun_span, gfun));
                    assert(parses_to(
                        seq![op] + fun_span + toks.subrange(p1, self.position()) + seq![cp],
                        e@,
                    ));
                    assert(seq![op] + toks.subrange(p0, self.position()) + seq![cp] =~= seq![op]
                        + fun_span + toks.subrange(p1, self.position()) + seq![cp]);
                }
            }
        }
        r2
    }
}

} // verus!
