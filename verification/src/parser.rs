use vstd::prelude::*;
use vstd::string::StringExecFns;

use crate::ast::{exprs_view, BinaryOp, Expr, ExprView, Function, Prototype};
use crate::error::Error;
use crate::lexer::{Lexer, Token, TokenView};

verus! {

/// The fixed operator-precedence table: `<` binds loosest, then `+` and `-`,
/// then `*`.
pub open spec fn prec_table() -> Seq<(BinaryOp, i32)> {
    seq![
        (BinaryOp::LessThan, 10),
        (BinaryOp::Plus, 20),
        (BinaryOp::Minus, 20),
        (BinaryOp::Times, 40),
    ]
}

/// The precedence the table assigns to each operator.
pub open spec fn spec_precedence(op: BinaryOp) -> i32 {
    match op {
        BinaryOp::LessThan => 10,
        BinaryOp::Plus => 20,
        BinaryOp::Minus => 20,
        BinaryOp::Times => 40,
    }
}

/// The binary operator a token denotes, if any.
pub open spec fn op_of(tv: TokenView) -> Option<BinaryOp> {
    match tv {
        TokenView::LessThan => Some(BinaryOp::LessThan),
        TokenView::Minus => Some(BinaryOp::Minus),
        TokenView::Plus => Some(BinaryOp::Plus),
        TokenView::Star => Some(BinaryOp::Times),
        _ => None,
    }
}

/// The decimal digits of `n`, most significant first.
pub open spec fn dec_chars(n: nat) -> Seq<char>
    decreases n,
{
    if n < 10 {
        seq![((48 + n) as u8) as char]
    } else {
        dec_chars(n / 10).push(((48 + n % 10) as u8) as char)
    }
}

/// The name given to the `n`-th anonymous top-level expression.
pub open spec fn anon_chars(n: nat) -> Seq<char> {
    "__anon_"@ + dec_chars(n)
}

/// Renders `n` in decimal.
fn to_decimal(n: usize) -> (s: String)
    ensures
        s@ == dec_chars(n as nat),
    decreases n,
{
    if n < 10 {
        let mut s = String::new();
        s.push((48 + n as u8) as char);
        assert(s@ =~= dec_chars(n as nat));
        s
    } else {
        let mut s = to_decimal(n / 10);
        s.push((48 + (n % 10) as u8) as char);
        assert(s@ =~= dec_chars(n as nat));
        s
    }
}

/// The tokens after dropping one; an exhausted stream stands for `Eof` and
/// is never advanced past.
pub open spec fn skip_one(ts: Seq<TokenView>) -> Seq<TokenView> {
    if ts.len() > 0 {
        ts.subrange(1, ts.len() as int)
    } else {
        ts
    }
}

/// What parsing one primary expression from `ts` yields, and the tokens left
/// over: a literal, a parenthesized expression, or an identifier expression;
/// any other head token cannot start an expression and is not consumed.
pub open spec fn spec_primary(ts: Seq<TokenView>) -> (Result<ExprView, Error>, Seq<TokenView>)
    decreases ts.len(), 1nat,
{
    if ts.len() == 0 {
        (Err(Error::Unexpected("token when expecting an expression")), ts)
    } else {
        match ts[0] {
            TokenView::Number(n) => (Ok(ExprView::Number(n)), skip_one(ts)),
            TokenView::OpenParen => {
                let pr = spec_expr(skip_one(ts));
                match pr.0 {
                    Ok(e) => if pr.1.len() > 0 && pr.1[0] is CloseParen {
                        (Ok(e), skip_one(pr.1))
                    } else {
                        (Err(Error::Unexpected("token")), skip_one(pr.1))
                    },
                    Err(e2) => (Err(e2), pr.1),
                }
            },
            TokenView::Identifier(_) => spec_ident_expr(ts),
            _ => (Err(Error::Unexpected("token when expecting an expression")), ts),
        }
    }
}

/// An identifier expression: a call when `(` follows the name immediately,
/// else a plain variable reference.
pub open spec fn spec_ident_expr(ts: Seq<TokenView>) -> (Result<ExprView, Error>, Seq<TokenView>)
    decreases ts.len(), 0nat,
{
    if ts.len() == 0 {
        (Err(Error::Unexpected("token, expecting identifier")), ts)
    } else {
        match ts[0] {
            TokenView::Identifier(n) => {
                let ts1 = skip_one(ts);
                if ts1.len() > 0 && ts1[0] is OpenParen {
                    let ar = spec_args(skip_one(ts1));
                    match ar.0 {
                        Ok(es) => if ar.1.len() > 0 && ar.1[0] is CloseParen {
                            (Ok(ExprView::Call(n, es)), skip_one(ar.1))
                        } else {
                            (Err(Error::Unexpected("token")), skip_one(ar.1))
                        },
                        Err(e) => (Err(e), ar.1),
                    }
                } else {
                    (Ok(ExprView::Variable(n)), ts1)
                }
            },
            _ => (Err(Error::Unexpected("token, expecting identifier")), skip_one(ts)),
        }
    }
}

/// A call's arguments: nothing before an immediate `)`, else expressions
/// separated by commas; the closing parenthesis is left unconsumed.
pub open spec fn spec_args(ts: Seq<TokenView>) -> (Result<Seq<ExprView>, Error>, Seq<TokenView>)
    decreases ts.len(), 3nat,
{
    if ts.len() > 0 && ts[0] is CloseParen {
        (Ok(Seq::empty()), ts)
    } else {
        let er = spec_expr(ts);
        match er.0 {
            Ok(e) => if er.1.len() < ts.len() {
                spec_args_more(er.1, seq![e])
            } else {
                (Ok(seq![e]), er.1)
            },
            Err(e2) => (Err(e2), er.1),
        }
    }
}

/// The remaining arguments: one more expression per leading comma.
pub open spec fn spec_args_more(ts: Seq<TokenView>, acc: Seq<ExprView>) -> (Result<
    Seq<ExprView>,
    Error,
>, Seq<TokenView>)
    decreases ts.len(), 0nat,
{
    if ts.len() > 0 && ts[0] is Comma {
        let er = spec_expr(skip_one(ts));
        match er.0 {
            Ok(e) => if er.1.len() < ts.len() {
                spec_args_more(er.1, acc.push(e))
            } else {
                (Ok(acc.push(e)), er.1)
            },
            Err(e2) => (Err(e2), er.1),
        }
    } else {
        (Ok(acc), ts)
    }
}

/// One full expression: a primary, then precedence climbing from the lowest
/// floor.
pub open spec fn spec_expr(ts: Seq<TokenView>) -> (Result<ExprView, Error>, Seq<TokenView>)
    decreases ts.len(), 2nat,
{
    let pr = spec_primary(ts);
    match pr.0 {
        Ok(left) => if pr.1.len() < ts.len() {
            spec_binary_right(pr.1, 0, left)
        } else {
            (Ok(left), pr.1)
        },
        Err(e) => (Err(e), pr.1),
    }
}

/// Precedence climbing onto `left`: operators of precedence at least `prec`
/// are folded left-to-right, and an operator on the right that binds tighter
/// than the one just consumed first pulls its run into the right-hand side.
/// The first lower-precedence operator or non-operator token stops the climb
/// and is not consumed.
pub open spec fn spec_binary_right(ts: Seq<TokenView>, prec: int, left: ExprView) -> (Result<
    ExprView,
    Error,
>, Seq<TokenView>)
    decreases ts.len(), 0nat,
{
    if ts.len() == 0 {
        (Ok(left), ts)
    } else {
        match op_of(ts[0]) {
            None => (Ok(left), ts),
            Some(op) => if spec_precedence(op) < prec {
                (Ok(left), ts)
            } else {
                let pr = spec_primary(skip_one(ts));
                match pr.0 {
                    Err(e) => (Err(e), pr.1),
                    Ok(right0) => if pr.1.len() < ts.len() {
                        let ts1 = pr.1;
                        let climb = ts1.len() > 0 && (match op_of(ts1[0]) {
                            Some(op2) => spec_precedence(op) < spec_precedence(op2),
                            None => false,
                        });
                        if climb {
                            let br = spec_binary_right(ts1, spec_precedence(op) + 1, right0);
                            match br.0 {
                                Err(e) => (Err(e), br.1),
                                Ok(right) => if br.1.len() < ts.len() {
                                    spec_binary_right(
                                        br.1,
                                        prec,
                                        ExprView::Binary(op, Box::new(left), Box::new(right)),
                                    )
                                } else {
                                    (
                                        Ok(
                                            ExprView::Binary(op, Box::new(left), Box::new(right)),
                                        ),
                                        br.1,
                                    )
                                },
                            }
                        } else {
                            spec_binary_right(
                                ts1,
                                prec,
                                ExprView::Binary(op, Box::new(left), Box::new(right0)),
                            )
                        }
                    } else {
                        (Ok(ExprView::Binary(op, Box::new(left), Box::new(right0))), pr.1)
                    },
                }
            },
        }
    }
}

/// Length of the run of consecutive identifier tokens at the head of `ts`.
pub open spec fn ident_run(ts: Seq<TokenView>) -> nat
    decreases ts.len(),
{
    if ts.len() > 0 && ts[0] is Identifier {
        1 + ident_run(skip_one(ts))
    } else {
        0
    }
}

/// What parsing a prototype from `ts` yields: a name, `(`, the texts of a
/// maximal run of identifiers, `)`; and the tokens left over.
pub open spec fn spec_prototype(ts: Seq<TokenView>) -> (Result<
    (Seq<char>, Seq<Seq<char>>),
    Error,
>, Seq<TokenView>) {
    if !(ts.len() > 0 && ts[0] is Identifier) {
        (Err(Error::Unexpected("token, expecting identifier")), skip_one(ts))
    } else {
        let name = ts[0]->Identifier_0;
        let ts1 = skip_one(ts);
        if !(ts1.len() > 0 && ts1[0] is OpenParen) {
            (Err(Error::Unexpected("token")), skip_one(ts1))
        } else {
            let ts2 = skip_one(ts1);
            let k = ident_run(ts2);
            let params = Seq::new(k, |i: int| ts2[i]->Identifier_0);
            let ts3 = ts2.skip(k as int);
            if ts3.len() > 0 && ts3[0] is CloseParen {
                (Ok((name, params)), skip_one(ts3))
            } else {
                (Err(Error::Unexpected("token")), skip_one(ts3))
            }
        }
    }
}

/// Recursive-descent parser with precedence climbing for binary expressions.
/// It owns and drives the tokenizer, one token of lookahead at a time.
pub struct Parser {
    /// Operator precedences, fixed at construction.
    pub bin_precedence: Vec<(BinaryOp, i32)>,
    /// How many anonymous top-level expressions have been named so far.
    pub index: usize,
    pub lexer: Lexer,
}

impl Parser {
    pub open spec fn wf(self) -> bool {
        &&& self.lexer.wf()
        &&& self.bin_precedence@ == prec_table()
    }

    /// What stays untouched by every parsing step: the input text, the
    /// precedence table, and (outside `toplevel`) the anonymous-name counter.
    pub open spec fn frame(p0: Parser, p1: Parser) -> bool {
        &&& p1.lexer.input@ == p0.lexer.input@
        &&& p1.bin_precedence@ == p0.bin_precedence@
        &&& p1.index == p0.index
    }

    pub fn new(lexer: Lexer) -> (r: Parser)
        requires
            lexer.wf(),
        ensures
            r.wf(),
            r.index == 0,
            r.lexer == lexer,
    {
        let mut bin_precedence: Vec<(BinaryOp, i32)> = Vec::new();
        bin_precedence.push((BinaryOp::LessThan, 10));
        bin_precedence.push((BinaryOp::Plus, 20));
        bin_precedence.push((BinaryOp::Minus, 20));
        bin_precedence.push((BinaryOp::Times, 40));
        assert(bin_precedence@ =~= prec_table());
        Parser { bin_precedence, index: 0, lexer }
    }

    /// Consumes the next token and demands that it equal `token` exactly.
    fn eat(&mut self, token: Token) -> (r: Result<(), Error>)
        requires
            old(self).wf(),
        ensures
            final(self).wf(),
            Self::frame(*old(self), *final(self)),
            final(self).lexer.measure() <= old(self).lexer.measure(),
            match old(self).lexer.next_view() {
                Ok(tv) => if tv == token@ {
                    r == Ok::<(), Error>(()) && (tv is Eof || final(self).lexer.measure() < old(self).lexer.measure())
                } else {
                    r == Err::<(), Error>(Error::Unexpected("token"))
                },
                Err(e) => r == Err::<(), Error>(e),
            },
            (r matches Ok(_) && !(token@ is Eof)) ==> old(self).lexer.stream() == seq![token@]
                + final(self).lexer.stream(),
            (old(self).lexer.clean() && !(token@ is Eof)) ==> ({
                let ts = old(self).lexer.stream();
                &&& final(self).lexer.clean()
                &&& final(self).lexer.stream() == skip_one(ts)
                &&& r == (if ts.len() > 0 && ts[0] == token@ {
                    Ok::<(), Error>(())
                } else {
                    Err::<(), Error>(Error::Unexpected("token"))
                })
            }),
    {
        proof {
            if old(self).lexer.clean() {
                crate::lexer::lemma_stream_head(old(self).lexer);
            }
        }
        let current_token = self.lexer.next_token()?;
        proof {
            let ts = old(self).lexer.stream();
            if old(self).lexer.clean() && ts.len() > 0 {
                assert(self.lexer.stream() =~= ts.subrange(1, ts.len() as int));
            }
        }
        if current_token.ne(&token) {
            return Err(Error::Unexpected("token"));
        }
        Ok(())
    }

    /// Consumes the next token, which must be an identifier, and returns its
    /// text.
    fn ident(&mut self) -> (r: Result<String, Error>)
        requires
            old(self).wf(),
        ensures
            final(self).wf(),
            Self::frame(*old(self), *final(self)),
            final(self).lexer.measure() <= old(self).lexer.measure(),
            match old(self).lexer.next_view() {
                Ok(tv) => match tv {
                    TokenView::Identifier(n) => r matches Ok(s) && s@ == n && final(self).lexer.measure() < old(self).lexer.measure(),
                    _ => r == Err::<String, Error>(
                        Error::Unexpected("token, expecting identifier"),
                    ),
                },
                Err(e) => r == Err::<String, Error>(e),
            },
            r matches Ok(name) ==> old(self).lexer.stream() == seq![
                TokenView::Identifier(name@),
            ] + final(self).lexer.stream(),
            old(self).lexer.clean() ==> ({
                let ts = old(self).lexer.stream();
                &&& final(self).lexer.clean()
                &&& final(self).lexer.stream() == skip_one(ts)
                &&& (if ts.len() == 0 {
                    r == Err::<String, Error>(Error::Unexpected("token, expecting identifier"))
                } else {
                    match ts[0] {
                        TokenView::Identifier(n) => r matches Ok(s) && s@ == n,
                        _ => r == Err::<String, Error>(
                            Error::Unexpected("token, expecting identifier"),
                        ),
                    }
                })
            }),
    {
        proof {
            if old(self).lexer.clean() {
                crate::lexer::lemma_stream_head(old(self).lexer);
            }
        }
        let t = self.lexer.next_token()?;
        proof {
            let ts = old(self).lexer.stream();
            if old(self).lexer.clean() && ts.len() > 0 {
                assert(self.lexer.stream() =~= ts.subrange(1, ts.len() as int));
            }
        }
        match t {
            Token::Identifier(ident) => Ok(ident),
            _ => Err(Error::Unexpected("token, expecting identifier")),
        }
    }

    /// Peeks at the next token and reports the binary operator it denotes,
    /// if any, without consuming it.
    fn binary_op(&mut self) -> (r: Result<Option<BinaryOp>, Error>)
        requires
            old(self).wf(),
        ensures
            final(self).wf(),
            Self::frame(*old(self), *final(self)),
            final(self).lexer.measure() <= old(self).lexer.measure(),
            match old(self).lexer.next_view() {
                Ok(tv) => {
                    &&& r == Ok::<Option<BinaryOp>, Error>(op_of(tv))
                    &&& final(self).lexer.next_view() == old(self).lexer.next_view()
                    &&& (op_of(tv) is Some ==> (final(self).lexer.lookahead matches Some(t)
                        && t@ == tv))
                },
                Err(e) => r == Err::<Option<BinaryOp>, Error>(e),
            },
            old(self).lexer.clean() ==> ({
                let ts = old(self).lexer.stream();
                &&& final(self).lexer.clean()
                &&& final(self).lexer.stream() == ts
                &&& r == Ok::<Option<BinaryOp>, Error>(
                    if ts.len() > 0 {
                        op_of(ts[0])
                    } else {
                        None
                    },
                )
            }),
    {
        proof {
            if old(self).lexer.clean() {
                crate::lexer::lemma_stream_head(old(self).lexer);
            }
        }
        let t = self.lexer.peek()?;
        let op = match t {
            Token::LessThan => Some(BinaryOp::LessThan),
            Token::Minus => Some(BinaryOp::Minus),
            Token::Plus => Some(BinaryOp::Plus),
            Token::Star => Some(BinaryOp::Times),
            _ => None,
        };
        Ok(op)
    }

    /// Looks an operator up in the precedence table.  Every operator the
    /// grammar recognizes has an entry, so the missing-entry failure is
    /// defensive and proved unreachable.
    fn precedence(&self, op: BinaryOp) -> (r: Result<i32, Error>)
        requires
            self.wf(),
        ensures
            r == Ok::<i32, Error>(spec_precedence(op)),
    {
        let n = self.bin_precedence.len();
        let mut i: usize = 0;
        while i < n
            invariant
                self.wf(),
                n == self.bin_precedence@.len(),
                0 <= i <= n,
                forall|j: int| 0 <= j < i ==> self.bin_precedence@[j].0 != op,
            decreases n - i,
        {
            let entry = self.bin_precedence[i];
            if entry.0 == op {
                return Ok(entry.1);
            }
            i = i + 1;
        }
        Err(Error::UndefinedOperator)
    }

    /// Climbs over binary operators of precedence at least `expr_precedence`,
    /// folding them onto `left`; equal precedences fold left-to-right, and a
    /// tighter-binding operator on the right is pulled into the right-hand
    /// side first.
    fn binary_right(&mut self, expr_precedence: i32, left: Expr) -> (r: Result<Expr, Error>)
        requires
            old(self).wf(),
        ensures
            final(self).wf(),
            Self::frame(*old(self), *final(self)),
            final(self).lexer.measure() <= old(self).lexer.measure(),
            (old(self).lexer.next_view() matches Ok(tv) && op_of(tv) is None) ==> r == Ok::<
                Expr,
                Error,
            >(left),
            (old(self).lexer.next_view() matches Ok(tv) && op_of(tv) matches Some(op)
                && spec_precedence(op) < expr_precedence) ==> r == Ok::<Expr, Error>(left),
            old(self).lexer.clean() ==> ({
                let sp = spec_binary_right(
                    old(self).lexer.stream(),
                    expr_precedence as int,
                    left@,
                );
                &&& final(self).lexer.clean()
                &&& final(self).lexer.stream() == sp.1
                &&& final(self).lexer.stream().len() <= old(self).lexer.stream().len()
                &&& match sp.0 {
                    Ok(ev) => r matches Ok(e) && e@ == ev,
                    Err(e2) => r == Err::<Expr, Error>(e2),
                }
            }),
        decreases old(self).lexer.measure(), 0nat,
    {
        let ghost ts = old(self).lexer.stream();
        let op_opt = self.binary_op()?;
        match op_opt {
            Some(op) => {
                let token_precedence = self.precedence(op)?;
                if token_precedence < expr_precedence {
                    Ok(left)
                } else {
                    let _ = self.lexer.next_token()?;  // Eat binary operator.
                    proof {
                        if old(self).lexer.clean() && ts.len() > 0 {
                            assert(self.lexer.stream() =~= ts.subrange(1, ts.len() as int));
                        }
                    }
                    let right = self.primary()?;
                    let next_op = self.binary_op()?;
                    let right = match next_op {
                        Some(op2) => {
                            let p2 = self.precedence(op2)?;
                            if token_precedence < p2 {
                                self.binary_right(token_precedence + 1, right)?
                            } else {
                                right
                            }
                        },
                        None => right,
                    };
                    let new_left = Expr::Binary(op, Box::new(left), Box::new(right));
                    self.binary_right(expr_precedence, new_left)
                }
            },
            None => Ok(left),
        }
    }

    pub fn definition(&mut self) -> (r: Result<Function, Error>)
        requires
            old(self).wf(),
        ensures
            final(self).wf(),
            Self::frame(*old(self), *final(self)),
            final(self).lexer.measure() <= old(self).lexer.measure(),
            r matches Ok(_) ==> old(self).lexer.next_view() == Ok::<TokenView, Error>(
                TokenView::Def,
            ),
            r matches Ok(f) ==> (seq![
                TokenView::Def,
                TokenView::Identifier(f.prototype.function_name@),
                TokenView::OpenParen,
            ] + f.prototype.parameters@.map_values((|q: String| TokenView::Identifier(q@))) + seq![
                TokenView::CloseParen,
            ]).is_prefix_of(old(self).lexer.stream()),
            old(self).lexer.clean() ==> ({
                let ts = old(self).lexer.stream();
                &&& final(self).lexer.clean()
                &&& (if !(ts.len() > 0 && ts[0] is Def) {
                    r == Err::<Function, Error>(Error::Unexpected("token")) && final(self).lexer.stream() == skip_one(ts)
                } else {
                    let pr = spec_prototype(skip_one(ts));
                    match pr.0 {
                        Err(e) => r == Err::<Function, Error>(e) && final(self).lexer.stream()
                            == pr.1,
                        Ok(np) => {
                            let er = spec_expr(pr.1);
                            match er.0 {
                                Err(e) => r == Err::<Function, Error>(e) && final(self).lexer.stream() == er.1,
                                Ok(body) => r matches Ok(f) && f.prototype.function_name@ == np.0
                                    && f.prototype.parameters@.map_values((|q: String| q@)) == np.1
                                    && f.body@ == body && final(self).lexer.stream() == er.1,
                            }
                        },
                    }
                })
            }),
    {
        proof {
            if old(self).lexer.clean() {
                crate::lexer::lemma_stream_head(old(self).lexer);
            }
        }
        self.eat(Token::Def)?;
        let prototype = self.prototype()?;
        let ghost mid_stream = self.lexer.stream();
        let body = self.expr()?;
        proof {
            let pre = seq![
                TokenView::Def,
                TokenView::Identifier(prototype.function_name@),
                TokenView::OpenParen,
            ] + prototype.parameters@.map_values((|q: String| TokenView::Identifier(q@))) + seq![
                TokenView::CloseParen,
            ];
            assert(old(self).lexer.stream() =~= pre + mid_stream);
            assert(pre =~= old(self).lexer.stream().subrange(0, pre.len() as int));
        }
        Ok(Function { prototype, body })
    }

    /// Parses one expression: a primary, then precedence climbing from the
    /// lowest floor.
    fn expr(&mut self) -> (r: Result<Expr, Error>)
        requires
            old(self).wf(),
        ensures
            final(self).wf(),
            Self::frame(*old(self), *final(self)),
            final(self).lexer.measure() <= old(self).lexer.measure(),
            r matches Ok(_) ==> final(self).lexer.measure() < old(self).lexer.measure(),
            old(self).lexer.clean() ==> ({
                let sp = spec_expr(old(self).lexer.stream());
                &&& final(self).lexer.clean()
                &&& final(self).lexer.stream() == sp.1
                &&& final(self).lexer.stream().len() <= old(self).lexer.stream().len()
                &&& match sp.0 {
                    Ok(ev) => r matches Ok(e) && e@ == ev && final(self).lexer.stream().len()
                        < old(self).lexer.stream().len(),
                    Err(e2) => r == Err::<Expr, Error>(e2),
                }
            }),
        decreases old(self).lexer.measure(), 2nat,
    {
        let left = self.primary()?;
        self.binary_right(0, left)
    }

    pub fn extern_(&mut self) -> (r: Result<Prototype, Error>)
        requires
            old(self).wf(),
        ensures
            final(self).wf(),
            Self::frame(*old(self), *final(self)),
            final(self).lexer.measure() <= old(self).lexer.measure(),
            r matches Ok(_) ==> old(self).lexer.next_view() == Ok::<TokenView, Error>(
                TokenView::Extern,
            ),
            r matches Ok(p) ==> old(self).lexer.stream() == seq![
                TokenView::Extern,
                TokenView::Identifier(p.function_name@),
                TokenView::OpenParen,
            ] + p.parameters@.map_values((|q: String| TokenView::Identifier(q@))) + seq![
                TokenView::CloseParen,
            ] + final(self).lexer.stream(),
            old(self).lexer.clean() ==> ({
                let ts = old(self).lexer.stream();
                &&& final(self).lexer.clean()
                &&& (if !(ts.len() > 0 && ts[0] is Extern) {
                    r == Err::<Prototype, Error>(Error::Unexpected("token")) && final(self).lexer.stream() == skip_one(ts)
                } else {
                    let pr = spec_prototype(skip_one(ts));
                    match pr.0 {
                        Err(e) => r == Err::<Prototype, Error>(e) && final(self).lexer.stream()
                            == pr.1,
                        Ok(np) => r matches Ok(p) && p.function_name@ == np.0
                            && p.parameters@.map_values((|q: String| q@)) == np.1 && final(self).lexer.stream() == pr.1,
                    }
                })
            }),
    {
        proof {
            if old(self).lexer.clean() {
                crate::lexer::lemma_stream_head(old(self).lexer);
            }
        }
        self.eat(Token::Extern)?;
        let p = self.prototype()?;
        proof {
            assert(old(self).lexer.stream() =~= seq![
                TokenView::Extern,
                TokenView::Identifier(p.function_name@),
                TokenView::OpenParen,
            ] + p.parameters@.map_values((|q: String| TokenView::Identifier(q@))) + seq![
                TokenView::CloseParen,
            ] + self.lexer.stream());
        }
        Ok(p)
    }

    /// Parses an identifier expression: a plain variable reference, or, when
    /// a `(` follows immediately, a call with a comma-separated argument
    /// list.
    fn ident_expr(&mut self) -> (r: Result<Expr, Error>)
        requires
            old(self).wf(),
        ensures
            final(self).wf(),
            Self::frame(*old(self), *final(self)),
            final(self).lexer.measure() <= old(self).lexer.measure(),
            r matches Ok(_) ==> final(self).lexer.measure() < old(self).lexer.measure(),
            match old(self).lexer.next_view() {
                Ok(tv) => match tv {
                    TokenView::Identifier(n) => r matches Ok(e) ==> ((e matches Expr::Variable(s)
                        && s@ == n) || (e matches Expr::Call(s, _) && s@ == n)),
                    _ => true,
                },
                _ => true,
            },
            r matches Ok(_) ==> (old(self).lexer.next_view() matches Ok(tv) && tv is Identifier),
            old(self).lexer.clean() ==> ({
                let sp = spec_ident_expr(old(self).lexer.stream());
                &&& final(self).lexer.clean()
                &&& final(self).lexer.stream() == sp.1
                &&& final(self).lexer.stream().len() <= old(self).lexer.stream().len()
                &&& match sp.0 {
                    Ok(ev) => r matches Ok(e) && e@ == ev && final(self).lexer.stream().len()
                        < old(self).lexer.stream().len(),
                    Err(e2) => r == Err::<Expr, Error>(e2),
                }
            }),
        decreases old(self).lexer.measure(), 0nat,
    {
        proof {
            if old(self).lexer.clean() {
                crate::lexer::lemma_stream_head(old(self).lexer);
            }
        }
        let name = self.ident()?;
        proof {
            if old(self).lexer.clean() {
                crate::lexer::lemma_stream_head(self.lexer);
            }
        }
        let t = self.lexer.peek()?;
        match t {
            Token::OpenParen => {
                self.eat(Token::OpenParen)?;
                let args = self.args()?;
                self.eat(Token::CloseParen)?;
                proof {
                    if old(self).lexer.clean() {
                        assert(exprs_view(Seq::<Expr>::empty()) =~= Seq::<ExprView>::empty());
                    }
                }
                Ok(Expr::Call(name, args))
            },
            _ => Ok(Expr::Variable(name)),
        }
    }

    /// Parses a call's argument list, the cursor standing just after the
    /// opening parenthesis; the closing parenthesis is left for the caller.
    fn args(&mut self) -> (r: Result<Vec<Expr>, Error>)
        requires
            old(self).wf(),
        ensures
            final(self).wf(),
            Self::frame(*old(self), *final(self)),
            final(self).lexer.measure() <= old(self).lexer.measure(),
            old(self).lexer.clean() ==> ({
                let sp = spec_args(old(self).lexer.stream());
                &&& final(self).lexer.clean()
                &&& final(self).lexer.stream() == sp.1
                &&& final(self).lexer.stream().len() <= old(self).lexer.stream().len()
                &&& match sp.0 {
                    Ok(es) => r matches Ok(v) && exprs_view(v@) == es,
                    Err(e2) => r == Err::<Vec<Expr>, Error>(e2),
                }
            }),
        decreases old(self).lexer.measure(), 3nat,
    {
        proof {
            if old(self).lexer.clean() {
                crate::lexer::lemma_stream_head(old(self).lexer);
            }
        }
        let ghost ts0 = old(self).lexer.stream();
        let t = self.lexer.peek()?;
        if matches!(t, Token::CloseParen) {
            proof {
                assert(exprs_view(Seq::<Expr>::empty()) =~= Seq::<ExprView>::empty());
            }
            return Ok(Vec::new());
        }
        let mut args: Vec<Expr> = Vec::new();
        let first = self.expr()?;
        args.push(first);
        proof {
            if old(self).lexer.clean() {
                assert(args@.drop_last() =~= Seq::<Expr>::empty());
                assert(args@.last() == first);
                assert(exprs_view(Seq::<Expr>::empty()) =~= Seq::<ExprView>::empty());
                assert(exprs_view(args@) =~= seq![first@]);
            }
        }
        loop
            invariant
                self.wf(),
                Self::frame(*old(self), *self),
                self.lexer.measure() <= old(self).lexer.measure(),
                old(self).lexer.clean() ==> ({
                    &&& self.lexer.clean()
                    &&& self.lexer.stream().len() <= ts0.len()
                    &&& spec_args(ts0) == spec_args_more(self.lexer.stream(), exprs_view(args@))
                }),
                ts0 == old(self).lexer.stream(),
            decreases self.lexer.measure(),
        {
            proof {
                if old(self).lexer.clean() {
                    crate::lexer::lemma_stream_head(self.lexer);
                }
            }
            let ghost cur = self.lexer.stream();
            let ghost acc = exprs_view(args@);
            let t = self.lexer.peek()?;
            if !matches!(t, Token::Comma) {
                return Ok(args);
            }
            self.eat(Token::Comma)?;
            let e = self.expr()?;
            let ghost prev = args@;
            args.push(e);
            proof {
                if old(self).lexer.clean() {
                    assert(args@.drop_last() =~= prev);
                    assert(exprs_view(args@) =~= acc.push(e@));
                }
            }
        }
    }

    /// Parses the parameter list of a prototype: consecutive identifiers,
    /// with no separators, up to the first token that is not an identifier.
    fn parameters(&mut self) -> (r: Result<Vec<String>, Error>)
        requires
            old(self).wf(),
        ensures
            final(self).wf(),
            Self::frame(*old(self), *final(self)),
            final(self).lexer.measure() <= old(self).lexer.measure(),
            r matches Ok(_) ==> (final(self).lexer.next_view() matches Ok(tv) && !(tv
                is Identifier)),
            r matches Ok(ps) ==> old(self).lexer.stream() == ps@.map_values(
                (|p: String| TokenView::Identifier(p@)),
            ) + final(self).lexer.stream(),
            old(self).lexer.clean() ==> ({
                let ts = old(self).lexer.stream();
                let k = ident_run(ts);
                &&& final(self).lexer.clean()
                &&& r matches Ok(ps) && ps@.len() == k && (forall|i: int|
                    0 <= i < k ==> ts[i] == TokenView::Identifier(ps@[i]@))
                &&& final(self).lexer.stream() == ts.skip(k as int)
            }),
    {
        let ghost ts0 = old(self).lexer.stream();
        let mut params: Vec<String> = Vec::new();
        proof {
            assert(params@.map_values((|p: String| TokenView::Identifier(p@)))
                + self.lexer.stream() =~= self.lexer.stream());
            assert(ts0.skip(0) =~= ts0);
        }
        loop
            invariant
                self.wf(),
                Self::frame(*old(self), *self),
                self.lexer.measure() <= old(self).lexer.measure(),
                old(self).lexer.stream() == params@.map_values(
                    (|p: String| TokenView::Identifier(p@)),
                ) + self.lexer.stream(),
                ts0 == old(self).lexer.stream(),
                old(self).lexer.clean() ==> ({
                    &&& self.lexer.clean()
                    &&& self.lexer.stream() == ts0.skip(params@.len() as int)
                    &&& ident_run(ts0) == params@.len() + ident_run(self.lexer.stream())
                    &&& forall|i: int|
                        0 <= i < params@.len() ==> ts0[i] == TokenView::Identifier(params@[i]@)
                }),
            decreases self.lexer.measure(),
        {
            proof {
                if old(self).lexer.clean() {
                    crate::lexer::lemma_stream_head(self.lexer);
                }
            }
            let ghost cur = self.lexer.stream();
            let t = self.lexer.peek()?;
            match t {
                Token::Identifier(_) => {
                    let ghost prev_params = params@;
                    let ghost prev_stream = self.lexer.stream();
                    match self.lexer.next_token()? {
                        Token::Identifier(ident) => {
                            params.push(ident);
                            proof {
                                assert(params@.map_values(
                                    (|p: String| TokenView::Identifier(p@)),
                                ) =~= prev_params.map_values(
                                    (|p: String| TokenView::Identifier(p@)),
                                ).push(TokenView::Identifier(params@.last()@)));
                                assert(old(self).lexer.stream() =~= params@.map_values(
                                    (|p: String| TokenView::Identifier(p@)),
                                ) + self.lexer.stream());
                                if old(self).lexer.clean() {
                                    assert(self.lexer.stream() =~= cur.subrange(
                                        1,
                                        cur.len() as int,
                                    ));
                                    assert(skip_one(cur) =~= self.lexer.stream());
                                    assert(self.lexer.stream() =~= ts0.skip(
                                        params@.len() as int,
                                    ));
                                }
                            }
                        },
                        _ => { proof { assert(false); } },
                    }
                },
                _ => {
                    proof {
                        if old(self).lexer.clean() {
                            assert(ident_run(cur) == 0);
                        }
                    }
                    return Ok(params);
                },
            }
        }
    }

    /// Parses a prototype: a function name, `(`, any number of parameter
    /// names, `)`.
    fn prototype(&mut self) -> (r: Result<Prototype, Error>)
        requires
            old(self).wf(),
        ensures
            final(self).wf(),
            Self::frame(*old(self), *final(self)),
            final(self).lexer.measure() <= old(self).lexer.measure(),
            r matches Ok(p) ==> (old(self).lexer.next_view() matches Ok(tv) && tv
                == TokenView::Identifier(p.function_name@)),
            r matches Ok(p) ==> old(self).lexer.stream() == seq![
                TokenView::Identifier(p.function_name@),
                TokenView::OpenParen,
            ] + p.parameters@.map_values((|q: String| TokenView::Identifier(q@))) + seq![
                TokenView::CloseParen,
            ] + final(self).lexer.stream(),
            old(self).lexer.clean() ==> ({
                let sp = spec_prototype(old(self).lexer.stream());
                &&& final(self).lexer.clean()
                &&& final(self).lexer.stream() == sp.1
                &&& match sp.0 {
                    Ok(np) => r matches Ok(p) && p.function_name@ == np.0
                        && p.parameters@.map_values((|q: String| q@)) == np.1,
                    Err(e2) => r == Err::<Prototype, Error>(e2),
                }
            }),
    {
        let ghost ts = old(self).lexer.stream();
        let function_name = self.ident()?;
        self.eat(Token::OpenParen)?;
        let ghost ts2 = self.lexer.stream();
        let parameters = self.parameters()?;
        proof {
            if old(self).lexer.clean() {
                assert(ts2 =~= skip_one(skip_one(ts)));
                let k = ident_run(ts2);
                assert(parameters@.map_values((|q: String| q@)) =~= Seq::new(
                    k,
                    (|i: int| ts2[i]->Identifier_0),
                ));
            }
        }
        self.eat(Token::CloseParen)?;
        proof {
            assert(old(self).lexer.stream() =~= seq![
                TokenView::Identifier(function_name@),
                TokenView::OpenParen,
            ] + parameters@.map_values((|q: String| TokenView::Identifier(q@))) + seq![
                TokenView::CloseParen,
            ] + self.lexer.stream());
        }
        Ok(Prototype { function_name, parameters })
    }


    /// Parses a bare top-level expression and wraps it in a zero-parameter
    /// function named `__anon_<N>`, `N` counting up per parser so each such
    /// name is used once in a session.
    pub fn toplevel(&mut self) -> (r: Result<Function, Error>)
        requires
            old(self).wf(),
            old(self).index < usize::MAX,
        ensures
            final(self).wf(),
            final(self).lexer.input@ == old(self).lexer.input@,
            final(self).bin_precedence@ == old(self).bin_precedence@,
            final(self).lexer.measure() <= old(self).lexer.measure(),
            match r {
                Ok(f) => {
                    &&& final(self).index == old(self).index + 1
                    &&& f.prototype.function_name@ == anon_chars((old(self).index + 1) as nat)
                    &&& f.prototype.parameters@.len() == 0
                },
                Err(_) => final(self).index == old(self).index,
            },
            old(self).lexer.clean() ==> ({
                let sp = spec_expr(old(self).lexer.stream());
                &&& final(self).lexer.clean()
                &&& final(self).lexer.stream() == sp.1
                &&& match sp.0 {
                    Ok(body) => r matches Ok(f) && f.body@ == body,
                    Err(e2) => r == Err::<Function, Error>(e2),
                }
            }),
    {
        let body = self.expr()?;
        self.index = self.index + 1;
        let mut name: String = "__anon_".to_owned();
        let digits = to_decimal(self.index);
        name.append(digits.as_str());
        Ok(
            Function {
                body,
                prototype: Prototype { function_name: name, parameters: Vec::new() },
            },
        )
    }

    /// Parses one primary expression: a literal, a parenthesized expression,
    /// or an identifier expression.  Any other token cannot start an
    /// expression.
    fn primary(&mut self) -> (r: Result<Expr, Error>)
        requires
            old(self).wf(),
        ensures
            final(self).wf(),
            Self::frame(*old(self), *final(self)),
            final(self).lexer.measure() <= old(self).lexer.measure(),
            r matches Ok(_) ==> final(self).lexer.measure() < old(self).lexer.measure(),
            match old(self).lexer.next_view() {
                Ok(tv) => match tv {
                    TokenView::Number(n) => r matches Ok(e) && e matches Expr::Number(t) && t@
                        == n,
                    _ => true,
                },
                _ => true,
            },
            old(self).lexer.clean() ==> ({
                let sp = spec_primary(old(self).lexer.stream());
                &&& final(self).lexer.clean()
                &&& final(self).lexer.stream() == sp.1
                &&& final(self).lexer.stream().len() <= old(self).lexer.stream().len()
                &&& match sp.0 {
                    Ok(ev) => r matches Ok(e) && e@ == ev && final(self).lexer.stream().len()
                        < old(self).lexer.stream().len(),
                    Err(e2) => r == Err::<Expr, Error>(e2),
                }
            }),
        decreases old(self).lexer.measure(), 1nat,
    {
        proof {
            if old(self).lexer.clean() {
                crate::lexer::lemma_stream_head(old(self).lexer);
            }
        }
        let ghost ts = old(self).lexer.stream();
        let t = self.lexer.peek()?;
        match t {
            Token::Number(number) => {
                let _ = self.lexer.next_token()?;
                proof {
                    if old(self).lexer.clean() && ts.len() > 0 {
                        assert(self.lexer.stream() =~= ts.subrange(1, ts.len() as int));
                    }
                }
                Ok(Expr::Number(number))
            },
            Token::OpenParen => {
                self.eat(Token::OpenParen)?;
                let expr = self.expr()?;
                self.eat(Token::CloseParen)?;
                Ok(expr)
            },
            Token::Identifier(_) => self.ident_expr(),
            _ => Err(Error::Unexpected("token when expecting an expression")),
        }
    }
}

} // verus!
