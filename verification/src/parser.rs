//! The recursive-descent parser: tokens to the AST.
//!
//! [`Parser::parse`] consumes statements until no further statement can
//! start, exactly as the specification grammar ([`spec_statements`],
//! [`spec_next_statement`], [`spec_expr`]) describes.  A malformed statement
//! is a front-end defect and is ruled out by the preconditions (the grammar
//! yields nothing for it).

use vstd::prelude::*;
use vstd::string::StringExecFns;

use crate::ast::{Expr, Operator, Program, Statement};
use crate::lexer::{token_view, Token};

verus! {

/// The content of a statement: expressions as values, statement bodies as
/// sequences.
pub enum StmtView {
    AssignV(Expr, Expr),
    ReturnV(Expr),
    IfV(Expr, Seq<StmtView>),
    WhileV(Expr, Seq<StmtView>),
    DoWhileV(Seq<StmtView>, Expr),
}

/// The content of a statement.
pub open spec fn stmt_view(s: Statement) -> StmtView
    decreases s,
{
    match s {
        Statement::Assignment(l, e) => StmtView::AssignV(*l, *e),
        Statement::Return(e) => StmtView::ReturnV(*e),
        Statement::If(c, body) => StmtView::IfV(*c, stmts_view(body@)),
        Statement::While(c, body) => StmtView::WhileV(*c, stmts_view(body@)),
        Statement::DoWhile(body, c) => StmtView::DoWhileV(stmts_view(body@), *c),
    }
}

/// The contents of a statement list.
pub open spec fn stmts_view(ss: Seq<Statement>) -> Seq<StmtView>
    decreases ss,
{
    if ss.len() == 0 {
        seq![]
    } else {
        seq![stmt_view(ss[0])] + stmts_view(ss.drop_first())
    }
}

/// Whether a token is a binary operator.
pub open spec fn is_op_token(t: Token) -> bool {
    match t {
        Token::Plus => true,
        Token::Minus => true,
        Token::Mult => true,
        Token::Div => true,
        Token::Mod => true,
        Token::LessThan => true,
        _ => false,
    }
}

/// The operator a token denotes.
pub open spec fn op_of_token(t: Token) -> Operator {
    match t {
        Token::Minus => Operator::Minus,
        Token::Mult => Operator::Mult,
        Token::Div => Operator::Div,
        Token::Mod => Operator::Mod,
        Token::LessThan => Operator::LessThan,
        _ => Operator::Plus,
    }
}

/// A left expression: a single integer literal or identifier, consumed from
/// the front of the tokens.
pub open spec fn spec_left_exp(ts: Seq<Token>) -> Option<(Expr, Seq<Token>)> {
    if ts.len() == 0 {
        None
    } else {
        match ts[0] {
            Token::Int(n) => Some((Expr::Int(n), ts.drop_first())),
            Token::Id(s) => Some((Expr::Id(s), ts.drop_first())),
            _ => None,
        }
    }
}

/// Folds further `op right` pairs onto `left`, left-associatively, while
/// the next token is a binary operator.
pub open spec fn spec_expr_tail(left: Expr, ts: Seq<Token>) -> Option<(Expr, Seq<Token>)>
    decreases ts.len(),
{
    if ts.len() > 0 && is_op_token(ts[0]) {
        match spec_left_exp(ts.drop_first()) {
            Some((right, ts2)) => {
                let combined = Expr::BinOp(Box::new(left), op_of_token(ts[0]), Box::new(right));
                if ts2.len() < ts.len() {
                    spec_expr_tail(combined, ts2)
                } else {
                    None
                }
            },
            None => None,
        }
    } else {
        Some((left, ts))
    }
}

/// An expression: a left expression followed by any number of
/// operator/left-expression pairs.
pub open spec fn spec_expr(ts: Seq<Token>) -> Option<(Expr, Seq<Token>)> {
    match spec_left_exp(ts) {
        Some((left, ts1)) => spec_expr_tail(left, ts1),
        None => None,
    }
}

/// An assignment statement starting at an identifier token:
/// `id = expr ;`.
pub open spec fn spec_assignment(ts: Seq<Token>) -> Option<(Option<StmtView>, Seq<Token>)> {
    if ts.len() >= 2 && ts[0] is Id && ts[1] is Equals {
        match spec_expr(ts.skip(2)) {
            Some((e, ts2)) => if ts2.len() > 0 && ts2[0] is Semicolon {
                Some((Some(StmtView::AssignV(Expr::Id(ts[0]->Id_0), e)), ts2.drop_first()))
            } else {
                None
            },
            None => None,
        }
    } else {
        None
    }
}

/// The next statement of the token sequence: nothing more at the end of the
/// input or before a token that starts no statement (the enclosing block or
/// the program ends there), a statement otherwise; `None` stands for a
/// malformed statement, on which the parser aborts.  A `break` keyword is
/// consumed and ends the statement list.
pub open spec fn spec_next_statement(ts: Seq<Token>) -> Option<(Option<StmtView>, Seq<Token>)>
    decreases ts.len(), 0int,
{
    if ts.len() == 0 {
        Some((None, ts))
    } else {
        match ts[0] {
            Token::Id(_) => spec_assignment(ts),
            Token::Keyword(kw) => {
                let ts1 = ts.drop_first();
                if kw@ == "return"@ {
                    match spec_expr(ts1) {
                        Some((e, ts2)) => if ts2.len() > 0 && ts2[0] is Semicolon {
                            Some((Some(StmtView::ReturnV(e)), ts2.drop_first()))
                        } else {
                            None
                        },
                        None => None,
                    }
                } else if kw@ == "if"@ || kw@ == "while"@ {
                    if ts1.len() > 0 && ts1[0] is LParen {
                        match spec_expr(ts1.drop_first()) {
                            Some((c, ts2)) => if ts2.len() >= 2 && ts2[0] is RParen && ts2[1]
                                is LBrace {
                                if ts2.skip(2).len() < ts.len() {
                                    match spec_statements(ts2.skip(2)) {
                                        Some((body, ts3)) => if ts3.len() > 0 && ts3[0]
                                            is RBrace {
                                            Some(
                                                (
                                                    Some(
                                                        if kw@ == "if"@ {
                                                            StmtView::IfV(c, body)
                                                        } else {
                                                            StmtView::WhileV(c, body)
                                                        },
                                                    ),
                                                    ts3.drop_first(),
                                                ),
                                            )
                                        } else {
                                            None
                                        },
                                        None => None,
                                    }
                                } else {
                                    None
                                }
                            } else {
                                None
                            },
                            None => None,
                        }
                    } else {
                        None
                    }
                } else if kw@ == "do"@ {
                    if ts1.len() > 0 && ts1[0] is LBrace {
                        if ts1.drop_first().len() < ts.len() {
                            match spec_statements(ts1.drop_first()) {
                                Some((body, ts2)) => if ts2.len() >= 3 && ts2[0] is RBrace
                                    && ts2[1] is Keyword && ts2[1]->Keyword_0@ == "while"@
                                    && ts2[2] is LParen {
                                    match spec_expr(ts2.skip(3)) {
                                        Some((c, ts3)) => if ts3.len() >= 2 && ts3[0] is RParen
                                            && ts3[1] is Semicolon {
                                            Some(
                                                (Some(StmtView::DoWhileV(body, c)), ts3.skip(2)),
                                            )
                                        } else {
                                            None
                                        },
                                        None => None,
                                    }
                                } else {
                                    None
                                },
                                None => None,
                            }
                        } else {
                            None
                        }
                    } else {
                        None
                    }
                } else {
                    Some((None, ts1))
                }
            },
            _ => Some((None, ts)),
        }
    }
}

/// The statement list starting here: statements are taken until
/// [`spec_next_statement`] yields no further statement.
pub open spec fn spec_statements(ts: Seq<Token>) -> Option<(Seq<StmtView>, Seq<Token>)>
    decreases ts.len(), 1int,
{
    match spec_next_statement(ts) {
        None => None,
        Some((None, rest)) => Some((seq![], rest)),
        Some((Some(sv), rest)) => if rest.len() < ts.len() {
            match spec_statements(rest) {
                Some((more, ts3)) => Some((seq![sv] + more, ts3)),
                None => None,
            }
        } else {
            Some((seq![sv], rest))
        },
    }
}

/// A parsed expression consumes at least one token; folding consumes none
/// or more.
proof fn lemma_expr_tail_len(left: Expr, ts: Seq<Token>)
    ensures
        spec_expr_tail(left, ts) matches Some(r) ==> r.1.len() <= ts.len(),
    decreases ts.len(),
{
    if ts.len() > 0 && is_op_token(ts[0]) {
        match spec_left_exp(ts.drop_first()) {
            Some((right, ts2)) => {
                let combined = Expr::BinOp(Box::new(left), op_of_token(ts[0]), Box::new(right));
                if ts2.len() < ts.len() {
                    lemma_expr_tail_len(combined, ts2);
                }
            },
            None => {},
        }
    }
}

/// A parsed expression consumes at least one token.
proof fn lemma_expr_len(ts: Seq<Token>)
    ensures
        spec_expr(ts) matches Some(r) ==> r.1.len() < ts.len(),
{
    match spec_left_exp(ts) {
        Some((left, ts1)) => {
            lemma_expr_tail_len(left, ts1);
        },
        None => {},
    }
}

/// Parsing never lengthens the input, and a produced statement consumes at
/// least one token.
proof fn lemma_next_statement_len(ts: Seq<Token>)
    ensures
        spec_next_statement(ts) matches Some(r) ==> r.1.len() <= ts.len() && (r.0 is Some
            ==> r.1.len() < ts.len()),
    decreases ts.len(), 0int,
{
    if ts.len() == 0 {
    } else {
        match ts[0] {
            Token::Id(_) => {
                lemma_expr_len(ts.skip(2));
            },
            Token::Keyword(kw) => {
                let ts1 = ts.drop_first();
                lemma_expr_len(ts1);
                if ts1.len() > 0 {
                    lemma_expr_len(ts1.drop_first());
                }
                if ts1.len() > 0 && ts1.drop_first().len() < ts.len() {
                    lemma_statements_len(ts1.drop_first());
                    match spec_statements(ts1.drop_first()) {
                        Some((_, ts2)) => {
                            lemma_expr_len(ts2.skip(3));
                        },
                        None => {},
                    }
                }
                match spec_expr(ts1.drop_first()) {
                    Some((_, ts2)) => {
                        if ts2.skip(2).len() < ts.len() {
                            lemma_statements_len(ts2.skip(2));
                        }
                    },
                    None => {},
                }
            },
            _ => {},
        }
    }
}

/// Parsing a statement list never lengthens the input.
proof fn lemma_statements_len(ts: Seq<Token>)
    ensures
        spec_statements(ts) matches Some(r) ==> r.1.len() <= ts.len(),
    decreases ts.len(), 1int,
{
    lemma_next_statement_len(ts);
    match spec_next_statement(ts) {
        Some((Some(_), rest)) => {
            if rest.len() < ts.len() {
                lemma_statements_len(rest);
            }
        },
        _ => {},
    }
}

/// Appending a statement appends its content.
proof fn lemma_stmts_view_push(ss: Seq<Statement>, s: Statement)
    ensures
        stmts_view(ss.push(s)) == stmts_view(ss).push(stmt_view(s)),
    decreases ss.len(),
{
    if ss.len() == 0 {
        assert(ss.push(s).drop_first() =~= Seq::<Statement>::empty());
        assert(ss.push(s)[0] == s);
        assert(stmts_view(ss.push(s)) == seq![stmt_view(s)] + stmts_view(
            Seq::<Statement>::empty(),
        ));
        assert(stmts_view(ss.push(s)) =~= stmts_view(ss).push(stmt_view(s)));
    } else {
        assert(ss.push(s).drop_first() =~= ss.drop_first().push(s));
        assert(ss.push(s)[0] == ss[0]);
        lemma_stmts_view_push(ss.drop_first(), s);
        assert(stmts_view(ss.push(s)) == seq![stmt_view(ss[0])] + stmts_view(
            ss.drop_first().push(s),
        ));
        assert(stmts_view(ss.push(s)) =~= stmts_view(ss).push(stmt_view(s)));
    }
}

/// Whether two tokens carry the same content.
fn token_eq(a: &Token, b: &Token) -> (r: bool)
    ensures
        r == (token_view(*a) == token_view(*b)),
{
    match (a, b) {
        (Token::Id(x), Token::Id(y)) => x.eq(y),
        (Token::Int(m), Token::Int(n)) => *m == *n,
        (Token::Keyword(x), Token::Keyword(y)) => x.eq(y),
        (Token::Equals, Token::Equals) => true,
        (Token::LessThan, Token::LessThan) => true,
        (Token::GreaterThan, Token::GreaterThan) => true,
        (Token::Plus, Token::Plus) => true,
        (Token::Minus, Token::Minus) => true,
        (Token::Mult, Token::Mult) => true,
        (Token::Div, Token::Div) => true,
        (Token::Mod, Token::Mod) => true,
        (Token::Semicolon, Token::Semicolon) => true,
        (Token::LParen, Token::LParen) => true,
        (Token::RParen, Token::RParen) => true,
        (Token::LBrace, Token::LBrace) => true,
        (Token::RBrace, Token::RBrace) => true,
        _ => false,
    }
}

/// The operator a token denotes, when it is one.
fn token_operator(t: &Token) -> (r: Option<Operator>)
    ensures
        r is Some <==> is_op_token(*t),
        r is Some ==> r->0 == op_of_token(*t),
{
    match t {
        Token::Plus => Some(Operator::Plus),
        Token::Minus => Some(Operator::Minus),
        Token::Mult => Some(Operator::Mult),
        Token::Div => Some(Operator::Div),
        Token::Mod => Some(Operator::Mod),
        Token::LessThan => Some(Operator::LessThan),
        _ => None,
    }
}

/// The operator a token denotes; the token must be an operator.
fn token_to_operator(t: &Token) -> (r: Operator)
    requires
        is_op_token(*t),
    ensures
        r == op_of_token(*t),
{
    match t {
        Token::Plus => Operator::Plus,
        Token::Minus => Operator::Minus,
        Token::Mult => Operator::Mult,
        Token::Div => Operator::Div,
        Token::Mod => Operator::Mod,
        Token::LessThan => Operator::LessThan,
        _ => unreached(),
    }
}

/// The parser: the token sequence and the position of the next token.
pub struct Parser {
    pub tokens: Vec<Token>,
    pub current: usize,
}

impl Parser {
    /// The tokens not yet consumed.
    pub open spec fn pending(&self) -> Seq<Token> {
        self.tokens@.skip(self.current as int)
    }

    /// The position never passes the end of the tokens.
    pub open spec fn wf(&self) -> bool {
        self.current <= self.tokens@.len()
    }

    /// A parser over the given tokens, positioned at the first.
    pub fn new(tokens: Vec<Token>) -> (p: Self)
        ensures
            p.wf(),
            p.pending() == tokens@,
    {
        let p = Parser { tokens, current: 0 };
        proof {
            assert(p.pending() =~= p.tokens@);
        }
        p
    }

    /// The next token, if any, without consuming it.
    fn peek(&self) -> (r: Option<&Token>)
        requires
            self.wf(),
        ensures
            r is Some <==> self.pending().len() > 0,
            r is Some ==> *r->0 == self.pending()[0],
    {
        if self.current < self.tokens.len() {
            proof {
                assert(self.pending()[0] == self.tokens@[self.current as int]);
            }
            Some(&self.tokens[self.current])
        } else {
            None
        }
    }

    /// Consumes the next token, which must carry the content of `tk`.
    fn consume(&mut self, tk: Token)
        requires
            old(self).wf(),
            old(self).pending().len() > 0,
            token_view(old(self).pending()[0]) == token_view(tk),
        ensures
            final(self).wf(),
            final(self).tokens == old(self).tokens,
            final(self).pending() == old(self).pending().drop_first(),
    {
        proof {
            assert(self.pending()[0] == self.tokens@[self.current as int]);
        }
        let n = self.tokens.len();
        proof {
            assert(self.current < n);
        }
        let same = token_eq(&self.tokens[self.current], &tk);
        if same {
            self.current = self.current + 1;
            proof {
                assert(self.pending() =~= old(self).pending().drop_first());
            }
        } else {
            proof {
                assert(false);
            }
        }
    }

    /// A single integer literal or identifier.
    fn left_exp(&mut self) -> (e: Expr)
        requires
            old(self).wf(),
            spec_left_exp(old(self).pending()) is Some,
        ensures
            final(self).wf(),
            final(self).tokens == old(self).tokens,
            spec_left_exp(old(self).pending()) == Some((e, final(self).pending())),
    {
        let t = match self.peek() {
            Some(t) => t.clone(),
            None => {
                proof {
                    assert(false);
                }
                unreached()
            },
        };
        match t {
            Token::Int(n) => {
                self.consume(Token::Int(n));
                Expr::Int(n)
            },
            Token::Id(id) => {
                self.consume(Token::Id(id.clone()));
                Expr::Id(id)
            },
            _ => {
                proof {
                    assert(false);
                }
                unreached()
            },
        }
    }

    /// An expression: a left expression, then further operator/left
    /// expression pairs folded left-associatively.
    #[verifier::loop_isolation(false)]
    fn eat_expr(&mut self) -> (e: Expr)
        requires
            old(self).wf(),
            spec_expr(old(self).pending()) is Some,
        ensures
            final(self).wf(),
            final(self).tokens == old(self).tokens,
            spec_expr(old(self).pending()) == Some((e, final(self).pending())),
    {
        let first = self.left_exp();
        let mut left = first;
        loop
            invariant
                self.wf(),
                self.tokens == old(self).tokens,
                spec_expr_tail(left, self.pending()) == spec_expr(old(self).pending()),
            decreases self.pending().len(),
        {
            let ghost pend = self.pending();
            let mut op_found: Option<Operator> = None;
            let mut op_tok: Option<Token> = None;
            match self.peek() {
                Some(t) => {
                    op_found = token_operator(t);
                    if op_found.is_some() {
                        op_tok = Some(t.clone());
                    }
                },
                None => {},
            }
            match op_found {
                Some(op) => {
                    let tk = match op_tok {
                        Some(tk) => tk,
                        None => {
                            proof {
                                assert(false);
                            }
                            unreached()
                        },
                    };
                    self.consume(tk);
                    proof {
                        assert(spec_left_exp(pend.drop_first()) is Some);
                    }
                    let right = self.left_exp();
                    let combined = Expr::BinOp(Box::new(left), op, Box::new(right));
                    proof {
                        assert(spec_expr_tail(combined, self.pending()) == spec_expr_tail(
                            left,
                            pend,
                        ));
                    }
                    left = combined;
                },
                None => {
                    proof {
                        assert(spec_expr_tail(left, pend) == Some((left, pend)));
                    }
                    return left;
                },
            }
        }
    }

    /// The statements from here until no further statement can start.
    #[verifier::loop_isolation(false)]
    fn get_statements(&mut self) -> (r: Vec<Statement>)
        requires
            old(self).wf(),
            spec_statements(old(self).pending()) is Some,
        ensures
            final(self).wf(),
            final(self).tokens == old(self).tokens,
            spec_statements(old(self).pending()) matches Some(pr) ==> stmts_view(r@) == pr.0
                && final(self).pending() == pr.1,
        decreases old(self).pending().len(), 3int,
    {
        let mut stmts: Vec<Statement> = Vec::new();
        proof {
            assert(stmts_view(stmts@) =~= Seq::<StmtView>::empty());
        }
        loop
            invariant
                self.wf(),
                self.tokens == old(self).tokens,
                self.pending().len() <= old(self).pending().len(),
                spec_statements(self.pending()) is Some,
                spec_statements(old(self).pending()) matches Some(pr) ==> (spec_statements(
                    self.pending(),
                ) matches Some(cur) && stmts_view(stmts@) + cur.0 =~= pr.0 && cur.1 == pr.1),
            decreases self.pending().len(), 2int,
        {
            let ghost pend = self.pending();
            proof {
                lemma_next_statement_len(pend);
            }
            let s = self.next_statement();
            match s {
                Some(st) => {
                    let ghost pre = stmts@;
                    stmts.push(st);
                    proof {
                        assert(stmts@ =~= pre.push(st));
                        lemma_stmts_view_push(pre, st);
                    }
                },
                None => {
                    return stmts;
                },
            }
        }
    }

    /// Parses the whole token sequence into a program: statements are taken
    /// until no further statement can start; any tokens after that point
    /// are left unconsumed.
    pub fn parse(&mut self) -> (p: Program)
        requires
            old(self).wf(),
            spec_statements(old(self).pending()) is Some,
        ensures
            final(self).wf(),
            final(self).tokens == old(self).tokens,
            spec_statements(old(self).pending()) matches Some(pr) ==> stmts_view(p.stmts@) == pr.0
                && final(self).pending() == pr.1,
    {
        let stmts = self.get_statements();
        Program::new(stmts)
    }

    /// The next statement, if one starts here, as [`spec_next_statement`]
    /// describes.
    pub fn next_statement(&mut self) -> (r: Option<Statement>)
        requires
            old(self).wf(),
            spec_next_statement(old(self).pending()) is Some,
        ensures
            final(self).wf(),
            final(self).tokens == old(self).tokens,
            spec_next_statement(old(self).pending()) matches Some(pr) ==> ((r is Some <==> pr.0
                is Some) && (r matches Some(st) ==> pr.0 == Some(stmt_view(st)))
                && final(self).pending() == pr.1),
        decreases old(self).pending().len(), 2int,
    {
        let mut kw_opt: Option<String> = None;
        let mut is_id = false;
        match self.peek() {
            Some(t) => {
                match t {
                    Token::Id(_) => {
                        is_id = true;
                    },
                    Token::Keyword(s) => {
                        kw_opt = Some(s.clone());
                    },
                    _ => {},
                }
            },
            None => {},
        }
        if is_id {
            return self.eat_assignment();
        }
        match kw_opt {
            Some(kw) => self.eat_keyword(kw),
            None => {
                return None;
            },
        }
    }

    /// An assignment statement: `id = expr ;`.
    fn eat_assignment(&mut self) -> (r: Option<Statement>)
        requires
            old(self).wf(),
            old(self).pending().len() > 0,
            old(self).pending()[0] is Id,
            spec_assignment(old(self).pending()) is Some,
        ensures
            final(self).wf(),
            final(self).tokens == old(self).tokens,
            spec_assignment(old(self).pending()) matches Some(pr) ==> ((r is Some <==> pr.0
                is Some) && (r matches Some(st) ==> pr.0 == Some(stmt_view(st)))
                && final(self).pending() == pr.1),
    {
        let id = match self.peek() {
            Some(t) => match t {
                Token::Id(id) => id.clone(),
                _ => {
                    proof {
                        assert(false);
                    }
                    unreached()
                },
            },
            None => {
                proof {
                    assert(false);
                }
                unreached()
            },
        };
        let ghost p0 = old(self).pending();
        self.consume(Token::Id(id.clone()));
        proof {
            assert(p0.len() >= 2 && p0[1] is Equals);
        }
        self.consume(Token::Equals);
        proof {
            assert(self.pending() =~= p0.skip(2));
            assert(spec_expr(p0.skip(2)) is Some);
        }
        let e = self.eat_expr();
        proof {
            assert(self.pending().len() > 0 && self.pending()[0] is Semicolon);
        }
        self.consume(Token::Semicolon);
        Some(Statement::Assignment(Box::new(Expr::Id(id)), Box::new(e)))
    }

    /// A statement introduced by a keyword; the keyword token itself is
    /// consumed first.
    fn eat_keyword(&mut self, kw: String) -> (r: Option<Statement>)
        requires
            old(self).wf(),
            old(self).pending().len() > 0,
            old(self).pending()[0] is Keyword,
            old(self).pending()[0]->Keyword_0@ == kw@,
            spec_next_statement(old(self).pending()) is Some,
        ensures
            final(self).wf(),
            final(self).tokens == old(self).tokens,
            spec_next_statement(old(self).pending()) matches Some(pr) ==> ((r is Some <==> pr.0
                is Some) && (r matches Some(st) ==> pr.0 == Some(stmt_view(st)))
                && final(self).pending() == pr.1),
        decreases old(self).pending().len(), 1int,
    {
        let ghost p0 = old(self).pending();
        let ghost ts1 = p0.drop_first();
        self.consume(Token::Keyword(kw.clone()));
        if kw.eq(&String::from_str("return")) {
            proof {
                assert(spec_expr(ts1) is Some);
            }
            let e = self.eat_expr();
            proof {
                assert(self.pending().len() > 0 && self.pending()[0] is Semicolon);
            }
            self.consume(Token::Semicolon);
            Some(Statement::Return(Box::new(e)))
        } else if kw.eq(&String::from_str("if")) {
            proof {
                assert(ts1.len() > 0 && ts1[0] is LParen);
            }
            self.consume(Token::LParen);
            proof {
                assert(spec_expr(ts1.drop_first()) is Some);
            }
            let c = self.eat_expr();
            let ghost ts2 = self.pending();
            proof {
                assert(ts2.len() >= 2 && ts2[0] is RParen && ts2[1] is LBrace);
            }
            self.consume(Token::RParen);
            self.consume(Token::LBrace);
            proof {
                assert(self.pending() =~= ts2.skip(2));
                lemma_expr_len(ts1.drop_first());
                assert(ts2.skip(2).len() < p0.len());
                assert(spec_statements(ts2.skip(2)) is Some);
            }
            let body = self.get_statements();
            proof {
                assert(self.pending().len() > 0 && self.pending()[0] is RBrace);
            }
            self.consume(Token::RBrace);
            Some(Statement::If(Box::new(c), body))
        } else if kw.eq(&String::from_str("while")) {
            proof {
                assert(ts1.len() > 0 && ts1[0] is LParen);
            }
            self.consume(Token::LParen);
            proof {
                assert(spec_expr(ts1.drop_first()) is Some);
            }
            let c = self.eat_expr();
            let ghost ts2 = self.pending();
            proof {
                assert(ts2.len() >= 2 && ts2[0] is RParen && ts2[1] is LBrace);
            }
            self.consume(Token::RParen);
            self.consume(Token::LBrace);
            proof {
                assert(self.pending() =~= ts2.skip(2));
                lemma_expr_len(ts1.drop_first());
                assert(ts2.skip(2).len() < p0.len());
                assert(spec_statements(ts2.skip(2)) is Some);
            }
            let body = self.get_statements();
            proof {
                assert(self.pending().len() > 0 && self.pending()[0] is RBrace);
            }
            self.consume(Token::RBrace);
            Some(Statement::While(Box::new(c), body))
        } else if kw.eq(&String::from_str("do")) {
            proof {
                assert(ts1.len() > 0 && ts1[0] is LBrace);
            }
            self.consume(Token::LBrace);
            proof {
                assert(self.pending() =~= ts1.drop_first());
                assert(ts1.drop_first().len() < p0.len());
                assert(spec_statements(ts1.drop_first()) is Some);
            }
            let body = self.get_statements();
            let ghost ts2 = self.pending();
            proof {
                assert(ts2.len() >= 3 && ts2[0] is RBrace && ts2[1] is Keyword
                    && ts2[1]->Keyword_0@ == "while"@ && ts2[2] is LParen);
            }
            self.consume(Token::RBrace);
            self.consume(Token::Keyword(String::from_str("while")));
            self.consume(Token::LParen);
            proof {
                assert(self.pending() =~= ts2.skip(3));
                assert(spec_expr(ts2.skip(3)) is Some);
            }
            let c = self.eat_expr();
            let ghost ts3 = self.pending();
            proof {
                assert(ts3.len() >= 2 && ts3[0] is RParen && ts3[1] is Semicolon);
            }
            self.consume(Token::RParen);
            self.consume(Token::Semicolon);
            proof {
                assert(self.pending() =~= ts3.skip(2));
            }
            Some(Statement::DoWhile(body, Box::new(c)))
        } else {
            None
        }
    }
}

} // verus!
