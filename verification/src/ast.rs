//! The abstract syntax tree of the analyzed language: programs, statements
//! and expressions, together with the specification-level view of the
//! identifiers an expression mentions.

use vstd::prelude::*;

verus! {

/// A whole program: an ordered list of statements.
#[derive(Debug, PartialEq, Eq)]
pub struct Program {
    pub stmts: Vec<Statement>,
}

/// One structured statement of the language.
#[derive(Debug, PartialEq, Eq)]
pub enum Statement {
    /// `target = expr;` — the target is an `Expr::Id`.
    Assignment(Box<Expr>, Box<Expr>),
    /// `return expr;`
    Return(Box<Expr>),
    /// `if (cond) { body }`
    If(Box<Expr>, Vec<Statement>),
    /// `while (cond) { body }`
    While(Box<Expr>, Vec<Statement>),
    /// `do { body } while (cond);`
    DoWhile(Vec<Statement>, Box<Expr>),
}

/// An expression: an identifier, an integer literal, or a binary operation.
#[derive(Debug, PartialEq, Eq)]
pub enum Expr {
    Id(String),
    Int(i32),
    BinOp(Box<Expr>, Operator, Box<Expr>),
}

/// A binary operator.
#[derive(Debug, Clone, Copy, PartialEq, Eq)]
pub enum Operator {
    Plus,
    Minus,
    Mult,
    Div,
    Mod,
    LessThan,
}

/// The identifiers occurring in `e`, in pre-order (left subtree before right
/// subtree), with repetitions kept.  Each identifier is given as its
/// character sequence.
pub open spec fn expr_ids(e: Expr) -> Seq<Seq<char>>
    decreases e,
{
    match e {
        Expr::Id(s) => seq![s@],
        Expr::Int(_) => seq![],
        Expr::BinOp(l, _, r) => expr_ids(*l) + expr_ids(*r),
    }
}

/// The set of identifiers occurring in `e`.
pub open spec fn expr_id_set(e: Expr) -> Set<Seq<char>> {
    expr_ids(e).to_set()
}

/// The number of `Expr` values in the tree rooted at `e`; a termination
/// measure for traversals.
pub open spec fn expr_size(e: Expr) -> nat
    decreases e,
{
    match e {
        Expr::Id(_) => 1,
        Expr::Int(_) => 1,
        Expr::BinOp(l, _, r) => 1 + expr_size(*l) + expr_size(*r),
    }
}

impl Clone for Expr {
    /// A deep copy that is equal (as a value) to the original.
    fn clone(&self) -> (res: Self)
        ensures
            res == *self,
        decreases *self,
    {
        match self {
            Expr::Id(s) => Expr::Id(s.clone()),
            Expr::Int(n) => Expr::Int(*n),
            Expr::BinOp(l, op, r) => Expr::BinOp(Box::new((**l).clone()), *op, Box::new((**r).clone())),
        }
    }
}

impl Program {
    /// Wraps a statement list as a program.
    pub fn new(stmts: Vec<Statement>) -> (p: Self)
        ensures
            p.stmts == stmts,
    {
        Program { stmts }
    }
}

/// Yields the identifiers of one expression, in pre-order.
pub struct ExprIdIterator {
    pub stack: Vec<Box<Expr>>,
}

/// The identifiers still to be yielded by an iterator whose stack is `st`:
/// the pre-order identifiers of the top of the stack come first.
pub open spec fn stack_ids(st: Seq<Box<Expr>>) -> Seq<Seq<char>>
    decreases st.len(),
{
    if st.len() == 0 {
        seq![]
    } else {
        expr_ids(*st.last()) + stack_ids(st.drop_last())
    }
}

/// The total size of the expressions on the stack; a termination measure.
pub open spec fn stack_size(st: Seq<Box<Expr>>) -> nat
    decreases st.len(),
{
    if st.len() == 0 {
        0
    } else {
        expr_size(*st.last()) + stack_size(st.drop_last())
    }
}

impl ExprIdIterator {
    /// The identifiers this iterator has still to yield, in order.
    pub open spec fn ids(&self) -> Seq<Seq<char>> {
        stack_ids(self.stack@)
    }

    fn new(expr: Box<Expr>) -> (it: Self)
        ensures
            it.ids() == expr_ids(*expr),
    {
        let mut stack: Vec<Box<Expr>> = Vec::new();
        stack.push(expr);
        let it = ExprIdIterator { stack };
        proof {
            assert(it.stack@.drop_last() =~= Seq::<Box<Expr>>::empty());
            assert(it.stack@.last() == expr);
            assert(it.ids() == expr_ids(*expr) + stack_ids(Seq::<Box<Expr>>::empty()));
            assert(it.ids() =~= expr_ids(*expr));
        }
        it
    }

    /// Yields the next identifier in pre-order, or `None` when no identifier
    /// is left.
    pub fn next(&mut self) -> (r: Option<String>)
        ensures
            r is Some <==> old(self).ids().len() > 0,
            r is Some ==> r->0@ == old(self).ids()[0] && final(self).ids() == old(self).ids().drop_first(),
            r is None ==> final(self).ids() == old(self).ids(),
    {
        loop
            invariant
                stack_ids(self.stack@) == old(self).ids(),
            decreases stack_size(self.stack@),
        {
            let ghost pre = self.stack@;
            match self.stack.pop() {
                None => {
                    proof {
                        assert(pre.len() == 0);
                        assert(old(self).ids().len() == 0);
                    }
                    return None;
                },
                Some(b) => {
                    let ghost popped: Expr = *b;
                    proof {
                        assert(pre.drop_last() =~= self.stack@);
                        assert(pre.last() == b);
                        assert(stack_ids(pre) == expr_ids(popped) + stack_ids(self.stack@));
                        assert(stack_size(pre) == expr_size(popped) + stack_size(self.stack@));
                    }
                    match *b {
                        Expr::Id(id) => {
                            proof {
                                assert(stack_ids(pre) == seq![id@] + stack_ids(self.stack@));
                                assert(stack_ids(pre)[0] == id@);
                                assert(stack_ids(pre).drop_first() =~= stack_ids(self.stack@));
                            }
                            return Some(id);
                        },
                        Expr::Int(_) => {
                            proof {
                                assert(stack_ids(pre) =~= stack_ids(self.stack@));
                                assert(stack_size(pre) > stack_size(self.stack@));
                            }
                        },
                        Expr::BinOp(l, op, r) => {
                            let ghost mid = self.stack@;
                            let ghost le: Expr = *l;
                            let ghost re: Expr = *r;
                            self.stack.push(r);
                            let ghost with_r = self.stack@;
                            self.stack.push(l);
                            proof {
                                assert(popped == Expr::BinOp(Box::new(le), op, Box::new(re)));
                                assert(expr_ids(popped) == expr_ids(le) + expr_ids(re));
                                assert(expr_size(popped) == 1 + expr_size(le) + expr_size(re));
                                assert(with_r.drop_last() =~= mid);
                                assert(with_r.last() == Box::new(re));
                                assert(stack_ids(with_r) == expr_ids(re) + stack_ids(mid));
                                assert(stack_size(with_r) == expr_size(re) + stack_size(mid));
                                assert(self.stack@.drop_last() =~= with_r);
                                assert(self.stack@.last() == Box::new(le));
                                assert(stack_ids(self.stack@) == expr_ids(le) + (expr_ids(re)
                                    + stack_ids(mid)));
                                assert(stack_ids(self.stack@) =~= stack_ids(pre));
                                assert(stack_size(self.stack@) < stack_size(pre));
                            }
                        },
                    }
                },
            }
        }
    }
}

impl Expr {
    /// An iterator over the identifiers of this expression, in pre-order.
    pub fn iter(&self) -> (it: ExprIdIterator)
        ensures
            it.ids() == expr_ids(*self),
    {
        ExprIdIterator::new(Box::new(self.clone()))
    }
}

} // verus!
