//! The pretty printer: programs back to source text.
//!
//! [`Program::pretty_print_program`] renders a program; the specification
//! functions [`pp_program`], [`pp_statement`] and [`pp_expr`] give the text
//! produced, character by character.

use vstd::prelude::*;
use vstd::string::StringExecFns;

use crate::ast::{Expr, Operator, Program, Statement};
use crate::lexer::chars_to_string;

verus! {

/// The character of one decimal digit.
pub open spec fn digit_char(d: int) -> char {
    if d == 0 {
        '0'
    } else if d == 1 {
        '1'
    } else if d == 2 {
        '2'
    } else if d == 3 {
        '3'
    } else if d == 4 {
        '4'
    } else if d == 5 {
        '5'
    } else if d == 6 {
        '6'
    } else if d == 7 {
        '7'
    } else if d == 8 {
        '8'
    } else {
        '9'
    }
}

/// The decimal digits of a non-negative number.
pub open spec fn nat_repr(n: int) -> Seq<char>
    decreases n,
{
    if n < 10 {
        seq![digit_char(n)]
    } else {
        nat_repr(n / 10) + seq![digit_char(n % 10)]
    }
}

/// The decimal text of a number, with a minus sign when negative.
pub open spec fn int_repr(n: int) -> Seq<char> {
    if n < 0 {
        seq!['-'] + nat_repr(-n)
    } else {
        nat_repr(n)
    }
}

/// The text of an operator.
pub open spec fn pp_operator(op: Operator) -> Seq<char> {
    match op {
        Operator::Plus => "+"@,
        Operator::Minus => "-"@,
        Operator::Mult => "*"@,
        Operator::Div => "/"@,
        Operator::Mod => "%"@,
        Operator::LessThan => "<"@,
    }
}

/// The text of an expression: identifiers and literals as themselves,
/// binary operations as `left op right` with single spaces.
pub open spec fn pp_expr(e: Expr) -> Seq<char>
    decreases e,
{
    match e {
        Expr::Id(s) => s@,
        Expr::Int(n) => int_repr(n as int),
        Expr::BinOp(l, op, r) => pp_expr(*l) + " "@ + pp_operator(op) + " "@ + pp_expr(*r),
    }
}

/// The text of one statement, one line per simple statement, blocks in
/// braces.
pub open spec fn pp_statement(s: Statement) -> Seq<char>
    decreases s,
{
    match s {
        Statement::If(c, body) => "if ("@ + pp_expr(*c) + ") {\n"@ + pp_statements(body@)
            + "\n}\n"@,
        Statement::While(c, body) => "while ("@ + pp_expr(*c) + ") {\n"@ + pp_statements(body@)
            + "}\n"@,
        Statement::DoWhile(body, c) => "do {\n"@ + pp_statements(body@) + "} while ("@ + pp_expr(
            *c,
        ) + ");\n"@,
        Statement::Assignment(l, e) => pp_expr(*l) + " = "@ + pp_expr(*e) + ";\n"@,
        Statement::Return(e) => "return "@ + pp_expr(*e) + ";\n"@,
    }
}

/// The text of a statement list.
pub open spec fn pp_statements(ss: Seq<Statement>) -> Seq<char>
    decreases ss,
{
    if ss.len() == 0 {
        seq![]
    } else {
        pp_statement(ss[0]) + pp_statements(ss.drop_first())
    }
}

/// The text of a whole program.
pub open spec fn pp_program(p: Program) -> Seq<char> {
    "Program :\n"@ + pp_statements(p.stmts@)
}

/// The character of a digit, executable.
fn digit_char_of(d: u64) -> (c: char)
    requires
        d <= 9,
    ensures
        c == digit_char(d as int),
{
    if d == 0 {
        '0'
    } else if d == 1 {
        '1'
    } else if d == 2 {
        '2'
    } else if d == 3 {
        '3'
    } else if d == 4 {
        '4'
    } else if d == 5 {
        '5'
    } else if d == 6 {
        '6'
    } else if d == 7 {
        '7'
    } else if d == 8 {
        '8'
    } else {
        '9'
    }
}

/// The decimal digits of a non-negative number, as characters.
fn nat_digits(m: u64) -> (v: Vec<char>)
    ensures
        v@ == nat_repr(m as int),
    decreases m,
{
    if m < 10 {
        let mut v: Vec<char> = Vec::new();
        v.push(digit_char_of(m));
        proof {
            assert(v@ =~= nat_repr(m as int));
        }
        v
    } else {
        let mut v = nat_digits(m / 10);
        v.push(digit_char_of(m % 10));
        proof {
            assert(v@ =~= nat_repr(m as int));
        }
        v
    }
}

/// The decimal text of a non-negative number.
pub(crate) fn u64_to_string(m: u64) -> (s: String)
    ensures
        s@ == nat_repr(m as int),
{
    let v = nat_digits(m);
    chars_to_string(&v)
}

/// The decimal text of a number, with a minus sign when negative.
fn i32_to_string(n: i32) -> (s: String)
    ensures
        s@ == int_repr(n as int),
{
    if n >= 0 {
        u64_to_string(n as u64)
    } else {
        let m: u64 = (-(n as i64)) as u64;
        let digits = nat_digits(m);
        let mut v: Vec<char> = Vec::new();
        v.push('-');
        let mut i: usize = 0;
        while i < digits.len()
            invariant
                i <= digits@.len(),
                v@ =~= seq!['-'] + digits@.take(i as int),
            decreases digits@.len() - i,
        {
            v.push(digits[i]);
            proof {
                assert(v@ =~= seq!['-'] + digits@.take(i as int + 1));
            }
            i += 1;
        }
        proof {
            assert(digits@.take(digits@.len() as int) =~= digits@);
            assert(v@ =~= int_repr(n as int));
        }
        chars_to_string(&v)
    }
}

/// The text of an operator.
pub(crate) fn pretty_print_operator(op: &Operator) -> (s: String)
    ensures
        s@ == pp_operator(*op),
{
    match op {
        Operator::Plus => String::from_str("+"),
        Operator::Minus => String::from_str("-"),
        Operator::Mult => String::from_str("*"),
        Operator::Div => String::from_str("/"),
        Operator::Mod => String::from_str("%"),
        Operator::LessThan => String::from_str("<"),
    }
}

/// The text of an expression.
pub(crate) fn pretty_print_expr(ex: &Expr) -> (s: String)
    ensures
        s@ == pp_expr(*ex),
    decreases *ex,
{
    match ex {
        Expr::Id(id) => id.clone(),
        Expr::Int(n) => i32_to_string(*n),
        Expr::BinOp(l, op, r) => {
            let mut sb = pretty_print_expr(&**l);
            let o = pretty_print_operator(op);
            let rr = pretty_print_expr(&**r);
            sb.append(" ");
            sb.append(o.as_str());
            sb.append(" ");
            sb.append(rr.as_str());
            sb
        },
    }
}

impl Program {
    /// The text of a whole program.
    pub fn pretty_print_program(p: &Program) -> (s: String)
        ensures
            s@ == pp_program(*p),
    {
        let mut sb = String::new();
        sb.append("Program :\n");
        let body = Self::pretty_print_statements(&p.stmts);
        sb.append(body.as_str());
        sb
    }

    /// The text of a statement list.
    #[verifier::loop_isolation(false)]
    fn pretty_print_statements(ss: &Vec<Statement>) -> (s: String)
        ensures
            s@ == pp_statements(ss@),
        decreases ss@, 1int,
    {
        let mut sb = String::new();
        let mut i: usize = 0;
        proof {
            assert(ss@.skip(0) =~= ss@);
            assert(sb@ + pp_statements(ss@.skip(0)) =~= pp_statements(ss@));
        }
        while i < ss.len()
            invariant
                i <= ss@.len(),
                sb@ + pp_statements(ss@.skip(i as int)) == pp_statements(ss@),
            decreases ss@.len() - i,
        {
            let part = Self::pretty_print_statement(&ss[i]);
            sb.append(part.as_str());
            proof {
                assert(ss@.skip(i as int)[0] == ss@[i as int]);
                assert(ss@.skip(i as int).drop_first() =~= ss@.skip(i as int + 1));
                assert(pp_statements(ss@.skip(i as int)) == pp_statement(ss@[i as int])
                    + pp_statements(ss@.skip(i as int + 1)));
                assert(sb@ + pp_statements(ss@.skip(i as int + 1)) =~= pp_statements(ss@));
            }
            i += 1;
        }
        proof {
            assert(ss@.skip(ss@.len() as int) =~= Seq::<Statement>::empty());
            assert(sb@ =~= pp_statements(ss@));
        }
        sb
    }

    /// The text of one statement.
    fn pretty_print_statement(s: &Statement) -> (r: String)
        ensures
            r@ == pp_statement(*s),
        decreases *s, 2int,
    {
        match s {
            Statement::If(c, statements) => {
                let cond = pretty_print_expr(&**c);
                let stmts = Self::pretty_print_statements(statements);
                let mut sb = String::from_str("if (");
                sb.append(cond.as_str());
                sb.append(") {\n");
                sb.append(stmts.as_str());
                sb.append("\n}\n");
                sb
            },
            Statement::While(c, statements) => {
                let cond = pretty_print_expr(&**c);
                let stmts = Self::pretty_print_statements(statements);
                let mut sb = String::from_str("while (");
                sb.append(cond.as_str());
                sb.append(") {\n");
                sb.append(stmts.as_str());
                sb.append("}\n");
                sb
            },
            Statement::DoWhile(statements, c) => {
                let stmts = Self::pretty_print_statements(statements);
                let cond = pretty_print_expr(&**c);
                let mut sb = String::from_str("do {\n");
                sb.append(stmts.as_str());
                sb.append("} while (");
                sb.append(cond.as_str());
                sb.append(");\n");
                sb
            },
            Statement::Assignment(id, e) => {
                let mut sb = pretty_print_expr(&**id);
                let rhs = pretty_print_expr(&**e);
                sb.append(" = ");
                sb.append(rhs.as_str());
                sb.append(";\n");
                sb
            },
            Statement::Return(e) => {
                let mut sb = String::from_str("return ");
                let rhs = pretty_print_expr(&**e);
                sb.append(rhs.as_str());
                sb.append(";\n");
                sb
            },
        }
    }

    /// The text of an expression.
    fn pretty_print_expr(ex: &Expr) -> (s: String)
        ensures
            s@ == pp_expr(*ex),
    {
        pretty_print_expr(ex)
    }

    /// The text of an operator.
    fn pretty_print_operator(op: &Operator) -> (s: String)
        ensures
            s@ == pp_operator(*op),
    {
        pretty_print_operator(op)
    }
}

} // verus!
