//! Rendering of numbers and types as text.

use crate::ast::{Expr, Op, PrimitiveType, Term, Ty};
use vstd::prelude::*;
use vstd::string::StringExecFns;

verus! {

/// The character of a decimal digit.
pub open spec fn digit_char(d: nat) -> char {
    if d == 0 {
        '0'
    } else if d == 1 {
        '1'
    } else if d == 2 {
        '2'
    } else if d == 3 {
        '3'
    } else if d == 4 {
        '4'
    } else if d == 5 {
        '5'
    } else if d == 6 {
        '6'
    } else if d == 7 {
        '7'
    } else if d == 8 {
        '8'
    } else {
        '9'
    }
}

/// The decimal digits of a number, without leading zeros.
pub open spec fn decimal(n: nat) -> Seq<char>
    decreases n,
{
    if n < 10 {
        seq![digit_char(n)]
    } else {
        decimal(n / 10).push(digit_char(n % 10))
    }
}

/// The decimal form of an integer, with a minus sign if it is negative.
pub open spec fn signed_decimal(n: int) -> Seq<char> {
    if n < 0 {
        seq!['-'] + decimal((-n) as nat)
    } else {
        decimal(n as nat)
    }
}

/// The text of a type: `'n` for a variable, `(a -> b)` for a function type,
/// the bare name for a constructor without arguments and `name<a>` for one
/// with a single argument.
pub open spec fn render(t: Ty) -> Seq<char>
    decreases t,
{
    match t {
        Ty::Var(n) => "'"@ + decimal(n as nat),
        Ty::Fun(a, r) => "("@ + render(*a) + " -> "@ + render(*r) + ")"@,
        Ty::Con(name, params) => if params.len() == 0 {
            name
        } else if params.len() == 1 {
            name + "<"@ + render(params[0]) + ">"@
        } else {
            name + "<"@ + render(params[1]) + " "@ + render_list(params) + ">"@
        },
    }
}

/// The texts of the types of `ps`, each behind a comma and a space.
pub open spec fn render_list(ps: Seq<Ty>) -> Seq<char>
    decreases ps,
{
    if ps.len() == 0 {
        Seq::empty()
    } else {
        render_list(ps.drop_last()) + ", "@ + render(ps.last())
    }
}

/// Appends one decimal digit to `out`.
pub(crate) fn push_digit(out: &mut String, d: u32)
    requires
        d < 10,
    ensures
        final(out)@ == old(out)@.push(digit_char(d as nat)),
{
    proof {
        reveal_strlit("0");
        reveal_strlit("1");
        reveal_strlit("2");
        reveal_strlit("3");
        reveal_strlit("4");
        reveal_strlit("5");
        reveal_strlit("6");
        reveal_strlit("7");
        reveal_strlit("8");
        reveal_strlit("9");
    }
    let digit = if d == 0 {
        "0"
    } else if d == 1 {
        "1"
    } else if d == 2 {
        "2"
    } else if d == 3 {
        "3"
    } else if d == 4 {
        "4"
    } else if d == 5 {
        "5"
    } else if d == 6 {
        "6"
    } else if d == 7 {
        "7"
    } else if d == 8 {
        "8"
    } else {
        "9"
    };
    assert(digit@ =~= seq![digit_char(d as nat)]);
    out.append(digit);
    assert(out@ =~= old(out)@.push(digit_char(d as nat)));
}

/// Appends the decimal digits of `n` to `out`.
pub fn push_decimal(out: &mut String, n: u32)
    ensures
        final(out)@ == old(out)@ + decimal(n as nat),
    decreases n,
{
    if n < 10 {
        push_digit(out, n);
        assert(out@ =~= old(out)@ + decimal(n as nat));
    } else {
        push_decimal(out, n / 10);
        push_digit(out, n % 10);
        assert(out@ =~= old(out)@ + decimal(n as nat));
    }
}

/// Appends the text of `t` to `out`.
pub fn push_type(out: &mut String, t: &PrimitiveType)
    ensures
        final(out)@ == old(out)@ + render(t@),
    decreases t,
{
    match t {
        PrimitiveType::Var(n) => {
            out.append("'");
            push_decimal(out, *n);
            assert(out@ =~= old(out)@ + render(t@));
        },
        PrimitiveType::Fun(a, r) => {
            out.append("(");
            push_type(out, a);
            out.append(" -> ");
            push_type(out, r);
            out.append(")");
            assert(out@ =~= old(out)@ + render(t@));
        },
        PrimitiveType::Con(name, params) => {
            let ghost ps = t@->Con_1;
            out.append(name.as_str());
            if params.len() == 1 {
                out.append("<");
                push_type(out, &params[0]);
                out.append(">");
                assert(ps[0] == params@[0]@);
                assert(out@ =~= old(out)@ + render(t@));
            } else if params.len() >= 2 {
                out.append("<");
                push_type(out, &params[1]);
                out.append(" ");
                assert(ps[1] == params@[1]@);
                let ghost head = out@;
                let mut i: usize = 0;
                while i < params.len()
                    invariant
                        i <= params.len(),
                        t matches PrimitiveType::Con(_, p) && p == params,
                        ps == t@->Con_1,
                        out@ == head + render_list(ps.take(i as int)),
                    decreases params.len() - i,
                {
                    out.append(", ");
                    push_type(out, &params[i]);
                    proof {
                        assert(ps[i as int] == params@[i as int]@);
                        assert(ps.take(i + 1).drop_last() =~= ps.take(i as int));
                        assert(out@ =~= head + render_list(ps.take(i + 1)));
                    }
                    i += 1;
                }
                out.append(">");
                assert(ps.take(params.len() as int) =~= ps);
                assert(out@ =~= old(out)@ + render(t@));
            } else {
                assert(out@ =~= old(out)@ + render(t@));
            }
        },
    }
}

impl PrimitiveType {
    /// The text of this type.
    pub fn to_string(&self) -> (text: String)
        ensures
            text@ == render(self@),
    {
        let mut text = String::new();
        push_type(&mut text, self);
        assert(text@ =~= render(self@));
        text
    }
}

/// The text of an operator.
pub open spec fn render_op(op: Op) -> Seq<char> {
    match op {
        Op::Add => "+"@,
        Op::Mul => "*"@,
        Op::Gt => ">"@,
        Op::Lt => "<"@,
        Op::And => "&&"@,
        Op::Or => "||"@,
        Op::Sub => "-"@,
        Op::Div => "/"@,
        Op::Equal => "="@,
    }
}

/// The text of an expression, with every compound expression in
/// parentheses.
pub open spec fn render_term(e: Term) -> Seq<char>
    decreases e,
{
    match e {
        Term::Num(n) => signed_decimal(n as int),
        Term::Bool(b) => if b {
            "true"@
        } else {
            "false"@
        },
        Term::Var(name) => name,
        Term::BinOp(l, op, r) => "("@ + render_term(*l) + " "@ + render_op(op) + " "@ + render_term(
            *r,
        ) + ")"@,
        Term::Fun(x, body) => "(fun "@ + x + " -> "@ + render_term(*body) + ")"@,
        Term::App(f, a) => "("@ + render_term(*f) + " "@ + render_term(*a) + ")"@,
        Term::Let(x, v, body) => "(let "@ + x + " = "@ + render_term(*v) + " in "@ + render_term(
            *body,
        ) + ")"@,
        Term::LetRec(x, v, body) => "(letrec "@ + x + " = "@ + render_term(*v) + " in "@
            + render_term(*body) + ")"@,
        Term::If(p, t, f) => "(if "@ + render_term(*p) + " then "@ + render_term(*t) + " else "@
            + render_term(*f) + ")"@,
    }
}

/// The text of an operator.
pub fn op_text(op: Op) -> (text: &'static str)
    ensures
        text@ == render_op(op),
{
    match op {
        Op::Add => "+",
        Op::Mul => "*",
        Op::Gt => ">",
        Op::Lt => "<",
        Op::And => "&&",
        Op::Or => "||",
        Op::Sub => "-",
        Op::Div => "/",
        Op::Equal => "=",
    }
}

/// Appends the decimal form of `n` to `out`.
pub fn push_signed(out: &mut String, n: i32)
    ensures
        final(out)@ == old(out)@ + signed_decimal(n as int),
{
    if n < 0 {
        proof {
            reveal_strlit("-");
        }
        out.append("-");
        let magnitude = (-(n as i64)) as u32;
        push_decimal(out, magnitude);
        assert(out@ =~= old(out)@ + signed_decimal(n as int));
    } else {
        push_decimal(out, n as u32);
    }
}

/// Appends the text of `e` to `out`.
pub fn push_expr(out: &mut String, e: &Expr)
    ensures
        final(out)@ == old(out)@ + render_term(e@),
    decreases e,
{
    match e {
        Expr::Num(n) => {
            push_signed(out, *n);
        },
        Expr::Bool(b) => {
            if *b {
                out.append("true");
            } else {
                out.append("false");
            }
        },
        Expr::Var(name) => {
            out.append(name.as_str());
        },
        Expr::BinOp(l, op, r) => {
            out.append("(");
            push_expr(out, l);
            out.append(" ");
            out.append(op_text(*op));
            out.append(" ");
            push_expr(out, r);
            out.append(")");
            assert(out@ =~= old(out)@ + render_term(e@));
        },
        Expr::Fun(x, body) => {
            out.append("(fun ");
            out.append(x.as_str());
            out.append(" -> ");
            push_expr(out, body);
            out.append(")");
            assert(out@ =~= old(out)@ + render_term(e@));
        },
        Expr::App(f, a) => {
            out.append("(");
            push_expr(out, f);
            out.append(" ");
            push_expr(out, a);
            out.append(")");
            assert(out@ =~= old(out)@ + render_term(e@));
        },
        Expr::Let(x, v, body) => {
            out.append("(let ");
            out.append(x.as_str());
            out.append(" = ");
            push_expr(out, v);
            out.append(" in ");
            push_expr(out, body);
            out.append(")");
            assert(out@ =~= old(out)@ + render_term(e@));
        },
        Expr::LetRec(x, v, body) => {
            out.append("(letrec ");
            out.append(x.as_str());
            out.append(" = ");
            push_expr(out, v);
            out.append(" in ");
            push_expr(out, body);
            out.append(")");
            assert(out@ =~= old(out)@ + render_term(e@));
        },
        Expr::If(p, t, f) => {
            out.append("(if ");
            push_expr(out, p);
            out.append(" then ");
            push_expr(out, t);
            out.append(" else ");
            push_expr(out, f);
            out.append(")");
            assert(out@ =~= old(out)@ + render_term(e@));
        },
    }
}

impl Op {
    /// The text of this operator.
    pub fn to_string(&self) -> (text: String)
        ensures
            text@ == render_op(*self),
    {
        String::from_str(op_text(*self))
    }
}

impl Expr {
    /// The text of this expression.
    pub fn to_string(&self) -> (text: String)
        ensures
            text@ == render_term(self@),
    {
        let mut text = String::new();
        push_expr(&mut text, self);
        assert(text@ =~= render_term(self@));
        text
    }
}

} // verus!
