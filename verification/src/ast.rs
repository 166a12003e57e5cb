//! The expression tree produced by the parser.

use crate::units::ParsedUnitS;
use vstd::prelude::*;

verus! {

/// A parsed statement: a scalar conversion between two unit expressions, or a
/// single unit expression to decompose.
#[derive(Debug)]
pub enum Stmt {
    Conversation(Expr),
    Decomposition(Expr),
}

/// A parsed expression.  `Convert` carries the scalar value as the raw
/// literal it was written as; the numeric work belongs to the caller.
#[derive(Debug)]
pub enum Expr {
    Convert(String, Box<Expr>, Box<Expr>),
    Fraction { up: Vec<Expr>, down: Vec<Expr> },
    Unit { pfx: Option<String>, tag: String, pow: i8, den: bool },
}

/// Mathematical image of an expression.
pub ghost enum ExprS {
    Convert(Seq<char>, Box<ExprS>, Box<ExprS>),
    Fraction(Seq<ExprS>, Seq<ExprS>),
    Unit(ParsedUnitS),
}

/// Mathematical image of a statement.
pub ghost enum StmtS {
    Conversation(ExprS),
    Decomposition(ExprS),
}

/// Mathematical image of one expression.
pub open spec fn expr_view(e: Expr) -> ExprS
    decreases e,
{
    match e {
        Expr::Convert(v, a, b) => ExprS::Convert(
            v@,
            Box::new(expr_view(*a)),
            Box::new(expr_view(*b)),
        ),
        Expr::Fraction { up, down } => ExprS::Fraction(exprs_view(up@), exprs_view(down@)),
        Expr::Unit { pfx, tag, pow, den } => ExprS::Unit(
            ParsedUnitS {
                pfx: match pfx {
                    Some(s) => Some(s@),
                    None => None,
                },
                tag: tag@,
                pow: pow as int,
                den: den,
            },
        ),
    }
}

/// Mathematical image of a sequence of expressions.
pub open spec fn exprs_view(s: Seq<Expr>) -> Seq<ExprS>
    decreases s,
{
    if s.len() == 0 {
        Seq::empty()
    } else {
        seq![expr_view(s[0])] + exprs_view(s.drop_first())
    }
}

impl View for Expr {
    type V = ExprS;

    open spec fn view(&self) -> ExprS {
        expr_view(*self)
    }
}

impl View for Stmt {
    type V = StmtS;

    open spec fn view(&self) -> StmtS {
        match self {
            Stmt::Conversation(e) => StmtS::Conversation(expr_view(*e)),
            Stmt::Decomposition(e) => StmtS::Decomposition(expr_view(*e)),
        }
    }
}

pub broadcast proof fn lemma_exprs_view_len(s: Seq<Expr>)
    ensures
        #[trigger] exprs_view(s).len() == s.len(),
    decreases s,
{
    if s.len() != 0 {
        lemma_exprs_view_len(s.drop_first());
    }
}

pub broadcast proof fn lemma_exprs_view_index(s: Seq<Expr>, i: int)
    requires
        0 <= i < s.len(),
    ensures
        #[trigger] exprs_view(s)[i] == expr_view(s[i]),
    decreases s,
{
    lemma_exprs_view_len(s);
    if i > 0 {
        lemma_exprs_view_index(s.drop_first(), i - 1);
    }
}

} // verus!
