//! Expressions: what assignments and interpolations hold.

use vstd::prelude::*;
use vstd::string::*;

use crate::token::{Token, TokenView};

verus! {

/// An expression.
#[derive(PartialEq, Debug)]
pub enum Expression<'a> {
    Variable { name: &'a str, token: Token<'a> },
    String { contents: &'a str },
    Concatination { lhs: Box<Expression<'a>>, rhs: Box<Expression<'a>> },
}

/// The view of an [`Expression`].
#[verifier::ext_equal]
pub enum ExpressionView {
    Variable { name: Seq<char>, token: TokenView },
    String { contents: Seq<char> },
    Concatination { lhs: Box<ExpressionView>, rhs: Box<ExpressionView> },
}

/// The view of an expression.
pub open spec fn expression_view(expression: Expression<'_>) -> ExpressionView
    decreases expression,
{
    match expression {
        Expression::Variable { name, token } => ExpressionView::Variable {
            name: name@,
            token: token@,
        },
        Expression::String { contents } => ExpressionView::String { contents: contents@ },
        Expression::Concatination { lhs, rhs } => ExpressionView::Concatination {
            lhs: Box::new(expression_view(*lhs)),
            rhs: Box::new(expression_view(*rhs)),
        },
    }
}

impl<'a> View for Expression<'a> {
    type V = ExpressionView;

    open spec fn view(&self) -> ExpressionView {
        expression_view(*self)
    }
}

impl ExpressionView {
    /// The leaves of the expression from the last to the first: the token of a variable, or nothing
    /// for a string.
    pub open spec fn leaves(self) -> Seq<Option<TokenView>>
        decreases self,
    {
        match self {
            ExpressionView::Variable { name, token } => seq![Some(token)],
            ExpressionView::String { contents } => seq![None],
            ExpressionView::Concatination { lhs, rhs } => rhs.leaves() + lhs.leaves(),
        }
    }

    /// Whether `p` holds of the tokens of the expression's variables.
    pub open spec fn all(self, p: spec_fn(TokenView) -> bool) -> bool
        decreases self,
    {
        match self {
            ExpressionView::Variable { name, token } => p(token),
            ExpressionView::String { contents } => true,
            ExpressionView::Concatination { lhs, rhs } => lhs.all(p) && rhs.all(p),
        }
    }

    /// The expression as it is written.
    pub open spec fn shown(self) -> Seq<char>
        decreases self,
    {
        match self {
            ExpressionView::Variable { name, token } => name,
            ExpressionView::String { contents } => "\""@ + contents + "\""@,
            ExpressionView::Concatination { lhs, rhs } => lhs.shown() + " + "@ + rhs.shown(),
        }
    }

    /// The number of parts of the expression.
    pub open spec fn size(self) -> nat
        decreases self,
    {
        match self {
            ExpressionView::Concatination { lhs, rhs } => 1 + lhs.size() + rhs.size(),
            _ => 1,
        }
    }
}

/// The views of a stack of expressions.
pub open spec fn stack_views(stack: Seq<&Expression<'_>>) -> Seq<ExpressionView> {
    stack.map_values(|e: &Expression| e@)
}

/// The leaves of a stack of expressions, from the top down.
pub open spec fn stack_leaves(stack: Seq<ExpressionView>) -> Seq<Option<TokenView>>
    decreases stack.len(),
{
    if stack.len() == 0 {
        Seq::empty()
    } else {
        stack.last().leaves() + stack_leaves(stack.drop_last())
    }
}

/// The number of parts of a stack of expressions.
spec fn stack_size(stack: Seq<ExpressionView>) -> nat
    decreases stack.len(),
{
    if stack.len() == 0 {
        0
    } else {
        stack.last().size() + stack_size(stack.drop_last())
    }
}

/// What is put on a stack is walked over first.
proof fn lemma_stack_push(stack: Seq<ExpressionView>, e: ExpressionView)
    ensures
        stack_leaves(stack.push(e)) == e.leaves() + stack_leaves(stack),
        stack_size(stack.push(e)) == e.size() + stack_size(stack),
{
    assert(stack.push(e).drop_last() =~= stack);
}

/// Walks over the variables of an expression.
pub struct Variables<'a> {
    pub stack: Vec<&'a Expression<'a>>,
}

impl<'a> Variables<'a> {
    /// The leaves that have not been walked over.
    pub open spec fn leaves(self) -> Seq<Option<TokenView>> {
        stack_leaves(stack_views(self.stack@))
    }

    /// The token of the next leaf, if there is one and it is a variable. The leaf is left behind.
    pub fn next(&mut self) -> (r: Option<&'a Token<'a>>)
        ensures
            match r {
                Some(token) => old(self).leaves().len() > 0 && old(self).leaves()[0] == Some(token@),
                None => old(self).leaves().len() == 0 || old(self).leaves()[0] is None,
            },
            old(self).leaves().len() == 0 ==> final(self).leaves().len() == 0,
            old(self).leaves().len() > 0 ==> final(self).leaves() == old(self).leaves().skip(1),
    {
        loop
            invariant
                self.leaves() == old(self).leaves(),
            decreases stack_size(stack_views(self.stack@)),
        {
            let ghost stack = stack_views(self.stack@);
            match self.stack.pop() {
                None => {
                    return None;
                },
                Some(top) => {
                    let ghost rest = stack_views(self.stack@);
                    proof {
                        assert(rest =~= stack.drop_last());
                        assert(stack.last() == top@);
                    }
                    match top {
                        Expression::Variable { name: _, token } => {
                            proof {
                                assert(stack_leaves(rest) =~= old(self).leaves().skip(1));
                            }
                            return Some(token);
                        },
                        Expression::String { contents: _ } => {
                            proof {
                                assert(stack_leaves(rest) =~= old(self).leaves().skip(1));
                            }
                            return None;
                        },
                        Expression::Concatination { lhs, rhs } => {
                            self.stack.push(lhs);
                            self.stack.push(rhs);
                            proof {
                                let now = stack_views(self.stack@);
                                assert(now =~= rest.push(lhs@).push(rhs@));
                                lemma_stack_push(rest, lhs@);
                                lemma_stack_push(rest.push(lhs@), rhs@);
                                assert(self.leaves() =~= old(self).leaves());
                            }
                        },
                    }
                },
            }
        }
    }
}

impl<'a> Expression<'a> {
    /// Walks over the variables of the expression, from the last to the first.
    pub fn variables(&'a self) -> (r: Variables<'a>)
        ensures
            r.leaves() == self@.leaves(),
    {
        let mut stack: Vec<&'a Expression<'a>> = Vec::new();
        stack.push(self);
        let r: Variables<'a> = Variables { stack };
        proof {
            let views = stack_views(r.stack@);
            assert(views =~= Seq::empty().push(self@));
            lemma_stack_push(Seq::empty(), self@);
            assert(r.leaves() =~= self@.leaves());
        }
        r
    }

    /// The expression as it is written.
    pub fn to_string(&self) -> (r: String)
        ensures
            r@ == self@.shown(),
        decreases self,
    {
        match self {
            Expression::Variable { name, token: _ } => String::from_str(name),
            Expression::String { contents } => {
                let mut shown: String = String::from_str("\"");
                shown.append(contents);
                shown.append("\"");
                shown
            },
            Expression::Concatination { lhs, rhs } => {
                let mut shown: String = lhs.to_string();
                let right: String = rhs.to_string();
                shown.append(" + ");
                shown.append(right.as_str());
                shown
            },
        }
    }
}

} // verus!
