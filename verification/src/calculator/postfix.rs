//! Expressions in postfix order, and their value.

use crate::calculator::tokens::{Expression, MathToken, OperatorType};
use vstd::prelude::*;
use vstd::string::StringExecFns;

verus! {

/// The tokens of an expression in postfix order.
#[derive(Debug, PartialEq, Eq)]
pub struct PostExpression {
    pub tokens: Vec<MathToken>,
}

/// Why an expression has no postfix order.
#[derive(Debug)]
pub enum PostExpressionError {
    /// The parentheses do not match.
    InvalidExpression(String),
}

/// The value of the tokens from the `i`-th on, computed on `stack`.
///
/// An integer goes on the stack; an operator takes the two integers on top
/// of the stack, the upper one as its right operand, and puts its result
/// there. At the end the stack holds the value and nothing else. There is no
/// value where an operator finds less than two integers, its result is not
/// defined or does not fit in an `isize`, a parenthesis occurs, or the
/// stack ends with none or several integers.
pub open spec fn value_from(tokens: Seq<MathToken>, i: int, stack: Seq<isize>) -> Option<isize>
    decreases tokens.len() - i,
{
    if i < 0 || i >= tokens.len() {
        if stack.len() == 1 {
            Some(stack[0])
        } else {
            None
        }
    } else {
        match tokens[i] {
            MathToken::IntOperand(x) => value_from(tokens, i + 1, stack.push(x)),
            MathToken::Operator(op) => if stack.len() < 2 {
                None
            } else {
                match op.apply_spec(stack[stack.len() - 2], stack[stack.len() - 1]) {
                    Some(v) => value_from(tokens, i + 1, stack.drop_last().drop_last().push(v)),
                    None => None,
                }
            },
            MathToken::Parens(_) => None,
        }
    }
}

/// The value of an expression in postfix order, if it has one.
pub open spec fn value_spec(tokens: Seq<MathToken>) -> Option<isize> {
    value_from(tokens, 0, Seq::empty())
}

impl PostExpression {
    /// The value of the expression, if it has one.
    pub fn try_eval(&self) -> (r: Option<isize>)
        ensures
            r == value_spec(self.tokens@),
    {
        let mut stack: Vec<isize> = Vec::new();
        let mut i: usize = 0;
        while i < self.tokens.len()
            invariant
                i <= self.tokens.len(),
                value_spec(self.tokens@) == value_from(self.tokens@, i as int, stack@),
            decreases self.tokens.len() - i,
        {
            match self.tokens[i] {
                MathToken::IntOperand(x) => {
                    stack.push(x);
                },
                MathToken::Operator(op) => {
                    if stack.len() < 2 {
                        return None;
                    }
                    let ghost before = stack@;
                    let rhs = stack.pop().unwrap();
                    let lhs = stack.pop().unwrap();
                    assert(stack@ =~= before.drop_last().drop_last());
                    match op.checked_apply(lhs, rhs) {
                        Some(v) => {
                            stack.push(v);
                        },
                        None => {
                            return None;
                        },
                    }
                },
                MathToken::Parens(_) => {
                    return None;
                },
            }
            i += 1;
        }
        if stack.len() == 1 {
            Some(stack[0])
        } else {
            None
        }
    }

    /// The value of the expression.
    pub fn eval(self) -> (r: isize)
        requires
            value_spec(self.tokens@) is Some,
        ensures
            Some(r) == value_spec(self.tokens@),
    {
        match self.try_eval() {
            Some(v) => v,
            None => 0,
        }
    }
}

/// The queue and the stack after the operators on top of the stack that
/// bind tighter than `op` have gone to the queue.
pub open spec fn pop_tighter(queue: Seq<MathToken>, stack: Seq<MathToken>, op: OperatorType) -> (
    Seq<MathToken>,
    Seq<MathToken>,
)
    decreases stack.len(),
{
    if stack.len() > 0 && (stack.last() matches MathToken::Operator(top)
        && top.precedence_spec() > op.precedence_spec()) {
        pop_tighter(queue.push(stack.last()), stack.drop_last(), op)
    } else {
        (queue, stack)
    }
}

/// The queue and the stack after what lies on the stack above the
/// uppermost opening parenthesis has gone to the queue, and the
/// parenthesis has been dropped. Nothing where there is no opening
/// parenthesis on the stack.
pub open spec fn pop_to_parenthesis(queue: Seq<MathToken>, stack: Seq<MathToken>) -> Option<
    (Seq<MathToken>, Seq<MathToken>),
>
    decreases stack.len(),
{
    if stack.len() == 0 {
        None
    } else if stack.last() == MathToken::Parens(true) {
        Some((queue, stack.drop_last()))
    } else {
        pop_to_parenthesis(queue.push(stack.last()), stack.drop_last())
    }
}

/// The queue after all that is left on the stack has gone to it, from the
/// top down.
pub open spec fn flush(queue: Seq<MathToken>, stack: Seq<MathToken>) -> Seq<MathToken>
    decreases stack.len(),
{
    if stack.len() == 0 {
        queue
    } else {
        flush(queue.push(stack.last()), stack.drop_last())
    }
}

/// The postfix order of the tokens from the `i`-th on, given the queue and
/// the stack made of the tokens before.
///
/// An integer goes to the queue. An operator sends the operators on top of
/// the stack that bind tighter to the queue, and goes on the stack. An
/// opening parenthesis goes on the stack. A closing parenthesis sends what
/// lies above the uppermost opening parenthesis to the queue; without one
/// there is no postfix order. At the end the stack goes to the queue.
pub open spec fn postfix_from(
    tokens: Seq<MathToken>,
    i: int,
    queue: Seq<MathToken>,
    stack: Seq<MathToken>,
) -> Option<Seq<MathToken>>
    decreases tokens.len() - i,
{
    if i < 0 || i >= tokens.len() {
        Some(flush(queue, stack))
    } else {
        match tokens[i] {
            MathToken::IntOperand(x) => postfix_from(tokens, i + 1, queue.push(tokens[i]), stack),
            MathToken::Operator(op) => {
                let (q, s) = pop_tighter(queue, stack, op);
                postfix_from(tokens, i + 1, q, s.push(tokens[i]))
            },
            MathToken::Parens(true) => postfix_from(tokens, i + 1, queue, stack.push(tokens[i])),
            MathToken::Parens(false) => match pop_to_parenthesis(queue, stack) {
                Some((q, s)) => postfix_from(tokens, i + 1, q, s),
                None => None,
            },
        }
    }
}

/// The postfix order of an expression, if it has one.
pub open spec fn postfix_spec(tokens: Seq<MathToken>) -> Option<Seq<MathToken>> {
    postfix_from(tokens, 0, Seq::empty(), Seq::empty())
}

impl PostExpression {
    /// Brings an expression into postfix order.
    ///
    /// Fails where a closing parenthesis has no opening one before it.
    pub fn try_from(eq: Expression) -> (r: Result<PostExpression, PostExpressionError>)
        ensures
            r is Ok <==> postfix_spec(eq.tokens@) is Some,
            r is Ok ==> Some(r->Ok_0.tokens@) == postfix_spec(eq.tokens@),
            r is Err ==> (r->Err_0 matches PostExpressionError::InvalidExpression(m) && m@
                == "No matching opening parenthesis"@),
    {
        let mut queue: Vec<MathToken> = Vec::new();
        let mut op_stack: Vec<MathToken> = Vec::new();
        let tokens = &eq.tokens;
        let mut i: usize = 0;
        while i < tokens.len()
            invariant
                i <= tokens.len(),
                tokens@ == eq.tokens@,
                postfix_spec(tokens@) == postfix_from(tokens@, i as int, queue@, op_stack@),
            decreases tokens.len() - i,
        {
            let tok = tokens[i];
            match tok {
                MathToken::IntOperand(x) => {
                    queue.push(tok);
                },
                MathToken::Operator(op) => {
                    let ghost q_in = queue@;
                    let ghost s_in = op_stack@;
                    loop
                        invariant
                            pop_tighter(q_in, s_in, op) == pop_tighter(
                                queue@,
                                op_stack@,
                                op,
                            ),
                        ensures
                            (queue@, op_stack@) == pop_tighter(q_in, s_in, op),
                        decreases op_stack.len(),
                    {
                        if op_stack.len() == 0 {
                            break ;
                        }
                        let top = op_stack[op_stack.len() - 1];
                        match top {
                            MathToken::Operator(top_op) => {
                                if top_op.precedence() > op.precedence() {
                                    op_stack.pop();
                                    queue.push(top);
                                } else {
                                    break ;
                                }
                            },
                            _ => {
                                break ;
                            },
                        }
                    }
                    op_stack.push(tok);
                },
                MathToken::Parens(true) => {
                    op_stack.push(tok);
                },
                MathToken::Parens(false) => {
                    let ghost q_in = queue@;
                    let ghost s_in = op_stack@;
                    let mut matched: bool = false;
                    while op_stack.len() > 0 && !matched
                        invariant
                            !matched ==> pop_to_parenthesis(q_in, s_in)
                                == pop_to_parenthesis(queue@, op_stack@),
                            matched ==> pop_to_parenthesis(q_in, s_in) == Some(
                                (queue@, op_stack@),
                            ),
                        decreases op_stack.len() + if matched { 0int } else { 1int },
                    {
                        let top = op_stack.pop().unwrap();
                        match top {
                            MathToken::Parens(true) => {
                                matched = true;
                            },
                            _ => {
                                queue.push(top);
                            },
                        }
                    }
                    if !matched {
                        return Err(
                            PostExpressionError::InvalidExpression(
                                String::from_str("No matching opening parenthesis"),
                            ),
                        );
                    }
                },
            }
            i += 1;
        }
        let ghost q0 = queue@;
        let ghost s0 = op_stack@;
        while op_stack.len() > 0
            invariant
                flush(q0, s0) == flush(queue@, op_stack@),
            decreases op_stack.len(),
        {
            let top = op_stack.pop().unwrap();
            queue.push(top);
        }
        Ok(PostExpression { tokens: queue })
    }
}

} // verus!
