use oxutils::calculator::postfix::{PostExpression, PostExpressionError};
use oxutils::calculator::tokens::{Expression, MathEquationErr, MathToken, OperatorType};

#[test]
fn test_infix_to_postfix() {
    let eq = Expression::new(vec![
        MathToken::IntOperand(3),
        MathToken::Operator(OperatorType::Add),
        MathToken::IntOperand(4),
    ]);
    assert_eq!(
        PostExpression::try_from(eq).unwrap(),
        PostExpression {
            tokens: vec![
                MathToken::IntOperand(3),
                MathToken::IntOperand(4),
                MathToken::Operator(OperatorType::Add),
            ]
        }
    );
}

#[test]
fn test_eval_add() {
    let eq = PostExpression {
        tokens: vec![
            MathToken::IntOperand(3),
            MathToken::IntOperand(4),
            MathToken::Operator(OperatorType::Add),
        ],
    };
    assert_eq!(eq.eval(), 7);
}

#[test]
fn test_eval_sub() {
    let eq = PostExpression {
        tokens: vec![
            MathToken::IntOperand(3),
            MathToken::IntOperand(4),
            MathToken::Operator(OperatorType::Sub),
        ],
    };
    assert_eq!(eq.eval(), -1);
}

#[test]
fn test_eval_mul() {
    let eq = PostExpression {
        tokens: vec![
            MathToken::IntOperand(3),
            MathToken::IntOperand(4),
            MathToken::Operator(OperatorType::Mul),
        ],
    };
    assert_eq!(eq.eval(), 12);
}

#[test]
fn test_eval_div() {
    let eq = PostExpression {
        tokens: vec![
            MathToken::IntOperand(3),
            MathToken::IntOperand(4),
            MathToken::Operator(OperatorType::Div),
        ],
    };
    assert_eq!(eq.eval(), 0);
}

#[test]
fn test_precedence_postfix() {
    let eq = Expression::new(vec![
        MathToken::IntOperand(3),
        MathToken::Operator(OperatorType::Add),
        MathToken::IntOperand(4),
        MathToken::Operator(OperatorType::Mul),
        MathToken::IntOperand(2),
    ]);
    assert_eq!(
        PostExpression::try_from(eq).unwrap(),
        PostExpression {
            tokens: vec![
                MathToken::IntOperand(3),
                MathToken::IntOperand(4),
                MathToken::IntOperand(2),
                MathToken::Operator(OperatorType::Mul),
                MathToken::Operator(OperatorType::Add),
            ]
        }
    );
}

#[test]
fn test_invalid_parens() {
    let eq = Expression::new(vec![
        MathToken::Parens(false),
        MathToken::IntOperand(3),
        MathToken::Parens(false),
    ]);
    assert!(PostExpression::try_from(eq).is_err());
}

#[test]
fn test_paren_precedence() {
    let eq = Expression::new(vec![
        MathToken::Parens(true),
        MathToken::IntOperand(3),
        MathToken::Operator(OperatorType::Add),
        MathToken::IntOperand(4),
        MathToken::Parens(false),
        MathToken::Operator(OperatorType::Mul),
        MathToken::IntOperand(2),
    ]);
    assert_eq!(
        PostExpression::try_from(eq).unwrap(),
        PostExpression {
            tokens: vec![
                MathToken::IntOperand(3),
                MathToken::IntOperand(4),
                MathToken::Operator(OperatorType::Add),
                MathToken::IntOperand(2),
                MathToken::Operator(OperatorType::Mul),
            ]
        }
    );
}

#[test]
fn test_paren_precedence_eval() {
    let eq = Expression::new(vec![
        MathToken::Parens(true),
        MathToken::IntOperand(3),
        MathToken::Operator(OperatorType::Add),
        MathToken::IntOperand(4),
        MathToken::Parens(false),
        MathToken::Operator(OperatorType::Mul),
        MathToken::IntOperand(2),
    ]);
    assert_eq!(PostExpression::try_from(eq).unwrap().eval(), 14);
}

#[test]
fn test_eval_power() {
    let eq = Expression::new(vec![
        MathToken::IntOperand(3),
        MathToken::Operator(OperatorType::Pow),
        MathToken::IntOperand(4),
    ]);
    assert_eq!(PostExpression::try_from(eq).unwrap().eval(), 81);
}

#[test]
fn test_operator_from_str() {
    assert_eq!("/".parse::<OperatorType>().unwrap(), OperatorType::Div);
    assert_eq!("*".parse::<OperatorType>().unwrap(), OperatorType::Mul);
    assert_eq!("-".parse::<OperatorType>().unwrap(), OperatorType::Sub);
    assert_eq!("+".parse::<OperatorType>().unwrap(), OperatorType::Add);
    assert_eq!("^".parse::<OperatorType>().unwrap(), OperatorType::Pow);
}

#[test]
fn test_fail_operator_from_str() {
    assert!("--".parse::<OperatorType>().is_err());
}

#[test]
fn test_mathtoken_from_str() {
    assert_eq!(
        "/".parse::<MathToken>().unwrap(),
        MathToken::Operator(OperatorType::Div)
    );
    assert_eq!(
        "*".parse::<MathToken>().unwrap(),
        MathToken::Operator(OperatorType::Mul)
    );
    assert_eq!(
        "-".parse::<MathToken>().unwrap(),
        MathToken::Operator(OperatorType::Sub)
    );
    assert_eq!(
        "+".parse::<MathToken>().unwrap(),
        MathToken::Operator(OperatorType::Add)
    );
    assert_eq!(
        "10".parse::<MathToken>().unwrap(),
        MathToken::IntOperand(10)
    );
    assert_eq!(
        "^".parse::<MathToken>().unwrap(),
        MathToken::Operator(OperatorType::Pow)
    );
}

#[test]
fn test_fail_mathtoke_from_str() {
    assert!("--".parse::<MathToken>().is_err());
}

#[test]
fn test_equation_from_str() {
    let input = "3 + 4";
    assert!(input.parse::<Expression>().is_ok());
    assert_eq!(
        input.parse::<Expression>().unwrap(),
        Expression {
            tokens: vec![
                MathToken::IntOperand(3),
                MathToken::Operator(OperatorType::Add),
                MathToken::IntOperand(4),
            ]
        }
    );
}

#[test]
fn test_expression_parentheses() {
    let input = "(3 + 4) * 2";
    assert_eq!(
        input.parse::<Expression>().unwrap(),
        Expression::new(vec![
            MathToken::Parens(true),
            MathToken::IntOperand(3),
            MathToken::Operator(OperatorType::Add),
            MathToken::IntOperand(4),
            MathToken::Parens(false),
            MathToken::Operator(OperatorType::Mul),
            MathToken::IntOperand(2),
        ])
    );
}

#[test]
fn test_expression_power() {
    let input = "3 ^ 4";
    assert_eq!(
        input.parse::<Expression>().unwrap(),
        Expression::new(vec![
            MathToken::IntOperand(3),
            MathToken::Operator(OperatorType::Pow),
            MathToken::IntOperand(4)
        ])
    );
}

#[test]
fn signed_integers_are_tokens() {
    assert_eq!(MathToken::from_str("-5").unwrap(), MathToken::IntOperand(-5));
    assert_eq!(MathToken::from_str("+5").unwrap(), MathToken::IntOperand(5));
    assert_eq!(MathToken::from_str("007").unwrap(), MathToken::IntOperand(7));
    assert_eq!(
        MathToken::from_str("-9223372036854775808").unwrap(),
        MathToken::IntOperand(isize::MIN)
    );
    assert_eq!(
        MathToken::from_str("9223372036854775807").unwrap(),
        MathToken::IntOperand(isize::MAX)
    );
    assert!(MathToken::from_str("9223372036854775808").is_err());
    assert!(MathToken::from_str("-9223372036854775809").is_err());
    assert_eq!(MathToken::from_str("(").unwrap(), MathToken::Parens(true));
    assert_eq!(MathToken::from_str(")").unwrap(), MathToken::Parens(false));
    match MathToken::from_str("3x") {
        Err(MathEquationErr::InvalidOperatorType(t)) => assert_eq!(t, "3x"),
        other => panic!("{:?}", other),
    }
    assert!(MathToken::from_str("").is_err());
}

#[test]
fn parentheses_stand_against_their_neighbours() {
    assert!(Expression::from_str("( 3 + 4 )").is_err());
    match Expression::from_str("3 + 4)) * 2") {
        Err(MathEquationErr::InvalidOperatorType(t)) => assert_eq!(t, "4)"),
        other => panic!("{:?}", other),
    }
    match Expression::from_str("\u{e9})") {
        Err(MathEquationErr::InvalidOperatorType(t)) => assert_eq!(t, "\u{e9})"),
        other => panic!("{:?}", other),
    }
    assert_eq!(
        Expression::from_str("  \t ").unwrap(),
        Expression::new(vec![])
    );
    assert_eq!(
        Expression::from_str("(1 - (2 * 3))").unwrap_err().to_string_lossy(),
        "3)"
    );
}

trait Lossy {
    fn to_string_lossy(&self) -> String;
}

impl Lossy for MathEquationErr {
    fn to_string_lossy(&self) -> String {
        match self {
            MathEquationErr::InvalidOperatorType(t) => t.clone(),
            MathEquationErr::InvalidOperand(t) => t.clone(),
        }
    }
}

#[test]
fn equal_precedence_is_taken_from_the_right() {
    // 8 - 4 - 2 is (4 - 2) taken from 8
    let eq = Expression::from_str("8 - 4 - 2").unwrap();
    let post = PostExpression::try_from(eq).unwrap();
    assert_eq!(
        post.tokens,
        vec![
            MathToken::IntOperand(8),
            MathToken::IntOperand(4),
            MathToken::IntOperand(2),
            MathToken::Operator(OperatorType::Sub),
            MathToken::Operator(OperatorType::Sub),
        ]
    );
    assert_eq!(post.eval(), 6);
}

#[test]
fn operators_by_precedence() {
    let eq = Expression::from_str("2 * 3 ^ 2 + 1").unwrap();
    let post = PostExpression::try_from(eq).unwrap();
    assert_eq!(
        post.tokens,
        vec![
            MathToken::IntOperand(2),
            MathToken::IntOperand(3),
            MathToken::IntOperand(2),
            MathToken::Operator(OperatorType::Pow),
            MathToken::Operator(OperatorType::Mul),
            MathToken::IntOperand(1),
            MathToken::Operator(OperatorType::Add),
        ]
    );
    assert_eq!(post.try_eval(), Some(2 * 9 + 1));
}

#[test]
fn values_that_do_not_exist() {
    let div = PostExpression {
        tokens: vec![
            MathToken::IntOperand(1),
            MathToken::IntOperand(0),
            MathToken::Operator(OperatorType::Div),
        ],
    };
    assert_eq!(div.try_eval(), None);
    let lone = PostExpression {
        tokens: vec![MathToken::Operator(OperatorType::Add)],
    };
    assert_eq!(lone.try_eval(), None);
    let two = PostExpression {
        tokens: vec![MathToken::IntOperand(1), MathToken::IntOperand(2)],
    };
    assert_eq!(two.try_eval(), None);
    let paren = PostExpression {
        tokens: vec![MathToken::Parens(true)],
    };
    assert_eq!(paren.try_eval(), None);
    let empty = PostExpression { tokens: vec![] };
    assert_eq!(empty.try_eval(), None);
}

#[test]
fn apply_rounds_towards_zero_and_checks_the_range() {
    assert_eq!(OperatorType::Div.checked_apply(-7, 2), Some(-3));
    assert_eq!(OperatorType::Div.checked_apply(7, -2), Some(-3));
    assert_eq!(OperatorType::Div.checked_apply(-7, -2), Some(3));
    assert_eq!(OperatorType::Div.checked_apply(isize::MIN, -1), None);
    assert_eq!(OperatorType::Add.checked_apply(isize::MAX, 1), None);
    assert_eq!(OperatorType::Sub.checked_apply(isize::MIN, 1), None);
    assert_eq!(OperatorType::Sub.checked_apply(-1, isize::MAX), Some(isize::MIN));
    assert_eq!(OperatorType::Sub.checked_apply(-2, isize::MAX), None);
    assert_eq!(OperatorType::Sub.checked_apply(0, isize::MIN), None);
    assert_eq!(OperatorType::Mul.checked_apply(isize::MAX, 2), None);
    assert_eq!(OperatorType::Pow.checked_apply(2, 10), Some(1024));
    assert_eq!(OperatorType::Pow.checked_apply(-2, 3), Some(-8));
    assert_eq!(OperatorType::Pow.checked_apply(2, -1), None);
    assert_eq!(OperatorType::Pow.checked_apply(2, 64), None);
    assert_eq!(OperatorType::Pow.checked_apply(7, 0), Some(1));
    assert_eq!(OperatorType::Add.apply(3, 4), 7);
    assert_eq!(OperatorType::Pow.precedence(), 3);
    assert_eq!(OperatorType::Mul.precedence(), 2);
    assert_eq!(OperatorType::Sub.precedence(), 1);
}

#[test]
fn unmatched_parenthesis_message() {
    let eq = Expression::new(vec![MathToken::IntOperand(3), MathToken::Parens(false)]);
    match PostExpression::try_from(eq) {
        Err(PostExpressionError::InvalidExpression(m)) => {
            assert_eq!(m, "No matching opening parenthesis")
        }
        other => panic!("{:?}", other),
    }
    // an opening parenthesis that is never closed goes to the end of the queue
    let eq = Expression::new(vec![MathToken::Parens(true), MathToken::IntOperand(3)]);
    assert_eq!(
        PostExpression::try_from(eq).unwrap().tokens,
        vec![MathToken::IntOperand(3), MathToken::Parens(true)]
    );
}
