use theta::ast::{AbstractTree, Expression, Function, ParseError, Statement, Token, TokenType};
use theta::bitstream::{FunctionArg, TypeInformation};

fn literal(line: usize, col: usize, info: u32) -> Expression<u32> {
    Expression::Literal { literal: Token::new(TokenType::Integer(1), line, col), information: info }
}

fn sample() -> Function<u32> {
    let body = Expression::BlockExpression {
        statements: vec![Statement::PrintStatement { expression: literal(3, 19, 7), information: 8 }],
        final_expression: Some(Box::new(Expression::Sequence {
            seq: vec![literal(4, 1, 9), literal(4, 5, 10)],
            information: 11,
        })),
        information: 12,
    };
    Function {
        args: vec![FunctionArg { name: b"t".to_vec(), ty: TypeInformation::String }],
        chunk: AbstractTree::expression(body, 13),
        name: b"test".to_vec(),
        return_ty: TypeInformation::Unit,
        information: 14,
    }
}

#[test]
fn function_information_and_stripping() {
    let f = sample();
    assert_eq!(*f.information(), 14);
    let stripped = f.strip_information().strip_token_information();
    let expected_body = Expression::BlockExpression {
        statements: vec![Statement::PrintStatement {
            expression: Expression::Literal { literal: Token::new(TokenType::Integer(1), 0, 0), information: () },
            information: (),
        }],
        final_expression: Some(Box::new(Expression::Sequence {
            seq: vec![
                Expression::Literal { literal: Token::new(TokenType::Integer(1), 0, 0), information: () },
                Expression::Literal { literal: Token::new(TokenType::Integer(1), 0, 0), information: () },
            ],
            information: (),
        })),
        information: (),
    };
    assert_eq!(stripped.chunk, AbstractTree::expression(expected_body, ()));
    assert_eq!(stripped.name, b"test".to_vec());
    assert_eq!(stripped.args.len(), 1);
}

#[test]
fn map_information_keeps_order() {
    let e = Expression::Sequence { seq: vec![literal(1, 1, 1), literal(1, 2, 2), literal(1, 3, 3)], information: 4u32 };
    let doubled = e.map_information(&|x: u32| x * 2);
    match doubled {
        Expression::Sequence { seq, information } => {
            assert_eq!(information, 8);
            let infos: Vec<u32> = seq.iter().map(|x| *x.information()).collect();
            assert_eq!(infos, vec![2, 4, 6]);
        },
        _ => panic!("not a sequence"),
    }
}

#[test]
fn token_stripping_keeps_node_information() {
    let e = literal(9, 9, 5).strip_token_information();
    assert_eq!(e, Expression::Literal { literal: Token::new(TokenType::Integer(1), 0, 0), information: 5 });
}

#[test]
fn parse_errors_describe_their_place() {
    let at = ParseError::from_token(Token::new(TokenType::Plus, 3, 14), "unexpected token");
    assert_eq!(at.describe(), b"[Parse] Error: unexpected token at line 3, character 14".to_vec());
    let eof = ParseError::from_token(Token::new(TokenType::Eof, 1, 1), "missing brace");
    assert_eq!(eof.describe(), b"[Parse] Error: missing brace at end of file".to_vec());
    let other = ParseError::from_other("empty input");
    assert_eq!(other.describe(), b"[Parse] Error: empty input".to_vec());
}

#[test]
fn token_stripping_leaves_the_callee_alone() {
    let call = Expression::Call {
        callee: Box::new(literal(2, 3, 1)),
        args: vec![literal(2, 8, 2)],
        information: 3u32,
    };
    let stripped = call.strip_token_information();
    let expected = Expression::Call {
        callee: Box::new(literal(2, 3, 1)),
        args: vec![Expression::Literal { literal: Token::new(TokenType::Integer(1), 0, 0), information: 2 }],
        information: 3u32,
    };
    assert_eq!(stripped, expected);
}
