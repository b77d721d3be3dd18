use amazingbf::frontend::ast::AstNode;
use amazingbf::frontend::lexer::{lex, Token};
use amazingbf::frontend::parser::{parse, ParseError};

fn parse_tokens(tokens: &[Token]) -> Vec<AstNode> {
    parse(tokens).expect("parse should succeed")
}

#[test]
fn compresses_add_runs_and_drops_zero_net_result() {
    let tokens = [Token::Inc, Token::Inc, Token::Dec, Token::Dec, Token::Inc];
    assert!(matches!(
        parse_tokens(&tokens).as_slice(),
        [AstNode::Add(1)]
    ));
}

#[test]
fn compresses_move_runs_and_drops_zero_net_result() {
    let tokens = [
        Token::MoveRight,
        Token::MoveRight,
        Token::MoveLeft,
        Token::MoveLeft,
        Token::MoveRight,
        Token::MoveRight,
    ];
    assert!(matches!(
        parse_tokens(&tokens).as_slice(),
        [AstNode::Move(2)]
    ));
}

#[test]
fn does_not_merge_across_io_barriers() {
    let tokens = [Token::Inc, Token::Inc, Token::Output, Token::Inc];
    let ast = parse_tokens(&tokens);
    assert!(matches!(
        ast.as_slice(),
        [AstNode::Add(2), AstNode::Output, AstNode::Add(1)]
    ));
}

#[test]
fn compresses_inside_loops() {
    let tokens = [
        Token::LoopStart,
        Token::Dec,
        Token::MoveRight,
        Token::Inc,
        Token::MoveLeft,
        Token::LoopEnd,
    ];
    let ast = parse_tokens(&tokens);
    assert!(matches!(
        ast.as_slice(),
        [AstNode::Loop(body)]
            if matches!(
                body.as_slice(),
                [AstNode::Add(-1), AstNode::Move(1), AstNode::Add(1), AstNode::Move(-1)]
            )
    ));
}

#[test]
fn unexpected_loop_end_reports_same_token_index() {
    let err = parse(&[Token::Inc, Token::LoopEnd]).expect_err("should fail");
    assert!(matches!(err, ParseError::UnexpectedLoopEnd { pos: 1 }));
}

#[test]
fn unclosed_loop_reports_end_position() {
    let err = parse(&[Token::LoopStart, Token::Inc]).expect_err("should fail");
    assert!(matches!(err, ParseError::UnclosedLoop { pos: 2 }));
}

#[test]
fn a_printed_tree_is_read_back() {
    let ast = parse(&lex("+++>>[-<,[.]]<<")).unwrap();
    match ast.as_slice() {
        [AstNode::Add(3), AstNode::Move(2), AstNode::Loop(body), AstNode::Move(-2)] => {
            match body.as_slice() {
                [AstNode::Add(-1), AstNode::Move(-1), AstNode::Input, AstNode::Loop(inner)] => {
                    assert!(matches!(inner.as_slice(), [AstNode::Output]));
                }
                other => panic!("unexpected body {other:?}"),
            }
        }
        other => panic!("unexpected tree {other:?}"),
    }
}
