use lang_front::lexer::TokenType;
use lang_front::parser::{parse, ParseError, Parser};
use lang_front::syntax_tree::{
    BinaryOperator, Expression, Program, Statement, Value,
};

fn text(bytes: &[u8]) -> String {
    String::from_utf8(bytes.to_vec()).unwrap()
}

fn render(e: &Expression) -> String {
    match e {
        Expression::BinaryOperation(b) => {
            let op = match b.operator {
                BinaryOperator::Plus => "+",
                BinaryOperator::Minus => "-",
            };
            format!("{{{} {} {}}}", render(&b.lhs), op, render(&b.rhs))
        }
        Expression::Value(v) => match &**v {
            Value::Parenthesized(inner) => format!("({})", render(inner)),
            Value::Name(n) => format!("name:{}", text(&n.contents)),
            Value::Number(n) => format!("num:{}", text(&n.contents)),
        },
    }
}

fn render_program(p: &Program) -> Vec<String> {
    p.statements
        .iter()
        .map(|s| match s {
            Statement::Assignment(a) => {
                format!("{} = {}", text(&a.name.contents), render(&a.expression))
            }
            Statement::Call(c) => {
                let args: Vec<String> = c.arguments.contents.iter().map(render).collect();
                format!("call {} [{}]", render(&c.function), args.join(", "))
            }
        })
        .collect()
}

fn parse_ok(source: &str) -> Vec<String> {
    match parse(source) {
        Ok(p) => render_program(&p),
        Err(e) => panic!("unexpected failure {:?}", e),
    }
}

fn parse_err(source: &str) -> ParseError {
    match parse(source) {
        Ok(p) => panic!("unexpected success {:?}", render_program(&p)),
        Err(e) => e,
    }
}

#[test]
fn subtraction_folds_to_the_left() {
    assert_eq!(parse_ok("x = 1-2-3"), vec!["x = {{num:1 - num:2} - num:3}"]);
    assert_eq!(parse_ok("f(1-2-3)"), vec!["call name:f [{{num:1 - num:2} - num:3}]"]);
}

#[test]
fn parentheses_group_to_the_right() {
    assert_eq!(parse_ok("y = 1-(2-3)"), vec!["y = {num:1 - ({num:2 - num:3})}"]);
}

#[test]
fn empty_and_blank_programs_have_no_statements() {
    assert_eq!(parse_ok("").len(), 0);
    assert_eq!(parse_ok("   ").len(), 0);
}

#[test]
fn assignment_is_recognized() {
    assert_eq!(parse_ok("x = 1+2"), vec!["x = {num:1 + num:2}"]);
}

#[test]
fn call_with_two_arguments() {
    let program = parse("f(x,1)").unwrap();
    assert_eq!(program.statements.len(), 1);
    match &program.statements[0] {
        Statement::Call(c) => {
            assert_eq!(render(&c.function), "name:f");
            assert_eq!(c.arguments.contents.len(), 2);
            assert_eq!(render(&c.arguments.contents[0]), "name:x");
            assert_eq!(render(&c.arguments.contents[1]), "num:1");
        }
        Statement::Assignment(_) => panic!("expected a call"),
    }
}

#[test]
fn call_target_may_be_an_expression() {
    assert_eq!(parse_ok("(f)(x)"), vec!["call (name:f) [name:x]"]);
}

#[test]
fn several_statements_in_order() {
    assert_eq!(
        parse_ok("a = 1\nprint(a, b + 2.5)\n"),
        vec!["a = num:1", "call name:print [name:a, {name:b + num:2.5}]"]
    );
}

#[test]
fn whitespace_around_operators_is_ignored() {
    assert_eq!(parse_ok("z = a + b - c"), vec!["z = {{name:a + name:b} - name:c}"]);
}

#[test]
fn missing_close_parenthesis_is_reported() {
    assert_eq!(parse_err("f(x"), ParseError::UnexpectedEndOfInput);
    assert_eq!(
        parse_err("f(x = 1"),
        ParseError::ExpectedToken {
            expected: TokenType::RightParenthesis,
            found: TokenType::Equal
        }
    );
}

#[test]
fn statement_without_call_parenthesis_fails() {
    assert_eq!(
        parse_err("x y"),
        ParseError::ExpectedToken {
            expected: TokenType::LeftParenthesis,
            found: TokenType::Name
        }
    );
    assert_eq!(parse_err("x"), ParseError::UnexpectedEndOfInput);
}

#[test]
fn missing_value_is_reported() {
    assert_eq!(parse_err("f(,)"), ParseError::ValueExpected);
    assert_eq!(parse_err("x = "), ParseError::UnexpectedEndOfInput);
    assert_eq!(parse_err("x = (1"), ParseError::UnexpectedEndOfInput);
    assert_eq!(parse_err("#"), ParseError::ValueExpected);
}

#[test]
fn parser_and_parse_agree() {
    let mut parser = Parser::new("g(1)");
    let program = parser.parse_program().unwrap();
    assert_eq!(render_program(&program), vec!["call name:g [num:1]"]);
}

#[test]
fn operator_binding_powers() {
    assert_eq!(BinaryOperator::Plus.binding(), (1, 2));
    assert_eq!(BinaryOperator::Minus.binding(), (1, 2));
    assert_eq!(BinaryOperator::from_token_type(TokenType::Minus), Some(BinaryOperator::Minus));
    assert_eq!(BinaryOperator::from_token_type(TokenType::Comma), None);
}

#[test]
fn mixed_operator_chain_folds_to_the_left() {
    assert_eq!(
        parse_ok("w = a+b-c+d"),
        vec!["w = {{{name:a + name:b} - name:c} + name:d}"]
    );
}
