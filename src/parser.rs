//! Recursive-descent parser, with precedence climbing for binary operators.
//!
//! Whitespace separates tokens and is otherwise ignored: every decision looks
//! at the next token that is not whitespace.
use vstd::prelude::*;
use vstd::string::StringSliceAdditionalSpecFns;

use crate::lexer::{
    Lexer, TokenType, token_kind, token_text, after_token, skip_ws, lemma_skip_ws_len,
    lemma_token_len,
};
use crate::syntax_tree::{
    Arguments, Assignment, BinaryOperation, BinaryOperator, Call, Expression, Name, Number,
    Program, Statement, Value, ExprModel, StatementModel, binding_powers, operator_of, expr_model,
    value_model, arguments_model, statement_model, program_model,
};

verus! {

/// Why a parse failed.
#[derive(Debug, Clone, Copy, PartialEq, Eq, Structural)]
pub enum ParseError {
    /// No parenthesized expression, name or number where a value must stand.
    ValueExpected,
    /// A required token is missing and another one stands in its place.
    ExpectedToken { expected: TokenType, found: TokenType },
    /// The input ended inside a construct that needs more tokens.
    UnexpectedEndOfInput,
}

/// Result of parsing an expression from some input: its model and the input
/// left over.
pub type ExprParse = Result<(ExprModel, Seq<u8>), ParseError>;

/// Category of the next token of `s` that is not whitespace.
pub open spec fn kind_ahead(s: Seq<u8>) -> TokenType {
    token_kind(skip_ws(s))
}

/// Text of the next token of `s` that is not whitespace.
pub open spec fn text_ahead(s: Seq<u8>) -> Seq<u8> {
    token_text(skip_ws(s))
}

/// What is left of `s` after its next token that is not whitespace.
pub open spec fn after_ahead(s: Seq<u8>) -> Seq<u8> {
    after_token(skip_ws(s))
}

/// The failure reported when `expected` is required at the start of `s` and
/// is not there.
pub open spec fn missing(s: Seq<u8>, expected: TokenType) -> ParseError {
    if kind_ahead(s) == TokenType::EndOfFile {
        ParseError::UnexpectedEndOfInput
    } else {
        ParseError::ExpectedToken { expected, found: kind_ahead(s) }
    }
}

/// Consumes the required token `expected`: the input after it.
pub open spec fn spec_expect(s: Seq<u8>, expected: TokenType) -> Result<Seq<u8>, ParseError> {
    if kind_ahead(s) == expected {
        Ok(after_ahead(s))
    } else {
        Err(missing(s, expected))
    }
}

// Each production below only recurses on strictly shorter input. The guards
// on lengths spell that out for the definitions; the lemmas that follow the
// productions show that they always hold.

/// `value := '(' expression ')' | name | number`
pub open spec fn spec_value(s: Seq<u8>) -> ExprParse
    decreases s.len(), 0nat,
{
    let k = kind_ahead(s);
    if k == TokenType::LeftParenthesis {
        let r = after_ahead(s);
        if r.len() < s.len() {
            match spec_sub_expression(r, 0) {
                Ok((e, r2)) => match spec_expect(r2, TokenType::RightParenthesis) {
                    Ok(r3) => Ok((ExprModel::Parenthesized(Box::new(e)), r3)),
                    Err(err) => Err(err),
                },
                Err(err) => Err(err),
            }
        } else {
            Err(ParseError::ValueExpected)
        }
    } else if k == TokenType::Name {
        Ok((ExprModel::Name(text_ahead(s)), after_ahead(s)))
    } else if k == TokenType::Number {
        Ok((ExprModel::Number(text_ahead(s)), after_ahead(s)))
    } else if k == TokenType::EndOfFile {
        Err(ParseError::UnexpectedEndOfInput)
    } else {
        Err(ParseError::ValueExpected)
    }
}

/// One value, then every following operator whose left binding power is at
/// least `min_binding`, folded to the left.
pub open spec fn spec_sub_expression(s: Seq<u8>, min_binding: u8) -> ExprParse
    decreases s.len(), 2nat,
{
    match spec_value(s) {
        Ok((v, r)) => if r.len() <= s.len() {
            spec_climb(v, r, min_binding)
        } else {
            Err(ParseError::ValueExpected)
        },
        Err(err) => Err(err),
    }
}

/// The operator loop of precedence climbing, with `lhs` parsed so far.
pub open spec fn spec_climb(lhs: ExprModel, s: Seq<u8>, min_binding: u8) -> ExprParse
    decreases s.len(), 1nat,
{
    let t = skip_ws(s);
    match operator_of(token_kind(t)) {
        Some(op) => if binding_powers(op).0 >= min_binding {
            let r = after_token(t);
            if r.len() < s.len() {
                match spec_sub_expression(r, binding_powers(op).1) {
                    Ok((rhs, r2)) => if r2.len() <= r.len() {
                        spec_climb(ExprModel::Binary(Box::new(lhs), op, Box::new(rhs)), r2, min_binding)
                    } else {
                        Err(ParseError::ValueExpected)
                    },
                    Err(err) => Err(err),
                }
            } else {
                Err(ParseError::ValueExpected)
            }
        } else {
            Ok((lhs, t))
        },
        None => Ok((lhs, t)),
    }
}

/// `expression := sub_expression(0)`
pub open spec fn spec_expression(s: Seq<u8>) -> ExprParse {
    spec_sub_expression(s, 0)
}

/// The arguments after the first: `(',' expression)*`, appended to `acc`.
pub open spec fn spec_more_arguments(acc: Seq<ExprModel>, s: Seq<u8>) -> Result<
    (Seq<ExprModel>, Seq<u8>),
    ParseError,
>
    decreases s.len(),
{
    if kind_ahead(s) == TokenType::Comma {
        let r = after_ahead(s);
        if r.len() < s.len() {
            match spec_expression(r) {
                Ok((e, r2)) => if r2.len() <= r.len() {
                    spec_more_arguments(acc.push(e), r2)
                } else {
                    Err(ParseError::ValueExpected)
                },
                Err(err) => Err(err),
            }
        } else {
            Err(ParseError::ValueExpected)
        }
    } else {
        Ok((acc, skip_ws(s)))
    }
}

/// `arguments := expression (',' expression)*`
pub open spec fn spec_arguments(s: Seq<u8>) -> Result<(Seq<ExprModel>, Seq<u8>), ParseError> {
    match spec_expression(s) {
        Ok((e, r)) => spec_more_arguments(seq![e], r),
        Err(err) => Err(err),
    }
}

/// `call := expression '(' arguments ')'`
pub open spec fn spec_call(s: Seq<u8>) -> Result<(StatementModel, Seq<u8>), ParseError> {
    match spec_expression(s) {
        Ok((target, r)) => match spec_expect(r, TokenType::LeftParenthesis) {
            Ok(r1) => match spec_arguments(r1) {
                Ok((args, r2)) => match spec_expect(r2, TokenType::RightParenthesis) {
                    Ok(r3) => Ok((StatementModel::Call(target, args), r3)),
                    Err(err) => Err(err),
                },
                Err(err) => Err(err),
            },
            Err(err) => Err(err),
        },
        Err(err) => Err(err),
    }
}

/// `assignment := name '=' expression`
pub open spec fn spec_assignment(s: Seq<u8>) -> Result<(StatementModel, Seq<u8>), ParseError> {
    if kind_ahead(s) == TokenType::Name {
        match spec_expect(after_ahead(s), TokenType::Equal) {
            Ok(r) => match spec_expression(r) {
                Ok((e, r2)) => Ok((StatementModel::Assignment(text_ahead(s), e), r2)),
                Err(err) => Err(err),
            },
            Err(err) => Err(err),
        }
    } else {
        Err(missing(s, TokenType::Name))
    }
}

/// An assignment when a name and `=` come next, else a call.
pub open spec fn spec_statement(s: Seq<u8>) -> Result<(StatementModel, Seq<u8>), ParseError> {
    if kind_ahead(s) == TokenType::Name && kind_ahead(after_ahead(s)) == TokenType::Equal {
        spec_assignment(s)
    } else {
        spec_call(s)
    }
}

/// Statements until the end of input, appended to `acc`.
pub open spec fn spec_statements(acc: Seq<StatementModel>, s: Seq<u8>) -> Result<
    Seq<StatementModel>,
    ParseError,
>
    decreases s.len(),
{
    let t = skip_ws(s);
    if token_kind(t) == TokenType::EndOfFile {
        Ok(acc)
    } else {
        match spec_statement(t) {
            Ok((st, r)) => if r.len() < s.len() {
                spec_statements(acc.push(st), r)
            } else {
                Err(ParseError::ValueExpected)
            },
            Err(err) => Err(err),
        }
    }
}

/// `program := statement*`, up to the end of input.
pub open spec fn spec_program(s: Seq<u8>) -> Result<Seq<StatementModel>, ParseError> {
    spec_statements(Seq::empty(), s)
}

/// A value consumes at least one token.
pub proof fn lemma_value_consumes(s: Seq<u8>)
    ensures
        spec_value(s) matches Ok((_, r)) ==> r.len() < s.len(),
    decreases s.len(), 0nat,
{
    lemma_consumed(s);
    if kind_ahead(s) == TokenType::LeftParenthesis {
        let r = after_ahead(s);
        lemma_sub_expression_consumes(r, 0);
        if let Ok((_, r2)) = spec_sub_expression(r, 0) {
            lemma_consumed(r2);
        }
    }
}

/// An expression consumes at least one token.
pub proof fn lemma_sub_expression_consumes(s: Seq<u8>, min_binding: u8)
    ensures
        spec_sub_expression(s, min_binding) matches Ok((_, r)) ==> r.len() < s.len(),
    decreases s.len(), 2nat,
{
    lemma_value_consumes(s);
    if let Ok((v, r)) = spec_value(s) {
        lemma_climb_consumes(v, r, min_binding);
    }
}

/// The operator loop never lengthens the input.
pub proof fn lemma_climb_consumes(lhs: ExprModel, s: Seq<u8>, min_binding: u8)
    ensures
        spec_climb(lhs, s, min_binding) matches Ok((_, r)) ==> r.len() <= s.len(),
    decreases s.len(), 1nat,
{
    lemma_consumed(s);
    let t = skip_ws(s);
    if let Some(op) = operator_of(token_kind(t)) {
        if binding_powers(op).0 >= min_binding {
            let r = after_token(t);
            lemma_sub_expression_consumes(r, binding_powers(op).1);
            if let Ok((rhs, r2)) = spec_sub_expression(r, binding_powers(op).1) {
                lemma_climb_consumes(
                    ExprModel::Binary(Box::new(lhs), op, Box::new(rhs)),
                    r2,
                    min_binding,
                );
            }
        }
    }
}

/// The arguments after the first never lengthen the input.
pub proof fn lemma_more_arguments_consume(acc: Seq<ExprModel>, s: Seq<u8>)
    ensures
        spec_more_arguments(acc, s) matches Ok((_, r)) ==> r.len() <= s.len(),
    decreases s.len(),
{
    lemma_consumed(s);
    if kind_ahead(s) == TokenType::Comma {
        let r = after_ahead(s);
        lemma_sub_expression_consumes(r, 0);
        if let Ok((e, r2)) = spec_expression(r) {
            lemma_more_arguments_consume(acc.push(e), r2);
        }
    }
}

/// A statement consumes at least one token, so the statement loop ends.
pub proof fn lemma_statement_consumes(s: Seq<u8>)
    ensures
        spec_statement(s) matches Ok((_, r)) ==> r.len() < s.len(),
{
    lemma_consumed(s);
    lemma_sub_expression_consumes(s, 0);
    if let Ok((_, r)) = spec_expression(s) {
        lemma_consumed(r);
        let r1 = after_ahead(r);
        lemma_sub_expression_consumes(r1, 0);
        if let Ok((e, r2)) = spec_expression(r1) {
            lemma_more_arguments_consume(seq![e], r2);
            if let Ok((_, r3)) = spec_more_arguments(seq![e], r2) {
                lemma_consumed(r3);
            }
        }
    }
    let a = after_ahead(s);
    lemma_consumed(a);
    lemma_sub_expression_consumes(after_ahead(a), 0);
}

/// The operator loop only looks past leading whitespace.
proof fn lemma_climb_skips_whitespace(lhs: ExprModel, s: Seq<u8>, min_binding: u8)
    ensures
        spec_climb(lhs, skip_ws(s), min_binding) == spec_climb(lhs, s, min_binding),
{
    lemma_consumed(s);
    lemma_token_len(skip_ws(s));
}

/// Operators of equal precedence fold to the left: after `lhs`, an operator
/// `op` and a value `v`, parsing goes on with the node `lhs op v` as its left
/// side, so `a - b - c` is `(a - b) - c`.
pub proof fn lemma_left_fold(
    lhs: ExprModel,
    s: Seq<u8>,
    min_binding: u8,
    op: BinaryOperator,
    v: ExprModel,
    rest: Seq<u8>,
)
    requires
        min_binding <= binding_powers(op).0,
        operator_of(kind_ahead(s)) == Some(op),
        spec_value(after_ahead(s)) == Ok::<_, ParseError>((v, rest)),
    ensures
        spec_climb(lhs, s, min_binding) == spec_climb(
            ExprModel::Binary(Box::new(lhs), op, Box::new(v)),
            rest,
            min_binding,
        ),
{
    let r = after_ahead(s);
    lemma_consumed(s);
    lemma_value_consumes(r);
    lemma_consumed(rest);
    let right = binding_powers(op).1;
    assert(spec_climb(v, rest, right) == Ok::<_, ParseError>((v, skip_ws(rest))));
    assert(spec_sub_expression(r, right) == Ok::<_, ParseError>((v, skip_ws(rest))));
    lemma_climb_skips_whitespace(
        ExprModel::Binary(Box::new(lhs), op, Box::new(v)),
        rest,
        min_binding,
    );
}

/// The outcome of an exec parse, in the shape of the productions above.
pub open spec fn value_outcome(r: Result<Value, ParseError>, rest: Seq<u8>) -> ExprParse {
    match r {
        Ok(v) => Ok((value_model(v), rest)),
        Err(err) => Err(err),
    }
}

pub open spec fn expr_outcome(r: Result<Expression, ParseError>, rest: Seq<u8>) -> ExprParse {
    match r {
        Ok(e) => Ok((expr_model(e), rest)),
        Err(err) => Err(err),
    }
}

pub open spec fn program_outcome(r: Result<Program, ParseError>) -> Result<
    Seq<StatementModel>,
    ParseError,
> {
    match r {
        Ok(p) => Ok(program_model(p)),
        Err(err) => Err(err),
    }
}

pub open spec fn unit_outcome(r: Result<(), ParseError>, rest: Seq<u8>) -> Result<
    Seq<u8>,
    ParseError,
> {
    match r {
        Ok(_) => Ok(rest),
        Err(err) => Err(err),
    }
}

proof fn lemma_consumed(s: Seq<u8>)
    ensures
        skip_ws(skip_ws(s)) == skip_ws(s),
        skip_ws(s).len() <= s.len(),
        kind_ahead(s) != TokenType::EndOfFile ==> after_ahead(s).len() < s.len(),
        kind_ahead(s) != TokenType::Whitespace,
{
    lemma_skip_ws_len(s);
    lemma_token_len(skip_ws(s));
}

/// Builds a syntax tree from the tokens of one source buffer.
pub struct Parser<'source> {
    lexer: Lexer<'source>,
}

impl<'source> View for Parser<'source> {
    type V = Seq<u8>;

    /// The input not yet consumed.
    closed spec fn view(&self) -> Seq<u8> {
        self.lexer@
    }
}

impl<'source> Parser<'source> {
    pub fn new(source: &'source str) -> (r: Self)
        ensures
            r@ == source.spec_bytes(),
    {
        Parser { lexer: Lexer::new(source) }
    }

    fn expect(&mut self, token_type: TokenType) -> (r: Result<(), ParseError>)
        ensures
            spec_expect(old(self)@, token_type) == unit_outcome(r, final(self)@),
            r is Ok && token_type != TokenType::EndOfFile ==> final(self)@.len() < old(self)@.len(),
    {
        proof {
            lemma_consumed(self@);
        }
        if self.lexer.next_if(token_type).is_some() {
            Ok(())
        } else {
            Err(self.missing(token_type))
        }
    }

    /// The failure for a required token `expected` that is not next.
    fn missing(&self, expected: TokenType) -> (r: ParseError)
        ensures
            r == missing(self@, expected),
    {
        proof {
            lemma_consumed(self@);
        }
        let mut probe = self.lexer;
        probe.skip_whitespace();
        let found = probe.peek(0).token_type;
        if found == TokenType::EndOfFile {
            ParseError::UnexpectedEndOfInput
        } else {
            ParseError::ExpectedToken { expected, found }
        }
    }

    fn parse_name(&mut self) -> (r: Option<Name>)
        ensures
            kind_ahead(old(self)@) == TokenType::Name ==> r.is_some() && r.unwrap().contents@
                == text_ahead(old(self)@) && final(self)@ == after_ahead(old(self)@),
            kind_ahead(old(self)@) != TokenType::Name ==> r.is_none() && final(self)@ == skip_ws(
                old(self)@,
            ),
    {
        match self.lexer.next_if(TokenType::Name) {
            Some(contents) => Some(Name { contents: vstd::slice::slice_to_vec(contents) }),
            None => None,
        }
    }

    fn parse_number(&mut self) -> (r: Option<Number>)
        ensures
            kind_ahead(old(self)@) == TokenType::Number ==> r.is_some() && r.unwrap().contents@
                == text_ahead(old(self)@) && final(self)@ == after_ahead(old(self)@),
            kind_ahead(old(self)@) != TokenType::Number ==> r.is_none() && final(self)@
                == skip_ws(old(self)@),
    {
        match self.lexer.next_if(TokenType::Number) {
            Some(contents) => Some(Number { contents: vstd::slice::slice_to_vec(contents) }),
            None => None,
        }
    }

    fn parse_value(&mut self) -> (r: Result<Value, ParseError>)
        ensures
            spec_value(old(self)@) == value_outcome(r, final(self)@),
            r is Ok ==> final(self)@.len() < old(self)@.len(),
        decreases old(self)@.len(), 0nat,
    {
        let ghost s = self@;
        proof {
            lemma_consumed(s);
        }
        if self.lexer.next_if(TokenType::LeftParenthesis).is_some() {
            let expression = match self.parse_expression() {
                Ok(e) => e,
                Err(err) => return Err(err),
            };
            match self.expect(TokenType::RightParenthesis) {
                Ok(()) => {},
                Err(err) => return Err(err),
            }
            Ok(Value::Parenthesized(expression))
        } else if let Some(name) = self.parse_name() {
            Ok(Value::Name(name))
        } else if let Some(number) = self.parse_number() {
            Ok(Value::Number(number))
        } else if self.lexer.peek(0).token_type == TokenType::EndOfFile {
            Err(ParseError::UnexpectedEndOfInput)
        } else {
            Err(ParseError::ValueExpected)
        }
    }

    fn parse_sub_expression(&mut self, binding: u8) -> (r: Result<Expression, ParseError>)
        ensures
            spec_sub_expression(old(self)@, binding) == expr_outcome(r, final(self)@),
            r is Ok ==> final(self)@.len() < old(self)@.len(),
        decreases old(self)@.len(), 2nat,
    {
        let ghost s = self@;
        let value = match self.parse_value() {
            Ok(v) => v,
            Err(err) => return Err(err),
        };
        let mut lhs = Expression::Value(Box::new(value));
        loop
            invariant
                s == old(self)@,
                spec_sub_expression(s, binding) == spec_climb(expr_model(lhs), self@, binding),
                self@.len() < s.len(),
            decreases self@.len(),
        {
            let ghost before = self@;
            proof {
                lemma_consumed(before);
            }
            self.lexer.skip_whitespace();
            let token = self.lexer.peek(0);
            let operator = match BinaryOperator::from_token_type(token.token_type) {
                Some(op) => op,
                None => return Ok(lhs),
            };
            let (lhs_binding, rhs_binding) = operator.binding();
            if lhs_binding < binding {
                return Ok(lhs);
            }
            self.lexer.next();
            let rhs = match self.parse_sub_expression(rhs_binding) {
                Ok(e) => e,
                Err(err) => return Err(err),
            };
            lhs = Expression::BinaryOperation(Box::new(BinaryOperation { lhs, rhs, operator }));
        }
    }

    fn parse_expression(&mut self) -> (r: Result<Expression, ParseError>)
        ensures
            spec_expression(old(self)@) == expr_outcome(r, final(self)@),
            r is Ok ==> final(self)@.len() < old(self)@.len(),
        decreases old(self)@.len(), 3nat,
    {
        self.parse_sub_expression(0)
    }

    fn parse_arguments(&mut self) -> (r: Result<Arguments, ParseError>)
        ensures
            match r {
                Ok(a) => spec_arguments(old(self)@) == Ok::<_, ParseError>(
                    (arguments_model(a), final(self)@),
                ) && final(self)@.len() < old(self)@.len(),
                Err(err) => spec_arguments(old(self)@) == Err::<(Seq<ExprModel>, Seq<u8>), _>(
                    err,
                ),
            },
    {
        let ghost s = self@;
        let first = match self.parse_expression() {
            Ok(e) => e,
            Err(err) => return Err(err),
        };
        let mut contents: Vec<Expression> = Vec::new();
        contents.push(first);
        assert(contents@.map_values(|e: Expression| expr_model(e)) =~= seq![expr_model(first)]);
        loop
            invariant
                s == old(self)@,
                spec_arguments(s) == spec_more_arguments(
                    contents@.map_values(|e: Expression| expr_model(e)),
                    self@,
                ),
                self@.len() < s.len(),
            decreases self@.len(),
        {
            let ghost before = self@;
            let ghost done = contents@.map_values(|e: Expression| expr_model(e));
            proof {
                lemma_consumed(before);
            }
            if self.lexer.next_if(TokenType::Comma).is_none() {
                return Ok(Arguments { contents });
            }
            let expression = match self.parse_expression() {
                Ok(e) => e,
                Err(err) => return Err(err),
            };
            contents.push(expression);
            assert(contents@.map_values(|e: Expression| expr_model(e)) =~= done.push(
                expr_model(expression),
            ));
        }
    }

    fn parse_call(&mut self) -> (r: Result<Call, ParseError>)
        ensures
            match r {
                Ok(c) => spec_call(old(self)@) == Ok::<_, ParseError>(
                    (statement_model(Statement::Call(c)), final(self)@),
                ) && final(self)@.len() < old(self)@.len(),
                Err(err) => spec_call(old(self)@) == Err::<(StatementModel, Seq<u8>), _>(err),
            },
    {
        let function = match self.parse_expression() {
            Ok(e) => e,
            Err(err) => return Err(err),
        };
        match self.expect(TokenType::LeftParenthesis) {
            Ok(()) => {},
            Err(err) => return Err(err),
        }
        let arguments = match self.parse_arguments() {
            Ok(a) => a,
            Err(err) => return Err(err),
        };
        match self.expect(TokenType::RightParenthesis) {
            Ok(()) => {},
            Err(err) => return Err(err),
        }
        Ok(Call { function, arguments })
    }

    fn parse_assignment(&mut self) -> (r: Result<Assignment, ParseError>)
        ensures
            match r {
                Ok(a) => spec_assignment(old(self)@) == Ok::<_, ParseError>(
                    (statement_model(Statement::Assignment(a)), final(self)@),
                ) && final(self)@.len() < old(self)@.len(),
                Err(err) => spec_assignment(old(self)@) == Err::<(StatementModel, Seq<u8>), _>(
                    err,
                ),
            },
    {
        proof {
            lemma_consumed(self@);
        }
        let name = match self.parse_name() {
            Some(n) => n,
            None => return Err(self.missing(TokenType::Name)),
        };
        match self.expect(TokenType::Equal) {
            Ok(()) => {},
            Err(err) => return Err(err),
        }
        let expression = match self.parse_expression() {
            Ok(e) => e,
            Err(err) => return Err(err),
        };
        Ok(Assignment { name, expression })
    }

    fn parse_statement(&mut self) -> (r: Result<Statement, ParseError>)
        ensures
            match r {
                Ok(st) => spec_statement(old(self)@) == Ok::<_, ParseError>(
                    (statement_model(st), final(self)@),
                ) && final(self)@.len() < old(self)@.len(),
                Err(err) => spec_statement(old(self)@) == Err::<(StatementModel, Seq<u8>), _>(
                    err,
                ),
            },
    {
        let mut probe = self.lexer;
        let is_assignment = probe.next_if(TokenType::Name).is_some() && probe.next_if(
            TokenType::Equal,
        ).is_some();
        if is_assignment {
            match self.parse_assignment() {
                Ok(a) => Ok(Statement::Assignment(a)),
                Err(err) => Err(err),
            }
        } else {
            match self.parse_call() {
                Ok(c) => Ok(Statement::Call(c)),
                Err(err) => Err(err),
            }
        }
    }

    /// Parses statements up to the end of input; the first failure aborts
    /// the parse.
    pub fn parse_program(&mut self) -> (r: Result<Program, ParseError>)
        ensures
            program_outcome(r) == spec_program(old(self)@),
    {
        let ghost s = self@;
        let mut statements: Vec<Statement> = Vec::new();
        assert(statements@.map_values(|st: Statement| statement_model(st)) =~= Seq::<
            StatementModel,
        >::empty());
        loop
            invariant
                s == old(self)@,
                spec_program(s) == spec_statements(
                    statements@.map_values(|st: Statement| statement_model(st)),
                    self@,
                ),
            decreases self@.len(),
        {
            let ghost before = self@;
            let ghost done = statements@.map_values(|st: Statement| statement_model(st));
            proof {
                lemma_consumed(before);
            }
            if self.lexer.next_if(TokenType::EndOfFile).is_some() {
                return Ok(Program { statements });
            }
            let statement = match self.parse_statement() {
                Ok(st) => st,
                Err(err) => return Err(err),
            };
            statements.push(statement);
            assert(statements@.map_values(|st: Statement| statement_model(st)) =~= done.push(
                statement_model(statement),
            ));
        }
    }
}

/// Parses `source` as a whole program.
pub fn parse(source: &str) -> (r: Result<Program, ParseError>)
    ensures
        program_outcome(r) == spec_program(source.spec_bytes()),
{
    let mut parser = Parser::new(source);
    parser.parse_program()
}

} // verus!
