use cs220::context::{Context, EvalError, Scalar};
use cs220::lexer::{tokenize, TokenKind};
use cs220::parser::{parse_command, SyntaxError};
use cs220::syntax::{BinOp, Command, Expression};

#[derive(Clone, Copy, Debug, PartialEq)]
struct F(f64);

impl Scalar for F {
    fn from_literal(text: &str) -> Self {
        F(text.parse::<f64>().unwrap())
    }
    fn plus(self, rhs: Self) -> Self {
        F(self.0 + rhs.0)
    }
    fn minus(self, rhs: Self) -> Self {
        F(self.0 - rhs.0)
    }
    fn times(self, rhs: Self) -> Self {
        F(self.0 * rhs.0)
    }
    fn divide(self, rhs: Self) -> Self {
        F(self.0 / rhs.0)
    }
    fn power(self, rhs: Self) -> Self {
        F(self.0.powf(rhs.0))
    }
    fn is_zero(&self) -> bool {
        self.0 == 0.0
    }
}

fn num(s: &str) -> Expression {
    Expression::Num(s.to_string())
}

fn var(s: &str) -> Expression {
    Expression::Variable(s.to_string())
}

fn bin(op: BinOp, l: Expression, r: Expression) -> Expression {
    Expression::BinOp { op, lhs: Box::new(l), rhs: Box::new(r) }
}

fn run(ctx: &mut Context<F>, line: &str) -> Result<(String, F), EvalError> {
    let cmd = parse_command(line).unwrap();
    ctx.calc_command(&cmd)
}

fn value_of(line: &str) -> f64 {
    let mut ctx = Context::new();
    run(&mut ctx, line).unwrap().1 .0
}

#[test]
fn precedence_multiplication_before_addition() {
    let cmd = parse_command("1 + 2 * 3").unwrap();
    assert_eq!(
        cmd,
        Command {
            variable: None,
            expression: bin(BinOp::Add, num("1"), bin(BinOp::Multiply, num("2"), num("3"))),
        }
    );
    assert_eq!(value_of("1 + 2 * 3"), 7.0);
}

#[test]
fn subtraction_groups_left() {
    let cmd = parse_command("1 - 2 - 3").unwrap();
    assert_eq!(
        cmd.expression,
        bin(BinOp::Subtract, bin(BinOp::Subtract, num("1"), num("2")), num("3"))
    );
    assert_eq!(value_of("1 - 2 - 3"), -4.0);
}

#[test]
fn power_groups_right() {
    let cmd = parse_command("2 ^ 3 ^ 2").unwrap();
    assert_eq!(
        cmd.expression,
        bin(BinOp::Power, num("2"), bin(BinOp::Power, num("3"), num("2")))
    );
    assert_eq!(value_of("2 ^ 3 ^ 2"), 512.0);
}

#[test]
fn power_binds_tighter_than_multiplication() {
    assert_eq!(value_of("2 * 3 ^ 2"), 18.0);
    assert_eq!(value_of("2 ^ 3 * 2"), 16.0);
    assert_eq!(value_of("8 / 2 / 2"), 2.0);
}

#[test]
fn parentheses_and_fractions() {
    assert_eq!(value_of("(1 + 2) * 3"), 9.0);
    assert_eq!(value_of("1.5 * 2"), 3.0);
    assert_eq!(value_of("((4))"), 4.0);
    assert_eq!(value_of("4 ^ 0.5"), 2.0);
    assert_eq!(value_of("2 ^ (0 - 1)"), 0.5);
}

#[test]
fn anonymous_results_are_numbered() {
    let mut ctx = Context::new();
    assert_eq!(run(&mut ctx, "3 + 5"), Ok(("$0".to_string(), F(8.0))));
    assert_eq!(run(&mut ctx, "1 + 1"), Ok(("$1".to_string(), F(2.0))));
    assert_eq!(run(&mut ctx, "2 * 2"), Ok(("$2".to_string(), F(4.0))));
    assert_eq!(ctx.current_counter(), 3);
    assert_eq!(ctx.lookup(&"$1".to_string()), Some(F(2.0)));
}

#[test]
fn anonymous_names_past_nine() {
    let mut ctx = Context::new();
    for _ in 0..12 {
        run(&mut ctx, "1").unwrap();
    }
    assert_eq!(run(&mut ctx, "2"), Ok(("$12".to_string(), F(2.0))));
    assert_eq!(ctx.lookup(&"$10".to_string()), Some(F(1.0)));
    assert_eq!(ctx.current_counter(), 13);
}

#[test]
fn explicit_binding_is_visible_later() {
    let mut ctx = Context::new();
    assert_eq!(run(&mut ctx, "v = 3 - 2"), Ok(("v".to_string(), F(1.0))));
    assert_eq!(ctx.current_counter(), 0);
    assert_eq!(run(&mut ctx, "v + 10"), Ok(("$0".to_string(), F(11.0))));
    assert_eq!(run(&mut ctx, "v = v + 11"), Ok(("v".to_string(), F(12.0))));
    assert_eq!(ctx.lookup(&"v".to_string()), Some(F(12.0)));
}

#[test]
fn binding_visible_to_next_command() {
    // `v` is bound to 3 - 2 = 1, so `v + 10` is 11.
    let mut ctx = Context::new();
    run(&mut ctx, "v = 3 - 2").unwrap();
    assert_eq!(run(&mut ctx, "v + 10").unwrap().1, F(11.0));
}

#[test]
fn division_by_zero_fails_without_binding() {
    let mut ctx = Context::new();
    assert_eq!(run(&mut ctx, "5 / 0"), Err(EvalError::DivisionByZero));
    assert_eq!(ctx.lookup(&"$0".to_string()), None);
    assert_eq!(ctx.current_counter(), 1);
    assert_eq!(run(&mut ctx, "x = 1 / (2 - 2)"), Err(EvalError::DivisionByZero));
    assert_eq!(ctx.lookup(&"x".to_string()), None);
    assert_eq!(ctx.current_counter(), 1);
}

#[test]
fn undefined_variable_fails_without_binding() {
    let mut ctx = Context::new();
    assert_eq!(
        run(&mut ctx, "undefined_name + 1"),
        Err(EvalError::UndefinedVariable("undefined_name".to_string()))
    );
    assert_eq!(ctx.lookup(&"$0".to_string()), None);
    assert_eq!(
        run(&mut ctx, "x = x + 1"),
        Err(EvalError::UndefinedVariable("x".to_string()))
    );
    assert_eq!(ctx.lookup(&"x".to_string()), None);
}

#[test]
fn left_operand_fails_first() {
    let mut ctx = Context::new();
    assert_eq!(run(&mut ctx, "1 / 0 + y"), Err(EvalError::DivisionByZero));
    assert_eq!(run(&mut ctx, "y + 1 / 0"), Err(EvalError::UndefinedVariable("y".to_string())));
}

#[test]
fn parsing_twice_gives_equal_trees() {
    let line = "a = (x1 + 2.5) * y ^ 2 - 7 / z";
    assert_eq!(parse_command(line), parse_command(line));
    let cmd = parse_command(line).unwrap();
    assert_eq!(cmd.variable, Some("a".to_string()));
}

#[test]
fn malformed_lines_are_syntax_errors() {
    assert_eq!(parse_command(""), Err(SyntaxError { position: 0 }));
    assert_eq!(parse_command("   "), Err(SyntaxError { position: 3 }));
    assert_eq!(parse_command("1 + 2 )"), Err(SyntaxError { position: 6 }));
    assert_eq!(parse_command("(1 + 2"), Err(SyntaxError { position: 6 }));
    assert_eq!(parse_command("1 # 2"), Err(SyntaxError { position: 2 }));
    assert_eq!(parse_command("1 +"), Err(SyntaxError { position: 3 }));
    assert_eq!(parse_command("1 2"), Err(SyntaxError { position: 2 }));
    assert_eq!(parse_command("= 1"), Err(SyntaxError { position: 0 }));
    assert_eq!(parse_command("x = "), Err(SyntaxError { position: 4 }));
    assert_eq!(parse_command("1 = 2"), Err(SyntaxError { position: 2 }));
}

#[test]
fn tokens_carry_offsets() {
    let ts = tokenize(" ab1 = 12.5+x").unwrap();
    assert_eq!(ts.len(), 5);
    assert_eq!(ts[0].kind, TokenKind::Ident("ab1".to_string()));
    assert_eq!(ts[0].start, 1);
    assert_eq!(ts[1].kind, TokenKind::Assign);
    assert_eq!(ts[2].kind, TokenKind::Num("12.5".to_string()));
    assert_eq!(ts[2].start, 7);
    assert_eq!(ts[3].kind, TokenKind::Op(BinOp::Add));
    assert_eq!(ts[4].start, 12);
    assert_eq!(tokenize("1.x"), Err(1));
    assert_eq!(tokenize("x_1 ^").unwrap().len(), 2);
}

#[test]
fn evaluation_matches_infix_arithmetic() {
    assert_eq!(value_of("1 + 2 * 3 - 4 / 2 ^ 2"), 1.0 + 2.0 * 3.0 - 4.0 / 2f64.powf(2.0));
    assert_eq!(value_of("(1 + 2) * (3 - 4) / 5"), (1.0 + 2.0) * (3.0 - 4.0) / 5.0);
    assert_eq!(value_of("10 - 4 - 3 * 2 ^ 2 ^ 0.5"), 10.0 - 4.0 - 3.0 * 2f64.powf(2f64.powf(0.5)));
    assert_eq!(value_of("7 / 2 * 3"), 7.0 / 2.0 * 3.0);
}

fn int_value(ctx: &mut Context<i64>, line: &str) -> Result<(String, i64), EvalError> {
    ctx.calc_command(&parse_command(line).unwrap())
}

#[test]
fn integer_calculator() {
    let mut ctx: Context<i64> = Context::new();
    assert_eq!(int_value(&mut ctx, "1 - 2 - 3"), Ok(("$0".to_string(), -4)));
    assert_eq!(int_value(&mut ctx, "2 ^ 3 ^ 2"), Ok(("$1".to_string(), 512)));
    assert_eq!(int_value(&mut ctx, "1 + 2 * 3"), Ok(("$2".to_string(), 7)));
    assert_eq!(int_value(&mut ctx, "7 / 2"), Ok(("$3".to_string(), 3)));
    assert_eq!(int_value(&mut ctx, "(0 - 7) / 2"), Ok(("$4".to_string(), -3)));
    assert_eq!(int_value(&mut ctx, "2 ^ (0 - 1)"), Ok(("$5".to_string(), 0)));
    assert_eq!(int_value(&mut ctx, "12.9 + 0"), Ok(("$6".to_string(), 12)));
    assert_eq!(int_value(&mut ctx, "5 / 0"), Err(EvalError::DivisionByZero));
    assert_eq!(int_value(&mut ctx, "a / 0"), Err(EvalError::UndefinedVariable("a".to_string())));
    assert_eq!(int_value(&mut ctx, "9223372036854775807 + 1"), Ok(("$9".to_string(), i64::MIN)));
    assert_eq!(ctx.lookup(&"$7".to_string()), None);
}
