use balena_temen::ast::{Identifier, LogicalOperator, MathOperator};
use balena_temen::engine::{Context, Engine, FilterFn, FunctionFn, Host};
use balena_temen::error::Error;
use balena_temen::json::{Json, Number};

/// A context that does float arithmetic with `f64` and knows the `uuidv4` function.
#[derive(Default)]
struct TestHost;

fn as_float(n: &Number) -> f64 {
    match n {
        Number::Int(i) => *i as f64,
        Number::Decimal(t) => t.parse::<f64>().unwrap(),
    }
}

fn from_float(x: f64) -> Result<Number, Error> {
    if x.is_finite() {
        Ok(Number::Decimal(serde_json::Number::from_f64(x).unwrap().to_string()))
    } else {
        Err(Error::InvalidNumber)
    }
}

impl Host for TestHost {
    fn call_function(&mut self, function: FunctionFn, _args: &Vec<(String, Json)>) -> Result<Json, Error> {
        match function {
            FunctionFn::Uuidv4 => Ok(Json::String("8e1d5b8a-1c5a-4d3f-9e6b-3a2f1b0c9d8e".to_string())),
            _ => Err(Error::Custom("unsupported".to_string())),
        }
    }

    fn call_filter(&mut self, _filter: FilterFn, _input: &Json, _args: &Vec<(String, Json)>) -> Result<Json, Error> {
        Err(Error::Custom("unsupported".to_string()))
    }

    fn float_math(&mut self, operator: MathOperator, lhs: &Number, rhs: &Number) -> Result<Number, Error> {
        let (a, b) = (as_float(lhs), as_float(rhs));
        from_float(match operator {
            MathOperator::Addition => a + b,
            MathOperator::Subtraction => a - b,
            MathOperator::Multiplication => a * b,
            MathOperator::Division => a / b,
            MathOperator::Modulo => a % b,
        })
    }

    fn float_compare(&mut self, operator: LogicalOperator, lhs: &Number, rhs: &Number) -> bool {
        let (a, b) = (as_float(lhs), as_float(rhs));
        match operator {
            LogicalOperator::GreaterThan => a > b,
            LogicalOperator::GreaterThanOrEqual => a >= b,
            LogicalOperator::LowerThan => a < b,
            _ => a <= b,
        }
    }

    fn float_equal(&mut self, lhs: &Number, rhs: &Number) -> bool {
        let (a, b) = (as_float(lhs), as_float(rhs));
        a == b || (a - b).abs() <= f64::EPSILON * a.abs().max(b.abs())
    }

    fn float_text(&mut self, literal: &str) -> String {
        literal.parse::<f64>().unwrap().to_string()
    }

    fn float_number(&mut self, literal: &str) -> Number {
        match literal.parse::<f64>().ok().and_then(serde_json::Number::from_f64) {
            Some(n) => Number::Decimal(n.to_string()),
            None => Number::Decimal(literal.to_string()),
        }
    }
}

fn eval(e: &str) -> Result<bool, Error> {
    let engine = Engine::default();
    let mut context = Context::new(TestHost::default());
    engine.eval_as_bool(e, &Identifier::default(), &Json::Null, &mut context)
}

fn eval_eq(e: &str, r: bool) {
    match eval(e) {
        Ok(b) => assert_eq!(b, r, "{}", e),
        Err(err) => panic!("{}: {:?}", e, err),
    }
}

fn eval_err(e: &str) {
    assert!(eval(e).is_err(), "{}", e);
}

#[test]
fn test_boolean() {
    eval_eq("true", true);
    eval_eq("false", false);
}

#[test]
fn test_string() {
    eval_err("\"\"");
    eval_err("\"hallo\"");
}

#[test]
fn test_integer() {
    eval_err("10");
    eval_err("-12");
    eval_err("0");
}

#[test]
fn test_float() {
    eval_err("10.2");
    eval_err("-3.2");
    eval_err("0.0");
}

#[test]
fn test_logical_and() {
    eval_eq("true and true", true);
    eval_eq("true and false", false);
    eval_eq("false and true", false);
    eval_eq("false and false", false);
}

#[test]
fn test_logical_or() {
    eval_eq("true or true", true);
    eval_eq("true or false", true);
    eval_eq("false or true", true);
    eval_eq("false or false", false);
}

#[test]
fn test_logical_not() {
    eval_eq("not false", true);
    eval_eq("not 1 == 2", true);
}

#[test]
fn test_logical_equal() {
    eval_eq("true == true", true);
    eval_eq("1 == 1", true);
    eval_eq("2.3 == 2.3", true);
    eval_eq("`a` == `a`", true);
    eval_eq("`a` == `b`", false);
    eval_eq("`1` == 1", false);
}

#[test]
fn test_logical_not_equal() {
    eval_eq("true != true", false);
    eval_eq("1 != 1", false);
    eval_eq("2.3 != 2.3", false);
    eval_eq("`a` != `a`", false);
    eval_eq("`a` != `b`", true);
    eval_eq("`1` != 1", true);
}

#[test]
fn test_relational_greater_than() {
    eval_eq("1 > 2", false);
    eval_eq("3 > 2", true);
    eval_eq("3.1 > 2", true);
}

#[test]
fn test_relational_greater_than_or_equal() {
    eval_eq("1 >= 2", false);
    eval_eq("3 >= 2", true);
    eval_eq("3.1 >= 2", true);
    eval_eq("3.1 >= 3.1", true);
    eval_eq("3 >= 3.0", true);
}

#[test]
fn test_relational_lower_than() {
    eval_eq("1 < 2", true);
    eval_eq("3 < 2", false);
    eval_eq("3.1 < 2", false);
    eval_eq("3.1 < 3.1", false);
    eval_eq("3 < 3.0", false);
}

#[test]
fn test_relational_lower_than_or_equal() {
    eval_eq("1 <= 2", true);
    eval_eq("3 <= 2", false);
    eval_eq("2 <= 3.1", true);
    eval_eq("3.1 <= 3.1", true);
    eval_eq("3 <= 3.0", true);
}

#[test]
fn test_math() {
    eval_err("1 - 1");
    eval_err("2 - 1");
}

#[test]
fn test_function() {
    eval_err("uuidv4()");
}
