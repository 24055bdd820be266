use balena_temen::ast::{Identifier, LogicalOperator, MathOperator};
use balena_temen::engine::helper::evaluate_with_engine;
use balena_temen::engine::{Context, Engine, EngineBuilder, FilterFn, FunctionFn, Host};
use balena_temen::error::{Error, Kind};
use balena_temen::json::{json_eq, Json, Number};
use serde_json::Value;

/// A context with `f64` arithmetic, a few string filters, and two custom
/// filters that tell which of them ran.
#[derive(Default)]
struct TestHost {
    calls: usize,
}

fn as_float(n: &Number) -> f64 {
    match n {
        Number::Int(i) => *i as f64,
        Number::Decimal(t) => t.parse::<f64>().unwrap(),
    }
}

fn text_of(j: &Json) -> Result<String, Error> {
    match j {
        Json::String(s) => Ok(s.clone()),
        _ => Err(Error::Custom("not a string".to_string())),
    }
}

impl Host for TestHost {
    fn call_function(&mut self, function: FunctionFn, _args: &Vec<(String, Json)>) -> Result<Json, Error> {
        self.calls += 1;
        match function {
            FunctionFn::Uuidv4 => Ok(Json::String("8e1d5b8a-1c5a-4d3f-9e6b-3a2f1b0c9d8e".to_string())),
            FunctionFn::Custom(n) => Ok(Json::Number(Number::Int(n as i64))),
            FunctionFn::Now => Err(Error::Custom("no clock".to_string())),
        }
    }

    fn call_filter(&mut self, filter: FilterFn, input: &Json, _args: &Vec<(String, Json)>) -> Result<Json, Error> {
        self.calls += 1;
        match filter {
            FilterFn::Upper => Ok(Json::String(text_of(input)?.to_uppercase())),
            FilterFn::Lower => Ok(Json::String(text_of(input)?.to_lowercase())),
            FilterFn::Trim => Ok(Json::String(text_of(input)?.trim().to_string())),
            FilterFn::Slugify => Ok(Json::String(
                text_of(input)?
                    .to_lowercase()
                    .split(|c: char| !c.is_alphanumeric())
                    .filter(|p| !p.is_empty())
                    .collect::<Vec<_>>()
                    .join("-"),
            )),
            FilterFn::Custom(n) => Ok(Json::Number(Number::Int(n as i64))),
            _ => Err(Error::Custom("unsupported".to_string())),
        }
    }

    fn float_math(&mut self, operator: MathOperator, lhs: &Number, rhs: &Number) -> Result<Number, Error> {
        self.calls += 1;
        let (a, b) = (as_float(lhs), as_float(rhs));
        let x = match operator {
            MathOperator::Addition => a + b,
            MathOperator::Subtraction => a - b,
            MathOperator::Multiplication => a * b,
            MathOperator::Division => a / b,
            MathOperator::Modulo => a % b,
        };
        if x.is_finite() {
            Ok(Number::Decimal(serde_json::Number::from_f64(x).unwrap().to_string()))
        } else {
            Err(Error::InvalidNumber)
        }
    }

    fn float_compare(&mut self, operator: LogicalOperator, lhs: &Number, rhs: &Number) -> bool {
        self.calls += 1;
        let (a, b) = (as_float(lhs), as_float(rhs));
        match operator {
            LogicalOperator::GreaterThan => a > b,
            LogicalOperator::GreaterThanOrEqual => a >= b,
            LogicalOperator::LowerThan => a < b,
            _ => a <= b,
        }
    }

    fn float_equal(&mut self, lhs: &Number, rhs: &Number) -> bool {
        self.calls += 1;
        as_float(lhs) == as_float(rhs)
    }

    fn float_text(&mut self, literal: &str) -> String {
        self.calls += 1;
        literal.parse::<f64>().unwrap().to_string()
    }

    fn float_number(&mut self, literal: &str) -> Number {
        self.calls += 1;
        match literal.parse::<f64>().ok().and_then(serde_json::Number::from_f64) {
            Some(n) => Number::Decimal(n.to_string()),
            None => Number::Decimal(literal.to_string()),
        }
    }
}

fn to_json(v: &Value) -> Json {
    match v {
        Value::Null => Json::Null,
        Value::Bool(b) => Json::Bool(*b),
        Value::Number(n) => match n.as_i64() {
            Some(i) => Json::Number(Number::Int(i)),
            None => Json::Number(Number::Decimal(n.to_string())),
        },
        Value::String(s) => Json::String(s.clone()),
        Value::Array(a) => Json::Array(a.iter().map(to_json).collect()),
        Value::Object(m) => Json::Object(m.iter().map(|(k, v)| (k.clone(), to_json(v))).collect()),
    }
}

fn to_value(j: &Json) -> Value {
    match j {
        Json::Null => Value::Null,
        Json::Bool(b) => Value::Bool(*b),
        Json::Number(Number::Int(i)) => Value::from(*i),
        Json::Number(Number::Decimal(t)) => serde_json::from_str(t).unwrap(),
        Json::String(s) => Value::String(s.clone()),
        Json::Array(a) => Value::Array(a.iter().map(to_value).collect()),
        Json::Object(m) => Value::Object(m.iter().map(|(k, v)| (k.clone(), to_value(v))).collect()),
    }
}

fn json(text: &str) -> Json {
    to_json(&serde_json::from_str::<Value>(text).unwrap())
}

fn evaluate(text: &str) -> Result<Value, Error> {
    let engine = Engine::default();
    let mut context = Context::new(TestHost::default());
    evaluate_with_engine(json(text), &engine, &mut context).map(|j| to_value(&j))
}

fn value(text: &str) -> Value {
    serde_json::from_str(text).unwrap()
}

fn eval_at(expression: &str, data: &str) -> Result<Value, Error> {
    let engine = Engine::default();
    let mut context = Context::new(TestHost::default());
    engine.eval(expression, &Identifier::default(), &json(data), &mut context).map(|j| to_value(&j))
}

fn eval(expression: &str) -> Result<Value, Error> {
    eval_at(expression, "null")
}

#[test]
fn formula_object_is_replaced_by_its_value() {
    assert_eq!(evaluate(r#"{"$$formula": "1 + 2"}"#).unwrap(), value("3"));
}

#[test]
fn chained_formulas_are_evaluated() {
    let data = r#"{
        "ssid": "Zrzka 5G",
        "id": { "$$formula": "super.ssid | SLUGIFY" },
        "upperId": { "$$formula": "super.id | UPPER" }
    }"#;
    let evaluated = value(r#"{ "ssid": "Zrzka 5G", "id": "zrzka-5g", "upperId": "ZRZKA-5G" }"#);
    assert_eq!(evaluate(data).unwrap(), evaluated);
}

#[test]
fn custom_evaluation_keyword() {
    let engine: Engine = EngineBuilder::default().eval_keyword("evalMePlease").into();
    let mut context = Context::new(TestHost::default());
    let result = evaluate_with_engine(json(r#"{"evalMePlease": "1 + 2"}"#), &engine, &mut context).unwrap();
    assert_eq!(to_value(&result), value("3"));
    assert_eq!(engine.eval_keyword(), "evalMePlease");
}

#[test]
fn default_evaluation_keyword() {
    assert_eq!(Engine::default().eval_keyword(), "$$formula");
}

#[test]
fn formula_refers_to_a_sibling() {
    let data = r#"{ "number": 3, "value": { "$$formula": "super.number + 5" } }"#;
    assert_eq!(evaluate(data).unwrap(), value(r#"{ "number": 3, "value": 8 }"#));
}

#[test]
fn formula_depending_on_a_later_formula_takes_another_pass() {
    let data = r#"{ "a": { "$$formula": "super.b + 1" }, "b": { "$$formula": "1" } }"#;
    assert_eq!(evaluate(data).unwrap(), value(r#"{ "a": 2, "b": 1 }"#));
}

#[test]
fn formula_in_an_array_is_replaced_in_place() {
    let data = r#"{ "list": [1, { "$$formula": "2 * 3" }, "x"] }"#;
    assert_eq!(evaluate(data).unwrap(), value(r#"{ "list": [1, 6, "x"] }"#));
}

#[test]
fn data_without_formulas_is_unchanged() {
    let data = r#"{ "a": [1, 2.5, {"b": null}], "c": "text", "d": true }"#;
    assert_eq!(evaluate(data).unwrap(), value(data));
    assert_eq!(evaluate("12").unwrap(), value("12"));
}

#[test]
fn keyword_with_a_value_that_is_not_a_string_is_an_error() {
    assert!(matches!(evaluate(r#"{"a": {"$$formula": 1}}"#), Err(Error::EvalKeywordNotString)));
}

#[test]
fn formula_that_never_evaluates_is_an_error() {
    assert!(matches!(evaluate(r#"{"a": {"$$formula": "missing + 1"}}"#), Err(Error::UnableToEvaluate)));
    assert!(matches!(
        evaluate(r#"{"a": {"$$formula": "super.b + 1"}, "b": {"$$formula": "super.a + 1"}}"#),
        Err(Error::UnableToEvaluate)
    ));
}

#[test]
fn integer_arithmetic_stays_in_the_integers() {
    assert_eq!(eval("6 / 3").unwrap(), value("2"));
    assert_eq!(eval("7 % -3").unwrap(), value("1"));
    assert_eq!(eval("-7 % 3").unwrap(), value("-1"));
    assert_eq!(eval("2 + 3 * 4").unwrap(), value("14"));
    assert_eq!(eval("(2 + 3) * 4").unwrap(), value("20"));
    assert_eq!(eval("10 - 2 - 3").unwrap(), value("5"));
}

#[test]
fn arithmetic_turns_to_floats() {
    assert_eq!(eval("7 / 2").unwrap(), value("3.5"));
    assert_eq!(eval("1.5 + 1").unwrap(), value("2.5"));
    assert_eq!(eval("9223372036854775807 + 1").unwrap(), value("9.223372036854776e18"));
    assert!(matches!(eval("1 / 0"), Err(Error::InvalidNumber)));
}

#[test]
fn integer_arithmetic_calls_nothing_of_the_context() {
    let engine = Engine::default();
    let mut context = Context::new(TestHost::default());
    let r = engine.eval("6 / 3 + 1", &Identifier::default(), &Json::Null, &mut context).unwrap();
    assert!(json_eq(&r, &Json::Number(Number::Int(3))));
    assert_eq!(context.host().calls, 0);
}

#[test]
fn string_concatenation() {
    assert_eq!(eval("`a` ~ 1 ~ \"b\"").unwrap(), value("\"a1b\""));
    assert_eq!(eval_at("`n` ~ n ~ s", r#"{"n": -42, "s": "x"}"#).unwrap(), value("\"n-42x\""));
    assert!(matches!(eval("`a` ~ true"), Err(Error::NotConcatenable(Kind::Boolean))));
    assert!(matches!(eval_at("`a` ~ b", r#"{"b": [1]}"#), Err(Error::IdentifierNotConcatenable)));
}

#[test]
fn identifiers_are_looked_up() {
    let data = r#"{"a": {"b": [10, 20, {"c": true}]}, "x": "y"}"#;
    assert_eq!(eval_at("a.b[1]", data).unwrap(), value("20"));
    assert_eq!(eval_at("a[\"b\"][2].c", data).unwrap(), value("true"));
    assert!(matches!(eval_at("a.b[3]", data), Err(Error::IdentifierNotFound)));
    assert!(matches!(eval_at("a.z", data), Err(Error::IdentifierNotFound)));
    assert!(matches!(eval_at("a.b[-1]", data), Err(Error::Parse)));
}

#[test]
fn relative_identifiers_start_at_the_position() {
    let engine = Engine::default();
    let mut context = Context::new(TestHost::default());
    let data = json(r#"{"a": {"b": 1, "c": 2}, "d": 3}"#);
    let position = Identifier::default().name("a".to_string()).name("b".to_string());
    let r = engine.eval("super.c + super.super.d", &position, &data, &mut context).unwrap();
    assert_eq!(to_value(&r), value("5"));
    let r = engine.eval("this", &position, &data, &mut context).unwrap();
    assert_eq!(to_value(&r), value("1"));
    assert!(matches!(
        engine.eval("super.super.super.d", &position, &data, &mut context),
        Err(Error::IdentifierNotFound)
    ));
}

#[test]
fn only_booleans_are_negated() {
    assert_eq!(eval("not true").unwrap(), value("false"));
    assert!(matches!(eval("not 1"), Err(Error::NegateNonBool)));
}

#[test]
fn unknown_filters_and_functions_are_errors() {
    assert!(matches!(eval("1 | nope"), Err(Error::FilterNotFound)));
    assert!(matches!(eval("nope()"), Err(Error::FunctionNotFound)));
    assert!(matches!(eval("uuidv4(x = missing)"), Err(Error::IdentifierNotFound)));
}

#[test]
fn a_filter_registered_again_replaces_the_first() {
    let engine: Engine = EngineBuilder::default()
        .filter("pick", FilterFn::Custom(1))
        .filter("pick", FilterFn::Custom(2))
        .function("f", FunctionFn::Custom(7))
        .into();
    let mut context = Context::new(TestHost::default());
    let r = engine.eval("0 | pick", &Identifier::default(), &Json::Null, &mut context).unwrap();
    assert_eq!(to_value(&r), value("2"));
    let r = engine.eval("f() + 1", &Identifier::default(), &Json::Null, &mut context).unwrap();
    assert_eq!(to_value(&r), value("8"));
}

#[test]
fn built_in_filters_apply_in_turn() {
    assert_eq!(eval("`  Hello World ` | trim | slugify | upper").unwrap(), value("\"HELLO-WORLD\""));
}

#[test]
fn number_errors() {
    assert!(matches!(eval("true + 1"), Err(Error::NotANumber(Kind::Boolean))));
    assert!(matches!(eval("`a` + 1"), Err(Error::NotANumber(Kind::String))));
    assert!(matches!(eval_at("a + 1", r#"{"a": "x"}"#), Err(Error::IdentifierNotNumber)));
    assert!(matches!(eval("uuidv4() + 1"), Err(Error::FunctionResultNotNumber)));
    assert!(matches!(eval("(`a` | upper) + 1"), Err(Error::ExpressionNotNumber)));
}

#[test]
fn boolean_errors() {
    let engine = Engine::default();
    let mut context = Context::new(TestHost::default());
    let data = json(r#"{"a": 1}"#);
    assert!(matches!(
        engine.eval_as_bool("a", &Identifier::default(), &data, &mut context),
        Err(Error::IdentifierNotBool)
    ));
    assert!(matches!(
        engine.eval_as_bool("`a` ~ `b`", &Identifier::default(), &data, &mut context),
        Err(Error::NotABool(Kind::StringConcat))
    ));
    assert!(matches!(
        engine.eval_as_bool("uuidv4()", &Identifier::default(), &data, &mut context),
        Err(Error::FunctionResultNotBool)
    ));
}

#[test]
fn text_that_is_no_expression() {
    assert!(matches!(eval("1 +"), Err(Error::Parse)));
    assert!(matches!(eval("`unterminated"), Err(Error::Parse)));
    assert!(matches!(eval("1 2"), Err(Error::Parse)));
    assert!(matches!(eval("#"), Err(Error::Parse)));
}

#[test]
fn not_equal_is_the_negation_of_equal() {
    assert_eq!(eval("1 != 2").unwrap(), value("true"));
    assert_eq!(eval("1 == 2").unwrap(), value("false"));
    assert_eq!(eval("`x` != `x`").unwrap(), value("false"));
}

#[test]
fn relations_mirror() {
    assert_eq!(eval("1 < 2").unwrap(), eval("2 > 1").unwrap());
    assert_eq!(eval("2 <= 2").unwrap(), eval("2 >= 2").unwrap());
    assert_eq!(eval("3 < 2").unwrap(), eval("2 > 3").unwrap());
}

#[test]
fn a_value_equals_itself() {
    let data = r#"{"a": {"b": [1, 2.5, "x", null, {"c": false}]}}"#;
    assert_eq!(eval_at("a == a", data).unwrap(), value("true"));
    assert_eq!(eval_at("a.b != a.b", data).unwrap(), value("false"));
}

#[test]
fn and_stops_at_false_and_or_evaluates_both() {
    let data = r#"{"t": true}"#;
    assert_eq!(eval_at("false and missing", data).unwrap(), value("false"));
    assert!(matches!(eval_at("true or missing", data), Err(Error::IdentifierNotFound)));
}

#[test]
fn errors_of_the_context_are_passed_on() {
    assert!(matches!(eval("uuidv4() | lower | nope"), Err(Error::FilterNotFound)));
    assert!(matches!(eval("1 | lower"), Err(Error::Custom(_))));
    assert!(matches!(eval("now()"), Err(Error::Custom(_))));
}

#[test]
fn an_absolute_identifier_does_not_depend_on_the_position() {
    let engine = Engine::default();
    let mut context = Context::new(TestHost::default());
    let data = json(r#"{"a": {"b": 1}, "c": [true]}"#);
    let here = Identifier::default();
    let there = Identifier::default().name("a".to_string()).name("b".to_string());
    let r1 = engine.eval("c[0]", &here, &data, &mut context).unwrap();
    let r2 = engine.eval("c[0]", &there, &data, &mut context).unwrap();
    assert!(json_eq(&r1, &r2));
    assert_eq!(to_value(&r1), value("true"));
}

#[test]
fn filter_names_are_read_in_lower_case() {
    assert_eq!(eval("`abc` | UPPER").unwrap(), value("\"ABC\""));
}

#[test]
fn a_boolean_reads_the_same_as_a_value() {
    let engine = Engine::default();
    let mut context = Context::new(TestHost::default());
    let data = json(r#"{"t": true}"#);
    for e in ["1 < 2", "not (1 == 1)", "t and not false", "t"] {
        let b = engine.eval_as_bool(e, &Identifier::default(), &data, &mut context).unwrap();
        let v = engine.eval(e, &Identifier::default(), &data, &mut context).unwrap();
        assert!(json_eq(&v, &Json::Bool(b)), "{}", e);
    }
}

#[test]
fn a_number_reads_the_same_as_a_value() {
    assert_eq!(eval("1 + 2").unwrap(), value("3"));
    assert_eq!(eval("1 + 2 == 3").unwrap(), value("true"));
    assert_eq!(eval("7 / 2").unwrap(), value("3.5"));
    assert_eq!(eval("7 / 2 == 3.5").unwrap(), value("true"));
}

#[test]
fn the_default_engine_finds_its_built_ins() {
    assert_eq!(eval("`MiXed` | lower").unwrap(), value("\"mixed\""));
    assert_eq!(eval("uuidv4()").unwrap(), value("\"8e1d5b8a-1c5a-4d3f-9e6b-3a2f1b0c9d8e\""));
    assert!(matches!(eval("uuid()"), Err(Error::FunctionNotFound)));
}

#[test]
fn evaluate_uses_the_default_engine() {
    let mut context = Context::new(TestHost::default());
    let r = balena_temen::engine::helper::evaluate(json(r#"{"a": {"$$formula": "2 * 21"}}"#), &mut context).unwrap();
    assert_eq!(to_value(&r), value(r#"{"a": 42}"#));
    let mut context = Context::new(TestHost::default());
    let r = balena_temen::engine::helper::eval(json(r#"[{"$$formula": "`x` | upper"}]"#), &mut context).unwrap();
    assert_eq!(to_value(&r), value(r#"["X"]"#));
}

#[test]
fn the_former_name_evaluates_alike() {
    let engine = Engine::default();
    let mut context = Context::new(TestHost::default());
    let r = balena_temen::engine::helper::eval_with_engine(json(r#"{"x": {"$$formula": "uuidv4()"}}"#), &engine, &mut context)
        .unwrap();
    assert_eq!(to_value(&r), value(r#"{"x": "8e1d5b8a-1c5a-4d3f-9e6b-3a2f1b0c9d8e"}"#));
    assert_eq!(context.into_host().calls, 1);
}

#[test]
fn every_formula_is_replaced_by_its_value() {
    let data = r#"{
        "a": { "$$formula": "1 + 1" },
        "b": [ { "$$formula": "super.super.a * 10" }, { "c": { "$$formula": "`x` ~ 1" } } ],
        "d": 5
    }"#;
    let evaluated = value(r#"{ "a": 2, "b": [ 20, { "c": "x1" } ], "d": 5 }"#);
    assert_eq!(evaluate(data).unwrap(), evaluated);
}

#[test]
fn a_float_literal_stands_for_its_number() {
    assert_eq!(eval("1.50").unwrap(), value("1.5"));
    assert_eq!(eval("3.0").unwrap(), value("3.0"));
    assert!(eval("3.0").unwrap().is_f64());
    assert_eq!(eval("`x` ~ 1.50").unwrap(), value("\"x1.5\""));
    assert_eq!(eval("`x` ~ 3.0").unwrap(), value("\"x3\""));
    assert_eq!(evaluate(r#"{"$$formula": "3.0"}"#).unwrap(), value("3.0"));
    let data = r#"{"a": {"$$formula": "1.50"}, "b": {"$$formula": "`x` ~ super.a"}}"#;
    assert_eq!(evaluate(data).unwrap(), value(r#"{"a": 1.5, "b": "x1.5"}"#));
}

#[test]
fn what_is_no_boolean_fails_without_asking_the_host() {
    let engine = Engine::default();
    let mut context = Context::new(TestHost::default());
    for (e, k) in [("1", Kind::Integer), ("1.5", Kind::Float), ("`a`", Kind::String), ("1 + 2", Kind::Math), ("`a` ~ `b`", Kind::StringConcat)] {
        match engine.eval_as_bool(e, &Identifier::default(), &Json::Null, &mut context) {
            Err(Error::NotABool(got)) => assert_eq!(got, k, "{}", e),
            other => panic!("{}: {:?}", e, other),
        }
    }
    assert_eq!(context.host().calls, 0);
}

#[test]
fn integer_addition_and_multiplication_commute() {
    assert_eq!(eval("3 + -7").unwrap(), eval("-7 + 3").unwrap());
    assert_eq!(eval("6 * -4").unwrap(), eval("-4 * 6").unwrap());
}
