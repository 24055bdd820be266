//! What evaluating an expression gives.
//!
//! Evaluation calls on the caller's [`Host`](crate::engine::Host) for filters,
//! functions and float arithmetic. Each such call, with the answer it got, is an
//! [`Interaction`]. The functions here say what an evaluation gives when the
//! interactions it makes are read from a log, starting at a position: they
//! give the result and the position after the interactions the evaluation
//! made, and `None` where the log does not hold the calls the evaluation makes
//! (a different call, or too few entries).
use vstd::prelude::*;
use crate::ast::{CallV, ExprV, IdV, LogicalOperator, MathOperator, ValueV};
use crate::engine::{registered, EngineV, FilterFn, FunctionFn};
use crate::error::{Error, Kind};
use crate::json::{json_equal, JsonV, NumberV};
use crate::lookup::lookup;
use crate::text::int_text;
use crate::parser::spec_parse;

verus! {

/// One call the engine made of its host, with the answer it got.
pub enum Interaction {
    /// A function, its evaluated arguments, and its result.
    Function(FunctionFn, Seq<(Seq<char>, JsonV)>, Result<JsonV, Error>),
    /// A filter, its input, its evaluated arguments, and its result.
    Filter(FilterFn, JsonV, Seq<(Seq<char>, JsonV)>, Result<JsonV, Error>),
    /// Float arithmetic on two numbers, and its result.
    Math(MathOperator, NumberV, NumberV, Result<NumberV, Error>),
    /// A float comparison of two numbers, and its result.
    Compare(LogicalOperator, NumberV, NumberV, bool),
    /// A float equality of two numbers, and its result.
    Equal(NumberV, NumberV, bool),
    /// The text of a float literal, and the text it prints as.
    Text(Seq<char>, Seq<char>),
    /// The text of a float literal, and the number it stands for.
    Literal(Seq<char>, NumberV),
}

/// A result and the position in the log after the interactions that gave it.
pub type Run<T> = Option<(Result<T, Error>, int)>;

/// Whether `a` is a prefix of `b`.
pub open spec fn prefix(a: Seq<Interaction>, b: Seq<Interaction>) -> bool {
    a.len() <= b.len() && forall|i: int| 0 <= i < a.len() ==> #[trigger] b[i] == a[i]
}

/// A prefix of a prefix of `c` is a prefix of `c`.
pub proof fn lemma_prefix_trans(a: Seq<Interaction>, b: Seq<Interaction>, c: Seq<Interaction>)
    requires
        prefix(a, b),
        prefix(b, c),
    ensures
        prefix(a, c),
{
    assert forall|i: int| 0 <= i < a.len() implies #[trigger] c[i] == a[i] by {
        assert(b[i] == a[i]);
        assert(c[i] == b[i]);
    }
}

/// The absolute value of `a`.
pub open spec fn abs(a: int) -> int {
    if a < 0 {
        -a
    } else {
        a
    }
}

/// Integer division rounding toward zero.
pub open spec fn trunc_div(a: int, b: int) -> int {
    if (a < 0) == (b < 0) {
        abs(a) / abs(b)
    } else {
        -(abs(a) / abs(b))
    }
}

/// The remainder of [`trunc_div`]; it has the sign of `a`.
pub open spec fn trunc_rem(a: int, b: int) -> int {
    if a < 0 {
        -(abs(a) % abs(b))
    } else {
        abs(a) % abs(b)
    }
}

/// Whether `x` is an `i64` value.
pub open spec fn in_i64(x: int) -> bool {
    i64::MIN <= x <= i64::MAX
}

/// Arithmetic on two `i64` integers, where its result is again an `i64` integer;
/// `None` where the engine turns to floating point instead: on overflow, on a
/// zero divisor, and on a division that leaves a remainder.
pub open spec fn int_math(a: i64, b: i64, operator: MathOperator) -> Option<i64> {
    match operator {
        MathOperator::Addition => if in_i64(a + b) {
            Some((a + b) as i64)
        } else {
            None
        },
        MathOperator::Subtraction => if in_i64(a - b) {
            Some((a - b) as i64)
        } else {
            None
        },
        MathOperator::Multiplication => if in_i64(a * b) {
            Some((a * b) as i64)
        } else {
            None
        },
        MathOperator::Modulo => if b != 0 && !(a == i64::MIN && b == -1) {
            Some(trunc_rem(a as int, b as int) as i64)
        } else {
            None
        },
        MathOperator::Division => if b != 0 && !(a == i64::MIN && b == -1) && trunc_rem(
            a as int,
            b as int,
        ) == 0 {
            Some(trunc_div(a as int, b as int) as i64)
        } else {
            None
        },
    }
}

/// Whether an integer converts to a float without rounding.
pub open spec fn exact_as_float(x: i64) -> bool {
    -9007199254740992 <= x <= 9007199254740992
}

// ---------------------------------------------------------------------------
// Reading one interaction from the log: each of these gives the answer at `at`
// and the position after it, where the interaction there is the call named;
// `None` otherwise.

/// The answer to a call of `f` with `args`.
pub open spec fn answer_function(
    log: Seq<Interaction>,
    at: int,
    f: FunctionFn,
    args: Seq<(Seq<char>, JsonV)>,
) -> Run<JsonV> {
    if 0 <= at < log.len() {
        match log[at] {
            Interaction::Function(g, a, r) => if g == f && a == args {
                Some((r, at + 1))
            } else {
                None
            },
            _ => None,
        }
    } else {
        None
    }
}

/// The answer to `f` applied to `input` with `args`.
pub open spec fn answer_filter(
    log: Seq<Interaction>,
    at: int,
    f: FilterFn,
    input: JsonV,
    args: Seq<(Seq<char>, JsonV)>,
) -> Run<JsonV> {
    if 0 <= at < log.len() {
        match log[at] {
            Interaction::Filter(g, i, a, r) => if g == f && i == input && a == args {
                Some((r, at + 1))
            } else {
                None
            },
            _ => None,
        }
    } else {
        None
    }
}

/// The answer to float arithmetic `lhs operator rhs`.
pub open spec fn answer_math(
    log: Seq<Interaction>,
    at: int,
    operator: MathOperator,
    lhs: NumberV,
    rhs: NumberV,
) -> Run<NumberV> {
    if 0 <= at < log.len() {
        match log[at] {
            Interaction::Math(o, a, b, r) => if o == operator && a == lhs && b == rhs {
                Some((r, at + 1))
            } else {
                None
            },
            _ => None,
        }
    } else {
        None
    }
}

/// The answer to the float comparison `lhs operator rhs`.
pub open spec fn answer_compare(
    log: Seq<Interaction>,
    at: int,
    operator: LogicalOperator,
    lhs: NumberV,
    rhs: NumberV,
) -> Option<(bool, int)> {
    if 0 <= at < log.len() {
        match log[at] {
            Interaction::Compare(o, a, b, r) => if o == operator && a == lhs && b == rhs {
                Some((r, at + 1))
            } else {
                None
            },
            _ => None,
        }
    } else {
        None
    }
}

/// The answer to the float equality of `lhs` and `rhs`.
pub open spec fn answer_equal(log: Seq<Interaction>, at: int, lhs: NumberV, rhs: NumberV) -> Option<
    (bool, int),
> {
    if 0 <= at < log.len() {
        match log[at] {
            Interaction::Equal(a, b, r) => if a == lhs && b == rhs {
                Some((r, at + 1))
            } else {
                None
            },
            _ => None,
        }
    } else {
        None
    }
}

/// The answer to the text a float literal prints as.
pub open spec fn answer_text(log: Seq<Interaction>, at: int, literal: Seq<char>) -> Option<
    (Seq<char>, int),
> {
    if 0 <= at < log.len() {
        match log[at] {
            Interaction::Text(l, t) => if l == literal {
                Some((t, at + 1))
            } else {
                None
            },
            _ => None,
        }
    } else {
        None
    }
}

/// The answer to the number a float literal stands for.
pub open spec fn answer_literal(log: Seq<Interaction>, at: int, literal: Seq<char>) -> Option<
    (NumberV, int),
> {
    if 0 <= at < log.len() {
        match log[at] {
            Interaction::Literal(l, n) => if l == literal {
                Some((n, at + 1))
            } else {
                None
            },
            _ => None,
        }
    } else {
        None
    }
}

// ---------------------------------------------------------------------------
// Numbers.

/// Arithmetic on two numbers: integers where [`int_math`] stays in the
/// integers, the host's float arithmetic otherwise.
pub open spec fn run_math(
    lhs: NumberV,
    rhs: NumberV,
    operator: MathOperator,
    log: Seq<Interaction>,
    at: int,
) -> Run<NumberV> {
    match (lhs, rhs) {
        (NumberV::Int(a), NumberV::Int(b)) => match int_math(a, b, operator) {
            Some(x) => Some((Ok(NumberV::Int(x)), at)),
            None => answer_math(log, at, operator, lhs, rhs),
        },
        _ => answer_math(log, at, operator, lhs, rhs),
    }
}

/// An ordering comparison of two numbers: exact where both are integers that
/// convert to floats exactly, the host's float comparison otherwise.
pub open spec fn run_compare(
    operator: LogicalOperator,
    lhs: NumberV,
    rhs: NumberV,
    log: Seq<Interaction>,
    at: int,
) -> Option<(bool, int)> {
    match (lhs, rhs) {
        (NumberV::Int(a), NumberV::Int(b)) => if exact_as_float(a) && exact_as_float(b) {
            Some(
                (
                    match operator {
                        LogicalOperator::GreaterThan => a > b,
                        LogicalOperator::GreaterThanOrEqual => a >= b,
                        LogicalOperator::LowerThan => a < b,
                        _ => a <= b,
                    },
                    at,
                ),
            )
        } else {
            answer_compare(log, at, operator, lhs, rhs)
        },
        _ => answer_compare(log, at, operator, lhs, rhs),
    }
}

/// Equality of two evaluated values: two integers by value, two other numbers
/// by the host's float equality, and two values that are not both numbers as
/// JSON values.
pub open spec fn run_values_equal(lhs: JsonV, rhs: JsonV, log: Seq<Interaction>, at: int) -> Option<
    (bool, int),
> {
    match (lhs, rhs) {
        (JsonV::Number(NumberV::Int(a)), JsonV::Number(NumberV::Int(b))) => Some((a == b, at)),
        (JsonV::Number(a), JsonV::Number(b)) => answer_equal(log, at, a, b),
        _ => Some((json_equal(lhs, rhs), at)),
    }
}

/// The kind of a value, as errors name it.
pub open spec fn value_kind(v: ValueV) -> Kind {
    match v {
        ValueV::Integer(_) => Kind::Integer,
        ValueV::Float(_) => Kind::Float,
        ValueV::Boolean(_) => Kind::Boolean,
        ValueV::Str(_) => Kind::String,
        ValueV::Identifier(_) => Kind::Identifier,
        ValueV::Math(..) => Kind::Math,
        ValueV::Logical(..) => Kind::Logical,
        ValueV::Call(_) => Kind::FunctionCall,
        ValueV::Concat(_) => Kind::StringConcat,
    }
}

/// The text one element of a string concatenation contributes.
pub open spec fn run_concat_piece(
    v: ValueV,
    position: Seq<IdV>,
    data: JsonV,
    log: Seq<Interaction>,
    at: int,
) -> Run<Seq<char>> {
    match v {
        ValueV::Str(s) => Some((Ok(s), at)),
        ValueV::Integer(x) => Some((Ok(int_text(x as int)), at)),
        ValueV::Float(t) => match answer_text(log, at, t) {
            Some((s, k)) => Some((Ok(s), k)),
            None => None,
        },
        ValueV::Identifier(id) => match lookup(data, id, position) {
            Some(JsonV::Str(s)) => Some((Ok(s), at)),
            Some(JsonV::Number(NumberV::Int(i))) => Some((Ok(int_text(i as int)), at)),
            Some(JsonV::Number(NumberV::Decimal(t))) => Some((Ok(t), at)),
            Some(_) => Some((Err(Error::IdentifierNotConcatenable), at)),
            None => Some((Err(Error::IdentifierNotFound), at)),
        },
        v => Some((Err(Error::NotConcatenable(value_kind(v))), at)),
    }
}

/// The text a string concatenation gives, element by element.
pub open spec fn run_concat(
    values: Seq<ValueV>,
    position: Seq<IdV>,
    data: JsonV,
    log: Seq<Interaction>,
    at: int,
) -> Run<Seq<char>>
    decreases values.len(),
{
    if values.len() == 0 {
        Some((Ok(Seq::empty()), at))
    } else {
        match run_concat_piece(values[0], position, data, log, at) {
            Some((Ok(s), k)) => match run_concat(values.drop_first(), position, data, log, k) {
                Some((Ok(t), j)) => Some((Ok(s + t), j)),
                other => other,
            },
            Some((Err(e), k)) => Some((Err(e), k)),
            None => None,
        }
    }
}

// ---------------------------------------------------------------------------
// Expressions.

/// The evaluated named arguments, in order.
pub open spec fn run_args(
    eng: EngineV,
    args: Seq<(Seq<char>, ExprV)>,
    position: Seq<IdV>,
    data: JsonV,
    log: Seq<Interaction>,
    at: int,
) -> Run<Seq<(Seq<char>, JsonV)>>
    decreases args, 0nat,
{
    if args.len() == 0 {
        Some((Ok(Seq::empty()), at))
    } else {
        match run_expression(eng, args[0].1, position, data, log, at) {
            Some((Ok(v), k)) => match run_args(eng, args.drop_first(), position, data, log, k) {
                Some((Ok(vs), j)) => Some((Ok(seq![(args[0].0, v)] + vs), j)),
                other => other,
            },
            Some((Err(e), k)) => Some((Err(e), k)),
            None => None,
        }
    }
}

/// A function call: its arguments are evaluated, then the registered function
/// is called with them.
pub open spec fn run_call(
    eng: EngineV,
    call: CallV,
    position: Seq<IdV>,
    data: JsonV,
    log: Seq<Interaction>,
    at: int,
) -> Run<JsonV>
    decreases call, 0nat,
{
    match run_args(eng, call.args, position, data, log, at) {
        Some((Ok(args), k)) => match registered(eng.functions, call.name) {
            Some(f) => answer_function(log, k, f, args),
            None => Some((Err(Error::FunctionNotFound), k)),
        },
        Some((Err(e), k)) => Some((Err(e), k)),
        None => None,
    }
}

/// One filter applied to `input`: its arguments are evaluated, then the
/// registered filter is called with the input and them.
pub open spec fn run_filter(
    eng: EngineV,
    filter: CallV,
    input: JsonV,
    position: Seq<IdV>,
    data: JsonV,
    log: Seq<Interaction>,
    at: int,
) -> Run<JsonV>
    decreases filter, 0nat,
{
    match run_args(eng, filter.args, position, data, log, at) {
        Some((Ok(args), k)) => match registered(eng.filters, filter.name) {
            Some(f) => answer_filter(log, k, f, input, args),
            None => Some((Err(Error::FilterNotFound), k)),
        },
        Some((Err(e), k)) => Some((Err(e), k)),
        None => None,
    }
}

/// The filters applied to `input` in turn.
pub open spec fn run_filters(
    eng: EngineV,
    filters: Seq<CallV>,
    input: JsonV,
    position: Seq<IdV>,
    data: JsonV,
    log: Seq<Interaction>,
    at: int,
) -> Run<JsonV>
    decreases filters, 0nat,
{
    if filters.len() == 0 {
        Some((Ok(input), at))
    } else {
        match run_filter(eng, filters[0], input, position, data, log, at) {
            Some((Ok(v), k)) => run_filters(eng, filters.drop_first(), v, position, data, log, k),
            other => other,
        }
    }
}

/// A value evaluated as a number. A float literal stands for the number the
/// host reads it as.
pub open spec fn run_value_as_number(
    eng: EngineV,
    value: ValueV,
    position: Seq<IdV>,
    data: JsonV,
    log: Seq<Interaction>,
    at: int,
) -> Run<NumberV>
    decreases value, 0nat,
{
    match value {
        ValueV::Integer(x) => Some((Ok(NumberV::Int(x)), at)),
        ValueV::Float(t) => match answer_literal(log, at, t) {
            Some((n, k)) => Some((Ok(n), k)),
            None => None,
        },
        ValueV::Identifier(id) => match lookup(data, id, position) {
            Some(JsonV::Number(n)) => Some((Ok(n), at)),
            Some(_) => Some((Err(Error::IdentifierNotNumber), at)),
            None => Some((Err(Error::IdentifierNotFound), at)),
        },
        ValueV::Math(lhs, rhs, operator) => match run_as_number(eng, *lhs, position, data, log, at) {
            Some((Ok(a), k)) => match run_as_number(eng, *rhs, position, data, log, k) {
                Some((Ok(b), j)) => run_math(a, b, operator, log, j),
                other => other,
            },
            other => other,
        },
        ValueV::Call(call) => match run_call(eng, call, position, data, log, at) {
            Some((Ok(JsonV::Number(n)), k)) => Some((Ok(n), k)),
            Some((Ok(_), k)) => Some((Err(Error::FunctionResultNotNumber), k)),
            Some((Err(e), k)) => Some((Err(e), k)),
            None => None,
        },
        v => Some((Err(Error::NotANumber(value_kind(v))), at)),
    }
}

/// An expression evaluated as a number: its value directly where it has no
/// filters, the whole expression otherwise.
pub open spec fn run_as_number(
    eng: EngineV,
    e: ExprV,
    position: Seq<IdV>,
    data: JsonV,
    log: Seq<Interaction>,
    at: int,
) -> Run<NumberV>
    decreases e, 2nat,
{
    if e.filters.len() == 0 {
        run_value_as_number(eng, e.value, position, data, log, at)
    } else {
        match run_expression(eng, e, position, data, log, at) {
            Some((Ok(JsonV::Number(n)), k)) => Some((Ok(n), k)),
            Some((Ok(_), k)) => Some((Err(Error::ExpressionNotNumber), k)),
            Some((Err(err), k)) => Some((Err(err), k)),
            None => None,
        }
    }
}

/// Applies the negation of an expression to its filtered value.
pub open spec fn negated_value(v: JsonV, negated: bool) -> Result<JsonV, Error> {
    if !negated {
        Ok(v)
    } else {
        match v {
            JsonV::Bool(b) => Ok(JsonV::Bool(!b)),
            _ => Err(Error::NegateNonBool),
        }
    }
}

/// The value of an expression's value, before filters and negation. A float
/// literal stands for the number the host reads it as, so that `1.50` gives the
/// same number as `1.5`; in a string concatenation it gives instead the text
/// that number prints as. An arithmetic expression gives its number here, and
/// its filters then apply to that number: `1 + 2 | f` is `f` applied to 3 (a
/// reading of the whole expression as a number here would come back to the
/// same expression, filters and all, without end).
pub open spec fn run_base(
    eng: EngineV,
    e: ExprV,
    position: Seq<IdV>,
    data: JsonV,
    log: Seq<Interaction>,
    at: int,
) -> Run<JsonV>
    decreases e, 0nat,
{
    match e.value {
        ValueV::Integer(x) => Some((Ok(JsonV::Number(NumberV::Int(x))), at)),
        ValueV::Float(t) => match answer_literal(log, at, t) {
            Some((n, k)) => Some((Ok(JsonV::Number(n)), k)),
            None => None,
        },
        ValueV::Boolean(b) => Some((Ok(JsonV::Bool(b)), at)),
        ValueV::Str(s) => Some((Ok(JsonV::Str(s)), at)),
        ValueV::Identifier(id) => match lookup(data, id, position) {
            Some(v) => Some((Ok(v), at)),
            None => Some((Err(Error::IdentifierNotFound), at)),
        },
        ValueV::Math(..) => match run_value_as_number(eng, e.value, position, data, log, at) {
            Some((Ok(n), k)) => Some((Ok(JsonV::Number(n)), k)),
            Some((Err(err), k)) => Some((Err(err), k)),
            None => None,
        },
        ValueV::Logical(..) => match run_value_as_bool(eng, e.value, position, data, log, at) {
            Some((Ok(b), k)) => Some((Ok(JsonV::Bool(b)), k)),
            Some((Err(err), k)) => Some((Err(err), k)),
            None => None,
        },
        ValueV::Call(call) => run_call(eng, call, position, data, log, at),
        ValueV::Concat(values) => match run_concat(values, position, data, log, at) {
            Some((Ok(s), k)) => Some((Ok(JsonV::Str(s)), k)),
            Some((Err(err), k)) => Some((Err(err), k)),
            None => None,
        },
    }
}

/// An expression evaluated to a JSON value: its value, then its filters in
/// turn, then its negation.
pub open spec fn run_expression(
    eng: EngineV,
    e: ExprV,
    position: Seq<IdV>,
    data: JsonV,
    log: Seq<Interaction>,
    at: int,
) -> Run<JsonV>
    decreases e, 1nat,
{
    match run_base(eng, e, position, data, log, at) {
        Some((Ok(v), k)) => match run_filters(eng, e.filters, v, position, data, log, k) {
            Some((Ok(w), j)) => Some((negated_value(w, e.negated), j)),
            other => other,
        },
        other => other,
    }
}

/// A value evaluated as a boolean.
pub open spec fn run_value_as_bool(
    eng: EngineV,
    value: ValueV,
    position: Seq<IdV>,
    data: JsonV,
    log: Seq<Interaction>,
    at: int,
) -> Run<bool>
    decreases value, 0nat,
{
    match value {
        ValueV::Boolean(b) => Some((Ok(b), at)),
        ValueV::Identifier(id) => match lookup(data, id, position) {
            Some(JsonV::Bool(b)) => Some((Ok(b), at)),
            Some(_) => Some((Err(Error::IdentifierNotBool), at)),
            None => Some((Err(Error::IdentifierNotFound), at)),
        },
        ValueV::Logical(lhs, rhs, operator) => match operator {
            LogicalOperator::And => match run_expression_as_bool(eng, *lhs, position, data, log, at) {
                Some((Ok(true), k)) => run_expression_as_bool(eng, *rhs, position, data, log, k),
                other => other,
            },
            LogicalOperator::Or => match run_expression_as_bool(eng, *lhs, position, data, log, at) {
                Some((Ok(a), k)) => match run_expression_as_bool(eng, *rhs, position, data, log, k) {
                    Some((Ok(b), j)) => Some((Ok(a || b), j)),
                    other => other,
                },
                other => other,
            },
            LogicalOperator::Equal | LogicalOperator::NotEqual => match run_expression(
                eng,
                *lhs,
                position,
                data,
                log,
                at,
            ) {
                Some((Ok(a), k)) => match run_expression(eng, *rhs, position, data, log, k) {
                    Some((Ok(b), j)) => match run_values_equal(a, b, log, j) {
                        Some((eq, i)) => Some(
                            (
                                Ok(if operator == LogicalOperator::Equal {
                                    eq
                                } else {
                                    !eq
                                }),
                                i,
                            ),
                        ),
                        None => None,
                    },
                    Some((Err(err), j)) => Some((Err(err), j)),
                    None => None,
                },
                Some((Err(err), k)) => Some((Err(err), k)),
                None => None,
            },
            _ => match run_as_number(eng, *lhs, position, data, log, at) {
                Some((Ok(a), k)) => match run_as_number(eng, *rhs, position, data, log, k) {
                    Some((Ok(b), j)) => match run_compare(operator, a, b, log, j) {
                        Some((c, i)) => Some((Ok(c), i)),
                        None => None,
                    },
                    Some((Err(err), j)) => Some((Err(err), j)),
                    None => None,
                },
                Some((Err(err), k)) => Some((Err(err), k)),
                None => None,
            },
        },
        ValueV::Call(call) => match run_call(eng, call, position, data, log, at) {
            Some((Ok(JsonV::Bool(b)), k)) => Some((Ok(b), k)),
            Some((Ok(_), k)) => Some((Err(Error::FunctionResultNotBool), k)),
            Some((Err(e), k)) => Some((Err(e), k)),
            None => None,
        },
        v => Some((Err(Error::NotABool(value_kind(v))), at)),
    }
}

/// An expression evaluated as a boolean: its value as a boolean, negated where
/// the expression is; its filters are not applied.
pub open spec fn run_expression_as_bool(
    eng: EngineV,
    e: ExprV,
    position: Seq<IdV>,
    data: JsonV,
    log: Seq<Interaction>,
    at: int,
) -> Run<bool>
    decreases e, 0nat,
{
    match run_value_as_bool(eng, e.value, position, data, log, at) {
        Some((Ok(b), k)) => Some((Ok(if e.negated {
            !b
        } else {
            b
        }), k)),
        other => other,
    }
}


/// The value the text of an expression evaluates to.
pub open spec fn run_eval(
    eng: EngineV,
    text: Seq<char>,
    position: Seq<IdV>,
    data: JsonV,
    log: Seq<Interaction>,
    at: int,
) -> Run<JsonV> {
    match spec_parse(text) {
        Some(e) => run_expression(eng, e, position, data, log, at),
        None => Some((Err(Error::Parse), at)),
    }
}

/// The boolean the text of an expression evaluates to.
pub open spec fn run_eval_as_bool(
    eng: EngineV,
    text: Seq<char>,
    position: Seq<IdV>,
    data: JsonV,
    log: Seq<Interaction>,
    at: int,
) -> Run<bool> {
    match spec_parse(text) {
        Some(e) => run_expression_as_bool(eng, e, position, data, log, at),
        None => Some((Err(Error::Parse), at)),
    }
}

} // verus!
