//! The expression engine: registered filters and functions, and evaluation of
//! expressions against JSON data.
use vstd::prelude::*;
use crate::ast::{
    args_view, call_view, calls_view, expr_view, lemma_args_view, lemma_calls_view,
    lemma_values_view, value_view, values_view, CallV, ExprV, Expression, ExpressionValue,
    FunctionCall, IdV, Identifier, LogicalOperator, MathOperator, ValueV,
};
use crate::error::{Error, Kind};
use crate::json::{
    copy_json, copy_number, json_eq, json_equal, json_view, lemma_members_view, lemma_members_view_push, members_view, Json,
    JsonV, Number,
    NumberV,
};
use crate::lookup::{lookup, lookup_identifier};
use crate::parser::{parse_expression, spec_parse};
use crate::text::{int_text, int_to_text};
use crate::semantics::{
    abs, exact_as_float, in_i64, int_math, lemma_prefix_trans, negated_value, prefix, run_args,
    run_as_number, run_base, run_call, run_compare, run_concat, run_concat_piece, run_eval,
    run_eval_as_bool, run_expression, run_expression_as_bool, run_filter, run_filters, run_math,
    run_value_as_bool, run_value_as_number, run_values_equal, trunc_div, trunc_rem, Interaction,
    Run,
};

pub mod helper;

pub use crate::context::{Context, Host};

verus! {

/// A filter that can be registered with an [`EngineBuilder`]. The [`Host`]
/// carries out the filter when an expression applies it; a filter of the
/// caller's own is named by a number the host knows it by.
#[derive(Clone, Copy, Debug, PartialEq, Eq, Structural)]
pub enum FilterFn {
    Upper,
    Lower,
    Time,
    Date,
    Datetime,
    Trim,
    Slugify,
    /// A filter of the caller's own, told apart by a number the caller chose.
    Custom(u64),
}

/// A function that can be registered with an [`EngineBuilder`]. The [`Host`]
/// carries out the function when an expression calls it.
#[derive(Clone, Copy, Debug, PartialEq, Eq, Structural)]
pub enum FunctionFn {
    Uuidv4,
    Now,
    /// A function of the caller's own, told apart by a number the caller chose.
    Custom(u64),
}

/// The entry registered under `name`: the first one with that name.
///
/// A registry is a list of names with what is registered under them; a name is
/// registered again in place, so the first entry with a name is the one in
/// force.
pub open spec fn registered<T>(r: Seq<(Seq<char>, T)>, name: Seq<char>) -> Option<T>
    decreases r.len(),
{
    if r.len() == 0 {
        None
    } else if r[0].0 == name {
        Some(r[0].1)
    } else {
        registered(r.drop_first(), name)
    }
}

/// The mathematical value of a registry: names and what is registered under them.
pub open spec fn registry_view<T>(r: Seq<(String, T)>) -> Seq<(Seq<char>, T)> {
    r.map_values(|e: (String, T)| (e.0@, e.1))
}

proof fn lemma_registered_skip<T>(r: Seq<(Seq<char>, T)>, i: int, name: Seq<char>)
    requires
        0 <= i <= r.len(),
        forall|j: int| 0 <= j < i ==> r[j].0 != name,
    ensures
        registered(r, name) == registered(r.skip(i), name),
    decreases i,
{
    if i > 0 {
        lemma_registered_skip(r.drop_first(), i - 1, name);
        assert(r.drop_first().skip(i - 1) =~= r.skip(i));
    } else {
        assert(r.skip(0) =~= r);
    }
}

proof fn lemma_registered_update<T>(r: Seq<(Seq<char>, T)>, i: int, name: Seq<char>, v: T, k: Seq<char>)
    requires
        0 <= i < r.len(),
        r[i].0 == name,
        forall|j: int| 0 <= j < i ==> r[j].0 != name,
    ensures
        registered(r.update(i, (name, v)), k) == if k == name {
            Some(v)
        } else {
            registered(r, k)
        },
    decreases i,
{
    let u = r.update(i, (name, v));
    reveal_with_fuel(registered, 2);
    if i > 0 {
        assert(r[0].0 != name);
        assert(u[0] == r[0]);
        lemma_registered_update(r.drop_first(), i - 1, name, v, k);
        assert(u.drop_first() =~= r.drop_first().update(i - 1, (name, v)));
    } else {
        assert(u[0] == (name, v));
        assert(u.drop_first() =~= r.drop_first());
    }
}

proof fn lemma_registered_push<T>(r: Seq<(Seq<char>, T)>, name: Seq<char>, v: T, k: Seq<char>)
    requires
        registered(r, name) is None,
    ensures
        registered(r.push((name, v)), k) == if k == name {
            Some(v)
        } else {
            registered(r, k)
        },
    decreases r.len(),
{
    let p = r.push((name, v));
    reveal_with_fuel(registered, 2);
    if r.len() > 0 {
        assert(r[0].0 != name);
        assert(p[0] == r[0]);
        lemma_registered_push(r.drop_first(), name, v, k);
        assert(p.drop_first() =~= r.drop_first().push((name, v)));
    } else {
        assert(p[0] == (name, v));
        assert(p.drop_first() =~= Seq::<(Seq<char>, T)>::empty());
    }
}

proof fn lemma_registered_absent<T>(r: Seq<(Seq<char>, T)>, name: Seq<char>)
    requires
        forall|j: int| 0 <= j < r.len() ==> r[j].0 != name,
    ensures
        registered(r, name) is None,
    decreases r.len(),
{
    if r.len() > 0 {
        lemma_registered_absent(r.drop_first(), name);
    }
}

/// Registers `v` under `name`, in place of an entry of that name.
fn register<T>(reg: Vec<(String, T)>, name: String, v: T) -> (out: Vec<(String, T)>)
    ensures
        (forall|j: int| 0 <= j < reg@.len() ==> #[trigger] reg@[j].0@ != name@) ==> registry_view(out@)
            == registry_view(reg@).push((name@, v)),
        forall|k: Seq<char>|
            #[trigger] registered(registry_view(out@), k) == if k == name@ {
                Some(v)
            } else {
                registered(registry_view(reg@), k)
            },
{
    let mut r = reg;
    let ghost rv = registry_view(r@);
    let mut i: usize = 0;
    while i < r.len()
        invariant
            i <= r@.len(),
            r@ == reg@,
            rv == registry_view(r@),
            rv == registry_view(reg@),
            forall|j: int| 0 <= j < i ==> rv[j].0 != name@,
        decreases r@.len() - i,
    {
        if crate::json::str_eq(r[i].0.as_str(), name.as_str()) {
            let ghost nv = name@;
            assert(rv[i as int].0 == nv);
            assert(registry_view(reg@)[i as int] == (reg@[i as int].0@, reg@[i as int].1));
            r.set(i, (name, v));
            proof {
                assert(registry_view(r@) =~= rv.update(i as int, (nv, v)));
                assert forall|k: Seq<char>| #[trigger] registered(registry_view(r@), k) == if k
                    == nv {
                    Some(v)
                } else {
                    registered(rv, k)
                } by {
                    lemma_registered_update(rv, i as int, nv, v, k);
                }
            }
            return r;
        }
        i = i + 1;
    }
    proof {
        lemma_registered_absent(rv, name@);
    }
    let ghost nv = name@;
    r.push((name, v));
    proof {
        assert(registry_view(r@) =~= rv.push((nv, v)));
        assert forall|k: Seq<char>| #[trigger] registered(registry_view(r@), k) == if k == nv {
            Some(v)
        } else {
            registered(rv, k)
        } by {
            lemma_registered_push(rv, nv, v, k);
        }
    }
    r
}

/// The entry registered under `name`.
fn find_registered<T: Copy>(r: &Vec<(String, T)>, name: &str) -> (out: Option<T>)
    ensures
        out == registered(registry_view(r@), name@),
{
    let ghost rv = registry_view(r@);
    let mut i: usize = 0;
    while i < r.len()
        invariant
            i <= r@.len(),
            rv == registry_view(r@),
            forall|j: int| 0 <= j < i ==> rv[j].0 != name@,
        decreases r@.len() - i,
    {
        if crate::json::str_eq(r[i].0.as_str(), name) {
            proof {
                lemma_registered_skip(rv, i as int, name@);
                assert(rv.skip(i as int)[0] == rv[i as int]);
            }
            return Some(r[i].1);
        }
        i = i + 1;
    }
    proof {
        lemma_registered_absent(rv, name@);
    }
    None
}

/// Collects filters, functions and the evaluation keyword for an [`Engine`].
pub struct EngineBuilder {
    functions: Vec<(String, FunctionFn)>,
    filters: Vec<(String, FilterFn)>,
    eval_keyword: Option<String>,
}

/// The mathematical value of an [`EngineBuilder`].
pub struct EngineBuilderV {
    pub functions: Seq<(Seq<char>, FunctionFn)>,
    pub filters: Seq<(Seq<char>, FilterFn)>,
    pub eval_keyword: Option<Seq<char>>,
}

impl View for EngineBuilder {
    type V = EngineBuilderV;

    closed spec fn view(&self) -> EngineBuilderV {
        EngineBuilderV {
            functions: registry_view(self.functions@),
            filters: registry_view(self.filters@),
            eval_keyword: match self.eval_keyword {
                Some(k) => Some(k@),
                None => None,
            },
        }
    }
}

/// The keyword that marks an object to evaluate, where the builder names none.
pub open spec fn default_eval_keyword() -> Seq<char> {
    seq!['$', '$', 'f', 'o', 'r', 'm', 'u', 'l', 'a']
}

/// The filters an engine has by default, by name.
pub open spec fn default_filter(name: Seq<char>) -> Option<FilterFn> {
    if name == seq!['u', 'p', 'p', 'e', 'r'] {
        Some(FilterFn::Upper)
    } else if name == seq!['l', 'o', 'w', 'e', 'r'] {
        Some(FilterFn::Lower)
    } else if name == seq!['t', 'i', 'm', 'e'] {
        Some(FilterFn::Time)
    } else if name == seq!['d', 'a', 't', 'e'] {
        Some(FilterFn::Date)
    } else if name == seq!['d', 'a', 't', 'e', 't', 'i', 'm', 'e'] {
        Some(FilterFn::Datetime)
    } else if name == seq!['t', 'r', 'i', 'm'] {
        Some(FilterFn::Trim)
    } else if name == seq!['s', 'l', 'u', 'g', 'i', 'f', 'y'] {
        Some(FilterFn::Slugify)
    } else {
        None
    }
}

/// The filters a default builder registers, in order.
pub open spec fn default_filters() -> Seq<(Seq<char>, FilterFn)> {
    seq![
        (seq!['u', 'p', 'p', 'e', 'r'], FilterFn::Upper),
        (seq!['l', 'o', 'w', 'e', 'r'], FilterFn::Lower),
        (seq!['t', 'i', 'm', 'e'], FilterFn::Time),
        (seq!['d', 'a', 't', 'e'], FilterFn::Date),
        (seq!['d', 'a', 't', 'e', 't', 'i', 'm', 'e'], FilterFn::Datetime),
        (seq!['t', 'r', 'i', 'm'], FilterFn::Trim),
        (seq!['s', 'l', 'u', 'g', 'i', 'f', 'y'], FilterFn::Slugify),
    ]
}

/// The functions a default builder registers, in order.
pub open spec fn default_functions() -> Seq<(Seq<char>, FunctionFn)> {
    seq![
        (seq!['u', 'u', 'i', 'd', 'v', '4'], FunctionFn::Uuidv4),
        (seq!['n', 'o', 'w'], FunctionFn::Now),
    ]
}

/// The mathematical value of the default engine.
pub open spec fn default_engine() -> EngineV {
    EngineV {
        functions: default_functions(),
        filters: default_filters(),
        eval_keyword: default_eval_keyword(),
    }
}

/// The functions an engine has by default, by name.
pub open spec fn default_function(name: Seq<char>) -> Option<FunctionFn> {
    if name == seq!['u', 'u', 'i', 'd', 'v', '4'] {
        Some(FunctionFn::Uuidv4)
    } else if name == seq!['n', 'o', 'w'] {
        Some(FunctionFn::Now)
    } else {
        None
    }
}

impl EngineBuilder {
    /// A builder with no filter, no function and no evaluation keyword.
    pub fn new() -> (r: EngineBuilder)
        ensures
            r@.functions == Seq::<(Seq<char>, FunctionFn)>::empty(),
            r@.filters == Seq::<(Seq<char>, FilterFn)>::empty(),
            r@.eval_keyword is None,
    {
        let r = EngineBuilder { functions: Vec::new(), filters: Vec::new(), eval_keyword: None };
        assert(r@.functions =~= Seq::<(Seq<char>, FunctionFn)>::empty());
        assert(r@.filters =~= Seq::<(Seq<char>, FilterFn)>::empty());
        r
    }

    /// Registers a custom evaluation keyword.
    ///
    /// The default evaluation keyword is `$$formula`.
    pub fn eval_keyword(self, keyword: &str) -> (r: EngineBuilder)
        ensures
            r@.eval_keyword == Some(keyword@),
            r@.functions == self@.functions,
            r@.filters == self@.filters,
    {
        EngineBuilder {
            functions: self.functions,
            filters: self.filters,
            eval_keyword: Some(String::from_str(keyword)),
        }
    }

    /// Registers a filter; one already registered under the name is replaced.
    pub fn filter(self, name: &str, filter: FilterFn) -> (r: EngineBuilder)
        ensures
            (forall|j: int| 0 <= j < self@.filters.len() ==> #[trigger] self@.filters[j].0 != name@)
                ==> r@.filters == self@.filters.push((name@, filter)),
            forall|k: Seq<char>|
                #[trigger] registered(r@.filters, k) == if k == name@ {
                    Some(filter)
                } else {
                    registered(self@.filters, k)
                },
            r@.functions == self@.functions,
            r@.eval_keyword == self@.eval_keyword,
    {
        proof {
            if forall|j: int| 0 <= j < self@.filters.len() ==> #[trigger] self@.filters[j].0 != name@ {
                assert forall|j: int| 0 <= j < self.filters@.len() implies #[trigger] self.filters@[j].0@
                    != name@ by {
                    assert(self@.filters[j] == (self.filters@[j].0@, self.filters@[j].1));
                    assert(self@.filters[j].0 != name@);
                }
            }
        }
        let filters = register(self.filters, String::from_str(name), filter);
        EngineBuilder { functions: self.functions, filters, eval_keyword: self.eval_keyword }
    }

    /// Registers a function; one already registered under the name is replaced.
    pub fn function(self, name: &str, function: FunctionFn) -> (r: EngineBuilder)
        ensures
            (forall|j: int| 0 <= j < self@.functions.len() ==> #[trigger] self@.functions[j].0 != name@)
                ==> r@.functions == self@.functions.push((name@, function)),
            forall|k: Seq<char>|
                #[trigger] registered(r@.functions, k) == if k == name@ {
                    Some(function)
                } else {
                    registered(self@.functions, k)
                },
            r@.filters == self@.filters,
            r@.eval_keyword == self@.eval_keyword,
    {
        proof {
            if forall|j: int| 0 <= j < self@.functions.len() ==> #[trigger] self@.functions[j].0 != name@ {
                assert forall|j: int| 0 <= j < self.functions@.len() implies #[trigger] self.functions@[j].0@
                    != name@ by {
                    assert(self@.functions[j] == (self.functions@[j].0@, self.functions@[j].1));
                    assert(self@.functions[j].0 != name@);
                }
            }
        }
        let functions = register(self.functions, String::from_str(name), function);
        EngineBuilder { functions, filters: self.filters, eval_keyword: self.eval_keyword }
    }
}

impl Default for EngineBuilder {
    /// A builder with the built-in filters and functions and no evaluation keyword.
    fn default() -> (r: EngineBuilder)
        ensures
            r@.filters == default_filters(),
            r@.functions == default_functions(),
            r@.eval_keyword is None,
    {
        proof {
            reveal_strlit("upper");
            reveal_strlit("lower");
            reveal_strlit("time");
            reveal_strlit("date");
            reveal_strlit("datetime");
            reveal_strlit("trim");
            reveal_strlit("slugify");
            reveal_strlit("uuidv4");
            reveal_strlit("now");
        }
        let ghost f = default_filters();
        let ghost g = default_functions();
        let b0 = EngineBuilder::new();
        let b1 = b0.filter("upper", FilterFn::Upper);
        proof {
            assert("upper"@ =~= f[0].0);
            assert(b1@.filters =~= f.take(1));
            assert("lower"@ =~= f[1].0);
            assert(f[0].0[0] != f[1].0[0]);
        }
        let b2 = b1.filter("lower", FilterFn::Lower);
        proof {
            assert(b2@.filters =~= f.take(2));
            assert("time"@ =~= f[2].0);
        }
        let b3 = b2.filter("time", FilterFn::Time);
        proof {
            assert(b3@.filters =~= f.take(3));
            assert("date"@ =~= f[3].0);
            assert(f[2].0[0] != f[3].0[0]);
        }
        let b4 = b3.filter("date", FilterFn::Date);
        proof {
            assert(b4@.filters =~= f.take(4));
            assert("datetime"@ =~= f[4].0);
        }
        let b5 = b4.filter("datetime", FilterFn::Datetime);
        proof {
            assert(b5@.filters =~= f.take(5));
            assert("trim"@ =~= f[5].0);
            assert(f[2].0[1] != f[5].0[1]);
            assert(f[3].0[0] != f[5].0[0]);
        }
        let b6 = b5.filter("trim", FilterFn::Trim);
        proof {
            assert(b6@.filters =~= f.take(6));
            assert("slugify"@ =~= f[6].0);
        }
        let b7 = b6.filter("slugify", FilterFn::Slugify);
        proof {
            assert(b7@.filters =~= f);
            assert("uuidv4"@ =~= g[0].0);
            assert(b7@.functions =~= g.take(0));
        }
        let b8 = b7.function("uuidv4", FunctionFn::Uuidv4);
        proof {
            assert(b8@.functions =~= g.take(1));
            assert("now"@ =~= g[1].0);
        }
        let b = b8.function("now", FunctionFn::Now);
        proof {
            assert(b@.functions =~= g);
        }
        b
    }
}

/// Evaluates expressions; made from an [`EngineBuilder`].
pub struct Engine {
    functions: Vec<(String, FunctionFn)>,
    filters: Vec<(String, FilterFn)>,
    /// The evaluation keyword; the default one where `None`.
    eval_keyword: Option<String>,
}

/// The mathematical value of an [`Engine`].
pub struct EngineV {
    pub functions: Seq<(Seq<char>, FunctionFn)>,
    pub filters: Seq<(Seq<char>, FilterFn)>,
    pub eval_keyword: Seq<char>,
}

impl View for Engine {
    type V = EngineV;

    closed spec fn view(&self) -> EngineV {
        EngineV {
            functions: registry_view(self.functions@),
            filters: registry_view(self.filters@),
            eval_keyword: match self.eval_keyword {
                Some(k) => k@,
                None => default_eval_keyword(),
            },
        }
    }
}

impl From<EngineBuilder> for Engine {
    fn from(builder: EngineBuilder) -> (r: Engine)
        ensures
            r@.functions == builder@.functions,
            r@.filters == builder@.filters,
            r@.eval_keyword == match builder@.eval_keyword {
                Some(k) => k,
                None => default_eval_keyword(),
            },
    {
        Engine {
            functions: builder.functions,
            filters: builder.filters,
            eval_keyword: builder.eval_keyword,
        }
    }
}

impl vstd::std_specs::convert::FromSpecImpl<EngineBuilder> for Engine {
    open spec fn obeys_from_spec() -> bool {
        true
    }

    open spec fn from_spec(v: EngineBuilder) -> Engine {
        engine_of(v)
    }
}

/// The engine a builder makes.
pub closed spec fn engine_of(v: EngineBuilder) -> Engine {
    Engine { functions: v.functions, filters: v.filters, eval_keyword: v.eval_keyword }
}

impl Default for Engine {
    /// An engine with the built-in filters and functions and the default keyword.
    fn default() -> (r: Engine)
        ensures
            r@ == default_engine(),
    {
        Engine::from(EngineBuilder::default())
    }
}

impl Engine {
    /// The keyword that marks an object to evaluate.
    pub fn eval_keyword(&self) -> (r: &str)
        ensures
            r@ == self@.eval_keyword,
    {
        match &self.eval_keyword {
            Some(k) => k.as_str(),
            None => {
                proof {
                    reveal_strlit("$$formula");
                    assert("$$formula"@ =~= default_eval_keyword());
                }
                "$$formula"
            },
        }
    }
}


/// The mathematical value of a result with a JSON value.
pub open spec fn json_result(r: Result<Json, Error>) -> Result<JsonV, Error> {
    match r {
        Ok(j) => Ok(json_view(j)),
        Err(e) => Err(e),
    }
}

/// The mathematical value of a result with a number.
pub open spec fn number_result(r: Result<Number, Error>) -> Result<NumberV, Error> {
    match r {
        Ok(n) => Ok(n@),
        Err(e) => Err(e),
    }
}

/// The mathematical value of a result with evaluated arguments.
pub open spec fn args_result(r: Result<Vec<(String, Json)>, Error>) -> Result<
    Seq<(Seq<char>, JsonV)>,
    Error,
> {
    match r {
        Ok(v) => Ok(members_view(v@)),
        Err(e) => Err(e),
    }
}

/// The mathematical value of a result with a text.
pub open spec fn text_result(r: Result<String, Error>) -> Result<Seq<char>, Error> {
    match r {
        Ok(s) => Ok(s@),
        Err(e) => Err(e),
    }
}

/// `run` with `pre` put before the arguments it gives.
pub open spec fn args_after(
    pre: Seq<(Seq<char>, JsonV)>,
    run: Run<Seq<(Seq<char>, JsonV)>>,
) -> Run<Seq<(Seq<char>, JsonV)>> {
    match run {
        Some((Ok(vs), j)) => Some((Ok(pre + vs), j)),
        other => other,
    }
}

/// `run` with `pre` put before the text it gives.
pub open spec fn text_after(pre: Seq<char>, run: Run<Seq<char>>) -> Run<Seq<char>> {
    match run {
        Some((Ok(t), j)) => Some((Ok(pre + t), j)),
        other => other,
    }
}

/// What the result of a function call gives where a boolean is needed.
fn result_as_bool(r: Result<Json, Error>) -> (out: Result<bool, Error>)
    ensures
        out == match r {
            Ok(Json::Bool(b)) => Ok(b),
            Ok(_) => Err(Error::FunctionResultNotBool),
            Err(e) => Err(e),
        },
{
    match r {
        Ok(Json::Bool(b)) => Ok(b),
        Ok(_) => Err(Error::FunctionResultNotBool),
        Err(e) => Err(e),
    }
}

/// What the result of a function call gives where a number is needed.
fn result_as_number(r: Result<Json, Error>) -> (out: Result<Number, Error>)
    ensures
        number_result(out) == match r {
            Ok(Json::Number(n)) => Ok(n@),
            Ok(_) => Err(Error::FunctionResultNotNumber),
            Err(e) => Err(e),
        },
{
    match r {
        Ok(Json::Number(n)) => Ok(n),
        Ok(_) => Err(Error::FunctionResultNotNumber),
        Err(e) => Err(e),
    }
}

/// The value of an expression after its filters, negated where the expression is.
fn negate_value(v: Json, negated: bool) -> (out: Result<Json, Error>)
    ensures
        json_result(out) == negated_value(v@, negated),
{
    if !negated {
        Ok(v)
    } else {
        match v {
            Json::Bool(b) => Ok(Json::Bool(!b)),
            _ => Err(Error::NegateNonBool),
        }
    }
}

/// `i64` arithmetic as the engine does it; `None` where it turns to floats.
fn int_math_exec(a: i64, b: i64, operator: MathOperator) -> (r: Option<i64>)
    ensures
        r == int_math(a, b, operator),
{
    match operator {
        MathOperator::Addition => {
            let x: i128 = a as i128 + b as i128;
            if x < i64::MIN as i128 || x > i64::MAX as i128 {
                None
            } else {
                Some(x as i64)
            }
        },
        MathOperator::Subtraction => {
            let x: i128 = a as i128 - b as i128;
            if x < i64::MIN as i128 || x > i64::MAX as i128 {
                None
            } else {
                Some(x as i64)
            }
        },
        MathOperator::Multiplication => {
            assert(-0x8000_0000_0000_0000 * 0x8000_0000_0000_0000 <= (a as int) * (b as int)
                <= 0x8000_0000_0000_0000 * 0x8000_0000_0000_0000) by (nonlinear_arith)
                requires
                    i64::MIN <= a <= i64::MAX,
                    i64::MIN <= b <= i64::MAX,
            ;
            let x: i128 = a as i128 * b as i128;
            if x < i64::MIN as i128 || x > i64::MAX as i128 {
                None
            } else {
                Some(x as i64)
            }
        },
        MathOperator::Modulo | MathOperator::Division => {
            if b == 0 || (a == i64::MIN && b == -1) {
                return None;
            }
            let ua: u64 = if a < 0 {
                (0i128 - a as i128) as u64
            } else {
                a as u64
            };
            let ub: u64 = if b < 0 {
                (0i128 - b as i128) as u64
            } else {
                b as u64
            };
            assert(ua as int == abs(a as int));
            assert(ub as int == abs(b as int));
            let q: u64 = ua / ub;
            let m: u64 = ua % ub;
            assert(m < ub);
            assert(q <= ua) by (nonlinear_arith)
                requires
                    ub >= 1,
                    q == ua / ub,
            ;
            let rem: i128 = if a < 0 {
                0i128 - m as i128
            } else {
                m as i128
            };
            assert(rem == trunc_rem(a as int, b as int));
            if let MathOperator::Modulo = operator {
                Some(rem as i64)
            } else {
                if rem != 0 {
                    return None;
                }
                let div: i128 = if (a < 0) == (b < 0) {
                    q as i128
                } else {
                    0i128 - q as i128
                };
                assert(div == trunc_div(a as int, b as int));
                assert(in_i64(div as int)) by {
                    if ub == 1 {
                        assert(q == ua) by (nonlinear_arith)
                            requires
                                ub == 1,
                                q == ua / ub,
                        ;
                    } else {
                        assert(q <= ua / 2) by (nonlinear_arith)
                            requires
                                ub >= 2,
                                q == ua / ub,
                        ;
                    }
                }
                Some(div as i64)
            }
        },
    }
}

/// Whether an integer converts to a float without rounding.
fn exact_as_float_exec(x: i64) -> (r: bool)
    ensures
        r == exact_as_float(x),
{
    -9007199254740992 <= x && x <= 9007199254740992
}

// ---------------------------------------------------------------------------
// Evaluation. Each function below gives what the function of the same part of
// [`crate::semantics`] gives, whatever follows in the log the calls it made of
// the host.

impl Engine {
    fn eval_math<H: Host>(
        &self,
        lhs: &Number,
        rhs: &Number,
        operator: MathOperator,
        context: &mut Context<H>,
    ) -> (r: Result<Number, Error>)
        ensures
            prefix(old(context).log(), final(context).log()),
            final(context).log().len() == old(context).log().len() ==> *final(context) == *old(context),
            forall|ext: Seq<Interaction>|
                prefix(final(context).log(), ext) ==> #[trigger] run_math(
                    lhs@,
                    rhs@,
                    operator,
                    ext,
                    old(context).log().len() as int,
                ) == Some((number_result(r), final(context).log().len() as int)),
    {
        if let (Number::Int(a), Number::Int(b)) = (lhs, rhs) {
            if let Some(x) = int_math_exec(*a, *b, operator) {
                return Ok(Number::Int(x));
            }
        }
        let ghost l0 = context.log();
        let r = context.math(operator, lhs, rhs);
        proof {
            let l1 = context.log();
            assert forall|ext: Seq<Interaction>| prefix(l1, ext) implies #[trigger] run_math(
                lhs@,
                rhs@,
                operator,
                ext,
                l0.len() as int,
            ) == Some((number_result(r), l1.len() as int)) by {
                assert(ext[l0.len() as int] == l1[l0.len() as int]);
            }
        }
        r
    }

    #[verifier::loop_isolation(false)]
    fn eval_args<H: Host>(
        &self,
        args: &Vec<(String, Expression)>,
        position: &Identifier,
        data: &Json,
        context: &mut Context<H>,
    ) -> (r: Result<Vec<(String, Json)>, Error>)
        ensures
            prefix(old(context).log(), final(context).log()),
            final(context).log().len() == old(context).log().len() ==> *final(context) == *old(context),
            forall|ext: Seq<Interaction>|
                prefix(final(context).log(), ext) ==> #[trigger] run_args(
                    self@,
                    args_view(args@),
                    position@,
                    data@,
                    ext,
                    old(context).log().len() as int,
                ) == Some((args_result(r), final(context).log().len() as int)),
        decreases args_view(args@), 0nat,
    {
        let ghost av = args_view(args@);
        let ghost eng = self@;
        let ghost l0 = context.log();
        proof {
            lemma_args_view(args@);
            assert(av.skip(0) =~= av);
        }
        let mut result: Vec<(String, Json)> = Vec::new();
        let mut i: usize = 0;
        proof {
            assert(members_view(result@) =~= Seq::<(Seq<char>, JsonV)>::empty());
            assert forall|ext: Seq<Interaction>| prefix(l0, ext) implies #[trigger] run_args(
                eng,
                av,
                position@,
                data@,
                ext,
                l0.len() as int,
            ) == args_after(
                members_view(result@),
                run_args(eng, av.skip(0), position@, data@, ext, l0.len() as int),
            ) by {
                match run_args(eng, av, position@, data@, ext, l0.len() as int) {
                    Some((Ok(vs), j)) => {
                        assert(Seq::<(Seq<char>, JsonV)>::empty() + vs =~= vs);
                    },
                    _ => {},
                }
            }
        }
        while i < args.len()
            invariant
                i <= args@.len(),
                prefix(l0, context.log()),
                l0 == old(context).log(),
                context.log().len() == l0.len() ==> *context == *old(context),
                forall|ext: Seq<Interaction>|
                    prefix(context.log(), ext) ==> #[trigger] run_args(
                        eng,
                        av,
                        position@,
                        data@,
                        ext,
                        l0.len() as int,
                    ) == args_after(
                        members_view(result@),
                        run_args(
                            eng,
                            av.skip(i as int),
                            position@,
                            data@,
                            ext,
                            context.log().len() as int,
                        ),
                    ),
            decreases args@.len() - i,
        {
            let ghost rest = av.skip(i as int);
            let ghost lc = context.log();
            proof {
                assert(rest[0] == av[i as int]);
                assert(rest.drop_first() =~= av.skip(i + 1));
                assert(decreases_to!(av => av[i as int]));
                assert(decreases_to!(av[i as int] => av[i as int].1));
            }
            let v = self.eval_expression(&args[i].1, position, data, context);
            let ghost l2 = context.log();
            proof {
                lemma_prefix_trans(l0, lc, l2);
            }
            match v {
                Err(e) => {
                    proof {
                        assert forall|ext: Seq<Interaction>| prefix(l2, ext) implies #[trigger] run_args(
                            eng,
                            av,
                            position@,
                            data@,
                            ext,
                            l0.len() as int,
                        ) == Some((args_result(Err(e)), l2.len() as int)) by {
                            lemma_prefix_trans(lc, l2, ext);
                            assert(run_expression(eng, av[i as int].1, position@, data@, ext, lc.len() as int)
                                == Some((Err::<JsonV, Error>(e), l2.len() as int)));
                        }
                    }
                    return Err(e);
                },
                Ok(v) => {
                    let ghost vv = json_view(v);
                    let ghost old_result = members_view(result@);
                    let ghost old_vec = result@;
                    let entry = (args[i].0.clone(), v);
                    let ghost ge = entry;
                    result.push(entry);
                    proof {
                        lemma_members_view_push(old_vec, ge);
                        assert(members_view(result@) =~= old_result + seq![(av[i as int].0, vv)]);
                        assert forall|ext: Seq<Interaction>| prefix(l2, ext) implies #[trigger] run_args(
                            eng,
                            av,
                            position@,
                            data@,
                            ext,
                            l0.len() as int,
                        ) == args_after(
                            members_view(result@),
                            run_args(eng, av.skip(i + 1), position@, data@, ext, l2.len() as int),
                        ) by {
                            lemma_prefix_trans(lc, l2, ext);
                            assert(run_expression(eng, av[i as int].1, position@, data@, ext, lc.len() as int)
                                == Some((Ok::<JsonV, Error>(vv), l2.len() as int)));
                            match run_args(eng, av.skip(i + 1), position@, data@, ext, l2.len() as int) {
                                Some((Ok(vs), j)) => {
                                    assert(old_result + (seq![(av[i as int].0, vv)] + vs) =~= members_view(result@) + vs);
                                },
                                _ => {},
                            }
                        }
                    }
                },
            }
            i = i + 1;
        }
        proof {
            let lf = context.log();
            assert(av.skip(i as int) =~= Seq::<(Seq<char>, ExprV)>::empty());
            assert(members_view(result@) + Seq::<(Seq<char>, JsonV)>::empty() =~= members_view(result@));
            assert forall|ext: Seq<Interaction>| prefix(lf, ext) implies #[trigger] run_args(
                eng,
                av,
                position@,
                data@,
                ext,
                l0.len() as int,
            ) == Some((args_result(Ok::<Vec<(String, Json)>, Error>(result)), lf.len() as int)) by {
                assert(run_args(eng, av.skip(i as int), position@, data@, ext, lf.len() as int)
                    == Some((Ok::<Seq<(Seq<char>, JsonV)>, Error>(Seq::empty()), lf.len() as int)));
            }
        }
        Ok(result)
    }

    fn eval_function<H: Host>(
        &self,
        call: &FunctionCall,
        position: &Identifier,
        data: &Json,
        context: &mut Context<H>,
    ) -> (r: Result<Json, Error>)
        ensures
            prefix(old(context).log(), final(context).log()),
            final(context).log().len() == old(context).log().len() ==> *final(context) == *old(context),
            forall|ext: Seq<Interaction>|
                prefix(final(context).log(), ext) ==> #[trigger] run_call(
                    self@,
                    call@,
                    position@,
                    data@,
                    ext,
                    old(context).log().len() as int,
                ) == Some((json_result(r), final(context).log().len() as int)),
        decreases call@, 0nat,
    {
        let ghost l0 = context.log();
        let args = match self.eval_args(&call.args, position, data, context) {
            Ok(a) => a,
            Err(e) => {
                proof {
                    let l1 = context.log();
                    assert forall|ext: Seq<Interaction>| prefix(l1, ext) implies #[trigger] run_call(
                        self@,
                        call@,
                        position@,
                        data@,
                        ext,
                        l0.len() as int,
                    ) == Some((Err::<JsonV, Error>(e), l1.len() as int)) by {
                        assert(run_args(self@, call@.args, position@, data@, ext, l0.len() as int)
                            == Some((Err::<Seq<(Seq<char>, JsonV)>, Error>(e), l1.len() as int)));
                    }
                }
                return Err(e);
            },
        };
        let ghost l1 = context.log();
        match find_registered(&self.functions, call.name.as_str()) {
            Some(f) => {
                let r = context.function(f, &args);
                proof {
                    let l2 = context.log();
                    lemma_prefix_trans(l0, l1, l2);
                    assert forall|ext: Seq<Interaction>| prefix(l2, ext) implies #[trigger] run_call(
                        self@,
                        call@,
                        position@,
                        data@,
                        ext,
                        l0.len() as int,
                    ) == Some((json_result(r), l2.len() as int)) by {
                        lemma_prefix_trans(l1, l2, ext);
                        assert(ext[l1.len() as int] == l2[l1.len() as int]);
                        assert(run_args(self@, call@.args, position@, data@, ext, l0.len() as int) == Some((Ok::<Seq<(Seq<char>, JsonV)>, Error>(members_view(args@)), l1.len() as int)));
                        assert(registered(self@.functions, call@.name) == Some(f));
                        assert(crate::semantics::answer_function(ext, l1.len() as int, f, members_view(args@)) == Some((json_result(r), l2.len() as int)));
                    }
                }
                r
            },
            None => {
                proof {
                    assert forall|ext: Seq<Interaction>| prefix(l1, ext) implies #[trigger] run_call(
                        self@,
                        call@,
                        position@,
                        data@,
                        ext,
                        l0.len() as int,
                    ) == Some((Err::<JsonV, Error>(Error::FunctionNotFound), l1.len() as int)) by {
                        assert(run_args(self@, call@.args, position@, data@, ext, l0.len() as int) == Some((Ok::<Seq<(Seq<char>, JsonV)>, Error>(members_view(args@)), l1.len() as int)));
                        assert(registered(self@.functions, call@.name) is None);
                    }
                }
                Err(Error::FunctionNotFound)
            },
        }
    }

    fn eval_filter<H: Host>(
        &self,
        filter: &FunctionCall,
        input: &Json,
        position: &Identifier,
        data: &Json,
        context: &mut Context<H>,
    ) -> (r: Result<Json, Error>)
        ensures
            prefix(old(context).log(), final(context).log()),
            final(context).log().len() == old(context).log().len() ==> *final(context) == *old(context),
            forall|ext: Seq<Interaction>|
                prefix(final(context).log(), ext) ==> #[trigger] run_filter(
                    self@,
                    filter@,
                    input@,
                    position@,
                    data@,
                    ext,
                    old(context).log().len() as int,
                ) == Some((json_result(r), final(context).log().len() as int)),
        decreases filter@, 0nat,
    {
        let ghost l0 = context.log();
        let args = match self.eval_args(&filter.args, position, data, context) {
            Ok(a) => a,
            Err(e) => {
                proof {
                    let l1 = context.log();
                    assert forall|ext: Seq<Interaction>| prefix(l1, ext) implies #[trigger] run_filter(
                        self@,
                        filter@,
                        input@,
                        position@,
                        data@,
                        ext,
                        l0.len() as int,
                    ) == Some((Err::<JsonV, Error>(e), l1.len() as int)) by {
                        assert(run_args(self@, filter@.args, position@, data@, ext, l0.len() as int)
                            == Some((Err::<Seq<(Seq<char>, JsonV)>, Error>(e), l1.len() as int)));
                    }
                }
                return Err(e);
            },
        };
        let ghost l1 = context.log();
        match find_registered(&self.filters, filter.name.as_str()) {
            Some(f) => {
                let r = context.filter(f, input, &args);
                proof {
                    let l2 = context.log();
                    lemma_prefix_trans(l0, l1, l2);
                    assert forall|ext: Seq<Interaction>| prefix(l2, ext) implies #[trigger] run_filter(
                        self@,
                        filter@,
                        input@,
                        position@,
                        data@,
                        ext,
                        l0.len() as int,
                    ) == Some((json_result(r), l2.len() as int)) by {
                        lemma_prefix_trans(l1, l2, ext);
                        assert(ext[l1.len() as int] == l2[l1.len() as int]);
                        assert(run_args(self@, filter@.args, position@, data@, ext, l0.len() as int) == Some((Ok::<Seq<(Seq<char>, JsonV)>, Error>(members_view(args@)), l1.len() as int)));
                        assert(registered(self@.filters, filter@.name) == Some(f));
                        assert(crate::semantics::answer_filter(ext, l1.len() as int, f, input@, members_view(args@)) == Some((json_result(r), l2.len() as int)));
                    }
                }
                r
            },
            None => {
                proof {
                    assert forall|ext: Seq<Interaction>| prefix(l1, ext) implies #[trigger] run_filter(
                        self@,
                        filter@,
                        input@,
                        position@,
                        data@,
                        ext,
                        l0.len() as int,
                    ) == Some((Err::<JsonV, Error>(Error::FilterNotFound), l1.len() as int)) by {
                        assert(run_args(self@, filter@.args, position@, data@, ext, l0.len() as int) == Some((Ok::<Seq<(Seq<char>, JsonV)>, Error>(members_view(args@)), l1.len() as int)));
                        assert(registered(self@.filters, filter@.name) is None);
                    }
                }
                Err(Error::FilterNotFound)
            },
        }
    }
}


/// The text one element of a string concatenation contributes.
fn concat_piece<H: Host>(
    value: &ExpressionValue,
    position: &Identifier,
    data: &Json,
    context: &mut Context<H>,
) -> (r: Result<String, Error>)
    ensures
        prefix(old(context).log(), final(context).log()),
        final(context).log().len() == old(context).log().len() ==> *final(context) == *old(context),
        forall|ext: Seq<Interaction>|
            prefix(final(context).log(), ext) ==> #[trigger] run_concat_piece(
                value@,
                position@,
                data@,
                ext,
                old(context).log().len() as int,
            ) == Some((text_result(r), final(context).log().len() as int)),
{
    let ghost l0 = context.log();
    match value {
        ExpressionValue::String(x) => Ok(x.clone()),
        ExpressionValue::Integer(x) => Ok(int_to_text(*x)),
        ExpressionValue::Float(x) => {
            let t = context.text(x.as_str());
            proof {
                let l1 = context.log();
                assert forall|ext: Seq<Interaction>| prefix(l1, ext) implies #[trigger] run_concat_piece(
                    value@,
                    position@,
                    data@,
                    ext,
                    l0.len() as int,
                ) == Some((text_result(Ok::<String, Error>(t)), l1.len() as int)) by {
                    assert(ext[l0.len() as int] == l1[l0.len() as int]);
                }
            }
            Ok(t)
        },
        ExpressionValue::Identifier(id) => match lookup_identifier(data, id, position)? {
            Json::String(x) => Ok(x.clone()),
            Json::Number(Number::Int(x)) => Ok(int_to_text(*x)),
            Json::Number(Number::Decimal(x)) => Ok(x.clone()),
            _ => Err(Error::IdentifierNotConcatenable),
        },
        ExpressionValue::Boolean(_) => Err(Error::NotConcatenable(Kind::Boolean)),
        ExpressionValue::Math(_) => Err(Error::NotConcatenable(Kind::Math)),
        ExpressionValue::Logical(_) => Err(Error::NotConcatenable(Kind::Logical)),
        ExpressionValue::FunctionCall(_) => Err(Error::NotConcatenable(Kind::FunctionCall)),
        ExpressionValue::StringConcat(_) => Err(Error::NotConcatenable(Kind::StringConcat)),
    }
}

/// Equality of two evaluated values; see [`run_values_equal`].
fn values_equal<H: Host>(lhs: &Json, rhs: &Json, context: &mut Context<H>) -> (r: bool)
    ensures
        prefix(old(context).log(), final(context).log()),
        final(context).log().len() == old(context).log().len() ==> *final(context) == *old(context),
        forall|ext: Seq<Interaction>|
            prefix(final(context).log(), ext) ==> #[trigger] run_values_equal(
                lhs@,
                rhs@,
                ext,
                old(context).log().len() as int,
            ) == Some((r, final(context).log().len() as int)),
{
    let ghost l0 = context.log();
    match (lhs, rhs) {
        (Json::Number(a), Json::Number(b)) => match (a, b) {
            (Number::Int(x), Number::Int(y)) => *x == *y,
            _ => {
                let r = context.equal(a, b);
                proof {
                    let l1 = context.log();
                    assert forall|ext: Seq<Interaction>| prefix(l1, ext) implies #[trigger] run_values_equal(
                        lhs@,
                        rhs@,
                        ext,
                        l0.len() as int,
                    ) == Some((r, l1.len() as int)) by {
                        assert(ext[l0.len() as int] == l1[l0.len() as int]);
                    }
                }
                r
            },
        },
        _ => json_eq(lhs, rhs),
    }
}

/// An ordering comparison of two numbers; see [`run_compare`].
fn compare_numbers<H: Host>(
    operator: LogicalOperator,
    lhs: &Number,
    rhs: &Number,
    context: &mut Context<H>,
) -> (r: bool)
    ensures
        prefix(old(context).log(), final(context).log()),
        final(context).log().len() == old(context).log().len() ==> *final(context) == *old(context),
        forall|ext: Seq<Interaction>|
            prefix(final(context).log(), ext) ==> #[trigger] run_compare(
                operator,
                lhs@,
                rhs@,
                ext,
                old(context).log().len() as int,
            ) == Some((r, final(context).log().len() as int)),
{
    let ghost l0 = context.log();
    if let (Number::Int(a), Number::Int(b)) = (lhs, rhs) {
        if exact_as_float_exec(*a) && exact_as_float_exec(*b) {
            return match operator {
                LogicalOperator::GreaterThan => *a > *b,
                LogicalOperator::GreaterThanOrEqual => *a >= *b,
                LogicalOperator::LowerThan => *a < *b,
                _ => *a <= *b,
            };
        }
    }
    let r = context.compare(operator, lhs, rhs);
    proof {
        let l1 = context.log();
        assert forall|ext: Seq<Interaction>| prefix(l1, ext) implies #[trigger] run_compare(
            operator,
            lhs@,
            rhs@,
            ext,
            l0.len() as int,
        ) == Some((r, l1.len() as int)) by {
            assert(ext[l0.len() as int] == l1[l0.len() as int]);
        }
    }
    r
}


impl Engine {
    fn eval_value_as_number<H: Host>(
        &self,
        value: &ExpressionValue,
        position: &Identifier,
        data: &Json,
        context: &mut Context<H>,
    ) -> (r: Result<Number, Error>)
        ensures
            prefix(old(context).log(), final(context).log()),
            final(context).log().len() == old(context).log().len() ==> *final(context) == *old(context),
            forall|ext: Seq<Interaction>|
                prefix(final(context).log(), ext) ==> #[trigger] run_value_as_number(
                    self@,
                    value@,
                    position@,
                    data@,
                    ext,
                    old(context).log().len() as int,
                ) == Some((number_result(r), final(context).log().len() as int)),
        decreases value@, 0nat,
    {
        let ghost l0 = context.log();
        match value {
            ExpressionValue::Integer(x) => Ok(Number::Int(*x)),
            ExpressionValue::Float(t) => {
                let n = context.literal(t.as_str());
                proof {
                    let l1 = context.log();
                    assert forall|ext: Seq<Interaction>| prefix(l1, ext) implies #[trigger] run_value_as_number(
                        self@,
                        value@,
                        position@,
                        data@,
                        ext,
                        l0.len() as int,
                    ) == Some((number_result(Ok::<Number, Error>(n)), l1.len() as int)) by {
                        assert(ext[l0.len() as int] == l1[l0.len() as int]);
                    }
                }
                Ok(n)
            },
            ExpressionValue::Identifier(id) => match lookup_identifier(data, id, position) {
                Ok(Json::Number(n)) => Ok(copy_number(n)),
                Ok(_) => Err(Error::IdentifierNotNumber),
                Err(e) => Err(e),
            },
            ExpressionValue::Math(m) => {
                let ghost v = ValueV::Math(Box::new((*m.lhs)@), Box::new((*m.rhs)@), m.operator);
                proof {
                    assert(value@ == v);
                    assert(decreases_to!(value@ => v->Math_0));
                    assert(decreases_to!(value@ => v->Math_1));
                }
                let lhs = match self.eval_as_number(&m.lhs, position, data, context) {
                    Ok(x) => x,
                    Err(e) => {
                        proof {
                            let l1 = context.log();
                            assert forall|ext: Seq<Interaction>| prefix(l1, ext) implies #[trigger] run_value_as_number(
                                self@,
                                value@,
                                position@,
                                data@,
                                ext,
                                l0.len() as int,
                            ) == Some((number_result(Err(e)), l1.len() as int)) by {
                                assert(run_as_number(self@, (*m.lhs)@, position@, data@, ext, l0.len() as int)
                                    == Some((Err::<NumberV, Error>(e), l1.len() as int)));
                                assert(run_value_as_number(self@, v, position@, data@, ext, l0.len() as int)
                                    == Some((Err::<NumberV, Error>(e), l1.len() as int)));
                            }
                        }
                        return Err(e);
                    },
                };
                let ghost l1 = context.log();
                let rhs = match self.eval_as_number(&m.rhs, position, data, context) {
                    Ok(x) => x,
                    Err(e) => {
                        proof {
                            let l2 = context.log();
                            lemma_prefix_trans(l0, l1, l2);
                            assert forall|ext: Seq<Interaction>| prefix(l2, ext) implies #[trigger] run_value_as_number(
                                self@,
                                value@,
                                position@,
                                data@,
                                ext,
                                l0.len() as int,
                            ) == Some((number_result(Err(e)), l2.len() as int)) by {
                                lemma_prefix_trans(l1, l2, ext);
                                assert(run_as_number(self@, (*m.lhs)@, position@, data@, ext, l0.len() as int)
                                    == Some((Ok::<NumberV, Error>(lhs@), l1.len() as int)));
                                assert(run_as_number(self@, (*m.rhs)@, position@, data@, ext, l1.len() as int)
                                    == Some((Err::<NumberV, Error>(e), l2.len() as int)));
                                assert(run_value_as_number(self@, v, position@, data@, ext, l0.len() as int)
                                    == Some((Err::<NumberV, Error>(e), l2.len() as int)));
                            }
                        }
                        return Err(e);
                    },
                };
                let ghost l2 = context.log();
                let r = self.eval_math(&lhs, &rhs, m.operator, context);
                proof {
                    let l3 = context.log();
                    lemma_prefix_trans(l0, l1, l2);
                    lemma_prefix_trans(l0, l2, l3);
                    assert forall|ext: Seq<Interaction>| prefix(l3, ext) implies #[trigger] run_value_as_number(
                        self@,
                        value@,
                        position@,
                        data@,
                        ext,
                        l0.len() as int,
                    ) == Some((number_result(r), l3.len() as int)) by {
                        lemma_prefix_trans(l2, l3, ext);
                        lemma_prefix_trans(l1, l2, ext);
                        assert(run_as_number(self@, (*m.lhs)@, position@, data@, ext, l0.len() as int)
                            == Some((Ok::<NumberV, Error>(lhs@), l1.len() as int)));
                        assert(run_as_number(self@, (*m.rhs)@, position@, data@, ext, l1.len() as int)
                            == Some((Ok::<NumberV, Error>(rhs@), l2.len() as int)));
                        assert(run_math(lhs@, rhs@, m.operator, ext, l2.len() as int)
                            == Some((number_result(r), l3.len() as int)));
                        assert(run_value_as_number(self@, v, position@, data@, ext, l0.len() as int)
                            == Some((number_result(r), l3.len() as int)));
                    }
                }
                r
            },
            ExpressionValue::FunctionCall(call) => {
                proof {
                    assert(value@ == ValueV::Call(call@));
                    assert(decreases_to!(value@ => value@->Call_0));
                }
                let c = self.eval_function(call, position, data, context);
                let ghost cr = json_result(c);
                let r = result_as_number(c);
                proof {
                    let l1 = context.log();
                    assert forall|ext: Seq<Interaction>| prefix(l1, ext) implies #[trigger] run_value_as_number(
                        self@,
                        value@,
                        position@,
                        data@,
                        ext,
                        l0.len() as int,
                    ) == Some((number_result(r), l1.len() as int)) by {
                        assert(value@ == ValueV::Call(call@));
                        assert(run_call(self@, call@, position@, data@, ext, l0.len() as int) == Some((cr, l1.len() as int)));
                    }
                }
                r
            },
            ExpressionValue::Boolean(_) => Err(Error::NotANumber(Kind::Boolean)),
            ExpressionValue::String(_) => Err(Error::NotANumber(Kind::String)),
            ExpressionValue::Logical(_) => Err(Error::NotANumber(Kind::Logical)),
            ExpressionValue::StringConcat(_) => Err(Error::NotANumber(Kind::StringConcat)),
        }
    }

    fn eval_as_number<H: Host>(
        &self,
        expression: &Expression,
        position: &Identifier,
        data: &Json,
        context: &mut Context<H>,
    ) -> (r: Result<Number, Error>)
        ensures
            prefix(old(context).log(), final(context).log()),
            final(context).log().len() == old(context).log().len() ==> *final(context) == *old(context),
            forall|ext: Seq<Interaction>|
                prefix(final(context).log(), ext) ==> #[trigger] run_as_number(
                    self@,
                    expression@,
                    position@,
                    data@,
                    ext,
                    old(context).log().len() as int,
                ) == Some((number_result(r), final(context).log().len() as int)),
        decreases expression@, 2nat,
    {
        let ghost l0 = context.log();
        proof {
            lemma_calls_view(expression.filters@);
        }
        if expression.filters.len() == 0 {
            let r = self.eval_value_as_number(&expression.value, position, data, context);
            proof {
                let l1 = context.log();
                assert forall|ext: Seq<Interaction>| prefix(l1, ext) implies #[trigger] run_as_number(
                    self@,
                    expression@,
                    position@,
                    data@,
                    ext,
                    l0.len() as int,
                ) == Some((number_result(r), l1.len() as int)) by {
                    assert(expression@.filters.len() == 0);
                    assert(run_value_as_number(self@, expression@.value, position@, data@, ext, l0.len() as int)
                        == Some((number_result(r), l1.len() as int)));
                }
            }
            return r;
        }
        let v = self.eval_expression(expression, position, data, context);
        let ghost jv = json_result(v);
        let r = match v {
            Ok(Json::Number(n)) => Ok(n),
            Ok(_) => Err(Error::ExpressionNotNumber),
            Err(e) => Err(e),
        };
        proof {
            let l1 = context.log();
            assert forall|ext: Seq<Interaction>| prefix(l1, ext) implies #[trigger] run_as_number(
                self@,
                expression@,
                position@,
                data@,
                ext,
                l0.len() as int,
            ) == Some((number_result(r), l1.len() as int)) by {
                assert(expression@.filters.len() != 0);
                assert(run_expression(self@, expression@, position@, data@, ext, l0.len() as int)
                    == Some((jv, l1.len() as int)));
            }
        }
        r
    }

    /// Evaluates the expression that `expression` writes, at `position` in `data`.
    ///
    /// The calls made of the host are appended to the context's log; the result
    /// is what [`run_eval`] gives for the answers they got.
    pub fn eval<H: Host>(
        &self,
        expression: &str,
        position: &Identifier,
        data: &Json,
        context: &mut Context<H>,
    ) -> (r: Result<Json, Error>)
        ensures
            prefix(old(context).log(), final(context).log()),
            final(context).log().len() == old(context).log().len() ==> *final(context) == *old(context),
            forall|ext: Seq<Interaction>|
                prefix(final(context).log(), ext) ==> #[trigger] run_eval(
                    self@,
                    expression@,
                    position@,
                    data@,
                    ext,
                    old(context).log().len() as int,
                ) == Some((json_result(r), final(context).log().len() as int)),
    {
        match parse_expression(expression) {
            Some(e) => self.eval_expression(&e, position, data, context),
            None => Err(Error::Parse),
        }
    }

    /// Evaluates the expression that `expression` writes as a boolean, at
    /// `position` in `data`.
    ///
    /// The calls made of the host are appended to the context's log; the result
    /// is what [`run_eval_as_bool`] gives for the answers they got.
    pub fn eval_as_bool<H: Host>(
        &self,
        expression: &str,
        position: &Identifier,
        data: &Json,
        context: &mut Context<H>,
    ) -> (r: Result<bool, Error>)
        ensures
            prefix(old(context).log(), final(context).log()),
            final(context).log().len() == old(context).log().len() ==> *final(context) == *old(context),
            forall|ext: Seq<Interaction>|
                prefix(final(context).log(), ext) ==> #[trigger] run_eval_as_bool(
                    self@,
                    expression@,
                    position@,
                    data@,
                    ext,
                    old(context).log().len() as int,
                ) == Some((r, final(context).log().len() as int)),
    {
        match parse_expression(expression) {
            Some(e) => self.eval_expression_as_bool(&e, position, data, context),
            None => Err(Error::Parse),
        }
    }

    #[verifier::loop_isolation(false)]
    fn eval_concat<H: Host>(
        &self,
        values: &Vec<ExpressionValue>,
        position: &Identifier,
        data: &Json,
        context: &mut Context<H>,
    ) -> (r: Result<String, Error>)
        ensures
            prefix(old(context).log(), final(context).log()),
            final(context).log().len() == old(context).log().len() ==> *final(context) == *old(context),
            forall|ext: Seq<Interaction>|
                prefix(final(context).log(), ext) ==> #[trigger] run_concat(
                    values_view(values@),
                    position@,
                    data@,
                    ext,
                    old(context).log().len() as int,
                ) == Some((text_result(r), final(context).log().len() as int)),
    {
        let ghost vv = values_view(values@);
        let ghost l0 = context.log();
        proof {
            lemma_values_view(values@);
            assert(vv.skip(0) =~= vv);
        }
        let mut result = String::new();
        let mut i: usize = 0;
        proof {
            assert forall|ext: Seq<Interaction>| prefix(l0, ext) implies #[trigger] run_concat(
                vv,
                position@,
                data@,
                ext,
                l0.len() as int,
            ) == text_after(result@, run_concat(vv.skip(0), position@, data@, ext, l0.len() as int)) by {
                match run_concat(vv, position@, data@, ext, l0.len() as int) {
                    Some((Ok(t), j)) => {
                        assert(Seq::<char>::empty() + t =~= t);
                    },
                    _ => {},
                }
            }
        }
        while i < values.len()
            invariant
                i <= values@.len(),
                vv.len() == values@.len(),
                forall|j: int| 0 <= j < values@.len() ==> #[trigger] vv[j] == value_view(values@[j]),
                prefix(l0, context.log()),
                l0 == old(context).log(),
                context.log().len() == l0.len() ==> *context == *old(context),
                forall|ext: Seq<Interaction>|
                    prefix(context.log(), ext) ==> #[trigger] run_concat(
                        vv,
                        position@,
                        data@,
                        ext,
                        l0.len() as int,
                    ) == text_after(
                        result@,
                        run_concat(vv.skip(i as int), position@, data@, ext, context.log().len() as int),
                    ),
            decreases values@.len() - i,
        {
            let ghost rest = vv.skip(i as int);
            let ghost before = result@;
            let ghost lc = context.log();
            proof {
                assert(rest[0] == vv[i as int]);
                assert(rest.drop_first() =~= vv.skip(i + 1));
            }
            let piece = concat_piece(&values[i], position, data, context);
            let ghost l2 = context.log();
            proof {
                lemma_prefix_trans(l0, lc, l2);
            }
            match piece {
                Err(e) => {
                    proof {
                        assert forall|ext: Seq<Interaction>| prefix(l2, ext) implies #[trigger] run_concat(
                            vv,
                            position@,
                            data@,
                            ext,
                            l0.len() as int,
                        ) == Some((text_result(Err(e)), l2.len() as int)) by {
                            lemma_prefix_trans(lc, l2, ext);
                            assert(run_concat_piece(vv[i as int], position@, data@, ext, lc.len() as int)
                                == Some((Err::<Seq<char>, Error>(e), l2.len() as int)));
                        }
                    }
                    return Err(e);
                },
                Ok(t) => {
                    result.append(t.as_str());
                    proof {
                        assert forall|ext: Seq<Interaction>| prefix(l2, ext) implies #[trigger] run_concat(
                            vv,
                            position@,
                            data@,
                            ext,
                            l0.len() as int,
                        ) == text_after(
                            result@,
                            run_concat(vv.skip(i + 1), position@, data@, ext, l2.len() as int),
                        ) by {
                            lemma_prefix_trans(lc, l2, ext);
                            assert(run_concat_piece(vv[i as int], position@, data@, ext, lc.len() as int)
                                == Some((Ok::<Seq<char>, Error>(t@), l2.len() as int)));
                            match run_concat(vv.skip(i + 1), position@, data@, ext, l2.len() as int) {
                                Some((Ok(u), j)) => {
                                    assert(before + (t@ + u) =~= result@ + u);
                                },
                                _ => {},
                            }
                        }
                    }
                },
            }
            i = i + 1;
        }
        proof {
            let lf = context.log();
            assert(vv.skip(i as int) =~= Seq::<ValueV>::empty());
            assert(result@ + Seq::<char>::empty() =~= result@);
            assert forall|ext: Seq<Interaction>| prefix(lf, ext) implies #[trigger] run_concat(
                vv,
                position@,
                data@,
                ext,
                l0.len() as int,
            ) == Some((text_result(Ok::<String, Error>(result)), lf.len() as int)) by {
                assert(run_concat(vv.skip(i as int), position@, data@, ext, lf.len() as int)
                    == Some((Ok::<Seq<char>, Error>(Seq::empty()), lf.len() as int)));
            }
        }
        Ok(result)
    }

    /// The value of an expression's value, before its filters and negation.
    fn eval_base<H: Host>(
        &self,
        expression: &Expression,
        position: &Identifier,
        data: &Json,
        context: &mut Context<H>,
    ) -> (r: Result<Json, Error>)
        ensures
            prefix(old(context).log(), final(context).log()),
            final(context).log().len() == old(context).log().len() ==> *final(context) == *old(context),
            forall|ext: Seq<Interaction>|
                prefix(final(context).log(), ext) ==> #[trigger] run_base(
                    self@,
                    expression@,
                    position@,
                    data@,
                    ext,
                    old(context).log().len() as int,
                ) == Some((json_result(r), final(context).log().len() as int)),
        decreases expression@, 0nat,
    {
        let ghost l0 = context.log();
        let ghost e = expression@;
        match &expression.value {
            ExpressionValue::Integer(x) => Ok(Json::Number(Number::Int(*x))),
            ExpressionValue::Float(x) => {
                let n = context.literal(x.as_str());
                proof {
                    let l1 = context.log();
                    assert forall|ext: Seq<Interaction>| prefix(l1, ext) implies #[trigger] run_base(
                        self@,
                        e,
                        position@,
                        data@,
                        ext,
                        l0.len() as int,
                    ) == Some((json_result(Ok::<Json, Error>(Json::Number(n))), l1.len() as int)) by {
                        assert(ext[l0.len() as int] == l1[l0.len() as int]);
                    }
                }
                Ok(Json::Number(n))
            },
            ExpressionValue::Boolean(x) => Ok(Json::Bool(*x)),
            ExpressionValue::String(x) => Ok(Json::String(x.clone())),
            ExpressionValue::Identifier(x) => match lookup_identifier(data, x, position) {
                Ok(v) => Ok(copy_json(v)),
                Err(e) => Err(e),
            },
            ExpressionValue::Math(_) => {
                let n = self.eval_value_as_number(&expression.value, position, data, context);
                let ghost nr = number_result(n);
                let r = match n {
                    Ok(n) => Ok(Json::Number(n)),
                    Err(e) => Err(e),
                };
                proof {
                    let l1 = context.log();
                    assert forall|ext: Seq<Interaction>| prefix(l1, ext) implies #[trigger] run_base(
                        self@,
                        e,
                        position@,
                        data@,
                        ext,
                        l0.len() as int,
                    ) == Some((json_result(r), l1.len() as int)) by {
                        assert(run_value_as_number(self@, e.value, position@, data@, ext, l0.len() as int)
                            == Some((nr, l1.len() as int)));
                    }
                }
                r
            },
            ExpressionValue::Logical(_) => {
                let b = self.eval_value_as_bool(&expression.value, position, data, context);
                let r = match b {
                    Ok(b) => Ok(Json::Bool(b)),
                    Err(e) => Err(e),
                };
                proof {
                    let l1 = context.log();
                    assert forall|ext: Seq<Interaction>| prefix(l1, ext) implies #[trigger] run_base(
                        self@,
                        e,
                        position@,
                        data@,
                        ext,
                        l0.len() as int,
                    ) == Some((json_result(r), l1.len() as int)) by {
                        assert(run_value_as_bool(self@, e.value, position@, data@, ext, l0.len() as int)
                            == Some((b, l1.len() as int)));
                    }
                }
                r
            },
            ExpressionValue::FunctionCall(call) => {
                let r = self.eval_function(call, position, data, context);
                proof {
                    let l1 = context.log();
                    assert forall|ext: Seq<Interaction>| prefix(l1, ext) implies #[trigger] run_base(
                        self@,
                        e,
                        position@,
                        data@,
                        ext,
                        l0.len() as int,
                    ) == Some((json_result(r), l1.len() as int)) by {
                        assert(e.value == ValueV::Call(call@));
                        assert(run_call(self@, call@, position@, data@, ext, l0.len() as int)
                            == Some((json_result(r), l1.len() as int)));
                    }
                }
                r
            },
            ExpressionValue::StringConcat(c) => {
                let t = self.eval_concat(&c.values, position, data, context);
                let ghost tr = text_result(t);
                let r = match t {
                    Ok(t) => Ok(Json::String(t)),
                    Err(e) => Err(e),
                };
                proof {
                    let l1 = context.log();
                    assert forall|ext: Seq<Interaction>| prefix(l1, ext) implies #[trigger] run_base(
                        self@,
                        e,
                        position@,
                        data@,
                        ext,
                        l0.len() as int,
                    ) == Some((json_result(r), l1.len() as int)) by {
                        assert(e.value == ValueV::Concat(values_view(c.values@)));
                        assert(run_concat(values_view(c.values@), position@, data@, ext, l0.len() as int)
                            == Some((tr, l1.len() as int)));
                    }
                }
                r
            },
        }
    }

    fn eval_expression<H: Host>(
        &self,
        expression: &Expression,
        position: &Identifier,
        data: &Json,
        context: &mut Context<H>,
    ) -> (r: Result<Json, Error>)
        ensures
            prefix(old(context).log(), final(context).log()),
            final(context).log().len() == old(context).log().len() ==> *final(context) == *old(context),
            forall|ext: Seq<Interaction>|
                prefix(final(context).log(), ext) ==> #[trigger] run_expression(
                    self@,
                    expression@,
                    position@,
                    data@,
                    ext,
                    old(context).log().len() as int,
                ) == Some((json_result(r), final(context).log().len() as int)),
        decreases expression@, 1nat,
    {
        let ghost l0 = context.log();
        let base = match self.eval_base(expression, position, data, context) {
            Ok(b) => b,
            Err(e) => {
                proof {
                    let l1 = context.log();
                    assert forall|ext: Seq<Interaction>| prefix(l1, ext) implies #[trigger] run_expression(
                        self@,
                        expression@,
                        position@,
                        data@,
                        ext,
                        l0.len() as int,
                    ) == Some((Err::<JsonV, Error>(e), l1.len() as int)) by {
                        assert(run_base(self@, expression@, position@, data@, ext, l0.len() as int)
                            == Some((Err::<JsonV, Error>(e), l1.len() as int)));
                    }
                }
                return Err(e);
            },
        };
        let ghost l1 = context.log();
        let ghost bv = base@;
        proof {
            assert(decreases_to!(expression@ => expression@.filters));
        }
        let filtered = self.apply_filters(&expression.filters, base, position, data, context);
        let ghost l2 = context.log();
        let ghost fr = json_result(filtered);
        let out = match filtered {
            Ok(w) => negate_value(w, expression.negated),
            Err(e) => Err(e),
        };
        proof {
            lemma_prefix_trans(l0, l1, l2);
            assert forall|ext: Seq<Interaction>| prefix(l2, ext) implies #[trigger] run_expression(
                self@,
                expression@,
                position@,
                data@,
                ext,
                l0.len() as int,
            ) == Some((json_result(out), l2.len() as int)) by {
                lemma_prefix_trans(l1, l2, ext);
                assert(run_base(self@, expression@, position@, data@, ext, l0.len() as int)
                    == Some((Ok::<JsonV, Error>(bv), l1.len() as int)));
                assert(run_filters(self@, expression@.filters, bv, position@, data@, ext, l1.len() as int)
                    == Some((fr, l2.len() as int)));
            }
        }
        out
    }

    /// The filters applied to `input` in turn.
    #[verifier::loop_isolation(false)]
    fn apply_filters<H: Host>(
        &self,
        filters: &Vec<FunctionCall>,
        input: Json,
        position: &Identifier,
        data: &Json,
        context: &mut Context<H>,
    ) -> (r: Result<Json, Error>)
        ensures
            prefix(old(context).log(), final(context).log()),
            final(context).log().len() == old(context).log().len() ==> *final(context) == *old(context),
            forall|ext: Seq<Interaction>|
                prefix(final(context).log(), ext) ==> #[trigger] run_filters(
                    self@,
                    calls_view(filters@),
                    input@,
                    position@,
                    data@,
                    ext,
                    old(context).log().len() as int,
                ) == Some((json_result(r), final(context).log().len() as int)),
        decreases calls_view(filters@), 0nat,
    {
        let ghost fs = calls_view(filters@);
        let ghost eng = self@;
        let ghost l0 = context.log();
        let ghost iv = input@;
        proof {
            lemma_calls_view(filters@);
            assert(fs.skip(0) =~= fs);
        }
        let mut result = input;
        let mut i: usize = 0;
        while i < filters.len()
            invariant
                i <= filters@.len(),
                fs.len() == filters@.len(),
                forall|j: int| 0 <= j < filters@.len() ==> #[trigger] fs[j] == call_view(filters@[j]),
                prefix(l0, context.log()),
                l0 == old(context).log(),
                context.log().len() == l0.len() ==> *context == *old(context),
                forall|ext: Seq<Interaction>|
                    prefix(context.log(), ext) ==> #[trigger] run_filters(
                        eng,
                        fs,
                        iv,
                        position@,
                        data@,
                        ext,
                        l0.len() as int,
                    ) == run_filters(
                        eng,
                        fs.skip(i as int),
                        result@,
                        position@,
                        data@,
                        ext,
                        context.log().len() as int,
                    ),
            decreases filters@.len() - i,
        {
            let ghost rest = fs.skip(i as int);
            let ghost lc = context.log();
            let ghost cur = result@;
            proof {
                assert(rest[0] == fs[i as int]);
                assert(rest.drop_first() =~= fs.skip(i + 1));
                assert(decreases_to!(fs => fs[i as int]));
            }
            let next = self.eval_filter(&filters[i], &result, position, data, context);
            let ghost l2 = context.log();
            proof {
                lemma_prefix_trans(l0, lc, l2);
            }
            match next {
                Err(err) => {
                    proof {
                        assert forall|ext: Seq<Interaction>| prefix(l2, ext) implies #[trigger] run_filters(
                            eng,
                            fs,
                            iv,
                            position@,
                            data@,
                            ext,
                            l0.len() as int,
                        ) == Some((json_result(Err(err)), l2.len() as int)) by {
                            lemma_prefix_trans(lc, l2, ext);
                            assert(run_filter(eng, fs[i as int], cur, position@, data@, ext, lc.len() as int)
                                == Some((Err::<JsonV, Error>(err), l2.len() as int)));
                            assert(run_filters(eng, rest, cur, position@, data@, ext, lc.len() as int)
                                == Some((Err::<JsonV, Error>(err), l2.len() as int)));
                        }
                    }
                    return Err(err);
                },
                Ok(v) => {
                    result = v;
                    proof {
                        assert forall|ext: Seq<Interaction>| prefix(l2, ext) implies #[trigger] run_filters(
                            eng,
                            fs,
                            iv,
                            position@,
                            data@,
                            ext,
                            l0.len() as int,
                        ) == run_filters(
                            eng,
                            fs.skip(i + 1),
                            result@,
                            position@,
                            data@,
                            ext,
                            l2.len() as int,
                        ) by {
                            lemma_prefix_trans(lc, l2, ext);
                            assert(run_filter(eng, fs[i as int], cur, position@, data@, ext, lc.len() as int)
                                == Some((Ok::<JsonV, Error>(result@), l2.len() as int)));
                            assert(run_filters(eng, rest, cur, position@, data@, ext, lc.len() as int)
                                == run_filters(eng, fs.skip(i + 1), result@, position@, data@, ext, l2.len() as int));
                        }
                    }
                },
            }
            i = i + 1;
        }
        proof {
            let lf = context.log();
            assert(fs.skip(i as int) =~= Seq::<CallV>::empty());
            assert forall|ext: Seq<Interaction>| prefix(lf, ext) implies #[trigger] run_filters(
                eng,
                fs,
                iv,
                position@,
                data@,
                ext,
                l0.len() as int,
            ) == Some((json_result(Ok::<Json, Error>(result)), lf.len() as int)) by {
                assert(run_filters(eng, fs.skip(i as int), result@, position@, data@, ext, lf.len() as int)
                    == Some((Ok::<JsonV, Error>(result@), lf.len() as int)));
            }
        }
        Ok(result)
    }

    fn eval_value_as_bool<H: Host>(
        &self,
        value: &ExpressionValue,
        position: &Identifier,
        data: &Json,
        context: &mut Context<H>,
    ) -> (r: Result<bool, Error>)
        ensures
            prefix(old(context).log(), final(context).log()),
            final(context).log().len() == old(context).log().len() ==> *final(context) == *old(context),
            forall|ext: Seq<Interaction>|
                prefix(final(context).log(), ext) ==> #[trigger] run_value_as_bool(
                    self@,
                    value@,
                    position@,
                    data@,
                    ext,
                    old(context).log().len() as int,
                ) == Some((r, final(context).log().len() as int)),
        decreases value@, 1nat,
    {
        let ghost l0 = context.log();
        match value {
            ExpressionValue::Integer(_) => Err(Error::NotABool(Kind::Integer)),
            ExpressionValue::Float(_) => Err(Error::NotABool(Kind::Float)),
            ExpressionValue::Boolean(x) => Ok(*x),
            ExpressionValue::String(_) => Err(Error::NotABool(Kind::String)),
            ExpressionValue::Identifier(x) => match lookup_identifier(data, x, position) {
                Ok(Json::Bool(x)) => Ok(*x),
                Ok(_) => Err(Error::IdentifierNotBool),
                Err(e) => Err(e),
            },
            ExpressionValue::Math(_) => Err(Error::NotABool(Kind::Math)),
            ExpressionValue::Logical(l) => {
                let ghost v = ValueV::Logical(Box::new((*l.lhs)@), Box::new((*l.rhs)@), l.operator);
                proof {
                    assert(value@ == v);
                }
                let r = match l.operator {
                LogicalOperator::And => self.eval_and(&l.lhs, &l.rhs, position, data, context),
                LogicalOperator::Or => self.eval_or(&l.lhs, &l.rhs, position, data, context),
                LogicalOperator::Equal | LogicalOperator::NotEqual => self.eval_equality(
                    &l.lhs,
                    &l.rhs,
                    l.operator,
                    position,
                    data,
                    context,
                ),
                    _ => self.eval_relation(&l.lhs, &l.rhs, l.operator, position, data, context),
                };
                proof {
                    let l1 = context.log();
                    assert forall|ext: Seq<Interaction>| prefix(l1, ext) implies #[trigger] run_value_as_bool(
                        self@,
                        value@,
                        position@,
                        data@,
                        ext,
                        l0.len() as int,
                    ) == Some((r, l1.len() as int)) by {
                        assert(run_value_as_bool(self@, v, position@, data@, ext, l0.len() as int)
                            == Some((r, l1.len() as int)));
                    }
                }
                r
            },
            ExpressionValue::FunctionCall(call) => {
                proof {
                    assert(value@ == ValueV::Call(call@));
                    assert(decreases_to!(value@ => value@->Call_0));
                }
                let c = self.eval_function(call, position, data, context);
                let ghost cr = json_result(c);
                let r = result_as_bool(c);
                proof {
                    let l1 = context.log();
                    assert forall|ext: Seq<Interaction>| prefix(l1, ext) implies #[trigger] run_value_as_bool(
                        self@,
                        value@,
                        position@,
                        data@,
                        ext,
                        l0.len() as int,
                    ) == Some((r, l1.len() as int)) by {
                        assert(value@ == ValueV::Call(call@));
                        assert(run_call(self@, call@, position@, data@, ext, l0.len() as int) == Some((cr, l1.len() as int)));
                    }
                }
                r
            },
            ExpressionValue::StringConcat(_) => Err(Error::NotABool(Kind::StringConcat)),
        }
    }

    /// `lhs and rhs`: `rhs` is evaluated only where `lhs` is true.
    fn eval_and<H: Host>(
        &self,
        lhs: &Expression,
        rhs: &Expression,
        position: &Identifier,
        data: &Json,
        context: &mut Context<H>,
    ) -> (r: Result<bool, Error>)
        ensures
            prefix(old(context).log(), final(context).log()),
            final(context).log().len() == old(context).log().len() ==> *final(context) == *old(context),
            forall|ext: Seq<Interaction>|
                prefix(final(context).log(), ext) ==> #[trigger] run_value_as_bool(
                    self@,
                    ValueV::Logical(Box::new(lhs@), Box::new(rhs@), LogicalOperator::And),
                    position@,
                    data@,
                    ext,
                    old(context).log().len() as int,
                ) == Some((r, final(context).log().len() as int)),
        decreases ValueV::Logical(Box::new(lhs@), Box::new(rhs@), LogicalOperator::And), 0nat,
    {
        let ghost v = ValueV::Logical(Box::new(lhs@), Box::new(rhs@), LogicalOperator::And);
        let ghost l0 = context.log();
        proof {
            assert(decreases_to!(v => v->Logical_0));
            assert(decreases_to!(v => v->Logical_1));
        }
        let a = self.eval_expression_as_bool(lhs, position, data, context);
        let ghost l1 = context.log();
        match a {
            Err(e) => {
                proof {
                    assert forall|ext: Seq<Interaction>| prefix(l1, ext) implies #[trigger] run_value_as_bool(
                        self@,
                        v,
                        position@,
                        data@,
                        ext,
                        l0.len() as int,
                    ) == Some((Err::<bool, Error>(e), l1.len() as int)) by {
                        assert(run_expression_as_bool(self@, lhs@, position@, data@, ext, l0.len() as int)
                            == Some((Err::<bool, Error>(e), l1.len() as int)));
                    }
                }
                return Err(e);
            },
            Ok(false) => {
                proof {
                    assert forall|ext: Seq<Interaction>| prefix(l1, ext) implies #[trigger] run_value_as_bool(
                        self@,
                        v,
                        position@,
                        data@,
                        ext,
                        l0.len() as int,
                    ) == Some((Ok::<bool, Error>(false), l1.len() as int)) by {
                        assert(run_expression_as_bool(self@, lhs@, position@, data@, ext, l0.len() as int)
                            == Some((Ok::<bool, Error>(false), l1.len() as int)));
                    }
                }
                return Ok(false);
            },
            Ok(true) => {},
        }
        let b = self.eval_expression_as_bool(rhs, position, data, context);
        proof {
            let l2 = context.log();
            lemma_prefix_trans(l0, l1, l2);
            assert forall|ext: Seq<Interaction>| prefix(l2, ext) implies #[trigger] run_value_as_bool(
                self@,
                v,
                position@,
                data@,
                ext,
                l0.len() as int,
            ) == Some((b, l2.len() as int)) by {
                lemma_prefix_trans(l1, l2, ext);
                assert(run_expression_as_bool(self@, lhs@, position@, data@, ext, l0.len() as int)
                    == Some((Ok::<bool, Error>(true), l1.len() as int)));
                assert(run_expression_as_bool(self@, rhs@, position@, data@, ext, l1.len() as int)
                    == Some((b, l2.len() as int)));
            }
        }
        b
    }

    /// `lhs or rhs`: both sides are evaluated.
    fn eval_or<H: Host>(
        &self,
        lhs: &Expression,
        rhs: &Expression,
        position: &Identifier,
        data: &Json,
        context: &mut Context<H>,
    ) -> (r: Result<bool, Error>)
        ensures
            prefix(old(context).log(), final(context).log()),
            final(context).log().len() == old(context).log().len() ==> *final(context) == *old(context),
            forall|ext: Seq<Interaction>|
                prefix(final(context).log(), ext) ==> #[trigger] run_value_as_bool(
                    self@,
                    ValueV::Logical(Box::new(lhs@), Box::new(rhs@), LogicalOperator::Or),
                    position@,
                    data@,
                    ext,
                    old(context).log().len() as int,
                ) == Some((r, final(context).log().len() as int)),
        decreases ValueV::Logical(Box::new(lhs@), Box::new(rhs@), LogicalOperator::Or), 0nat,
    {
        let ghost v = ValueV::Logical(Box::new(lhs@), Box::new(rhs@), LogicalOperator::Or);
        let ghost l0 = context.log();
        proof {
            assert(decreases_to!(v => v->Logical_0));
            assert(decreases_to!(v => v->Logical_1));
        }
        let a = self.eval_expression_as_bool(lhs, position, data, context);
        let ghost l1 = context.log();
        let x = match a {
            Err(e) => {
                proof {
                    assert forall|ext: Seq<Interaction>| prefix(l1, ext) implies #[trigger] run_value_as_bool(
                        self@,
                        v,
                        position@,
                        data@,
                        ext,
                        l0.len() as int,
                    ) == Some((Err::<bool, Error>(e), l1.len() as int)) by {
                        assert(run_expression_as_bool(self@, lhs@, position@, data@, ext, l0.len() as int)
                            == Some((Err::<bool, Error>(e), l1.len() as int)));
                    }
                }
                return Err(e);
            },
            Ok(x) => x,
        };
        let b = self.eval_expression_as_bool(rhs, position, data, context);
        let out = match b {
            Ok(y) => Ok(x || y),
            Err(e) => Err(e),
        };
        proof {
            let l2 = context.log();
            lemma_prefix_trans(l0, l1, l2);
            assert forall|ext: Seq<Interaction>| prefix(l2, ext) implies #[trigger] run_value_as_bool(
                self@,
                v,
                position@,
                data@,
                ext,
                l0.len() as int,
            ) == Some((out, l2.len() as int)) by {
                lemma_prefix_trans(l1, l2, ext);
                assert(run_expression_as_bool(self@, lhs@, position@, data@, ext, l0.len() as int)
                    == Some((Ok::<bool, Error>(x), l1.len() as int)));
                assert(run_expression_as_bool(self@, rhs@, position@, data@, ext, l1.len() as int)
                    == Some((b, l2.len() as int)));
            }
        }
        out
    }

    /// `lhs == rhs` and `lhs != rhs`: both sides are evaluated, then compared.
    fn eval_equality<H: Host>(
        &self,
        lhs: &Expression,
        rhs: &Expression,
        operator: LogicalOperator,
        position: &Identifier,
        data: &Json,
        context: &mut Context<H>,
    ) -> (r: Result<bool, Error>)
        requires
            operator == LogicalOperator::Equal || operator == LogicalOperator::NotEqual,
        ensures
            prefix(old(context).log(), final(context).log()),
            final(context).log().len() == old(context).log().len() ==> *final(context) == *old(context),
            forall|ext: Seq<Interaction>|
                prefix(final(context).log(), ext) ==> #[trigger] run_value_as_bool(
                    self@,
                    ValueV::Logical(Box::new(lhs@), Box::new(rhs@), operator),
                    position@,
                    data@,
                    ext,
                    old(context).log().len() as int,
                ) == Some((r, final(context).log().len() as int)),
        decreases ValueV::Logical(Box::new(lhs@), Box::new(rhs@), operator), 0nat,
    {
        let ghost v = ValueV::Logical(Box::new(lhs@), Box::new(rhs@), operator);
        let ghost l0 = context.log();
        proof {
            assert(decreases_to!(v => v->Logical_0));
            assert(decreases_to!(v => v->Logical_1));
        }
        let a = match self.eval_expression(lhs, position, data, context) {
            Ok(a) => a,
            Err(e) => {
                proof {
                    let l1 = context.log();
                    assert forall|ext: Seq<Interaction>| prefix(l1, ext) implies #[trigger] run_value_as_bool(
                        self@,
                        v,
                        position@,
                        data@,
                        ext,
                        l0.len() as int,
                    ) == Some((Err::<bool, Error>(e), l1.len() as int)) by {
                        assert(run_expression(self@, lhs@, position@, data@, ext, l0.len() as int)
                            == Some((Err::<JsonV, Error>(e), l1.len() as int)));
                    }
                }
                return Err(e);
            },
        };
        let ghost l1 = context.log();
        let b = match self.eval_expression(rhs, position, data, context) {
            Ok(b) => b,
            Err(e) => {
                proof {
                    let l2 = context.log();
                    lemma_prefix_trans(l0, l1, l2);
                    assert forall|ext: Seq<Interaction>| prefix(l2, ext) implies #[trigger] run_value_as_bool(
                        self@,
                        v,
                        position@,
                        data@,
                        ext,
                        l0.len() as int,
                    ) == Some((Err::<bool, Error>(e), l2.len() as int)) by {
                        lemma_prefix_trans(l1, l2, ext);
                        assert(run_expression(self@, lhs@, position@, data@, ext, l0.len() as int)
                            == Some((Ok::<JsonV, Error>(a@), l1.len() as int)));
                        assert(run_expression(self@, rhs@, position@, data@, ext, l1.len() as int)
                            == Some((Err::<JsonV, Error>(e), l2.len() as int)));
                    }
                }
                return Err(e);
            },
        };
        let ghost l2 = context.log();
        let eq = values_equal(&a, &b, context);
        let out = if let LogicalOperator::Equal = operator {
            eq
        } else {
            !eq
        };
        proof {
            let l3 = context.log();
            lemma_prefix_trans(l0, l1, l2);
            lemma_prefix_trans(l0, l2, l3);
            assert forall|ext: Seq<Interaction>| prefix(l3, ext) implies #[trigger] run_value_as_bool(
                self@,
                v,
                position@,
                data@,
                ext,
                l0.len() as int,
            ) == Some((Ok::<bool, Error>(out), l3.len() as int)) by {
                lemma_prefix_trans(l2, l3, ext);
                lemma_prefix_trans(l1, l2, ext);
                assert(run_expression(self@, lhs@, position@, data@, ext, l0.len() as int)
                    == Some((Ok::<JsonV, Error>(a@), l1.len() as int)));
                assert(run_expression(self@, rhs@, position@, data@, ext, l1.len() as int)
                    == Some((Ok::<JsonV, Error>(b@), l2.len() as int)));
                assert(run_values_equal(a@, b@, ext, l2.len() as int) == Some((eq, l3.len() as int)));
            }
        }
        Ok(out)
    }

    /// `>`, `>=`, `<` and `<=`: both sides are evaluated as numbers, then compared.
    fn eval_relation<H: Host>(
        &self,
        lhs: &Expression,
        rhs: &Expression,
        operator: LogicalOperator,
        position: &Identifier,
        data: &Json,
        context: &mut Context<H>,
    ) -> (r: Result<bool, Error>)
        requires
            operator != LogicalOperator::Equal,
            operator != LogicalOperator::NotEqual,
            operator != LogicalOperator::And,
            operator != LogicalOperator::Or,
        ensures
            prefix(old(context).log(), final(context).log()),
            final(context).log().len() == old(context).log().len() ==> *final(context) == *old(context),
            forall|ext: Seq<Interaction>|
                prefix(final(context).log(), ext) ==> #[trigger] run_value_as_bool(
                    self@,
                    ValueV::Logical(Box::new(lhs@), Box::new(rhs@), operator),
                    position@,
                    data@,
                    ext,
                    old(context).log().len() as int,
                ) == Some((r, final(context).log().len() as int)),
        decreases ValueV::Logical(Box::new(lhs@), Box::new(rhs@), operator), 0nat,
    {
        let ghost v = ValueV::Logical(Box::new(lhs@), Box::new(rhs@), operator);
        let ghost l0 = context.log();
        proof {
            assert(decreases_to!(v => v->Logical_0));
            assert(decreases_to!(v => v->Logical_1));
        }
        let a = match self.eval_as_number(lhs, position, data, context) {
            Ok(a) => a,
            Err(e) => {
                proof {
                    let l1 = context.log();
                    assert forall|ext: Seq<Interaction>| prefix(l1, ext) implies #[trigger] run_value_as_bool(
                        self@,
                        v,
                        position@,
                        data@,
                        ext,
                        l0.len() as int,
                    ) == Some((Err::<bool, Error>(e), l1.len() as int)) by {
                        assert(run_as_number(self@, lhs@, position@, data@, ext, l0.len() as int)
                            == Some((Err::<NumberV, Error>(e), l1.len() as int)));
                    }
                }
                return Err(e);
            },
        };
        let ghost l1 = context.log();
        let b = match self.eval_as_number(rhs, position, data, context) {
            Ok(b) => b,
            Err(e) => {
                proof {
                    let l2 = context.log();
                    lemma_prefix_trans(l0, l1, l2);
                    assert forall|ext: Seq<Interaction>| prefix(l2, ext) implies #[trigger] run_value_as_bool(
                        self@,
                        v,
                        position@,
                        data@,
                        ext,
                        l0.len() as int,
                    ) == Some((Err::<bool, Error>(e), l2.len() as int)) by {
                        lemma_prefix_trans(l1, l2, ext);
                        assert(run_as_number(self@, lhs@, position@, data@, ext, l0.len() as int)
                            == Some((Ok::<NumberV, Error>(a@), l1.len() as int)));
                        assert(run_as_number(self@, rhs@, position@, data@, ext, l1.len() as int)
                            == Some((Err::<NumberV, Error>(e), l2.len() as int)));
                    }
                }
                return Err(e);
            },
        };
        let ghost l2 = context.log();
        let c = compare_numbers(operator, &a, &b, context);
        proof {
            let l3 = context.log();
            lemma_prefix_trans(l0, l1, l2);
            lemma_prefix_trans(l0, l2, l3);
            assert forall|ext: Seq<Interaction>| prefix(l3, ext) implies #[trigger] run_value_as_bool(
                self@,
                v,
                position@,
                data@,
                ext,
                l0.len() as int,
            ) == Some((Ok::<bool, Error>(c), l3.len() as int)) by {
                lemma_prefix_trans(l2, l3, ext);
                lemma_prefix_trans(l1, l2, ext);
                assert(run_as_number(self@, lhs@, position@, data@, ext, l0.len() as int)
                    == Some((Ok::<NumberV, Error>(a@), l1.len() as int)));
                assert(run_as_number(self@, rhs@, position@, data@, ext, l1.len() as int)
                    == Some((Ok::<NumberV, Error>(b@), l2.len() as int)));
                assert(run_compare(operator, a@, b@, ext, l2.len() as int) == Some((c, l3.len() as int)));
            }
        }
        Ok(c)
    }

    fn eval_expression_as_bool<H: Host>(
        &self,
        expression: &Expression,
        position: &Identifier,
        data: &Json,
        context: &mut Context<H>,
    ) -> (r: Result<bool, Error>)
        ensures
            prefix(old(context).log(), final(context).log()),
            final(context).log().len() == old(context).log().len() ==> *final(context) == *old(context),
            forall|ext: Seq<Interaction>|
                prefix(final(context).log(), ext) ==> #[trigger] run_expression_as_bool(
                    self@,
                    expression@,
                    position@,
                    data@,
                    ext,
                    old(context).log().len() as int,
                ) == Some((r, final(context).log().len() as int)),
        decreases expression@, 0nat,
    {
        let ghost l0 = context.log();
        let r = self.eval_value_as_bool(&expression.value, position, data, context);
        let out = match r {
            Ok(b) => Ok(if expression.negated {
                !b
            } else {
                b
            }),
            Err(e) => Err(e),
        };
        proof {
            let l1 = context.log();
            assert forall|ext: Seq<Interaction>| prefix(l1, ext) implies #[trigger] run_expression_as_bool(
                self@,
                expression@,
                position@,
                data@,
                ext,
                l0.len() as int,
            ) == Some((out, l1.len() as int)) by {
                assert(run_value_as_bool(self@, expression@.value, position@, data@, ext, l0.len() as int)
                    == Some((r, l1.len() as int)));
            }
        }
        out
    }
}

} // verus!
