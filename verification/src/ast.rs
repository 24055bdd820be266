//! Expressions of the template language, and positions in a JSON value.
use vstd::prelude::*;

verus! {

/// One step of an [`Identifier`].
#[derive(Debug)]
pub enum IdentifierValue {
    /// A member of an object.
    Name(String),
    /// An element of an array.
    Index(isize),
    /// The position the expression is evaluated at.
    This,
    /// One step up from the current position.
    Super,
}

/// A path into a JSON value; the empty path is the whole value.
#[derive(Debug)]
pub struct Identifier {
    pub values: Vec<IdentifierValue>,
}

#[derive(Clone, Copy, Debug, PartialEq, Eq, Structural)]
pub enum MathOperator {
    Addition,
    Subtraction,
    Multiplication,
    Division,
    Modulo,
}

#[derive(Clone, Copy, Debug, PartialEq, Eq, Structural)]
pub enum LogicalOperator {
    Equal,
    NotEqual,
    GreaterThan,
    GreaterThanOrEqual,
    LowerThan,
    LowerThanOrEqual,
    And,
    Or,
}

/// A call of a function, or a filter, with named arguments.
#[derive(Debug)]
pub struct FunctionCall {
    pub name: String,
    pub args: Vec<(String, Expression)>,
}

#[derive(Debug)]
pub struct MathExpression {
    pub lhs: Box<Expression>,
    pub rhs: Box<Expression>,
    pub operator: MathOperator,
}

#[derive(Debug)]
pub struct LogicalExpression {
    pub lhs: Box<Expression>,
    pub rhs: Box<Expression>,
    pub operator: LogicalOperator,
}

#[derive(Debug)]
pub struct StringConcat {
    pub values: Vec<ExpressionValue>,
}

#[derive(Debug)]
pub enum ExpressionValue {
    Integer(i64),
    /// A float literal, as its decimal text.
    Float(String),
    Boolean(bool),
    String(String),
    Identifier(Identifier),
    Math(MathExpression),
    Logical(LogicalExpression),
    FunctionCall(FunctionCall),
    StringConcat(StringConcat),
}

/// A value, the filters applied to it in turn, and whether the result is negated.
#[derive(Debug)]
pub struct Expression {
    pub value: ExpressionValue,
    pub filters: Vec<FunctionCall>,
    pub negated: bool,
}

// ---------------------------------------------------------------------------
// Mathematical values of the above.

/// The mathematical value of an identifier step.
pub enum IdV {
    Name(Seq<char>),
    Index(isize),
    This,
    Super,
}

/// The mathematical value of a function or filter call.
pub struct CallV {
    pub name: Seq<char>,
    pub args: Seq<(Seq<char>, ExprV)>,
}

/// The mathematical value of an expression value.
pub enum ValueV {
    Integer(i64),
    Float(Seq<char>),
    Boolean(bool),
    Str(Seq<char>),
    Identifier(Seq<IdV>),
    Math(Box<ExprV>, Box<ExprV>, MathOperator),
    Logical(Box<ExprV>, Box<ExprV>, LogicalOperator),
    Call(CallV),
    Concat(Seq<ValueV>),
}

/// The mathematical value of an expression.
pub struct ExprV {
    pub value: ValueV,
    pub filters: Seq<CallV>,
    pub negated: bool,
}

/// The mathematical value of an identifier step.
pub open spec fn id_value_view(v: IdentifierValue) -> IdV {
    match v {
        IdentifierValue::Name(s) => IdV::Name(s@),
        IdentifierValue::Index(i) => IdV::Index(i),
        IdentifierValue::This => IdV::This,
        IdentifierValue::Super => IdV::Super,
    }
}

impl View for IdentifierValue {
    type V = IdV;

    open spec fn view(&self) -> IdV {
        id_value_view(*self)
    }
}

impl View for Identifier {
    type V = Seq<IdV>;

    open spec fn view(&self) -> Seq<IdV> {
        self.values@.map_values(|v: IdentifierValue| id_value_view(v))
    }
}

/// The mathematical value of an expression.
pub open spec fn expr_view(e: Expression) -> ExprV
    decreases e,
{
    ExprV { value: value_view(e.value), filters: calls_view(e.filters@), negated: e.negated }
}

/// The mathematical value of an expression value.
pub open spec fn value_view(v: ExpressionValue) -> ValueV
    decreases v,
{
    match v {
        ExpressionValue::Integer(i) => ValueV::Integer(i),
        ExpressionValue::Float(s) => ValueV::Float(s@),
        ExpressionValue::Boolean(b) => ValueV::Boolean(b),
        ExpressionValue::String(s) => ValueV::Str(s@),
        ExpressionValue::Identifier(id) => ValueV::Identifier(id@),
        ExpressionValue::Math(m) => ValueV::Math(
            Box::new(expr_view(*m.lhs)),
            Box::new(expr_view(*m.rhs)),
            m.operator,
        ),
        ExpressionValue::Logical(l) => ValueV::Logical(
            Box::new(expr_view(*l.lhs)),
            Box::new(expr_view(*l.rhs)),
            l.operator,
        ),
        ExpressionValue::FunctionCall(c) => ValueV::Call(call_view(c)),
        ExpressionValue::StringConcat(c) => ValueV::Concat(values_view(c.values@)),
    }
}

/// The mathematical value of a call.
pub open spec fn call_view(c: FunctionCall) -> CallV
    decreases c,
{
    CallV { name: c.name@, args: args_view(c.args@) }
}

/// The mathematical values of named arguments.
pub open spec fn args_view(s: Seq<(String, Expression)>) -> Seq<(Seq<char>, ExprV)>
    decreases s,
{
    if s.len() == 0 {
        Seq::empty()
    } else {
        seq![(s[0].0@, expr_view(s[0].1))] + args_view(s.drop_first())
    }
}

/// The mathematical values of calls.
pub open spec fn calls_view(s: Seq<FunctionCall>) -> Seq<CallV>
    decreases s,
{
    if s.len() == 0 {
        Seq::empty()
    } else {
        seq![call_view(s[0])] + calls_view(s.drop_first())
    }
}

/// The mathematical values of expression values.
pub open spec fn values_view(s: Seq<ExpressionValue>) -> Seq<ValueV>
    decreases s,
{
    if s.len() == 0 {
        Seq::empty()
    } else {
        seq![value_view(s[0])] + values_view(s.drop_first())
    }
}

impl View for Expression {
    type V = ExprV;

    open spec fn view(&self) -> ExprV {
        expr_view(*self)
    }
}

impl View for ExpressionValue {
    type V = ValueV;

    open spec fn view(&self) -> ValueV {
        value_view(*self)
    }
}

impl View for FunctionCall {
    type V = CallV;

    open spec fn view(&self) -> CallV {
        call_view(*self)
    }
}

/// The values of the arguments, one by one.
pub proof fn lemma_args_view(s: Seq<(String, Expression)>)
    ensures
        args_view(s).len() == s.len(),
        forall|i: int|
            0 <= i < s.len() ==> #[trigger] args_view(s)[i] == (s[i].0@, expr_view(s[i].1)),
    decreases s.len(),
{
    if s.len() > 0 {
        lemma_args_view(s.drop_first());
        assert forall|i: int| 0 <= i < s.len() implies #[trigger] args_view(s)[i] == (
            s[i].0@,
            expr_view(s[i].1),
        ) by {
            if i > 0 {
                assert(s.drop_first()[i - 1] == s[i]);
            }
        }
    }
}

/// The values of the calls, one by one.
pub proof fn lemma_calls_view(s: Seq<FunctionCall>)
    ensures
        calls_view(s).len() == s.len(),
        forall|i: int| 0 <= i < s.len() ==> #[trigger] calls_view(s)[i] == call_view(s[i]),
    decreases s.len(),
{
    if s.len() > 0 {
        lemma_calls_view(s.drop_first());
        assert forall|i: int| 0 <= i < s.len() implies #[trigger] calls_view(s)[i] == call_view(
            s[i],
        ) by {
            if i > 0 {
                assert(s.drop_first()[i - 1] == s[i]);
            }
        }
    }
}

/// The values of the expression values, one by one.
pub proof fn lemma_values_view(s: Seq<ExpressionValue>)
    ensures
        values_view(s).len() == s.len(),
        forall|i: int| 0 <= i < s.len() ==> #[trigger] values_view(s)[i] == value_view(s[i]),
    decreases s.len(),
{
    if s.len() > 0 {
        lemma_values_view(s.drop_first());
        assert forall|i: int| 0 <= i < s.len() implies #[trigger] values_view(s)[i] == value_view(
            s[i],
        ) by {
            if i > 0 {
                assert(s.drop_first()[i - 1] == s[i]);
            }
        }
    }
}

/// One more argument adds its value at the end.
pub proof fn lemma_args_view_push(s: Seq<(String, Expression)>, x: (String, Expression))
    ensures
        args_view(s.push(x)) == args_view(s).push((x.0@, expr_view(x.1))),
{
    lemma_args_view(s);
    lemma_args_view(s.push(x));
    assert(args_view(s.push(x)) =~= args_view(s).push((x.0@, expr_view(x.1))));
}

/// One more call adds its value at the end.
pub proof fn lemma_calls_view_push(s: Seq<FunctionCall>, x: FunctionCall)
    ensures
        calls_view(s.push(x)) == calls_view(s).push(call_view(x)),
{
    lemma_calls_view(s);
    lemma_calls_view(s.push(x));
    assert(calls_view(s.push(x)) =~= calls_view(s).push(call_view(x)));
}

/// One more expression value adds its value at the end.
pub proof fn lemma_values_view_push(s: Seq<ExpressionValue>, x: ExpressionValue)
    ensures
        values_view(s.push(x)) == values_view(s).push(value_view(x)),
{
    lemma_values_view(s);
    lemma_values_view(s.push(x));
    assert(values_view(s.push(x)) =~= values_view(s).push(value_view(x)));
}

impl IdentifierValue {
    pub fn clone_value(&self) -> (r: IdentifierValue)
        ensures
            r@ == self@,
    {
        match self {
            IdentifierValue::Name(s) => IdentifierValue::Name(s.clone()),
            IdentifierValue::Index(i) => IdentifierValue::Index(*i),
            IdentifierValue::This => IdentifierValue::This,
            IdentifierValue::Super => IdentifierValue::Super,
        }
    }
}

impl Identifier {
    /// The empty path: the whole value.
    pub fn root() -> (r: Identifier)
        ensures
            r@ == Seq::<IdV>::empty(),
    {
        let r = Identifier { values: Vec::new() };
        assert(r@ =~= Seq::<IdV>::empty());
        r
    }

    /// This path, one member further.
    pub fn name(self, name: String) -> (r: Identifier)
        ensures
            r@ == self@.push(IdV::Name(name@)),
    {
        let mut values = self.values;
        values.push(IdentifierValue::Name(name));
        let r = Identifier { values };
        assert(r@ =~= self@.push(IdV::Name(name@)));
        r
    }

    /// This path, one element further.
    pub fn index(self, index: isize) -> (r: Identifier)
        ensures
            r@ == self@.push(IdV::Index(index)),
    {
        let mut values = self.values;
        values.push(IdentifierValue::Index(index));
        let r = Identifier { values };
        assert(r@ =~= self@.push(IdV::Index(index)));
        r
    }

    /// A copy of this path.
    pub fn duplicate(&self) -> (r: Identifier)
        ensures
            r@ == self@,
    {
        let mut values: Vec<IdentifierValue> = Vec::new();
        let mut i: usize = 0;
        while i < self.values.len()
            invariant
                i <= self.values@.len(),
                values@.len() == i,
                forall|j: int| 0 <= j < i ==> #[trigger] values@[j]@ == self.values@[j]@,
            decreases self.values@.len() - i,
        {
            values.push(self.values[i].clone_value());
            i = i + 1;
        }
        let r = Identifier { values };
        assert forall|j: int| 0 <= j < r@.len() implies r@[j] == self@[j] by {
            assert(values@[j]@ == self.values@[j]@);
        }
        assert(r@ =~= self@);
        r
    }
}

impl Default for Identifier {
    fn default() -> (r: Identifier)
        ensures
            r@ == Seq::<IdV>::empty(),
    {
        Identifier::root()
    }
}

} // verus!
