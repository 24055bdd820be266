//! The host an evaluation asks for filters, functions and float arithmetic,
//! and the record of every call made of it.
//!
//! The record can be extended only by the methods here, each of which makes
//! one call of the host and records that call with the answer it got.
use vstd::prelude::*;
use crate::ast::{LogicalOperator, MathOperator};
use crate::engine::{json_result, number_result, FilterFn, FunctionFn};
use crate::error::Error;
use crate::json::{members_view, Json, Number};
use crate::semantics::Interaction;

verus! {

/// What an evaluation needs from its caller: it runs the registered filters and
/// functions, and it does the arithmetic on numbers that are not `i64` integers
/// (floats), which this library does not hold.
///
/// Nothing is assumed of what these methods return. A [`Context`] records every
/// call with its answer, and the contracts of the engine say what it makes of
/// each answer.
pub trait Host {
    /// Calls `function` with the evaluated arguments.
    fn call_function(&mut self, function: FunctionFn, args: &Vec<(String, Json)>) -> Result<Json, Error>;

    /// Applies `filter` to `input` with the evaluated arguments.
    fn call_filter(&mut self, filter: FilterFn, input: &Json, args: &Vec<(String, Json)>) -> Result<
        Json,
        Error,
    >;

    /// `lhs operator rhs` in floating point; an error where the result is not finite.
    fn float_math(&mut self, operator: MathOperator, lhs: &Number, rhs: &Number) -> Result<Number, Error>;

    /// The comparison `lhs operator rhs` in floating point, for the four ordering operators.
    fn float_compare(&mut self, operator: LogicalOperator, lhs: &Number, rhs: &Number) -> bool;

    /// Whether two numbers are equal, compared in floating point.
    fn float_equal(&mut self, lhs: &Number, rhs: &Number) -> bool;

    /// The text of a float literal, as the float prints.
    fn float_text(&mut self, literal: &str) -> String;

    /// The number a float literal stands for, as the JSON layer holds it.
    fn float_number(&mut self, literal: &str) -> Number;
}

/// A [`Host`], with the record of every call an evaluation made of it.
pub struct Context<H> {
    host: H,
    log: Ghost<Seq<Interaction>>,
}

impl<H> Context<H> {
    /// The calls made of the host so far, each with its answer, in order.
    pub closed spec fn log(&self) -> Seq<Interaction> {
        self.log@
    }

    /// The host the calls are made of.
    pub closed spec fn host_spec(&self) -> H {
        self.host
    }
}

impl<H: Host> Context<H> {
    /// A context that has asked nothing of `host` yet.
    pub fn new(host: H) -> (c: Context<H>)
        ensures
            c.log() == Seq::<Interaction>::empty(),
            c.host_spec() == host,
    {
        Context { host, log: Ghost(Seq::empty()) }
    }

    /// The host.
    pub fn host(&self) -> (h: &H)
        ensures
            *h == self.host_spec(),
    {
        &self.host
    }

    /// The host, given back.
    pub fn into_host(self) -> (h: H)
        ensures
            h == self.host_spec(),
    {
        self.host
    }

    pub(crate) fn function(&mut self, function: FunctionFn, args: &Vec<(String, Json)>) -> (r: Result<Json, Error>)
        ensures
            final(self).log() == old(self).log().push(
                Interaction::Function(function, members_view(args@), json_result(r)),
            ),
    {
        let r = self.host.call_function(function, args);
        self.log = Ghost(self.log@.push(Interaction::Function(function, members_view(args@), json_result(r))));
        r
    }

    pub(crate) fn filter(&mut self, filter: FilterFn, input: &Json, args: &Vec<(String, Json)>) -> (r: Result<
        Json,
        Error,
    >)
        ensures
            final(self).log() == old(self).log().push(
                Interaction::Filter(filter, input@, members_view(args@), json_result(r)),
            ),
    {
        let r = self.host.call_filter(filter, input, args);
        self.log = Ghost(self.log@.push(Interaction::Filter(filter, input@, members_view(args@), json_result(r))));
        r
    }

    pub(crate) fn math(&mut self, operator: MathOperator, lhs: &Number, rhs: &Number) -> (r: Result<Number, Error>)
        ensures
            final(self).log() == old(self).log().push(
                Interaction::Math(operator, lhs@, rhs@, number_result(r)),
            ),
    {
        let r = self.host.float_math(operator, lhs, rhs);
        self.log = Ghost(self.log@.push(Interaction::Math(operator, lhs@, rhs@, number_result(r))));
        r
    }

    pub(crate) fn compare(&mut self, operator: LogicalOperator, lhs: &Number, rhs: &Number) -> (r: bool)
        ensures
            final(self).log() == old(self).log().push(Interaction::Compare(operator, lhs@, rhs@, r)),
    {
        let r = self.host.float_compare(operator, lhs, rhs);
        self.log = Ghost(self.log@.push(Interaction::Compare(operator, lhs@, rhs@, r)));
        r
    }

    pub(crate) fn equal(&mut self, lhs: &Number, rhs: &Number) -> (r: bool)
        ensures
            final(self).log() == old(self).log().push(Interaction::Equal(lhs@, rhs@, r)),
    {
        let r = self.host.float_equal(lhs, rhs);
        self.log = Ghost(self.log@.push(Interaction::Equal(lhs@, rhs@, r)));
        r
    }

    pub(crate) fn text(&mut self, literal: &str) -> (r: String)
        ensures
            final(self).log() == old(self).log().push(Interaction::Text(literal@, r@)),
    {
        let r = self.host.float_text(literal);
        self.log = Ghost(self.log@.push(Interaction::Text(literal@, r@)));
        r
    }

    pub(crate) fn literal(&mut self, literal: &str) -> (r: Number)
        ensures
            final(self).log() == old(self).log().push(Interaction::Literal(literal@, r@)),
    {
        let r = self.host.float_number(literal);
        self.log = Ghost(self.log@.push(Interaction::Literal(literal@, r@)));
        r
    }
}

} // verus!
