//! Properties of the engine that relate several of its operations.
use vstd::prelude::*;
use crate::ast::{ExprV, IdV, LogicalOperator, MathOperator, ValueV};
use crate::engine::helper::{
    apart, lemma_apart_symmetric, lemma_replace_apart, lemma_replace_then_read, lemma_value_at_push,
    lemma_pending_mark, mark_evaluated, pending, run_eval_items, run_evaluate, run_pass, spec_item, spec_items,
    spec_items_elements, spec_items_members, spec_replace, ItemV,
};
use crate::engine::{
    default_filter, default_filters, default_function, default_functions, registered, EngineV,
};
use crate::error::Error;
use crate::json::{is_zero_text, json_equal, lemma_elements_equal, member_get, number_equal, JsonV, NumberV};
use crate::lookup::{lookup, value_at, walk};
use crate::parser::negate;
use crate::text::{law_int_text_is_numeral, numeral_of};
use crate::semantics::{
    abs, exact_as_float, in_i64, int_math, run_as_number, run_base, run_eval, run_expression,
    run_compare, run_concat, run_concat_piece, run_expression_as_bool, run_math, run_value_as_bool, run_values_equal, trunc_div, trunc_rem, value_kind,
    Interaction, Run,
};

verus! {

/// A run with its boolean negated.
pub open spec fn flipped(o: Run<bool>) -> Run<bool> {
    match o {
        Some((Ok(b), k)) => Some((Ok(!b), k)),
        other => other,
    }
}

/// `not` negates the boolean an expression evaluates to, and keeps its errors;
/// it asks the same of the host.
pub proof fn law_not_negates(
    eng: EngineV,
    e: ExprV,
    position: Seq<IdV>,
    data: JsonV,
    log: Seq<Interaction>,
    at: int,
)
    ensures
        run_expression_as_bool(eng, negate(e), position, data, log, at) == flipped(
            run_expression_as_bool(eng, e, position, data, log, at),
        ),
{
}

/// `lhs != rhs` evaluates to the negation of `lhs == rhs`, with the same
/// answers from the host.
pub proof fn law_not_equal_negates_equal(
    eng: EngineV,
    lhs: ExprV,
    rhs: ExprV,
    position: Seq<IdV>,
    data: JsonV,
    log: Seq<Interaction>,
    at: int,
)
    ensures
        run_value_as_bool(
            eng,
            ValueV::Logical(Box::new(lhs), Box::new(rhs), LogicalOperator::NotEqual),
            position,
            data,
            log,
            at,
        ) == flipped(
            run_value_as_bool(
                eng,
                ValueV::Logical(Box::new(lhs), Box::new(rhs), LogicalOperator::Equal),
                position,
                data,
                log,
                at,
            ),
        ),
{
}

/// `a < b` and `b > a` agree, and so do `a <= b` and `b >= a`, where both sides
/// evaluate, without asking the host, to integers that convert to floats
/// exactly.
pub proof fn law_relations_mirror(
    eng: EngineV,
    lhs: ExprV,
    rhs: ExprV,
    position: Seq<IdV>,
    data: JsonV,
    log: Seq<Interaction>,
    at: int,
    a: i64,
    b: i64,
)
    requires
        run_as_number(eng, lhs, position, data, log, at) == Some((Ok::<NumberV, Error>(NumberV::Int(a)), at)),
        run_as_number(eng, rhs, position, data, log, at) == Some((Ok::<NumberV, Error>(NumberV::Int(b)), at)),
        exact_as_float(a),
        exact_as_float(b),
    ensures
        run_value_as_bool(
            eng,
            ValueV::Logical(Box::new(lhs), Box::new(rhs), LogicalOperator::LowerThan),
            position,
            data,
            log,
            at,
        ) == run_value_as_bool(
            eng,
            ValueV::Logical(Box::new(rhs), Box::new(lhs), LogicalOperator::GreaterThan),
            position,
            data,
            log,
            at,
        ),
        run_value_as_bool(
            eng,
            ValueV::Logical(Box::new(lhs), Box::new(rhs), LogicalOperator::LowerThanOrEqual),
            position,
            data,
            log,
            at,
        ) == run_value_as_bool(
            eng,
            ValueV::Logical(Box::new(rhs), Box::new(lhs), LogicalOperator::GreaterThanOrEqual),
            position,
            data,
            log,
            at,
        ),
{
}

/// Where an expression without filters evaluates as a boolean, it evaluates to
/// that boolean, with the same calls of the host.
pub proof fn law_bool_agrees(
    eng: EngineV,
    e: ExprV,
    position: Seq<IdV>,
    data: JsonV,
    log: Seq<Interaction>,
    at: int,
    b: bool,
    k: int,
)
    requires
        e.filters.len() == 0,
        run_expression_as_bool(eng, e, position, data, log, at) == Some((Ok::<bool, Error>(b), k)),
    ensures
        run_expression(eng, e, position, data, log, at) == Some((Ok::<JsonV, Error>(JsonV::Bool(b)), k)),
{
    match e.value {
        ValueV::Logical(..) => {
            assert(run_base(eng, e, position, data, log, at) == Some(
                (Ok::<JsonV, Error>(JsonV::Bool(if e.negated { !b } else { b })), k),
            ));
        },
        _ => {},
    }
}

/// Where an expression without filters and without negation evaluates as a
/// number, it evaluates to that number, with the same calls of the host.
pub proof fn law_number_agrees(
    eng: EngineV,
    e: ExprV,
    position: Seq<IdV>,
    data: JsonV,
    log: Seq<Interaction>,
    at: int,
    n: NumberV,
    k: int,
)
    requires
        e.filters.len() == 0,
        !e.negated,
        run_as_number(eng, e, position, data, log, at) == Some((Ok::<NumberV, Error>(n), k)),
    ensures
        run_expression(eng, e, position, data, log, at) == Some(
            (Ok::<JsonV, Error>(JsonV::Number(n)), k),
        ),
{
    match e.value {
        ValueV::Math(..) => {
            assert(run_base(eng, e, position, data, log, at) == Some(
                (Ok::<JsonV, Error>(JsonV::Number(n)), k),
            ));
        },
        _ => {},
    }
}

/// The default engine finds each built-in filter and function under its name,
/// and nothing under another name.
pub proof fn law_default_names(name: Seq<char>)
    ensures
        registered(default_filters(), name) == default_filter(name),
        registered(default_functions(), name) == default_function(name),
{
    reveal_with_fuel(registered, 8);
    let f = default_filters();
    let g = default_functions();
    assert(f.drop_first() =~= f.subrange(1, 7));
    assert(f.subrange(1, 7).drop_first() =~= f.subrange(2, 7));
    assert(f.subrange(2, 7).drop_first() =~= f.subrange(3, 7));
    assert(f.subrange(3, 7).drop_first() =~= f.subrange(4, 7));
    assert(f.subrange(4, 7).drop_first() =~= f.subrange(5, 7));
    assert(f.subrange(5, 7).drop_first() =~= f.subrange(6, 7));
    assert(f.subrange(6, 7).drop_first() =~= Seq::<(Seq<char>, crate::engine::FilterFn)>::empty());
    assert(g.drop_first() =~= g.subrange(1, 2));
    assert(g.subrange(1, 2).drop_first() =~= Seq::<(Seq<char>, crate::engine::FunctionFn)>::empty());
}

/// Integer division and remainder: a division that stays in the integers is
/// exact, and a remainder is smaller than the divisor and has the sign of the
/// dividend.
pub proof fn law_integer_division(a: i64, b: i64)
    ensures
        int_math(a, b, MathOperator::Division) matches Some(q) ==> q * b == a,
        int_math(a, b, MathOperator::Modulo) matches Some(r) ==> (
            trunc_div(a as int, b as int) * b + r == a
            && abs(r as int) < abs(b as int)
            && (r > 0 ==> a > 0) && (r < 0 ==> a < 0)),
{
    if b != 0 && !(a == i64::MIN && b == -1) {
        let aa = abs(a as int);
        let ab = abs(b as int);
        assert(aa == (aa / ab) * ab + aa % ab) by (nonlinear_arith)
            requires
                ab > 0,
        ;
        assert(0 <= aa % ab < ab) by (nonlinear_arith)
            requires
                ab > 0,
        ;
        if ab == 1 {
            assert(aa / ab == aa) by (nonlinear_arith)
                requires
                    ab == 1,
            ;
        } else {
            assert(0 <= aa / ab <= aa / 2) by (nonlinear_arith)
                requires
                    ab >= 2,
                    aa >= 0,
            ;
        }
        assert(in_i64(trunc_div(a as int, b as int)));
        if a < 0 && b < 0 {
            assert(trunc_div(a as int, b as int) * b == -((aa / ab) * ab)) by (nonlinear_arith)
                requires
                    trunc_div(a as int, b as int) == aa / ab,
                    b == -ab,
            ;
        } else if a < 0 {
            assert(trunc_div(a as int, b as int) * b == -((aa / ab) * ab)) by (nonlinear_arith)
                requires
                    trunc_div(a as int, b as int) == -(aa / ab),
                    b == ab,
            ;
        } else if b < 0 {
            assert(trunc_div(a as int, b as int) * b == (aa / ab) * ab) by (nonlinear_arith)
                requires
                    trunc_div(a as int, b as int) == -(aa / ab),
                    b == -ab,
            ;
        } else {
            assert(trunc_div(a as int, b as int) * b == (aa / ab) * ab);
        }
    }
}

/// Whether every object in a value, at any depth, names each member once.
pub open spec fn unique_names(v: JsonV) -> bool
    decreases v,
{
    match v {
        JsonV::Array(a) => elements_unique_names(a),
        JsonV::Object(m) => (forall|i: int, j: int|
            0 <= i < j < m.len() ==> m[i].0 != m[j].0) && members_unique_names(m),
        _ => true,
    }
}

/// [`unique_names`] of every element.
pub open spec fn elements_unique_names(a: Seq<JsonV>) -> bool
    decreases a,
{
    a.len() == 0 || (unique_names(a[0]) && elements_unique_names(a.drop_first()))
}

/// [`unique_names`] of every member value.
pub open spec fn members_unique_names(m: Seq<(Seq<char>, JsonV)>) -> bool
    decreases m,
{
    m.len() == 0 || (unique_names(m[0].1) && members_unique_names(m.drop_first()))
}

proof fn lemma_member_get_unique(m: Seq<(Seq<char>, JsonV)>, i: int)
    requires
        0 <= i < m.len(),
        forall|x: int, y: int| 0 <= x < y < m.len() ==> m[x].0 != m[y].0,
    ensures
        member_get(m, m[i].0) == Some(m[i].1),
    decreases i,
{
    if i > 0 {
        assert(m[0].0 != m[i].0);
        lemma_member_get_unique(m.drop_first(), i - 1);
    }
}

proof fn lemma_elements_reflexive(a: Seq<JsonV>)
    requires
        elements_unique_names(a),
    ensures
        crate::json::elements_equal(a, a),
    decreases a,
{
    if a.len() > 0 {
        law_json_equal_reflexive(a[0]);
        lemma_elements_reflexive(a.drop_first());
    }
}

proof fn lemma_members_reflexive(a: Seq<(Seq<char>, JsonV)>, whole: Seq<(Seq<char>, JsonV)>, k: int)
    requires
        0 <= k <= whole.len(),
        a == whole.skip(k),
        members_unique_names(a),
        forall|x: int, y: int| 0 <= x < y < whole.len() ==> whole[x].0 != whole[y].0,
    ensures
        crate::json::members_within(a, whole),
    decreases a,
{
    if a.len() > 0 {
        assert(a[0] == whole[k]);
        lemma_member_get_unique(whole, k);
        law_json_equal_reflexive(a[0].1);
        assert(a.drop_first() =~= whole.skip(k + 1));
        lemma_members_reflexive(a.drop_first(), whole, k + 1);
    }
}

/// Every JSON value whose objects name each member once equals itself.
pub proof fn law_json_equal_reflexive(v: JsonV)
    requires
        unique_names(v),
    ensures
        json_equal(v, v),
    decreases v,
{
    match v {
        JsonV::Array(a) => {
            lemma_elements_reflexive(a);
        },
        JsonV::Object(m) => {
            assert(m.skip(0) =~= m);
            lemma_members_reflexive(m, m, 0);
        },
        JsonV::Number(n) => {
            assert(number_equal(n, n));
        },
        _ => {},
    }
}

/// Data without an object that holds the evaluation keyword comes back
/// unchanged, and nothing is asked of the host.
pub proof fn law_nothing_to_evaluate(eng: EngineV, data: JsonV, log: Seq<Interaction>, at: int)
    requires
        spec_items(data, Seq::empty(), eng.eval_keyword) == Ok::<Seq<ItemV>, Error>(Seq::empty()),
    ensures
        run_evaluate(eng, data, log, at) == Some((Ok::<JsonV, Error>(data), at)),
{
}

/// Where the data holds one object to evaluate, and its expression evaluates to
/// a value, the object is replaced by that value, and a read at its position
/// gives the value back; where the expression fails, the evaluation fails.
pub proof fn law_single_formula(
    eng: EngineV,
    data: JsonV,
    item: ItemV,
    v: JsonV,
    log: Seq<Interaction>,
    at: int,
    k: int,
)
    requires
        spec_items(data, Seq::empty(), eng.eval_keyword) == Ok::<Seq<ItemV>, Error>(seq![item]),
        !item.evaluated,
        value_at(data, item.position) is Some,
    ensures
        run_eval(eng, item.expression, item.position, data, log, at) == Some((Ok::<JsonV, Error>(v), k))
            ==> run_evaluate(eng, data, log, at) == Some(
            (Ok::<JsonV, Error>(spec_replace(data, item.position, v)), k),
        ) && value_at(spec_replace(data, item.position, v), item.position) == Some(v),
        run_eval(eng, item.expression, item.position, data, log, at) matches Some((Err(_), j))
            ==> run_evaluate(eng, data, log, at) == Some(
            (Err::<JsonV, Error>(Error::UnableToEvaluate), j),
        ),
{
    let items = seq![item];
    if run_eval(eng, item.expression, item.position, data, log, at) == Some((Ok::<JsonV, Error>(v), k)) {
        lemma_replace_then_read(data, item.position, v);
        let items2 = items.update(0, mark_evaluated(items[0]));
        assert(run_pass(eng, spec_replace(data, item.position, v), items2, 1, 0, 1, log, k) == Some(
            (spec_replace(data, item.position, v), items2, 0nat, 1nat, k),
        ));
    }
    match run_eval(eng, item.expression, item.position, data, log, at) {
        Some((Err(_), j)) => {
            assert(run_pass(eng, data, items, 1, 1, 0, log, j) == Some((data, items, 1nat, 0nat, j)));
        },
        _ => {},
    }
}

/// `this` denotes the value at the position of the expression.
pub proof fn law_this_is_the_position(data: JsonV, position: Seq<IdV>)
    ensures
        lookup(data, seq![IdV::This], position) == value_at(data, position),
{
    assert(seq![IdV::This].drop_first() =~= Seq::<IdV>::empty());
}

/// `super.name` denotes the member `name` of the object one level up from the
/// position of the expression.
pub proof fn law_super_is_one_level_up(data: JsonV, parent: Seq<IdV>, step: IdV, name: Seq<char>)
    ensures
        lookup(data, seq![IdV::Super, IdV::Name(name)], parent.push(step)) == value_at(
            data,
            parent.push(IdV::Name(name)),
        ),
{
    let id = seq![IdV::Super, IdV::Name(name)];
    assert(parent.push(step).drop_last() =~= parent);
    assert(id.drop_first() =~= seq![IdV::Name(name)]);
    assert(seq![IdV::Name(name)].drop_first() =~= Seq::<IdV>::empty());
    assert(walk(parent.push(IdV::Name(name)), Seq::<IdV>::empty()) == Some(parent.push(IdV::Name(name))));
    assert(walk(parent, seq![IdV::Name(name)]) == Some(parent.push(IdV::Name(name))));
    assert(walk(parent.push(step), id) == Some(parent.push(IdV::Name(name))));
}

/// An identifier that does not start with `this` or `super` denotes the same
/// value wherever the expression stands.
pub proof fn law_absolute_identifiers(data: JsonV, id: Seq<IdV>, p: Seq<IdV>, q: Seq<IdV>)
    requires
        id.len() == 0 || (id[0] != IdV::This && id[0] != IdV::Super),
    ensures
        lookup(data, id, p) == lookup(data, id, q),
{
}


/// Whether a value is a document as JSON texts make them: every object names
/// each member once, and every array is short enough to be indexed with an
/// `isize`.
pub open spec fn document(v: JsonV) -> bool
    decreases v,
{
    match v {
        JsonV::Array(a) => a.len() <= isize::MAX && elements_documents(a),
        JsonV::Object(m) => (forall|i: int, j: int| 0 <= i < j < m.len() ==> m[i].0 != m[j].0)
            && members_documents(m),
        _ => true,
    }
}

/// [`document`] of every element.
pub open spec fn elements_documents(a: Seq<JsonV>) -> bool
    decreases a,
{
    a.len() == 0 || (document(a[0]) && elements_documents(a.drop_first()))
}

/// [`document`] of every member value.
pub open spec fn members_documents(m: Seq<(Seq<char>, JsonV)>) -> bool
    decreases m,
{
    m.len() == 0 || (document(m[0].1) && members_documents(m.drop_first()))
}

proof fn lemma_elements_documents(a: Seq<JsonV>, i: int)
    requires
        elements_documents(a),
        0 <= i < a.len(),
    ensures
        document(a[i]),
    decreases i,
{
    if i > 0 {
        lemma_elements_documents(a.drop_first(), i - 1);
    }
}

proof fn lemma_members_documents(m: Seq<(Seq<char>, JsonV)>, i: int)
    requires
        members_documents(m),
        0 <= i < m.len(),
    ensures
        document(m[i].1),
    decreases i,
{
    if i > 0 {
        lemma_members_documents(m.drop_first(), i - 1);
    }
}

/// The items of a value that stands at `position` in `root`: each stands below
/// `position` at a path that leads to a value, none is evaluated yet, and no
/// two lead into each other.
pub open spec fn items_placed(root: JsonV, position: Seq<IdV>, its: Seq<ItemV>) -> bool {
    &&& forall|i: int|
        0 <= i < its.len() ==> position.is_prefix_of(#[trigger] its[i].position) && value_at(
            root,
            its[i].position,
        ) is Some && !its[i].evaluated
    &&& forall|i: int, j: int|
        0 <= i < j < its.len() ==> apart(#[trigger] its[i].position, #[trigger] its[j].position)
}

proof fn lemma_items_placed(root: JsonV, value: JsonV, position: Seq<IdV>, keyword: Seq<char>)
    requires
        value_at(root, position) == Some(value),
        document(value),
    ensures
        spec_items(value, position, keyword) matches Ok(its) ==> items_placed(root, position, its),
    decreases value, 1nat,
{
    match value {
        JsonV::Array(a) => {
            assert forall|idx: int| 0 <= idx < a.len() implies value_at(
                root,
                position.push(IdV::Index((0 + idx) as isize)),
            ) == Some(#[trigger] a[idx]) && document(a[idx]) by {
                let step = IdV::Index((0 + idx) as isize);
                lemma_value_at_push(root, position, step);
                assert((idx as isize) as int == idx);
                assert(seq![step][0] == step);
                assert(seq![step].drop_first() =~= Seq::<IdV>::empty());
                assert(value_at(a[idx], Seq::<IdV>::empty()) == Some(a[idx]));
                assert(value_at(value, seq![step]) == Some(a[idx]));
                assert(value_at(root, position.push(step)) == Some(a[idx]));
                lemma_elements_documents(a, idx);
            }
            lemma_elements_placed(root, a, 0, position, keyword);
        },
        JsonV::Object(m) => {
            match spec_item(value, position, keyword) {
                Ok(Some(it)) => {
                    assert(position.is_prefix_of(position)) by {
                        assert(position.subrange(0, position.len() as int) =~= position);
                    }
                },
                Ok(None) => {
                    assert forall|j: int| 0 <= j < m.len() implies value_at(
                        root,
                        position.push(IdV::Name(m[j].0)),
                    ) == Some(#[trigger] m[j].1) && document(m[j].1) by {
                        let step = IdV::Name(m[j].0);
                        lemma_value_at_push(root, position, step);
                        lemma_member_get_unique(m, j);
                        assert(seq![step][0] == step);
                        assert(seq![step].drop_first() =~= Seq::<IdV>::empty());
                        assert(value_at(m[j].1, Seq::<IdV>::empty()) == Some(m[j].1));
                        assert(value_at(value, seq![step]) == Some(m[j].1));
                        assert(value_at(root, position.push(step)) == Some(m[j].1));
                        lemma_members_documents(m, j);
                    }
                    lemma_members_placed(root, m, position, keyword);
                },
                Err(_) => {},
            }
        },
        _ => {},
    }
}

/// A path below `p.push(step)` is below `p`, with `step` next.
proof fn lemma_prefix_push(p: Seq<IdV>, step: IdV, q: Seq<IdV>)
    requires
        p.push(step).is_prefix_of(q),
    ensures
        p.is_prefix_of(q),
        q.len() > p.len(),
        q[p.len() as int] == step,
{
    assert(q.subrange(0, p.len() as int + 1)[p.len() as int] == step);
    assert(q.subrange(0, p.len() as int) =~= q.subrange(0, p.len() as int + 1).subrange(0, p.len() as int));
    assert(p.push(step).subrange(0, p.len() as int) =~= p);
}

/// Whether a step is an index of `start` or more.
pub open spec fn index_from(step: IdV, start: int) -> bool {
    match step {
        IdV::Index(x) => start <= x,
        _ => false,
    }
}

proof fn lemma_elements_placed(
    root: JsonV,
    a: Seq<JsonV>,
    start: int,
    position: Seq<IdV>,
    keyword: Seq<char>,
)
    requires
        0 <= start,
        start + a.len() <= isize::MAX + 1,
        forall|idx: int|
            0 <= idx < a.len() ==> value_at(root, position.push(IdV::Index((start + idx) as isize)))
                == Some(#[trigger] a[idx]) && document(a[idx]),
    ensures
        spec_items_elements(a, start, position, keyword) matches Ok(its) ==> items_placed(
            root,
            position,
            its,
        ) && forall|i: int|
            0 <= i < its.len() ==> position.len() < (#[trigger] its[i].position).len() && index_from(
                its[i].position[position.len() as int],
                start,
            ),
    decreases a, 0nat,
{
    if a.len() > 0 {
        let head_pos = position.push(IdV::Index(start as isize));
        assert((start + 0) as isize == start as isize);
        lemma_items_placed(root, a[0], head_pos, keyword);
        assert forall|idx: int| 0 <= idx < a.drop_first().len() implies value_at(
            root,
            position.push(IdV::Index(((start + 1) + idx) as isize)),
        ) == Some(#[trigger] a.drop_first()[idx]) && document(a.drop_first()[idx]) by {
            assert(a.drop_first()[idx] == a[idx + 1]);
            assert((start + (idx + 1)) == (start + 1) + idx);
        }
        lemma_elements_placed(root, a.drop_first(), start + 1, position, keyword);
        match spec_items(a[0], head_pos, keyword) {
            Ok(h) => {
                match spec_items_elements(a.drop_first(), start + 1, position, keyword) {
                    Ok(t) => {
                        let its = h + t;
                        assert forall|i: int| 0 <= i < its.len() implies position.is_prefix_of(
                            #[trigger] its[i].position,
                        ) && value_at(root, its[i].position) is Some && !its[i].evaluated
                            && position.len() < its[i].position.len() && index_from(its[i].position[position.len() as int], start) by {
                            if i < h.len() {
                                assert(its[i] == h[i]);
                                lemma_prefix_push(position, IdV::Index(start as isize), h[i].position);
                            } else {
                                assert(its[i] == t[i - h.len()]);
                            }
                        }
                        assert forall|i: int, j: int| 0 <= i < j < its.len() implies apart(
                            #[trigger] its[i].position,
                            #[trigger] its[j].position,
                        ) by {
                            if j < h.len() {
                                assert(its[i] == h[i]);
                                assert(its[j] == h[j]);
                            } else if i >= h.len() {
                                assert(its[i] == t[i - h.len()]);
                                assert(its[j] == t[j - h.len()]);
                            } else {
                                assert(its[i] == h[i]);
                                assert(its[j] == t[j - h.len()]);
                                lemma_prefix_push(position, IdV::Index(start as isize), h[i].position);
                                let n = position.len() as int;
                                assert(index_from(t[j - h.len()].position[n], start + 1));
                                assert((start as isize) as int == start);
                                assert(its[i].position[n] != its[j].position[n]);
                            }
                        }
                    },
                    Err(_) => {},
                }
            },
            Err(_) => {},
        }
    }
}

proof fn lemma_members_placed(
    root: JsonV,
    m: Seq<(Seq<char>, JsonV)>,
    position: Seq<IdV>,
    keyword: Seq<char>,
)
    requires
        forall|i: int, j: int| 0 <= i < j < m.len() ==> m[i].0 != m[j].0,
        forall|j: int|
            0 <= j < m.len() ==> value_at(root, position.push(IdV::Name(m[j].0))) == Some(
                #[trigger] m[j].1,
            ) && document(m[j].1),
    ensures
        spec_items_members(m, position, keyword) matches Ok(its) ==> items_placed(
            root,
            position,
            its,
        ) && forall|i: int|
            0 <= i < its.len() ==> position.len() < (#[trigger] its[i].position).len() && exists|j: int|
                0 <= j < m.len() && its[i].position[position.len() as int] == IdV::Name(
                    #[trigger] m[j].0,
                ),
    decreases m, 0nat,
{
    if m.len() > 0 {
        let head_pos = position.push(IdV::Name(m[0].0));
        lemma_items_placed(root, m[0].1, head_pos, keyword);
        let rest = m.drop_first();
        assert forall|j: int| 0 <= j < rest.len() implies value_at(
            root,
            position.push(IdV::Name(rest[j].0)),
        ) == Some(#[trigger] rest[j].1) && document(rest[j].1) by {
            assert(rest[j] == m[j + 1]);
        }
        assert forall|i: int, j: int| 0 <= i < j < rest.len() implies rest[i].0 != rest[j].0 by {
            assert(rest[i] == m[i + 1]);
            assert(rest[j] == m[j + 1]);
        }
        lemma_members_placed(root, rest, position, keyword);
        match spec_items(m[0].1, head_pos, keyword) {
            Ok(h) => {
                match spec_items_members(rest, position, keyword) {
                    Ok(t) => {
                        let its = h + t;
                        let n = position.len() as int;
                        assert forall|i: int| 0 <= i < its.len() implies position.is_prefix_of(
                            #[trigger] its[i].position,
                        ) && value_at(root, its[i].position) is Some && !its[i].evaluated
                            && position.len() < its[i].position.len()
                            && exists|j: int| 0 <= j < m.len() && its[i].position[n] == IdV::Name(#[trigger] m[j].0) by {
                            if i < h.len() {
                                assert(its[i] == h[i]);
                                lemma_prefix_push(position, IdV::Name(m[0].0), h[i].position);
                                assert(its[i].position[n] == IdV::Name(m[0].0));
                            } else {
                                assert(its[i] == t[i - h.len()]);
                                let j = choose|j: int| 0 <= j < rest.len() && t[i - h.len()].position[n] == IdV::Name(#[trigger] rest[j].0);
                                assert(rest[j] == m[j + 1]);
                                assert(its[i].position[n] == IdV::Name(m[j + 1].0));
                            }
                        }
                        assert forall|i: int, j: int| 0 <= i < j < its.len() implies apart(
                            #[trigger] its[i].position,
                            #[trigger] its[j].position,
                        ) by {
                            if j < h.len() {
                                assert(its[i] == h[i]);
                                assert(its[j] == h[j]);
                            } else if i >= h.len() {
                                assert(its[i] == t[i - h.len()]);
                                assert(its[j] == t[j - h.len()]);
                            } else {
                                assert(its[i] == h[i]);
                                assert(its[j] == t[j - h.len()]);
                                lemma_prefix_push(position, IdV::Name(m[0].0), h[i].position);
                                let x = choose|x: int| 0 <= x < rest.len() && t[j - h.len()].position[n] == IdV::Name(#[trigger] rest[x].0);
                                assert(rest[x] == m[x + 1]);
                                assert(m[0].0 != m[x + 1].0);
                                assert(its[i].position[n] != its[j].position[n]);
                            }
                        }
                    },
                    Err(_) => {},
                }
            },
            Err(_) => {},
        }
    }
}


/// Whether `v` is a value that `expression`, evaluated at `position` against
/// some data, gave with the answers of the host read from `log`.
pub open spec fn produced(
    eng: EngineV,
    log: Seq<Interaction>,
    expression: Seq<char>,
    position: Seq<IdV>,
    v: JsonV,
) -> bool {
    exists|d: JsonV, j: int| gives(#[trigger] run_eval(eng, expression, position, d, log, j), v)
}

/// Whether a run succeeds with `v`.
pub open spec fn gives(r: Run<JsonV>, v: JsonV) -> bool {
    match r {
        Some((Ok(w), _)) => w == v,
        _ => false,
    }
}

/// Whether the value at `position` in `d` is one that `expression` gave; see
/// [`produced`].
pub open spec fn produced_at(
    eng: EngineV,
    log: Seq<Interaction>,
    d: JsonV,
    expression: Seq<char>,
    position: Seq<IdV>,
) -> bool {
    match value_at(d, position) {
        Some(v) => produced(eng, log, expression, position, v),
        None => false,
    }
}

/// Every item stands at a path that leads to a value, and every evaluated one
/// holds a value its expression gave.
spec fn settled(eng: EngineV, log: Seq<Interaction>, d: JsonV, items: Seq<ItemV>) -> bool {
    forall|i: int|
        0 <= i < items.len() ==> value_at(d, #[trigger] items[i].position) is Some && (
        items[i].evaluated ==> produced_at(eng, log, d, items[i].expression, items[i].position))
}

/// No two items lead into each other.
spec fn all_apart(items: Seq<ItemV>) -> bool {
    forall|i: int, j: int|
        0 <= i < items.len() && 0 <= j < items.len() && i != j ==> apart(
            #[trigger] items[i].position,
            #[trigger] items[j].position,
        )
}

/// The same items, evaluated or not.
spec fn same_items(a: Seq<ItemV>, b: Seq<ItemV>) -> bool {
    a.len() == b.len() && forall|i: int|
        0 <= i < a.len() ==> (#[trigger] b[i]).position == a[i].position && b[i].expression
            == a[i].expression
}

proof fn lemma_pass_settles(
    eng: EngineV,
    d: JsonV,
    items: Seq<ItemV>,
    i: int,
    fails: nat,
    successes: nat,
    log: Seq<Interaction>,
    at: int,
)
    requires
        0 <= i,
        settled(eng, log, d, items),
        all_apart(items),
    ensures
        run_pass(eng, d, items, i, fails, successes, log, at) matches Some((d2, its2, f2, s2, k)) ==> (
        settled(eng, log, d2, its2) && same_items(items, its2) && fails <= f2 && (f2 == fails
            ==> forall|j: int| i <= j < its2.len() ==> #[trigger] its2[j].evaluated) && (forall|j: int|
            0 <= j < i && j < items.len() ==> #[trigger] its2[j] == items[j])),
    decreases items.len() - i,
{
    if i < items.len() {
        if items[i].evaluated {
            lemma_pass_settles(eng, d, items, i + 1, fails, successes, log, at);
        } else {
            match run_eval(eng, items[i].expression, items[i].position, d, log, at) {
                Some((Ok(v), k)) => {
                    let d1 = spec_replace(d, items[i].position, v);
                    let items1 = items.update(i, mark_evaluated(items[i]));
                    lemma_replace_then_read(d, items[i].position, v);
                    assert forall|j: int| 0 <= j < items1.len() implies value_at(
                        d1,
                        #[trigger] items1[j].position,
                    ) is Some && (items1[j].evaluated ==> produced_at(
                        eng,
                        log,
                        d1,
                        items1[j].expression,
                        items1[j].position,
                    )) by {
                        if j != i {
                            assert(items1[j] == items[j]);
                            lemma_replace_apart(d, items[i].position, items[j].position, v);
                        } else {
                            assert(produced(eng, log, items[i].expression, items[i].position, v));
                        }
                    }
                    assert forall|x: int, y: int|
                        0 <= x < items1.len() && 0 <= y < items1.len() && x != y implies apart(
                        #[trigger] items1[x].position,
                        #[trigger] items1[y].position,
                    ) by {
                        assert(items1[x].position == items[x].position);
                        assert(items1[y].position == items[y].position);
                    }
                    lemma_pass_settles(eng, d1, items1, i + 1, fails, successes + 1, log, k);
                },
                Some((Err(_), k)) => {
                    lemma_pass_settles(eng, d, items, i + 1, fails + 1, successes, log, k);
                },
                None => {},
            }
        }
    }
}

proof fn lemma_eval_items_settles(
    eng: EngineV,
    d: JsonV,
    items: Seq<ItemV>,
    log: Seq<Interaction>,
    at: int,
)
    requires
        settled(eng, log, d, items),
        all_apart(items),
    ensures
        run_eval_items(eng, d, items, log, at) matches Some((Ok(d2), k)) ==> forall|j: int|
            0 <= j < items.len() ==> produced_at(
                eng,
                log,
                d2,
                #[trigger] items[j].expression,
                items[j].position,
            ),
    decreases pending(items),
{
    lemma_pass_settles(eng, d, items, 0, 0, 0, log, at);
    match run_pass(eng, d, items, 0, 0, 0, log, at) {
        Some((d1, its1, fails, successes, k)) => {
            if fails == 0 {
                assert forall|j: int| 0 <= j < items.len() implies produced_at(
                    eng,
                    log,
                    d1,
                    #[trigger] items[j].expression,
                    items[j].position,
                ) by {
                    assert(its1[j].evaluated);
                    assert(its1[j].position == items[j].position);
                }
            } else if successes > 0 && pending(its1) < pending(items) {
                assert forall|x: int, y: int|
                    0 <= x < its1.len() && 0 <= y < its1.len() && x != y implies apart(
                    #[trigger] its1[x].position,
                    #[trigger] its1[y].position,
                ) by {
                    assert(its1[x].position == items[x].position);
                    assert(its1[y].position == items[y].position);
                }
                lemma_eval_items_settles(eng, d1, its1, log, k);
                match run_eval_items(eng, d1, its1, log, k) {
                    Some((Ok(d2), k2)) => {
                        assert forall|j: int| 0 <= j < items.len() implies produced_at(
                            eng,
                            log,
                            d2,
                            #[trigger] items[j].expression,
                            items[j].position,
                        ) by {
                            assert(its1[j].position == items[j].position);
                            assert(produced_at(eng, log, d2, its1[j].expression, its1[j].position));
                        }
                    },
                    _ => {},
                }
            }
        },
        None => {},
    }
}

/// Where evaluating a document succeeds, every object in it that holds the
/// evaluation keyword has given way to a value that its expression evaluated
/// to at that object's position, with answers of the host from the log.
pub proof fn law_every_formula_is_replaced(
    eng: EngineV,
    data: JsonV,
    items: Seq<ItemV>,
    log: Seq<Interaction>,
    at: int,
    d: JsonV,
    k: int,
)
    requires
        document(data),
        spec_items(data, Seq::empty(), eng.eval_keyword) == Ok::<Seq<ItemV>, Error>(items),
        run_evaluate(eng, data, log, at) == Some((Ok::<JsonV, Error>(d), k)),
    ensures
        forall|i: int|
            0 <= i < items.len() ==> produced_at(
                eng,
                log,
                d,
                #[trigger] items[i].expression,
                items[i].position,
            ),
{
    if items.len() > 0 {
        lemma_items_placed(data, data, Seq::empty(), eng.eval_keyword);
        assert forall|x: int, y: int|
            0 <= x < items.len() && 0 <= y < items.len() && x != y implies apart(
            #[trigger] items[x].position,
            #[trigger] items[y].position,
        ) by {
            if y < x {
                lemma_apart_symmetric(items[y].position, items[x].position);
            }
        }
        lemma_eval_items_settles(eng, data, items, log, at);
    }
}


/// An integer, a float, a string, an arithmetic expression or a string
/// concatenation is no boolean: evaluating it as one fails at once, and
/// nothing is asked of the host.
pub proof fn law_not_a_boolean(
    eng: EngineV,
    v: ValueV,
    position: Seq<IdV>,
    data: JsonV,
    log: Seq<Interaction>,
    at: int,
)
    requires
        v is Integer || v is Float || v is Str || v is Math || v is Concat,
    ensures
        run_value_as_bool(eng, v, position, data, log, at) == Some(
            (Err::<bool, Error>(Error::NotABool(value_kind(v))), at),
        ),
{
}

/// Arithmetic on two integers whose exact result is an integer that the engine
/// keeps gives that integer, and asks nothing of the host.
pub proof fn law_integer_math(a: i64, b: i64, operator: MathOperator, log: Seq<Interaction>, at: int)
    ensures
        int_math(a, b, operator) matches Some(x) ==> run_math(
            NumberV::Int(a),
            NumberV::Int(b),
            operator,
            log,
            at,
        ) == Some((Ok::<NumberV, Error>(NumberV::Int(x)), at)),
        operator == MathOperator::Addition && in_i64(a + b) ==> int_math(a, b, operator) == Some(
            (a + b) as i64,
        ),
        operator == MathOperator::Subtraction && in_i64(a - b) ==> int_math(a, b, operator) == Some(
            (a - b) as i64,
        ),
        operator == MathOperator::Multiplication && in_i64(a * b) ==> int_math(a, b, operator)
            == Some((a * b) as i64),
        operator == MathOperator::Modulo && b != 0 && !(a == i64::MIN && b == -1) ==> int_math(
            a,
            b,
            operator,
        ) == Some(trunc_rem(a as int, b as int) as i64),
        operator == MathOperator::Division && b != 0 && !(a == i64::MIN && b == -1) && trunc_rem(
            a as int,
            b as int,
        ) == 0 ==> int_math(a, b, operator) == Some(trunc_div(a as int, b as int) as i64),
{
}

/// Addition and multiplication of integers do not depend on the order of the
/// operands, where the engine keeps the result an integer.
pub proof fn law_integer_math_commutes(a: i64, b: i64, log: Seq<Interaction>, at: int)
    ensures
        int_math(a, b, MathOperator::Addition) == int_math(b, a, MathOperator::Addition),
        int_math(a, b, MathOperator::Multiplication) == int_math(b, a, MathOperator::Multiplication),
        int_math(a, b, MathOperator::Addition) is Some ==> run_math(
            NumberV::Int(a),
            NumberV::Int(b),
            MathOperator::Addition,
            log,
            at,
        ) == run_math(NumberV::Int(b), NumberV::Int(a), MathOperator::Addition, log, at),
        int_math(a, b, MathOperator::Multiplication) is Some ==> run_math(
            NumberV::Int(a),
            NumberV::Int(b),
            MathOperator::Multiplication,
            log,
            at,
        ) == run_math(NumberV::Int(b), NumberV::Int(a), MathOperator::Multiplication, log, at),
{
    assert((a as int) * (b as int) == (b as int) * (a as int)) by (nonlinear_arith);
}

/// A null, a boolean, a number or a string holds nothing to evaluate.
pub proof fn law_scalars_hold_no_items(v: JsonV, position: Seq<IdV>, keyword: Seq<char>)
    requires
        !(v is Array) && !(v is Object),
    ensures
        spec_items(v, position, keyword) == Ok::<Seq<ItemV>, Error>(Seq::empty()),
{
}

/// The items of a document stand at paths that lead to values, none is
/// evaluated yet, and no two lead into each other.
pub proof fn law_items_apart(data: JsonV, keyword: Seq<char>, items: Seq<ItemV>)
    requires
        document(data),
        spec_items(data, Seq::empty(), keyword) == Ok::<Seq<ItemV>, Error>(items),
    ensures
        items_placed(data, Seq::empty(), items),
{
    lemma_items_placed(data, data, Seq::empty(), keyword);
}


/// An item not evaluated yet is pending.
proof fn lemma_pending_positive(items: Seq<ItemV>, j: int)
    requires
        0 <= j < items.len(),
        !items[j].evaluated,
    ensures
        pending(items) >= 1,
    decreases j,
{
    if j > 0 {
        lemma_pending_positive(items.drop_first(), j - 1);
    }
}

/// No more items are pending than there are items.
proof fn lemma_pending_at_most(items: Seq<ItemV>)
    ensures
        pending(items) <= items.len(),
    decreases items.len(),
{
    if items.len() > 0 {
        lemma_pending_at_most(items.drop_first());
    }
}

/// Each success of a pass leaves one item fewer pending, a pass changes no item
/// before the one it starts at, and an item that fails stays pending.
pub proof fn law_pass_progress(
    eng: EngineV,
    data: JsonV,
    items: Seq<ItemV>,
    i: int,
    fails: nat,
    successes: nat,
    log: Seq<Interaction>,
    at: int,
)
    requires
        0 <= i,
    ensures
        run_pass(eng, data, items, i, fails, successes, log, at) matches Some((d, its, f, s, k))
            ==> pending(its) + s == pending(items) + successes && its.len() == items.len() && s
            >= successes && f >= fails && (forall|j: int|
            0 <= j < i && j < items.len() ==> #[trigger] its[j] == items[j]) && (f > fails
            ==> pending(its) >= 1),
    decreases items.len() - i,
{
    if i < items.len() {
        if items[i].evaluated {
            law_pass_progress(eng, data, items, i + 1, fails, successes, log, at);
        } else {
            match run_eval(eng, items[i].expression, items[i].position, data, log, at) {
                Some((Ok(v), k)) => {
                    lemma_pending_mark(items, i);
                    let items1 = items.update(i, mark_evaluated(items[i]));
                    law_pass_progress(
                        eng,
                        spec_replace(data, items[i].position, v),
                        items1,
                        i + 1,
                        fails,
                        successes + 1,
                        log,
                        k,
                    );
                    match run_pass(eng, spec_replace(data, items[i].position, v), items1, i + 1, fails, successes + 1, log, k) {
                        Some((d, its, f, s2, k2)) => {
                            assert forall|j: int| 0 <= j < i && j < items.len() implies #[trigger] its[j] == items[j] by {
                                assert(its[j] == items1[j]);
                            }
                        },
                        None => {},
                    }
                },
                Some((Err(_), k)) => {
                    law_pass_progress(eng, data, items, i + 1, fails + 1, successes, log, k);
                    match run_pass(eng, data, items, i + 1, fails + 1, successes, log, k) {
                        Some((d, its, f, s2, k2)) => {
                            assert(its[i] == items[i]);
                            lemma_pending_positive(its, i);
                        },
                        None => {},
                    }
                },
                None => {},
            }
        }
    }
}

/// The number of passes [`run_eval_items`] makes over the items.
pub open spec fn run_passes(
    eng: EngineV,
    data: JsonV,
    items: Seq<ItemV>,
    log: Seq<Interaction>,
    at: int,
) -> nat
    decreases pending(items),
{
    match run_pass(eng, data, items, 0, 0, 0, log, at) {
        Some((d, its, fails, successes, k)) => if fails == 0 || successes == 0 {
            1
        } else if pending(its) < pending(items) {
            1 + run_passes(eng, d, its, log, k)
        } else {
            1
        },
        None => 1,
    }
}

/// The passes over `n` items, of which some are pending, number at most the
/// pending ones, and at most `max(1, n)`: a pass after which the evaluation
/// goes on has evaluated one item at least and left one at least pending.
pub proof fn law_passes_bound(
    eng: EngineV,
    data: JsonV,
    items: Seq<ItemV>,
    log: Seq<Interaction>,
    at: int,
)
    ensures
        run_passes(eng, data, items, log, at) <= if pending(items) == 0 {
            1
        } else {
            pending(items)
        },
        run_passes(eng, data, items, log, at) <= if items.len() == 0 {
            1
        } else {
            items.len()
        },
    decreases pending(items),
{
    lemma_pending_at_most(items);
    law_pass_progress(eng, data, items, 0, 0, 0, log, at);
    match run_pass(eng, data, items, 0, 0, 0, log, at) {
        Some((d, its, fails, successes, k)) => {
            if fails != 0 && successes != 0 && pending(its) < pending(items) {
                law_passes_bound(eng, d, its, log, k);
            }
        },
        None => {},
    }
}


/// An object that holds the evaluation keyword with a string value is an item,
/// whatever other members it has: it stands at its own position, its
/// expression is that string, and nothing inside it is searched further.
pub proof fn law_keyword_object_is_an_item(
    m: Seq<(Seq<char>, JsonV)>,
    position: Seq<IdV>,
    keyword: Seq<char>,
    s: Seq<char>,
)
    requires
        member_get(m, keyword) == Some(JsonV::Str(s)),
    ensures
        spec_items(JsonV::Object(m), position, keyword) == Ok::<Seq<ItemV>, Error>(
            seq![ItemV { position, expression: s, evaluated: false }],
        ),
{
}

/// An object whose keyword member is anything but a string is an error.
pub proof fn law_keyword_must_be_a_string(
    m: Seq<(Seq<char>, JsonV)>,
    position: Seq<IdV>,
    keyword: Seq<char>,
    v: JsonV,
)
    requires
        member_get(m, keyword) == Some(v),
        !(v is Str),
    ensures
        spec_items(JsonV::Object(m), position, keyword) == Err::<Seq<ItemV>, Error>(
            Error::EvalKeywordNotString,
        ),
{
}

/// Two integers that floats hold exactly are ordered as integers: each of the
/// four comparisons gives what it says of `a` and `b`, and asks nothing of the
/// host; so `x <= x` and `x >= x` hold and `x < x` and `x > x` do not.
pub proof fn law_integer_order(a: i64, b: i64, log: Seq<Interaction>, at: int)
    requires
        exact_as_float(a),
        exact_as_float(b),
    ensures
        run_compare(LogicalOperator::LowerThan, NumberV::Int(a), NumberV::Int(b), log, at) == Some(
            (a < b, at),
        ),
        run_compare(LogicalOperator::LowerThanOrEqual, NumberV::Int(a), NumberV::Int(b), log, at)
            == Some((a <= b, at)),
        run_compare(LogicalOperator::GreaterThan, NumberV::Int(a), NumberV::Int(b), log, at) == Some(
            (a > b, at),
        ),
        run_compare(LogicalOperator::GreaterThanOrEqual, NumberV::Int(a), NumberV::Int(b), log, at)
            == Some((a >= b, at)),
{
}

/// A comparison of two expressions that evaluate, without asking the host, to
/// integers that floats hold exactly gives the order of those integers.
pub proof fn law_integer_comparisons(
    eng: EngineV,
    lhs: ExprV,
    rhs: ExprV,
    position: Seq<IdV>,
    data: JsonV,
    log: Seq<Interaction>,
    at: int,
    a: i64,
    b: i64,
)
    requires
        run_as_number(eng, lhs, position, data, log, at) == Some((Ok::<NumberV, Error>(NumberV::Int(a)), at)),
        run_as_number(eng, rhs, position, data, log, at) == Some((Ok::<NumberV, Error>(NumberV::Int(b)), at)),
        exact_as_float(a),
        exact_as_float(b),
    ensures
        run_value_as_bool(eng, ValueV::Logical(Box::new(lhs), Box::new(rhs), LogicalOperator::LowerThan), position, data, log, at)
            == Some((Ok::<bool, Error>(a < b), at)),
        run_value_as_bool(eng, ValueV::Logical(Box::new(lhs), Box::new(rhs), LogicalOperator::LowerThanOrEqual), position, data, log, at)
            == Some((Ok::<bool, Error>(a <= b), at)),
        run_value_as_bool(eng, ValueV::Logical(Box::new(lhs), Box::new(rhs), LogicalOperator::GreaterThan), position, data, log, at)
            == Some((Ok::<bool, Error>(a > b), at)),
        run_value_as_bool(eng, ValueV::Logical(Box::new(lhs), Box::new(rhs), LogicalOperator::GreaterThanOrEqual), position, data, log, at)
            == Some((Ok::<bool, Error>(a >= b), at)),
{
    law_integer_order(a, b, log, at);
}

/// Equality of two values that are not arrays or objects is sameness, but for
/// the two texts of a decimal zero; two arrays are equal exactly where they have
/// the same length and equal elements.
pub proof fn law_equality_is_sameness(a: JsonV, b: JsonV)
    ensures
        !(a is Array) && !(a is Object) ==> (json_equal(a, b) <==> (a == b || (a matches JsonV::Number(
            NumberV::Decimal(s),
        ) && b matches JsonV::Number(NumberV::Decimal(t)) && is_zero_text(s) && is_zero_text(t)))),
        a is Array && b is Array ==> (json_equal(a, b) <==> (a->Array_0.len() == b->Array_0.len()
            && forall|i: int| 0 <= i < a->Array_0.len() ==> #[trigger] json_equal(a->Array_0[i], b->Array_0[i]))),
        (a is Array) != (b is Array) || (a is Object) != (b is Object) ==> !json_equal(a, b),
{
    match (a, b) {
        (JsonV::Array(x), JsonV::Array(y)) => {
            lemma_elements_equal(x, y);
        },
        _ => {},
    }
}

/// `==` of two values that are not both numbers says whether they are equal
/// as JSON values, and asks nothing of the host; two integers are equal where
/// they are the same integer.
pub proof fn law_values_equal(a: JsonV, b: JsonV, log: Seq<Interaction>, at: int)
    ensures
        !(a is Number && b is Number) ==> run_values_equal(a, b, log, at) == Some((json_equal(a, b), at)),
        a matches JsonV::Number(NumberV::Int(x)) ==> (b matches JsonV::Number(NumberV::Int(y)) ==> run_values_equal(a, b, log, at) == Some((x == y, at))),
{
}

/// `lhs == rhs` and `lhs != rhs` of two expressions that evaluate, without
/// asking the host, to booleans say whether the booleans are the same.
pub proof fn law_boolean_equality(
    eng: EngineV,
    lhs: ExprV,
    rhs: ExprV,
    position: Seq<IdV>,
    data: JsonV,
    log: Seq<Interaction>,
    at: int,
    x: bool,
    y: bool,
)
    requires
        run_expression(eng, lhs, position, data, log, at) == Some((Ok::<JsonV, Error>(JsonV::Bool(x)), at)),
        run_expression(eng, rhs, position, data, log, at) == Some((Ok::<JsonV, Error>(JsonV::Bool(y)), at)),
    ensures
        run_value_as_bool(eng, ValueV::Logical(Box::new(lhs), Box::new(rhs), LogicalOperator::Equal), position, data, log, at)
            == Some((Ok::<bool, Error>(x == y), at)),
        run_value_as_bool(eng, ValueV::Logical(Box::new(lhs), Box::new(rhs), LogicalOperator::NotEqual), position, data, log, at)
            == Some((Ok::<bool, Error>(x != y), at)),
{
    law_equality_is_sameness(JsonV::Bool(x), JsonV::Bool(y));
}

/// Arithmetic that does not stay in the integers asks the host for
/// `lhs operator rhs`, with the operands in their order, and takes its answer:
/// the run reads exactly one entry of the log, and that entry is this call.
pub proof fn law_float_math_asks_in_order(
    lhs: NumberV,
    rhs: NumberV,
    operator: MathOperator,
    log: Seq<Interaction>,
    at: int,
    answer: Result<NumberV, Error>,
)
    requires
        match (lhs, rhs) {
            (NumberV::Int(a), NumberV::Int(b)) => int_math(a, b, operator) is None,
            _ => true,
        },
    ensures
        run_math(lhs, rhs, operator, log, at) matches Some((r, k)) ==> k == at + 1 && 0 <= at
            < log.len() && log[at] == Interaction::Math(operator, lhs, rhs, r),
        0 <= at < log.len() && log[at] == Interaction::Math(operator, lhs, rhs, answer) ==> run_math(
            lhs,
            rhs,
            operator,
            log,
            at,
        ) == Some((answer, at + 1)),
{
}

/// An integer in a string concatenation contributes its numeral, and asks
/// nothing of the host.
pub proof fn law_integer_in_concatenation(
    x: i64,
    position: Seq<IdV>,
    data: JsonV,
    log: Seq<Interaction>,
    at: int,
)
    ensures
        run_concat_piece(ValueV::Integer(x), position, data, log, at) matches Some((Ok(t), k)) && k
            == at && numeral_of(t, x as int),
{
    law_int_text_is_numeral(x as int);
}


/// Whether the value at `q` in `data` is an object that holds `keyword`.
pub open spec fn holds_keyword_at(data: JsonV, q: Seq<IdV>, keyword: Seq<char>) -> bool {
    match value_at(data, q) {
        Some(JsonV::Object(m)) => member_get(m, keyword) is Some,
        _ => false,
    }
}

/// Every item of `sub` is an item of `items`.
pub open spec fn all_found_in(sub: Seq<ItemV>, items: Seq<ItemV>) -> bool {
    forall|i: int| 0 <= i < sub.len() ==> items.contains(#[trigger] sub[i])
}

proof fn lemma_found_in_join(h: Seq<ItemV>, t: Seq<ItemV>, sub: Seq<ItemV>)
    ensures
        all_found_in(sub, h) ==> all_found_in(sub, h + t),
        all_found_in(sub, t) ==> all_found_in(sub, h + t),
{
    if all_found_in(sub, h) {
        assert forall|i: int| 0 <= i < sub.len() implies (h + t).contains(#[trigger] sub[i]) by {
            let j = choose|j: int| 0 <= j < h.len() && h[j] == sub[i];
            assert((h + t)[j] == sub[i]);
        }
    }
    if all_found_in(sub, t) {
        assert forall|i: int| 0 <= i < sub.len() implies (h + t).contains(#[trigger] sub[i]) by {
            let j = choose|j: int| 0 <= j < t.len() && t[j] == sub[i];
            assert((h + t)[h.len() + j] == sub[i]);
        }
    }
}

proof fn lemma_found_in_self(sub: Seq<ItemV>)
    ensures
        all_found_in(sub, sub),
{
    assert forall|i: int| 0 <= i < sub.len() implies sub.contains(#[trigger] sub[i]) by {
        assert(sub[i] == sub[i]);
    }
}

/// The items of the members of an object hold the items of the member a name
/// leads to.
proof fn lemma_member_items(
    mm: Seq<(Seq<char>, JsonV)>,
    position: Seq<IdV>,
    keyword: Seq<char>,
    k0: Seq<char>,
    child: JsonV,
    items: Seq<ItemV>,
)
    requires
        spec_items_members(mm, position, keyword) == Ok::<Seq<ItemV>, Error>(items),
        member_get(mm, k0) == Some(child),
    ensures
        spec_items(child, position.push(IdV::Name(k0)), keyword) matches Ok(sub) && all_found_in(
            sub,
            items,
        ),
    decreases mm.len(),
{
    let h0 = spec_items(mm[0].1, position.push(IdV::Name(mm[0].0)), keyword);
    let t0 = spec_items_members(mm.drop_first(), position, keyword);
    match (h0, t0) {
        (Ok(h), Ok(t)) => {
            assert(items == h + t);
            if mm[0].0 == k0 {
                lemma_found_in_self(h);
                lemma_found_in_join(h, t, h);
            } else {
                lemma_member_items(mm.drop_first(), position, keyword, k0, child, t);
                match spec_items(child, position.push(IdV::Name(k0)), keyword) {
                    Ok(sub) => {
                        lemma_found_in_join(h, t, sub);
                    },
                    Err(_) => {},
                }
            }
        },
        _ => {},
    }
}

/// The items of the elements of an array hold the items of each element.
proof fn lemma_element_items(
    a: Seq<JsonV>,
    start: int,
    position: Seq<IdV>,
    keyword: Seq<char>,
    idx: int,
    items: Seq<ItemV>,
)
    requires
        spec_items_elements(a, start, position, keyword) == Ok::<Seq<ItemV>, Error>(items),
        0 <= idx < a.len(),
    ensures
        spec_items(a[idx], position.push(IdV::Index((start + idx) as isize)), keyword) matches Ok(sub)
            && all_found_in(sub, items),
    decreases a.len(),
{
    let h0 = spec_items(a[0], position.push(IdV::Index(start as isize)), keyword);
    let t0 = spec_items_elements(a.drop_first(), start + 1, position, keyword);
    match (h0, t0) {
        (Ok(h), Ok(t)) => {
            assert(items == h + t);
            if idx == 0 {
                lemma_found_in_self(h);
                lemma_found_in_join(h, t, h);
            } else {
                lemma_element_items(a.drop_first(), start + 1, position, keyword, idx - 1, t);
                assert(a.drop_first()[idx - 1] == a[idx]);
                assert((start + 1) + (idx - 1) == start + idx);
                match spec_items(a[idx], position.push(IdV::Index((start + idx) as isize)), keyword) {
                    Ok(sub) => {
                        lemma_found_in_join(h, t, sub);
                    },
                    Err(_) => {},
                }
            }
        },
        _ => {},
    }
}

/// Every object that holds the evaluation keyword with a string value, and
/// stands inside no other object that holds the keyword, is found as an item:
/// at its path, with that string as its expression, not evaluated yet.
pub proof fn law_every_formula_is_found(
    data: JsonV,
    position: Seq<IdV>,
    keyword: Seq<char>,
    p: Seq<IdV>,
    m: Seq<(Seq<char>, JsonV)>,
    s: Seq<char>,
    items: Seq<ItemV>,
)
    requires
        value_at(data, p) == Some(JsonV::Object(m)),
        member_get(m, keyword) == Some(JsonV::Str(s)),
        forall|k: int| 0 <= k < p.len() ==> !#[trigger] holds_keyword_at(data, p.take(k), keyword),
        spec_items(data, position, keyword) == Ok::<Seq<ItemV>, Error>(items),
    ensures
        items.contains(ItemV { position: position + p, expression: s, evaluated: false }),
    decreases p.len(),
{
    let it = ItemV { position: position + p, expression: s, evaluated: false };
    if p.len() == 0 {
        assert(position + p =~= position);
        assert(items[0] == it);
    } else {
        assert(p.take(0) =~= Seq::<IdV>::empty());
        assert(!holds_keyword_at(data, p.take(0), keyword));
        let rest = p.drop_first();
        assert forall|k: int| 0 <= k < rest.len() implies p.take(k + 1).drop_first() =~= rest.take(k)
            && p.take(k + 1)[0] == p[0] by {}
        match (p[0], data) {
            (IdV::Name(k0), JsonV::Object(mm)) => {
                let child = member_get(mm, k0)->0;
                lemma_member_items(mm, position, keyword, k0, child, items);
                assert forall|k: int| 0 <= k < rest.len() implies !#[trigger] holds_keyword_at(
                    child,
                    rest.take(k),
                    keyword,
                ) by {
                    assert(!holds_keyword_at(data, p.take(k + 1), keyword));
                    assert(p.take(k + 1).drop_first() =~= rest.take(k));
                    assert(value_at(data, p.take(k + 1)) == value_at(child, rest.take(k)));
                }
                match spec_items(child, position.push(IdV::Name(k0)), keyword) {
                    Ok(sub) => {
                        law_every_formula_is_found(child, position.push(IdV::Name(k0)), keyword, rest, m, s, sub);
                        assert(position.push(IdV::Name(k0)) + rest =~= position + p);
                        let j = choose|j: int| 0 <= j < sub.len() && sub[j] == it;
                        assert(items.contains(sub[j]));
                    },
                    Err(_) => {},
                }
            },
            (IdV::Index(ix), JsonV::Array(a)) => {
                let child = a[ix as int];
                lemma_element_items(a, 0, position, keyword, ix as int, items);
                assert((0 + ix as int) as isize == ix);
                assert forall|k: int| 0 <= k < rest.len() implies !#[trigger] holds_keyword_at(
                    child,
                    rest.take(k),
                    keyword,
                ) by {
                    assert(!holds_keyword_at(data, p.take(k + 1), keyword));
                    assert(p.take(k + 1).drop_first() =~= rest.take(k));
                    assert(value_at(data, p.take(k + 1)) == value_at(child, rest.take(k)));
                }
                match spec_items(child, position.push(IdV::Index(ix)), keyword) {
                    Ok(sub) => {
                        law_every_formula_is_found(child, position.push(IdV::Index(ix)), keyword, rest, m, s, sub);
                        assert(position.push(IdV::Index(ix)) + rest =~= position + p);
                        let j = choose|j: int| 0 <= j < sub.len() && sub[j] == it;
                        assert(items.contains(sub[j]));
                    },
                    Err(_) => {},
                }
            },
            _ => {},
        }
    }
}


/// `and` and `or` of two expressions that evaluate as booleans, without asking
/// the host, give the conjunction and the disjunction of those booleans.
pub proof fn law_logical_connectives(
    eng: EngineV,
    lhs: ExprV,
    rhs: ExprV,
    position: Seq<IdV>,
    data: JsonV,
    log: Seq<Interaction>,
    at: int,
    x: bool,
    y: bool,
)
    requires
        run_expression_as_bool(eng, lhs, position, data, log, at) == Some((Ok::<bool, Error>(x), at)),
        run_expression_as_bool(eng, rhs, position, data, log, at) == Some((Ok::<bool, Error>(y), at)),
    ensures
        run_value_as_bool(eng, ValueV::Logical(Box::new(lhs), Box::new(rhs), LogicalOperator::And), position, data, log, at)
            == Some((Ok::<bool, Error>(x && y), at)),
        run_value_as_bool(eng, ValueV::Logical(Box::new(lhs), Box::new(rhs), LogicalOperator::Or), position, data, log, at)
            == Some((Ok::<bool, Error>(x || y), at)),
{
}

/// A concatenation of strings is the strings one after the other, and asks
/// nothing of the host.
pub proof fn law_string_concatenation(
    a: Seq<char>,
    b: Seq<char>,
    position: Seq<IdV>,
    data: JsonV,
    log: Seq<Interaction>,
    at: int,
)
    ensures
        run_concat(seq![ValueV::Str(a), ValueV::Str(b)], position, data, log, at) == Some(
            (Ok::<Seq<char>, Error>(a + b), at),
        ),
{
    let v = seq![ValueV::Str(a), ValueV::Str(b)];
    assert(v.drop_first() =~= seq![ValueV::Str(b)]);
    assert(v.drop_first().drop_first() =~= Seq::<ValueV>::empty());
    assert(b + Seq::<char>::empty() =~= b);
    let w = seq![ValueV::Str(b)];
    assert(w[0] == ValueV::Str(b));
    assert(run_concat(w.drop_first(), position, data, log, at) == Some((Ok::<Seq<char>, Error>(Seq::empty()), at)));
    assert(run_concat(w, position, data, log, at) == Some((Ok::<Seq<char>, Error>(b), at)));
    assert(v[0] == ValueV::Str(a));
}

} // verus!
