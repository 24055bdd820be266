//! Evaluation of a whole JSON value: every object that holds the evaluation
//! keyword is replaced by the value of its expression.
use vstd::prelude::*;
use crate::ast::{IdV, Identifier, IdentifierValue};
use crate::error::Error;
use crate::json::{
    array_view, copy_json, find_member, json_view, lemma_array_view, lemma_members_view,
    member_get, members_view, Json, JsonV,
};
use crate::lookup::{path_view, value_at};
use crate::context::{Context, Host};
use crate::engine::{default_engine, json_result, Engine, EngineV};
use crate::semantics::{lemma_prefix_trans, prefix, run_eval, Interaction, Run};

verus! {

/// An item to evaluate: an object that holds the evaluation keyword.
#[derive(Debug)]
pub struct Item {
    /// Where the object stands.
    pub position: Identifier,
    /// The expression, the value of the keyword.
    pub expression: String,
    /// Whether it has been evaluated.
    pub evaluated: bool,
}

/// The mathematical value of an [`Item`].
pub struct ItemV {
    pub position: Seq<IdV>,
    pub expression: Seq<char>,
    pub evaluated: bool,
}

impl View for Item {
    type V = ItemV;

    open spec fn view(&self) -> ItemV {
        ItemV { position: self.position@, expression: self.expression@, evaluated: self.evaluated }
    }
}

/// The mathematical values of items.
pub open spec fn items_view(s: Seq<Item>) -> Seq<ItemV> {
    s.map_values(|i: Item| i@)
}

/// The item a value makes: an object that holds `keyword` with a string value.
pub open spec fn spec_item(value: JsonV, position: Seq<IdV>, keyword: Seq<char>) -> Result<
    Option<ItemV>,
    Error,
> {
    match value {
        JsonV::Object(m) => match member_get(m, keyword) {
            Some(JsonV::Str(s)) => Ok(Some(ItemV { position, expression: s, evaluated: false })),
            Some(_) => Err(Error::EvalKeywordNotString),
            None => Ok(None),
        },
        _ => Ok(None),
    }
}

/// Concatenates two successful results; the first error otherwise.
pub open spec fn join_items(a: Result<Seq<ItemV>, Error>, b: Result<Seq<ItemV>, Error>) -> Result<
    Seq<ItemV>,
    Error,
> {
    match a {
        Ok(x) => match b {
            Ok(y) => Ok(x + y),
            Err(e) => Err(e),
        },
        Err(e) => Err(e),
    }
}

/// All items in a value, in document order. An object that is an item is not
/// searched further.
pub open spec fn spec_items(value: JsonV, position: Seq<IdV>, keyword: Seq<char>) -> Result<
    Seq<ItemV>,
    Error,
>
    decreases value,
{
    match value {
        JsonV::Array(a) => spec_items_elements(a, 0, position, keyword),
        JsonV::Object(m) => match spec_item(value, position, keyword) {
            Ok(Some(it)) => Ok(seq![it]),
            Ok(None) => spec_items_members(m, position, keyword),
            Err(e) => Err(e),
        },
        _ => Ok(Seq::empty()),
    }
}

/// The items in the elements of an array, the first of which stands at `start`.
pub open spec fn spec_items_elements(
    a: Seq<JsonV>,
    start: int,
    position: Seq<IdV>,
    keyword: Seq<char>,
) -> Result<Seq<ItemV>, Error>
    decreases a,
{
    if a.len() == 0 {
        Ok(Seq::empty())
    } else {
        join_items(
            spec_items(a[0], position.push(IdV::Index(start as isize)), keyword),
            spec_items_elements(a.drop_first(), start + 1, position, keyword),
        )
    }
}

/// The items in the members of an object.
pub open spec fn spec_items_members(
    m: Seq<(Seq<char>, JsonV)>,
    position: Seq<IdV>,
    keyword: Seq<char>,
) -> Result<Seq<ItemV>, Error>
    decreases m,
{
    if m.len() == 0 {
        Ok(Seq::empty())
    } else {
        join_items(
            spec_items(m[0].1, position.push(IdV::Name(m[0].0)), keyword),
            spec_items_members(m.drop_first(), position, keyword),
        )
    }
}

/// The item `value` makes, if it is an object that holds `keyword`; the value of
/// `keyword` must then be a string.
fn item_to_eval(value: &Json, position: &Identifier, keyword: &str) -> (r: Result<Option<Item>, Error>)
    ensures
        match r {
            Ok(Some(it)) => spec_item(value@, position@, keyword@) == Ok::<Option<ItemV>, Error>(Some(it@)),
            Ok(None) => spec_item(value@, position@, keyword@) == Ok::<Option<ItemV>, Error>(None),
            Err(e) => spec_item(value@, position@, keyword@) == Err::<Option<ItemV>, Error>(e),
        },
{
    match value {
        Json::Object(object) => {
            match find_member(object, keyword) {
                Some(v) => match v {
                    Json::String(s) => Ok(
                        Some(
                            Item {
                                position: position.duplicate(),
                                expression: s.clone(),
                                evaluated: false,
                            },
                        ),
                    ),
                    _ => Err(Error::EvalKeywordNotString),
                },
                None => Ok(None),
            }
        },
        _ => Ok(None),
    }
}

/// The mathematical value of the items a search found.
pub open spec fn items_result(r: Result<Option<Vec<Item>>, Error>) -> Result<Seq<ItemV>, Error> {
    match r {
        Ok(Some(v)) => Ok(items_view(v@)),
        Ok(None) => Ok(Seq::empty()),
        Err(e) => Err(e),
    }
}

proof fn lemma_items_view_append(a: Seq<Item>, b: Seq<Item>)
    ensures
        items_view(a + b) == items_view(a) + items_view(b),
{
    assert(items_view(a + b) =~= items_view(a) + items_view(b));
}

/// All items in `value`, in document order; `None` where there is none.
#[verifier::loop_isolation(false)]
fn items_to_eval(value: &Json, position: &Identifier, keyword: &str) -> (r: Result<
    Option<Vec<Item>>,
    Error,
>)
    ensures
        items_result(r) == spec_items(value@, position@, keyword@),
        r matches Ok(Some(v)) ==> v@.len() > 0,
    decreases value@,
{
    match value {
        Json::Array(array) => {
            proof {
                lemma_array_view(array@);
            }
            let ghost av = array_view(array@);
            let mut result: Vec<Item> = Vec::new();
            let mut idx: usize = 0;
            assert(av.skip(0) =~= av);
            while idx < array.len()
                invariant
                    idx <= array@.len(),
                    av == array_view(array@),
                    av.len() == array@.len(),
                    spec_items(value@, position@, keyword@) == join_items(
                        Ok(items_view(result@)),
                        spec_items_elements(av.skip(idx as int), idx as int, position@, keyword@),
                    ),
                decreases array@.len() - idx,
            {
                let ghost rest = av.skip(idx as int);
                proof {
                    assert(rest[0] == av[idx as int]);
                    assert(rest.drop_first() =~= av.skip(idx + 1));
                    assert(decreases_to!(value@ => value@->Array_0));
                    assert(decreases_to!(value@->Array_0 => (value@->Array_0)[idx as int]));
                }
                let child = position.duplicate().index(idx as isize);
                let items = items_to_eval(&array[idx], &child, keyword)?;
                match items {
                    Some(mut items) => {
                        let ghost before = result@;
                        let ghost added = items@;
                        result.append(&mut items);
                        proof {
                            lemma_items_view_append(before, added);
                            match spec_items_elements(av.skip(idx + 1), idx + 1, position@, keyword@) {
                                Ok(y) => {
                                    assert(items_view(before) + (items_view(added) + y) =~= items_view(result@) + y);
                                },
                                _ => {},
                            }
                        }
                    },
                    None => {
                        proof {
                            match spec_items_elements(av.skip(idx + 1), idx + 1, position@, keyword@) {
                                Ok(y) => {
                                    assert(Seq::<ItemV>::empty() + y =~= y);
                                },
                                _ => {},
                            }
                        }
                    },
                }
                idx = idx + 1;
            }
            proof {
                assert(av.skip(idx as int) =~= Seq::<JsonV>::empty());
                assert(items_view(result@) + Seq::<ItemV>::empty() =~= items_view(result@));
            }
            if result.len() == 0 {
                assert(items_view(result@) =~= Seq::<ItemV>::empty());
                Ok(None)
            } else {
                Ok(Some(result))
            }
        },
        Json::Object(object) => match item_to_eval(value, position, keyword)? {
            Some(item) => {
                let mut v: Vec<Item> = Vec::new();
                v.push(item);
                assert(items_view(v@) =~= seq![item@]);
                Ok(Some(v))
            },
            None => {
                proof {
                    lemma_members_view(object@);
                }
                let ghost mv = members_view(object@);
                let mut result: Vec<Item> = Vec::new();
                let mut idx: usize = 0;
                assert(mv.skip(0) =~= mv);
                while idx < object.len()
                    invariant
                        idx <= object@.len(),
                        mv == members_view(object@),
                        mv.len() == object@.len(),
                        spec_items(value@, position@, keyword@) == join_items(
                            Ok(items_view(result@)),
                            spec_items_members(mv.skip(idx as int), position@, keyword@),
                        ),
                    decreases object@.len() - idx,
                {
                    let ghost rest = mv.skip(idx as int);
                    proof {
                        assert(rest[0] == mv[idx as int]);
                        assert(rest.drop_first() =~= mv.skip(idx + 1));
                        assert(decreases_to!(value@ => value@->Object_0));
                        assert(decreases_to!(value@->Object_0 => (value@->Object_0)[idx as int]));
                        assert(decreases_to!((value@->Object_0)[idx as int] => (value@->Object_0)[idx as int].1));
                    }
                    let child = position.duplicate().name(object[idx].0.clone());
                    let items = items_to_eval(&object[idx].1, &child, keyword)?;
                    match items {
                        Some(mut items) => {
                            let ghost before = result@;
                            let ghost added = items@;
                            result.append(&mut items);
                            proof {
                                lemma_items_view_append(before, added);
                                match spec_items_members(mv.skip(idx + 1), position@, keyword@) {
                                    Ok(y) => {
                                        assert(items_view(before) + (items_view(added) + y) =~= items_view(result@) + y);
                                    },
                                    _ => {},
                                }
                            }
                        },
                        None => {
                            proof {
                                match spec_items_members(mv.skip(idx + 1), position@, keyword@) {
                                    Ok(y) => {
                                        assert(Seq::<ItemV>::empty() + y =~= y);
                                    },
                                    _ => {},
                                }
                            }
                        },
                    }
                    idx = idx + 1;
                }
                proof {
                    assert(mv.skip(idx as int) =~= Seq::<(Seq<char>, JsonV)>::empty());
                    assert(items_view(result@) + Seq::<ItemV>::empty() =~= items_view(result@));
                }
                if result.len() == 0 {
                    assert(items_view(result@) =~= Seq::<ItemV>::empty());
                    Ok(None)
                } else {
                    Ok(Some(result))
                }
            },
        },
        _ => Ok(None),
    }
}

/// The index of the first member of `m` named `k`.
pub open spec fn member_index(m: Seq<(Seq<char>, JsonV)>, k: Seq<char>) -> Option<int>
    decreases m.len(),
{
    if m.len() == 0 {
        None
    } else if m[0].0 == k {
        Some(0)
    } else {
        match member_index(m.drop_first(), k) {
            Some(i) => Some(i + 1),
            None => None,
        }
    }
}

proof fn lemma_member_index(m: Seq<(Seq<char>, JsonV)>, k: Seq<char>)
    ensures
        match member_index(m, k) {
            Some(i) => 0 <= i < m.len() && m[i].0 == k && member_get(m, k) == Some(m[i].1)
                && forall|j: int| 0 <= j < i ==> m[j].0 != k,
            None => member_get(m, k) is None && forall|j: int| 0 <= j < m.len() ==> m[j].0 != k,
        },
    decreases m.len(),
{
    if m.len() > 0 {
        lemma_member_index(m.drop_first(), k);
        if m[0].0 != k {
            assert forall|j: int| 1 <= j < m.len() implies m[j].0 == m.drop_first()[j - 1].0 by {}
        }
    }
}

/// `data` with the value at `path` replaced by `new_value`; `data` itself where
/// `path` leads nowhere.
pub open spec fn spec_replace(data: JsonV, path: Seq<IdV>, new_value: JsonV) -> JsonV
    decreases path.len(),
{
    if path.len() == 0 {
        new_value
    } else {
        match (path[0], data) {
            (IdV::Name(k), JsonV::Object(m)) => match member_index(m, k) {
                Some(i) => JsonV::Object(
                    m.update(i, (m[i].0, spec_replace(m[i].1, path.drop_first(), new_value))),
                ),
                None => data,
            },
            (IdV::Index(i), JsonV::Array(a)) => if 0 <= i < a.len() {
                JsonV::Array(a.update(i as int, spec_replace(a[i as int], path.drop_first(), new_value)))
            } else {
                data
            },
            _ => data,
        }
    }
}

/// A read at a path gives back what a replacement at that path wrote, where the
/// path leads to a value.
pub proof fn lemma_replace_then_read(data: JsonV, path: Seq<IdV>, new_value: JsonV)
    requires
        value_at(data, path) is Some,
    ensures
        value_at(spec_replace(data, path, new_value), path) == Some(new_value),
    decreases path.len(),
{
    if path.len() > 0 {
        match (path[0], data) {
            (IdV::Name(k), JsonV::Object(m)) => {
                lemma_member_index(m, k);
                let i = member_index(m, k)->0;
                let m2 = m.update(i, (m[i].0, spec_replace(m[i].1, path.drop_first(), new_value)));
                lemma_replace_then_read(m[i].1, path.drop_first(), new_value);
                lemma_member_index(m2, k);
                assert(m2[i].0 == k);
                match member_index(m2, k) {
                    Some(j) => {
                        if j < i {
                            assert(m2[j].0 == m[j].0);
                        }
                    },
                    None => {},
                }
                assert(member_index(m2, k) == Some(i));
            },
            (IdV::Index(i), JsonV::Array(a)) => {
                lemma_replace_then_read(a[i as int], path.drop_first(), new_value);
            },
            _ => {},
        }
    }
}

/// A replacement at a path that leads nowhere changes nothing.
pub proof fn lemma_replace_nowhere(data: JsonV, path: Seq<IdV>, new_value: JsonV)
    requires
        value_at(data, path) is None,
    ensures
        spec_replace(data, path, new_value) == data,
    decreases path.len(),
{
    if path.len() > 0 {
        match (path[0], data) {
            (IdV::Name(k), JsonV::Object(m)) => {
                lemma_member_index(m, k);
                match member_index(m, k) {
                    Some(i) => {
                        lemma_replace_nowhere(m[i].1, path.drop_first(), new_value);
                        assert(m.update(i, (m[i].0, m[i].1)) =~= m);
                    },
                    None => {},
                }
            },
            (IdV::Index(i), JsonV::Array(a)) => {
                if 0 <= i < a.len() {
                    lemma_replace_nowhere(a[i as int], path.drop_first(), new_value);
                    assert(a.update(i as int, a[i as int]) =~= a);
                }
            },
            _ => {},
        }
    }
}

/// Whether two paths part at some step, so that neither leads into the other.
pub open spec fn apart(p: Seq<IdV>, q: Seq<IdV>) -> bool {
    exists|i: int| #![trigger p[i], q[i]] 0 <= i < p.len() && i < q.len() && p[i] != q[i]
}

/// Paths part alike in either order.
pub proof fn lemma_apart_symmetric(p: Seq<IdV>, q: Seq<IdV>)
    requires
        apart(p, q),
    ensures
        apart(q, p),
{
    let i = choose|i: int| #![trigger p[i], q[i]] 0 <= i < p.len() && i < q.len() && p[i] != q[i];
    assert(q[i] != p[i]);
}

/// Renewing the value of one member leaves the members of other names as they were.
proof fn lemma_member_get_update(m: Seq<(Seq<char>, JsonV)>, i: int, x: JsonV, k: Seq<char>)
    requires
        0 <= i < m.len(),
        m[i].0 != k,
    ensures
        member_get(m.update(i, (m[i].0, x)), k) == member_get(m, k),
    decreases m.len(),
{
    let u = m.update(i, (m[i].0, x));
    if i > 0 {
        assert(u[0] == m[0]);
        if m[0].0 != k {
            lemma_member_get_update(m.drop_first(), i - 1, x, k);
            assert(u.drop_first() =~= m.drop_first().update(i - 1, (m[i].0, x)));
        }
    } else {
        assert(u.drop_first() =~= m.drop_first());
    }
}

/// A replacement at one path leaves the value at a path apart from it as it was.
pub proof fn lemma_replace_apart(data: JsonV, p: Seq<IdV>, q: Seq<IdV>, new_value: JsonV)
    requires
        apart(p, q),
    ensures
        value_at(spec_replace(data, p, new_value), q) == value_at(data, q),
    decreases p.len(),
{
    let w = choose|i: int| #![trigger p[i], q[i]] 0 <= i < p.len() && i < q.len() && p[i] != q[i];
    if p[0] == q[0] {
        assert(w > 0);
        assert(p.drop_first()[w - 1] == p[w]);
        assert(q.drop_first()[w - 1] == q[w]);
        assert(apart(p.drop_first(), q.drop_first()));
    }
    match (p[0], data) {
        (IdV::Name(k), JsonV::Object(m)) => {
            lemma_member_index(m, k);
            match member_index(m, k) {
                Some(i) => {
                    let child = spec_replace(m[i].1, p.drop_first(), new_value);
                    let m2 = m.update(i, (m[i].0, child));
                    match q[0] {
                        IdV::Name(k2) => {
                            if k2 == k {
                                lemma_replace_apart(m[i].1, p.drop_first(), q.drop_first(), new_value);
                                lemma_member_index(m2, k);
                                assert(m2[i].0 == k);
                                match member_index(m2, k) {
                                    Some(j) => {
                                        if j < i {
                                            assert(m2[j].0 == m[j].0);
                                        }
                                    },
                                    None => {},
                                }
                                assert(member_get(m2, k) == Some(child));
                            } else {
                                lemma_member_get_update(m, i, child, k2);
                            }
                        },
                        _ => {},
                    }
                },
                None => {},
            }
        },
        (IdV::Index(a), JsonV::Array(arr)) => {
            if 0 <= a < arr.len() {
                if q[0] == p[0] {
                    lemma_replace_apart(arr[a as int], p.drop_first(), q.drop_first(), new_value);
                }
            }
        },
        _ => {},
    }
}

/// The value at a path one step longer is the value one step below the value
/// at the path.
pub proof fn lemma_value_at_push(data: JsonV, p: Seq<IdV>, step: IdV)
    ensures
        value_at(data, p.push(step)) == match value_at(data, p) {
            Some(x) => value_at(x, seq![step]),
            None => None,
        },
    decreases p.len(),
{
    if p.len() == 0 {
        assert(p.push(step) =~= seq![step]);
    } else {
        assert(p.push(step).drop_first() =~= p.drop_first().push(step));
        assert(p.push(step)[0] == p[0]);
        match (p[0], data) {
            (IdV::Name(k), JsonV::Object(m)) => {
                match member_get(m, k) {
                    Some(v) => {
                        lemma_value_at_push(v, p.drop_first(), step);
                    },
                    None => {},
                }
            },
            (IdV::Index(i), JsonV::Array(a)) => {
                if 0 <= i < a.len() {
                    lemma_value_at_push(a[i as int], p.drop_first(), step);
                }
            },
            _ => {},
        }
    }
}

fn find_member_index(m: &Vec<(String, Json)>, k: &str) -> (r: Option<usize>)
    ensures
        match r {
            Some(i) => member_index(members_view(m@), k@) == Some(i as int),
            None => member_index(members_view(m@), k@) is None,
        },
{
    proof {
        lemma_members_view(m@);
        lemma_member_index(members_view(m@), k@);
    }
    let mut i: usize = 0;
    while i < m.len()
        invariant
            i <= m@.len(),
            members_view(m@).len() == m@.len(),
            forall|j: int| 0 <= j < m@.len() ==> #[trigger] members_view(m@)[j] == (m@[j].0@, json_view(m@[j].1)),
            forall|j: int| 0 <= j < i ==> members_view(m@)[j].0 != k@,
            match member_index(members_view(m@), k@) {
                Some(x) => 0 <= x < m@.len() && members_view(m@)[x].0 == k@ && forall|j: int| 0 <= j < x ==> members_view(m@)[j].0 != k@,
                None => forall|j: int| 0 <= j < m@.len() ==> members_view(m@)[j].0 != k@,
            },
        decreases m@.len() - i,
    {
        if crate::json::str_eq(m[i].0.as_str(), k) {
            assert(members_view(m@)[i as int].0 == k@);
            return Some(i);
        }
        i = i + 1;
    }
    None
}

fn replace_at(data: Json, path: &Vec<IdentifierValue>, i: usize, new_value: Json) -> (r: Json)
    requires
        i <= path@.len(),
    ensures
        r@ == spec_replace(data@, path_view(path@).skip(i as int), new_value@),
    decreases path@.len() - i,
{
    let ghost pv = path_view(path@).skip(i as int);
    if i == path.len() {
        return new_value;
    }
    assert(pv[0] == path@[i as int]@);
    assert(pv.drop_first() =~= path_view(path@).skip(i + 1));
    match &path[i] {
        IdentifierValue::Name(name) => {
            match data {
                Json::Object(m) => {
                    match find_member_index(&m, name.as_str()) {
                        Some(idx) => {
                            let ghost mv = members_view(m@);
                            proof {
                                lemma_members_view(m@);
                                lemma_member_index(mv, name@);
                            }
                            let mut m = m;
                            let (k, child) = m.remove(idx);
                            let child2 = replace_at(child, path, i + 1, new_value);
                            let ghost entry = (k, child2);
                            m.insert(idx, (k, child2));
                            proof {
                                lemma_members_view(m@);
                                assert(members_view(m@) =~= mv.update(idx as int, (mv[idx as int].0, spec_replace(mv[idx as int].1, pv.drop_first(), new_value@))));
                            }
                            Json::Object(m)
                        },
                        None => Json::Object(m),
                    }
                },
                other => other,
            }
        },
        IdentifierValue::Index(x) => {
            match data {
                Json::Array(a) => {
                    let ghost av = array_view(a@);
                    proof {
                        lemma_array_view(a@);
                    }
                    if *x < 0 || *x as usize >= a.len() {
                        return Json::Array(a);
                    }
                    let idx = *x as usize;
                    let mut a = a;
                    let child = a.remove(idx);
                    let child2 = replace_at(child, path, i + 1, new_value);
                    a.insert(idx, child2);
                    proof {
                        lemma_array_view(a@);
                        assert(array_view(a@) =~= av.update(idx as int, spec_replace(av[idx as int], pv.drop_first(), new_value@)));
                    }
                    Json::Array(a)
                },
                other => other,
            }
        },
        _ => data,
    }
}

/// `data` with the value at `position` replaced by `new_value`.
fn replace_value(data: Json, new_value: Json, position: &Identifier) -> (r: Json)
    ensures
        r@ == spec_replace(data@, position@, new_value@),
{
    assert(path_view(position.values@).skip(0) =~= position@);
    replace_at(data, &position.values, 0, new_value)
}

/// The number of items not evaluated yet.
pub open spec fn pending(items: Seq<ItemV>) -> nat
    decreases items.len(),
{
    if items.len() == 0 {
        0
    } else {
        (if items[0].evaluated {
            0nat
        } else {
            1nat
        }) + pending(items.drop_first())
    }
}

/// `it`, marked evaluated.
pub open spec fn mark_evaluated(it: ItemV) -> ItemV {
    ItemV { position: it.position, expression: it.expression, evaluated: true }
}

/// Marking an unevaluated item evaluated leaves one item fewer pending.
pub proof fn lemma_pending_mark(items: Seq<ItemV>, i: int)
    requires
        0 <= i < items.len(),
        !items[i].evaluated,
    ensures
        pending(items.update(i, mark_evaluated(items[i]))) + 1 == pending(items),
    decreases i,
{
    let u = items.update(i, mark_evaluated(items[i]));
    if i > 0 {
        lemma_pending_mark(items.drop_first(), i - 1);
        assert(u.drop_first() =~= items.drop_first().update(i - 1, mark_evaluated(items[i])));
    } else {
        assert(u.drop_first() =~= items.drop_first());
    }
}

/// One pass over the items from the `i`-th on: each item not yet evaluated is
/// evaluated against the data as it stands; where that succeeds, its value
/// replaces the object at its position and the item counts as evaluated.
/// Gives the data, the items, the numbers of failures and successes, and the
/// position in the log after the pass.
pub open spec fn run_pass(
    eng: EngineV,
    data: JsonV,
    items: Seq<ItemV>,
    i: int,
    fails: nat,
    successes: nat,
    log: Seq<Interaction>,
    at: int,
) -> Option<(JsonV, Seq<ItemV>, nat, nat, int)>
    decreases items.len() - i,
{
    if i < 0 || i >= items.len() {
        Some((data, items, fails, successes, at))
    } else if items[i].evaluated {
        run_pass(eng, data, items, i + 1, fails, successes, log, at)
    } else {
        match run_eval(eng, items[i].expression, items[i].position, data, log, at) {
            Some((Ok(v), k)) => run_pass(
                eng,
                spec_replace(data, items[i].position, v),
                items.update(i, mark_evaluated(items[i])),
                i + 1,
                fails,
                successes + 1,
                log,
                k,
            ),
            Some((Err(_), k)) => run_pass(eng, data, items, i + 1, fails + 1, successes, log, k),
            None => None,
        }
    }
}

/// Passes over the items until one has no failure (the data then is the
/// result), or until one has failures and no success (an error).
pub open spec fn run_eval_items(
    eng: EngineV,
    data: JsonV,
    items: Seq<ItemV>,
    log: Seq<Interaction>,
    at: int,
) -> Run<JsonV>
    decreases pending(items),
{
    match run_pass(eng, data, items, 0, 0, 0, log, at) {
        Some((d, its, fails, successes, k)) => if fails == 0 {
            Some((Ok(d), k))
        } else if successes == 0 {
            Some((Err(Error::UnableToEvaluate), k))
        } else if pending(its) < pending(items) {
            run_eval_items(eng, d, its, log, k)
        } else {
            None
        },
        None => None,
    }
}

/// The whole of `data` evaluated: every item in it is evaluated, in passes.
pub open spec fn run_evaluate(eng: EngineV, data: JsonV, log: Seq<Interaction>, at: int) -> Run<
    JsonV,
> {
    match spec_items(data, Seq::empty(), eng.eval_keyword) {
        Ok(items) => if items.len() == 0 {
            Some((Ok(data), at))
        } else {
            run_eval_items(eng, data, items, log, at)
        },
        Err(e) => Some((Err(e), at)),
    }
}

fn mark_item(items: &mut Vec<Item>, i: usize)
    requires
        i < old(items)@.len(),
    ensures
        items_view(final(items)@) == items_view(old(items)@).update(
            i as int,
            mark_evaluated(old(items)@[i as int]@),
        ),
{
    let it = items.remove(i);
    items.insert(i, Item { position: it.position, expression: it.expression, evaluated: true });
    assert(items_view(items@) =~= items_view(old(items)@).update(
        i as int,
        mark_evaluated(old(items)@[i as int]@),
    ));
}

/// One pass over all the items; see [`run_pass`]. Gives the data, the items, and
/// the numbers of failures and successes.
fn eval_pass<H: Host>(data: Json, items: Vec<Item>, engine: &Engine, context: &mut Context<H>) -> (r: (
    Json,
    Vec<Item>,
    usize,
    usize,
))
    ensures
        prefix(old(context).log(), final(context).log()),
        final(context).log().len() == old(context).log().len() ==> *final(context) == *old(context),
        forall|ext: Seq<Interaction>|
            prefix(final(context).log(), ext) ==> #[trigger] run_pass(
                engine@,
                data@,
                items_view(items@),
                0,
                0,
                0,
                ext,
                old(context).log().len() as int,
            ) == Some((r.0@, items_view(r.1@), r.2 as nat, r.3 as nat, final(context).log().len() as int)),
        pending(items_view(r.1@)) + r.3 == pending(items_view(items@)),
{
    let ghost eng = engine@;
    let ghost l0 = context.log();
    let ghost start_data = data@;
    let ghost start_items = items_view(items@);
    let mut its = items;
    let mut cur = data;
    let mut fail_counter: usize = 0;
    let mut success_counter: usize = 0;
    let mut i: usize = 0;
    while i < its.len()
        invariant
            i <= its@.len(),
            its@.len() == start_items.len(),
            fail_counter <= i,
            success_counter <= i,
            eng == engine@,
            pending(items_view(its@)) + success_counter == pending(start_items),
            prefix(l0, context.log()),
            l0 == old(context).log(),
            context.log().len() == l0.len() ==> *context == *old(context),
            forall|ext: Seq<Interaction>|
                prefix(context.log(), ext) ==> #[trigger] run_pass(eng, start_data, start_items, 0, 0, 0, ext, l0.len() as int)
                    == run_pass(
                    eng,
                    cur@,
                    items_view(its@),
                    i as int,
                    fail_counter as nat,
                    success_counter as nat,
                    ext,
                    context.log().len() as int,
                ),
        decreases its@.len() - i,
    {
        let ghost iv = items_view(its@);
        let ghost now = cur@;
        let ghost lc = context.log();
        assert(iv[i as int] == its@[i as int]@);
        if !its[i].evaluated {
            let result = engine.eval(its[i].expression.as_str(), &its[i].position, &cur, context);
            let ghost l2 = context.log();
            let ghost jr = json_result(result);
            proof {
                lemma_prefix_trans(l0, lc, l2);
            }
            match result {
                Err(_) => {
                    fail_counter = fail_counter + 1;
                    proof {
                        assert forall|ext: Seq<Interaction>| prefix(l2, ext) implies #[trigger] run_pass(
                            eng,
                            start_data,
                            start_items,
                            0,
                            0,
                            0,
                            ext,
                            l0.len() as int,
                        ) == run_pass(
                            eng,
                            cur@,
                            items_view(its@),
                            i + 1,
                            fail_counter as nat,
                            success_counter as nat,
                            ext,
                            l2.len() as int,
                        ) by {
                            lemma_prefix_trans(lc, l2, ext);
                            assert(run_eval(eng, iv[i as int].expression, iv[i as int].position, now, ext, lc.len() as int) == Some((jr, l2.len() as int)));
                        }
                    }
                },
                Ok(new_value) => {
                    let ghost nv = new_value@;
                    let ghost pos = iv[i as int].position;
                    cur = replace_value(cur, new_value, &its[i].position);
                    success_counter = success_counter + 1;
                    proof {
                        lemma_pending_mark(iv, i as int);
                    }
                    mark_item(&mut its, i);
                    proof {
                        assert forall|ext: Seq<Interaction>| prefix(l2, ext) implies #[trigger] run_pass(
                            eng,
                            start_data,
                            start_items,
                            0,
                            0,
                            0,
                            ext,
                            l0.len() as int,
                        ) == run_pass(
                            eng,
                            cur@,
                            items_view(its@),
                            i + 1,
                            fail_counter as nat,
                            success_counter as nat,
                            ext,
                            l2.len() as int,
                        ) by {
                            lemma_prefix_trans(lc, l2, ext);
                            assert(run_eval(eng, iv[i as int].expression, pos, now, ext, lc.len() as int) == Some((Ok::<JsonV, Error>(nv), l2.len() as int)));
                        }
                    }
                },
            }
        }
        i = i + 1;
    }
    proof {
        let lf = context.log();
        assert forall|ext: Seq<Interaction>| prefix(lf, ext) implies #[trigger] run_pass(
            eng,
            start_data,
            start_items,
            0,
            0,
            0,
            ext,
            l0.len() as int,
        ) == Some((cur@, items_view(its@), fail_counter as nat, success_counter as nat, lf.len() as int)) by {
            assert(run_pass(eng, cur@, items_view(its@), i as int, fail_counter as nat, success_counter as nat, ext, lf.len() as int)
                == Some((cur@, items_view(its@), fail_counter as nat, success_counter as nat, lf.len() as int)));
        }
    }
    (cur, its, fail_counter, success_counter)
}

/// What a pass gives decides what the passes give: the data where it had no
/// failure, an error where it had failures and no success, and otherwise the
/// passes over what it left.
proof fn lemma_items_step(
    eng: EngineV,
    data: JsonV,
    items: Seq<ItemV>,
    ls: Seq<Interaction>,
    lf: Seq<Interaction>,
    d: JsonV,
    its: Seq<ItemV>,
    fails: nat,
    successes: nat,
)
    requires
        pending(its) + successes == pending(items),
        forall|ext: Seq<Interaction>|
            prefix(lf, ext) ==> #[trigger] run_pass(eng, data, items, 0, 0, 0, ext, ls.len() as int)
                == Some((d, its, fails, successes, lf.len() as int)),
    ensures
        forall|ext: Seq<Interaction>|
            prefix(lf, ext) ==> #[trigger] run_eval_items(eng, data, items, ext, ls.len() as int) == if fails
                == 0 {
                Some((Ok::<JsonV, Error>(d), lf.len() as int))
            } else if successes == 0 {
                Some((Err::<JsonV, Error>(Error::UnableToEvaluate), lf.len() as int))
            } else {
                run_eval_items(eng, d, its, ext, lf.len() as int)
            },
{
    assert forall|ext: Seq<Interaction>| prefix(lf, ext) implies #[trigger] run_eval_items(
        eng,
        data,
        items,
        ext,
        ls.len() as int,
    ) == if fails == 0 {
        Some((Ok::<JsonV, Error>(d), lf.len() as int))
    } else if successes == 0 {
        Some((Err::<JsonV, Error>(Error::UnableToEvaluate), lf.len() as int))
    } else {
        run_eval_items(eng, d, its, ext, lf.len() as int)
    } by {
        assert(run_pass(eng, data, items, 0, 0, 0, ext, ls.len() as int) == Some(
            (d, its, fails, successes, lf.len() as int),
        ));
    }
}

/// Evaluates the items in passes; see [`run_eval_items`].
fn eval_with_items<H: Host>(data: Json, items: Vec<Item>, engine: &Engine, context: &mut Context<H>) -> (r: Result<
    Json,
    Error,
>)
    ensures
        prefix(old(context).log(), final(context).log()),
        final(context).log().len() == old(context).log().len() ==> *final(context) == *old(context),
        forall|ext: Seq<Interaction>|
            prefix(final(context).log(), ext) ==> #[trigger] run_eval_items(
                engine@,
                data@,
                items_view(items@),
                ext,
                old(context).log().len() as int,
            ) == Some((json_result(r), final(context).log().len() as int)),
{
    let ghost eng = engine@;
    let ghost l0 = context.log();
    let ghost data0 = data@;
    let ghost items0 = items_view(items@);
    let mut its = items;
    let mut cur = data;
    loop
        invariant
            eng == engine@,
            l0 == old(context).log(),
            data0 == data@,
            items0 == items_view(items@),
            prefix(l0, context.log()),
            context.log().len() == l0.len() ==> *context == *old(context),
            forall|ext: Seq<Interaction>|
                prefix(context.log(), ext) ==> #[trigger] run_eval_items(eng, data0, items0, ext, l0.len() as int)
                    == run_eval_items(eng, cur@, items_view(its@), ext, context.log().len() as int),
        decreases pending(items_view(its@)),
    {
        let ghost start_data = cur@;
        let ghost start_items = items_view(its@);
        let ghost ls = context.log();
        let (next, next_items, fails, successes) = eval_pass(cur, its, engine, context);
        let ghost lf = context.log();
        proof {
            lemma_prefix_trans(l0, ls, lf);
            lemma_items_step(eng, start_data, start_items, ls, lf, next@, items_view(next_items@), fails as nat, successes as nat);
            assert forall|ext: Seq<Interaction>| prefix(lf, ext) implies #[trigger] run_eval_items(
                eng,
                data0,
                items0,
                ext,
                l0.len() as int,
            ) == if fails == 0 {
                Some((Ok::<JsonV, Error>(next@), lf.len() as int))
            } else if successes == 0 {
                Some((Err::<JsonV, Error>(Error::UnableToEvaluate), lf.len() as int))
            } else {
                run_eval_items(eng, next@, items_view(next_items@), ext, lf.len() as int)
            } by {
                lemma_prefix_trans(ls, lf, ext);
                assert(run_eval_items(eng, start_data, start_items, ext, ls.len() as int) == if fails == 0 {
                    Some((Ok::<JsonV, Error>(next@), lf.len() as int))
                } else if successes == 0 {
                    Some((Err::<JsonV, Error>(Error::UnableToEvaluate), lf.len() as int))
                } else {
                    run_eval_items(eng, next@, items_view(next_items@), ext, lf.len() as int)
                });
            }
        }
        if fails == 0 {
            return Ok(next);
        }
        if successes == 0 {
            return Err(Error::UnableToEvaluate);
        }
        cur = next;
        its = next_items;
    }
}

/// Evaluates the whole of `data` with `engine`: every object that holds the
/// engine's evaluation keyword, with an expression as its value, is replaced by
/// the value of that expression. Expressions may refer to values that other
/// expressions produce; evaluation goes in passes until no expression fails, and
/// fails where a pass evaluates none.
///
/// The calls made of the host are appended to the context's log; the result is
/// what [`run_evaluate`] gives for the answers they got.
pub fn evaluate_with_engine<H: Host>(data: Json, engine: &Engine, context: &mut Context<H>) -> (r: Result<
    Json,
    Error,
>)
    ensures
        prefix(old(context).log(), final(context).log()),
        final(context).log().len() == old(context).log().len() ==> *final(context) == *old(context),
        forall|ext: Seq<Interaction>|
            prefix(final(context).log(), ext) ==> #[trigger] run_evaluate(
                engine@,
                data@,
                ext,
                old(context).log().len() as int,
            ) == Some((json_result(r), final(context).log().len() as int)),
{
    let root = Identifier::root();
    match items_to_eval(&data, &root, engine.eval_keyword())? {
        Some(items) => eval_with_items(data, items, engine, context),
        None => Ok(data),
    }
}

/// Evaluates the whole of `data` with the default engine; see
/// [`evaluate_with_engine`].
pub fn evaluate<H: Host>(data: Json, context: &mut Context<H>) -> (r: Result<Json, Error>)
    ensures
        prefix(old(context).log(), final(context).log()),
        final(context).log().len() == old(context).log().len() ==> *final(context) == *old(context),
        forall|ext: Seq<Interaction>|
            prefix(final(context).log(), ext) ==> #[trigger] run_evaluate(
                default_engine(),
                data@,
                ext,
                old(context).log().len() as int,
            ) == Some((json_result(r), final(context).log().len() as int)),
{
    let engine = Engine::default();
    evaluate_with_engine(data, &engine, context)
}

/// The former name of [`evaluate`].
pub fn eval<H: Host>(data: Json, context: &mut Context<H>) -> (r: Result<Json, Error>)
    ensures
        prefix(old(context).log(), final(context).log()),
        final(context).log().len() == old(context).log().len() ==> *final(context) == *old(context),
        forall|ext: Seq<Interaction>|
            prefix(final(context).log(), ext) ==> #[trigger] run_evaluate(
                default_engine(),
                data@,
                ext,
                old(context).log().len() as int,
            ) == Some((json_result(r), final(context).log().len() as int)),
{
    evaluate(data, context)
}

/// The former name of [`evaluate_with_engine`].
pub fn eval_with_engine<H: Host>(data: Json, engine: &Engine, context: &mut Context<H>) -> (r: Result<
    Json,
    Error,
>)
    ensures
        prefix(old(context).log(), final(context).log()),
        final(context).log().len() == old(context).log().len() ==> *final(context) == *old(context),
        forall|ext: Seq<Interaction>|
            prefix(final(context).log(), ext) ==> #[trigger] run_evaluate(
                engine@,
                data@,
                ext,
                old(context).log().len() as int,
            ) == Some((json_result(r), final(context).log().len() as int)),
{
    evaluate_with_engine(data, engine, context)
}

} // verus!
