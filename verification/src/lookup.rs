//! Finding the value an identifier points at.
use vstd::prelude::*;
use crate::ast::{id_value_view, IdV, Identifier, IdentifierValue};
use crate::error::Error;
use crate::json::{find_member, json_view, lemma_array_view, member_get, Json, JsonV};

verus! {

/// The mathematical value of a path.
pub open spec fn path_view(p: Seq<IdentifierValue>) -> Seq<IdV> {
    p.map_values(|v: IdentifierValue| id_value_view(v))
}

/// The absolute path reached from `base` by following the steps of `rest`:
/// a name or an index goes one level down, `super` one level up.
pub open spec fn walk(base: Seq<IdV>, rest: Seq<IdV>) -> Option<Seq<IdV>>
    decreases rest.len(),
{
    if rest.len() == 0 {
        Some(base)
    } else {
        match rest[0] {
            IdV::Name(_) => walk(base.push(rest[0]), rest.drop_first()),
            IdV::Index(_) => walk(base.push(rest[0]), rest.drop_first()),
            IdV::Super => if base.len() == 0 {
                None
            } else {
                walk(base.drop_last(), rest.drop_first())
            },
            IdV::This => None,
        }
    }
}

/// The absolute path an identifier denotes when evaluated at `position`.
/// An identifier that starts with `this` or `super` is relative to the position;
/// any other identifier starts at the root.
pub open spec fn resolve(id: Seq<IdV>, position: Seq<IdV>) -> Option<Seq<IdV>> {
    if id.len() > 0 && id[0] == IdV::This {
        walk(position, id.drop_first())
    } else if id.len() > 0 && id[0] == IdV::Super {
        walk(position, id)
    } else {
        walk(Seq::empty(), id)
    }
}

/// The value found at an absolute path.
pub open spec fn value_at(data: JsonV, path: Seq<IdV>) -> Option<JsonV>
    decreases path.len(),
{
    if path.len() == 0 {
        Some(data)
    } else {
        match path[0] {
            IdV::Name(k) => match data {
                JsonV::Object(m) => match member_get(m, k) {
                    Some(v) => value_at(v, path.drop_first()),
                    None => None,
                },
                _ => None,
            },
            IdV::Index(i) => match data {
                JsonV::Array(a) => if 0 <= i < a.len() {
                    value_at(a[i as int], path.drop_first())
                } else {
                    None
                },
                _ => None,
            },
            _ => None,
        }
    }
}

/// The value an identifier points at, evaluated at `position`.
pub open spec fn lookup(data: JsonV, id: Seq<IdV>, position: Seq<IdV>) -> Option<JsonV> {
    match resolve(id, position) {
        Some(p) => value_at(data, p),
        None => None,
    }
}

fn copy_path(p: &Vec<IdentifierValue>) -> (r: Vec<IdentifierValue>)
    ensures
        path_view(r@) == path_view(p@),
{
    let mut r: Vec<IdentifierValue> = Vec::new();
    let mut i: usize = 0;
    while i < p.len()
        invariant
            i <= p@.len(),
            r@.len() == i,
            forall|j: int| 0 <= j < i ==> #[trigger] r@[j]@ == p@[j]@,
        decreases p@.len() - i,
    {
        r.push(p[i].clone_value());
        i = i + 1;
    }
    assert(path_view(r@) =~= path_view(p@)) by {
        assert forall|j: int| 0 <= j < r@.len() implies path_view(r@)[j] == path_view(p@)[j] by {
            assert(r@[j]@ == p@[j]@);
        }
    }
    r
}

/// The absolute path an identifier denotes when evaluated at `position`.
pub fn resolve_identifier(id: &Identifier, position: &Identifier) -> (r: Option<
    Vec<IdentifierValue>,
>)
    ensures
        match r {
            Some(p) => resolve(id@, position@) == Some(path_view(p@)),
            None => resolve(id@, position@) is None,
        },
{
    let n = id.values.len();
    let ghost idv = id@;
    let mut start: usize = 0;
    let mut base: Vec<IdentifierValue>;
    if n > 0 && matches!(id.values[0], IdentifierValue::This) {
        base = copy_path(&position.values);
        start = 1;
    } else if n > 0 && matches!(id.values[0], IdentifierValue::Super) {
        base = copy_path(&position.values);
    } else {
        base = Vec::new();
        assert(path_view(base@) =~= Seq::<IdV>::empty());
    }
    assert(idv.skip(start as int) =~= if start == 1 { idv.drop_first() } else { idv });
    assert(walk(path_view(base@), idv.skip(start as int)) == resolve(idv, position@));
    let mut i: usize = start;
    while i < n
        invariant
            n == id.values@.len(),
            idv == id@,
            start <= i <= n,
            walk(path_view(base@), idv.skip(i as int)) == resolve(idv, position@),
        decreases n - i,
    {
        let ghost rest = idv.skip(i as int);
        let ghost before = path_view(base@);
        assert(rest[0] == id.values@[i as int]@);
        assert(rest.drop_first() =~= idv.skip(i + 1));
        match &id.values[i] {
            IdentifierValue::Name(s) => {
                base.push(IdentifierValue::Name(s.clone()));
                assert(path_view(base@) =~= before.push(rest[0]));
            },
            IdentifierValue::Index(x) => {
                base.push(IdentifierValue::Index(*x));
                assert(path_view(base@) =~= before.push(rest[0]));
            },
            IdentifierValue::Super => {
                if base.len() == 0 {
                    return None;
                }
                base.pop();
                assert(path_view(base@) =~= before.drop_last());
            },
            IdentifierValue::This => {
                return None;
            },
        }
        i = i + 1;
    }
    assert(idv.skip(n as int) =~= Seq::<IdV>::empty());
    Some(base)
}

/// The value found at an absolute path.
pub fn value_at_path<'a>(data: &'a Json, path: &Vec<IdentifierValue>) -> (r: Option<&'a Json>)
    ensures
        match r {
            Some(v) => value_at(data@, path_view(path@)) == Some(json_view(*v)),
            None => value_at(data@, path_view(path@)) is None,
        },
{
    let mut cur: &Json = data;
    let mut i: usize = 0;
    let ghost pv = path_view(path@);
    assert(pv.skip(0) =~= pv);
    while i < path.len()
        invariant
            i <= path@.len(),
            pv == path_view(path@),
            value_at(data@, pv) == value_at(json_view(*cur), pv.skip(i as int)),
        decreases path@.len() - i,
    {
        let ghost rest = pv.skip(i as int);
        assert(rest[0] == path@[i as int]@);
        assert(rest.drop_first() =~= pv.skip(i + 1));
        match &path[i] {
            IdentifierValue::Name(k) => {
                match cur {
                    Json::Object(m) => {
                        match find_member(m, k.as_str()) {
                            Some(v) => {
                                cur = v;
                            },
                            None => {
                                return None;
                            },
                        }
                    },
                    _ => {
                        return None;
                    },
                }
            },
            IdentifierValue::Index(x) => {
                match cur {
                    Json::Array(a) => {
                        proof {
                            lemma_array_view(a@);
                        }
                        if *x < 0 || *x as usize >= a.len() {
                            return None;
                        }
                        cur = &a[*x as usize];
                    },
                    _ => {
                        return None;
                    },
                }
            },
            _ => {
                return None;
            },
        }
        i = i + 1;
    }
    assert(pv.skip(path@.len() as int) =~= Seq::<IdV>::empty());
    Some(cur)
}

/// The value an identifier points at, evaluated at `position`.
pub fn lookup_identifier<'a>(data: &'a Json, id: &Identifier, position: &Identifier) -> (r: Result<
    &'a Json,
    Error,
>)
    ensures
        match r {
            Ok(v) => lookup(data@, id@, position@) == Some(json_view(*v)),
            Err(e) => lookup(data@, id@, position@) is None && e == Error::IdentifierNotFound,
        },
{
    match resolve_identifier(id, position) {
        Some(p) => match value_at_path(data, &p) {
            Some(v) => Ok(v),
            None => Err(Error::IdentifierNotFound),
        },
        None => Err(Error::IdentifierNotFound),
    }
}

} // verus!
