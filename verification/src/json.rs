//! The JSON data model that templates are evaluated against.
use vstd::prelude::*;

verus! {

/// A JSON number.
///
/// Integers that fit in an `i64` are held exactly. Any other number (a float, or
/// an integer beyond the `i64` range) is held as the decimal text that the JSON
/// layer prints for it; arithmetic on those is left to the [`crate::engine::Host`].
#[derive(Debug)]
pub enum Number {
    Int(i64),
    Decimal(String),
}

/// A JSON value. Object members keep their order; a lookup takes the first
/// member with the name.
#[derive(Debug)]
pub enum Json {
    Null,
    Bool(bool),
    Number(Number),
    String(String),
    Array(Vec<Json>),
    Object(Vec<(String, Json)>),
}

/// The mathematical value of a [`Number`].
pub enum NumberV {
    Int(i64),
    Decimal(Seq<char>),
}

/// The mathematical value of a [`Json`].
pub enum JsonV {
    Null,
    Bool(bool),
    Number(NumberV),
    Str(Seq<char>),
    Array(Seq<JsonV>),
    Object(Seq<(Seq<char>, JsonV)>),
}

/// The mathematical value of a number.
pub open spec fn number_view(n: Number) -> NumberV {
    match n {
        Number::Int(i) => NumberV::Int(i),
        Number::Decimal(s) => NumberV::Decimal(s@),
    }
}

impl View for Number {
    type V = NumberV;

    open spec fn view(&self) -> NumberV {
        number_view(*self)
    }
}

/// The mathematical value of a JSON value.
pub open spec fn json_view(j: Json) -> JsonV
    decreases j,
{
    match j {
        Json::Null => JsonV::Null,
        Json::Bool(b) => JsonV::Bool(b),
        Json::Number(n) => JsonV::Number(number_view(n)),
        Json::String(s) => JsonV::Str(s@),
        Json::Array(v) => JsonV::Array(array_view(v@)),
        Json::Object(v) => JsonV::Object(members_view(v@)),
    }
}

/// The mathematical values of array elements.
pub open spec fn array_view(s: Seq<Json>) -> Seq<JsonV>
    decreases s,
{
    if s.len() == 0 {
        Seq::empty()
    } else {
        seq![json_view(s[0])] + array_view(s.drop_first())
    }
}

/// The mathematical values of object members.
pub open spec fn members_view(s: Seq<(String, Json)>) -> Seq<(Seq<char>, JsonV)>
    decreases s,
{
    if s.len() == 0 {
        Seq::empty()
    } else {
        seq![(s[0].0@, json_view(s[0].1))] + members_view(s.drop_first())
    }
}

impl View for Json {
    type V = JsonV;

    open spec fn view(&self) -> JsonV {
        json_view(*self)
    }
}

/// The values of the elements, one by one.
pub proof fn lemma_array_view(s: Seq<Json>)
    ensures
        array_view(s).len() == s.len(),
        forall|i: int| 0 <= i < s.len() ==> #[trigger] array_view(s)[i] == json_view(s[i]),
    decreases s.len(),
{
    if s.len() > 0 {
        lemma_array_view(s.drop_first());
        assert forall|i: int| 0 <= i < s.len() implies #[trigger] array_view(s)[i] == json_view(
            s[i],
        ) by {
            if i > 0 {
                assert(s.drop_first()[i - 1] == s[i]);
            }
        }
    }
}

/// The values of the members, one by one.
pub proof fn lemma_members_view(s: Seq<(String, Json)>)
    ensures
        members_view(s).len() == s.len(),
        forall|i: int|
            0 <= i < s.len() ==> #[trigger] members_view(s)[i] == (s[i].0@, json_view(s[i].1)),
    decreases s.len(),
{
    if s.len() > 0 {
        lemma_members_view(s.drop_first());
        assert forall|i: int| 0 <= i < s.len() implies #[trigger] members_view(s)[i] == (
            s[i].0@,
            json_view(s[i].1),
        ) by {
            if i > 0 {
                assert(s.drop_first()[i - 1] == s[i]);
            }
        }
    }
}


/// The first member of `m` named `k`.
pub open spec fn member_get(m: Seq<(Seq<char>, JsonV)>, k: Seq<char>) -> Option<JsonV>
    decreases m.len(),
{
    if m.len() == 0 {
        None
    } else if m[0].0 == k {
        Some(m[0].1)
    } else {
        member_get(m.drop_first(), k)
    }
}

/// Whether a decimal text is one of the two texts of zero.
pub open spec fn is_zero_text(s: Seq<char>) -> bool {
    s == seq!['0', '.', '0'] || s == seq!['-', '0', '.', '0']
}

/// Equality of two numbers as JSON values: integers by value, decimal texts by
/// their text, where the two zeros are equal.
pub open spec fn number_equal(a: NumberV, b: NumberV) -> bool {
    match (a, b) {
        (NumberV::Int(x), NumberV::Int(y)) => x == y,
        (NumberV::Decimal(s), NumberV::Decimal(t)) => s == t || (is_zero_text(s) && is_zero_text(t)),
        _ => false,
    }
}

/// Equality of JSON values: same kind and equal contents; arrays element by
/// element, objects as maps from names to values.
pub open spec fn json_equal(a: JsonV, b: JsonV) -> bool
    decreases a,
{
    match (a, b) {
        (JsonV::Null, JsonV::Null) => true,
        (JsonV::Bool(x), JsonV::Bool(y)) => x == y,
        (JsonV::Number(x), JsonV::Number(y)) => number_equal(x, y),
        (JsonV::Str(x), JsonV::Str(y)) => x == y,
        (JsonV::Array(x), JsonV::Array(y)) => elements_equal(x, y),
        (JsonV::Object(x), JsonV::Object(y)) => x.len() == y.len() && members_within(x, y),
        _ => false,
    }
}

/// Element-wise equality of two arrays; see [`json_equal`].
pub open spec fn elements_equal(a: Seq<JsonV>, b: Seq<JsonV>) -> bool
    decreases a,
{
    if a.len() == 0 {
        b.len() == 0
    } else {
        b.len() > 0 && json_equal(a[0], b[0]) && elements_equal(a.drop_first(), b.drop_first())
    }
}

/// Every member of `a` is found in `b` with an equal value.
pub open spec fn members_within(a: Seq<(Seq<char>, JsonV)>, b: Seq<(Seq<char>, JsonV)>) -> bool
    decreases a,
{
    if a.len() == 0 {
        true
    } else {
        match member_get(b, a[0].0) {
            Some(v) => json_equal(a[0].1, v) && members_within(a.drop_first(), b),
            None => false,
        }
    }
}

/// Two arrays are equal exactly where they have the same length and equal elements.
pub proof fn lemma_elements_equal(a: Seq<JsonV>, b: Seq<JsonV>)
    ensures
        elements_equal(a, b) <==> (a.len() == b.len() && forall|i: int|
            0 <= i < a.len() ==> #[trigger] json_equal(a[i], b[i])),
    decreases a.len(),
{
    if a.len() > 0 && b.len() > 0 {
        lemma_elements_equal(a.drop_first(), b.drop_first());
        if a.len() == b.len() && forall|i: int| 0 <= i < a.len() ==> #[trigger] json_equal(a[i], b[i]) {
            assert(json_equal(a[0], b[0]));
            assert forall|i: int| 0 <= i < a.len() - 1 implies #[trigger] json_equal(
                a.drop_first()[i],
                b.drop_first()[i],
            ) by {
                assert(json_equal(a[i + 1], b[i + 1]));
            }
        }
        if elements_equal(a, b) {
            assert forall|i: int| 0 <= i < a.len() implies #[trigger] json_equal(a[i], b[i]) by {
                if i > 0 {
                    assert(json_equal(a.drop_first()[i - 1], b.drop_first()[i - 1]));
                }
            }
        }
    }
}

proof fn lemma_members_within(a: Seq<(Seq<char>, JsonV)>, b: Seq<(Seq<char>, JsonV)>)
    ensures
        members_within(a, b) <==> forall|i: int|
            0 <= i < a.len() ==> (#[trigger] member_get(b, a[i].0) is Some && json_equal(
                a[i].1,
                member_get(b, a[i].0)->0,
            )),
    decreases a.len(),
{
    if a.len() > 0 {
        lemma_members_within(a.drop_first(), b);
        if forall|i: int|
            0 <= i < a.len() ==> (#[trigger] member_get(b, a[i].0) is Some && json_equal(
                a[i].1,
                member_get(b, a[i].0)->0,
            )) {
            assert(member_get(b, a[0].0) is Some);
            assert forall|i: int| 0 <= i < a.len() - 1 implies (#[trigger] member_get(
                b,
                a.drop_first()[i].0,
            ) is Some && json_equal(
                a.drop_first()[i].1,
                member_get(b, a.drop_first()[i].0)->0,
            )) by {
                assert(a.drop_first()[i] == a[i + 1]);
                assert(member_get(b, a[i + 1].0) is Some);
            }
        }
        if members_within(a, b) {
            assert forall|i: int| 0 <= i < a.len() implies (#[trigger] member_get(
                b,
                a[i].0,
            ) is Some && json_equal(a[i].1, member_get(b, a[i].0)->0)) by {
                if i > 0 {
                    assert(a.drop_first()[i - 1] == a[i]);
                    assert(member_get(b, a.drop_first()[i - 1].0) is Some);
                }
            }
        }
    }
}

/// One more member adds its value at the end.
pub proof fn lemma_members_view_push(s: Seq<(String, Json)>, x: (String, Json))
    ensures
        members_view(s.push(x)) == members_view(s) + seq![(x.0@, json_view(x.1))],
{
    lemma_members_view(s);
    lemma_members_view(s.push(x));
    assert(members_view(s.push(x)) =~= members_view(s) + seq![(x.0@, json_view(x.1))]);
}

/// The first member of `m` named `k`.
pub fn find_member<'a>(m: &'a Vec<(String, Json)>, k: &str) -> (r: Option<&'a Json>)
    ensures
        match r {
            Some(v) => member_get(members_view(m@), k@) == Some(json_view(*v)),
            None => member_get(members_view(m@), k@) is None,
        },
{
    let mut i: usize = 0;
    assert(members_view(m@).skip(0) =~= members_view(m@));
    while i < m.len()
        invariant
            i <= m.len(),
            member_get(members_view(m@), k@) == member_get(members_view(m@).skip(i as int), k@),
        decreases m.len() - i,
    {
        proof {
            lemma_members_view(m@);
            let rest = members_view(m@).skip(i as int);
            assert(rest[0] == members_view(m@)[i as int]);
            assert(rest.drop_first() == members_view(m@).skip(i + 1));
        }
        if str_eq(m[i].0.as_str(), k) {
            return Some(&m[i].1);
        }
        i = i + 1;
    }
    proof {
        lemma_members_view(m@);
    }
    None
}

/// Whether two texts are equal.
pub fn str_eq(a: &str, b: &str) -> (r: bool)
    ensures
        r == (a@ == b@),
{
    let la = a.unicode_len();
    let lb = b.unicode_len();
    if la != lb {
        return false;
    }
    let mut i: usize = 0;
    while i < la
        invariant
            la == a@.len(),
            lb == b@.len(),
            la == lb,
            i <= la,
            forall|j: int| 0 <= j < i ==> a@[j] == b@[j],
        decreases la - i,
    {
        if a.get_char(i) != b.get_char(i) {
            return false;
        }
        i = i + 1;
    }
    assert(a@ =~= b@);
    true
}

fn is_zero_decimal(s: &str) -> (r: bool)
    ensures
        r == is_zero_text(s@),
{
    let n = s.unicode_len();
    if n == 3 {
        let r = s.get_char(0) == '0' && s.get_char(1) == '.' && s.get_char(2) == '0';
        proof {
            if r {
                assert(s@ =~= seq!['0', '.', '0']);
            }
        }
        r
    } else if n == 4 {
        let r = s.get_char(0) == '-' && s.get_char(1) == '0' && s.get_char(2) == '.' && s.get_char(3)
            == '0';
        proof {
            if r {
                assert(s@ =~= seq!['-', '0', '.', '0']);
            }
        }
        r
    } else {
        false
    }
}

/// Equality of two numbers as JSON values.
pub fn number_eq(a: &Number, b: &Number) -> (r: bool)
    ensures
        r == number_equal(a@, b@),
{
    match (a, b) {
        (Number::Int(x), Number::Int(y)) => *x == *y,
        (Number::Decimal(s), Number::Decimal(t)) => str_eq(s.as_str(), t.as_str()) || (
        is_zero_decimal(s.as_str()) && is_zero_decimal(t.as_str())),
        _ => false,
    }
}

/// Equality of two JSON values.
#[verifier::loop_isolation(false)]
pub fn json_eq(a: &Json, b: &Json) -> (r: bool)
    ensures
        r == json_equal(a@, b@),
    decreases a@,
{
    match (a, b) {
        (Json::Null, Json::Null) => true,
        (Json::Bool(x), Json::Bool(y)) => *x == *y,
        (Json::Number(x), Json::Number(y)) => number_eq(x, y),
        (Json::String(x), Json::String(y)) => str_eq(x.as_str(), y.as_str()),
        (Json::Array(x), Json::Array(y)) => {
            proof {
                lemma_array_view(x@);
                lemma_array_view(y@);
                lemma_elements_equal(array_view(x@), array_view(y@));
            }
            if x.len() != y.len() {
                return false;
            }
            let mut i: usize = 0;
            while i < x.len()
                invariant
                    x.len() == y.len(),
                    i <= x.len(),
                    forall|j: int| 0 <= j < i ==> #[trigger] json_equal(json_view(x@[j]), json_view(y@[j])),
                decreases x.len() - i,
            {
                proof {
                    let av = array_view(x@);
                    assert(av[i as int] == json_view(x@[i as int]));
                    assert(decreases_to!(a@ => a@->Array_0));
                    assert(decreases_to!(a@->Array_0 => (a@->Array_0)[i as int]));
                }
                if !json_eq(&x[i], &y[i]) {
                    assert(!json_equal(array_view(x@)[i as int], array_view(y@)[i as int]));
                    return false;
                }
                i = i + 1;
            }
            true
        },
        (Json::Object(x), Json::Object(y)) => {
            proof {
                lemma_members_view(x@);
                lemma_members_view(y@);
                lemma_members_within(members_view(x@), members_view(y@));
            }
            if x.len() != y.len() {
                return false;
            }
            let mut i: usize = 0;
            while i < x.len()
                invariant
                    x.len() == y.len(),
                    i <= x.len(),
                    forall|j: int| 0 <= j < i ==> (#[trigger] member_get(members_view(y@), x@[j].0@) is Some
                        && json_equal(json_view(x@[j].1), member_get(members_view(y@), x@[j].0@)->0)),
                decreases x.len() - i,
            {
                match find_member(y, x[i].0.as_str()) {
                    Some(v) => {
                        proof {
                            let mv = members_view(x@);
                            assert(mv[i as int].1 == json_view(x@[i as int].1));
                            assert(decreases_to!(a@ => a@->Object_0));
                            assert(decreases_to!(a@->Object_0 => (a@->Object_0)[i as int]));
                            assert(decreases_to!((a@->Object_0)[i as int] => (a@->Object_0)[i as int].1));
                        }
                        if !json_eq(&x[i].1, v) {
                            assert(members_view(x@)[i as int] == (x@[i as int].0@, json_view(x@[i as int].1)));
                            assert(!json_equal(members_view(x@)[i as int].1, member_get(members_view(y@), members_view(x@)[i as int].0)->0));
                            return false;
                        }
                    },
                    None => {
                        assert(members_view(x@)[i as int] == (x@[i as int].0@, json_view(x@[i as int].1)));
                        assert(member_get(members_view(y@), members_view(x@)[i as int].0) is None);
                        return false;
                    },
                }
                i = i + 1;
            }
            proof {
                assert forall|j: int| 0 <= j < members_view(x@).len() implies (#[trigger] member_get(
                    members_view(y@),
                    members_view(x@)[j].0,
                ) is Some && json_equal(
                    members_view(x@)[j].1,
                    member_get(members_view(y@), members_view(x@)[j].0)->0,
                )) by {
                    assert(member_get(members_view(y@), x@[j].0@) is Some);
                }
            }
            true
        },
        _ => false,
    }
}

/// A copy of a number.
pub fn copy_number(n: &Number) -> (r: Number)
    ensures
        r@ == n@,
{
    match n {
        Number::Int(i) => Number::Int(*i),
        Number::Decimal(s) => Number::Decimal(s.clone()),
    }
}

/// A copy of a JSON value.
#[verifier::loop_isolation(false)]
pub fn copy_json(j: &Json) -> (r: Json)
    ensures
        r@ == j@,
    decreases j@,
{
    match j {
        Json::Null => Json::Null,
        Json::Bool(b) => Json::Bool(*b),
        Json::Number(n) => Json::Number(copy_number(n)),
        Json::String(s) => Json::String(s.clone()),
        Json::Array(v) => {
            proof {
                lemma_array_view(v@);
            }
            let mut out: Vec<Json> = Vec::new();
            let mut i: usize = 0;
            while i < v.len()
                invariant
                    i <= v@.len(),
                    out@.len() == i,
                    forall|k: int| 0 <= k < i ==> #[trigger] json_view(out@[k]) == json_view(v@[k]),
                decreases v@.len() - i,
            {
                proof {
                    assert(array_view(v@)[i as int] == json_view(v@[i as int]));
                    assert(decreases_to!(j@ => j@->Array_0));
                    assert(decreases_to!(j@->Array_0 => (j@->Array_0)[i as int]));
                }
                let c = copy_json(&v[i]);
                out.push(c);
                i = i + 1;
            }
            proof {
                lemma_array_view(out@);
                assert(array_view(out@) =~= array_view(v@));
            }
            Json::Array(out)
        },
        Json::Object(m) => {
            proof {
                lemma_members_view(m@);
            }
            let mut out: Vec<(String, Json)> = Vec::new();
            let mut i: usize = 0;
            while i < m.len()
                invariant
                    i <= m@.len(),
                    out@.len() == i,
                    forall|k: int|
                        0 <= k < i ==> #[trigger] out@[k].0@ == m@[k].0@ && json_view(out@[k].1)
                            == json_view(m@[k].1),
                decreases m@.len() - i,
            {
                proof {
                    let mv = members_view(m@);
                    assert(mv[i as int].1 == json_view(m@[i as int].1));
                    assert(decreases_to!(j@ => j@->Object_0));
                    assert(decreases_to!(j@->Object_0 => (j@->Object_0)[i as int]));
                    assert(decreases_to!((j@->Object_0)[i as int] => (j@->Object_0)[i as int].1));
                }
                let c = copy_json(&m[i].1);
                out.push((m[i].0.clone(), c));
                i = i + 1;
            }
            proof {
                lemma_members_view(out@);
                assert(members_view(out@) =~= members_view(m@));
            }
            Json::Object(out)
        },
    }
}

} // verus!
