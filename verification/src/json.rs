//! JSON values as plain data, with deep copies and member lookup.
use vstd::prelude::*;
use crate::text::text_eq;

verus! {

/// A JSON value; a number is kept as the text that represents it, an
/// object as its members in order.
pub enum JsonValue {
    Null,
    Bool(bool),
    Number(String),
    Text(String),
    Array(Vec<JsonValue>),
    Object(Vec<(String, JsonValue)>),
}

#[verifier::ext_equal]
pub ghost enum JsonView {
    Null,
    Bool(bool),
    Number(Seq<char>),
    Text(Seq<char>),
    Array(Seq<JsonView>),
    Object(Seq<(Seq<char>, JsonView)>),
}

pub open spec fn json_view(v: JsonValue) -> JsonView
    decreases v,
{
    match v {
        JsonValue::Null => JsonView::Null,
        JsonValue::Bool(b) => JsonView::Bool(b),
        JsonValue::Number(s) => JsonView::Number(s@),
        JsonValue::Text(s) => JsonView::Text(s@),
        JsonValue::Array(items) => JsonView::Array(
            Seq::new(
                items@.len(),
                |i: int|
                    if 0 <= i < items@.len() {
                        json_view(items@[i])
                    } else {
                        JsonView::Null
                    },
            ),
        ),
        JsonValue::Object(members) => JsonView::Object(
            Seq::new(
                members@.len(),
                |i: int|
                    if 0 <= i < members@.len() {
                        (members@[i].0@, json_view(members@[i].1))
                    } else {
                        (Seq::empty(), JsonView::Null)
                    },
            ),
        ),
    }
}

/// The value of the first member named `key`, when `v` is an object.
pub open spec fn member(v: JsonView, key: Seq<char>) -> Option<JsonView> {
    match v {
        JsonView::Object(members) => member_from(members, key, 0),
        _ => None,
    }
}

pub open spec fn member_from(members: Seq<(Seq<char>, JsonView)>, key: Seq<char>, k: int) -> Option<
    JsonView,
>
    decreases members.len() - k,
{
    if k < 0 || k >= members.len() {
        None
    } else if members[k].0 == key {
        Some(members[k].1)
    } else {
        member_from(members, key, k + 1)
    }
}

/// A copy of `v`.
pub fn copy_json(v: &JsonValue) -> (r: JsonValue)
    ensures
        json_view(r) == json_view(*v),
    decreases v,
{
    match v {
        JsonValue::Null => JsonValue::Null,
        JsonValue::Bool(b) => JsonValue::Bool(*b),
        JsonValue::Number(s) => JsonValue::Number(s.clone()),
        JsonValue::Text(s) => JsonValue::Text(s.clone()),
        JsonValue::Array(items) => {
            let mut out: Vec<JsonValue> = Vec::new();
            let mut j: usize = 0;
            while j < items.len()
                invariant
                    *v == JsonValue::Array(*items),
                    j <= items@.len(),
                    out@.len() == j,
                    forall|q: int| 0 <= q < j ==> json_view(#[trigger] out@[q]) == json_view(items@[q]),
                decreases items@.len() - j,
            {
                proof {
                    assert(decreases_to!(*v => (*v)->Array_0));
                    assert((*v)->Array_0 == *items);
                    assert(decreases_to!(*items => items@));
                    assert(decreases_to!(items@ => items@[j as int]));
                }
                let c = copy_json(&items[j]);
                out.push(c);
                j = j + 1;
            }
            let ghost a = Seq::new(out@.len(), |i: int| if 0 <= i < out@.len() { json_view(out@[i]) } else { JsonView::Null });
            let ghost b = Seq::new(items@.len(), |i: int| if 0 <= i < items@.len() { json_view(items@[i]) } else { JsonView::Null });
            assert(a =~= b);
            let r = JsonValue::Array(out);
            assert(json_view(r)->Array_0 =~= a);
            assert(json_view(*v)->Array_0 =~= b);
            r
        },
        JsonValue::Object(members) => {
            let mut out: Vec<(String, JsonValue)> = Vec::new();
            let mut j: usize = 0;
            while j < members.len()
                invariant
                    *v == JsonValue::Object(*members),
                    j <= members@.len(),
                    out@.len() == j,
                    forall|q: int|
                        0 <= q < j ==> (#[trigger] out@[q]).0@ == members@[q].0@ && json_view(out@[q].1)
                            == json_view(members@[q].1),
                decreases members@.len() - j,
            {
                let k = members[j].0.clone();
                proof {
                    assert(decreases_to!(*v => (*v)->Object_0));
                    assert((*v)->Object_0 == *members);
                    assert(decreases_to!(*members => members@));
                    assert(decreases_to!(members@ => members@[j as int]));
                    assert(decreases_to!(members@[j as int] => members@[j as int].1));
                }
                let c = copy_json(&members[j].1);
                out.push((k, c));
                j = j + 1;
            }
            let ghost a = Seq::new(out@.len(), |i: int| if 0 <= i < out@.len() { (out@[i].0@, json_view(out@[i].1)) } else { (Seq::empty(), JsonView::Null) });
            let ghost b = Seq::new(members@.len(), |i: int| if 0 <= i < members@.len() { (members@[i].0@, json_view(members@[i].1)) } else { (Seq::empty(), JsonView::Null) });
            assert(a =~= b);
            let r = JsonValue::Object(out);
            assert(json_view(r)->Object_0 =~= a);
            assert(json_view(*v)->Object_0 =~= b);
            r
        },
    }
}

/// The value of the first member named `key`, when `v` is an object.
pub fn get_member<'a>(v: &'a JsonValue, key: &str) -> (r: Option<&'a JsonValue>)
    ensures
        r matches Some(x) ==> member(json_view(*v), key@) == Some(json_view(*x)),
        r is None ==> member(json_view(*v), key@) is None,
{
    match v {
        JsonValue::Object(members) => {
            let ghost mv = match json_view(*v) {
                JsonView::Object(m) => m,
                _ => Seq::empty(),
            };
            let mut j: usize = 0;
            while j < members.len()
                invariant
                    j <= members@.len(),
                    member(json_view(*v), key@) == member_from(mv, key@, 0),
                    mv.len() == members@.len(),
                    forall|q: int| 0 <= q < members@.len() ==> #[trigger] mv[q] == (members@[q].0@, json_view(members@[q].1)),
                    member_from(mv, key@, j as int) == member_from(mv, key@, 0),
                decreases members@.len() - j,
            {
                assert(mv[j as int] == (members@[j as int].0@, json_view(members@[j as int].1)));
                if text_eq(members[j].0.as_str(), key) {
                    return Some(&members[j].1);
                }
                j = j + 1;
            }
            None
        },
        _ => None,
    }
}

} // verus!
