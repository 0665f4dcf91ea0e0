//! JSON values as plain data: what `serde_json` parses a text into, held
//! in a type of the library, and the key search the onepace.net payload
//! needs.

use vstd::prelude::*;

use crate::text::{chars_of, str_eq_chars};

verus! {

#[verifier::external_type_specification]
#[verifier::external_body]
pub struct ExJsonValue(serde_json::Value);

/// A JSON value. An object keeps its members in the order `serde_json`
/// hands them out (by key, each key once).
pub enum Json {
    Null,
    Bool(bool),
    Number(String),
    Str(String),
    Array(Vec<Json>),
    Object(Vec<(String, Json)>),
}

/// A JSON value as values; an object is its keys and, index for index,
/// their values.
pub enum JsonView {
    Null,
    Bool(bool),
    Number(Seq<char>),
    Str(Seq<char>),
    Array(Seq<JsonView>),
    Object(Seq<Seq<char>>, Seq<JsonView>),
}

pub open spec fn json_view(j: Json) -> JsonView
    decreases j,
{
    match j {
        Json::Null => JsonView::Null,
        Json::Bool(b) => JsonView::Bool(b),
        Json::Number(n) => JsonView::Number(n@),
        Json::Str(s) => JsonView::Str(s@),
        Json::Array(a) => JsonView::Array(json_views(a@)),
        Json::Object(m) => JsonView::Object(member_keys(m@), member_views(m@)),
    }
}

/// The views of a list of values.
pub open spec fn json_views(a: Seq<Json>) -> Seq<JsonView>
    decreases a,
{
    if a.len() == 0 {
        seq![]
    } else {
        json_views(a.subrange(0, a.len() - 1)).push(json_view(a[a.len() - 1]))
    }
}

/// The keys of an object's members.
pub open spec fn member_keys(m: Seq<(String, Json)>) -> Seq<Seq<char>> {
    m.map_values(|p: (String, Json)| p.0@)
}

/// The views of an object's member values.
pub open spec fn member_views(m: Seq<(String, Json)>) -> Seq<JsonView>
    decreases m,
{
    if m.len() == 0 {
        seq![]
    } else {
        member_views(m.subrange(0, m.len() - 1)).push(json_view(m[m.len() - 1].1))
    }
}

impl View for Json {
    type V = JsonView;

    open spec fn view(&self) -> JsonView {
        json_view(*self)
    }
}

/// The views of a list, element by element.
pub proof fn lemma_json_views(a: Seq<Json>)
    ensures
        json_views(a).len() == a.len(),
        forall|i: int| 0 <= i < a.len() ==> #[trigger] json_views(a)[i] == json_view(a[i]),
    decreases a.len(),
{
    if a.len() > 0 {
        let d = a.subrange(0, a.len() - 1);
        lemma_json_views(d);
        assert forall|i: int| 0 <= i < a.len() implies #[trigger] json_views(a)[i] == json_view(a[i]) by {
            if i < a.len() - 1 {
                assert(d[i] == a[i]);
            }
        }
    }
}

/// The member views of an object, member by member.
pub proof fn lemma_member_views(m: Seq<(String, Json)>)
    ensures
        member_views(m).len() == m.len(),
        member_keys(m).len() == m.len(),
        forall|i: int| 0 <= i < m.len() ==> #[trigger] member_views(m)[i] == json_view(m[i].1),
        forall|i: int| 0 <= i < m.len() ==> #[trigger] member_keys(m)[i] == m[i].0@,
    decreases m.len(),
{
    if m.len() > 0 {
        let d = m.subrange(0, m.len() - 1);
        lemma_member_views(d);
        assert forall|i: int| 0 <= i < m.len() implies #[trigger] member_views(m)[i] == json_view(m[i].1) by {
            if i < m.len() - 1 {
                assert(d[i] == m[i]);
            }
        }
    }
}

pub open spec fn opt_json_view(o: Option<Json>) -> Option<JsonView> {
    match o {
        Some(j) => Some(j@),
        None => None,
    }
}

/// What `serde_json::from_str::<serde_json::Value>` parses a text into,
/// if it parses.
pub uninterp spec fn json_of(s: Seq<char>) -> Option<JsonView>;

/// A `serde_json::Value` rewritten one for one as a `Json` (an object's
/// members in the map's key order).
#[verifier::external_body]
fn json_from_value(v: serde_json::Value) -> Json {
    match v {
        serde_json::Value::Null => Json::Null,
        serde_json::Value::Bool(b) => Json::Bool(b),
        serde_json::Value::Number(n) => Json::Number(n.to_string()),
        serde_json::Value::String(t) => Json::Str(t),
        serde_json::Value::Array(a) => Json::Array(a.into_iter().map(json_from_value).collect()),
        serde_json::Value::Object(m) => Json::Object(m.into_iter().map(|(k, x)| (k, json_from_value(x))).collect()),
    }
}

/// `serde_json::from_str::<serde_json::Value>`: the value the text holds,
/// `None` when it is not JSON; the result is named `json_of`.
#[verifier::external_body]
pub fn parse_json(s: &str) -> (r: Option<Json>)
    ensures
        opt_json_view(r) == json_of(s@),
{
    serde_json::from_str::<serde_json::Value>(s).ok().map(json_from_value)
}

/// The index of the first member named `k`.
pub open spec fn key_index(keys: Seq<Seq<char>>, k: Seq<char>) -> Option<int>
    decreases keys.len(),
{
    if keys.len() == 0 {
        None
    } else {
        match key_index(keys.drop_last(), k) {
            Some(i) => Some(i),
            None => if keys.last() == k {
                Some(keys.len() - 1)
            } else {
                None
            },
        }
    }
}

/// The value of member `k` of an object, if it is one and has that key.
pub open spec fn member(v: JsonView, k: Seq<char>) -> Option<JsonView> {
    match v {
        JsonView::Object(ks, vs) => match key_index(ks, k) {
            Some(i) => Some(vs[i]),
            None => None,
        },
        _ => None,
    }
}

/// The first value under key `k` met by a depth-first walk of `v` that
/// keeps a stack: an object answers with its own member `k` before its
/// children; children (member values, array elements) are searched from
/// the last to the first, each completely before the one before it.
pub open spec fn find_key_at(v: JsonView, k: Seq<char>) -> Option<JsonView>
    decreases v,
{
    match v {
        JsonView::Object(ks, vs) => match key_index(ks, k) {
            Some(i) => Some(vs[i]),
            None => find_key_in(vs, k),
        },
        JsonView::Array(a) => find_key_in(a, k),
        _ => None,
    }
}

/// `find_key_at` over a list, its last element first.
pub open spec fn find_key_in(l: Seq<JsonView>, k: Seq<char>) -> Option<JsonView>
    decreases l,
{
    if l.len() == 0 {
        None
    } else {
        match find_key_at(l[l.len() - 1], k) {
            Some(x) => Some(x),
            None => find_key_in(l.subrange(0, l.len() - 1), k),
        }
    }
}

proof fn lemma_key_index_prefix(keys: Seq<Seq<char>>, k: Seq<char>, n: int)
    requires
        0 <= n <= keys.len(),
    ensures
        key_index(keys.subrange(0, n), k) is Some ==> key_index(keys, k) == key_index(keys.subrange(0, n), k),
        n == keys.len() ==> key_index(keys, k) == key_index(keys.subrange(0, n), k),
        n == keys.len() ==> keys.subrange(0, n) == keys,
    decreases keys.len() - n,
{
    if n < keys.len() {
        lemma_key_index_prefix(keys, k, n + 1);
        assert(keys.subrange(0, n + 1).drop_last() == keys.subrange(0, n));
    } else {
        assert(keys.subrange(0, n) == keys);
    }
}

/// The first member of `m` named `k`, by a forward scan.
fn member_index(m: &Vec<(String, Json)>, k: &Vec<char>) -> (r: Option<usize>)
    ensures
        match r {
            Some(i) => i < m@.len() && key_index(member_keys(m@), k@) == Some(i as int),
            None => key_index(member_keys(m@), k@) is None,
        },
{
    let ghost keys = member_keys(m@);
    proof {
        lemma_member_views(m@);
    }
    let mut i: usize = 0;
    while i < m.len()
        invariant
            i <= m@.len(),
            keys == member_keys(m@),
            keys.len() == m@.len(),
            forall|t: int| 0 <= t < m@.len() ==> #[trigger] keys[t] == m@[t].0@,
            key_index(keys.subrange(0, i as int), k@) is None,
        decreases m@.len() - i,
    {
        assert(keys.subrange(0, i + 1).drop_last() == keys.subrange(0, i as int));
        assert(keys.subrange(0, i + 1).last() == keys[i as int]);
        if str_eq_chars(m[i].0.as_str(), k) {
            proof {
                lemma_key_index_prefix(keys, k@, i + 1);
            }
            return Some(i);
        }
        i = i + 1;
    }
    proof {
        lemma_key_index_prefix(keys, k@, i as int);
    }
    None
}

proof fn lemma_find_step(l: Seq<JsonView>, k: Seq<char>, j: int)
    requires
        0 < j <= l.len(),
    ensures
        find_key_in(l.subrange(0, j), k) == match find_key_at(l[j - 1], k) {
            Some(x) => Some(x),
            None => find_key_in(l.subrange(0, j - 1), k),
        },
{
    let s = l.subrange(0, j);
    assert(s[s.len() - 1] == l[j - 1]);
    assert(s.subrange(0, s.len() - 1) == l.subrange(0, j - 1));
}

/// The first value under key `k` in a depth-first walk of `v`, as
/// `find_key_at` orders it.
pub fn find_key<'a>(v: &'a Json, k: &str) -> (r: Option<&'a Json>)
    ensures
        match r {
            Some(x) => find_key_at(v@, k@) == Some(x@),
            None => find_key_at(v@, k@) is None,
        },
    decreases v,
{
    let kv = chars_of(k);
    match v {
        Json::Object(m) => {
            proof {
                lemma_member_views(m@);
            }
            let ghost vs = member_views(m@);
            match member_index(m, &kv) {
                Some(i) => {
                    return Some(&m[i].1);
                },
                None => {},
            }
            assert(v@ == JsonView::Object(member_keys(m@), vs));
            assert(find_key_at(v@, k@) == find_key_in(vs, k@));
            let mut j: usize = m.len();
            assert(vs.subrange(0, j as int) == vs);
            while j > 0
                invariant
                    j <= m@.len(),
                    vs == member_views(m@),
                    vs.len() == m@.len(),
                    forall|t: int| 0 <= t < m@.len() ==> #[trigger] vs[t] == json_view(m@[t].1),
                    find_key_in(vs, k@) == find_key_in(vs.subrange(0, j as int), k@),
                    find_key_at(v@, k@) == find_key_in(vs, k@),
                    *v == Json::Object(*m),
                decreases j,
            {
                proof {
                    lemma_find_step(vs, k@, j as int);
                }
                proof {
                    let e = m@[j - 1];
                    assert((*v)->Object_0 == *m);
                    assert(decreases_to!(*v => (*v)->Object_0));
                    assert(decreases_to!(*m => m@));
                    assert(decreases_to!(m@ => e));
                    assert(decreases_to!(e => e.1));
                    assert(decreases_to!(*v => e.1));
                }
                match find_key(&m[j - 1].1, k) {
                    Some(x) => {
                        return Some(x);
                    },
                    None => {},
                }
                j = j - 1;
            }
            None
        },
        Json::Array(a) => {
            proof {
                lemma_json_views(a@);
            }
            let ghost vs = json_views(a@);
            assert(v@ == JsonView::Array(vs));
            assert(find_key_at(v@, k@) == find_key_in(vs, k@));
            let mut j: usize = a.len();
            assert(vs.subrange(0, j as int) == vs);
            while j > 0
                invariant
                    j <= a@.len(),
                    vs == json_views(a@),
                    vs.len() == a@.len(),
                    forall|t: int| 0 <= t < a@.len() ==> #[trigger] vs[t] == json_view(a@[t]),
                    find_key_in(vs, k@) == find_key_in(vs.subrange(0, j as int), k@),
                    find_key_at(v@, k@) == find_key_in(vs, k@),
                    *v == Json::Array(*a),
                decreases j,
            {
                proof {
                    lemma_find_step(vs, k@, j as int);
                }
                proof {
                    let e = a@[j - 1];
                    assert((*v)->Array_0 == *a);
                    assert(decreases_to!(*v => (*v)->Array_0));
                    assert(decreases_to!(*a => a@));
                    assert(decreases_to!(a@ => e));
                    assert(decreases_to!(*v => e));
                }
                match find_key(&a[j - 1], k) {
                    Some(x) => {
                        return Some(x);
                    },
                    None => {},
                }
                j = j - 1;
            }
            None
        },
        _ => None,
    }
}

/// The value of member `k` of `v`, when `v` is an object that has it.
pub fn member_value<'a>(v: &'a Json, k: &str) -> (r: Option<&'a Json>)
    ensures
        match r {
            Some(x) => member(v@, k@) == Some(x@),
            None => member(v@, k@) is None,
        },
{
    match v {
        Json::Object(m) => {
            proof {
                lemma_member_views(m@);
            }
            let kv = chars_of(k);
            match member_index(m, &kv) {
                Some(i) => Some(&m[i].1),
                None => None,
            }
        },
        _ => None,
    }
}

} // verus!
