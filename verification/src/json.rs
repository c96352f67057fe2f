//! A small model of JSON values: the executable type [`Json`], its
//! mathematical view [`JsonV`], lookup of an object member by name, and
//! trusted bridges to `serde_json` that parse bytes into the model and print
//! the model back as a JSON document.

use vstd::prelude::*;

verus! {

broadcast use vstd::std_specs::vec::group_vec_axioms;

/// The mathematical shape of a JSON value. A number carries the unsigned
/// integer it denotes, when it denotes one, together with its text; an
/// object's members are kept in the order the value holds them.
#[verifier::ext_equal]
pub enum JsonV {
    Null,
    Bool(bool),
    Num(Option<u64>, Seq<char>),
    Str(Seq<char>),
    Arr(Seq<JsonV>),
    Obj(Seq<(Seq<char>, JsonV)>),
}

/// A JSON value. `Num` holds the unsigned-integer reading of the number,
/// when it has one, and the number's original text.
#[derive(Debug)]
pub enum Json {
    Null,
    Bool(bool),
    Num(Option<u64>, String),
    Str(String),
    Arr(Vec<Json>),
    Obj(Vec<(String, Json)>),
}

pub open spec fn jview(j: Json) -> JsonV
    decreases j,
{
    match j {
        Json::Null => JsonV::Null,
        Json::Bool(b) => JsonV::Bool(b),
        Json::Num(n, t) => JsonV::Num(n, t@),
        Json::Str(s) => JsonV::Str(s@),
        Json::Arr(items) => {
            proof {
                assert(decreases_to!(j => items));
                assert(decreases_to!(items => items@));
            }
            JsonV::Arr(jview_list(items@))
        },
        Json::Obj(fields) => {
            proof {
                assert(decreases_to!(j => fields));
                assert(decreases_to!(fields => fields@));
            }
            JsonV::Obj(jview_members(fields@))
        },
    }
}

pub open spec fn jview_list(items: Seq<Json>) -> Seq<JsonV>
    decreases items,
{
    if items.len() == 0 {
        Seq::empty()
    } else {
        seq![jview(items[0])] + jview_list(items.drop_first())
    }
}

pub open spec fn jview_members(fields: Seq<(String, Json)>) -> Seq<(Seq<char>, JsonV)>
    decreases fields,
{
    if fields.len() == 0 {
        Seq::empty()
    } else {
        proof {
            assert(decreases_to!(fields => fields[0]));
        }
        seq![(fields[0].0@, jview(fields[0].1))] + jview_members(fields.drop_first())
    }
}

/// The view of a value list, element by element.
pub proof fn lemma_jview_list(s: Seq<Json>)
    ensures
        jview_list(s).len() == s.len(),
        forall|i: int| 0 <= i < s.len() ==> #[trigger] jview_list(s)[i] == jview(s[i]),
    decreases s.len(),
{
    if s.len() > 0 {
        lemma_jview_list(s.drop_first());
        assert forall|i: int| 0 <= i < s.len() implies #[trigger] jview_list(s)[i] == jview(
            s[i],
        ) by {
            if i > 0 {
                assert(s.drop_first()[i - 1] == s[i]);
            }
        }
    }
}

/// The view of a member list, member by member.
pub proof fn lemma_jview_members(s: Seq<(String, Json)>)
    ensures
        jview_members(s).len() == s.len(),
        forall|i: int|
            0 <= i < s.len() ==> #[trigger] jview_members(s)[i] == (s[i].0@, jview(s[i].1)),
    decreases s.len(),
{
    if s.len() > 0 {
        lemma_jview_members(s.drop_first());
        assert forall|i: int| 0 <= i < s.len() implies #[trigger] jview_members(s)[i] == (
            s[i].0@,
            jview(s[i].1),
        ) by {
            if i > 0 {
                assert(s.drop_first()[i - 1] == s[i]);
            }
        }
    }
}

impl View for Json {
    type V = JsonV;

    open spec fn view(&self) -> JsonV {
        jview(*self)
    }
}

/// The value of the first member named `key`, if any.
pub open spec fn spec_obj_get(fields: Seq<(Seq<char>, JsonV)>, key: Seq<char>) -> Option<JsonV>
    decreases fields.len(),
{
    if fields.len() == 0 {
        None
    } else if fields[0].0 == key {
        Some(fields[0].1)
    } else {
        spec_obj_get(fields.drop_first(), key)
    }
}

impl Clone for Json {
    fn clone(&self) -> (r: Json)
        ensures
            r@ == self@,
        decreases self,
    {
        match self {
            Json::Null => Json::Null,
            Json::Bool(b) => Json::Bool(*b),
            Json::Num(n, t) => Json::Num(*n, t.clone()),
            Json::Str(s) => Json::Str(s.clone()),
            Json::Arr(items) => {
                let mut out: Vec<Json> = Vec::new();
                let mut i: usize = 0;
                while i < items.len()
                    invariant
                        *self == Json::Arr(*items),
                        decreases_to!(*self => *items),
                        i <= items.len(),
                        out@.len() == i as int,
                        forall|k: int|
                            0 <= k < i as int ==> jview(#[trigger] out@[k]) == jview(items@[k]),
                    decreases items.len() - i,
                {
                    proof {
                        assert(decreases_to!(*items => items@));
                        assert(decreases_to!(items@ => items@[i as int]));
                    }
                    out.push(items[i].clone());
                    i = i + 1;
                }
                proof {
                    lemma_jview_list(out@);
                    lemma_jview_list(items@);
                    assert(jview_list(out@) =~= jview_list(items@));
                }
                Json::Arr(out)
            },
            Json::Obj(fields) => {
                let mut out: Vec<(String, Json)> = Vec::new();
                let mut i: usize = 0;
                while i < fields.len()
                    invariant
                        *self == Json::Obj(*fields),
                        decreases_to!(*self => *fields),
                        i <= fields.len(),
                        out@.len() == i as int,
                        forall|k: int|
                            0 <= k < i as int ==> (#[trigger] out@[k]).0@ == fields@[k].0@ && jview(
                                out@[k].1,
                            ) == jview(fields@[k].1),
                    decreases fields.len() - i,
                {
                    proof {
                        assert(decreases_to!(*fields => fields@));
                        assert(decreases_to!(fields@ => fields@[i as int]));
                        assert(decreases_to!(fields@[i as int] => fields@[i as int].1));
                    }
                    let pair = &fields[i];
                    out.push((pair.0.clone(), pair.1.clone()));
                    i = i + 1;
                }
                proof {
                    lemma_jview_members(out@);
                    lemma_jview_members(fields@);
                    assert(jview_members(out@) =~= jview_members(fields@));
                }
                Json::Obj(out)
            },
        }
    }
}

/// A copy of an object's member list whose view is the same.
pub fn clone_members(fields: &Vec<(String, Json)>) -> (r: Vec<(String, Json)>)
    ensures
        jview_members(r@) == jview_members(fields@),
{
    let mut out: Vec<(String, Json)> = Vec::new();
    let mut i: usize = 0;
    while i < fields.len()
        invariant
            i <= fields.len(),
            out@.len() == i as int,
            forall|k: int|
                0 <= k < i as int ==> (#[trigger] out@[k]).0@ == fields@[k].0@ && jview(out@[k].1)
                    == jview(fields@[k].1),
        decreases fields.len() - i,
    {
        let pair = &fields[i];
        out.push((pair.0.clone(), pair.1.clone()));
        i = i + 1;
    }
    proof {
        lemma_jview_members(out@);
        lemma_jview_members(fields@);
        assert(jview_members(out@) =~= jview_members(fields@));
    }
    out
}

/// The first member of `fields` named `key`, if any.
pub fn obj_get<'a>(fields: &'a Vec<(String, Json)>, key: &String) -> (r: Option<&'a Json>)
    ensures
        match r {
            Some(v) => spec_obj_get(jview_members(fields@), key@) == Some(v@),
            None => spec_obj_get(jview_members(fields@), key@) is None,
        },
{
    let ghost fv = jview_members(fields@);
    proof {
        lemma_jview_members(fields@);
        assert(fv.skip(0) =~= fv);
    }
    let mut i: usize = 0;
    while i < fields.len()
        invariant
            i <= fields.len(),
            fv == jview_members(fields@),
            fv.len() == fields@.len(),
            forall|k: int|
                0 <= k < fields@.len() ==> #[trigger] fv[k] == (
                    fields@[k].0@,
                    jview(fields@[k].1),
                ),
            spec_obj_get(fv, key@) == spec_obj_get(fv.skip(i as int), key@),
        decreases fields.len() - i,
    {
        proof {
            assert(fv.skip(i as int)[0] == fv[i as int]);
        }
        if fields[i].0 == *key {
            return Some(&fields[i].1);
        }
        proof {
            assert(fv.skip(i as int).drop_first() =~= fv.skip(i as int + 1));
        }
        i = i + 1;
    }
    proof {
        assert(fv.skip(fields@.len() as int).len() == 0);
    }
    None
}

/// A strict character-by-character ordering on strings; it matches the order
/// in which a parsed JSON object hands out its member names.
pub open spec fn chars_lt(a: Seq<char>, b: Seq<char>) -> bool
    decreases a.len(),
{
    if b.len() == 0 {
        false
    } else if a.len() == 0 {
        true
    } else if a[0] != b[0] {
        (a[0] as int) < (b[0] as int)
    } else {
        chars_lt(a.drop_first(), b.drop_first())
    }
}

/// A value whose printed document parses back to the very same value: no
/// numbers, and every object's member names strictly ordered.
pub open spec fn canonical_json(v: JsonV) -> bool
    decreases v,
{
    match v {
        JsonV::Null => true,
        JsonV::Bool(_) => true,
        JsonV::Num(_, _) => false,
        JsonV::Str(_) => true,
        JsonV::Arr(items) => forall|i: int|
            0 <= i < items.len() ==> canonical_json(#[trigger] items[i]),
        JsonV::Obj(fields) => {
            &&& forall|i: int| 0 <= i < fields.len() ==> canonical_json(#[trigger] fields[i].1)
            &&& forall|i: int, k: int|
                0 <= i < k < fields.len() ==> chars_lt(
                    #[trigger] fields[i].0,
                    #[trigger] fields[k].0,
                )
        },
    }
}

/// How deep a value's containers nest: a leaf counts nothing, an array
/// or object one more than its deepest element.
pub open spec fn json_depth(v: JsonV) -> int
    decreases v,
{
    match v {
        JsonV::Null => 0,
        JsonV::Bool(_) => 0,
        JsonV::Num(_, _) => 0,
        JsonV::Str(_) => 0,
        JsonV::Arr(items) => 1 + depth_list(items),
        JsonV::Obj(fields) => 1 + depth_members(fields),
    }
}

pub open spec fn depth_list(items: Seq<JsonV>) -> int
    decreases items,
{
    if items.len() == 0 {
        0
    } else {
        let d0 = json_depth(items[0]);
        let dr = depth_list(items.drop_first());
        if d0 >= dr {
            d0
        } else {
            dr
        }
    }
}

pub open spec fn depth_members(fields: Seq<(Seq<char>, JsonV)>) -> int
    decreases fields,
{
    if fields.len() == 0 {
        0
    } else {
        let d0 = json_depth(fields[0].1);
        let dr = depth_members(fields.drop_first());
        if d0 >= dr {
            d0
        } else {
            dr
        }
    }
}

/// The JSON value, in this library's model, that a byte sequence parses to,
/// or `None` where the bytes are not one well-formed JSON document. It is
/// the result of `serde_json::from_slice::<serde_json::Value>`, carried over
/// variant by variant, and depends on the bytes alone.
pub uninterp spec fn json_of(s: Seq<u8>) -> Option<JsonV>;

#[verifier::external_type_specification]
#[verifier::external_body]
pub struct ExValue(serde_json::Value);

/// Carries a `serde_json::Value` over into this library's model, one arm for
/// each variant; nothing is assumed of it, it only serves the two bridges
/// below.
#[verifier::external_body]
fn json_from_value(v: &serde_json::Value) -> Json {
    match v {
        serde_json::Value::Null => Json::Null,
        serde_json::Value::Bool(b) => Json::Bool(*b),
        serde_json::Value::Number(n) => Json::Num(n.as_u64(), n.to_string()),
        serde_json::Value::String(s) => Json::Str(s.clone()),
        serde_json::Value::Array(a) => Json::Arr(a.iter().map(json_from_value).collect()),
        serde_json::Value::Object(o) => Json::Obj(
            o.iter().map(|(k, val)| (k.clone(), json_from_value(val))).collect(),
        ),
    }
}

/// Builds the `serde_json::Value` a model value stands for, one arm for each
/// variant; nothing is assumed of it, it only serves the printing bridge.
#[verifier::external_body]
fn json_to_value(j: &Json) -> serde_json::Value {
    match j {
        Json::Null => serde_json::Value::Null,
        Json::Bool(b) => serde_json::Value::Bool(*b),
        Json::Num(_, text) => match text.parse::<serde_json::Number>() {
            Ok(n) => serde_json::Value::Number(n),
            Err(_) => serde_json::Value::Null,
        },
        Json::Str(s) => serde_json::Value::String(s.clone()),
        Json::Arr(items) => serde_json::Value::Array(items.iter().map(json_to_value).collect()),
        Json::Obj(fields) => serde_json::Value::Object(
            fields.iter().map(|(k, v)| (k.clone(), json_to_value(v))).collect(),
        ),
    }
}

/// Relies on `serde_json::from_slice::<serde_json::Value>`: whether and how
/// a byte sequence parses as one JSON document depends on the bytes alone.
#[verifier::external_body]
pub fn parse_json(bytes: &[u8]) -> (r: Option<Json>)
    ensures
        match r {
            Some(j) => json_of(bytes@) == Some(j@),
            None => json_of(bytes@) is None,
        },
{
    match serde_json::from_slice::<serde_json::Value>(bytes) {
        Ok(v) => Some(json_from_value(&v)),
        Err(_) => None,
    }
}

/// Relies on `serde_json::to_vec`: a tree of nulls, booleans, strings,
/// arrays and objects whose member names are strictly ordered prints as a
/// document that parses back to the same tree. The claim stops below 128
/// nested containers: the parser refuses anything deeper, whatever the
/// printer made of it.
#[verifier::external_body]
pub fn print_json(j: &Json) -> (r: Vec<u8>)
    ensures
        canonical_json(j@) && json_depth(j@) < 128 ==> json_of(r@) == Some(j@),
{
    match serde_json::to_vec(&json_to_value(j)) {
        Ok(bytes) => bytes,
        Err(_) => Vec::new(),
    }
}

} // verus!

