//! The JSON data model: a recursive sum type over objects, arrays, strings,
//! numbers, booleans and null, together with its mathematical view.
//!
//! The structural invariant of the whole pipeline is that object key sets,
//! array lengths and nesting are identical between input and output; only
//! string leaves may change content.

use vstd::prelude::*;

verus! {

/// The mathematical model of a JSON value: objects are sequences of
/// (key, value) pairs in their iteration order, arrays are sequences.
#[verifier::ext_equal]
pub enum JsonV {
    Object(Seq<(Seq<char>, JsonV)>),
    Array(Seq<JsonV>),
    Str(Seq<char>),
    Num(Seq<char>),
    Bool(bool),
    Null,
}

/// A JSON value as the library holds it. Object entries keep their order.
/// A number carries its literal text: the pipeline never reads a number's
/// value, so any JSON number — floating point, or beyond the machine's
/// integer range — passes through with its content untouched.
pub enum Json {
    Object(Vec<(String, Json)>),
    Array(Vec<Json>),
    Str(String),
    Num(String),
    Bool(bool),
    Null,
}

pub open spec fn view_obj(es: Seq<(String, Json)>) -> Seq<(Seq<char>, JsonV)>
    decreases es,
{
    if es.len() == 0 {
        Seq::empty()
    } else {
        seq![(es[0].0@, json_view(es[0].1))] + view_obj(es.subrange(1, es.len() as int))
    }
}

pub open spec fn view_arr(es: Seq<Json>) -> Seq<JsonV>
    decreases es,
{
    if es.len() == 0 {
        Seq::empty()
    } else {
        seq![json_view(es[0])] + view_arr(es.subrange(1, es.len() as int))
    }
}

pub open spec fn json_view(j: Json) -> JsonV
    decreases j,
{
    match j {
        Json::Object(es) => JsonV::Object(view_obj(es@)),
        Json::Array(es) => JsonV::Array(view_arr(es@)),
        Json::Str(s) => JsonV::Str(s@),
        Json::Num(n) => JsonV::Num(n@),
        Json::Bool(b) => JsonV::Bool(b),
        Json::Null => JsonV::Null,
    }
}

impl View for Json {
    type V = JsonV;

    open spec fn view(&self) -> JsonV {
        json_view(*self)
    }
}

/// A leaf is a value with no children; composites (objects and arrays) have
/// children and never appear in a flattened mapping.
pub open spec fn is_leaf(v: JsonV) -> bool {
    !(v is Object || v is Array)
}

pub proof fn lemma_view_obj_index(es: Seq<(String, Json)>, i: int)
    requires
        0 <= i < es.len(),
    ensures
        view_obj(es).len() == es.len(),
        view_obj(es)[i] == (es[i].0@, json_view(es[i].1)),
    decreases es.len(),
{
    if es.len() > 0 {
        if i > 0 {
            lemma_view_obj_index(es.subrange(1, es.len() as int), i - 1);
        } else {
            lemma_view_obj_len(es.subrange(1, es.len() as int));
        }
    }
}

pub proof fn lemma_view_obj_len(es: Seq<(String, Json)>)
    ensures
        view_obj(es).len() == es.len(),
    decreases es.len(),
{
    if es.len() > 0 {
        lemma_view_obj_len(es.subrange(1, es.len() as int));
    }
}

pub proof fn lemma_view_arr_index(es: Seq<Json>, i: int)
    requires
        0 <= i < es.len(),
    ensures
        view_arr(es).len() == es.len(),
        view_arr(es)[i] == json_view(es[i]),
    decreases es.len(),
{
    if es.len() > 0 {
        if i > 0 {
            lemma_view_arr_index(es.subrange(1, es.len() as int), i - 1);
        } else {
            lemma_view_arr_len(es.subrange(1, es.len() as int));
        }
    }
}

pub proof fn lemma_view_arr_len(es: Seq<Json>)
    ensures
        view_arr(es).len() == es.len(),
    decreases es.len(),
{
    if es.len() > 0 {
        lemma_view_arr_len(es.subrange(1, es.len() as int));
    }
}

/// The view of an object entry sequence, element by element.
pub proof fn lemma_view_obj_all(es: Seq<(String, Json)>)
    ensures
        view_obj(es).len() == es.len(),
        forall|x: int| 0 <= x < es.len() ==> #[trigger] view_obj(es)[x] == (
            es[x].0@,
            json_view(es[x].1),
        ),
{
    lemma_view_obj_len(es);
    assert forall|x: int| 0 <= x < es.len() implies #[trigger] view_obj(es)[x] == (
        es[x].0@,
        json_view(es[x].1),
    ) by {
        lemma_view_obj_index(es, x);
    }
}

/// The view of an array element sequence, element by element.
pub proof fn lemma_view_arr_all(es: Seq<Json>)
    ensures
        view_arr(es).len() == es.len(),
        forall|x: int| 0 <= x < es.len() ==> #[trigger] view_arr(es)[x] == json_view(es[x]),
{
    lemma_view_arr_len(es);
    assert forall|x: int| 0 <= x < es.len() implies #[trigger] view_arr(es)[x] == json_view(
        es[x],
    ) by {
        lemma_view_arr_index(es, x);
    }
}

} // verus!
