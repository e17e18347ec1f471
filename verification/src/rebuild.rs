//! The rebuilder: reconstructs a tree identical in shape to the input from
//! a flattened mapping, substituting translated strings at their paths.
//!
//! Each path key is decoded back into its step sequence and the resolved
//! leaf is inserted into a freshly constructed tree, intermediate objects
//! and arrays created on demand.

use vstd::prelude::*;
use crate::json::{Json, JsonV, json_view, view_obj, view_arr, lemma_view_obj_all,
    lemma_view_arr_all};
use crate::paths::{Step, StepV, steps_view, steps_of, steps_for, bounded_path};
use crate::flatten::entry_pairs_view;
use crate::cache::StrMap;

verus! {

/// First position of key `k` among object entries, or their number.
pub open spec fn obj_index_of(es: Seq<(Seq<char>, JsonV)>, k: Seq<char>) -> int
    decreases es.len(),
{
    if es.len() == 0 {
        0
    } else if es[0].0 == k {
        0
    } else {
        1 + obj_index_of(es.subrange(1, es.len() as int), k)
    }
}

pub proof fn lemma_obj_index_of(es: Seq<(Seq<char>, JsonV)>, k: Seq<char>)
    ensures
        0 <= obj_index_of(es, k) <= es.len(),
        obj_index_of(es, k) < es.len() ==> es[obj_index_of(es, k)].0 == k,
        forall|j: int| 0 <= j < obj_index_of(es, k) ==> (#[trigger] es[j]).0 != k,
    decreases es.len(),
{
    if es.len() != 0 && es[0].0 != k {
        let es2 = es.subrange(1, es.len() as int);
        lemma_obj_index_of(es2, k);
        assert forall|j: int| 0 <= j < obj_index_of(es, k) implies (#[trigger] es[j]).0 != k by {
            if j > 0 {
                assert(es2[j - 1] == es[j]);
                assert(es2[j - 1].0 != k);
            }
        }
    }
}

/// The child to descend into for key `k`: the present one, or a hole that
/// the next step turns into the right kind of composite.
pub open spec fn obj_child(es: Seq<(Seq<char>, JsonV)>, k: Seq<char>) -> JsonV {
    if obj_index_of(es, k) < es.len() {
        es[obj_index_of(es, k)].1
    } else {
        JsonV::Null
    }
}

/// Replaces the value at `k`, or appends a fresh entry at the end.
pub open spec fn obj_upsert(es: Seq<(Seq<char>, JsonV)>, k: Seq<char>, v: JsonV) -> Seq<
    (Seq<char>, JsonV),
> {
    if obj_index_of(es, k) < es.len() {
        es.update(obj_index_of(es, k), (k, v))
    } else {
        es.push((k, v))
    }
}

pub open spec fn arr_child(es: Seq<JsonV>, i: int) -> JsonV {
    if 0 <= i < es.len() {
        es[i]
    } else {
        JsonV::Null
    }
}

/// Replaces the value at `i`, padding with nulls if the array is short.
pub open spec fn arr_upsert(es: Seq<JsonV>, i: int, v: JsonV) -> Seq<JsonV> {
    if 0 <= i < es.len() {
        es.update(i, v)
    } else {
        es + Seq::new((i - es.len()) as nat, |x: int| JsonV::Null) + seq![v]
    }
}

/// Inserts a leaf at a path, creating or overwriting intermediate
/// composites on demand: a key step builds an object, an index step an
/// array, whatever stood there before.
pub open spec fn sinsert(t: JsonV, p: Seq<StepV>, leaf: JsonV) -> JsonV
    decreases p.len(),
{
    if p.len() == 0 {
        leaf
    } else {
        match p[0] {
            StepV::Key(k) => {
                let es = if t is Object { t->Object_0 } else { Seq::empty() };
                JsonV::Object(
                    obj_upsert(
                        es,
                        k,
                        sinsert(obj_child(es, k), p.subrange(1, p.len() as int), leaf),
                    ),
                )
            }
            StepV::Index(n) => {
                let es = if t is Array { t->Array_0 } else { Seq::empty() };
                JsonV::Array(
                    arr_upsert(
                        es,
                        n as int,
                        sinsert(arr_child(es, n as int), p.subrange(1, p.len() as int), leaf),
                    ),
                )
            }
        }
    }
}

/// The leaf that finally stands at a path: the translated string when the
/// path key is in the translations, else the original leaf unchanged.
pub open spec fn resolve(key: Seq<char>, leaf: JsonV, tr: Map<Seq<char>, Seq<char>>) -> JsonV {
    if tr.dom().contains(key) {
        JsonV::Str(tr[key])
    } else {
        leaf
    }
}

pub open spec fn insert_entry(t: JsonV, e: (Seq<char>, JsonV), tr: Map<Seq<char>, Seq<char>>) -> JsonV {
    sinsert(t, steps_of(e.0), resolve(e.0, e.1, tr))
}

pub open spec fn rebuild_fold(
    t: JsonV,
    entries: Seq<(Seq<char>, JsonV)>,
    tr: Map<Seq<char>, Seq<char>>,
) -> JsonV
    decreases entries.len(),
{
    if entries.len() == 0 {
        t
    } else {
        rebuild_fold(insert_entry(t, entries[0], tr), entries.subrange(1, entries.len() as int), tr)
    }
}

/// The rebuilt document: every flattened entry inserted, in order, into a
/// fresh empty object.
pub open spec fn rebuild_spec(
    entries: Seq<(Seq<char>, JsonV)>,
    tr: Map<Seq<char>, Seq<char>>,
) -> JsonV {
    rebuild_fold(JsonV::Object(Seq::empty()), entries, tr)
}

fn find_key(es: &Vec<(String, Json)>, k: &String) -> (r: Option<usize>)
    ensures
        match r {
            Some(i) => i < es@.len() && es@[i as int].0@ == k@ && forall|j: int|
                0 <= j < i ==> (#[trigger] es@[j]).0@ != k@,
            None => forall|j: int| 0 <= j < es@.len() ==> (#[trigger] es@[j]).0@ != k@,
        },
{
    let mut i: usize = 0;
    while i < es.len()
        invariant
            i <= es@.len(),
            forall|j: int| 0 <= j < i ==> (#[trigger] es@[j]).0@ != k@,
        decreases es@.len() - i,
    {
        if es[i].0.eq(k) {
            return Some(i);
        }
        i = i + 1;
    }
    None
}

/// Inserts `leaf` at the path `steps[d..]` of `tree`.
pub fn insert_into(tree: Json, steps: &Vec<Step>, d: usize, leaf: Json) -> (r: Json)
    requires
        d <= steps@.len(),
    ensures
        r@ == sinsert(tree@, steps_view(steps@).subrange(d as int, steps@.len() as int), leaf@),
    decreases steps@.len() - d,
{
    let ghost tv = tree@;
    let ghost path = steps_view(steps@).subrange(d as int, steps@.len() as int);
    if d == steps.len() {
        proof {
            assert(path.len() == 0);
        }
        return leaf;
    }
    proof {
        assert(path[0] == steps@[d as int]@);
        assert(path.subrange(1, path.len() as int) =~= steps_view(steps@).subrange(
            d + 1,
            steps@.len() as int,
        ));
    }
    let ghost rest = path.subrange(1, path.len() as int);
    match &steps[d] {
        Step::Key(k) => {
            let mut es: Vec<(String, Json)> = match tree {
                Json::Object(es0) => es0,
                _ => Vec::new(),
            };
            let ghost es0 = es@;
            let ghost ves = if tv is Object { tv->Object_0 } else { Seq::empty() };
            proof {
                lemma_view_obj_all(es0);
                if !(tv is Object) {
                    assert(view_obj(es0) =~= Seq::<(Seq<char>, JsonV)>::empty());
                }
                assert(ves == view_obj(es0));
                lemma_obj_index_of(ves, k@);
            }
            let ghost spot = obj_index_of(ves, k@);
            match find_key(&es, k) {
                Some(i) => {
                    proof {
                        assert(ves[i as int].0 == k@);
                        assert(forall|j: int| 0 <= j < i ==> (#[trigger] ves[j]).0 != k@);
                        if spot < i as int {
                            assert(ves[spot].0 == k@);
                            assert(false);
                        }
                        if spot > i as int {
                            assert(ves[i as int].0 != k@);
                            assert(false);
                        }
                    }
                    let e = es.remove(i);
                    let child = insert_into(e.1, steps, d + 1, leaf);
                    es.insert(i, (e.0, child));
                    proof {
                        assert(es@ =~= es0.update(i as int, (es0[i as int].0, child)));
                        lemma_view_obj_all(es@);
                        assert(obj_child(ves, k@) == json_view(es0[i as int].1));
                        assert(view_obj(es@) =~~= obj_upsert(
                            ves,
                            k@,
                            sinsert(obj_child(ves, k@), rest, leaf@),
                        ));
                    }
                    Json::Object(es)
                }
                None => {
                    proof {
                        if spot < ves.len() {
                            assert(ves[spot].0 == k@);
                            assert(false);
                        }
                        assert(obj_child(ves, k@) == JsonV::Null);
                    }
                    let child = insert_into(Json::Null, steps, d + 1, leaf);
                    es.push((k.clone(), child));
                    proof {
                        assert(es@ =~= es0.push((es@[es0.len() as int].0, child)));
                        lemma_view_obj_all(es@);
                        assert(view_obj(es@) =~~= obj_upsert(
                            ves,
                            k@,
                            sinsert(JsonV::Null, rest, leaf@),
                        ));
                    }
                    Json::Object(es)
                }
            }
        }
        Step::Index(nr) => {
            let n = *nr;
            let mut es: Vec<Json> = match tree {
                Json::Array(es0) => es0,
                _ => Vec::new(),
            };
            let ghost es0 = es@;
            let ghost ves = if tv is Array { tv->Array_0 } else { Seq::empty() };
            proof {
                lemma_view_arr_all(es0);
                if !(tv is Array) {
                    assert(view_arr(es0) =~= Seq::<JsonV>::empty());
                }
                assert(ves == view_arr(es0));
            }
            if n < es.len() {
                let e = es.remove(n);
                let child = insert_into(e, steps, d + 1, leaf);
                es.insert(n, child);
                proof {
                    assert(es@ =~= es0.update(n as int, child));
                    lemma_view_arr_all(es@);
                    assert(arr_child(ves, n as int) == json_view(es0[n as int]));
                    assert(view_arr(es@) =~~= arr_upsert(
                        ves,
                        n as int,
                        sinsert(arr_child(ves, n as int), rest, leaf@),
                    ));
                }
                Json::Array(es)
            } else {
                while es.len() < n
                    invariant
                        es0.len() <= es@.len() <= n,
                        forall|x: int| 0 <= x < es0.len() ==> #[trigger] es@[x] == es0[x],
                        forall|x: int| es0.len() <= x < es@.len() ==> #[trigger] es@[x]
                            == Json::Null,
                    decreases n - es@.len(),
                {
                    es.push(Json::Null);
                }
                let ghost padded = es@;
                let child = insert_into(Json::Null, steps, d + 1, leaf);
                es.push(child);
                proof {
                    assert(arr_child(ves, n as int) == JsonV::Null);
                    lemma_view_arr_all(es@);
                    assert(es@.len() == n + 1);
                    assert(view_arr(es@) =~~= arr_upsert(
                        ves,
                        n as int,
                        sinsert(JsonV::Null, rest, leaf@),
                    )) by {
                        lemma_view_arr_all(es@);
                        assert(forall|x: int| 0 <= x < es@.len() ==> #[trigger] view_arr(es@)[x]
                            == json_view(es@[x]));
                        lemma_view_arr_all(es0);
                    }
                }
                Json::Array(es)
            }
        }
    }
}

/// `rebuild`: folds every (path key, leaf) entry into a fresh tree,
/// translated strings substituted at their path keys. Array indices in the
/// keys must fit the machine's word.
pub fn rebuild(entries: Vec<(String, Json)>, translations: &StrMap) -> (r: Json)
    requires
        translations.wf(),
        forall|i: int| 0 <= i < entries@.len() ==> bounded_path(
            steps_of((#[trigger] entries@[i]).0@),
        ),
    ensures
        r@ == rebuild_spec(entry_pairs_view(entries@), translations@),
{
    let ghost ev = entry_pairs_view(entries@);
    let ghost tr = translations@;
    let mut rem = entries;
    let mut t = Json::Object(Vec::new());
    proof {
        assert(view_obj(Seq::<(String, Json)>::empty()) =~= Seq::<(Seq<char>, JsonV)>::empty());
        assert(t@ == JsonV::Object(Seq::<(Seq<char>, JsonV)>::empty()));
        assert(entry_pairs_view(rem@) == ev);
    }
    while rem.len() > 0
        invariant
            translations.wf(),
            tr == translations@,
            forall|x: int| 0 <= x < rem@.len() ==> bounded_path(
                steps_of((#[trigger] rem@[x]).0@),
            ),
            rebuild_fold(t@, entry_pairs_view(rem@), tr) == rebuild_spec(ev, tr),
        decreases rem@.len(),
    {
        let ghost rem0 = rem@;
        let ghost cur = entry_pairs_view(rem0);
        let e = rem.remove(0);
        proof {
            assert(cur[0] == (e.0@, json_view(e.1)));
            assert(entry_pairs_view(rem@) =~= cur.subrange(1, cur.len() as int));
            assert(forall|x: int| 0 <= x < rem@.len() ==> #[trigger] rem@[x] == rem0[x + 1]);
        }
        let steps = steps_for(e.0.as_str());
        proof {
            assert(bounded_path(steps_of(rem0[0].0@)));
            assert(steps_view(steps@) == steps_of(e.0@));
        }
        let leaf: Json = match translations.lookup(&e.0) {
            Some(v) => Json::Str(v.clone()),
            None => e.1,
        };
        proof {
            assert(leaf@ == resolve(cur[0].0, cur[0].1, tr));
        }
        let ghost t0 = t@;
        t = insert_into(t, &steps, 0, leaf);
        proof {
            assert(steps_view(steps@).subrange(0, steps@.len() as int) =~= steps_view(steps@));
            assert(t@ == insert_entry(t0, cur[0], tr));
        }
    }
    proof {
        assert(entry_pairs_view(rem@) =~= Seq::<(Seq<char>, JsonV)>::empty());
    }
    t
}

} // verus!
