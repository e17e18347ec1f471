//! The round-trip shape invariant: rebuilding a flattened document with no
//! translations yields the document itself — identical object keys, array
//! lengths, nesting and leaf values.
//!
//! It holds of well-formed documents: object keys addressable by the path
//! scheme and pairwise distinct, and no empty composite below the root
//! (an empty object or array inside the tree leaves no flattened entry, so
//! no rebuild can know of it; the path scheme's documented limitation).

use vstd::prelude::*;
use crate::json::{Json, JsonV, json_view, view_obj, view_arr, lemma_view_obj_all,
    lemma_view_arr_all};
use crate::paths::{StepV, key_ok, step_ok, wf_path, bounded_path, key_of, steps_of,
    lemma_steps_of_key_of, lemma_path_key_injective};
use crate::flatten::{flat_units, flat_obj, flat_arr, prepend_all, enc_entries, flat_map_of,
    entry_pairs_view, flatten, str_units, lemma_str_units_distinct};
use crate::batch::{pending_spec, batches_spec, lemma_pending_distinct, lemma_batch_keys_distinct};
use crate::rebuild::{sinsert, obj_index_of, obj_child, obj_upsert, arr_child, arr_upsert,
    lemma_obj_index_of, insert_entry, rebuild_fold, rebuild_spec, resolve, rebuild};
use crate::cache::StrMap;

verus! {

/// A document the path scheme can address: object keys pairwise distinct
/// and free of the reserved delimiters, recursively.
pub open spec fn wf_doc(v: JsonV) -> bool
    decreases v,
{
    match v {
        JsonV::Object(es) => {
            &&& forall|i: int, j: int| 0 <= i < j < es.len() ==> (#[trigger] es[i]).0 != (
            #[trigger] es[j]).0
            &&& forall|i: int| 0 <= i < es.len() ==> key_ok((#[trigger] es[i]).0) && wf_doc(
                es[i].1,
            )
        }
        JsonV::Array(es) => forall|i: int| 0 <= i < es.len() ==> wf_doc(#[trigger] es[i]),
        _ => true,
    }
}

/// No empty composite anywhere in the value, itself included.
pub open spec fn solid(v: JsonV) -> bool
    decreases v,
{
    match v {
        JsonV::Object(es) => es.len() > 0 && forall|i: int| 0 <= i < es.len() ==> solid(
            (#[trigger] es[i]).1,
        ),
        JsonV::Array(es) => es.len() > 0 && forall|i: int| 0 <= i < es.len() ==> solid(
            #[trigger] es[i],
        ),
        _ => true,
    }
}

/// No empty composite strictly below the root; an empty array root is also
/// out, since a rebuild root is an object when nothing says otherwise.
pub open spec fn inner_solid(v: JsonV) -> bool {
    match v {
        JsonV::Object(es) => forall|i: int| 0 <= i < es.len() ==> solid((#[trigger] es[i]).1),
        JsonV::Array(es) => es.len() > 0 && forall|i: int| 0 <= i < es.len() ==> solid(
            #[trigger] es[i],
        ),
        _ => true,
    }
}

/// Folding plain (step path, leaf) entries into a tree, in order.
pub open spec fn fold_plain(t: JsonV, entries: Seq<(Seq<StepV>, JsonV)>) -> JsonV
    decreases entries.len(),
{
    if entries.len() == 0 {
        t
    } else {
        fold_plain(
            sinsert(t, entries[0].0, entries[0].1),
            entries.subrange(1, entries.len() as int),
        )
    }
}

pub proof fn lemma_fold_concat(t: JsonV, a: Seq<(Seq<StepV>, JsonV)>, b: Seq<(Seq<StepV>, JsonV)>)
    ensures
        fold_plain(t, a + b) == fold_plain(fold_plain(t, a), b),
    decreases a.len(),
{
    if a.len() == 0 {
        assert(a + b =~= b);
    } else {
        let t2 = sinsert(t, a[0].0, a[0].1);
        assert((a + b)[0] == a[0]);
        assert((a + b).subrange(1, (a + b).len() as int) =~= a.subrange(1, a.len() as int) + b);
        lemma_fold_concat(t2, a.subrange(1, a.len() as int), b);
    }
}

/// Every path that flattening writes is well formed, for a well-formed
/// document.
pub proof fn lemma_flat_units_wf(v: JsonV)
    requires
        wf_doc(v),
    ensures
        forall|x: int| 0 <= x < flat_units(v).len() ==> wf_path(
            (#[trigger] flat_units(v)[x]).0,
        ),
    decreases v, 1nat,
{
    match v {
        JsonV::Object(es) => {
            lemma_flat_obj_wf(es, 0);
            assert(flat_units(v) == flat_obj(es, 0));
            assert forall|x: int| 0 <= x < flat_units(v).len() implies wf_path(
                (#[trigger] flat_units(v)[x]).0,
            ) by {
                assert(flat_units(v)[x] == flat_obj(es, 0)[x]);
            }
        }
        JsonV::Array(es) => {
            lemma_flat_arr_wf(es, 0);
            assert(flat_units(v) == flat_arr(es, 0));
            assert forall|x: int| 0 <= x < flat_units(v).len() implies wf_path(
                (#[trigger] flat_units(v)[x]).0,
            ) by {
                assert(flat_units(v)[x] == flat_arr(es, 0)[x]);
            }
        }
        _ => {
            assert(flat_units(v)[0].0 =~= Seq::<StepV>::empty());
        }
    }
}

proof fn lemma_flat_obj_wf(es: Seq<(Seq<char>, JsonV)>, i: int)
    requires
        forall|x: int| 0 <= x < es.len() ==> key_ok((#[trigger] es[x]).0) && wf_doc(es[x].1),
    ensures
        forall|x: int| 0 <= x < flat_obj(es, i).len() ==> wf_path(
            (#[trigger] flat_obj(es, i)[x]).0,
        ),
    decreases es, es.len() - i, 0nat,
{
    if 0 <= i < es.len() {
        lemma_flat_units_wf(es[i].1);
        lemma_flat_obj_wf(es, i + 1);
        let g = prepend_all(seq![StepV::Key(es[i].0)], flat_units(es[i].1));
        assert forall|x: int| 0 <= x < flat_obj(es, i).len() implies wf_path(
            (#[trigger] flat_obj(es, i)[x]).0,
        ) by {
            if x < g.len() {
                assert(flat_obj(es, i)[x] == g[x]);
                let p = flat_units(es[i].1)[x].0;
                assert(g[x].0 == seq![StepV::Key(es[i].0)] + p);
                assert(wf_path(p));
                assert forall|y: int| 0 <= y < g[x].0.len() implies step_ok(
                    #[trigger] g[x].0[y],
                ) by {
                    if y == 0 {
                        assert(g[x].0[0] == StepV::Key(es[i].0));
                    } else {
                        assert(g[x].0[y] == p[y - 1]);
                    }
                }
            } else {
                assert(flat_obj(es, i)[x] == flat_obj(es, i + 1)[x - g.len()]);
            }
        }
    }
}

proof fn lemma_flat_arr_wf(es: Seq<JsonV>, i: int)
    requires
        forall|x: int| 0 <= x < es.len() ==> wf_doc(#[trigger] es[x]),
    ensures
        forall|x: int| 0 <= x < flat_arr(es, i).len() ==> wf_path(
            (#[trigger] flat_arr(es, i)[x]).0,
        ),
    decreases es, es.len() - i, 0nat,
{
    if 0 <= i < es.len() {
        lemma_flat_units_wf(es[i]);
        lemma_flat_arr_wf(es, i + 1);
        let g = prepend_all(seq![StepV::Index(i as nat)], flat_units(es[i]));
        assert forall|x: int| 0 <= x < flat_arr(es, i).len() implies wf_path(
            (#[trigger] flat_arr(es, i)[x]).0,
        ) by {
            if x < g.len() {
                assert(flat_arr(es, i)[x] == g[x]);
                let p = flat_units(es[i])[x].0;
                assert(g[x].0 == seq![StepV::Index(i as nat)] + p);
                assert(wf_path(p));
                assert forall|y: int| 0 <= y < g[x].0.len() implies step_ok(
                    #[trigger] g[x].0[y],
                ) by {
                    if y == 0 {
                        assert(g[x].0[0] == StepV::Index(i as nat));
                    } else {
                        assert(g[x].0[y] == p[y - 1]);
                    }
                }
            } else {
                assert(flat_arr(es, i)[x] == flat_arr(es, i + 1)[x - g.len()]);
            }
        }
    }
}

/// A solid value flattens to at least one entry.
pub proof fn lemma_flat_units_nonempty(v: JsonV)
    requires
        solid(v),
    ensures
        flat_units(v).len() >= 1,
    decreases v,
{
    match v {
        JsonV::Object(es) => {
            lemma_flat_units_nonempty(es[0].1);
            assert(flat_obj(es, 0).len() >= prepend_all(
                seq![StepV::Key(es[0].0)],
                flat_units(es[0].1),
            ).len());
        }
        JsonV::Array(es) => {
            lemma_flat_units_nonempty(es[0]);
            assert(flat_arr(es, 0).len() >= prepend_all(
                seq![StepV::Index(0nat)],
                flat_units(es[0]),
            ).len());
        }
        _ => {}
    }
}

/// Folding encoded entries with no translations is folding the plain
/// entries: each key decodes back to its path, each leaf stays.
pub proof fn lemma_fold_enc(t: JsonV, entries: Seq<(Seq<StepV>, JsonV)>)
    requires
        forall|x: int| 0 <= x < entries.len() ==> wf_path((#[trigger] entries[x]).0),
    ensures
        rebuild_fold(t, enc_entries(entries), Map::empty()) == fold_plain(t, entries),
    decreases entries.len(),
{
    if entries.len() > 0 {
        let e = entries[0];
        lemma_steps_of_key_of(e.0);
        assert(enc_entries(entries)[0] == (key_of(e.0), e.1));
        assert(!Map::<Seq<char>, Seq<char>>::empty().dom().contains(key_of(e.0)));
        assert(insert_entry(t, enc_entries(entries)[0], Map::empty()) == sinsert(t, e.0, e.1));
        let rest = entries.subrange(1, entries.len() as int);
        assert(enc_entries(entries).subrange(1, enc_entries(entries).len() as int) =~= enc_entries(
            rest,
        ));
        lemma_fold_enc(sinsert(t, e.0, e.1), rest);
    }
}

/// The object entries a tree offers an inserting key step, none when it is
/// not an object.
pub open spec fn obj_part(t: JsonV) -> Seq<(Seq<char>, JsonV)> {
    if t is Object {
        t->Object_0
    } else {
        Seq::empty()
    }
}

pub open spec fn arr_part(t: JsonV) -> Seq<JsonV> {
    if t is Array {
        t->Array_0
    } else {
        Seq::empty()
    }
}

/// A tree with no composite content: inserting into it starts fresh.
pub open spec fn blank(t: JsonV) -> bool {
    obj_part(t).len() == 0 && arr_part(t).len() == 0
}

proof fn lemma_obj_upsert_props(es: Seq<(Seq<char>, JsonV)>, k: Seq<char>, x: JsonV, y: JsonV)
    ensures
        obj_child(obj_upsert(es, k, x), k) == x,
        obj_upsert(obj_upsert(es, k, x), k, y) == obj_upsert(es, k, y),
{
    lemma_obj_index_of(es, k);
    let s = obj_index_of(es, k);
    let u = obj_upsert(es, k, x);
    lemma_obj_index_of(u, k);
    if s < es.len() {
        assert(u[s].0 == k);
        assert(obj_index_of(u, k) == s) by {
            if obj_index_of(u, k) < s {
                assert(u[obj_index_of(u, k)] == es[obj_index_of(u, k)]);
            }
            if obj_index_of(u, k) > s {
                assert(u[s].0 != k);
            }
        }
        assert(obj_upsert(u, k, y) =~= obj_upsert(es, k, y));
    } else {
        assert(u[es.len() as int].0 == k);
        assert(obj_index_of(u, k) == es.len()) by {
            if obj_index_of(u, k) < es.len() {
                assert(u[obj_index_of(u, k)] == es[obj_index_of(u, k)]);
                assert(es[obj_index_of(u, k)].0 != k);
            }
            if obj_index_of(u, k) > es.len() {
                assert(u[es.len() as int].0 != k);
            }
        }
        assert(obj_upsert(u, k, y) =~= obj_upsert(es, k, y));
    }
}

proof fn lemma_arr_upsert_props(es: Seq<JsonV>, n: int, x: JsonV, y: JsonV)
    requires
        n >= 0,
    ensures
        arr_child(arr_upsert(es, n, x), n) == x,
        arr_upsert(arr_upsert(es, n, x), n, y) == arr_upsert(es, n, y),
{
    let u = arr_upsert(es, n, x);
    if n < es.len() {
        assert(arr_upsert(u, n, y) =~= arr_upsert(es, n, y));
    } else {
        assert(u.len() == n + 1);
        assert(u[n] == x);
        assert(arr_upsert(u, n, y) =~= arr_upsert(es, n, y));
    }
}

proof fn lemma_group_key(t: JsonV, k: Seq<char>, entries: Seq<(Seq<StepV>, JsonV)>)
    requires
        entries.len() >= 1,
    ensures
        fold_plain(t, prepend_all(seq![StepV::Key(k)], entries)) == JsonV::Object(
            obj_upsert(obj_part(t), k, fold_plain(obj_child(obj_part(t), k), entries)),
        ),
    decreases entries.len(),
{
    let es = obj_part(t);
    let g = prepend_all(seq![StepV::Key(k)], entries);
    let e0 = entries[0];
    let p0 = seq![StepV::Key(k)] + e0.0;
    assert(g[0] == (p0, e0.1));
    assert(p0[0] == StepV::Key(k));
    assert(p0.subrange(1, p0.len() as int) =~= e0.0);
    let c1 = sinsert(obj_child(es, k), e0.0, e0.1);
    let t1 = sinsert(t, p0, e0.1);
    assert(t1 == JsonV::Object(obj_upsert(es, k, c1)));
    let rest = entries.subrange(1, entries.len() as int);
    assert(g.subrange(1, g.len() as int) =~~= prepend_all(seq![StepV::Key(k)], rest));
    if entries.len() == 1 {
        assert(fold_plain(t, g) == fold_plain(
            sinsert(t, g[0].0, g[0].1),
            g.subrange(1, g.len() as int),
        ));
        assert(g[0].0 == p0 && g[0].1 == e0.1);
        assert(sinsert(t, g[0].0, g[0].1) == t1);
        assert(g.subrange(1, g.len() as int).len() == 0);
        assert(fold_plain(t1, g.subrange(1, g.len() as int)) == t1);
        assert(fold_plain(obj_child(es, k), entries) == c1) by {
            assert(entries.subrange(1, 1).len() == 0);
        }
    } else {
        lemma_group_key(t1, k, rest);
        lemma_obj_upsert_props(es, k, c1, fold_plain(obj_child(obj_part(t1), k), rest));
        assert(obj_part(t1) == obj_upsert(es, k, c1));
        assert(obj_child(obj_part(t1), k) == c1);
        assert(fold_plain(obj_child(es, k), entries) == fold_plain(c1, rest));
    }
}

proof fn lemma_group_index(t: JsonV, n: nat, entries: Seq<(Seq<StepV>, JsonV)>)
    requires
        entries.len() >= 1,
    ensures
        fold_plain(t, prepend_all(seq![StepV::Index(n)], entries)) == JsonV::Array(
            arr_upsert(arr_part(t), n as int, fold_plain(arr_child(arr_part(t), n as int), entries)),
        ),
    decreases entries.len(),
{
    let es = arr_part(t);
    let g = prepend_all(seq![StepV::Index(n)], entries);
    let e0 = entries[0];
    let p0 = seq![StepV::Index(n)] + e0.0;
    assert(g[0] == (p0, e0.1));
    assert(p0[0] == StepV::Index(n));
    assert(p0.subrange(1, p0.len() as int) =~= e0.0);
    let c1 = sinsert(arr_child(es, n as int), e0.0, e0.1);
    let t1 = sinsert(t, p0, e0.1);
    assert(t1 == JsonV::Array(arr_upsert(es, n as int, c1)));
    let rest = entries.subrange(1, entries.len() as int);
    assert(g.subrange(1, g.len() as int) =~~= prepend_all(seq![StepV::Index(n)], rest));
    if entries.len() == 1 {
        assert(fold_plain(t, g) == fold_plain(
            sinsert(t, g[0].0, g[0].1),
            g.subrange(1, g.len() as int),
        ));
        assert(g[0].0 == p0 && g[0].1 == e0.1);
        assert(sinsert(t, g[0].0, g[0].1) == t1);
        assert(g.subrange(1, g.len() as int).len() == 0);
        assert(fold_plain(t1, g.subrange(1, g.len() as int)) == t1);
        assert(fold_plain(arr_child(es, n as int), entries) == c1) by {
            assert(entries.subrange(1, 1).len() == 0);
        }
    } else {
        lemma_group_index(t1, n, rest);
        lemma_arr_upsert_props(es, n as int, c1, fold_plain(arr_child(arr_part(t1), n as int), rest));
        assert(arr_part(t1) == arr_upsert(es, n as int, c1));
        assert(arr_child(arr_part(t1), n as int) == c1);
        assert(fold_plain(arr_child(es, n as int), entries) == fold_plain(c1, rest));
    }
}

proof fn lemma_obj_accum(es: Seq<(Seq<char>, JsonV)>, i: int, t: JsonV)
    requires
        0 <= i < es.len(),
        obj_part(t) == es.subrange(0, i),
        forall|a: int, b: int| 0 <= a < b < es.len() ==> (#[trigger] es[a]).0 != (
        #[trigger] es[b]).0,
        forall|x: int| 0 <= x < es.len() ==> wf_doc((#[trigger] es[x]).1) && solid(es[x].1),
    ensures
        fold_plain(t, flat_obj(es, i)) == JsonV::Object(es),
    decreases es, es.len() - i, 0nat,
{
    let built = es.subrange(0, i);
    let vi = es[i].1;
    let ki = es[i].0;
    let g = prepend_all(seq![StepV::Key(ki)], flat_units(vi));
    assert(flat_obj(es, i) == g + flat_obj(es, i + 1));
    lemma_fold_concat(t, g, flat_obj(es, i + 1));
    lemma_flat_units_nonempty(vi);
    lemma_group_key(t, ki, flat_units(vi));
    lemma_obj_index_of(built, ki);
    assert(obj_index_of(built, ki) == built.len()) by {
        if obj_index_of(built, ki) < built.len() {
            assert(built[obj_index_of(built, ki)] == es[obj_index_of(built, ki)]);
            assert(es[obj_index_of(built, ki)].0 != ki);
        }
    }
    assert(obj_child(built, ki) == JsonV::Null);
    lemma_fold_units(JsonV::Null, vi);
    let t1 = fold_plain(t, g);
    assert(t1 == JsonV::Object(obj_upsert(built, ki, vi)));
    assert(obj_upsert(built, ki, vi) =~= es.subrange(0, i + 1)) by {
        assert(es[i] == (es[i].0, es[i].1));
    }
    if i + 1 == es.len() {
        assert(flat_obj(es, i + 1).len() == 0);
        assert(fold_plain(t1, flat_obj(es, i + 1)) == t1);
        assert(es.subrange(0, i + 1) =~= es);
    } else {
        lemma_obj_accum(es, i + 1, t1);
    }
}

proof fn lemma_arr_accum(es: Seq<JsonV>, i: int, t: JsonV)
    requires
        0 <= i < es.len(),
        arr_part(t) == es.subrange(0, i),
        forall|x: int| 0 <= x < es.len() ==> wf_doc(#[trigger] es[x]) && solid(es[x]),
    ensures
        fold_plain(t, flat_arr(es, i)) == JsonV::Array(es),
    decreases es, es.len() - i, 0nat,
{
    let built = es.subrange(0, i);
    let vi = es[i];
    let g = prepend_all(seq![StepV::Index(i as nat)], flat_units(vi));
    assert(flat_arr(es, i) == g + flat_arr(es, i + 1));
    lemma_fold_concat(t, g, flat_arr(es, i + 1));
    lemma_flat_units_nonempty(vi);
    lemma_group_index(t, i as nat, flat_units(vi));
    assert(arr_child(built, i) == JsonV::Null);
    lemma_fold_units(JsonV::Null, vi);
    let t1 = fold_plain(t, g);
    assert(t1 == JsonV::Array(arr_upsert(built, i, vi)));
    assert(arr_upsert(built, i, vi) =~= es.subrange(0, i + 1)) by {
        assert(Seq::new(0nat, |x: int| JsonV::Null) =~= Seq::<JsonV>::empty());
    }
    if i + 1 == es.len() {
        assert(flat_arr(es, i + 1).len() == 0);
        assert(fold_plain(t1, flat_arr(es, i + 1)) == t1);
        assert(es.subrange(0, i + 1) =~= es);
    } else {
        lemma_arr_accum(es, i + 1, t1);
    }
}

/// Folding the flattening of a solid well-formed value into any blank
/// start yields the value back.
proof fn lemma_fold_units(z: JsonV, v: JsonV)
    requires
        blank(z),
        wf_doc(v),
        solid(v),
    ensures
        fold_plain(z, flat_units(v)) == v,
    decreases v, 0nat, 0nat,
{
    match v {
        JsonV::Object(es) => {
            assert(obj_part(z) =~= es.subrange(0, 0));
            lemma_obj_accum(es, 0, z);
            assert(flat_units(v) == flat_obj(es, 0));
            assert(fold_plain(z, flat_units(v)) == JsonV::Object(es));
        }
        JsonV::Array(es) => {
            assert(arr_part(z) =~= es.subrange(0, 0));
            lemma_arr_accum(es, 0, z);
            assert(flat_units(v) == flat_arr(es, 0));
            assert(fold_plain(z, flat_units(v)) == JsonV::Array(es));
        }
        _ => {
            let fu = flat_units(v);
            assert(fu == seq![(Seq::<StepV>::empty(), v)]);
            assert(sinsert(z, fu[0].0, fu[0].1) == v);
            assert(fu.subrange(1, fu.len() as int).len() == 0);
            assert(fold_plain(v, fu.subrange(1, fu.len() as int)) == v);
            assert(fold_plain(z, flat_units(v)) == v);
        }
    }
}

/// The round-trip shape invariant: rebuilding the flattened mapping of a
/// well-formed document with no translations yields the document itself —
/// identical object keys, array lengths, nesting and leaf values.
///
/// Well-formed here: object keys are nonempty, free of the reserved
/// delimiters and pairwise distinct, and no empty object or array stands
/// below the root (its flattening holds no entry that could rebuild it).
pub proof fn lemma_flatten_rebuild_roundtrip(d: JsonV)
    requires
        wf_doc(d),
        inner_solid(d),
    ensures
        rebuild_spec(flat_map_of(d), Map::<Seq<char>, Seq<char>>::empty()) == d,
{
    let z = JsonV::Object(Seq::<(Seq<char>, JsonV)>::empty());
    lemma_flat_units_wf(d);
    lemma_fold_enc(z, flat_units(d));
    if d is Object && d->Object_0.len() == 0 {
        assert(flat_units(d).len() == 0);
        assert(fold_plain(z, flat_units(d)) == z);
        assert(d->Object_0 =~= Seq::<(Seq<char>, JsonV)>::empty());
        assert(d == z);
    } else {
        assert(solid(d));
        lemma_fold_units(z, d);
    }
}

/// Every array length throughout the value fits the machine's word.
pub open spec fn arrays_bounded(v: JsonV) -> bool
    decreases v,
{
    match v {
        JsonV::Object(es) => forall|i: int| 0 <= i < es.len() ==> arrays_bounded(
            (#[trigger] es[i]).1,
        ),
        JsonV::Array(es) => es.len() <= usize::MAX && forall|i: int| 0 <= i < es.len()
            ==> arrays_bounded(#[trigger] es[i]),
        _ => true,
    }
}

/// A value the library actually holds has machine-bounded arrays: each is
/// backed by a vector.
pub proof fn lemma_json_arrays_bounded(j: Json)
    ensures
        arrays_bounded(json_view(j)),
    decreases j, 1nat,
{
    match j {
        Json::Object(es) => {
            lemma_obj_arrays_bounded(es@, 0);
            lemma_view_obj_all(es@);
            assert forall|i: int| 0 <= i < view_obj(es@).len() implies arrays_bounded(
                (#[trigger] view_obj(es@)[i]).1,
            ) by {
                assert(view_obj(es@)[i].1 == json_view(es@[i].1));
            }
        }
        Json::Array(es) => {
            lemma_arr_arrays_bounded(es@, 0);
            lemma_view_arr_all(es@);
            vstd::std_specs::vec::axiom_spec_len(&es);
            assert forall|i: int| 0 <= i < view_arr(es@).len() implies arrays_bounded(
                #[trigger] view_arr(es@)[i],
            ) by {
                assert(view_arr(es@)[i] == json_view(es@[i]));
            }
        }
        _ => {}
    }
}

proof fn lemma_obj_arrays_bounded(es: Seq<(String, Json)>, i: int)
    requires
        0 <= i <= es.len(),
    ensures
        forall|x: int| i <= x < es.len() ==> arrays_bounded(json_view((#[trigger] es[x]).1)),
    decreases es, es.len() - i, 0nat,
{
    if i < es.len() {
        lemma_json_arrays_bounded(es[i].1);
        lemma_obj_arrays_bounded(es, i + 1);
    }
}

proof fn lemma_arr_arrays_bounded(es: Seq<Json>, i: int)
    requires
        0 <= i <= es.len(),
    ensures
        forall|x: int| i <= x < es.len() ==> arrays_bounded(json_view(#[trigger] es[x])),
    decreases es, es.len() - i, 0nat,
{
    if i < es.len() {
        lemma_json_arrays_bounded(es[i]);
        lemma_arr_arrays_bounded(es, i + 1);
    }
}

/// With machine-bounded arrays, every index that flattening writes into a
/// path is machine-bounded.
pub proof fn lemma_flat_units_bounded(v: JsonV)
    requires
        arrays_bounded(v),
    ensures
        forall|x: int| 0 <= x < flat_units(v).len() ==> bounded_path(
            (#[trigger] flat_units(v)[x]).0,
        ),
    decreases v, 1nat,
{
    match v {
        JsonV::Object(es) => {
            lemma_flat_obj_bounded(es, 0);
            assert forall|x: int| 0 <= x < flat_units(v).len() implies bounded_path(
                (#[trigger] flat_units(v)[x]).0,
            ) by {
                assert(flat_units(v)[x] == flat_obj(es, 0)[x]);
            }
        }
        JsonV::Array(es) => {
            lemma_flat_arr_bounded(es, 0);
            assert forall|x: int| 0 <= x < flat_units(v).len() implies bounded_path(
                (#[trigger] flat_units(v)[x]).0,
            ) by {
                assert(flat_units(v)[x] == flat_arr(es, 0)[x]);
            }
        }
        _ => {
            assert(flat_units(v)[0].0 =~= Seq::<StepV>::empty());
        }
    }
}

proof fn lemma_flat_obj_bounded(es: Seq<(Seq<char>, JsonV)>, i: int)
    requires
        forall|x: int| 0 <= x < es.len() ==> arrays_bounded((#[trigger] es[x]).1),
    ensures
        forall|x: int| 0 <= x < flat_obj(es, i).len() ==> bounded_path(
            (#[trigger] flat_obj(es, i)[x]).0,
        ),
    decreases es, es.len() - i, 0nat,
{
    if 0 <= i < es.len() {
        lemma_flat_units_bounded(es[i].1);
        lemma_flat_obj_bounded(es, i + 1);
        let g = prepend_all(seq![StepV::Key(es[i].0)], flat_units(es[i].1));
        assert forall|x: int| 0 <= x < flat_obj(es, i).len() implies bounded_path(
            (#[trigger] flat_obj(es, i)[x]).0,
        ) by {
            if x < g.len() {
                assert(flat_obj(es, i)[x] == g[x]);
                let p = flat_units(es[i].1)[x].0;
                assert(g[x].0 == seq![StepV::Key(es[i].0)] + p);
                assert(bounded_path(p));
                assert forall|y: int| 0 <= y < g[x].0.len() implies ((#[trigger] g[x].0[y])
                    matches StepV::Index(n) ==> n <= usize::MAX as nat) by {
                    if y == 0 {
                        assert(g[x].0[0] == StepV::Key(es[i].0));
                    } else {
                        assert(g[x].0[y] == p[y - 1]);
                    }
                }
            } else {
                assert(flat_obj(es, i)[x] == flat_obj(es, i + 1)[x - g.len()]);
            }
        }
    }
}

proof fn lemma_flat_arr_bounded(es: Seq<JsonV>, i: int)
    requires
        es.len() <= usize::MAX,
        forall|x: int| 0 <= x < es.len() ==> arrays_bounded(#[trigger] es[x]),
    ensures
        forall|x: int| 0 <= x < flat_arr(es, i).len() ==> bounded_path(
            (#[trigger] flat_arr(es, i)[x]).0,
        ),
    decreases es, es.len() - i, 0nat,
{
    if 0 <= i < es.len() {
        lemma_flat_units_bounded(es[i]);
        lemma_flat_arr_bounded(es, i + 1);
        let g = prepend_all(seq![StepV::Index(i as nat)], flat_units(es[i]));
        assert forall|x: int| 0 <= x < flat_arr(es, i).len() implies bounded_path(
            (#[trigger] flat_arr(es, i)[x]).0,
        ) by {
            if x < g.len() {
                assert(flat_arr(es, i)[x] == g[x]);
                let p = flat_units(es[i])[x].0;
                assert(g[x].0 == seq![StepV::Index(i as nat)] + p);
                assert(bounded_path(p));
                assert forall|y: int| 0 <= y < g[x].0.len() implies ((#[trigger] g[x].0[y])
                    matches StepV::Index(n) ==> n <= usize::MAX as nat) by {
                    if y == 0 {
                        assert(g[x].0[0] == StepV::Index(i as nat));
                    } else {
                        assert(g[x].0[y] == p[y - 1]);
                    }
                }
            } else {
                assert(flat_arr(es, i)[x] == flat_arr(es, i + 1)[x - g.len()]);
            }
        }
    }
}

/// Every path key that flattening a held document writes decodes to a
/// machine-bounded step sequence: the flattener's output always meets the
/// rebuilder's demand, so the two compose in verified code.
pub proof fn lemma_flatten_keys_bounded(doc: Json)
    requires
        wf_doc(json_view(doc)),
    ensures
        forall|i: int| 0 <= i < flat_map_of(json_view(doc)).len() ==> bounded_path(
            steps_of((#[trigger] flat_map_of(json_view(doc))[i]).0),
        ),
{
    let v = json_view(doc);
    lemma_json_arrays_bounded(doc);
    lemma_flat_units_bounded(v);
    lemma_flat_units_wf(v);
    assert forall|i: int| 0 <= i < flat_map_of(v).len() implies bounded_path(
        steps_of((#[trigger] flat_map_of(v)[i]).0),
    ) by {
        let p = flat_units(v)[i].0;
        assert(flat_map_of(v)[i] == (key_of(p), flat_units(v)[i].1));
        lemma_steps_of_key_of(p);
    }
}

/// Every entry of an object's flattening opens with the key of one of the
/// object's remaining children.
proof fn lemma_flat_obj_heads(es: Seq<(Seq<char>, JsonV)>, i: int)
    ensures
        forall|x: int| 0 <= x < flat_obj(es, i).len() ==> (#[trigger] flat_obj(es, i)[x]).0.len()
            >= 1 && exists|y: int| i <= y < es.len() && flat_obj(es, i)[x].0[0] == StepV::Key(
            es[y].0,
        ),
    decreases es.len() - i,
{
    if 0 <= i < es.len() {
        lemma_flat_obj_heads(es, i + 1);
        let g = prepend_all(seq![StepV::Key(es[i].0)], flat_units(es[i].1));
        assert forall|x: int| 0 <= x < flat_obj(es, i).len() implies (#[trigger] flat_obj(
            es,
            i,
        )[x]).0.len() >= 1 && exists|y: int| i <= y < es.len() && flat_obj(es, i)[x].0[0]
            == StepV::Key(es[y].0) by {
            if x < g.len() {
                assert(flat_obj(es, i)[x] == g[x]);
                assert(g[x].0 == seq![StepV::Key(es[i].0)] + flat_units(es[i].1)[x].0);
                assert(g[x].0[0] == StepV::Key(es[i].0));
                assert(i <= i < es.len() && flat_obj(es, i)[x].0[0] == StepV::Key(es[i].0));
            } else {
                assert(flat_obj(es, i)[x] == flat_obj(es, i + 1)[x - g.len()]);
            }
        }
    }
}

spec fn index_step(y: int) -> StepV {
    StepV::Index(y as nat)
}

/// Every entry of an array's flattening opens with one of the remaining
/// indices.
proof fn lemma_flat_arr_heads(es: Seq<JsonV>, i: int)
    ensures
        forall|x: int| 0 <= x < flat_arr(es, i).len() ==> (#[trigger] flat_arr(es, i)[x]).0.len()
            >= 1 && exists|y: int| i <= y < es.len() && flat_arr(es, i)[x].0[0]
            == #[trigger] index_step(y),
    decreases es.len() - i,
{
    if 0 <= i < es.len() {
        lemma_flat_arr_heads(es, i + 1);
        let g = prepend_all(seq![StepV::Index(i as nat)], flat_units(es[i]));
        assert forall|x: int| 0 <= x < flat_arr(es, i).len() implies (#[trigger] flat_arr(
            es,
            i,
        )[x]).0.len() >= 1 && exists|y: int| i <= y < es.len() && flat_arr(es, i)[x].0[0]
            == #[trigger] index_step(y) by {
            if x < g.len() {
                assert(flat_arr(es, i)[x] == g[x]);
                assert(g[x].0 == seq![StepV::Index(i as nat)] + flat_units(es[i])[x].0);
                assert(g[x].0[0] == StepV::Index(i as nat));
                assert(i <= i < es.len() && flat_arr(es, i)[x].0[0] == index_step(i));
            } else {
                assert(flat_arr(es, i)[x] == flat_arr(es, i + 1)[x - g.len()]);
            }
        }
    }
}

/// Distinct leaf positions get distinct step paths.
pub proof fn lemma_flat_units_distinct(v: JsonV)
    requires
        wf_doc(v),
    ensures
        forall|a: int, b: int| 0 <= a < b < flat_units(v).len() ==> (#[trigger] flat_units(
            v,
        )[a]).0 != (#[trigger] flat_units(v)[b]).0,
    decreases v, 1nat,
{
    match v {
        JsonV::Object(es) => {
            lemma_flat_obj_distinct(es, 0);
            assert forall|a: int, b: int| 0 <= a < b < flat_units(v).len() implies (
            #[trigger] flat_units(v)[a]).0 != (#[trigger] flat_units(v)[b]).0 by {
                assert(flat_units(v)[a] == flat_obj(es, 0)[a]);
                assert(flat_units(v)[b] == flat_obj(es, 0)[b]);
            }
        }
        JsonV::Array(es) => {
            lemma_flat_arr_distinct(es, 0);
            assert forall|a: int, b: int| 0 <= a < b < flat_units(v).len() implies (
            #[trigger] flat_units(v)[a]).0 != (#[trigger] flat_units(v)[b]).0 by {
                assert(flat_units(v)[a] == flat_arr(es, 0)[a]);
                assert(flat_units(v)[b] == flat_arr(es, 0)[b]);
            }
        }
        _ => {}
    }
}

proof fn lemma_flat_obj_distinct(es: Seq<(Seq<char>, JsonV)>, i: int)
    requires
        forall|a: int, b: int| 0 <= a < b < es.len() ==> (#[trigger] es[a]).0 != (
        #[trigger] es[b]).0,
        forall|x: int| 0 <= x < es.len() ==> key_ok((#[trigger] es[x]).0) && wf_doc(es[x].1),
    ensures
        forall|a: int, b: int| 0 <= a < b < flat_obj(es, i).len() ==> (#[trigger] flat_obj(
            es,
            i,
        )[a]).0 != (#[trigger] flat_obj(es, i)[b]).0,
    decreases es, es.len() - i, 0nat,
{
    if 0 <= i < es.len() {
        lemma_flat_units_distinct(es[i].1);
        lemma_flat_obj_distinct(es, i + 1);
        lemma_flat_obj_heads(es, i + 1);
        let g = prepend_all(seq![StepV::Key(es[i].0)], flat_units(es[i].1));
        let r = flat_obj(es, i + 1);
        assert forall|a: int, b: int| 0 <= a < b < flat_obj(es, i).len() implies (
        #[trigger] flat_obj(es, i)[a]).0 != (#[trigger] flat_obj(es, i)[b]).0 by {
            if b < g.len() {
                assert(flat_obj(es, i)[a] == g[a]);
                assert(flat_obj(es, i)[b] == g[b]);
                let pa = flat_units(es[i].1)[a].0;
                let pb = flat_units(es[i].1)[b].0;
                assert(g[a].0 == seq![StepV::Key(es[i].0)] + pa);
                assert(g[b].0 == seq![StepV::Key(es[i].0)] + pb);
                assert(pa != pb);
                if g[a].0 == g[b].0 {
                    assert(g[a].0.subrange(1, g[a].0.len() as int) =~= pa);
                    assert(g[b].0.subrange(1, g[b].0.len() as int) =~= pb);
                }
            } else if a < g.len() {
                assert(flat_obj(es, i)[a] == g[a]);
                assert(flat_obj(es, i)[b] == r[b - g.len()]);
                assert(g[a].0 == seq![StepV::Key(es[i].0)] + flat_units(es[i].1)[a].0);
                assert(g[a].0[0] == StepV::Key(es[i].0));
                let y = choose|y: int| i + 1 <= y < es.len() && r[b - g.len()].0[0]
                    == StepV::Key(es[y].0);
                assert(es[i].0 != es[y].0);
            } else {
                assert(flat_obj(es, i)[a] == r[a - g.len()]);
                assert(flat_obj(es, i)[b] == r[b - g.len()]);
            }
        }
    }
}

proof fn lemma_flat_arr_distinct(es: Seq<JsonV>, i: int)
    requires
        forall|x: int| 0 <= x < es.len() ==> wf_doc(#[trigger] es[x]),
    ensures
        forall|a: int, b: int| 0 <= a < b < flat_arr(es, i).len() ==> (#[trigger] flat_arr(
            es,
            i,
        )[a]).0 != (#[trigger] flat_arr(es, i)[b]).0,
    decreases es, es.len() - i, 0nat,
{
    if 0 <= i < es.len() {
        lemma_flat_units_distinct(es[i]);
        lemma_flat_arr_distinct(es, i + 1);
        lemma_flat_arr_heads(es, i + 1);
        let g = prepend_all(seq![StepV::Index(i as nat)], flat_units(es[i]));
        let r = flat_arr(es, i + 1);
        assert forall|a: int, b: int| 0 <= a < b < flat_arr(es, i).len() implies (
        #[trigger] flat_arr(es, i)[a]).0 != (#[trigger] flat_arr(es, i)[b]).0 by {
            if b < g.len() {
                assert(flat_arr(es, i)[a] == g[a]);
                assert(flat_arr(es, i)[b] == g[b]);
                let pa = flat_units(es[i])[a].0;
                let pb = flat_units(es[i])[b].0;
                assert(g[a].0 == seq![StepV::Index(i as nat)] + pa);
                assert(g[b].0 == seq![StepV::Index(i as nat)] + pb);
                assert(pa != pb);
                if g[a].0 == g[b].0 {
                    assert(g[a].0.subrange(1, g[a].0.len() as int) =~= pa);
                    assert(g[b].0.subrange(1, g[b].0.len() as int) =~= pb);
                }
            } else if a < g.len() {
                assert(flat_arr(es, i)[a] == g[a]);
                assert(flat_arr(es, i)[b] == r[b - g.len()]);
                assert(g[a].0 == seq![StepV::Index(i as nat)] + flat_units(es[i])[a].0);
                assert(g[a].0[0] == StepV::Index(i as nat));
                let y = choose|y: int| i + 1 <= y < es.len() && r[b - g.len()].0[0]
                    == #[trigger] index_step(y);
                assert(StepV::Index(i as nat) != index_step(y));
            } else {
                assert(flat_arr(es, i)[a] == r[a - g.len()]);
                assert(flat_arr(es, i)[b] == r[b - g.len()]);
            }
        }
    }
}

/// Path key injectivity at the document level: two distinct leaf
/// positions of a well-formed document always flatten under distinct path
/// keys.
pub proof fn lemma_flat_keys_distinct(v: JsonV)
    requires
        wf_doc(v),
    ensures
        forall|a: int, b: int| 0 <= a < b < flat_map_of(v).len() ==> (#[trigger] flat_map_of(
            v,
        )[a]).0 != (#[trigger] flat_map_of(v)[b]).0,
{
    lemma_flat_units_distinct(v);
    lemma_flat_units_wf(v);
    assert forall|a: int, b: int| 0 <= a < b < flat_map_of(v).len() implies (
    #[trigger] flat_map_of(v)[a]).0 != (#[trigger] flat_map_of(v)[b]).0 by {
        let pa = flat_units(v)[a].0;
        let pb = flat_units(v)[b].0;
        assert(flat_map_of(v)[a] == (key_of(pa), flat_units(v)[a].1));
        assert(flat_map_of(v)[b] == (key_of(pb), flat_units(v)[b].1));
        lemma_path_key_injective(pa, pb);
    }
}

/// The positional-pairing hypothesis, discharged end to end: every batch
/// the planner forms for a well-formed document carries pairwise distinct
/// path keys — flattened keys are distinct, the cache filter keeps a
/// subsequence, and each batch is a block of the pending units — so the
/// decoded segment at each position is stored under exactly that unit's
/// key.
pub proof fn lemma_plan_batch_keys_distinct(
    v: JsonV,
    c: Map<Seq<char>, Seq<char>>,
    limit: nat,
    dlen: nat,
    b: int,
)
    requires
        wf_doc(v),
        0 <= b < batches_spec(pending_spec(str_units(flat_map_of(v)), c), limit, dlen).len(),
    ensures
        forall|x: int, y: int| 0 <= x < y < batches_spec(
            pending_spec(str_units(flat_map_of(v)), c),
            limit,
            dlen,
        )[b].len() ==> (#[trigger] batches_spec(
            pending_spec(str_units(flat_map_of(v)), c),
            limit,
            dlen,
        )[b][x]).0 != (#[trigger] batches_spec(
            pending_spec(str_units(flat_map_of(v)), c),
            limit,
            dlen,
        )[b][y]).0,
{
    lemma_flat_keys_distinct(v);
    lemma_str_units_distinct(flat_map_of(v));
    lemma_pending_distinct(str_units(flat_map_of(v)), c);
    lemma_batch_keys_distinct(pending_spec(str_units(flat_map_of(v)), c), limit, dlen, b);
}

/// The flattener and the rebuilder, composed: the whole end-to-end tree
/// transformation as one verified call, for documents inside the path
/// scheme's addressable range (object keys free of the reserved
/// delimiters, pairwise distinct).
pub fn rebuild_document(doc: &Json, translations: &StrMap) -> (r: Json)
    requires
        translations.wf(),
        wf_doc(doc@),
    ensures
        r@ == rebuild_spec(flat_map_of(doc@), translations@),
{
    let entries = flatten(doc);
    proof {
        lemma_flatten_keys_bounded(*doc);
        assert forall|i: int| 0 <= i < entries@.len() implies bounded_path(
            steps_of((#[trigger] entries@[i]).0@),
        ) by {
            assert(entry_pairs_view(entries@)[i] == (entries@[i].0@, json_view(entries@[i].1)));
            assert(entries@[i].0@ == flat_map_of(doc@)[i].0);
        }
    }
    rebuild(entries, translations)
}

} // verus!