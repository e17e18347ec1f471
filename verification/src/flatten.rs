//! The flattener: walks the tree and produces, in traversal order, one
//! (path key, leaf) pair per leaf. Composites never appear on the
//! right-hand side; non-string leaves appear so the rebuilder has the
//! complete leaf set, but only string leaves are translation candidates.

use vstd::prelude::*;
use crate::json::{Json, JsonV, is_leaf, json_view, view_obj, view_arr, lemma_view_obj_len,
    lemma_view_obj_index, lemma_view_arr_len, lemma_view_arr_index};
use crate::paths::{StepV, key_of, enc_step, enc_first, digits_of, lemma_key_of_push, push_digits};
use crate::text::{copy_chars, append_chars, string_from_chars};

verus! {

/// Prefixes every entry's path with `p`.
pub open spec fn prepend_all(p: Seq<StepV>, entries: Seq<(Seq<StepV>, JsonV)>) -> Seq<
    (Seq<StepV>, JsonV),
> {
    entries.map_values(|e: (Seq<StepV>, JsonV)| (p + e.0, e.1))
}

/// The flattening of a value: the (relative path, leaf) pairs of all its
/// leaves, objects in entry order, arrays in index order.
pub open spec fn flat_units(v: JsonV) -> Seq<(Seq<StepV>, JsonV)>
    decreases v, 0nat,
{
    match v {
        JsonV::Object(es) => flat_obj(es, 0),
        JsonV::Array(es) => flat_arr(es, 0),
        _ => seq![(Seq::<StepV>::empty(), v)],
    }
}

pub open spec fn flat_obj(es: Seq<(Seq<char>, JsonV)>, i: int) -> Seq<(Seq<StepV>, JsonV)>
    decreases es, es.len() - i,
{
    if i < 0 || i >= es.len() {
        Seq::empty()
    } else {
        prepend_all(seq![StepV::Key(es[i].0)], flat_units(es[i].1)) + flat_obj(es, i + 1)
    }
}

pub open spec fn flat_arr(es: Seq<JsonV>, i: int) -> Seq<(Seq<StepV>, JsonV)>
    decreases es, es.len() - i,
{
    if i < 0 || i >= es.len() {
        Seq::empty()
    } else {
        prepend_all(seq![StepV::Index(i as nat)], flat_units(es[i])) + flat_arr(es, i + 1)
    }
}

/// Entries with their paths written out as string keys.
pub open spec fn enc_entries(entries: Seq<(Seq<StepV>, JsonV)>) -> Seq<(Seq<char>, JsonV)> {
    entries.map_values(|e: (Seq<StepV>, JsonV)| (key_of(e.0), e.1))
}

/// The flattened mapping of a document: path key to leaf, traversal order.
pub open spec fn flat_map_of(v: JsonV) -> Seq<(Seq<char>, JsonV)> {
    enc_entries(flat_units(v))
}

/// The view of an executable (key, value) pair sequence.
pub open spec fn entry_pairs_view(s: Seq<(String, Json)>) -> Seq<(Seq<char>, JsonV)> {
    s.map_values(|e: (String, Json)| (e.0@, json_view(e.1)))
}

fn clone_leaf(j: &Json) -> (r: Json)
    requires
        is_leaf(j@),
    ensures
        r@ == j@,
{
    match j {
        Json::Str(s) => Json::Str(s.clone()),
        Json::Num(n) => Json::Num(n.clone()),
        Json::Bool(b) => Json::Bool(*b),
        Json::Null => Json::Null,
        _ => unreached(),
    }
}

#[verifier::loop_isolation(false)]
fn flatten_into(
    doc: &Json,
    prefix: &Vec<char>,
    is_root: bool,
    path: Ghost<Seq<StepV>>,
    out: &mut Vec<(String, Json)>,
)
    requires
        prefix@ == key_of(path@),
        is_root == (path@.len() == 0),
    ensures
        entry_pairs_view(final(out)@) == entry_pairs_view(old(out)@) + enc_entries(
            prepend_all(path@, flat_units(doc@)),
        ),
    decreases *doc,
{
    match doc {
        Json::Object(es) => {
            let ghost ves = view_obj(es@);
            proof {
                lemma_view_obj_len(es@);
            }
            let mut j: usize = 0;
            while j < es.len()
                invariant
                    j <= es@.len(),
                    ves == view_obj(es@),
                    ves.len() == es@.len(),
                    prefix@ == key_of(path@),
                    is_root == (path@.len() == 0),
                    entry_pairs_view(out@) == entry_pairs_view(old(out)@) + enc_entries(
                        prepend_all(path@, flat_obj_upto(ves, j as int)),
                    ),
                decreases es@.len() - j,
            {
                proof {
                    lemma_view_obj_index(es@, j as int);
                }
                let kstr = &es[j].0;
                let child = &es[j].1;
                let mut cp = copy_chars(prefix);
                if !is_root {
                    cp.push('-');
                    cp.push('>');
                }
                append_chars(&mut cp, kstr.as_str());
                let ghost cpath = path@.push(StepV::Key(kstr@));
                proof {
                    lemma_key_of_push(path@, StepV::Key(kstr@));
                    if path@.len() == 0 {
                        assert(cp@ =~= key_of(cpath));
                    } else {
                        assert(cp@ =~= key_of(path@) + enc_step(StepV::Key(kstr@)));
                        assert(cp@ =~= key_of(cpath));
                    }
                }
                proof {
                    assert(decreases_to!(*doc => doc->Object_0));
                    assert(*es == doc->Object_0);
                    assert(decreases_to!(*es => es@));
                    assert(decreases_to!(es@ => es@[j as int]));
                    assert(decreases_to!(es@[j as int] => es@[j as int].1));
                }
                flatten_into(child, &cp, false, Ghost(cpath), out);
                proof {
                    lemma_flat_obj_upto_snoc(ves, j as int);
                    assert(prepend_all(cpath, flat_units(ves[j as int].1)) =~~= prepend_all(
                        path@,
                        prepend_all(seq![StepV::Key(ves[j as int].0)], flat_units(ves[j as int].1)),
                    ));
                    lemma_prepend_distributes(
                        path@,
                        flat_obj_upto(ves, j as int),
                        prepend_all(seq![StepV::Key(ves[j as int].0)], flat_units(ves[j as int].1)),
                    );
                    assert(entry_pairs_view(out@) =~~= entry_pairs_view(old(out)@) + enc_entries(
                        prepend_all(path@, flat_obj_upto(ves, j + 1)),
                    ));
                }
                j = j + 1;
            }
            proof {
                lemma_flat_obj_upto_full(ves);
            }
        }
        Json::Array(es) => {
            let ghost ves = view_arr(es@);
            proof {
                lemma_view_arr_len(es@);
            }
            let mut j: usize = 0;
            while j < es.len()
                invariant
                    j <= es@.len(),
                    ves == view_arr(es@),
                    ves.len() == es@.len(),
                    prefix@ == key_of(path@),
                    is_root == (path@.len() == 0),
                    entry_pairs_view(out@) == entry_pairs_view(old(out)@) + enc_entries(
                        prepend_all(path@, flat_arr_upto(ves, j as int)),
                    ),
                decreases es@.len() - j,
            {
                proof {
                    lemma_view_arr_index(es@, j as int);
                }
                let child = &es[j];
                let mut cp = copy_chars(prefix);
                cp.push('[');
                push_digits(&mut cp, j);
                cp.push(']');
                let ghost cpath = path@.push(StepV::Index(j as nat));
                proof {
                    lemma_key_of_push(path@, StepV::Index(j as nat));
                    assert(enc_step(StepV::Index(j as nat)) =~= seq!['['] + digits_of(j as nat)
                        + seq![']']);
                    if path@.len() == 0 {
                        assert(cp@ =~= enc_first(StepV::Index(j as nat)));
                        assert(cp@ =~= key_of(cpath));
                    } else {
                        assert(cp@ =~= key_of(path@) + enc_step(StepV::Index(j as nat)));
                        assert(cp@ =~= key_of(cpath));
                    }
                }
                proof {
                    assert(decreases_to!(*doc => doc->Array_0));
                    assert(*es == doc->Array_0);
                    assert(decreases_to!(*es => es@));
                    assert(decreases_to!(es@ => es@[j as int]));
                }
                flatten_into(child, &cp, false, Ghost(cpath), out);
                proof {
                    lemma_flat_arr_upto_snoc(ves, j as int);
                    assert(prepend_all(cpath, flat_units(ves[j as int])) =~~= prepend_all(
                        path@,
                        prepend_all(seq![StepV::Index(j as nat)], flat_units(ves[j as int])),
                    ));
                    lemma_prepend_distributes(
                        path@,
                        flat_arr_upto(ves, j as int),
                        prepend_all(seq![StepV::Index(j as nat)], flat_units(ves[j as int])),
                    );
                    assert(entry_pairs_view(out@) =~~= entry_pairs_view(old(out)@) + enc_entries(
                        prepend_all(path@, flat_arr_upto(ves, j + 1)),
                    ));
                }
                j = j + 1;
            }
            proof {
                lemma_flat_arr_upto_full(ves);
            }
        }
        _ => {
            let key = string_from_chars(prefix);
            let leaf = clone_leaf(doc);
            out.push((key, leaf));
            proof {
                assert(entry_pairs_view(out@) =~~= entry_pairs_view(old(out)@) + enc_entries(
                    prepend_all(path@, flat_units(doc@)),
                ));
            }
        }
    }
}

/// The entries contributed by the first `i` children, left to right.
pub open spec fn flat_obj_upto(es: Seq<(Seq<char>, JsonV)>, i: int) -> Seq<(Seq<StepV>, JsonV)>
    decreases i,
{
    if i <= 0 || i > es.len() {
        Seq::empty()
    } else {
        flat_obj_upto(es, i - 1) + prepend_all(
            seq![StepV::Key(es[i - 1].0)],
            flat_units(es[i - 1].1),
        )
    }
}

pub open spec fn flat_arr_upto(es: Seq<JsonV>, i: int) -> Seq<(Seq<StepV>, JsonV)>
    decreases i,
{
    if i <= 0 || i > es.len() {
        Seq::empty()
    } else {
        flat_arr_upto(es, i - 1) + prepend_all(
            seq![StepV::Index((i - 1) as nat)],
            flat_units(es[i - 1]),
        )
    }
}

pub proof fn lemma_flat_obj_upto_snoc(es: Seq<(Seq<char>, JsonV)>, i: int)
    requires
        0 <= i < es.len(),
    ensures
        flat_obj_upto(es, i + 1) == flat_obj_upto(es, i) + prepend_all(
            seq![StepV::Key(es[i].0)],
            flat_units(es[i].1),
        ),
{
}

pub proof fn lemma_flat_arr_upto_snoc(es: Seq<JsonV>, i: int)
    requires
        0 <= i < es.len(),
    ensures
        flat_arr_upto(es, i + 1) == flat_arr_upto(es, i) + prepend_all(
            seq![StepV::Index(i as nat)],
            flat_units(es[i]),
        ),
{
}

/// Consuming all children left to right agrees with the head-recursive
/// definition of the flattening.
pub proof fn lemma_flat_obj_upto_full(es: Seq<(Seq<char>, JsonV)>)
    ensures
        flat_obj_upto(es, es.len() as int) == flat_obj(es, 0),
{
    lemma_flat_obj_split(es, 0);
}

proof fn lemma_flat_obj_split(es: Seq<(Seq<char>, JsonV)>, i: int)
    requires
        0 <= i <= es.len(),
    ensures
        flat_obj_upto(es, es.len() as int) == flat_obj_upto(es, i) + flat_obj(es, i),
    decreases es.len() - i,
{
    if i == es.len() {
        assert(flat_obj_upto(es, es.len() as int) =~= flat_obj_upto(es, i) + flat_obj(es, i));
    } else {
        lemma_flat_obj_split(es, i + 1);
        lemma_flat_obj_upto_snoc(es, i);
        assert(flat_obj_upto(es, es.len() as int) =~= flat_obj_upto(es, i) + flat_obj(es, i));
    }
}

pub proof fn lemma_flat_arr_upto_full(es: Seq<JsonV>)
    ensures
        flat_arr_upto(es, es.len() as int) == flat_arr(es, 0),
{
    lemma_flat_arr_split(es, 0);
}

proof fn lemma_flat_arr_split(es: Seq<JsonV>, i: int)
    requires
        0 <= i <= es.len(),
    ensures
        flat_arr_upto(es, es.len() as int) == flat_arr_upto(es, i) + flat_arr(es, i),
    decreases es.len() - i,
{
    if i == es.len() {
        assert(flat_arr_upto(es, es.len() as int) =~= flat_arr_upto(es, i) + flat_arr(es, i));
    } else {
        lemma_flat_arr_split(es, i + 1);
        lemma_flat_arr_upto_snoc(es, i);
        assert(flat_arr_upto(es, es.len() as int) =~= flat_arr_upto(es, i) + flat_arr(es, i));
    }
}

pub proof fn lemma_prepend_distributes(
    p: Seq<StepV>,
    a: Seq<(Seq<StepV>, JsonV)>,
    b: Seq<(Seq<StepV>, JsonV)>,
)
    ensures
        prepend_all(p, a + b) == prepend_all(p, a) + prepend_all(p, b),
        enc_entries(prepend_all(p, a + b)) == enc_entries(prepend_all(p, a)) + enc_entries(
            prepend_all(p, b),
        ),
{
    assert(prepend_all(p, a + b) =~~= prepend_all(p, a) + prepend_all(p, b));
    assert(enc_entries(prepend_all(p, a) + prepend_all(p, b)) =~~= enc_entries(prepend_all(p, a))
        + enc_entries(prepend_all(p, b)));
}

/// `flatten`: the complete flattened mapping of a document, path key to
/// leaf, in traversal order.
pub fn flatten(doc: &Json) -> (r: Vec<(String, Json)>)
    ensures
        entry_pairs_view(r@) == flat_map_of(doc@),
{
    let mut out: Vec<(String, Json)> = Vec::new();
    let prefix: Vec<char> = Vec::new();
    flatten_into(doc, &prefix, true, Ghost(Seq::empty()), &mut out);
    proof {
        assert(prepend_all(Seq::<StepV>::empty(), flat_units(doc@)) =~~= flat_units(doc@));
        assert(entry_pairs_view(out@) =~~= flat_map_of(doc@));
    }
    out
}

/// How many leaves a value holds: a composite counts its children's
/// leaves, a leaf counts itself.
pub open spec fn leaf_count(v: JsonV) -> nat
    decreases v, 0nat,
{
    match v {
        JsonV::Object(es) => obj_leaf_count(es, 0),
        JsonV::Array(es) => arr_leaf_count(es, 0),
        _ => 1,
    }
}

pub open spec fn obj_leaf_count(es: Seq<(Seq<char>, JsonV)>, i: int) -> nat
    decreases es, es.len() - i,
{
    if i < 0 || i >= es.len() {
        0
    } else {
        leaf_count(es[i].1) + obj_leaf_count(es, i + 1)
    }
}

pub open spec fn arr_leaf_count(es: Seq<JsonV>, i: int) -> nat
    decreases es, es.len() - i,
{
    if i < 0 || i >= es.len() {
        0
    } else {
        leaf_count(es[i]) + arr_leaf_count(es, i + 1)
    }
}

/// The flattened mapping holds exactly one entry per leaf of the
/// document.
pub proof fn lemma_flat_map_len(v: JsonV)
    ensures
        flat_units(v).len() == leaf_count(v),
        flat_map_of(v).len() == leaf_count(v),
    decreases v, 1nat,
{
    match v {
        JsonV::Object(es) => {
            lemma_flat_obj_len(es, 0);
        }
        JsonV::Array(es) => {
            lemma_flat_arr_len(es, 0);
        }
        _ => {}
    }
}

proof fn lemma_flat_obj_len(es: Seq<(Seq<char>, JsonV)>, i: int)
    ensures
        flat_obj(es, i).len() == obj_leaf_count(es, i),
    decreases es, es.len() - i, 0nat,
{
    if 0 <= i < es.len() {
        lemma_flat_map_len(es[i].1);
        lemma_flat_obj_len(es, i + 1);
    }
}

proof fn lemma_flat_arr_len(es: Seq<JsonV>, i: int)
    ensures
        flat_arr(es, i).len() == arr_leaf_count(es, i),
    decreases es, es.len() - i, 0nat,
{
    if 0 <= i < es.len() {
        lemma_flat_map_len(es[i]);
        lemma_flat_arr_len(es, i + 1);
    }
}

/// The string-leaf entries of a flattened mapping: the translation
/// candidates, in order.
pub open spec fn str_units(entries: Seq<(Seq<char>, JsonV)>) -> Seq<(Seq<char>, Seq<char>)>
    decreases entries.len(),
{
    if entries.len() == 0 {
        Seq::empty()
    } else {
        str_units(entries.drop_last()) + (match entries.last().1 {
            JsonV::Str(s) => seq![(entries.last().0, s)],
            _ => Seq::empty(),
        })
    }
}

/// The view of an executable (key, source) pair sequence.
pub open spec fn str_pairs_view(s: Seq<(String, String)>) -> Seq<(Seq<char>, Seq<char>)> {
    s.map_values(|e: (String, String)| (e.0@, e.1@))
}

/// Every translation candidate carries the key of a flattened entry.
pub proof fn lemma_str_units_keys(entries: Seq<(Seq<char>, JsonV)>)
    ensures
        forall|x: int| 0 <= x < str_units(entries).len() ==> exists|y: int| 0 <= y
            < entries.len() && (#[trigger] str_units(entries)[x]).0 == (#[trigger] entries[y]).0,
    decreases entries.len(),
{
    if entries.len() > 0 {
        let pre = entries.drop_last();
        lemma_str_units_keys(pre);
        assert forall|x: int| 0 <= x < str_units(entries).len() implies exists|y: int| 0 <= y
            < entries.len() && (#[trigger] str_units(entries)[x]).0 == (#[trigger] entries[y]).0 by {
            if x < str_units(pre).len() {
                assert(str_units(entries)[x] == str_units(pre)[x]);
                let y = choose|y: int| 0 <= y < pre.len() && str_units(pre)[x].0 == (
                #[trigger] pre[y]).0;
                assert(entries[y] == pre[y]);
            } else {
                assert(str_units(entries)[x].0 == entries.last().0);
                assert(entries[entries.len() - 1] == entries.last());
            }
        }
    }
}

/// Distinct flattened keys stay distinct among the translation
/// candidates.
pub proof fn lemma_str_units_distinct(entries: Seq<(Seq<char>, JsonV)>)
    requires
        forall|a: int, b: int| 0 <= a < b < entries.len() ==> (#[trigger] entries[a]).0 != (
        #[trigger] entries[b]).0,
    ensures
        forall|a: int, b: int| 0 <= a < b < str_units(entries).len() ==> (#[trigger] str_units(
            entries,
        )[a]).0 != (#[trigger] str_units(entries)[b]).0,
    decreases entries.len(),
{
    if entries.len() > 0 {
        let pre = entries.drop_last();
        assert forall|a: int, b: int| 0 <= a < b < pre.len() implies (#[trigger] pre[a]).0 != (
        #[trigger] pre[b]).0 by {
            assert(pre[a] == entries[a]);
            assert(pre[b] == entries[b]);
        }
        lemma_str_units_distinct(pre);
        lemma_str_units_keys(pre);
        assert forall|a: int, b: int| 0 <= a < b < str_units(entries).len() implies (
        #[trigger] str_units(entries)[a]).0 != (#[trigger] str_units(entries)[b]).0 by {
            if b < str_units(pre).len() {
                assert(str_units(entries)[a] == str_units(pre)[a]);
                assert(str_units(entries)[b] == str_units(pre)[b]);
            } else {
                assert(str_units(entries)[a] == str_units(pre)[a]);
                assert(str_units(entries)[b].0 == entries.last().0);
                let y = choose|y: int| 0 <= y < pre.len() && str_units(pre)[a].0 == (
                #[trigger] pre[y]).0;
                assert(entries[y] == pre[y]);
                assert(entries[y].0 != entries[entries.len() - 1].0);
            }
        }
    }
}

/// `collect_values`: the (path key, source string) pairs of every string
/// leaf, in traversal order — exactly the translation candidates.
pub fn collect_values(doc: &Json) -> (r: Vec<(String, String)>)
    ensures
        str_pairs_view(r@) == str_units(flat_map_of(doc@)),
{
    let flat = flatten(doc);
    let mut out: Vec<(String, String)> = Vec::new();
    let mut i: usize = 0;
    while i < flat.len()
        invariant
            i <= flat@.len(),
            entry_pairs_view(flat@) == flat_map_of(doc@),
            str_pairs_view(out@) == str_units(entry_pairs_view(flat@).subrange(0, i as int)),
        decreases flat@.len() - i,
    {
        let ghost ev = entry_pairs_view(flat@);
        proof {
            assert(ev.subrange(0, i + 1).drop_last() =~= ev.subrange(0, i as int));
            assert(ev.subrange(0, i + 1).last() == ev[i as int]);
        }
        match &flat[i].1 {
            Json::Str(s) => {
                out.push((flat[i].0.clone(), s.clone()));
                proof {
                    assert(str_pairs_view(out@) =~~= str_units(ev.subrange(0, i + 1)));
                }
            }
            _ => {
                proof {
                    assert(str_pairs_view(out@) =~~= str_units(ev.subrange(0, i + 1)));
                }
            }
        }
        i = i + 1;
    }
    proof {
        assert(entry_pairs_view(flat@).subrange(0, flat@.len() as int) =~= entry_pairs_view(
            flat@,
        ));
    }
    out
}

} // verus!