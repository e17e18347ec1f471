use json_translate::json::Json;
use json_translate::cache::StrMap;
use json_translate::flatten::{flatten, collect_values};
use json_translate::rebuild::rebuild;
use json_translate::roundtrip::rebuild_document;
use json_translate::batch::{filter_pending, make_batches, plan_run};
use json_translate::adapter::{encode_batch, decode_translations, record_batch};

fn json_eq(a: &Json, b: &Json) -> bool {
    match (a, b) {
        (Json::Object(x), Json::Object(y)) => {
            x.len() == y.len() && x.iter().zip(y.iter()).all(|(p, q)| {
                p.0 == q.0 && json_eq(&p.1, &q.1)
            })
        }
        (Json::Array(x), Json::Array(y)) => {
            x.len() == y.len() && x.iter().zip(y.iter()).all(|(p, q)| json_eq(p, q))
        }
        (Json::Str(x), Json::Str(y)) => x == y,
        (Json::Num(x), Json::Num(y)) => x == y,
        (Json::Bool(x), Json::Bool(y)) => x == y,
        (Json::Null, Json::Null) => true,
        _ => false,
    }
}

fn s(t: &str) -> String {
    t.to_string()
}

#[test]
fn scenario_flat_object() {
    let doc = Json::Object(vec![
        (s("a"), Json::Str(s("hello"))),
        (s("b"), Json::Str(s("world"))),
    ]);
    let units = collect_values(&doc);
    assert_eq!(units, vec![(s("a"), s("hello")), (s("b"), s("world"))]);

    let cache = StrMap::new();
    let (pending, resolved) = filter_pending(units, &cache);
    assert!(resolved.is_empty());
    assert_eq!(pending.len(), 2);

    let batches = make_batches(pending, 1500, 2);
    assert_eq!(batches.len(), 1);

    let delim = s("::");
    let payload = encode_batch(&batches[0], &delim);
    assert_eq!(payload, "hello::world::");

    let response = s("bonjour::monde::");
    let segs = decode_translations(&response, &delim).unwrap();
    assert_eq!(segs, vec![s("bonjour"), s("monde"), s("")]);

    let mut translations = StrMap::new();
    let mut cache = StrMap::new();
    record_batch(&batches[0], &segs, &mut translations, &mut cache);
    assert_eq!(translations.lookup(&s("a")), Some(&s("bonjour")));
    assert_eq!(translations.lookup(&s("b")), Some(&s("monde")));
    assert_eq!(cache.lookup(&s("hello")), Some(&s("bonjour")));
    assert_eq!(cache.lookup(&s("world")), Some(&s("monde")));

    let out = rebuild(flatten(&doc), &translations);
    let expected = Json::Object(vec![
        (s("a"), Json::Str(s("bonjour"))),
        (s("b"), Json::Str(s("monde"))),
    ]);
    assert!(json_eq(&out, &expected));
}

#[test]
fn scenario_nested_array() {
    let doc = Json::Object(vec![(
        s("items"),
        Json::Array(vec![Json::Str(s("red")), Json::Str(s("blue"))]),
    )]);
    let flat = flatten(&doc);
    let keys: Vec<String> = flat.iter().map(|e| e.0.clone()).collect();
    assert_eq!(keys, vec![s("items[0]"), s("items[1]")]);
    let units = collect_values(&doc);
    assert_eq!(units, vec![(s("items[0]"), s("red")), (s("items[1]"), s("blue"))]);

    let out = rebuild(flat, &StrMap::new());
    match &out {
        Json::Object(es) => {
            assert_eq!(es.len(), 1);
            assert_eq!(es[0].0, "items");
            match &es[0].1 {
                Json::Array(a) => assert_eq!(a.len(), 2),
                _ => panic!("items should rebuild as an array"),
            }
        }
        _ => panic!("root should rebuild as an object"),
    }
    assert!(json_eq(&out, &doc));
}

#[test]
fn scenario_cache_hit() {
    let cache = StrMap::from_pairs(vec![(s("hello"), s("bonjour"))]);
    let doc = Json::Object(vec![(s("a"), Json::Str(s("hello")))]);
    let units = collect_values(&doc);
    let (pending, resolved) = filter_pending(units, &cache);
    assert!(pending.is_empty());
    let batches = make_batches(pending, 1500, 2);
    assert!(batches.is_empty());
    assert_eq!(resolved, vec![(s("a"), s("bonjour"))]);

    let translations = StrMap::from_pairs(resolved);
    let out = rebuild(flatten(&doc), &translations);
    let expected = Json::Object(vec![(s("a"), Json::Str(s("bonjour")))]);
    assert!(json_eq(&out, &expected));
}

#[test]
fn scenario_non_string_leaves_untouched() {
    let doc = Json::Object(vec![
        (s("n"), Json::Num(s("42"))),
        (s("flag"), Json::Bool(true)),
        (s("x"), Json::Null),
    ]);
    let units = collect_values(&doc);
    assert!(units.is_empty());
    let (pending, _) = filter_pending(units, &StrMap::new());
    let batches = make_batches(pending, 1500, 2);
    assert!(batches.is_empty());

    let out = rebuild(flatten(&doc), &StrMap::new());
    assert!(json_eq(&out, &doc));
}

#[test]
fn number_literals_pass_through_untouched() {
    let doc = Json::Object(vec![
        (s("x"), Json::Num(s("1.5"))),
        (s("big"), Json::Num(s("18446744073709551615"))),
        (s("e"), Json::Num(s("-2.75e10"))),
    ]);
    assert!(collect_values(&doc).is_empty());
    let out = rebuild(flatten(&doc), &StrMap::new());
    assert!(json_eq(&out, &doc));
}

#[test]
fn roundtrip_deeply_nested() {
    let doc = Json::Object(vec![
        (
            s("user"),
            Json::Object(vec![
                (s("name"), Json::Str(s("ada"))),
                (
                    s("tags"),
                    Json::Array(vec![
                        Json::Str(s("x")),
                        Json::Object(vec![(s("deep"), Json::Num(s("-7")))]),
                        Json::Array(vec![Json::Bool(false), Json::Null]),
                    ]),
                ),
            ]),
        ),
        (s("count"), Json::Num(s("3"))),
    ]);
    let out = rebuild(flatten(&doc), &StrMap::new());
    assert!(json_eq(&out, &doc));
}

#[test]
fn rebuild_document_composes_flatten_and_rebuild() {
    let doc = Json::Object(vec![
        (s("a"), Json::Str(s("hello"))),
        (s("list"), Json::Array(vec![Json::Str(s("x")), Json::Num(s("9"))])),
    ]);
    let out = rebuild_document(&doc, &StrMap::new());
    assert!(json_eq(&out, &doc));

    let translations = StrMap::from_pairs(vec![(s("a"), s("bonjour")), (s("list[0]"), s("y"))]);
    let out2 = rebuild_document(&doc, &translations);
    let expected = Json::Object(vec![
        (s("a"), Json::Str(s("bonjour"))),
        (s("list"), Json::Array(vec![Json::Str(s("y")), Json::Num(s("9"))])),
    ]);
    assert!(json_eq(&out2, &expected));
}

#[test]
fn roundtrip_scalar_root() {
    let doc = Json::Str(s("alone"));
    let flat = flatten(&doc);
    assert_eq!(flat.len(), 1);
    assert_eq!(flat[0].0, "");
    let out = rebuild(flat, &StrMap::new());
    assert!(json_eq(&out, &doc));
}

#[test]
fn roundtrip_array_root() {
    let doc = Json::Array(vec![Json::Str(s("p")), Json::Str(s("q"))]);
    let flat = flatten(&doc);
    let keys: Vec<String> = flat.iter().map(|e| e.0.clone()).collect();
    assert_eq!(keys, vec![s("[0]"), s("[1]")]);
    let out = rebuild(flat, &StrMap::new());
    assert!(json_eq(&out, &doc));
}

#[test]
fn second_run_with_warm_cache_makes_no_batches() {
    let doc = Json::Object(vec![
        (s("a"), Json::Str(s("hello"))),
        (s("b"), Json::Str(s("world"))),
        (s("c"), Json::Str(s("hello"))),
    ]);
    // first run: everything pending
    let (pending, _) = filter_pending(collect_values(&doc), &StrMap::new());
    let batches = make_batches(pending, 1500, 2);
    assert_eq!(batches.len(), 1);
    let mut translations = StrMap::new();
    let mut cache = StrMap::new();
    let segs = vec![s("bonjour"), s("monde")];
    record_batch(&batches[0], &segs, &mut translations, &mut cache);

    // second run with the warmed cache: zero provider calls
    let (pending2, resolved2) = filter_pending(collect_values(&doc), &cache);
    assert!(pending2.is_empty());
    assert!(make_batches(pending2, 1500, 2).is_empty());
    assert_eq!(
        resolved2,
        vec![(s("a"), s("bonjour")), (s("b"), s("monde")), (s("c"), s("bonjour"))]
    );

    // and the leaves come out the same both ways
    let out = rebuild(flatten(&doc), &StrMap::from_pairs(resolved2));
    let expected = Json::Object(vec![
        (s("a"), Json::Str(s("bonjour"))),
        (s("b"), Json::Str(s("monde"))),
        (s("c"), Json::Str(s("bonjour"))),
    ]);
    assert!(json_eq(&out, &expected));
}

#[test]
fn plan_splits_leaves_between_cache_and_batches() {
    let doc = Json::Object(vec![
        (s("a"), Json::Str(s("hello"))),
        (s("b"), Json::Str(s("world"))),
        (s("n"), Json::Num(s("1"))),
    ]);
    let cache = StrMap::from_pairs(vec![(s("hello"), s("bonjour"))]);
    let (batches, resolved) = plan_run(&doc, &cache, 1500, 2);
    assert_eq!(resolved, vec![(s("a"), s("bonjour"))]);
    assert_eq!(batches.len(), 1);
    assert_eq!(batches[0], vec![(s("b"), s("world"))]);
}

#[test]
fn equal_strings_share_one_cache_entry() {
    let doc = Json::Object(vec![
        (s("x"), Json::Str(s("same"))),
        (s("y"), Json::Str(s("same"))),
    ]);
    let cache = StrMap::from_pairs(vec![(s("same"), s("pareil"))]);
    let (pending, resolved) = filter_pending(collect_values(&doc), &cache);
    assert!(pending.is_empty());
    assert_eq!(resolved, vec![(s("x"), s("pareil")), (s("y"), s("pareil"))]);
}
