use json_translate::config::Config;
use json_translate::cache::StrMap;
use json_translate::paths::{Step, path_for, steps_for};
use json_translate::batch::{make_batches, TranslateError};
use json_translate::adapter::{encode_batch, split_on, decode_translations, record_batch,
    check_status};

fn s(t: &str) -> String {
    t.to_string()
}

#[test]
fn cache_path_is_per_language() {
    let c = Config::new(s("key"), s("FR"));
    assert_eq!(c.cache_path(), "data/cache_FR.json");
    let c2 = Config::new(s("key"), s("DE"));
    assert_eq!(c2.cache_path(), "data/cache_DE.json");
}

#[test]
fn path_for_encodes_keys_and_indices() {
    let p = vec![Step::Key(s("items")), Step::Index(0), Step::Key(s("name"))];
    assert_eq!(path_for(&p), "items[0]->name");
    let q = vec![Step::Key(s("a")), Step::Key(s("b"))];
    assert_eq!(path_for(&q), "a->b");
    let r = vec![Step::Index(12), Step::Index(3)];
    assert_eq!(path_for(&r), "[12][3]");
}

#[test]
fn steps_for_inverts_path_for() {
    let p = vec![
        Step::Key(s("user")),
        Step::Key(s("tags")),
        Step::Index(1),
        Step::Key(s("deep")),
        Step::Index(0),
    ];
    let key = path_for(&p);
    assert_eq!(key, "user->tags[1]->deep[0]");
    let back = steps_for(&key);
    assert_eq!(back.len(), 5);
    assert!(matches!(&back[0], Step::Key(k) if k == "user"));
    assert!(matches!(&back[1], Step::Key(k) if k == "tags"));
    assert!(matches!(&back[2], Step::Index(1)));
    assert!(matches!(&back[3], Step::Key(k) if k == "deep"));
    assert!(matches!(&back[4], Step::Index(0)));
}

#[test]
fn steps_for_reads_edge_shapes() {
    assert!(steps_for(&s("")).is_empty());
    let root_index = steps_for(&s("[7]"));
    assert_eq!(root_index.len(), 1);
    assert!(matches!(&root_index[0], Step::Index(7)));
    let dashed = steps_for(&s("a-b->c"));
    assert_eq!(dashed.len(), 2);
    assert!(matches!(&dashed[0], Step::Key(k) if k == "a-b"));
    assert!(matches!(&dashed[1], Step::Key(k) if k == "c"));
}

#[test]
fn distinct_positions_get_distinct_keys() {
    let p1 = vec![Step::Key(s("a")), Step::Index(0)];
    let p2 = vec![Step::Key(s("a")), Step::Index(1)];
    let p3 = vec![Step::Key(s("a0"))];
    assert_ne!(path_for(&p1), path_for(&p2));
    assert_ne!(path_for(&p1), path_for(&p3));
    assert_ne!(path_for(&p2), path_for(&p3));
}

#[test]
fn batches_respect_the_limit() {
    // weights: 4+2, 4+2, 4+2 against a limit of 13: two fit, the third opens
    // a new batch
    let units = vec![
        (s("k1"), s("aaaa")),
        (s("k2"), s("bbbb")),
        (s("k3"), s("cccc")),
    ];
    let batches = make_batches(units, 13, 2);
    assert_eq!(batches.len(), 2);
    assert_eq!(batches[0].len(), 2);
    assert_eq!(batches[1].len(), 1);
    assert_eq!(batches[0][0].1, "aaaa");
    assert_eq!(batches[0][1].1, "bbbb");
    assert_eq!(batches[1][0].1, "cccc");
}

#[test]
fn oversized_unit_becomes_singleton_batch() {
    let units = vec![
        (s("k1"), s("aa")),
        (s("k2"), s("this one is far beyond the limit")),
        (s("k3"), s("bb")),
    ];
    let batches = make_batches(units, 10, 2);
    assert_eq!(batches.len(), 3);
    assert_eq!(batches[0].len(), 1);
    assert_eq!(batches[1].len(), 1);
    assert_eq!(batches[2].len(), 1);
    assert_eq!(batches[1][0].0, "k2");
}

#[test]
fn batch_weights_count_utf8_bytes() {
    // each source is five characters but six UTF-8 bytes; with the two
    // delimiter bytes the pair weighs 16, over a limit of 15
    let units = vec![(s("k1"), s("héllo")), (s("k2"), s("wörld"))];
    let batches = make_batches(units, 15, 2);
    assert_eq!(batches.len(), 2);
}

#[test]
fn batches_keep_arrival_order() {
    let units = vec![
        (s("k1"), s("one")),
        (s("k2"), s("two")),
        (s("k3"), s("three")),
        (s("k4"), s("four")),
    ];
    let batches = make_batches(units.clone(), 12, 2);
    let rejoined: Vec<(String, String)> = batches.into_iter().flatten().collect();
    assert_eq!(rejoined, units);
}

#[test]
fn split_keeps_positions_and_trailing_empty() {
    let segs = split_on(&s("bonjour::monde::"), &s("::"));
    assert_eq!(segs, vec![s("bonjour"), s("monde"), s("")]);
    let segs2 = split_on(&s("no delimiter here"), &s("::"));
    assert_eq!(segs2, vec![s("no delimiter here")]);
    let segs3 = split_on(&s("a:::"), &s("::"));
    assert_eq!(segs3, vec![s("a"), s(":")]);
}

#[test]
fn encode_then_split_restores_sources() {
    let batch = vec![(s("k1"), s("red")), (s("k2"), s("blue"))];
    let delim = s("::");
    let payload = encode_batch(&batch, &delim);
    assert_eq!(payload, "red::blue::");
    let segs = split_on(&payload, &delim);
    assert_eq!(segs, vec![s("red"), s("blue"), s("")]);
}

#[test]
fn short_response_is_zip_truncated() {
    let batch = vec![(s("k1"), s("red")), (s("k2"), s("blue"))];
    let segs = vec![s("rouge")];
    let mut translations = StrMap::new();
    let mut cache = StrMap::new();
    record_batch(&batch, &segs, &mut translations, &mut cache);
    assert_eq!(translations.lookup(&s("k1")), Some(&s("rouge")));
    assert_eq!(translations.lookup(&s("k2")), None);
    assert_eq!(cache.lookup(&s("red")), Some(&s("rouge")));
    assert_eq!(cache.lookup(&s("blue")), None);
}

#[test]
fn empty_response_is_a_decode_error() {
    let r = decode_translations(&s(""), &s("::"));
    assert_eq!(r, Err(TranslateError::Decode));
}

#[test]
fn non_success_status_is_a_provider_error() {
    assert_eq!(check_status(200), Ok(()));
    assert_eq!(check_status(299), Ok(()));
    assert_eq!(check_status(404), Err(TranslateError::Provider(404)));
    assert_eq!(check_status(500), Err(TranslateError::Provider(500)));
}

#[test]
fn transport_failure_has_its_own_variant() {
    let e = TranslateError::Transport;
    assert_eq!(e, TranslateError::Transport);
    assert_ne!(e, TranslateError::Decode);
}

#[test]
fn cache_store_inserts_and_overwrites() {
    let mut m = StrMap::new();
    assert_eq!(m.lookup(&s("hello")), None);
    assert!(!m.contains(&s("hello")));
    m.insert(s("hello"), s("bonjour"));
    assert_eq!(m.lookup(&s("hello")), Some(&s("bonjour")));
    m.insert(s("hello"), s("salut"));
    assert_eq!(m.lookup(&s("hello")), Some(&s("salut")));
    m.insert(s("world"), s("monde"));
    assert_eq!(m.entries.len(), 2);
    assert_eq!(m.entries[0].0, "hello");
    assert_eq!(m.entries[1].0, "world");
}

#[test]
fn cache_load_is_last_wins() {
    let m = StrMap::from_pairs(vec![
        (s("a"), s("one")),
        (s("b"), s("two")),
        (s("a"), s("three")),
    ]);
    assert_eq!(m.lookup(&s("a")), Some(&s("three")));
    assert_eq!(m.lookup(&s("b")), Some(&s("two")));
}
