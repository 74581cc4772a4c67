use rusted_post::backend::SingleStorageBackend;
use rusted_post::lexer::parse_query;
use rusted_post::query::{Field, KeyValuesSearch, Query, Search, SearchFlags};

const SEED: [&str; 3] = [
    r#"{keya="val1", keyb="val1", keyc="val3"}"#,
    r#"{keya="val1", keyb="val2", keyc="val2"}"#,
    r#"{keya="val1", keyb="val1", keyc="val1"}"#,
];

fn seeded_backend() -> SingleStorageBackend {
    let mut b = SingleStorageBackend::new();
    for (i, line) in SEED.iter().enumerate() {
        let id = b.raw_add(line).unwrap().unwrap();
        assert_eq!(id as usize, i);
    }
    b
}

fn run_query(b: &SingleStorageBackend, text: &str) -> Vec<String> {
    match parse_query(text).unwrap() {
        Query::Simple(s) => {
            let mut out: Vec<String> = b
                .search(&s)
                .unwrap()
                .iter()
                .map(|r| {
                    r.label_pairs
                        .iter()
                        .map(|p| format!("{}={}", p.key, p.val))
                        .collect::<Vec<String>>()
                        .join(",")
                })
                .collect();
            out.sort();
            out
        }
        Query::KeyValues(kv) => {
            let mut out = b.key_values_search(&kv).unwrap();
            out.sort();
            out
        }
    }
}

fn record_text(b: &SingleStorageBackend, selector: &str) -> Vec<String> {
    run_query(b, selector)
}

#[test]
fn seed_records_get_dense_ids() {
    // ingesting the three seed lines yields ids 0, 1 and 2
    seeded_backend();
}

#[test]
fn seed_searches() {
    let b = seeded_backend();
    let rec0 = "keya=val1,keyb=val1,keyc=val3";
    let rec1 = "keya=val1,keyb=val2,keyc=val2";
    let rec2 = "keya=val1,keyb=val1,keyc=val1";

    let mut expect = vec![rec0.to_string(), rec1.to_string(), rec2.to_string()];
    expect.sort();
    assert_eq!(record_text(&b, r#"{keya=="val1"}"#), expect);

    let mut expect = vec![rec0.to_string(), rec2.to_string()];
    expect.sort();
    assert_eq!(record_text(&b, r#"{keyb=="val1"}"#), expect);
    assert_eq!(record_text(&b, r#"{keya=="val1", keyb=="val1"}"#), expect);

    let expect = vec![rec0.to_string()];
    assert_eq!(record_text(&b, r#"{keyc=="val3", keyb=="val1"}"#), expect);

    let mut expect = vec![rec0.to_string(), rec2.to_string()];
    expect.sort();
    assert_eq!(record_text(&b, r#"{keyc=~"val[13]"}"#), expect);
}

#[test]
fn seed_label_values() {
    let b = seeded_backend();
    assert_eq!(
        run_query(&b, r#"label_values({keya=="val1"}, "keyc")"#),
        vec!["val1".to_string(), "val2".to_string(), "val3".to_string()]
    );
    assert_eq!(
        run_query(&b, r#"label_values({keyb=="val1"}, "keyc")"#),
        vec!["val1".to_string(), "val3".to_string()]
    );
}

#[test]
fn duplicate_insert_returns_none() {
    let mut b = seeded_backend();
    // the same record text again: same content, so no id is allocated
    let r = b.raw_add(SEED[0]).unwrap();
    assert!(r.is_none());
    // whitespace differences do not change the parsed record
    let r = b.raw_add("{ keya = \"val1\", keyb = \"val1\", keyc = \"val3\" }").unwrap();
    assert!(r.is_none());
    // a genuinely new record still gets the next id
    let r = b.raw_add(r#"{keya="other"}"#).unwrap();
    assert_eq!(r, Some(3));
}

#[test]
fn get_after_add_round_trips() {
    let mut b = SingleStorageBackend::new();
    let id = b.raw_add(r#"{title="Stolen Moments", year="0"}"#).unwrap().unwrap();
    let rec = b.store.get(id).unwrap();
    assert_eq!(rec.label_pairs.len(), 2);
    assert_eq!(rec.label_pairs[0].key.as_str(), "title");
    assert_eq!(rec.label_pairs[0].val.as_str(), "Stolen Moments");
    assert_eq!(rec.label_pairs[1].key.as_str(), "year");
    assert_eq!(rec.label_pairs[1].val.as_str(), "0");
}

#[test]
fn match_all_is_capped_scan() {
    let b = seeded_backend();
    let recs = b.search(&Search::new(vec![])).unwrap();
    assert_eq!(recs.len(), 3);
    assert_eq!(recs[0].label_pairs[2].val.as_str(), "val3");
}

#[test]
fn bad_lines_are_rejected_not_stored() {
    let mut b = seeded_backend();
    assert!(b.raw_add("keya=\"val9\"").is_err());
    assert!(b.raw_add("{keya=\"val9\"").is_err());
    // nothing was stored by the failed lines
    let recs = b.search(&Search::new(vec![])).unwrap();
    assert_eq!(recs.len(), 3);
}

#[test]
fn abort_early_changes_strategy_not_values() {
    let mut b = SingleStorageBackend::new();
    // two matching records, but five distinct values under keyc: the
    // abort-early path hands records back and post-filters them
    b.raw_add(r#"{keya="hit", keyc="v1"}"#).unwrap();
    b.raw_add(r#"{keya="hit", keyc="v2"}"#).unwrap();
    b.raw_add(r#"{keya="miss", keyc="v3"}"#).unwrap();
    b.raw_add(r#"{keya="miss", keyc="v4"}"#).unwrap();
    b.raw_add(r#"{keya="miss", keyc="v5"}"#).unwrap();

    let mut dirty = b
        .key_values_search(&KeyValuesSearch::new_with_flags(
            vec![Field::new_eq("keya", "hit")],
            "keyc",
            SearchFlags::default_flags(),
        ))
        .unwrap();
    dirty.sort();
    let mut exact = b
        .key_values_search(&KeyValuesSearch::new_with_flags(
            vec![Field::new_eq("keya", "hit")],
            "keyc",
            SearchFlags::empty(),
        ))
        .unwrap();
    exact.sort();
    assert_eq!(dirty, exact);
    assert_eq!(exact, vec!["v1".to_string(), "v2".to_string()]);
}

#[test]
fn sharding_does_not_change_the_result_set() {
    // route the seed lines to one shard, then to two shards, and compare
    // the union of the answers
    let whole = seeded_backend();
    let mut shard_a = SingleStorageBackend::new();
    let mut shard_b = SingleStorageBackend::new();
    shard_a.raw_add(SEED[0]).unwrap();
    shard_b.raw_add(SEED[1]).unwrap();
    shard_a.raw_add(SEED[2]).unwrap();

    for selector in [
        r#"{keya=="val1"}"#,
        r#"{keyb=="val1"}"#,
        r#"{keyc=~"val[13]"}"#,
    ] {
        let single = record_text(&whole, selector);
        let mut split = record_text(&shard_a, selector);
        split.extend(record_text(&shard_b, selector));
        split.sort();
        assert_eq!(single, split);
    }
    for kv in [
        r#"label_values({keya=="val1"}, "keyc")"#,
        r#"label_values({keyb=="val1"}, "keyc")"#,
    ] {
        let single = run_query(&whole, kv);
        let mut split = run_query(&shard_a, kv);
        split.extend(run_query(&shard_b, kv));
        split.sort();
        split.dedup();
        assert_eq!(single, split);
    }
}

#[test]
fn dirty_path_reports_first_pair_only() {
    // a record may hold the same key twice; the post-filtering strategy
    // reads only the first pair with the target key
    let mut b = SingleStorageBackend::new();
    b.raw_add(r#"{keya="hit", keyc="first", keyc="second"}"#).unwrap();
    b.raw_add(r#"{keya="miss", keyc="x1"}"#).unwrap();
    b.raw_add(r#"{keya="miss", keyc="x2"}"#).unwrap();

    let exact = b
        .key_values_search(&KeyValuesSearch::new_with_flags(
            vec![Field::new_eq("keya", "hit")],
            "keyc",
            SearchFlags::empty(),
        ))
        .unwrap();
    assert_eq!(exact, vec!["first".to_string(), "second".to_string()]);

    let dirty = b
        .key_values_search(&KeyValuesSearch::new_with_flags(
            vec![Field::new_eq("keya", "hit")],
            "keyc",
            SearchFlags::default_flags(),
        ))
        .unwrap();
    assert_eq!(dirty, vec!["first".to_string()]);
}

#[test]
fn exact_values_come_back_sorted() {
    let mut b = SingleStorageBackend::new();
    b.raw_add(r#"{k="a", t="zeta"}"#).unwrap();
    b.raw_add(r#"{k="a", t="alpha"}"#).unwrap();
    b.raw_add(r#"{k="a", t="Midd"}"#).unwrap();
    let vals = b
        .key_values_search(&KeyValuesSearch::new_with_flags(
            vec![Field::new_eq("k", "a")],
            "t",
            SearchFlags::empty(),
        ))
        .unwrap();
    assert_eq!(
        vals,
        vec!["Midd".to_string(), "alpha".to_string(), "zeta".to_string()]
    );
}

#[test]
fn status_reports_record_count() {
    let b = seeded_backend();
    let status = b.get_status();
    assert_eq!(status.store_status.id_store_size, 3);
}
