use rusted_post::index::{Index, KeyValuesSearchResult};
use rusted_post::matcher::optimize_regex;
use rusted_post::query::{Field, KeyValuesSearch, Search, SearchFlags};
use rusted_post::record::{RCLabelPair, RCRecord};

fn load_test_data(index: &mut Index) {
    index.insert_record(
        0,
        &RCRecord {
            label_pairs: vec![
                RCLabelPair::new("keya", "val1"),
                RCLabelPair::new("keyb", "val1"),
                RCLabelPair::new("keyc", "val3"),
            ],
        },
    );
    index.insert_record(
        1,
        &RCRecord {
            label_pairs: vec![
                RCLabelPair::new("keya", "val1"),
                RCLabelPair::new("keyb", "val2"),
                RCLabelPair::new("keyc", "val2"),
            ],
        },
    );
    index.insert_record(
        2,
        &RCRecord {
            label_pairs: vec![
                RCLabelPair::new("keya", "val1"),
                RCLabelPair::new("keyb", "val1"),
                RCLabelPair::new("keyc", "val1"),
            ],
        },
    );
}

#[test]
fn index_it_works() {
    let mut index = Index::new();
    load_test_data(&mut index);

    let mut result = index.search(&Search::new(vec![Field::new_eq("keya", "val1")])).unwrap();
    assert_eq!(result, vec![0, 1, 2]);
    result = index.search(&Search::new(vec![Field::new_eq("keyb", "val1")])).unwrap();
    assert_eq!(result, vec![0, 2]);
}

#[test]
fn index_it_intersects() {
    let mut index = Index::new();
    load_test_data(&mut index);

    let mut result = index
        .search(&Search::new(vec![
            Field::new_eq("keya", "val1"),
            Field::new_eq("keya", "val1"),
        ]))
        .unwrap();
    assert_eq!(result, vec![0, 1, 2]);
    result = index
        .search(&Search::new(vec![
            Field::new_eq("keya", "val1"),
            Field::new_eq("keyb", "val1"),
        ]))
        .unwrap();
    assert_eq!(result, vec![0, 2]);
    result = index
        .search(&Search::new(vec![
            Field::new_eq("keyc", "val3"),
            Field::new_eq("keyb", "val1"),
        ]))
        .unwrap();
    assert_eq!(result, vec![0]);
}

#[test]
fn index_it_optimizes_regex() {
    optimize_regex("aba");
    optimize_regex("a{3,9}");
    optimize_regex("^[sS]il.*");
    optimize_regex("marillion.*^");
    optimize_regex("(t|T)olkien");
    optimize_regex("[tT]olkien");
    optimize_regex(".*");
    optimize_regex("(tolkien+|tolkien)");
}

#[test]
fn optimize_regex_extracts_prefixes() {
    let lits = optimize_regex("(pdf|epub)");
    let mut words: Vec<&str> = lits.iter().map(|l| l.1.as_str()).collect();
    words.sort();
    assert_eq!(words, vec!["epub", "pdf"]);

    let lits = optimize_regex("[tT]olkien");
    let mut words: Vec<&str> = lits.iter().map(|l| l.1.as_str()).collect();
    words.sort();
    assert_eq!(words, vec!["Tolkien", "tolkien"]);

    assert!(optimize_regex(".*").is_empty());
}

#[test]
fn regex_search_matches_whole_value() {
    let mut index = Index::new();
    load_test_data(&mut index);

    let result = index.search(&Search::new(vec![Field::new_re("keyc", "val[13]")])).unwrap();
    assert_eq!(result, vec![0, 2]);
    // the pattern is anchored: a prefix alone does not match
    let result = index.search(&Search::new(vec![Field::new_re("keyc", "val")])).unwrap();
    assert!(result.is_empty());
}

#[test]
fn regex_optimization_is_semantics_preserving() {
    let mut index = Index::new();
    load_test_data(&mut index);
    let patterns = ["val[13]", "val.*", "v.*", "(val1|val3)", ".*", "val1"];
    for p in patterns {
        let optimized = index
            .search(&Search::new(vec![Field::new_re("keyc", p)]))
            .unwrap();
        let full = index
            .search(&Search::new_with_flags(
                vec![Field::new_re("keyc", p)],
                rusted_post::query::SearchFlags::empty(),
            ))
            .unwrap();
        assert_eq!(optimized, full);
    }
}

#[test]
fn invalid_regex_fails_the_query() {
    let mut index = Index::new();
    load_test_data(&mut index);
    let result = index.search(&Search::new(vec![Field::new_re("keya", "va[l")]));
    assert!(result.is_err());
}

#[test]
fn missing_key_empties_the_conjunction() {
    let mut index = Index::new();
    load_test_data(&mut index);
    let result = index
        .search(&Search::new(vec![
            Field::new_eq("keya", "val1"),
            Field::new_eq("nosuchkey", "val1"),
        ]))
        .unwrap();
    assert!(result.is_empty());
    // even an invalid regex under a missing key yields the empty result
    let result = index
        .search(&Search::new(vec![Field::new_re("nosuchkey", "va[l")]))
        .unwrap();
    assert!(result.is_empty());
}

#[test]
fn dirty_strategy_is_chosen_exactly_when_cheaper() {
    let mut index = Index::new();
    load_test_data(&mut index);

    // keyc has 3 distinct values and keya=="val1" matches 3 records:
    // 3 > 3 fails, so the exact index-filtering path runs
    let q = KeyValuesSearch::new(vec![Field::new_eq("keya", "val1")], "keyc");
    match index.key_values_search(&q) {
        KeyValuesSearchResult::Exact(vs) => {
            assert_eq!(vs, vec!["val1".to_string(), "val2".to_string(), "val3".to_string()])
        }
        _ => panic!("expected the exact path"),
    }

    // keyb=="val1" matches only 2 records: 3 > 2, so with the flag set
    // the matched ids come back for post-filtering
    let q = KeyValuesSearch::new(vec![Field::new_eq("keyb", "val1")], "keyc");
    match index.key_values_search(&q) {
        KeyValuesSearchResult::Dirty(ids) => assert_eq!(ids, vec![0, 2]),
        _ => panic!("expected the dirty path"),
    }

    // without the flag the exact path always runs
    let q = KeyValuesSearch::new_with_flags(
        vec![Field::new_eq("keyb", "val1")],
        "keyc",
        SearchFlags::empty(),
    );
    match index.key_values_search(&q) {
        KeyValuesSearchResult::Exact(vs) => {
            assert_eq!(vs, vec!["val1".to_string(), "val3".to_string()])
        }
        _ => panic!("expected the exact path"),
    }
}

#[test]
fn empty_selector_is_empty_at_the_index() {
    let mut index = Index::new();
    load_test_data(&mut index);
    let result = index.search(&Search::new(vec![])).unwrap();
    assert!(result.is_empty());
}
