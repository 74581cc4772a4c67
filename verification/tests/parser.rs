use rusted_post::lexer::{parse_query, parse_record, render_record};
use rusted_post::query::Query;

#[test]
fn parse_record_works() {
    let field = r#"{author_family_name="Daniels", author_first_name="B",author_surname="J", language="English", year="0", extension="rar", title="Stolen Moments",publisher="",edition=""}"#;
    assert!(parse_record(field).is_ok())
}

#[test]
fn parse_record_works_with_quote() {
    let quote_field = r#"{author_family_name="Dan\"iels"}"#;
    parse_record(quote_field).unwrap();
    assert!(parse_record(quote_field).is_ok());
    let escaped_quote_field = r#"{author_family_name="Dan\"iels\\"}"#;
    parse_record(escaped_quote_field).unwrap();
    assert!(parse_record(escaped_quote_field).is_ok());
}

#[test]
fn parse_query_works() {
    let mut field = parse_query(
        r#"{author_family_name=="Tolkien", language=~"English", extension=="epub"}"#,
    );
    assert!(field.is_ok());
    field = parse_query(
        r#"label_values({author_family_name=="Tolkien", language=~"English", extension=="epub"}, "extension")"#,
    );
    assert!(field.is_ok());
    match field.unwrap() {
        Query::KeyValues(x) => assert!(x.key_field == "extension"),
        _ => panic!("Wrong query parsed"),
    };
}

#[test]
fn quoted_values_unescape() {
    let rec = parse_record(r#"{author_family_name="Dan\"iels"}"#).unwrap();
    assert_eq!(rec.label_pairs.len(), 1);
    assert_eq!(rec.label_pairs[0].key.as_str(), "author_family_name");
    assert_eq!(rec.label_pairs[0].val.as_str(), "Dan\"iels");

    let rec = parse_record(r#"{author_family_name="Dan\"iels\\"}"#).unwrap();
    assert_eq!(rec.label_pairs[0].val.as_str(), "Dan\"iels\\");
}

#[test]
fn parse_query_extracts_key_field() {
    let q = parse_query(r#"label_values({language=="English"}, "extension")"#).unwrap();
    match q {
        Query::KeyValues(kv) => {
            assert_eq!(kv.key_field.as_str(), "extension");
            assert_eq!(kv.search_fields.len(), 1);
            assert_eq!(kv.search_fields[0].key.as_str(), "language");
            assert_eq!(kv.search_fields[0].val.as_str(), "English");
        }
        _ => panic!("expected a key-values query"),
    }
}

#[test]
fn parse_record_rejects_malformed() {
    assert!(parse_record("author=\"x\"").is_err());
    assert!(parse_record("{author}").is_err());
    assert!(parse_record("{author=\"x}").is_err());
    assert!(parse_record("{author=\"x\" title=\"y\"}").is_err());
    assert!(parse_record("{=\"x\"}").is_err());
    assert!(parse_record("{author=\"x\"").is_err());
    assert!(parse_record("{label_values=\"x\"}").is_err());
}

#[test]
fn parse_query_rejects_malformed() {
    assert!(parse_query("{author=\"x\"}").is_err());
    assert!(parse_query("{author=~x}").is_err());
    assert!(parse_query("label_values({a==\"b\"}").is_err());
    assert!(parse_query("label_values({a==\"b\"}, extension)").is_err());
    assert!(parse_query("values({a==\"b\"}, \"c\")").is_err());
}

#[test]
fn parse_accepts_whitespace_between_tokens() {
    let rec = parse_record("  { keya = \"v1\" ,\tkeyb = \"v2\" }").unwrap();
    assert_eq!(rec.label_pairs.len(), 2);
    assert_eq!(rec.label_pairs[0].key.as_str(), "keya");
    assert_eq!(rec.label_pairs[1].val.as_str(), "v2");
}

#[test]
fn render_round_trip() {
    let cases = [
        r#"{keya="val1", keyb="val2"}"#,
        r#"{author_family_name="Dan\"iels"}"#,
        r#"{author_family_name="Dan\"iels\\"}"#,
        r#"{k="a=b,c{}"}"#,
    ];
    for text in cases {
        let rec = parse_record(text).unwrap();
        let rendered = render_record(&rec);
        let rec2 = parse_record(rendered.as_str()).unwrap();
        assert_eq!(rec.label_pairs.len(), rec2.label_pairs.len());
        for (a, b) in rec.label_pairs.iter().zip(rec2.label_pairs.iter()) {
            assert_eq!(a.key, b.key);
            assert_eq!(a.val, b.val);
        }
    }
}
