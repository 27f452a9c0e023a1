use serde::ser::{Serialize, SerializeMap, SerializeStruct, Serializer};
use url::Url;

use urlencoded_query::UrlEncodedQuery;

#[test]
fn append_pair_encodes_space_and_reserved() {
    let mut query = UrlEncodedQuery::new();
    query.append_pair("q", "cargo user:rust-lang");
    assert_eq!("q=cargo+user%3Arust-lang", query.finalize_into_string());
}

#[test]
fn append_pair_uses_uppercase_hex_escapes() {
    let mut query = UrlEncodedQuery::new();
    query.append_pair("k", "\u{7f}~");
    assert_eq!("k=%7F%7E", query.finalize_into_string());
}

#[test]
fn append_pair_encodes_utf8_bytes() {
    let mut query = UrlEncodedQuery::new();
    query.append_pair("é", "ß");
    assert_eq!("%C3%A9=%C3%9F", query.finalize_into_string());
}

#[test]
fn append_pair_round_trips_through_form_decoder() {
    let pairs =
        vec![("a b".to_string(), "c&d".to_string()), ("x".to_string(), "=+%".to_string())];
    let mut query = UrlEncodedQuery::new();
    query.extend_pairs(&pairs);
    let encoded = query.finalize_into_string();
    let decoded: Vec<(String, String)> =
        form_urlencoded::parse(encoded.as_bytes()).into_owned().collect();
    assert_eq!(pairs, decoded);
}

#[test]
fn engine_matches_reference_serializer() {
    let mut query = UrlEncodedQuery::new();
    query.append_pair("comté", "été+hiver");
    query.append_key_only("");
    query.append_key_only("flag");
    query.append_pair("", "");
    query.append_pair("a b", "c*d-e._");
    let mine = query.finalize_into_string();

    let mut reference = form_urlencoded::Serializer::new(String::new());
    reference.append_pair("comté", "été+hiver");
    reference.append_key_only("");
    reference.append_key_only("flag");
    reference.append_pair("", "");
    reference.append_pair("a b", "c*d-e._");
    assert_eq!(reference.finish(), mine);
}

#[test]
fn new_finalizes_to_empty_string() {
    assert_eq!("", UrlEncodedQuery::new().finalize_into_string());
}

#[test]
fn empty_name_and_value_encode_to_bare_equals() {
    let mut query = UrlEncodedQuery::new();
    query.append_pair("", "");
    assert_eq!("=", query.finalize_into_string());
}

#[test]
fn extend_pairs_with_no_pairs_changes_nothing() {
    let mut query = UrlEncodedQuery::new();
    query.append_pair("a", "b");
    query.extend_pairs(&Vec::new());
    query.extend_keys_only(&Vec::new());
    assert_eq!("a=b", query.finalize_into_string());
}

#[test]
fn key_only_then_pair() {
    let mut query = UrlEncodedQuery::new();
    query.append_key_only("flag");
    query.append_pair("a", "b");
    assert_eq!("flag&a=b", query.finalize_into_string());
}

#[test]
fn empty_key_only_adds_no_separator() {
    let mut query = UrlEncodedQuery::new();
    query.append_key_only("");
    query.append_pair("a", "b");
    assert_eq!("a=b", query.finalize_into_string());
}

#[test]
fn extend_pairs_encodes_each_pair_in_order() {
    let pairs = vec![("k 1".to_string(), "v&1".to_string()), ("k2".to_string(), "v2".to_string())];
    let mut query = UrlEncodedQuery::new();
    query.extend_pairs(&pairs);
    assert_eq!("k+1=v%261&k2=v2", query.finalize_into_string());
}

#[test]
fn extend_keys_only_encodes_each_key_in_order() {
    let keys = vec!["a b".to_string(), "c".to_string()];
    let mut query = UrlEncodedQuery::new();
    query.extend_keys_only(&keys);
    assert_eq!("a+b&c", query.finalize_into_string());
}

#[test]
fn clear_matches_new() {
    let mut query = UrlEncodedQuery::new();
    query.append_pair("a", "b");
    query.append_key_only("c");
    query.clear();
    let cleared = query.finalize_into_string();
    let fresh = UrlEncodedQuery::new().finalize_into_string();
    assert_eq!(cleared, fresh);
    assert_eq!("", cleared);
}

struct SearchQuery {
    q: &'static str,
}

impl Serialize for SearchQuery {
    fn serialize<S: Serializer>(&self, serializer: S) -> Result<S::Ok, S::Error> {
        let mut st = serializer.serialize_struct("SearchQuery", 1)?;
        st.serialize_field("q", &self.q)?;
        st.end()
    }
}

struct SearchOptions {
    kind: &'static str,
    reference: &'static str,
}

impl Serialize for SearchOptions {
    fn serialize<S: Serializer>(&self, serializer: S) -> Result<S::Ok, S::Error> {
        let mut st = serializer.serialize_struct("SearchOptions", 2)?;
        st.serialize_field("type", &self.kind)?;
        st.serialize_field("ref", &self.reference)?;
        st.end()
    }
}

#[test]
fn search_url_scenario() {
    let query_params = SearchQuery { q: "cargo user:rust-lang" };
    let options = SearchOptions { kind: "Repositories", reference: "advsearch" };
    let mut query = UrlEncodedQuery::try_new(&query_params).unwrap();
    query.try_append(&options).unwrap();
    let mut url = Url::parse("https://github.com/search").unwrap();
    query.set_url(&mut url);
    assert_eq!(
        "https://github.com/search?q=cargo+user%3Arust-lang&type=Repositories&ref=advsearch",
        url.as_str()
    );
}

struct Empty;

impl Serialize for Empty {
    fn serialize<S: Serializer>(&self, serializer: S) -> Result<S::Ok, S::Error> {
        let st = serializer.serialize_struct("Empty", 0)?;
        st.end()
    }
}

#[test]
fn empty_struct_finalizes_to_empty_string() {
    let query = UrlEncodedQuery::try_new(&Empty).unwrap();
    assert_eq!("", query.finalize_into_string());
}

#[test]
fn set_url_replaces_existing_query() {
    let mut url = Url::parse("http://example.net/?old=1&stale=2").unwrap();
    let mut query = UrlEncodedQuery::new();
    query.append_pair("new", "2");
    query.set_url(&mut url);
    assert_eq!("http://example.net/?new=2", url.as_str());
}

#[test]
fn bare_scalar_fails_try_new() {
    let result = UrlEncodedQuery::try_new(&42i64);
    assert!(matches!(result, Err(_)));
}

#[test]
fn bare_scalar_fails_try_append_and_keeps_buffer() {
    let mut query = UrlEncodedQuery::new();
    query.append_pair("a", "b");
    let result = query.try_append(&42i64);
    assert!(matches!(result, Err(_)));
    assert_eq!("a=b", query.finalize_into_string());
}

#[derive(Debug, Clone, PartialEq)]
enum Item {
    Good(&'static str, &'static str),
    Bad(&'static str),
}

impl Serialize for Item {
    fn serialize<S: Serializer>(&self, serializer: S) -> Result<S::Ok, S::Error> {
        match self {
            Item::Good(k, v) => {
                let mut map = serializer.serialize_map(Some(1))?;
                map.serialize_entry(k, v)?;
                map.end()
            }
            Item::Bad(s) => serializer.serialize_str(s),
        }
    }
}

#[test]
fn try_extend_keeps_successes_and_reports_failures_in_order() {
    let items =
        vec![Item::Good("a", "1"), Item::Bad("first"), Item::Good("b", "2"), Item::Bad("second")];
    let mut query = UrlEncodedQuery::new();
    let err = query.try_extend(items).unwrap_err();
    let failed = err.unserialized();
    assert_eq!(2, failed.len());
    assert_eq!(Item::Bad("first"), failed[0].value);
    assert_eq!(Item::Bad("second"), failed[1].value);
    assert_eq!("a=1&b=2", query.finalize_into_string());
}

#[test]
fn try_extend_matches_repeated_try_append() {
    let items = vec![Item::Good("a", "1"), Item::Good("b", "2"), Item::Good("c", "3")];
    let mut extended = UrlEncodedQuery::new();
    extended.try_extend(items.clone()).unwrap();
    let mut appended = UrlEncodedQuery::new();
    for item in &items {
        appended.try_append(item).unwrap();
    }
    assert_eq!(appended.finalize_into_string(), extended.finalize_into_string());
}

#[test]
fn try_extend_error_message_and_values() {
    let items = vec![Item::Bad("only")];
    let mut query = UrlEncodedQuery::new();
    let err = query.try_extend(items).unwrap_err();
    assert_eq!(
        "could not serialize one or more values while extending the query string",
        err.message()
    );
    let recovered = err.into_unserialized();
    assert_eq!(1, recovered.len());
    assert_eq!(Item::Bad("only"), recovered[0].value);
    assert_eq!("", query.finalize_into_string());
}
