use serde::ser::{Serialize, SerializeStruct, Serializer};
use url::Url;

use urlencoded_query::UrlEncodedQuery;

const EXAMPLE_URL: &str = "http://example.net/";

fn example_url() -> Url {
    Url::parse(EXAMPLE_URL).unwrap()
}

#[derive(Debug)]
struct Unit;

impl Serialize for Unit {
    fn serialize<S: Serializer>(&self, serializer: S) -> Result<S::Ok, S::Error> {
        serializer.serialize_unit_struct("Unit")
    }
}

const UNIT_EXPECTED: &str = "";

#[test]
fn new_serializable_unit_struct() {
    let params = Unit;
    let query = UrlEncodedQuery::try_new(&params).unwrap();
    assert_eq!(UNIT_EXPECTED, query.finalize_into_string());
}

#[test]
fn append_serializable_unit_struct() {
    let params = Unit;
    let mut query = UrlEncodedQuery::new();
    query.try_append(&params).unwrap();
    assert_eq!(UNIT_EXPECTED, query.finalize_into_string());
}

#[test]
fn extend_serializable_unit_struct() {
    let params = vec![Unit];
    let mut query = UrlEncodedQuery::new();
    query.try_extend(params).unwrap();
    assert_eq!(UNIT_EXPECTED, query.finalize_into_string());
}

#[test]
fn set_url_with_serializable_unit_struct() {
    let params = Unit;
    let query = UrlEncodedQuery::try_new(&params).unwrap();
    let mut url = example_url();
    query.set_url(&mut url);
    assert_eq!(format!("{EXAMPLE_URL}?{UNIT_EXPECTED}"), url.as_str());
}

#[derive(Debug, PartialEq, Clone)]
struct SingleNewtype<T>(T);

impl<T: Serialize> Serialize for SingleNewtype<T> {
    fn serialize<S: Serializer>(&self, serializer: S) -> Result<S::Ok, S::Error> {
        serializer.serialize_newtype_struct("SingleNewtype", &self.0)
    }
}

const SINGLE_NEWTYPE_EXPECTED: &str = "field=newtype";

#[test]
fn new_serializable_newtype_as_value() {
    let params = [("field", SingleNewtype("newtype"))];
    let query = UrlEncodedQuery::try_new(&params).unwrap();
    assert_eq!(SINGLE_NEWTYPE_EXPECTED, query.finalize_into_string());
}

#[test]
fn append_serializable_newtype_as_value() {
    let params = [("field", SingleNewtype("newtype"))];
    let mut query = UrlEncodedQuery::new();
    query.try_append(&params).unwrap();
    assert_eq!(SINGLE_NEWTYPE_EXPECTED, query.finalize_into_string());
}

#[test]
fn extend_serializable_newtype_as_value() {
    let params = vec![[("field", SingleNewtype("newtype"))]];
    let mut query = UrlEncodedQuery::new();
    query.try_extend(params).unwrap();
    assert_eq!(SINGLE_NEWTYPE_EXPECTED, query.finalize_into_string());
}

#[test]
fn set_url_with_serializable_newtype_as_value() {
    let params = [("field", SingleNewtype("newtype"))];
    let query = UrlEncodedQuery::try_new(&params).unwrap();
    let mut url = example_url();
    query.set_url(&mut url);
    assert_eq!(format!("{EXAMPLE_URL}?{SINGLE_NEWTYPE_EXPECTED}"), url.as_str());
}

const SINGLE_NEWTYPE_PANIC: &str =
    "SingleNewtype is not supported as top-level input by serde_urlencoded::Serializer";

#[test]
fn new_unserializable_newtype_fails() {
    let params = SingleNewtype("newtype");
    let query = UrlEncodedQuery::try_new(&params);
    match query {
        Ok(_) => panic!("{SINGLE_NEWTYPE_PANIC}"),
        // Fail is expected.
        Err(_) => {}
    }
}

#[test]
fn append_unserializable_newtype_fails() {
    let params = SingleNewtype("newtype");
    let mut query = UrlEncodedQuery::new();
    match query.try_append(&params) {
        Ok(_) => panic!("{SINGLE_NEWTYPE_PANIC}"),
        // Fail is expected.
        Err(_) => {}
    }
}

#[test]
fn extend_unserializable_newtype_fails() {
    let params = vec![SingleNewtype("newtype")];
    let mut query = UrlEncodedQuery::new();
    let err = match query.try_extend(params.clone()) {
        Ok(_) => panic!("{SINGLE_NEWTYPE_PANIC}"),
        // Fail is expected.
        Err(err) => err,
    };

    assert_eq!(params[0], err.unserialized()[0].value);
}

#[derive(Debug)]
struct Single<T> {
    single: T,
}

impl<T: Serialize> Serialize for Single<T> {
    fn serialize<S: Serializer>(&self, serializer: S) -> Result<S::Ok, S::Error> {
        let mut st = serializer.serialize_struct("Single", 1)?;
        st.serialize_field("single", &self.single)?;
        st.end()
    }
}

fn single() -> Single<&'static str> {
    Single { single: "single" }
}

const SINGLE_EXPECTED: &str = "single=single";

#[test]
fn new_serializable_single_field_struct() {
    let params = single();
    let query = UrlEncodedQuery::try_new(&params).unwrap();
    assert_eq!(SINGLE_EXPECTED, query.finalize_into_string());
}

#[test]
fn append_serializable_single_field_struct() {
    let params = single();
    let mut query = UrlEncodedQuery::new();
    query.try_append(&params).unwrap();
    assert_eq!(SINGLE_EXPECTED, query.finalize_into_string());
}

#[test]
fn extend_serializable_single_field_struct() {
    let params = vec![single()];
    let mut query = UrlEncodedQuery::new();
    query.try_extend(params).unwrap();
    assert_eq!(SINGLE_EXPECTED, query.finalize_into_string());
}

#[test]
fn set_url_with_serializable_single_field_struct() {
    let params = single();
    let query = UrlEncodedQuery::try_new(&params).unwrap();
    let mut url = example_url();
    query.set_url(&mut url);
    assert_eq!(format!("{EXAMPLE_URL}?{SINGLE_EXPECTED}"), url.as_str());
}

#[derive(Debug)]
struct Compound<T> {
    first: T,
    middle: T,
    last: T,
}

impl<T: Serialize> Serialize for Compound<T> {
    fn serialize<S: Serializer>(&self, serializer: S) -> Result<S::Ok, S::Error> {
        let mut st = serializer.serialize_struct("Compound", 3)?;
        st.serialize_field("first", &self.first)?;
        st.serialize_field("middle", &self.middle)?;
        st.serialize_field("last", &self.last)?;
        st.end()
    }
}

const COMPOUND_EXPECTED: &str = "first=first&middle=middle&last=last";

fn compound() -> Compound<&'static str> {
    Compound { first: "first", middle: "middle", last: "last" }
}

#[test]
fn new_serializable_compound_struct() {
    let params = compound();
    let query = UrlEncodedQuery::try_new(&params).unwrap();
    assert_eq!(COMPOUND_EXPECTED, query.finalize_into_string());
}

#[test]
fn append_serializable_compound_struct() {
    let params = compound();
    let mut query = UrlEncodedQuery::new();
    query.try_append(&params).unwrap();
    assert_eq!(COMPOUND_EXPECTED, query.finalize_into_string());
}

#[test]
fn extend_serializable_compound_struct() {
    let params = vec![compound()];
    let mut query = UrlEncodedQuery::new();
    query.try_extend(params).unwrap();
    assert_eq!(COMPOUND_EXPECTED, query.finalize_into_string());
}

#[test]
fn set_url_with_serializable_compound_struct() {
    let params = compound();
    let query = UrlEncodedQuery::try_new(&params).unwrap();
    let mut url = example_url();
    query.set_url(&mut url);
    assert_eq!(format!("{EXAMPLE_URL}?{COMPOUND_EXPECTED}"), url.as_str());
}
