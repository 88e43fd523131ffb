use intstore::document::IntegerDocument;
use intstore::store::{apply_append, read_document};

fn doc(v: &[i32]) -> IntegerDocument {
    IntegerDocument::from_integers(v.to_vec())
}

#[test]
fn empty_document_text() {
    assert_eq!(IntegerDocument::new().to_json(), b"{\"integers\":[]}".to_vec());
}

#[test]
fn document_text_lists_items_in_order() {
    assert_eq!(doc(&[1, -2, 30]).to_json(), b"{\"integers\":[1,-2,30]}".to_vec());
}

#[test]
fn round_trip_keeps_integers_and_order() {
    let values = vec![i32::MIN, -1, 0, 7, 42, i32::MAX, 7];
    let text = doc(&values).to_json();
    let back = IntegerDocument::from_json(&text).unwrap();
    assert_eq!(back.integers(), &values);
}

#[test]
fn round_trip_of_empty_document() {
    let text = IntegerDocument::new().to_json();
    assert_eq!(IntegerDocument::from_json(&text).unwrap().len(), 0);
}

#[test]
fn reads_pretty_printed_document() {
    let text = b"{\n  \"integers\": [\n    5,\n    -7\n  ]\n}\n";
    let d = IntegerDocument::from_json(text).unwrap();
    assert_eq!(d.integers(), &vec![5, -7]);
}

#[test]
fn reads_pretty_printed_empty_array() {
    let d = IntegerDocument::from_json(b"{ \"integers\" : [ ] }").unwrap();
    assert_eq!(d.len(), 0);
}

#[test]
fn reads_what_serde_json_writes() {
    let mut m = serde_json::Map::new();
    m.insert("integers".to_string(), serde_json::Value::from(vec![3, -4, 5]));
    let text = serde_json::to_string_pretty(&serde_json::Value::Object(m)).unwrap();
    let d = IntegerDocument::from_json(text.as_bytes()).unwrap();
    assert_eq!(d.integers(), &vec![3, -4, 5]);
}

#[test]
fn serde_json_reads_what_the_library_writes() {
    let text = doc(&[8, -9]).to_json();
    let v: serde_json::Value = serde_json::from_slice(&text).unwrap();
    assert_eq!(v["integers"], serde_json::Value::from(vec![8, -9]));
}

#[test]
fn rejects_malformed_documents() {
    for bad in [
        &b"{\"integers\":[1,]}"[..],
        b"{\"integers\":[1 2]}",
        b"{\"integers\":[2147483648]}",
        b"{\"integers\":[-2147483649]}",
        b"{\"numbers\":[1]}",
        b"{\"integers\":[1]} x",
        b"{\"integers\":[1]",
        b"[1]",
        b"{\"integers\":[-]}",
        b"   ",
    ] {
        assert!(IntegerDocument::from_json(bad).is_err());
    }
}

#[test]
fn empty_store_reads_as_empty_document() {
    assert_eq!(read_document(b"").unwrap().len(), 0);
}

#[test]
fn corrupt_store_is_reported() {
    assert!(read_document(b"not a document").is_err());
    assert!(apply_append(b"{\"integers\":[1,", 2).is_err());
}

#[test]
fn first_append_on_empty_store() {
    assert_eq!(apply_append(b"", 5).unwrap(), b"{\"integers\":[5]}".to_vec());
}

#[test]
fn append_keeps_earlier_values() {
    let t = apply_append(b"{\n  \"integers\": [\n    1\n  ]\n}", 2).unwrap();
    assert_eq!(t, b"{\"integers\":[1,2]}".to_vec());
}

#[test]
fn two_submissions_both_stored() {
    let a = apply_append(b"", 1).unwrap();
    let b = apply_append(&a, 2).unwrap();
    let d = read_document(&b).unwrap();
    assert_eq!(d.len(), 2);
    assert!(d.integers().contains(&1));
    assert!(d.integers().contains(&2));
}

#[test]
fn many_appends_lose_none() {
    let mut t: Vec<u8> = Vec::new();
    for i in 0..50 {
        t = apply_append(&t, i * 3 - 20).unwrap();
    }
    let d = read_document(&t).unwrap();
    assert_eq!(d.len(), 50);
    let expected: Vec<i32> = (0..50).map(|i| i * 3 - 20).collect();
    assert_eq!(d.integers(), &expected);
}

#[test]
fn reading_leaves_text_unchanged() {
    let text = doc(&[4, 5, 6]).to_json();
    let copy = text.clone();
    let d = read_document(&text).unwrap();
    assert_eq!(text, copy);
    assert_eq!(d.to_json(), copy);
}

#[test]
fn append_method_adds_at_end() {
    let mut d = doc(&[1]);
    d.append(9);
    assert_eq!(d.integers(), &vec![1, 9]);
}

#[test]
fn rejects_leading_zeros() {
    assert!(IntegerDocument::from_json(b"{\"integers\":[01]}").is_err());
    assert!(IntegerDocument::from_json(b"{\"integers\":[-007]}").is_err());
    assert!(IntegerDocument::from_json(b"{\"integers\":[1,00]}").is_err());
}

#[test]
fn accepts_zero_and_negative_zero() {
    let d = IntegerDocument::from_json(b"{\"integers\":[0,-0,10]}").unwrap();
    assert_eq!(d.integers(), &vec![0, 0, 10]);
}
