use flate2::write::GzEncoder;
use flate2::Compression;
use rinha_vini::bytes::find_subseq;
use rinha_vini::references::{decompress, Record, ReferenceError, References};
use std::io::Write;

const DATA: &[u8] = br#"[
  {"vector": [0.01, 0.0833, 0.05, 0.8261, 0.1667, -1, -1, 0.0432, 0.25, 0, 1, 0, 0.2, 0.0416], "label": "legit"},
  {"note": {"vector": 1}},
  {"label": "fraud", "vector": [1,2,3,4,5,6,7,8,9,10,11,12,13,1e-3]}
]"#;

fn texts(data: &[u8], r: &Record) -> Vec<String> {
    r.vector
        .iter()
        .map(|s| String::from_utf8(data[s.start..s.end].to_vec()).unwrap())
        .collect()
}

#[test]
fn gzip_files_are_decompressed() {
    let mut gz = GzEncoder::new(Vec::new(), Compression::default());
    gz.write_all(DATA).unwrap();
    let file = gz.finish().unwrap();
    assert_eq!(decompress(&file).unwrap(), DATA.to_vec());
    match decompress(&file[..file.len() - 1]) {
        Err(ReferenceError::Gzip(_)) => {}
        _ => panic!("a cut file was decompressed"),
    }
    assert!(matches!(decompress(b"plain"), Err(ReferenceError::Gzip(_))));
}

#[test]
fn records_are_read_in_turn() {
    let mut refs = References::new(DATA);
    let first = refs.next().unwrap().unwrap();
    assert_eq!(first.label, 0);
    assert_eq!(
        texts(DATA, &first),
        [
            "0.01", "0.0833", "0.05", "0.8261", "0.1667", "-1", "-1", "0.0432", "0.25", "0", "1",
            "0", "0.2", "0.0416"
        ]
    );
    let second = refs.next().unwrap().unwrap();
    assert_eq!(second.label, 1);
    assert_eq!(
        texts(DATA, &second),
        ["1", "2", "3", "4", "5", "6", "7", "8", "9", "10", "11", "12", "13", "1e-3"]
    );
    assert!(refs.next().unwrap().is_none());
    assert!(refs.next().unwrap().is_none());
}

#[test]
fn a_short_vector_ends_with_empty_texts() {
    let data = b"{\"vector\": [1 , 2], \"label\": \"x\"}";
    let r = References::new(data).next().unwrap().unwrap();
    let t = texts(data, &r);
    assert_eq!(t[0], "1 ");
    assert_eq!(t[1], "2");
    assert_eq!(t[2], "");
    assert_eq!(t[13], "");
    assert_eq!(r.label, 0);
}

#[test]
fn an_object_that_does_not_close_ends_the_data() {
    assert!(References::new(b"").next().unwrap().is_none());
    assert!(References::new(b"no object").next().unwrap().is_none());
    assert!(References::new(b"{\"vector\": [1], \"label\": \"fraud\"")
        .next()
        .unwrap()
        .is_none());
}

#[test]
fn objects_without_vector_or_label_are_passed_over() {
    let data = b"{\"label\":\"fraud\"}{\"vector\":[1]}{\"vector\":1,\"label\":\"fraud\"}";
    assert!(References::new(data).next().unwrap().is_none());
}

#[test]
fn a_label_without_a_string_is_an_error() {
    let data = b"{\"vector\": [1], \"label\": 1}";
    let mut refs = References::new(data);
    assert!(matches!(refs.next(), Err(ReferenceError::LabelWithoutString)));
    assert_eq!(refs.at, 0);
}

#[test]
fn an_open_label_is_read_to_the_end() {
    let data = b"{\"vector\": [1], \"label\": \"fraud}";
    assert_eq!(find_subseq(data, b"\"label\""), Some(16));
    let r = References::new(data).next().unwrap().unwrap();
    assert_eq!(r.label, 0);
}
