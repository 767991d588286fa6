use atlas_packer::manifest::Manifest;

#[test]
fn empty_manifest_serializes_to_empty_object() {
    let m = Manifest::new();
    assert_eq!(m.to_json(), b"{}".to_vec());
}

#[test]
fn single_block_entry() {
    let mut m = Manifest::new();
    m.record(b"block".to_vec(), 0, 0, 32, 32, 0);
    assert_eq!(m.to_json(), b"{\"block\":[0,0,32,32,0]}".to_vec());
}

#[test]
fn entries_keep_insertion_order() {
    let mut m = Manifest::new();
    m.record(b"one".to_vec(), 1, 2, 3, 4, 5);
    m.record(b"two".to_vec(), 10, 20, 300, 4000, 0);
    assert_eq!(
        m.to_json(),
        b"{\"one\":[1,2,3,4,5],\"two\":[10,20,300,4000,0]}".to_vec()
    );
}

#[test]
fn duplicate_name_last_write_wins() {
    let mut m = Manifest::new();
    m.record(b"a".to_vec(), 1, 1, 1, 1, 0);
    m.record(b"b".to_vec(), 2, 2, 2, 2, 0);
    m.record(b"a".to_vec(), 9, 9, 9, 9, 1);
    assert_eq!(m.to_json(), b"{\"a\":[9,9,9,9,1],\"b\":[2,2,2,2,0]}".to_vec());
}

#[test]
fn large_values_render_in_decimal() {
    let mut m = Manifest::new();
    m.record(b"big".to_vec(), 4294967295, 0, 1023, 100000, 7);
    assert_eq!(
        m.to_json(),
        b"{\"big\":[4294967295,0,1023,100000,7]}".to_vec()
    );
}

#[test]
fn name_bytes_are_escaped() {
    let mut m = Manifest::new();
    // a, double quote, backslash, newline, b
    m.record(vec![97, 34, 92, 10, 98], 1, 2, 3, 4, 5);
    let mut expected: Vec<u8> = Vec::new();
    expected.extend_from_slice(b"{\"a");
    expected.extend_from_slice(&[92, 34]); // \"
    expected.extend_from_slice(&[92, 92]); // two backslashes
    expected.extend_from_slice(b"\\u000a");
    expected.extend_from_slice(b"b\":[1,2,3,4,5]}");
    assert_eq!(m.to_json(), expected);
}
