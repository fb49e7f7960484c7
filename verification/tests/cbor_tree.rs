use minechat_protocol::cbor::CborError;
use minechat_protocol::cbor_tree::{normalize_keys, normalized_cbor, tree_clone, tree_eq, CborTree};

fn integer(i: i128) -> CborTree {
    CborTree::Integer(i)
}

fn text(s: &str) -> CborTree {
    CborTree::Text(s.to_string())
}

fn entries(e: Vec<(CborTree, CborTree)>) -> CborTree {
    CborTree::Entries(e)
}

fn assert_tree(got: &CborTree, expected: &CborTree) {
    assert!(tree_eq(got, expected), "got {:?}, expected {:?}", got, expected);
}

#[test]
fn text_keys_spelling_i32_become_integers() {
    let mut data = vec![0xa7];
    data.extend_from_slice(&[0x61, b'0', 0x01]);
    data.extend_from_slice(&[0x62, b'-', b'5', 0x02]);
    data.extend_from_slice(&[0x62, b'+', b'7', 0x03]);
    data.extend_from_slice(&[0x63, b'0', b'0', b'7', 0x04]);
    data.extend_from_slice(&[0x61, b'x', 0x05]);
    data.push(0x6a);
    data.extend_from_slice(b"2147483648");
    data.push(0x06);
    data.push(0x6b);
    data.extend_from_slice(b"-2147483648");
    data.push(0x07);

    let got = normalized_cbor(&data).unwrap();
    // serde_cbor orders a map's keys by length, then bytes: "0", "x", "+7",
    // "-5", "007", "2147483648", "-2147483648". "007" reads as 7 like "+7",
    // so its value replaces that entry's value.
    let expected = entries(vec![
        (integer(0), integer(1)),
        (text("x"), integer(5)),
        (integer(7), integer(4)),
        (integer(-5), integer(2)),
        (text("2147483648"), integer(6)),
        (integer(-2147483648), integer(7)),
    ]);
    assert_tree(&got, &expected);
}

#[test]
fn later_key_wins_on_collision() {
    // {"1": "a", 1: "b"}: the integer key sorts first, the text key is
    // renamed onto it and its value stands.
    let data = [0xa2, 0x61, b'1', 0x61, b'a', 0x01, 0x61, b'b'];
    let got = normalized_cbor(&data).unwrap();
    assert_tree(&got, &entries(vec![(integer(1), text("a"))]));
}

#[test]
fn keys_are_normalised_through_arrays_and_maps() {
    // [{"1": {"2": true}}, 6({"3": null}), {[ "4" ]: "5"}]
    let data = [
        0x83, 0xa1, 0x61, b'1', 0xa1, 0x61, b'2', 0xf5, 0xc6, 0xa1, 0x61, b'3', 0xf6, 0xa1,
        0x81, 0x61, b'4', 0x61, b'5',
    ];
    let got = normalized_cbor(&data).unwrap();
    let expected = CborTree::Array(vec![
        entries(vec![(integer(1), entries(vec![(integer(2), CborTree::Bool(true))]))]),
        // serde_cbor reads a tagged item as the item alone
        entries(vec![(integer(3), CborTree::Null)]),
        // A key that is not text stays as it is, inside too; a text value
        // stays text.
        entries(vec![(CborTree::Array(vec![text("4")]), text("5"))]),
    ]);
    assert_tree(&got, &expected);
}

#[test]
fn floats_bytes_and_other_keys_are_kept() {
    // {"0": 1.5, h'01': h'0203', "": -1}
    let mut data = vec![0xa3, 0x61, b'0', 0xfb];
    data.extend_from_slice(&1.5f64.to_bits().to_be_bytes());
    data.extend_from_slice(&[0x41, 0x01, 0x42, 0x02, 0x03, 0x60, 0x20]);
    let got = normalized_cbor(&data).unwrap();
    let expected = entries(vec![
        (CborTree::Bytes(vec![0x01]), CborTree::Bytes(vec![0x02, 0x03])),
        (text(""), integer(-1)),
        (integer(0), CborTree::FloatBits(1.5f64.to_bits())),
    ]);
    assert_tree(&got, &expected);
}

#[test]
fn malformed_bytes_give_a_serde_error() {
    for data in [&[0xa1u8][..], &[0x01, 0x02][..], &[][..], &[0x61, 0xff][..]] {
        match normalized_cbor(data) {
            Err(CborError::Serde(m)) => assert!(!m.is_empty()),
            other => panic!("expected a serde error, got {:?}", other),
        }
    }
}

#[test]
fn normalising_a_tree_directly() {
    let tree = entries(vec![
        (text("12"), CborTree::Array(vec![entries(vec![(text("-0"), integer(9))])])),
        (text("1e3"), CborTree::Tag(2, Box::new(entries(vec![(text("3"), integer(4))])))),
    ]);
    let expected = entries(vec![
        (integer(12), CborTree::Array(vec![entries(vec![(integer(0), integer(9))])])),
        (text("1e3"), CborTree::Tag(2, Box::new(entries(vec![(integer(3), integer(4))])))),
    ]);
    assert_tree(&normalize_keys(&tree), &expected);
    // Normalising again changes nothing.
    assert_tree(&normalize_keys(&normalize_keys(&tree)), &expected);
}

#[test]
fn trees_compare_and_copy() {
    let tree = CborTree::Tag(
        1,
        Box::new(CborTree::Array(vec![
            integer(-3),
            CborTree::FloatBits(7),
            entries(vec![(text("k"), CborTree::Bytes(vec![1, 2]))]),
        ])),
    );
    let copy = tree_clone(&tree);
    assert!(tree_eq(&tree, &copy));
    assert!(!tree_eq(&tree, &CborTree::Null));
    assert!(!tree_eq(&integer(1), &integer(-1)));
    assert!(!tree_eq(&text("a"), &CborTree::Bytes(vec![b'a'])));
    assert!(tree_eq(&entries(vec![]), &entries(vec![])));
    assert!(!tree_eq(&entries(vec![(integer(1), integer(2))]), &entries(vec![(integer(2), integer(1))])));
}
