use steam_meta::binary::decode;
use steam_meta::binary::encode;
use steam_meta::binary::BNode;

fn sample_tree() -> BNode {
    BNode::Obj(vec![
        (
            b"shortcuts".to_vec(),
            BNode::Obj(vec![(
                b"0".to_vec(),
                BNode::Obj(vec![
                    (b"appid".to_vec(), BNode::Int(0xd54b6e61)),
                    (b"AppName".to_vec(), BNode::Str(b"An Anime Game Launcher".to_vec())),
                ]),
            )]),
        ),
        (b"note".to_vec(), BNode::Str(b"plain".to_vec())),
    ])
}

fn pairs_of(root: &BNode) -> Vec<(u32, Vec<u8>)> {
    let entries = match root {
        BNode::Obj(es) => es,
        _ => panic!("root must be an object"),
    };
    let shortcuts = entries
        .iter()
        .find(|(k, _)| k == b"shortcuts")
        .map(|(_, v)| v)
        .unwrap();
    let records = match shortcuts {
        BNode::Obj(es) => es,
        _ => panic!("shortcuts must be an object"),
    };
    records
        .iter()
        .map(|(_, rec)| {
            let fields = match rec {
                BNode::Obj(es) => es,
                _ => panic!("record must be an object"),
            };
            let id = fields
                .iter()
                .find(|(k, _)| k == b"appid")
                .and_then(|(_, v)| match v {
                    BNode::Int(x) => Some(*x),
                    _ => None,
                })
                .unwrap();
            let name = fields
                .iter()
                .find(|(k, _)| k == b"AppName")
                .and_then(|(_, v)| match v {
                    BNode::Str(s) => Some(s.clone()),
                    _ => None,
                })
                .unwrap();
            (id, name)
        })
        .collect()
}

#[test]
fn encode_then_decode_returns_the_same_tree() {
    let tree = sample_tree();
    let bytes = encode(&tree).unwrap();
    let back = decode(&bytes).unwrap();
    assert_eq!(back, tree);
}

#[test]
fn reencoding_decoded_data_keeps_the_id_name_pairs() {
    let tree = sample_tree();
    let bytes = encode(&tree).unwrap();
    let first = decode(&bytes).unwrap();
    let bytes_again = encode(&first).unwrap();
    let second = decode(&bytes_again).unwrap();
    assert_eq!(pairs_of(&first), pairs_of(&second));
    assert_eq!(pairs_of(&second), pairs_of(&tree));
}

#[test]
fn truncated_stream_reports_the_offset() {
    let tree = sample_tree();
    let bytes = encode(&tree).unwrap();
    // Cut in the middle of the integer value: the error names an offset
    // inside the remaining input, and nothing panics.
    let cut = bytes[..25].to_vec();
    let err = decode(&cut).unwrap_err();
    assert!(err.offset <= cut.len());
    // Every prefix decodes or fails cleanly.
    for n in 0..bytes.len() {
        let prefix = bytes[..n].to_vec();
        assert!(decode(&prefix).is_err());
    }
}

#[test]
fn unknown_tag_reports_its_offset() {
    let bytes = vec![0x07u8, 0x41, 0x00, 0x08];
    let err = decode(&bytes).unwrap_err();
    assert_eq!(err.offset, 0);
    let bytes2 = vec![0x01u8, 0x41, 0x00, 0x42, 0x00, 0x09, 0x08];
    let err2 = decode(&bytes2).unwrap_err();
    assert_eq!(err2.offset, 5);
}

#[test]
fn trailing_bytes_after_the_document_are_rejected() {
    let bytes = vec![0x08u8, 0x00];
    let err = decode(&bytes).unwrap_err();
    assert_eq!(err.offset, 1);
}

#[test]
fn empty_document_is_a_lone_end_byte() {
    let bytes = vec![0x08u8];
    let root = decode(&bytes).unwrap();
    assert_eq!(root, BNode::Obj(vec![]));
    assert_eq!(encode(&root).unwrap(), bytes);
}

#[test]
fn integer_values_are_little_endian() {
    let bytes = vec![
        0x02u8, 0x6b, 0x00, // tag, key "k", null
        0x61, 0x6e, 0x4b, 0xd5, // little-endian value
        0x08,
    ];
    let root = decode(&bytes).unwrap();
    assert_eq!(root, BNode::Obj(vec![(b"k".to_vec(), BNode::Int(0xd54b6e61))]));
}

#[test]
fn entry_order_is_preserved() {
    let tree = BNode::Obj(vec![
        (b"1".to_vec(), BNode::Str(b"b".to_vec())),
        (b"0".to_vec(), BNode::Str(b"a".to_vec())),
        (b"2".to_vec(), BNode::Str(b"c".to_vec())),
    ]);
    let bytes = encode(&tree).unwrap();
    let back = decode(&bytes).unwrap();
    assert_eq!(back, tree);
}
