use luna_vdb::codec::{decode, encode};
use luna_vdb::engine;
use luna_vdb::error::ErrorKind;
use luna_vdb::hashing::hash;
use luna_vdb::index::Index;
use luna_vdb::types::Candidate;

fn bits(values: &[f32]) -> Vec<u32> {
    values.iter().map(|v| v.to_bits()).collect()
}

fn ids(names: &[&str]) -> Vec<String> {
    names.iter().map(|n| n.to_string()).collect()
}

fn sample() -> Index {
    let data = vec![bits(&[0.1, 0.2, 0.3]), bits(&[0.4, 0.5, 0.6]), bits(&[-1.0])];
    engine::index(&data, &ids(&["1", "2", "héllo"]))
}

fn same_entries(a: &Index, b: &Index) -> bool {
    a.points().len() == b.points().len()
        && a.points().iter().zip(b.points().iter()).all(|(p, q)| {
            p.key == q.key && p.embedding == q.embedding && a.get(p.key) == b.get(q.key)
        })
}

#[test]
fn encode_of_empty_index_is_the_header() {
    let bytes = encode(&Index::new());
    assert_eq!(
        bytes,
        vec![1, 0, 0, 0, 0, 4, 0, 0, 32, 0, 0, 0, 0, 0, 0, 0, 0, 0, 0, 0]
    );
}

#[test]
fn encode_lays_out_one_entry() {
    let index = engine::index(&vec![bits(&[1.0])], &ids(&["a"]));
    let bytes = encode(&index);
    assert_eq!(bytes.len(), 20 + 8 + 8 + 1 + 4096);
    assert_eq!(bytes[12..20], [1, 0, 0, 0, 0, 0, 0, 0]);
    assert_eq!(bytes[20..28], 0xaf63_dc4c_8601_ec8cu64.to_le_bytes());
    assert_eq!(bytes[28..36], [1, 0, 0, 0, 0, 0, 0, 0]);
    assert_eq!(bytes[36], b'a');
    assert_eq!(bytes[37..41], [0x00, 0x00, 0x80, 0x3f]);
    assert!(bytes[41..].iter().all(|b| *b == 0));
}

#[test]
fn decode_gives_back_what_encode_wrote() {
    let index = sample();
    let back = decode(&encode(&index)).unwrap();
    assert_eq!(engine::size(&back), 3);
    assert!(same_entries(&index, &back));
    assert_eq!(back.get(hash("héllo")), Some(&"héllo".to_string()));
}

#[test]
fn decode_of_empty_index() {
    let back = decode(&encode(&Index::new())).unwrap();
    assert_eq!(engine::size(&back), 0);
}

#[test]
fn decode_rejects_short_header() {
    assert!(decode(&Vec::new()).is_none());
    assert!(decode(&vec![1, 0, 0, 0, 0, 4, 0, 0, 32, 0, 0, 0]).is_none());
}

#[test]
fn decode_rejects_other_version() {
    let mut bytes = encode(&sample());
    bytes[0] = 2;
    assert!(decode(&bytes).is_none());
}

#[test]
fn decode_rejects_other_dimension() {
    let mut bytes = encode(&sample());
    bytes[5] = 2;
    assert!(decode(&bytes).is_none());
}

#[test]
fn decode_rejects_other_bucket_capacity() {
    let mut bytes = encode(&sample());
    bytes[8] = 16;
    assert!(decode(&bytes).is_none());
}

#[test]
fn decode_rejects_truncated_body() {
    let mut bytes = encode(&sample());
    bytes.pop();
    assert!(decode(&bytes).is_none());
    bytes.truncate(30);
    assert!(decode(&bytes).is_none());
}

#[test]
fn decode_rejects_trailing_bytes() {
    let mut bytes = encode(&sample());
    bytes.push(0);
    assert!(decode(&bytes).is_none());
}

#[test]
fn decode_rejects_wrong_count() {
    let mut bytes = encode(&sample());
    bytes[12] = 4;
    assert!(decode(&bytes).is_none());
    bytes[12] = 2;
    assert!(decode(&bytes).is_none());
    bytes[19] = 0xff;
    assert!(decode(&bytes).is_none());
}

#[test]
fn decode_rejects_huge_identifier_length() {
    let mut bytes = encode(&engine::index(&vec![bits(&[1.0])], &ids(&["a"])));
    for b in bytes[28..36].iter_mut() {
        *b = 0xff;
    }
    assert!(decode(&bytes).is_none());
}

#[test]
fn decode_rejects_identifier_that_is_not_utf8() {
    let mut bytes = encode(&engine::index(&vec![bits(&[1.0])], &ids(&["a"])));
    bytes[36] = 0xff;
    assert!(decode(&bytes).is_none());
}

#[test]
fn decode_rejects_key_of_another_identifier() {
    let mut bytes = encode(&engine::index(&vec![bits(&[1.0])], &ids(&["a"])));
    bytes[36] = b'b';
    assert!(decode(&bytes).is_none());
    bytes[36] = b'a';
    bytes[20] ^= 1;
    assert!(decode(&bytes).is_none());
}

#[test]
fn decode_rejects_repeated_key() {
    let one = encode(&engine::index(&vec![bits(&[1.0])], &ids(&["a"])));
    let mut twice = one.clone();
    twice.extend_from_slice(&one[20..]);
    twice[12] = 2;
    assert!(decode(&twice).is_none());
}

#[test]
fn dump_then_load_keeps_the_entries() {
    let mut index = sample();
    let blob = engine::dump(&mut index).unwrap();
    assert_eq!(engine::size(&index), 3);
    let back = engine::load(&blob).unwrap();
    assert_eq!(engine::size(&back), 3);
    assert!(same_entries(&index, &back));
    let ranked = vec![
        Candidate { item: hash("2"), distance: 1 },
        Candidate { item: hash("héllo"), distance: 2 },
    ];
    let before = engine::search(&index, &ranked, 2);
    let after = engine::search(&back, &ranked, 2);
    assert_eq!(before.neighbors.len(), 2);
    assert_eq!(after.neighbors.len(), 2);
    assert_eq!(before.neighbors[0].id, after.neighbors[0].id);
    assert_eq!(before.neighbors[1].id, after.neighbors[1].id);
    assert_eq!(after.neighbors[1].id, "héllo");
}

#[test]
fn dump_compresses() {
    let mut index = sample();
    let raw = encode(&index);
    let blob = engine::dump(&mut index).unwrap();
    assert!(!blob.is_empty());
    assert_eq!(blob[0..3], [0x1f, 0x8b, 8]);
    assert_ne!(blob, raw);
    assert!(blob.len() < raw.len());
}

#[test]
fn load_rejects_bytes_that_are_not_compressed() {
    let raw = encode(&sample());
    let failure = engine::load(&raw).unwrap_err();
    assert_eq!(failure.kind, ErrorKind::CorruptData);
    assert!(failure.ids.is_empty());
    assert_eq!(failure.message, "Corrupt index data");
}

#[test]
fn load_rejects_empty_and_damaged_blobs() {
    assert_eq!(engine::load(&Vec::new()).unwrap_err().kind, ErrorKind::CorruptData);
    let mut index = sample();
    let mut blob = engine::dump(&mut index).unwrap();
    blob.truncate(blob.len() / 2);
    assert_eq!(engine::load(&blob).unwrap_err().kind, ErrorKind::CorruptData);
    let mut blob = engine::dump(&mut index).unwrap();
    let middle = blob.len() / 2;
    blob[middle] ^= 0x55;
    assert_eq!(engine::load(&blob).unwrap_err().kind, ErrorKind::CorruptData);
}

#[test]
fn load_of_empty_index() {
    let mut index = Index::new();
    let blob = engine::dump(&mut index).unwrap();
    let back = engine::load(&blob).unwrap();
    assert_eq!(engine::size(&back), 0);
}

#[test]
fn dump_is_repeatable() {
    let mut index = sample();
    let first = engine::dump(&mut index).unwrap();
    let second = engine::dump(&mut index).unwrap();
    assert_eq!(first, second);
    let mut twin = sample();
    assert_eq!(engine::dump(&mut twin).unwrap(), first);
    let mut other = engine::index(&vec![bits(&[9.0])], &ids(&["z"]));
    assert_ne!(engine::dump(&mut other).unwrap(), first);
}

#[test]
fn dump_gives_bytes_for_every_index() {
    let mut empty = Index::new();
    let blob = engine::dump(&mut empty).unwrap();
    assert!(blob.len() >= 18);
    assert_eq!(engine::size(&empty), 0);
    let mut index = sample();
    let blob = engine::dump(&mut index).unwrap();
    assert!(!blob.is_empty());
    assert_eq!(engine::size(&index), 3);
    assert_eq!(index.get(hash("1")), Some(&"1".to_string()));
}
