use luna_vdb::embedding::{normalize, EMBEDDING_DIMENSION};
use luna_vdb::engine;
use luna_vdb::error::{EngineError, ErrorKind};
use luna_vdb::hashing::hash;
use luna_vdb::index::Index;
use luna_vdb::types::Candidate;

fn bits(values: &[f32]) -> Vec<u32> {
    values.iter().map(|v| v.to_bits()).collect()
}

fn ids(names: &[&str]) -> Vec<String> {
    names.iter().map(|n| n.to_string()).collect()
}

#[test]
fn hash_of_known_strings() {
    assert_eq!(hash(""), 0xcbf2_9ce4_8422_2325);
    assert_eq!(hash("a"), 0xaf63_dc4c_8601_ec8c);
    assert_eq!(hash("foobar"), 0x8594_4171_f739_67e8);
    assert_eq!(hash("é"), 0x0ac2_1707_b718_1e01);
}

#[test]
fn hash_is_repeatable() {
    assert_eq!(hash("some identifier"), hash("some identifier"));
    assert_ne!(hash("1"), hash("2"));
}

#[test]
fn normalize_pads_with_zeros() {
    let out = normalize(&vec![7, 9]);
    assert_eq!(out.len(), EMBEDDING_DIMENSION);
    assert_eq!(out[0], 7);
    assert_eq!(out[1], 9);
    assert!(out[2..].iter().all(|w| *w == 0));
}

#[test]
fn normalize_truncates() {
    let long: Vec<u32> = (0..2000u32).collect();
    let out = normalize(&long);
    assert_eq!(out.len(), EMBEDDING_DIMENSION);
    assert_eq!(out[0], 0);
    assert_eq!(out[1023], 1023);
}

#[test]
fn normalize_of_nothing_is_zero() {
    let out = normalize(&Vec::new());
    assert_eq!(out, vec![0u32; 1024]);
}

#[test]
fn new_index_is_empty() {
    let index = Index::new();
    assert_eq!(engine::size(&index), 0);
    assert!(index.points().is_empty());
}

#[test]
fn index_counts_pairs() {
    let data = vec![bits(&[0.1, 0.2, 0.3]), bits(&[0.4, 0.5, 0.6])];
    let index = engine::index(&data, &ids(&["1", "2"]));
    assert_eq!(engine::size(&index), 2);
    assert_eq!(index.points()[0].key, 0xaf63_ac4c_8601_9afc);
    assert_eq!(index.points()[1].key, 0xaf63_af4c_8601_a015);
    assert_eq!(index.get(hash("1")), Some(&"1".to_string()));
    assert_eq!(index.get(hash("2")), Some(&"2".to_string()));
    assert_eq!(index.points()[0].embedding.len(), 1024);
    assert_eq!(index.points()[0].embedding[0], 0x3dcc_cccd);
    assert_eq!(index.points()[0].embedding[2], 0x3e99_999a);
    assert_eq!(index.points()[0].embedding[3], 0);
}

#[test]
fn index_ignores_surplus_identifiers() {
    let data = vec![bits(&[1.0])];
    let index = engine::index(&data, &ids(&["a", "b", "c"]));
    assert_eq!(engine::size(&index), 1);
    assert!(index.contains(hash("a")));
    assert!(!index.contains(hash("b")));
}

#[test]
fn index_last_write_wins() {
    let data = vec![bits(&[1.0]), bits(&[2.0]), bits(&[3.0])];
    let index = engine::index(&data, &ids(&["a", "b", "a"]));
    assert_eq!(engine::size(&index), 2);
    assert_eq!(index.points()[0].key, hash("a"));
    assert_eq!(index.points()[1].key, hash("b"));
    assert_eq!(index.embedding(hash("a")).unwrap()[0], 3.0f32.to_bits());
    assert_eq!(index.embedding(hash("b")).unwrap()[0], 2.0f32.to_bits());
}

#[test]
fn index_of_nothing_is_empty() {
    let index = engine::index(&Vec::new(), &Vec::new());
    assert_eq!(engine::size(&index), 0);
}

#[test]
fn add_grows_by_one() {
    let mut index = Index::new();
    assert!(engine::add(&mut index, "x".to_string(), &bits(&[1.0, 2.0])).is_ok());
    assert_eq!(engine::size(&index), 1);
    assert!(engine::add(&mut index, "y".to_string(), &bits(&[3.0])).is_ok());
    assert_eq!(engine::size(&index), 2);
    assert_eq!(index.points()[1].key, hash("y"));
}

#[test]
fn add_of_duplicate_fails_and_changes_nothing() {
    let mut index = Index::new();
    engine::add(&mut index, "x".to_string(), &bits(&[1.0])).unwrap();
    let failure = engine::add(&mut index, "x".to_string(), &bits(&[9.0])).unwrap_err();
    assert_eq!(failure.kind, ErrorKind::DuplicateId);
    assert_eq!(failure.ids, vec!["x".to_string()]);
    assert_eq!(failure.message, "Id x already exists");
    assert_eq!(failure.to_string(), "Id x already exists");
    assert_eq!(engine::size(&index), 1);
    assert_eq!(index.embedding(hash("x")).unwrap()[0], 1.0f32.to_bits());
    assert_eq!(index.get(hash("x")), Some(&"x".to_string()));
}

#[test]
fn padded_and_unpadded_are_stored_alike() {
    let mut short = Index::new();
    engine::add(&mut short, "x".to_string(), &bits(&[1.0, 2.0, 3.0])).unwrap();
    let mut padded = bits(&[1.0, 2.0, 3.0]);
    padded.resize(1024, 0);
    let mut full = Index::new();
    engine::add(&mut full, "x".to_string(), &padded).unwrap();
    assert_eq!(short.points()[0].key, full.points()[0].key);
    assert_eq!(short.points()[0].embedding, full.points()[0].embedding);
    assert_eq!(short.get(hash("x")), full.get(hash("x")));
}

#[test]
fn add_then_remove_then_remove_again() {
    let mut index = Index::new();
    engine::add(&mut index, "3".to_string(), &bits(&[0.7, 0.8, 0.9])).unwrap();
    assert_eq!(engine::size(&index), 1);
    assert!(engine::remove(&mut index, &ids(&["3"])).is_ok());
    assert_eq!(engine::size(&index), 0);
    let failure = engine::remove(&mut index, &ids(&["3"])).unwrap_err();
    assert_eq!(failure.kind, ErrorKind::NotFound);
    assert_eq!(failure.ids, vec!["3".to_string()]);
    assert_eq!(failure.message, "The ids 3 not found");
    assert_eq!(engine::size(&index), 0);
}

#[test]
fn remove_shrinks_by_number_of_ids() {
    let data = vec![bits(&[1.0]), bits(&[2.0]), bits(&[3.0]), bits(&[4.0])];
    let mut index = engine::index(&data, &ids(&["a", "b", "c", "d"]));
    assert!(engine::remove(&mut index, &ids(&["d", "b"])).is_ok());
    assert_eq!(engine::size(&index), 2);
    assert_eq!(index.points()[0].key, hash("a"));
    assert_eq!(index.points()[1].key, hash("c"));
    assert_eq!(index.get(hash("b")), None);
    assert_eq!(index.embedding(hash("d")), None);
}

#[test]
fn remove_is_all_or_nothing() {
    let data = vec![bits(&[1.0]), bits(&[2.0])];
    let mut index = engine::index(&data, &ids(&["a", "b"]));
    let failure = engine::remove(&mut index, &ids(&["a", "nope", "b", "neither"])).unwrap_err();
    assert_eq!(failure.kind, ErrorKind::NotFound);
    assert_eq!(failure.ids, ids(&["nope", "neither"]));
    assert_eq!(failure.message, "The ids nope,neither not found");
    assert_eq!(engine::size(&index), 2);
    assert!(index.contains(hash("a")));
    assert!(index.contains(hash("b")));
}

#[test]
fn remove_of_repeated_id_fails() {
    let data = vec![bits(&[1.0]), bits(&[2.0])];
    let mut index = engine::index(&data, &ids(&["a", "b"]));
    let failure = engine::remove(&mut index, &ids(&["a", "a"])).unwrap_err();
    assert_eq!(failure.kind, ErrorKind::NotFound);
    assert!(failure.ids.is_empty());
    assert_eq!(failure.message, "The ids  not found");
    assert_eq!(engine::size(&index), 2);
}

#[test]
fn remove_of_nothing_succeeds() {
    let mut index = engine::index(&vec![bits(&[1.0])], &ids(&["a"]));
    assert!(engine::remove(&mut index, &Vec::new()).is_ok());
    assert_eq!(engine::size(&index), 1);
}

#[test]
fn clear_empties_and_index_works_as_new() {
    let mut index = engine::index(&vec![bits(&[1.0])], &ids(&["a"]));
    engine::clear(&mut index);
    assert_eq!(engine::size(&index), 0);
    assert!(!index.contains(hash("a")));
    assert!(engine::add(&mut index, "a".to_string(), &bits(&[2.0])).is_ok());
    assert_eq!(engine::size(&index), 1);
    assert_eq!(index.embedding(hash("a")).unwrap()[0], 2.0f32.to_bits());
}

#[test]
fn search_resolves_in_ranking_order() {
    let data = vec![bits(&[1.0]), bits(&[2.0])];
    let index = engine::index(&data, &ids(&["a", "b"]));
    let ranked = vec![
        Candidate { item: hash("b"), distance: 10 },
        Candidate { item: hash("a"), distance: 20 },
    ];
    let result = engine::search(&index, &ranked, 5);
    assert_eq!(result.neighbors.len(), 2);
    assert_eq!(result.neighbors[0].id, "b");
    assert_eq!(result.neighbors[0].distance, 10);
    assert_eq!(result.neighbors[1].id, "a");
    assert_eq!(result.neighbors[1].distance, 20);
}

#[test]
fn search_leaves_out_unknown_keys() {
    let index = engine::index(&vec![bits(&[1.0])], &ids(&["a"]));
    let ranked = vec![
        Candidate { item: hash("ghost"), distance: 1 },
        Candidate { item: hash("a"), distance: 2 },
    ];
    let result = engine::search(&index, &ranked, 5);
    assert_eq!(result.neighbors.len(), 1);
    assert_eq!(result.neighbors[0].id, "a");
    assert_eq!(result.neighbors[0].distance, 2);
}

#[test]
fn search_of_empty_ranking_is_empty() {
    let index = engine::index(&vec![bits(&[1.0])], &ids(&["a"]));
    assert!(engine::search(&index, &Vec::new(), 3).neighbors.is_empty());
    let empty = Index::new();
    let ranked = vec![Candidate { item: 1, distance: 0 }];
    assert!(engine::search(&empty, &ranked, 3).neighbors.is_empty());
}

#[test]
fn search_answers_with_at_most_k() {
    let data = vec![bits(&[1.0]), bits(&[2.0]), bits(&[3.0])];
    let index = engine::index(&data, &ids(&["a", "b", "c"]));
    let ranked = vec![
        Candidate { item: hash("c"), distance: 1 },
        Candidate { item: hash("a"), distance: 2 },
        Candidate { item: hash("b"), distance: 3 },
    ];
    assert!(engine::search(&index, &ranked, 0).neighbors.is_empty());
    let two = engine::search(&index, &ranked, 2);
    assert_eq!(two.neighbors.len(), 2);
    assert_eq!(two.neighbors[0].id, "c");
    assert_eq!(two.neighbors[1].id, "a");
    assert_eq!(engine::search(&index, &ranked, 3).neighbors.len(), 3);
    assert_eq!(engine::search(&index, &ranked, 100).neighbors.len(), 3);
}

#[test]
fn search_counts_k_before_leaving_out_unknown_keys() {
    let index = engine::index(&vec![bits(&[1.0])], &ids(&["a"]));
    let ranked = vec![
        Candidate { item: hash("ghost"), distance: 1 },
        Candidate { item: hash("a"), distance: 2 },
    ];
    assert!(engine::search(&index, &ranked, 1).neighbors.is_empty());
    assert_eq!(engine::search(&index, &ranked, 2).neighbors.len(), 1);
}

#[test]
fn added_entry_is_found_under_its_key() {
    let mut index = Index::new();
    engine::add(&mut index, "fresh".to_string(), &bits(&[0.5])).unwrap();
    let ranked = vec![Candidate { item: hash("fresh"), distance: 0 }];
    let result = engine::search(&index, &ranked, 1);
    assert_eq!(result.neighbors.len(), 1);
    assert_eq!(result.neighbors[0].id, "fresh");
    assert_eq!(result.neighbors[0].distance, 0);
}

#[test]
fn error_new_is_of_kind_other() {
    let failure = EngineError::new("went wrong".to_string());
    assert_eq!(failure.kind, ErrorKind::Other);
    assert!(failure.ids.is_empty());
    assert_eq!(failure.message, "went wrong");
    assert_eq!(failure.to_string(), "went wrong");
}

#[test]
fn error_constructors_word_their_messages() {
    let taken = EngineError::duplicate_id("k9".to_string());
    assert_eq!(taken.kind, ErrorKind::DuplicateId);
    assert_eq!(taken.message, "Id k9 already exists");
    let absent = EngineError::not_found(ids(&["a", "b", "c"]));
    assert_eq!(absent.kind, ErrorKind::NotFound);
    assert_eq!(absent.message, "The ids a,b,c not found");
    let corrupt = EngineError::corrupt_data();
    assert_eq!(corrupt.kind, ErrorKind::CorruptData);
    assert_eq!(corrupt.message, "Corrupt index data");
}
