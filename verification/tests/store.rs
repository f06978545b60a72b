use ragamuffin::chunk::chunk_for_path;
use ragamuffin::error::StoreError;
use ragamuffin::json::{Field, Json};
use ragamuffin::store::{
    content_id, decode_vectors, encode_vectors, epoch_secs, now_secs, top_k, MetaRecord, Store,
};

fn v(dim: usize, fill: f32) -> Vec<u32> {
    vec![fill.to_bits(); dim]
}

fn copy_rows(rows: &[MetaRecord]) -> Vec<MetaRecord> {
    rows.iter()
        .map(|r| MetaRecord {
            id: r.id.clone(),
            source: r.source.clone(),
            metadata: r.metadata.copy(),
            added_at: r.added_at,
        })
        .collect()
}

fn empty(dim: usize) -> Store {
    Store::load(dim, Vec::new(), Vec::new()).unwrap()
}

#[test]
fn add_then_reload_reproduces_entries() {
    let mut s = empty(3);
    let meta = Json::Object(vec![Field { key: "k".to_string(), value: Json::Number("1".to_string()) }]);
    let id = s.add(&v(3, 0.5), "hello world", "manual", meta).unwrap();
    assert_eq!(s.count(), 1);
    // A fresh store over the same files reproduces the entry.
    let bytes = s.encoded_vectors();
    let s2 = Store::load(3, decode_vectors(&bytes), copy_rows(s.all())).unwrap();
    assert_eq!(s2.count(), 1);
    assert_eq!(s2.all()[0].id, id);
    assert_eq!(s2.all()[0].source, "manual");
    assert_eq!(s2.vectors(), s.vectors());
}

#[test]
fn identical_text_does_not_duplicate() {
    let mut s = empty(3);
    let a = s.add(&v(3, 0.1), "same text", "manual", Json::Null).unwrap();
    let b = s.add(&v(3, 0.9), "same text", "chat", Json::Null).unwrap();
    assert_eq!(a, b); // same content hash
    assert_eq!(s.count(), 1); // updated in place, not duplicated
    assert_eq!(s.all()[0].source, "chat"); // last write wins
    assert_eq!(s.vectors(), &v(3, 0.9)[..]);
}

#[test]
fn wrong_dimension_is_rejected() {
    let mut s = empty(3);
    let err = s.add(&v(4, 0.1), "x", "manual", Json::Null).unwrap_err();
    assert!(matches!(err, StoreError::DimMismatch { expected: 3, got: 4 }));
    assert_eq!(s.count(), 0);
}

#[test]
fn content_id_is_truncated_sha256_hex() {
    // SHA-256("hello world") = b94d27b9934d3e08a52e52d7da7dabfa...
    assert_eq!(content_id("hello world"), "b94d27b9934d3e08");
    assert_eq!(content_id(""), "e3b0c44298fc1c14");
}

#[test]
fn upsert_replaces_the_right_row() {
    let mut s = empty(2);
    s.add_at(&v(2, 1.0), "first", "a", Json::Null, 1).unwrap();
    s.add_at(&v(2, 2.0), "second", "b", Json::Null, 2).unwrap();
    s.add_at(&v(2, 3.0), "first", "c", Json::Bool(true), 3).unwrap();
    assert_eq!(s.count(), 2);
    assert_eq!(s.all()[0].source, "c");
    assert_eq!(s.all()[0].metadata, Json::Bool(true));
    assert_eq!(s.all()[1].source, "b");
    let expected: Vec<u32> = [3.0f32, 3.0, 2.0, 2.0].iter().map(|f| f.to_bits()).collect();
    assert_eq!(s.vectors(), &expected[..]);
}

#[test]
fn load_rejects_misaligned_files() {
    let row = MetaRecord { id: "x".to_string(), source: "s".to_string(), metadata: Json::Null, added_at: 0 };
    let err = Store::load(3, vec![0; 4], vec![row]).err().unwrap();
    assert!(matches!(err, StoreError::Corrupt { floats: 4, rows: 1, dim: 3 }));
    assert!(Store::check_manifest(3, 3).is_ok());
    assert!(matches!(Store::check_manifest(3, 4), Err(StoreError::DimMismatch { expected: 3, got: 4 })));
}

#[test]
fn load_keeps_last_duplicate_as_upsert_target() {
    let id = content_id("dup");
    let mk = |src: &str| MetaRecord { id: id.clone(), source: src.to_string(), metadata: Json::Null, added_at: 0 };
    let mut s = Store::load(1, vec![1, 2], vec![mk("one"), mk("two")]).unwrap();
    s.add_at(&[9], "dup", "three", Json::Null, 5).unwrap();
    assert_eq!(s.count(), 2);
    assert_eq!(s.all()[0].source, "one");
    assert_eq!(s.all()[1].source, "three");
    assert_eq!(s.vectors(), &[1, 9][..]);
}

#[test]
fn vectors_file_is_little_endian_f32() {
    let words = vec![1.0f32.to_bits(), (-2.5f32).to_bits()];
    let bytes = encode_vectors(&words);
    let mut expected = Vec::new();
    expected.extend_from_slice(&1.0f32.to_le_bytes());
    expected.extend_from_slice(&(-2.5f32).to_le_bytes());
    assert_eq!(bytes, expected);
    let mut with_tail = bytes.clone();
    with_tail.push(0xaa);
    assert_eq!(decode_vectors(&with_tail), words);
}

#[test]
fn top_k_ranks_by_score_and_clamps() {
    let sims: Vec<u32> = [0.1f32, 0.9, -0.5, 0.9, 0.0].iter().map(|f| f.to_bits()).collect();
    assert_eq!(top_k(&sims, 2), vec![1, 3]);
    assert_eq!(top_k(&sims, 10), vec![1, 3, 0, 4, 2]);
    assert_eq!(top_k(&sims, 0), Vec::<usize>::new());
    assert_eq!(top_k(&[], 4), Vec::<usize>::new());
    let neg: Vec<u32> = [-1.0f32, -0.25, -3.0].iter().map(|f| f.to_bits()).collect();
    assert_eq!(top_k(&neg, 3), vec![1, 0, 2]);
}

/// Bag-of-words embedding over a tiny fixed vocabulary, L2-normalized.
fn fake_embed(text: &str) -> Vec<f32> {
    let vocab = ["cat", "dog", "rust", "python", "memory", "vector", "food", "code"];
    let lower = text.to_lowercase();
    let mut v: Vec<f32> = vocab.iter().map(|w| lower.matches(w).count() as f32).collect();
    let norm = v.iter().map(|x| x * x).sum::<f32>().sqrt();
    if norm > 0.0 {
        for x in v.iter_mut() {
            *x /= norm;
        }
    }
    v
}

fn bits(v: &[f32]) -> Vec<u32> {
    v.iter().map(|f| f.to_bits()).collect()
}

fn search(s: &Store, query: &str, k: usize) -> Vec<usize> {
    let q = fake_embed(query);
    let dim = s.dim();
    let comps: Vec<f32> = s.vectors().iter().map(|b| f32::from_bits(*b)).collect();
    let sims: Vec<u32> = (0..s.count())
        .map(|r| comps[r * dim..(r + 1) * dim].iter().zip(&q).map(|(a, b)| a * b).sum::<f32>().to_bits())
        .collect();
    top_k(&sims, k)
}

#[test]
fn add_memory_then_search_roundtrips() {
    let mut s = empty(8);
    let texts = ["rust code is fast", "the cat ate food"];
    for t in texts {
        s.add_at(&bits(&fake_embed(t)), t, "manual", Json::Null, 0).unwrap();
    }
    let hits = search(&s, "rust memory", 1);
    assert_eq!(hits.len(), 1);
    assert_eq!(texts[hits[0]], "rust code is fast"); // shares "rust"
}

#[test]
fn ingest_json_file_stores_per_record_metadata() {
    let text = r#"[{"title":"rust memory notes","year":2024},
                {"title":"the cat ate food","year":2023}]"#;
    let chunks = chunk_for_path("records.json", text, 180, 40);
    assert_eq!(chunks.len(), 2); // one chunk per record
    let mut s = empty(8);
    let mut ids = Vec::new();
    for c in chunks {
        let body = c.text.clone();
        ids.push(s.add_at(&bits(&fake_embed(&body)), &body, "records.json", c.metadata, 0).unwrap());
    }
    assert_eq!(ids.len(), 2);
    let get = |m: &Json, k: &str| match m {
        Json::Object(fs) => fs.iter().find(|f| f.key == k).map(|f| f.value.copy()),
        _ => None,
    };
    assert!(s.all().iter().any(|m| get(&m.metadata, "source_kind") == Some(Json::Str("json".to_string()))
        && get(&m.metadata, "year") == Some(Json::Number("2024".to_string()))));
    let hits = search(&s, "rust", 1);
    assert_eq!(hits.len(), 1);
    assert_eq!(s.all()[hits[0]].id, content_id("title: rust memory notes"));
}

#[test]
fn hit_carries_the_row_and_score() {
    let mut s = empty(2);
    let meta = Json::Object(vec![Field { key: "chunk".to_string(), value: Json::Number("3".to_string()) }]);
    s.add_at(&v(2, 1.0), "alpha", "notes.txt", meta.copy(), 4).unwrap();
    s.add_at(&v(2, 2.0), "beta", "manual", Json::Null, 5).unwrap();
    let h = s.hit(0, 0.5f32.to_bits(), "alpha".to_string());
    assert_eq!(h.score_bits, 0.5f32.to_bits());
    assert_eq!(h.id, content_id("alpha"));
    assert_eq!(h.text, "alpha");
    assert_eq!(h.source, "notes.txt");
    assert_eq!(h.metadata, meta);
    assert_eq!(s.hit(1, 0, "beta".to_string()).source, "manual");
}

#[test]
fn timestamps_fall_back_to_zero_before_the_epoch() {
    assert_eq!(epoch_secs(Some(1_700_000_000)), 1_700_000_000);
    assert_eq!(epoch_secs(None), 0);
    // The clock of any machine running this is well after 2020.
    assert!(now_secs() > 1_577_836_800);
    let mut s = empty(1);
    s.add(&[0], "stamped", "manual", Json::Null).unwrap();
    assert!(s.all()[0].added_at > 1_577_836_800);
}
