use indexd::{
    default_k, load_rows, make_chunk_key, rank_top_k, split_chunk_key, to_rows, Row, ScoredHit,
    StagedChunk, VectorStore, VectorStoreError,
};
use serde_json::Value;

fn bits(v: &[f32]) -> Vec<u32> {
    v.iter().map(|x| x.to_bits()).collect()
}

fn floats(v: &[u32]) -> Vec<f32> {
    v.iter().map(|x| f32::from_bits(*x)).collect()
}

fn normalize(v: &[f32]) -> Vec<f32> {
    let norm: f32 = v.iter().map(|x| x * x).sum::<f32>().sqrt();
    if norm <= f32::EPSILON {
        v.to_vec()
    } else {
        v.iter().map(|x| x / norm).collect()
    }
}

fn dot(a: &[f32], b: &[f32]) -> f32 {
    a.iter().zip(b.iter()).map(|(x, y)| x * y).sum()
}

fn upsert_vec(
    store: &mut VectorStore,
    namespace: &str,
    doc_id: &str,
    chunk_id: &str,
    vector: &[f32],
    meta: Value,
) -> Result<(), VectorStoreError> {
    store.upsert(namespace, doc_id, chunk_id, bits(&normalize(vector)), meta)
}

fn search(store: &VectorStore, namespace: &str, query: &[f32], k: usize) -> Vec<(String, String, f32)> {
    let q = normalize(query);
    match store.search_candidates(namespace, q.len()) {
        None => Vec::new(),
        Some(cands) => {
            let mut scored = Vec::new();
            for c in cands {
                let score = dot(&q, &floats(&c.vector));
                let (doc_id, chunk_id) = split_chunk_key(&c.key);
                scored.push(ScoredHit {
                    doc_id,
                    chunk_id,
                    score_bits: score.to_bits(),
                });
            }
            rank_top_k(scored, k)
                .into_iter()
                .map(|h| (h.doc_id, h.chunk_id, f32::from_bits(h.score_bits)))
                .collect()
        }
    }
}

fn meta_from(text: &str) -> Value {
    serde_json::from_str(text).unwrap()
}

#[test]
fn upsert_delete_smoke() {
    let mut store = VectorStore::new();
    let meta = Value::Null;
    upsert_vec(&mut store, "namespace", "doc", "chunk-1", &[0.1, 0.2], meta.clone())
        .expect("first insert sets dims");
    upsert_vec(&mut store, "namespace", "doc", "chunk-2", &[0.3, 0.4], meta)
        .expect("second insert matches dims");

    assert_eq!(store.len(), 2);

    store.delete_doc("namespace", "doc");

    assert!(store.is_empty(), "store should be empty after delete");
    assert!(
        store.dims().is_none(),
        "dims should reset after deleting all items"
    );
}

#[test]
fn search_returns_ordered_hits() {
    let mut store = VectorStore::new();
    upsert_vec(&mut store, "ns", "doc-a", "c1", &[1.0, 0.0], Value::Null).unwrap();
    upsert_vec(&mut store, "ns", "doc-b", "c2", &[0.0, 1.0], Value::Null).unwrap();

    let results = search(&store, "ns", &[1.0, 0.0], 2);
    assert_eq!(results.len(), 2);
    assert_eq!(results[0].0, "doc-a");
    assert_eq!(results[0].1, "c1");
    assert!(results[0].2 > results[1].2);
}

#[test]
fn test_prefix_sort_order() {
    let mut store = VectorStore::new();
    let meta = Value::Null;

    // "doc" is a prefix of "doc-extended"; ties must order by the split
    // document id, not by the composed key, whose separator sorts above
    // '-'.
    upsert_vec(&mut store, "ns", "doc", "c1", &[1.0], meta.clone()).unwrap();
    upsert_vec(&mut store, "ns", "doc-extended", "c1", &[1.0], meta.clone()).unwrap();

    let results = search(&store, "ns", &[1.0], 10);

    assert_eq!(results.len(), 2);
    assert_eq!(
        results[0].0, "doc",
        "Expected 'doc' first, but got '{}'",
        results[0].0
    );
    assert_eq!(results[1].0, "doc-extended");
}

fn row_to_line(row: &Row) -> String {
    let mut object = serde_json::Map::new();
    object.insert(
        "namespace".to_string(),
        Value::String(row.namespace.clone()),
    );
    object.insert("doc_id".to_string(), Value::String(row.doc_id.clone()));
    object.insert("chunk_id".to_string(), Value::String(row.chunk_id.clone()));
    let components: Vec<Value> = floats(&row.embedding)
        .into_iter()
        .map(|x| Value::Number(serde_json::Number::from_f64(x as f64).unwrap()))
        .collect();
    object.insert("embedding".to_string(), Value::Array(components));
    object.insert("meta".to_string(), row.meta.clone());
    Value::Object(object).to_string()
}

fn line_to_row(line: &str) -> Row {
    let value: Value = serde_json::from_str(line).unwrap();
    let embedding: Vec<u32> = value["embedding"]
        .as_array()
        .unwrap()
        .iter()
        .map(|x| (x.as_f64().unwrap() as f32).to_bits())
        .collect();
    Row {
        namespace: value["namespace"].as_str().unwrap().to_string(),
        doc_id: value["doc_id"].as_str().unwrap().to_string(),
        chunk_id: value["chunk_id"].as_str().unwrap().to_string(),
        embedding,
        meta: value["meta"].clone(),
    }
}

#[test]
fn jsonl_roundtrip() {
    let rows = vec![
        Row {
            namespace: "ns".into(),
            doc_id: "d1".into(),
            chunk_id: "c1".into(),
            embedding: bits(&[0.1, 0.2]),
            meta: meta_from(r#"{"snippet": "hello"}"#),
        },
        Row {
            namespace: "ns".into(),
            doc_id: "d2".into(),
            chunk_id: "c2".into(),
            embedding: bits(&[0.3, 0.4]),
            meta: Value::Null,
        },
    ];

    let lines: Vec<String> = rows.iter().map(row_to_line).collect();
    let back: Vec<Row> = lines.iter().map(|line| line_to_row(line)).collect();

    assert_eq!(rows.len(), back.len());
    assert_eq!(rows[0].doc_id, back[0].doc_id);
    assert_eq!(floats(&rows[0].embedding), floats(&back[0].embedding));
}

#[test]
fn persistence_roundtrip() {
    let mut store = VectorStore::new();
    upsert_vec(
        &mut store,
        "ns",
        "d1",
        "c1",
        &[1.0, 0.0],
        meta_from(r#"{"snippet": "hello"}"#),
    )
    .unwrap();
    upsert_vec(
        &mut store,
        "ns",
        "d2",
        "c2",
        &[0.0, 1.0],
        meta_from(r#"{"snippet": "world"}"#),
    )
    .unwrap();

    let rows = to_rows(&store);
    let lines: Vec<String> = rows.iter().map(row_to_line).collect();
    let back: Vec<Row> = lines.iter().map(|line| line_to_row(line)).collect();
    let (loaded, skipped) = load_rows(back);

    assert_eq!(skipped, 0);
    assert_eq!(loaded.dims(), Some(2));
    assert_eq!(loaded.len(), 2);
    assert_eq!(
        loaded.chunk_meta("ns", "d1", "c1"),
        Some(&meta_from(r#"{"snippet": "hello"}"#))
    );
    assert_eq!(
        loaded.chunk_meta("ns", "d2", "c2"),
        Some(&meta_from(r#"{"snippet": "world"}"#))
    );
    let results = search(&loaded, "ns", &[1.0, 0.0], 2);
    assert_eq!(results.len(), 2);
    assert_eq!(results[0].0, "d1");
    assert!((results[0].2 - 1.0).abs() < 1e-6);
}

#[test]
fn legacy_unnormalized_rows_self_heal() {
    // Rows persisted before normalize-on-write carry unnormalized vectors;
    // loading normalizes them exactly as an insert would.
    let raw = vec![
        Row {
            namespace: "ns".into(),
            doc_id: "d1".into(),
            chunk_id: "c1".into(),
            embedding: bits(&[2.0, 0.0]),
            meta: Value::Null,
        },
        Row {
            namespace: "ns".into(),
            doc_id: "d2".into(),
            chunk_id: "c1".into(),
            embedding: bits(&[1.0, 1.0]),
            meta: Value::Null,
        },
    ];
    let healed: Vec<Row> = raw
        .into_iter()
        .map(|row| {
            let normalized = bits(&normalize(&floats(&row.embedding)));
            Row {
                embedding: normalized,
                ..row
            }
        })
        .collect();
    let (store, skipped) = load_rows(healed);
    assert_eq!(skipped, 0);

    let results = search(&store, "ns", &[1.0, 0.0], 2);
    assert_eq!(results.len(), 2);
    assert_eq!(results[0].0, "d1");
    assert!((results[0].2 - 1.0).abs() < 1e-6, "d1 should score 1.0");
    assert_eq!(results[1].0, "d2");
    assert!(
        (results[1].2 - 0.70710678).abs() < 1e-3,
        "d2 should score about 0.707"
    );
}

#[test]
fn loading_nothing_starts_empty() {
    let (store, skipped) = load_rows(Vec::new());
    assert!(store.is_empty());
    assert!(store.dims().is_none());
    assert_eq!(skipped, 0);
}

#[test]
fn load_skips_rows_with_wrong_width() {
    let rows = vec![
        Row {
            namespace: "ns".into(),
            doc_id: "d1".into(),
            chunk_id: "c1".into(),
            embedding: bits(&[1.0, 0.0]),
            meta: Value::Null,
        },
        Row {
            namespace: "ns".into(),
            doc_id: "d2".into(),
            chunk_id: "c1".into(),
            embedding: bits(&[1.0, 0.0, 0.0]),
            meta: Value::Null,
        },
    ];
    let (store, skipped) = load_rows(rows);
    assert_eq!(skipped, 1);
    assert_eq!(store.len(), 1);
    assert_eq!(store.dims(), Some(2));
}

#[test]
fn normalization_stores_unit_vectors() {
    let mut store = VectorStore::new();
    upsert_vec(&mut store, "ns", "d", "c", &[3.0, 4.0], Value::Null).unwrap();
    let rows = to_rows(&store);
    assert_eq!(rows.len(), 1);
    let stored = floats(&rows[0].embedding);
    let norm: f32 = stored.iter().map(|x| x * x).sum::<f32>().sqrt();
    assert!((norm - 1.0).abs() < 1e-6, "stored vector must be unit length");
    assert_eq!(stored, vec![0.6, 0.8]);
}

#[test]
fn dimension_latch_rejects_mismatch() {
    let mut store = VectorStore::new();
    upsert_vec(&mut store, "ns", "d", "c1", &[1.0, 0.0], Value::Null).unwrap();
    let err = store
        .upsert("ns", "d", "c2", bits(&[1.0, 0.0, 0.0]), Value::Null)
        .expect_err("mismatched width must fail");
    assert_eq!(
        err,
        VectorStoreError::DimensionalityMismatch {
            expected: 2,
            actual: 3
        }
    );
    assert_eq!(store.len(), 1, "failed insert must not mutate the store");
}

#[test]
fn delete_leaves_other_documents_untouched() {
    let mut store = VectorStore::new();
    upsert_vec(&mut store, "ns", "doc-a", "c1", &[1.0, 0.0], Value::Null).unwrap();
    upsert_vec(&mut store, "ns", "doc-a", "c2", &[0.0, 1.0], Value::Null).unwrap();
    upsert_vec(&mut store, "ns", "doc-b", "c1", &[0.0, 1.0], meta_from(r#"{"kept": true}"#))
        .unwrap();
    upsert_vec(&mut store, "other", "doc-a", "c1", &[1.0, 0.0], Value::Null).unwrap();

    store.delete_doc("ns", "doc-a");

    assert_eq!(store.len(), 2);
    assert!(store.chunk_meta("ns", "doc-a", "c1").is_none());
    assert!(store.chunk_meta("ns", "doc-a", "c2").is_none());
    assert_eq!(
        store.chunk_meta("ns", "doc-b", "c1"),
        Some(&meta_from(r#"{"kept": true}"#))
    );
    assert!(store.chunk_meta("other", "doc-a", "c1").is_some());
    assert_eq!(store.dims(), Some(2), "store is not empty, dims stay latched");
}

#[test]
fn tie_break_orders_by_doc_then_chunk() {
    let mut store = VectorStore::new();
    upsert_vec(&mut store, "ns", "doc-b", "c1", &[1.0, 0.0], Value::Null).unwrap();
    upsert_vec(&mut store, "ns", "doc-a", "c1", &[1.0, 0.0], Value::Null).unwrap();
    upsert_vec(&mut store, "ns", "doc-b", "c2", &[1.0, 0.0], Value::Null).unwrap();

    let results = search(&store, "ns", &[1.0, 0.0], 3);
    assert_eq!(results.len(), 3);
    assert_eq!((results[0].0.as_str(), results[0].1.as_str()), ("doc-a", "c1"));
    assert_eq!((results[1].0.as_str(), results[1].1.as_str()), ("doc-b", "c1"));
    assert_eq!((results[2].0.as_str(), results[2].1.as_str()), ("doc-b", "c2"));
    assert_eq!(results[0].2, results[1].2);
    assert_eq!(results[1].2, results[2].2);
}

#[test]
fn search_caps_results_at_k() {
    let mut store = VectorStore::new();
    upsert_vec(&mut store, "ns", "d1", "c1", &[1.0, 0.0], Value::Null).unwrap();
    upsert_vec(&mut store, "ns", "d2", "c1", &[0.8, 0.6], Value::Null).unwrap();
    upsert_vec(&mut store, "ns", "d3", "c1", &[0.0, 1.0], Value::Null).unwrap();

    let top2 = search(&store, "ns", &[1.0, 0.0], 2);
    assert_eq!(top2.len(), 2);
    assert_eq!(top2[0].0, "d1");
    assert_eq!(top2[1].0, "d2");
    assert!(top2[0].2 > top2[1].2);

    assert!(search(&store, "ns", &[1.0, 0.0], 0).is_empty());
}

#[test]
fn negative_scores_rank_below_positive() {
    let mut store = VectorStore::new();
    upsert_vec(&mut store, "ns", "pos", "c", &[1.0, 0.0], Value::Null).unwrap();
    upsert_vec(&mut store, "ns", "neg", "c", &[-1.0, 0.0], Value::Null).unwrap();

    let results = search(&store, "ns", &[1.0, 0.0], 2);
    assert_eq!(results.len(), 2);
    assert_eq!(results[0].0, "pos");
    assert_eq!(results[1].0, "neg");
    assert!((results[1].2 + 1.0).abs() < 1e-6);
}

#[test]
fn search_with_wrong_width_or_no_dims_is_empty() {
    let empty = VectorStore::new();
    assert!(empty.search_candidates("ns", 2).is_none());

    let mut store = VectorStore::new();
    upsert_vec(&mut store, "ns", "d", "c", &[1.0, 0.0], Value::Null).unwrap();
    assert!(store.search_candidates("ns", 3).is_none());
    assert!(search(&store, "ns", &[1.0, 0.0, 0.0], 5).is_empty());
}

#[test]
fn rank_drops_nan_scores() {
    let hits = vec![
        ScoredHit {
            doc_id: "a".into(),
            chunk_id: "c".into(),
            score_bits: 0.5f32.to_bits(),
        },
        ScoredHit {
            doc_id: "b".into(),
            chunk_id: "c".into(),
            score_bits: f32::NAN.to_bits(),
        },
    ];
    let ranked = rank_top_k(hits, 10);
    assert_eq!(ranked.len(), 1);
    assert_eq!(ranked[0].doc_id, "a");
}

#[test]
fn replace_document_is_atomic_on_failure() {
    let mut store = VectorStore::new();
    let staged = vec![
        StagedChunk {
            chunk_id: "chunk-1".into(),
            vector: bits(&normalize(&[0.1, 0.2])),
            meta: Value::Null,
        },
        StagedChunk {
            chunk_id: "chunk-2".into(),
            vector: bits(&normalize(&[0.3])),
            meta: Value::Null,
        },
    ];
    let outcome = store.replace_document("ns", "doc", staged);
    assert!(outcome.is_err(), "upsert should fail on mismatched dimensions");
    assert!(store.is_empty(), "store must remain empty");
}

#[test]
fn replace_document_replaces_old_chunks() {
    let mut store = VectorStore::new();
    upsert_vec(&mut store, "ns", "doc", "c1", &[1.0, 0.0], Value::Null).unwrap();
    let staged = vec![StagedChunk {
        chunk_id: "c2".into(),
        vector: bits(&normalize(&[0.0, 1.0])),
        meta: Value::Null,
    }];
    store.replace_document("ns", "doc", staged).unwrap();

    assert_eq!(store.len(), 1);
    assert!(store.chunk_meta("ns", "doc", "c1").is_none());
    assert!(store.chunk_meta("ns", "doc", "c2").is_some());
}

#[test]
fn chunk_key_round_trip() {
    let key = make_chunk_key("doc-7", "chunk_3");
    let (doc_id, chunk_id) = split_chunk_key(&key);
    assert_eq!(doc_id, "doc-7");
    assert_eq!(chunk_id, "chunk_3");

    let (whole, rest) = split_chunk_key("no-separator-here");
    assert_eq!(whole, "no-separator-here");
    assert_eq!(rest, "");
}

#[test]
fn default_k_is_ten() {
    assert_eq!(default_k(), 10);
}

#[test]
fn query_embedding_resolution_order() {
    let a = serde_json::from_str::<Value>("[1.0]").ok();
    let b = serde_json::from_str::<Value>("[2.0]").ok();
    let c = serde_json::from_str::<Value>("[3.0]").ok();

    assert_eq!(
        indexd::api::resolve_query_embedding(a.clone(), b.clone(), c.clone()),
        a
    );
    assert_eq!(
        indexd::api::resolve_query_embedding(None, b.clone(), c.clone()),
        b
    );
    assert_eq!(indexd::api::resolve_query_embedding(None, None, c.clone()), c);
    assert_eq!(indexd::api::resolve_query_embedding(None, None, None), None);
}

#[test]
fn chunk_meta_missing_is_none() {
    let mut store = VectorStore::new();
    upsert_vec(&mut store, "ns", "d", "c", &[1.0, 0.0], Value::Null).unwrap();
    assert!(store.chunk_meta("ns", "d", "other").is_none());
    assert!(store.chunk_meta("other", "d", "c").is_none());
    assert_eq!(store.chunk_meta("ns", "d", "c"), Some(&Value::Null));
}

#[test]
fn upsert_overwrites_same_key() {
    let mut store = VectorStore::new();
    upsert_vec(&mut store, "ns", "d", "c", &[1.0, 0.0], meta_from(r#"{"v": 1}"#)).unwrap();
    upsert_vec(&mut store, "ns", "d", "c", &[0.0, 1.0], meta_from(r#"{"v": 2}"#)).unwrap();

    assert_eq!(store.len(), 1, "re-upserting the same key overwrites in place");
    assert_eq!(store.chunk_meta("ns", "d", "c"), Some(&meta_from(r#"{"v": 2}"#)));
    let results = search(&store, "ns", &[0.0, 1.0], 1);
    assert_eq!(results.len(), 1);
    assert!((results[0].2 - 1.0).abs() < 1e-6);
}

#[test]
fn degenerate_zero_vector_is_kept_and_scores_zero() {
    let mut store = VectorStore::new();
    upsert_vec(&mut store, "ns", "zero", "c", &[0.0, 0.0], Value::Null).unwrap();
    upsert_vec(&mut store, "ns", "unit", "c", &[1.0, 0.0], Value::Null).unwrap();

    let results = search(&store, "ns", &[1.0, 0.0], 2);
    assert_eq!(results.len(), 2);
    assert_eq!(results[0].0, "unit");
    assert!((results[0].2 - 1.0).abs() < 1e-6);
    assert_eq!(results[1].0, "zero");
    assert_eq!(results[1].2, 0.0);
}
