use corpus::chunk::Chunk;
use corpus::store::{ChunkStore, VectorStore};

/// Cosine similarity.
fn cosine(a: &[f32], b: &[f32]) -> f32 {
    let dot: f32 = a.iter().zip(b).map(|(x, y)| x * y).sum();
    let na: f32 = a.iter().map(|x| x * x).sum();
    let nb: f32 = b.iter().map(|x| x * x).sum();
    dot / (na.sqrt() * nb.sqrt())
}

fn bits(v: &[f32]) -> Vec<u32> {
    v.iter().map(|x| x.to_bits()).collect()
}

/// The similarity of each vector of a store to a query, in the order of ids.
fn similarities(vs: &VectorStore, query: &[f32]) -> Vec<u32> {
    (0..vs.vectors.len())
        .map(|i| {
            let v: Vec<f32> = vs.vectors.entry(i).1.iter().map(|b| f32::from_bits(*b)).collect();
            cosine(query, &v).to_bits()
        })
        .collect()
}

fn chunk(id: &str, text: &str) -> Chunk {
    Chunk {
        id: id.to_string(),
        path: "p.md".to_string(),
        heading_path: vec![],
        text: text.to_string(),
    }
}

#[test]
fn knn_ranks_by_similarity() {
    let mut vs = VectorStore::default();
    vs.insert("far", bits(&[-1.0, 0.0]));
    vs.insert("near", bits(&[1.0, 0.1]));
    vs.insert("mid", bits(&[0.5, 1.0]));
    let top = vs.knn(&similarities(&vs, &[1.0, 0.0]), 2);
    assert_eq!(top.len(), 2);
    assert_eq!(top[0].id, "near");
    assert_eq!(top[1].id, "mid");
}

#[test]
fn equally_similar_ids_come_in_ascending_order() {
    let mut vs = VectorStore::default();
    for id in ["c", "a", "b"] {
        vs.insert(id, bits(&[1.0]));
    }
    let half = 0.5f32.to_bits();
    let top = vs.knn(&vec![half, half, half], 9);
    let ids: Vec<&str> = top.iter().map(|s| s.id.as_str()).collect();
    assert_eq!(ids, vec!["a", "b", "c"]);
    assert!(vs.knn(&vec![half, half, half], 0).is_empty());
}

#[test]
fn vectors_are_replaced_and_removed() {
    let mut vs = VectorStore::default();
    assert!(vs.is_empty());
    assert_eq!(vs.model, None);
    vs.insert("a", bits(&[1.0]));
    vs.insert("a", bits(&[2.0]));
    assert_eq!(vs.vectors.get("a"), Some(&bits(&[2.0])));
    vs.remove("a");
    vs.remove("a");
    assert!(vs.is_empty());
    assert!(vs.knn(&vec![], 3).is_empty());
}

#[test]
fn chunks_are_stored_under_their_ids() {
    let mut cs = ChunkStore::default();
    assert!(cs.is_empty());
    cs.insert(chunk("p.md#0", "old"));
    cs.insert(chunk("p.md#0", "new"));
    cs.insert(chunk("p.md#1", "other"));
    assert_eq!(cs.len(), 2);
    assert_eq!(cs.get("p.md#0"), Some(&chunk("p.md#0", "new")));
    assert_eq!(cs.get("p.md#2"), None);
    cs.remove("p.md#0");
    cs.remove("p.md#9");
    assert_eq!(cs.len(), 1);
    assert!(!cs.is_empty());
}
