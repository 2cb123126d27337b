use corpus::chunk::Chunk;
use corpus::config::CorpusConfig;
use corpus::corpus::{
    build, build_for_search, embed_input, fused_ids, plan_search, rank_lanes, results, semantic_ids, semantic_ready,
    BuildError, EmbeddingFailed, FileStep, IndexRun, PendingFile, Ranking, SearchPlan,
};
use corpus::manifest::{content_hash, Manifest};
use corpus::search::{FusionCandidate, Scored, SearchMode};
use corpus::store::{ChunkStore, VectorStore};

fn ids(list: &[&str]) -> Vec<String> {
    list.iter().map(|s| s.to_string()).collect()
}

fn chunk(id: &str, headings: &[&str], text: &str) -> Chunk {
    Chunk {
        id: id.to_string(),
        path: id.split('#').next().unwrap().to_string(),
        heading_path: ids(headings),
        text: text.to_string(),
    }
}

fn fresh_run() -> IndexRun {
    IndexRun::start(Manifest::default(), ChunkStore::default(), VectorStore::default(), None).0
}

fn pending(step: FileStep) -> PendingFile {
    match step {
        FileStep::Reindex(file) => file,
        FileStep::Unchanged => panic!("the file is not indexed"),
    }
}

fn index_text(run: &mut IndexRun, relpath: &str, body: &str) {
    let file = pending(run.file(relpath, body.as_bytes()));
    run.finish_file(file, None);
}

#[test]
fn a_new_file_is_indexed_and_then_skipped() {
    let mut run = fresh_run();
    let file = pending(run.file("a.md", b"# A\n\nalpha\n"));
    assert_eq!(file.relpath, "a.md");
    assert_eq!(file.hash, content_hash(b"# A\n\nalpha\n"));
    assert_eq!(file.chunks, vec![chunk("a.md#0", &["A"], "alpha")]);
    run.finish_file(file, None);
    assert_eq!(run.report.indexed, 1);
    assert_eq!(run.chunks.len(), 1);
    assert!(run.vectors.is_empty());
    assert_eq!(run.file("a.md", b"# A\n\nalpha\n"), FileStep::Unchanged);
    assert_eq!(run.report.skipped_unchanged, 1);
    let report = run.finish();
    assert_eq!(report.chunks, 1);
    assert_eq!(report.embedded, 0);
    assert_eq!(run.vectors.model, None);
}

#[test]
fn a_changed_file_leaves_none_of_its_old_chunks() {
    let mut run = fresh_run();
    index_text(&mut run, "a.md", "# A\n\none\n\n# B\n\ntwo\n");
    index_text(&mut run, "b.md", "other\n");
    assert_eq!(run.chunks.len(), 3);
    let file = pending(run.file("a.md", b"three\n"));
    // The old chunks are gone before the new ones come in.
    assert_eq!(run.chunks.len(), 1);
    assert_eq!(run.manifest.hash_of("a.md"), None);
    run.finish_file(file, None);
    assert_eq!(run.chunks.len(), 2);
    assert_eq!(run.chunks.get("a.md#0").unwrap().text, "three");
    assert_eq!(run.chunks.get("a.md#1"), None);
    assert_eq!(run.chunks.get("b.md#0").unwrap().text, "other");
}

#[test]
fn files_that_were_not_seen_are_dropped() {
    let mut run = fresh_run();
    for relpath in ["c.md", "a.md", "b.md"] {
        index_text(&mut run, relpath, "body");
    }
    assert_eq!(run.drop_stale(&ids(&["b.md", "new.md"])), ids(&["a.md", "c.md"]));
    assert_eq!(run.report.removed, 2);
    assert_eq!(run.chunks.len(), 1);
    assert!(run.chunks.get("b.md#0").is_some());
    assert_eq!(run.manifest.hash_of("a.md"), None);
    assert!(run.drop_stale(&ids(&["b.md"])).is_empty());
    assert_eq!(run.report.removed, 2);
}

fn embedder(model: &str, dims: usize) -> Option<(String, usize)> {
    Some((model.to_string(), dims))
}

#[test]
fn vectors_follow_their_chunks() {
    let mut run = IndexRun::start(
        Manifest::default(),
        ChunkStore::default(),
        VectorStore::default(),
        embedder("openai/m", 1),
    )
    .0;
    let file = pending(run.file("a.md", b"# A\n\none\n\n# B\n\ntwo\n"));
    run.finish_file(file, Some(vec![vec![1], vec![2]]));
    assert_eq!(run.report.embedded, 2);
    assert_eq!(run.vectors.vectors.get("a.md#1"), Some(&vec![2]));
    let file = pending(run.file("a.md", b"three\n"));
    assert!(run.vectors.is_empty());
    run.finish_file(file, Some(vec![vec![3]]));
    let report = run.finish();
    assert_eq!(report.embedded, 3);
    assert_eq!(report.chunks, 1);
    assert_eq!(run.vectors.model, Some("openai/m".to_string()));
    assert_eq!(run.vectors.dims, 1);
    assert!(run.drop_stale(&vec![]) == ids(&["a.md"]));
    assert!(run.vectors.is_empty());
    run.finish();
    assert_eq!(run.vectors.model, None);
    assert_eq!(run.vectors.dims, 0);
}

#[test]
fn a_lost_manifest_starts_over() {
    let mut chunks = ChunkStore::default();
    chunks.insert(chunk("gone.md#0", &[], "stale"));
    let mut vectors = VectorStore::default();
    vectors.insert("gone.md#0", vec![1]);
    vectors.model = Some("openai/m".to_string());
    let (run, rebuild) = IndexRun::start(Manifest::default(), chunks, vectors, None);
    assert!(rebuild);
    assert!(run.chunks.is_empty());
    assert!(run.vectors.is_empty());
    assert_eq!(run.vectors.model, None);

    let mut manifest = Manifest::default();
    manifest.upsert("a.md", "h".to_string(), ids(&["a.md#0"]));
    let mut chunks = ChunkStore::default();
    chunks.insert(chunk("a.md#0", &[], "kept"));
    let (run, rebuild) = IndexRun::start(manifest, chunks, VectorStore::default(), None);
    assert!(!rebuild);
    assert_eq!(run.chunks.len(), 1);
}

#[test]
fn a_run_takes_over_only_vectors_of_its_embedder() {
    let start = |given: Option<(String, usize)>| {
        let mut manifest = Manifest::default();
        manifest.upsert("a.md", "h".to_string(), ids(&["a.md#0"]));
        let mut chunks = ChunkStore::default();
        chunks.insert(chunk("a.md#0", &[], "kept"));
        let mut vectors = VectorStore::default();
        vectors.insert("a.md#0", vec![1, 2]);
        vectors.model = Some("openai/m".to_string());
        vectors.dims = 2;
        IndexRun::start(manifest, chunks, vectors, given).0.vectors
    };
    assert_eq!(start(None).vectors.len(), 1);
    assert_eq!(start(embedder("openai/m", 2)).vectors.len(), 1);
    assert!(start(embedder("openai/n", 2)).is_empty());
    assert!(start(embedder("openai/m", 3)).is_empty());
}

#[test]
fn indexing_once_with_embeddings_is_enough_for_a_semantic_search() {
    let config = CorpusConfig {
        embed_provider: Some("ollama".to_string()),
        embed_model: Some("nomic-embed-text".to_string()),
        embed_dims: Some(2),
        ..CorpusConfig::default()
    };
    let mut vectors = VectorStore::default();
    let has_embedder = |config: &CorpusConfig, mode, vectors: &VectorStore| {
        build_for_search(config.clone(), mode, vectors).unwrap().embedder.is_some()
    };
    assert!(!has_embedder(&config, SearchMode::Semantic, &vectors));
    vectors.insert("a.md#0", vec![1, 2]);
    assert!(has_embedder(&config, SearchMode::Semantic, &vectors));
    assert!(has_embedder(&config, SearchMode::Hybrid, &vectors));
    assert!(!has_embedder(&config, SearchMode::Text, &vectors));
    // A configuration that names no embedder has none.
    assert!(!has_embedder(&CorpusConfig::default(), SearchMode::Semantic, &vectors));
    // One that asks for embeddings must name it.
    let unnamed = CorpusConfig { embeddings: true, ..CorpusConfig::default() };
    assert_eq!(
        build_for_search(unnamed.clone(), SearchMode::Hybrid, &vectors).err(),
        Some(BuildError::NoProvider)
    );
    assert!(build_for_search(unnamed, SearchMode::Text, &vectors).is_ok());
}

#[test]
fn bytes_that_are_no_text_are_replaced() {
    let mut run = fresh_run();
    let file = pending(run.file("a.txt", b"caf\xc3\xa9 \xff!"));
    assert_eq!(file.chunks[0].text, "café \u{fffd}!");
}

#[test]
fn the_embedded_text_holds_the_headings() {
    assert_eq!(embed_input(&chunk("a#0", &[], "body")), "body");
    assert_eq!(embed_input(&chunk("a#0", &["A"], "body")), "A\n\nbody");
    assert_eq!(embed_input(&chunk("a#0", &["A", "B"], "body")), "A > B\n\nbody");
}

#[test]
fn a_failed_embedding_names_its_chunk() {
    let e = EmbeddingFailed { chunk_id: "a.md#3".to_string(), cause: "no key".to_string() };
    assert_eq!(e.message(), "embedding failed for a.md#3: no key");
}

#[test]
fn the_embedder_is_there_where_embeddings_are_on() {
    let config = CorpusConfig {
        embeddings: false,
        embed_provider: Some("ollama".to_string()),
        embed_model: Some("nomic-embed-text".to_string()),
        embed_dims: Some(768),
        ..CorpusConfig::default()
    };
    let off = build(config.clone(), None).unwrap();
    assert_eq!(off.embedder, None);
    assert_eq!(off.config, config);
    let on = build(config.clone(), Some(true)).unwrap();
    assert!(on.config.embeddings);
    assert_eq!(on.embedder.unwrap().model_id(), "ollama/nomic-embed-text");
    let configured = CorpusConfig { embeddings: true, ..config };
    assert!(build(configured.clone(), None).unwrap().embedder.is_some());
    assert!(build(configured, Some(false)).unwrap().embedder.is_none());
}

#[test]
fn what_embeddings_lack_is_reported_in_order() {
    let mut config = CorpusConfig::default();
    let error = |c: &CorpusConfig| build(c.clone(), Some(true)).err().unwrap();
    assert_eq!(error(&config), BuildError::NoProvider);
    assert_eq!(error(&config).message(), "embeddings enabled but embed_provider is not set");
    config.embed_provider = Some("nobody".to_string());
    assert_eq!(error(&config), BuildError::NoModel);
    assert_eq!(error(&config).message(), "embeddings enabled but embed_model is not set");
    config.embed_model = Some("m".to_string());
    assert_eq!(error(&config), BuildError::NoDims);
    assert_eq!(error(&config).message(), "embeddings enabled but embed_dims is not set");
    config.embed_dims = Some(3);
    assert!(matches!(error(&config), BuildError::Unsupported(_)));
    assert!(error(&config).message().contains("'nobody'"));
}

#[test]
fn a_call_can_replace_the_globs() {
    let corpus = build(CorpusConfig::default(), None).unwrap();
    assert_eq!(corpus.globs(None), corpus.config.include_globs);
    assert_eq!(corpus.globs(Some(ids(&["*.rst"]))), ids(&["*.rst"]));
    assert!(corpus.globs(Some(vec![])).is_empty());
}

#[test]
fn a_search_is_planned_by_its_mode() {
    let mut chunks = ChunkStore::default();
    assert_eq!(plan_search(&chunks, 5, SearchMode::Hybrid), None);
    chunks.insert(chunk("a#0", &[], "x"));
    assert_eq!(
        plan_search(&chunks, 5, SearchMode::Hybrid),
        Some(SearchPlan { fetch: 20, text: true, semantic: true })
    );
    assert_eq!(
        plan_search(&chunks, 1, SearchMode::Text),
        Some(SearchPlan { fetch: 4, text: true, semantic: false })
    );
    assert_eq!(
        plan_search(&chunks, usize::MAX, SearchMode::Semantic),
        Some(SearchPlan { fetch: usize::MAX, text: false, semantic: true })
    );
}

#[test]
fn the_semantic_lane_needs_an_embedder_and_vectors() {
    let mut vectors = VectorStore::default();
    assert!(!semantic_ready(true, &vectors));
    vectors.insert("b", vec![1]);
    vectors.insert("a", vec![2]);
    assert!(semantic_ready(true, &vectors));
    assert!(!semantic_ready(false, &vectors));
    let similarities = vec![0.1f32.to_bits(), 0.9f32.to_bits()];
    assert_eq!(semantic_ids(&vectors, &similarities, 5), ids(&["b", "a"]));
    assert_eq!(semantic_ids(&vectors, &similarities, 1), ids(&["b"]));
}

#[test]
fn lanes_are_ranked_by_mode() {
    let rank = |mode, text: &[&str], semantic: &[&str], embedder| {
        rank_lanes(mode, ids(text), ids(semantic), embedder)
    };
    assert_eq!(
        rank(SearchMode::Text, &["a"], &["b"], true),
        Ok(Ranking::Ids(ids(&["a"])))
    );
    assert_eq!(
        rank(SearchMode::Semantic, &["a"], &["b"], true),
        Ok(Ranking::Ids(ids(&["b"])))
    );
    assert_eq!(
        rank(SearchMode::Hybrid, &["a"], &[], false),
        Ok(Ranking::Ids(ids(&["a"])))
    );
    assert_eq!(
        rank(SearchMode::Hybrid, &["a"], &["b", "a"], true),
        Ok(Ranking::Fuse(vec![
            FusionCandidate { id: "a".to_string(), ranks: vec![1, 2] },
            FusionCandidate { id: "b".to_string(), ranks: vec![1] },
        ]))
    );
    assert_eq!(rank(SearchMode::Semantic, &[], &[], true), Ok(Ranking::Ids(vec![])));
    assert_eq!(
        rank(SearchMode::Semantic, &[], &[], false).err().unwrap().message(),
        "semantic search requires embeddings to be enabled and an index built with embeddings \
         (run corpus_index with embeddings: true)"
    );
}

#[test]
fn fused_candidates_are_ranked_by_score() {
    let scored = |id: &str, score: f32| Scored { id: id.to_string(), score: score.to_bits() };
    assert_eq!(
        fused_ids(vec![scored("a", 0.01), scored("b", 0.03), scored("c", 0.01)]),
        ids(&["b", "a", "c"])
    );
}

#[test]
fn results_keep_the_places_of_ids_without_a_chunk() {
    let mut chunks = ChunkStore::default();
    chunks.insert(chunk("a.md#0", &["A"], "alpha   beta"));
    chunks.insert(chunk("b.md#0", &[], &"word ".repeat(100)));
    let ranked = ids(&["b.md#0", "missing", "a.md#0", "a.md#0"]);
    let found = results(&ranked, 3, &chunks);
    assert_eq!(found.len(), 2);
    assert_eq!(found[0].path, "b.md");
    assert_eq!(found[0].rank, 0);
    assert_eq!(found[0].snippet.chars().count(), 240);
    assert!(found[0].snippet.ends_with("word…"));
    assert_eq!(found[1].path, "a.md");
    assert_eq!(found[1].heading_path, vec!["A"]);
    assert_eq!(found[1].snippet, "alpha beta");
    assert_eq!(found[1].rank, 2);
    assert!(results(&ranked, 0, &chunks).is_empty());
    assert_eq!(results(&ranked, 99, &chunks).len(), 3);
}
